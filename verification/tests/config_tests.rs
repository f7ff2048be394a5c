use boom_you_up_r::config::Config;
use boom_you_up_r::item::{dispatch_kinds, ActionKind, Command, Item};
use boom_you_up_r::time::{Moment, Time};

fn t(hour: u8, minute: u8, second: u8) -> Time {
    Time { hour, minute, second }
}

fn at(hour: u8, minute: u8, second: u8, millisecond: u16) -> Moment {
    Moment { time: t(hour, minute, second), millisecond }
}

fn cmd(name: &str, notify: isize) -> Command {
    Command {
        command: String::from(name),
        parameters: String::new(),
        audio: false,
        notify,
    }
}

#[test]
fn one_slot_fires_and_then_waits_a_day_for_its_next_occurrence() {
    let items = vec![Item {
        time: t(7, 0, 0),
        commands: vec![cmd("notepad", -1)],
    }];
    let mut config = Config::new(items, t(6, 59, 58));

    let (index, wait) = config.next(at(6, 59, 58, 0));
    assert_eq!(index, 0);
    assert_eq!(wait, 2_000);
    let due = &config.items[index];
    assert_eq!(due.commands.len(), 1);
    let kinds = dispatch_kinds(&due.commands);
    assert_eq!(kinds, vec![ActionKind::Execute]);

    // two seconds later the slot has fired; the same slot is due tomorrow
    let (index, wait) = config.next(at(7, 0, 2, 0));
    assert_eq!(index, 0);
    assert_eq!(wait, 86_398_000);
}

#[test]
fn new_sorts_its_items_and_points_at_the_first_due_slot() {
    let items = vec![
        Item { time: t(18, 0, 0), commands: vec![cmd("c", -1)] },
        Item { time: t(6, 0, 0), commands: vec![cmd("a", -1)] },
        Item { time: t(12, 0, 0), commands: vec![cmd("b", -1)] },
    ];
    let config = Config::new(items, t(7, 30, 0));
    let times: Vec<Time> = config.items.iter().map(|item| item.time).collect();
    assert_eq!(times, vec![t(6, 0, 0), t(12, 0, 0), t(18, 0, 0)]);
    assert_eq!(config.next_index, 1);
}

#[test]
fn new_wraps_the_pointer_when_the_day_is_over() {
    let items = vec![
        Item { time: t(6, 0, 0), commands: vec![cmd("a", -1)] },
        Item { time: t(12, 0, 0), commands: vec![cmd("b", -1)] },
    ];
    let config = Config::new(items, t(20, 0, 0));
    assert_eq!(config.next_index, 0);
}

#[test]
fn new_merges_items_that_share_a_time() {
    let items = vec![
        Item { time: t(9, 0, 0), commands: vec![cmd("a", -1)] },
        Item { time: t(9, 0, 0), commands: vec![cmd("b", -1)] },
    ];
    let config = Config::new(items, t(0, 0, 0));
    assert_eq!(config.items.len(), 1);
    assert_eq!(config.items[0].commands.len(), 2);
    assert_eq!(config.items[0].commands[0].command, "a");
    assert_eq!(config.items[0].commands[1].command, "b");
}

#[test]
fn next_cycles_through_every_slot_forever() {
    let items = vec![
        Item { time: t(6, 0, 0), commands: vec![cmd("a", -1)] },
        Item { time: t(12, 0, 0), commands: vec![cmd("b", -1)] },
    ];
    let mut config = Config::new(items, t(0, 0, 0));
    let now = at(5, 0, 0, 0);
    let (first, _) = config.next(now);
    let (second, _) = config.next(now);
    let (third, _) = config.next(now);
    assert_eq!(first, 0);
    assert_eq!(second, 1);
    assert_eq!(third, 0);
}

#[test]
fn next_reports_the_wait_for_the_slot_it_hands_out() {
    let items = vec![
        Item { time: t(6, 0, 0), commands: vec![cmd("a", -1)] },
        Item { time: t(12, 0, 0), commands: vec![cmd("b", -1)] },
    ];
    let mut config = Config::new(items, t(11, 0, 0));
    // pointer starts at the 12:00 slot, one hour ahead
    let (index, wait) = config.next(at(11, 0, 0, 0));
    assert_eq!(index, 1);
    assert_eq!(wait, 3_600_000);
    // then wraps to the 06:00 slot, due the next morning
    let (index, wait) = config.next(at(12, 0, 1, 0));
    assert_eq!(index, 0);
    assert_eq!(wait, 18 * 3_600_000 - 1_000);
}
