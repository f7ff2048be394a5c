use boom_you_up_r::item::{dispatch_kinds, notification_of, ActionKind, Command, Item};
use boom_you_up_r::table::{add_command, first_at_or_after, parse_config, AddCommand};
use boom_you_up_r::time::Time;

fn t(hour: u8, minute: u8, second: u8) -> Time {
    Time { hour, minute, second }
}

fn cmd(name: &str, notify: isize) -> Command {
    Command {
        command: String::from(name),
        parameters: String::new(),
        audio: false,
        notify,
    }
}

#[test]
fn same_time_inserts_merge_into_one_slot_in_order() {
    let mut table: Vec<Item> = Vec::new();
    add_command(&mut table, t(7, 0, 0), cmd("first", -1), 0);
    add_command(&mut table, t(7, 0, 0), cmd("second", -1), 0);
    assert_eq!(table.len(), 1);
    assert_eq!(table[0].time, t(7, 0, 0));
    assert_eq!(table[0].commands.len(), 2);
    assert_eq!(table[0].commands[0].command, "first");
    assert_eq!(table[0].commands[1].command, "second");
}

#[test]
fn new_times_keep_the_table_sorted() {
    let mut table: Vec<Item> = Vec::new();
    add_command(&mut table, t(12, 0, 0), cmd("noon", -1), 0);
    add_command(&mut table, t(6, 0, 0), cmd("dawn", -1), 0);
    add_command(&mut table, t(18, 0, 0), cmd("dusk", -1), 0);
    add_command(&mut table, t(9, 30, 0), cmd("brunch", -1), 0);
    let times: Vec<Time> = table.iter().map(|item| item.time).collect();
    assert_eq!(times, vec![t(6, 0, 0), t(9, 30, 0), t(12, 0, 0), t(18, 0, 0)]);
    for item in &table {
        assert_eq!(item.commands.len(), 1);
    }
}

#[test]
fn forward_and_reverse_insertion_build_the_same_table() {
    let inputs = [
        (t(12, 0, 0), "a"),
        (t(6, 0, 0), "b"),
        (t(12, 0, 0), "c"),
        (t(23, 59, 59), "d"),
        (t(0, 0, 0), "e"),
    ];
    let mut forward: Vec<Item> = Vec::new();
    let mut reverse: Vec<Item> = Vec::new();
    for (time, name) in inputs {
        forward.add_command(time, cmd(name, -1));
        reverse.add_command_reverse(time, cmd(name, -1));
    }
    assert_eq!(forward.len(), reverse.len());
    for (f, r) in forward.iter().zip(reverse.iter()) {
        assert_eq!(f.time, r.time);
        let f_names: Vec<&str> = f.commands.iter().map(|c| c.command.as_str()).collect();
        let r_names: Vec<&str> = r.commands.iter().map(|c| c.command.as_str()).collect();
        assert_eq!(f_names, r_names);
    }
}

#[test]
fn search_index_skips_a_known_prefix() {
    let mut table: Vec<Item> = Vec::new();
    add_command(&mut table, t(6, 0, 0), cmd("a", -1), 0);
    add_command(&mut table, t(12, 0, 0), cmd("b", -1), 0);
    // every slot before index 1 lies before 12:00, so starting there is sound
    add_command(&mut table, t(12, 0, 0), cmd("c", -1), 1);
    assert_eq!(table.len(), 2);
    assert_eq!(table[1].commands.len(), 2);
}

#[test]
fn indexed_trait_insertion_merges_like_the_plain_one() {
    let mut table: Vec<Item> = Vec::new();
    table.add_command(t(6, 0, 0), cmd("a", -1));
    table.add_command(t(12, 0, 0), cmd("b", -1));
    // forward from an index whose prefix lies before the new time
    table.add_command_with_index(t(12, 0, 0), cmd("c", -1), 1);
    // backward from an index whose suffix lies after the new time
    let len = table.len();
    table.add_command_reverse_with_index(t(6, 0, 0), cmd("d", -1), len);
    assert_eq!(table.len(), 2);
    assert_eq!(table[0].commands.len(), 2);
    assert_eq!(table[0].commands[1].command, "d");
    assert_eq!(table[1].commands.len(), 2);
    assert_eq!(table[1].commands[1].command, "c");
}

#[test]
fn first_at_or_after_wraps_to_the_start() {
    let mut table: Vec<Item> = Vec::new();
    add_command(&mut table, t(6, 0, 0), cmd("a", -1), 0);
    add_command(&mut table, t(12, 0, 0), cmd("b", -1), 0);
    add_command(&mut table, t(18, 0, 0), cmd("c", -1), 0);
    assert_eq!(first_at_or_after(&table, t(20, 0, 0)), 0);
    assert_eq!(first_at_or_after(&table, t(12, 0, 0)), 1);
    assert_eq!(first_at_or_after(&table, t(0, 0, 0)), 0);
    assert_eq!(first_at_or_after(&table, t(12, 0, 1)), 2);
}

#[test]
fn first_at_or_after_on_an_empty_table_is_zero() {
    let table: Vec<Item> = Vec::new();
    assert_eq!(first_at_or_after(&table, t(10, 0, 0)), 0);
}

#[test]
fn expansion_places_the_alert_before_the_trigger() {
    let mut config = vec![Item {
        time: t(7, 0, 0),
        commands: vec![cmd("task", 120)],
    }];
    parse_config(&mut config);
    assert_eq!(config.len(), 2);
    assert_eq!(config[0].time, t(6, 58, 0));
    assert_eq!(config[0].commands.len(), 1);
    assert_eq!(config[0].commands[0].notify, -2);
    assert_eq!(config[0].commands[0].command, "task");
    assert_eq!(config[1].time, t(7, 0, 0));
    assert_eq!(config[1].commands[0].notify, 120);
}

#[test]
fn expansion_wraps_an_alert_through_midnight() {
    let mut config = vec![Item {
        time: t(0, 0, 30),
        commands: vec![cmd("early", 90)],
    }];
    parse_config(&mut config);
    assert_eq!(config.len(), 2);
    assert_eq!(config[0].time, t(0, 0, 30));
    assert_eq!(config[0].commands[0].notify, 90);
    assert_eq!(config[1].time, t(23, 59, 0));
    assert_eq!(config[1].commands[0].notify, -2);
}

#[test]
fn expansion_folds_a_zero_lead_into_the_same_slot() {
    let mut config = vec![Item {
        time: t(11, 45, 14),
        commands: vec![cmd("task", 0)],
    }];
    parse_config(&mut config);
    assert_eq!(config.len(), 1);
    assert_eq!(config[0].commands.len(), 2);
    assert_eq!(config[0].commands[0].notify, 0);
    assert_eq!(config[0].commands[1].notify, -2);
}

#[test]
fn expansion_leaves_commands_without_notice_alone() {
    let mut config = vec![
        Item { time: t(8, 0, 0), commands: vec![cmd("a", -1)] },
        Item { time: t(9, 0, 0), commands: vec![cmd("b", -1)] },
    ];
    parse_config(&mut config);
    assert_eq!(config.len(), 2);
    assert_eq!(config[0].commands.len(), 1);
    assert_eq!(config[1].commands.len(), 1);
}

#[test]
fn derived_notifications_dispatch_as_notifications() {
    let real = Command {
        command: String::from("song.mp3"),
        parameters: String::new(),
        audio: true,
        notify: 60,
    };
    let derived = notification_of(&real);
    assert_eq!(derived.notify, -2);
    assert_eq!(derived.command, "song.mp3");
    assert!(derived.audio);
    let kinds = dispatch_kinds(&vec![derived, real, cmd("prog", -1)]);
    assert_eq!(
        kinds,
        vec![ActionKind::Notification, ActionKind::PlayAudio, ActionKind::Execute]
    );
}

#[test]
fn every_command_keeps_its_place_in_the_dispatch_plan() {
    let slot = vec![cmd("will-fail", -1), cmd("second", -1)];
    let kinds = dispatch_kinds(&slot);
    assert_eq!(kinds.len(), 2);
    assert_eq!(kinds[0], ActionKind::Execute);
    assert_eq!(kinds[1], ActionKind::Execute);
}
