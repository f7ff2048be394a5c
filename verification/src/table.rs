//! The sorted event table: one slot per trigger time, kept in ascending
//! order with unique times. Insertion merges commands that share a
//! trigger time; lookup finds the next due slot, wrapping to the start of
//! the ring; and the expansion pass derives advance-notice entries.

use crate::item::{notification_of, notification_of_spec, Command, Item};
use crate::time::{lemma_time_of_seconds_props, Time, SECONDS_PER_DAY};
use vstd::prelude::*;

verus! {

/// The mathematical reading of one table slot: the trigger time as its
/// second count, and the commands scheduled at it in order.
pub type Entry = (int, Seq<Command>);

/// The mathematical reading of a table: each slot as an [`Entry`].
pub open spec fn entries_of(table: Seq<Item>) -> Seq<Entry> {
    table.map(|i: int, it: Item| (it.time.total_seconds(), it.commands@))
}

/// The slots appear in strictly ascending time order, so every trigger
/// time owns at most one slot.
pub open spec fn entries_sorted(es: Seq<Entry>) -> bool {
    forall|i: int, j: int| 0 <= i < j < es.len() ==> es[i].0 < es[j].0
}

/// Some slot carries the trigger time `t`.
pub open spec fn has_time(es: Seq<Entry>, t: int) -> bool {
    exists|k: int| 0 <= k < es.len() && (#[trigger] es[k]).0 == t
}

/// Every slot's time is a valid time of day.
pub open spec fn times_valid(table: Seq<Item>) -> bool {
    forall|i: int| 0 <= i < table.len() ==> (#[trigger] table[i]).time.valid()
}

/// Inserting the command `c` at trigger time `t`: scanning from the
/// front, a slot already at `t` takes `c` at the end of its command
/// sequence, the first later slot has a fresh one-command slot placed
/// before it, and a table that ends early grows a fresh slot at its end.
pub open spec fn insert_model(es: Seq<Entry>, t: int, c: Command) -> Seq<Entry>
    decreases es.len(),
{
    if es.len() == 0 {
        seq![(t, seq![c])]
    } else if es[0].0 > t {
        seq![(t, seq![c])] + es
    } else if es[0].0 == t {
        seq![(es[0].0, es[0].1.push(c))] + es.drop_first()
    } else {
        seq![es[0]] + insert_model(es.drop_first(), t, c)
    }
}

/// The number of slots whose time lies strictly before `t`; in a sorted
/// table this is where a slot for `t` stands or would be placed.
pub open spec fn lower_bound(es: Seq<Entry>, t: int) -> int
    decreases es.len(),
{
    if es.len() == 0 {
        0
    } else if es[0].0 < t {
        1 + lower_bound(es.drop_first(), t)
    } else {
        0
    }
}

/// Dropping the first slot of a sorted table leaves a sorted table.
proof fn lemma_drop_first_sorted(es: Seq<Entry>)
    requires
        entries_sorted(es),
        es.len() > 0,
    ensures
        entries_sorted(es.drop_first()),
{
    let rest = es.drop_first();
    assert forall|i: int, j: int| 0 <= i < j < rest.len() implies rest[i].0 < rest[j].0 by {
        assert(rest[i] == es[i + 1]);
        assert(rest[j] == es[j + 1]);
    }
}

/// In a sorted table, [`lower_bound`] splits the slots into those
/// strictly before `t` and those at or after it.
pub proof fn lemma_lower_bound_props(es: Seq<Entry>, t: int)
    requires
        entries_sorted(es),
    ensures
        0 <= lower_bound(es, t) <= es.len(),
        forall|k: int| 0 <= k < lower_bound(es, t) ==> (#[trigger] es[k]).0 < t,
        forall|k: int| lower_bound(es, t) <= k < es.len() ==> (#[trigger] es[k]).0 >= t,
    decreases es.len(),
{
    if es.len() > 0 {
        let rest = es.drop_first();
        lemma_drop_first_sorted(es);
        lemma_lower_bound_props(rest, t);
        if es[0].0 < t {
            let lb = 1 + lower_bound(rest, t);
            assert forall|k: int| 0 <= k < lb implies (#[trigger] es[k]).0 < t by {
                if k > 0 {
                    assert(es[k] == rest[k - 1]);
                }
            }
            assert forall|k: int| lb <= k < es.len() implies (#[trigger] es[k]).0 >= t by {
                assert(es[k] == rest[k - 1]);
            }
        }
    }
}

/// Any index that splits a sorted table into strictly-before and
/// at-or-after parts is its [`lower_bound`].
pub proof fn lemma_lower_bound_unique(es: Seq<Entry>, t: int, i: int)
    requires
        entries_sorted(es),
        0 <= i <= es.len(),
        forall|k: int| 0 <= k < i ==> (#[trigger] es[k]).0 < t,
        i < es.len() ==> es[i].0 >= t,
    ensures
        lower_bound(es, t) == i,
{
    lemma_lower_bound_props(es, t);
    let lb = lower_bound(es, t);
    if lb < i {
        assert(es[lb].0 < t);
    }
    if lb > i {
        assert(es[i].0 < t);
    }
}

/// What insertion does to a sorted table, stated by position: a slot
/// already at `t` takes `c` at the end of its command sequence, and
/// otherwise a fresh one-command slot appears at the [`lower_bound`]
/// position.
pub proof fn lemma_insert_model_characterized(es: Seq<Entry>, t: int, c: Command)
    requires
        entries_sorted(es),
    ensures
        ({
            let i = lower_bound(es, t);
            if i < es.len() && es[i].0 == t {
                insert_model(es, t, c) == es.update(i, (t, es[i].1.push(c)))
            } else {
                insert_model(es, t, c) == es.insert(i, (t, seq![c]))
            }
        }),
    decreases es.len(),
{
    let i = lower_bound(es, t);
    if es.len() == 0 {
        assert(insert_model(es, t, c) =~= es.insert(0, (t, seq![c])));
    } else if es[0].0 > t {
        assert(insert_model(es, t, c) =~= es.insert(0, (t, seq![c])));
    } else if es[0].0 == t {
        assert(insert_model(es, t, c) =~= es.update(0, (t, es[0].1.push(c))));
    } else {
        let rest = es.drop_first();
        lemma_drop_first_sorted(es);
        lemma_insert_model_characterized(rest, t, c);
        lemma_lower_bound_props(rest, t);
        let j = lower_bound(rest, t);
        assert(i == 1 + j);
        if j < rest.len() && rest[j].0 == t {
            assert(es[i] == rest[j]);
            assert(insert_model(es, t, c) == seq![es[0]] + rest.update(j, (t, rest[j].1.push(c))));
            assert(seq![es[0]] + rest.update(j, (t, rest[j].1.push(c)))
                =~= es.update(i, (t, es[i].1.push(c))));
        } else {
            if i < es.len() {
                assert(es[i] == rest[j]);
            }
            assert(insert_model(es, t, c) == seq![es[0]] + rest.insert(j, (t, seq![c])));
            assert(seq![es[0]] + rest.insert(j, (t, seq![c]))
                =~= es.insert(i, (t, seq![c])));
        }
    }
}

/// Insertion keeps a sorted table sorted: merging at an existing time
/// changes no times, and a fresh slot lands between its neighbours.
pub proof fn lemma_insert_model_sorted(es: Seq<Entry>, t: int, c: Command)
    requires
        entries_sorted(es),
    ensures
        entries_sorted(insert_model(es, t, c)),
{
    lemma_lower_bound_props(es, t);
    lemma_insert_model_characterized(es, t, c);
    let i = lower_bound(es, t);
    let res = insert_model(es, t, c);
    if i < es.len() && es[i].0 == t {
        assert forall|p: int, q: int| 0 <= p < q < res.len() implies res[p].0 < res[q].0 by {
            assert(res[p].0 == es[p].0);
            assert(res[q].0 == es[q].0);
        }
    } else {
        assert forall|p: int, q: int| 0 <= p < q < res.len() implies res[p].0 < res[q].0 by {
            if p < i {
                assert(res[p] == es[p]);
            } else if p > i {
                assert(res[p] == es[p - 1]);
            }
            if q < i {
                assert(res[q] == es[q]);
            } else if q > i {
                assert(res[q] == es[q - 1]);
            }
        }
    }
}

/// Placing a fresh one-command slot into a table reads as inserting the
/// matching entry into the table's reading.
proof fn lemma_entry_inserted(
    before: Seq<Item>,
    after: Seq<Item>,
    i: int,
    it: Item,
    t: int,
    c: Command,
)
    requires
        0 <= i <= before.len(),
        after == before.insert(i, it),
        it.time.total_seconds() == t,
        it.commands@ == seq![c],
    ensures
        entries_of(after) == entries_of(before).insert(i, (t, seq![c])),
{
    before.insert_ensures(i, it);
    entries_of(before).insert_ensures(i, (t, seq![c]));
    assert forall|k: int| 0 <= k < after.len() implies entries_of(after)[k] == entries_of(
        before,
    ).insert(i, (t, seq![c]))[k] by {
        if k < i {
            assert(after[k] == before[k]);
            assert(entries_of(before).insert(i, (t, seq![c]))[k] == entries_of(before)[k]);
        } else if k == i {
            assert(after[k] == it);
        } else {
            assert(before.insert(i, it)[(k - 1) + 1] == before[k - 1]);
            assert(entries_of(before).insert(i, (t, seq![c]))[(k - 1) + 1]
                == entries_of(before)[k - 1]);
        }
    }
    assert(entries_of(after) =~= entries_of(before).insert(i, (t, seq![c])));
}

/// Inserts `command` at trigger time `time`, scanning forward from
/// `search_index`: a slot already at that time takes the command at the
/// end of its sequence, and otherwise a fresh slot is placed so that a
/// sorted table stays sorted. Starting past index zero is sound exactly
/// when every skipped slot lies strictly before `time`.
pub fn add_command(config: &mut Vec<Item>, time: Time, command: Command, search_index: usize)
    ensures
        (entries_sorted(entries_of(old(config)@)) && (forall|k: int|
            0 <= k < old(config)@.len() && k < search_index
                ==> (#[trigger] entries_of(old(config)@)[k]).0 < time.total_seconds()))
            ==> entries_of(final(config)@)
                == insert_model(entries_of(old(config)@), time.total_seconds(), command),
        (times_valid(old(config)@) && time.valid()) ==> times_valid(final(config)@),
{
    let ghost es = entries_of(old(config)@);
    let ghost t_spec = time.total_seconds();
    let ghost hyp = entries_sorted(es) && (forall|k: int|
        0 <= k < es.len() && k < search_index ==> (#[trigger] es[k]).0 < t_spec);
    let t = time.to_total_seconds();
    let mut i = search_index;
    while i < config.len()
        invariant
            search_index <= i,
            *config == *old(config),
            t == t_spec,
            t_spec == time.total_seconds(),
            es == entries_of(config@),
            hyp == (entries_sorted(es) && (forall|k: int|
                0 <= k < es.len() && k < search_index ==> (#[trigger] es[k]).0 < t_spec)),
            forall|k: int|
                search_index <= k < i && k < config@.len()
                    ==> (#[trigger] es[k]).0 < t_spec,
        decreases config.len() - i,
    {
        let ct = config[i].time.to_total_seconds();
        if ct > t {
            let mut commands: Vec<Command> = Vec::new();
            commands.push(command);
            let it = Item { time, commands };
            let ghost itg = it;
            let ghost before = config@;
            config.insert(i, it);
            proof {
                assert(es[i as int].0 == ct);
                assert(itg.commands@ =~= seq![command]);
                before.insert_ensures(i as int, itg);
                if times_valid(before) && time.valid() {
                    assert forall|k: int| 0 <= k < config@.len() implies (#[trigger] config@[k]).time.valid() by {
                        if k < i {
                            assert(config@[k] == before[k]);
                        } else if k > i {
                            assert(before.insert(i as int, itg)[(k - 1) + 1] == before[k - 1]);
                        }
                    }
                }
                if hyp {
                    lemma_lower_bound_unique(es, t_spec, i as int);
                    lemma_insert_model_characterized(es, t_spec, command);
                    lemma_entry_inserted(before, config@, i as int, itg, t_spec, command);
                }
            }
            return;
        } else if ct == t {
            let ghost before = config@;
            config[i].commands.push(command);
            proof {
                assert(es[i as int].0 == ct);
                if times_valid(before) && time.valid() {
                    assert forall|k: int| 0 <= k < config@.len() implies (#[trigger] config@[k]).time.valid() by {
                        if k != i {
                            assert(config@[k] == before[k]);
                        } else {
                            assert(config@[k].time == before[k].time);
                        }
                    }
                }
                if hyp {
                    lemma_lower_bound_unique(es, t_spec, i as int);
                    lemma_insert_model_characterized(es, t_spec, command);
                    assert forall|k: int| 0 <= k < config@.len() implies entries_of(config@)[k]
                        == es.update(i as int, (t_spec, es[i as int].1.push(command)))[k] by {
                        if k != i {
                            assert(config@[k] == before[k]);
                        }
                    }
                    assert(entries_of(config@)
                        =~= es.update(i as int, (t_spec, es[i as int].1.push(command))));
                }
            }
            return;
        }
        i = i + 1;
    }
    let mut commands: Vec<Command> = Vec::new();
    commands.push(command);
    let it = Item { time, commands };
    let ghost itg = it;
    let ghost before = config@;
    config.push(it);
    proof {
        assert(itg.commands@ =~= seq![command]);
        if times_valid(before) && time.valid() {
            assert forall|k: int| 0 <= k < config@.len() implies (#[trigger] config@[k]).time.valid() by {
                if k < before.len() {
                    assert(config@[k] == before[k]);
                }
            }
        }
        if hyp {
            lemma_lower_bound_unique(es, t_spec, es.len() as int);
            lemma_insert_model_characterized(es, t_spec, command);
            assert(config@ =~= before.insert(before.len() as int, itg));
            lemma_entry_inserted(before, config@, before.len() as int, itg, t_spec, command);
        }
    }
}

/// Ordered insertion offered on the table itself: the same merge as
/// [`add_command`], reachable from either end of the table. The reverse
/// scans are an implementation shortcut only; the contracts state that
/// every variant leaves the same table behind.
pub trait AddCommand {
    /// The table's reading as entries, against which the insertion
    /// contracts are stated.
    spec fn entries(&self) -> Seq<Entry>;

    /// Every slot's trigger time is a valid time of day.
    spec fn slot_times_valid(&self) -> bool;

    /// Inserts `command` at `time`, scanning forward from `index`;
    /// starting past index zero is sound exactly when every skipped slot
    /// lies strictly before `time`.
    fn add_command_with_index(&mut self, time: Time, command: Command, index: usize)
        ensures
            (entries_sorted(old(self).entries()) && (forall|k: int|
                0 <= k < old(self).entries().len() && k < index
                    ==> (#[trigger] old(self).entries()[k]).0 < time.total_seconds()))
                ==> final(self).entries()
                    == insert_model(old(self).entries(), time.total_seconds(), command),
            (old(self).slot_times_valid() && time.valid()) ==> final(self).slot_times_valid(),
    ;

    /// Inserts `command` at `time`, keeping a sorted table sorted and
    /// merging into an existing slot at the same time.
    fn add_command(&mut self, time: Time, command: Command)
        ensures
            entries_sorted(old(self).entries()) ==> final(self).entries()
                == insert_model(old(self).entries(), time.total_seconds(), command),
            (old(self).slot_times_valid() && time.valid()) ==> final(self).slot_times_valid(),
    ;

    /// Inserts `command` at `time`, scanning backward from `index`;
    /// starting before the end is sound exactly when every unscanned slot
    /// lies strictly after `time`.
    fn add_command_reverse_with_index(&mut self, time: Time, command: Command, index: usize)
        requires
            index <= old(self).entries().len(),
        ensures
            (entries_sorted(old(self).entries()) && (forall|k: int|
                index <= k < old(self).entries().len()
                    ==> (#[trigger] old(self).entries()[k]).0 > time.total_seconds()))
                ==> final(self).entries()
                    == insert_model(old(self).entries(), time.total_seconds(), command),
            (old(self).slot_times_valid() && time.valid()) ==> final(self).slot_times_valid(),
    ;

    /// Inserts `command` at `time` by scanning backward from the end;
    /// observably the same insertion as [`AddCommand::add_command`].
    fn add_command_reverse(&mut self, time: Time, command: Command)
        ensures
            entries_sorted(old(self).entries()) ==> final(self).entries()
                == insert_model(old(self).entries(), time.total_seconds(), command),
            (old(self).slot_times_valid() && time.valid()) ==> final(self).slot_times_valid(),
    ;
}

impl AddCommand for Vec<Item> {
    open spec fn entries(&self) -> Seq<Entry> {
        entries_of(self@)
    }

    open spec fn slot_times_valid(&self) -> bool {
        times_valid(self@)
    }

    fn add_command_with_index(&mut self, time: Time, command: Command, index: usize) {
        add_command(self, time, command, index);
    }

    fn add_command(&mut self, time: Time, command: Command) {
        add_command(self, time, command, 0);
    }

    fn add_command_reverse_with_index(&mut self, time: Time, command: Command, index: usize) {
        let ghost es = entries_of(old(self)@);
        let ghost t_spec = time.total_seconds();
        let ghost hyp = entries_sorted(es) && (forall|k: int|
            index <= k < es.len() ==> (#[trigger] es[k]).0 > t_spec);
        let t = time.to_total_seconds();
        let mut i = index;
        while i > 0
            invariant
                i <= index,
                index <= self@.len(),
                *self == *old(self),
                t == t_spec,
                t_spec == time.total_seconds(),
                es == entries_of(self@),
                hyp == (entries_sorted(es) && (forall|k: int|
                    index <= k < es.len() ==> (#[trigger] es[k]).0 > t_spec)),
                forall|k: int| i <= k < index ==> (#[trigger] es[k]).0 > t_spec,
            decreases i,
        {
            let j = i - 1;
            let ct = self[j].time.to_total_seconds();
            if ct < t {
                let mut commands: Vec<Command> = Vec::new();
                commands.push(command);
                let it = Item { time, commands };
                let ghost itg = it;
                let ghost before = self@;
                self.insert(j + 1, it);
                proof {
                    assert(es[j as int].0 == ct);
                    assert(itg.commands@ =~= seq![command]);
                    before.insert_ensures(j + 1, itg);
                    if times_valid(before) && time.valid() {
                        assert forall|k: int| 0 <= k < self@.len() implies (#[trigger] self@[k]).time.valid() by {
                            if k < j + 1 {
                                assert(self@[k] == before[k]);
                            } else if k > j + 1 {
                                assert(before.insert(j + 1, itg)[(k - 1) + 1] == before[k - 1]);
                            }
                        }
                    }
                    if hyp {
                        assert forall|k: int| 0 <= k < j + 1 implies (#[trigger] es[k]).0 < t_spec by {
                            if k < j {
                                assert(es[k].0 < es[j as int].0);
                            }
                        }
                        lemma_lower_bound_unique(es, t_spec, j + 1);
                        lemma_insert_model_characterized(es, t_spec, command);
                        lemma_entry_inserted(before, self@, j + 1, itg, t_spec, command);
                    }
                }
                return;
            } else if ct == t {
                let ghost before = self@;
                self[j].commands.push(command);
                proof {
                    assert(es[j as int].0 == ct);
                    if times_valid(before) && time.valid() {
                        assert forall|k: int| 0 <= k < self@.len() implies (#[trigger] self@[k]).time.valid() by {
                            if k != j {
                                assert(self@[k] == before[k]);
                            } else {
                                assert(self@[k].time == before[k].time);
                            }
                        }
                    }
                    if hyp {
                        assert forall|k: int| 0 <= k < j implies (#[trigger] es[k]).0 < t_spec by {
                            assert(es[k].0 < es[j as int].0);
                        }
                        lemma_lower_bound_unique(es, t_spec, j as int);
                        lemma_insert_model_characterized(es, t_spec, command);
                        assert forall|k: int| 0 <= k < self@.len() implies entries_of(self@)[k]
                            == es.update(j as int, (t_spec, es[j as int].1.push(command)))[k] by {
                            if k != j {
                                assert(self@[k] == before[k]);
                            }
                        }
                        assert(entries_of(self@)
                            =~= es.update(j as int, (t_spec, es[j as int].1.push(command))));
                    }
                }
                return;
            }
            i = j;
        }
        let mut commands: Vec<Command> = Vec::new();
        commands.push(command);
        let it = Item { time, commands };
        let ghost itg = it;
        let ghost before = self@;
        self.insert(0, it);
        proof {
            assert(itg.commands@ =~= seq![command]);
            before.insert_ensures(0, itg);
            if times_valid(before) && time.valid() {
                assert forall|k: int| 0 <= k < self@.len() implies (#[trigger] self@[k]).time.valid() by {
                    if k > 0 {
                        assert(before.insert(0, itg)[(k - 1) + 1] == before[k - 1]);
                    }
                }
            }
            if hyp {
                lemma_lower_bound_unique(es, t_spec, 0);
                lemma_insert_model_characterized(es, t_spec, command);
                lemma_entry_inserted(before, self@, 0, itg, t_spec, command);
            }
        }
    }

    fn add_command_reverse(&mut self, time: Time, command: Command) {
        let len = self.len();
        self.add_command_reverse_with_index(time, command, len);
    }
}

/// Whether some slot lies at or after the trigger time `t`.
pub open spec fn has_at_or_after(es: Seq<Entry>, t: int) -> bool {
    exists|k: int| 0 <= k < es.len() && (#[trigger] es[k]).0 >= t
}

/// Finds the first slot whose time is at or after `time`; when every
/// slot lies before it, wraps to index zero, the earliest slot of the
/// next cycle on the ring.
pub fn first_at_or_after(items: &Vec<Item>, time: Time) -> (index: usize)
    ensures
        forall|k: int| 0 <= k < index ==> (#[trigger] entries_of(items@)[k]).0
            < time.total_seconds(),
        has_at_or_after(entries_of(items@), time.total_seconds()) ==> index < items@.len()
            && entries_of(items@)[index as int].0 >= time.total_seconds(),
        !has_at_or_after(entries_of(items@), time.total_seconds()) ==> index == 0,
{
    let t = time.to_total_seconds();
    let mut i: usize = 0;
    while i < items.len()
        invariant
            i <= items@.len(),
            t == time.total_seconds(),
            forall|k: int| 0 <= k < i ==> (#[trigger] entries_of(items@)[k]).0
                < time.total_seconds(),
        decreases items@.len() - i,
    {
        let ct = items[i].time.to_total_seconds();
        if ct >= t {
            proof {
                assert(entries_of(items@)[i as int].0 == ct);
            }
            return i;
        }
        proof {
            assert(entries_of(items@)[i as int].0 == ct);
        }
        i = i + 1;
    }
    proof {
        if has_at_or_after(entries_of(items@), time.total_seconds()) {
            let k = choose|k: int| 0 <= k < entries_of(items@).len()
                && (#[trigger] entries_of(items@)[k]).0 >= time.total_seconds();
            assert(entries_of(items@)[k].0 < time.total_seconds());
        }
    }
    0
}

/// Inserting every command of one slot at trigger time `t`, in order.
pub open spec fn insert_all(es: Seq<Entry>, t: int, cs: Seq<Command>) -> Seq<Entry>
    decreases cs.len(),
{
    if cs.len() == 0 {
        es
    } else {
        insert_all(insert_model(es, t, cs[0]), t, cs.drop_first())
    }
}

/// The table built from raw items by ordered insertion of every command
/// under its item's trigger time: sorted, with one slot per time.
pub open spec fn build_rec(es: Seq<Entry>, items: Seq<Item>) -> Seq<Entry>
    decreases items.len(),
{
    if items.len() == 0 {
        es
    } else {
        build_rec(
            insert_all(es, items[0].time.total_seconds(), items[0].commands@),
            items.drop_first(),
        )
    }
}

/// The sorted table that a raw item list builds, starting from nothing.
pub open spec fn build_model(items: Seq<Item>) -> Seq<Entry> {
    build_rec(Seq::empty(), items)
}

/// The second count at which the advance notice for a command fires:
/// `notify` seconds before its trigger time `t`, wrapping back through
/// midnight on the ring.
pub open spec fn alert_seconds(t: int, notify: int) -> int {
    (t - notify % (SECONDS_PER_DAY as int) + SECONDS_PER_DAY) % (SECONDS_PER_DAY as int)
}

/// The derived pass over one slot's commands: each command that asks for
/// notice places its notification command at its alert time.
pub open spec fn expand_cmds(es: Seq<Entry>, t: int, cs: Seq<Command>) -> Seq<Entry>
    decreases cs.len(),
{
    if cs.len() == 0 {
        es
    } else {
        let es1 = if cs[0].notify >= 0 {
            insert_model(es, alert_seconds(t, cs[0].notify as int), notification_of_spec(cs[0]))
        } else {
            es
        };
        expand_cmds(es1, t, cs.drop_first())
    }
}

/// The expansion pass over a whole item list: every slot's own commands,
/// then the derived notification of each command that asks for notice.
pub open spec fn expand_rec(es: Seq<Entry>, items: Seq<Item>) -> Seq<Entry>
    decreases items.len(),
{
    if items.len() == 0 {
        es
    } else {
        let t = items[0].time.total_seconds();
        expand_rec(
            expand_cmds(insert_all(es, t, items[0].commands@), t, items[0].commands@),
            items.drop_first(),
        )
    }
}

/// The expanded table that a raw item list yields: every original entry
/// plus one derived notification per command with a nonnegative lead.
pub open spec fn expand_model(items: Seq<Item>) -> Seq<Entry> {
    expand_rec(Seq::empty(), items)
}

/// One step of [`insert_all`], phrased over the suffix that a loop has
/// left to process.
pub(crate) proof fn lemma_insert_all_step(es: Seq<Entry>, t: int, cs: Seq<Command>, j: int)
    requires
        0 <= j < cs.len(),
    ensures
        insert_all(es, t, cs.skip(j)) == insert_all(insert_model(es, t, cs[j]), t, cs.skip(j + 1)),
{
    assert(cs.skip(j)[0] == cs[j]);
    assert(cs.skip(j).drop_first() =~= cs.skip(j + 1));
}

/// One step of [`expand_cmds`], phrased over the suffix that a loop has
/// left to process.
proof fn lemma_expand_cmds_step(es: Seq<Entry>, t: int, cs: Seq<Command>, j: int)
    requires
        0 <= j < cs.len(),
    ensures
        expand_cmds(es, t, cs.skip(j)) == expand_cmds(
            if cs[j].notify >= 0 {
                insert_model(es, alert_seconds(t, cs[j].notify as int), notification_of_spec(cs[j]))
            } else {
                es
            },
            t,
            cs.skip(j + 1),
        ),
{
    assert(cs.skip(j)[0] == cs[j]);
    assert(cs.skip(j).drop_first() =~= cs.skip(j + 1));
}

/// One step of [`build_rec`], phrased over the suffix that a loop has
/// left to process.
pub(crate) proof fn lemma_build_rec_step(es: Seq<Entry>, s: Seq<Item>, i: int)
    requires
        0 <= i < s.len(),
    ensures
        build_rec(es, s.skip(i)) == build_rec(
            insert_all(es, s[i].time.total_seconds(), s[i].commands@),
            s.skip(i + 1),
        ),
{
    assert(s.skip(i)[0] == s[i]);
    assert(s.skip(i).drop_first() =~= s.skip(i + 1));
}

/// One step of [`expand_rec`], phrased over the suffix that a loop has
/// left to process.
proof fn lemma_expand_rec_step(es: Seq<Entry>, s: Seq<Item>, i: int)
    requires
        0 <= i < s.len(),
    ensures
        expand_rec(es, s.skip(i)) == ({
            let t = s[i].time.total_seconds();
            expand_rec(expand_cmds(insert_all(es, t, s[i].commands@), t, s[i].commands@), s.skip(i + 1))
        }),
{
    assert(s.skip(i)[0] == s[i]);
    assert(s.skip(i).drop_first() =~= s.skip(i + 1));
}

/// Replaces the table with its expanded form: every original entry stays,
/// and each command that asks for advance notice contributes one derived
/// notification command, placed `notify` seconds before its trigger on
/// the ring and merged into the sorted order. The result is again sorted
/// with one slot per time.
pub fn parse_config(config: &mut Vec<Item>)
    requires
        times_valid(old(config)@),
    ensures
        entries_of(final(config)@) == expand_model(old(config)@),
        entries_sorted(entries_of(final(config)@)),
        times_valid(final(config)@),
{
    let ghost orig = config@;
    let mut result: Vec<Item> = Vec::new();
    let mut i: usize = 0;
    proof {
        assert(orig.skip(0) =~= orig);
        assert(entries_of(result@) =~= Seq::<Entry>::empty());
    }
    while i < config.len()
        invariant
            i <= orig.len(),
            *config == *old(config),
            orig == config@,
            times_valid(orig),
            entries_sorted(entries_of(result@)),
            times_valid(result@),
            expand_rec(entries_of(result@), orig.skip(i as int)) == expand_model(orig),
        decreases orig.len() - i,
    {
        let t = config[i].time;
        let ghost cs = orig[i as int].commands@;
        let ghost ts = t.total_seconds();
        proof {
            lemma_expand_rec_step(entries_of(result@), orig, i as int);
            assert(cs.skip(0) =~= cs);
        }
        let mut j: usize = 0;
        while j < config[i].commands.len()
            invariant
                i < orig.len(),
                j <= cs.len(),
                *config == *old(config),
                orig == config@,
                times_valid(orig),
                t == orig[i as int].time,
                ts == t.total_seconds(),
                cs == orig[i as int].commands@,
                entries_sorted(entries_of(result@)),
                times_valid(result@),
                expand_rec(
                    expand_cmds(insert_all(entries_of(result@), ts, cs.skip(j as int)), ts, cs),
                    orig.skip(i as int + 1),
                ) == expand_model(orig),
            decreases cs.len() - j,
        {
            let cmd = config[i].commands[j].clone();
            let ghost before = entries_of(result@);
            add_command(&mut result, t, cmd, 0);
            proof {
                lemma_insert_all_step(before, ts, cs, j as int);
                lemma_insert_model_sorted(before, ts, cs[j as int]);
            }
            j = j + 1;
        }
        proof {
            assert(cs.skip(j as int) =~= Seq::<Command>::empty());
            assert(cs.skip(0) =~= cs);
        }
        let mut j: usize = 0;
        while j < config[i].commands.len()
            invariant
                i < orig.len(),
                j <= cs.len(),
                *config == *old(config),
                orig == config@,
                times_valid(orig),
                t == orig[i as int].time,
                ts == t.total_seconds(),
                cs == orig[i as int].commands@,
                entries_sorted(entries_of(result@)),
                times_valid(result@),
                expand_rec(
                    expand_cmds(entries_of(result@), ts, cs.skip(j as int)),
                    orig.skip(i as int + 1),
                ) == expand_model(orig),
            decreases cs.len() - j,
        {
            let n = config[i].commands[j].notify;
            if n >= 0 {
                let lead = Time::second(n as usize);
                let at = t.sub(lead);
                let nc = notification_of(&config[i].commands[j]);
                let ghost before = entries_of(result@);
                proof {
                    assert(n as usize as int == n as int);
                    lemma_time_of_seconds_props(n as int);
                    assert(t.valid());
                    lemma_time_of_seconds_props(
                        t.total_seconds() - lead.total_seconds() + SECONDS_PER_DAY,
                    );
                    assert(at.total_seconds() == alert_seconds(ts, n as int));
                }
                result.add_command_reverse(at, nc);
                proof {
                    lemma_expand_cmds_step(before, ts, cs, j as int);
                    lemma_insert_model_sorted(before, at.total_seconds(), nc);
                }
            } else {
                proof {
                    lemma_expand_cmds_step(entries_of(result@), ts, cs, j as int);
                }
            }
            j = j + 1;
        }
        proof {
            assert(cs.skip(j as int) =~= Seq::<Command>::empty());
        }
        i = i + 1;
    }
    proof {
        assert(orig.skip(i as int) =~= Seq::<Item>::empty());
    }
    *config = result;
}

/// Two commands inserted at one fresh trigger time land in a single
/// slot that holds both, in insertion order, and the table grows by one
/// slot; merging never duplicates a time.
pub proof fn lemma_insert_same_time_merges(es: Seq<Entry>, t: int, c1: Command, c2: Command)
    requires
        entries_sorted(es),
        !has_time(es, t),
    ensures
        ({
            let v = insert_model(insert_model(es, t, c1), t, c2);
            &&& v.len() == es.len() + 1
            &&& entries_sorted(v)
            &&& exists|k: int| 0 <= k < v.len() && (#[trigger] v[k]) == (t, seq![c1, c2])
        }),
{
    let i = lower_bound(es, t);
    lemma_lower_bound_props(es, t);
    lemma_insert_model_characterized(es, t, c1);
    lemma_insert_model_sorted(es, t, c1);
    let v1 = insert_model(es, t, c1);
    assert(!(i < es.len() && es[i].0 == t)) by {
        if i < es.len() && es[i].0 == t {
            assert(has_time(es, t));
        }
    }
    assert(v1 == es.insert(i, (t, seq![c1])));
    es.insert_ensures(i, (t, seq![c1]));
    assert(v1[i] == (t, seq![c1]));
    lemma_lower_bound_unique(v1, t, i);
    lemma_insert_model_characterized(v1, t, c2);
    lemma_insert_model_sorted(v1, t, c2);
    let v = insert_model(v1, t, c2);
    assert(v == v1.update(i, (t, v1[i].1.push(c2))));
    assert(v[i] == (t, seq![c1].push(c2)));
    assert(seq![c1].push(c2) =~= seq![c1, c2]);
}

} // verus!
