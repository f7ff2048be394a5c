//! The dispatch bookkeeping: a table built once from raw items, plus the
//! index of the next due slot, advanced cyclically and never exhausted.

use crate::item::Item;
use crate::table::{
    add_command, build_model, build_rec, entries_of, entries_sorted, first_at_or_after,
    has_at_or_after, insert_all, lemma_build_rec_step, lemma_insert_all_step,
    lemma_insert_model_sorted, times_valid, Entry,
};
use crate::time::{wait_millis, Moment, Time};
use vstd::prelude::*;

verus! {

/// The scheduling state the dispatch loop reads: the sorted table of
/// slots, and the index of the slot due next. The table is built once
/// and only read afterwards; the index walks it cyclically.
pub struct Config {
    pub items: Vec<Item>,
    pub next_index: usize,
}

impl Config {
    /// The table is sorted with one slot per valid trigger time, and the
    /// pointer stays inside it whenever it is nonempty.
    pub open spec fn wf(&self) -> bool {
        &&& entries_sorted(entries_of(self.items@))
        &&& times_valid(self.items@)
        &&& self.items@.len() > 0 ==> self.next_index < self.items@.len()
        &&& self.items@.len() == 0 ==> self.next_index == 0
    }

    /// Builds the sorted table from raw items, merging commands that
    /// share a trigger time, and points at the first slot at or after
    /// `time`, wrapping to the earliest slot when none remains today.
    pub fn new(items: Vec<Item>, time: Time) -> (c: Config)
        requires
            times_valid(items@),
        ensures
            c.wf(),
            entries_of(c.items@) == build_model(items@),
            forall|k: int| 0 <= k < c.next_index
                ==> (#[trigger] entries_of(c.items@)[k]).0 < time.total_seconds(),
            has_at_or_after(build_model(items@), time.total_seconds()) ==> c.next_index
                < c.items@.len() && entries_of(c.items@)[c.next_index as int].0
                >= time.total_seconds(),
            !has_at_or_after(build_model(items@), time.total_seconds()) ==> c.next_index == 0,
    {
        let ghost orig = items@;
        let mut table: Vec<Item> = Vec::new();
        let mut i: usize = 0;
        proof {
            assert(orig.skip(0) =~= orig);
            assert(entries_of(table@) =~= Seq::<Entry>::empty());
        }
        while i < items.len()
            invariant
                i <= orig.len(),
                items@ == orig,
                times_valid(orig),
                entries_sorted(entries_of(table@)),
                times_valid(table@),
                build_rec(entries_of(table@), orig.skip(i as int)) == build_model(orig),
            decreases orig.len() - i,
        {
            let t = items[i].time;
            let ghost cs = orig[i as int].commands@;
            let ghost ts = t.total_seconds();
            proof {
                lemma_build_rec_step(entries_of(table@), orig, i as int);
                assert(cs.skip(0) =~= cs);
            }
            let mut j: usize = 0;
            while j < items[i].commands.len()
                invariant
                    i < orig.len(),
                    j <= cs.len(),
                    items@ == orig,
                    times_valid(orig),
                    t == orig[i as int].time,
                    ts == t.total_seconds(),
                    cs == orig[i as int].commands@,
                    entries_sorted(entries_of(table@)),
                    times_valid(table@),
                    build_rec(
                        insert_all(entries_of(table@), ts, cs.skip(j as int)),
                        orig.skip(i as int + 1),
                    ) == build_model(orig),
                decreases cs.len() - j,
            {
                let cmd = items[i].commands[j].clone();
                let ghost before = entries_of(table@);
                add_command(&mut table, t, cmd, 0);
                proof {
                    lemma_insert_all_step(before, ts, cs, j as int);
                    lemma_insert_model_sorted(before, ts, cs[j as int]);
                }
                j = j + 1;
            }
            proof {
                assert(cs.skip(j as int) =~= Seq::<crate::item::Command>::empty());
            }
            i = i + 1;
        }
        proof {
            assert(orig.skip(i as int) =~= Seq::<Item>::empty());
        }
        let next_index = first_at_or_after(&table, time);
        Config { items: table, next_index }
    }

    /// Hands out the slot due next together with the milliseconds to
    /// wait for it from the reading `now`, and advances the pointer
    /// cyclically. The table itself never changes.
    pub fn next(&mut self, now: Moment) -> (r: (usize, u64))
        requires
            old(self).wf(),
            old(self).items@.len() > 0,
            now.valid(),
        ensures
            final(self).items == old(self).items,
            final(self).next_index == (old(self).next_index + 1) as int % old(
                self,
            ).items@.len() as int,
            final(self).wf(),
            r.0 == old(self).next_index,
            r.1 == wait_millis(old(self).items@[old(self).next_index as int].time, now),
    {
        let index = self.next_index;
        let len = self.items.len();
        assert(index < len);
        let duration = self.items[index].time.duration_from(now);
        self.next_index = (index + 1) % len;
        (index, duration)
    }
}

} // verus!
