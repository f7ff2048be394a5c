//! A time of day on a repeating 24-hour ring, with wraparound arithmetic
//! and the forward wait computation the dispatch loop needs.

use vstd::arithmetic::div_mod::{
    lemma_add_mod_noop, lemma_fundamental_div_mod, lemma_fundamental_div_mod_converse_div,
    lemma_fundamental_div_mod_converse_mod, lemma_mod_add_multiples_vanish, lemma_mod_bound,
    lemma_small_mod,
};
use vstd::prelude::*;

verus! {

/// Seconds in one full day on the 24-hour ring.
pub const SECONDS_PER_DAY: u32 = 86_400;

/// Milliseconds in one full day on the 24-hour ring.
pub const MILLIS_PER_DAY: u64 = 86_400_000;

/// A time of day: hour, minute and second, with no calendar date. Times
/// live on a repeating 24-hour ring, so arithmetic wraps through midnight.
#[derive(Debug, Clone, Copy, PartialEq, Eq, Structural, Default)]
pub struct Time {
    pub hour: u8,
    pub minute: u8,
    pub second: u8,
}

/// A wall-clock reading: the time of day plus the milliseconds already
/// elapsed within its second.
#[derive(Debug, Clone, Copy, PartialEq, Eq, Structural)]
pub struct Moment {
    pub time: Time,
    pub millisecond: u16,
}

impl Time {
    /// Each field lies within its clock range.
    pub open spec fn valid(self) -> bool {
        self.hour < 24 && self.minute < 60 && self.second < 60
    }

    /// The count of seconds since midnight that this time stands for.
    pub open spec fn total_seconds(self) -> int {
        self.hour * 3600 + self.minute * 60 + self.second
    }
}

impl Moment {
    /// The time of day is valid and the millisecond count stays under one
    /// second.
    pub open spec fn valid(self) -> bool {
        self.time.valid() && self.millisecond < 1000
    }

    /// The count of milliseconds since midnight that this reading stands
    /// for.
    pub open spec fn total_millis(self) -> int {
        self.time.total_seconds() * 1000 + self.millisecond
    }
}

/// The time of day reached `n` seconds after midnight, wrapping around
/// the ring as often as needed.
pub open spec fn time_of_seconds(n: int) -> Time {
    let r = n % (SECONDS_PER_DAY as int);
    Time {
        hour: (r / 3600) as u8,
        minute: ((r % 3600) / 60) as u8,
        second: (r % 60) as u8,
    }
}

/// How many milliseconds pass from the reading `now` until the next
/// occurrence of `target` on the ring. The wait is forward-only: when
/// `target` does not lie strictly ahead within the current day, the wait
/// runs through midnight to the next day's occurrence, so an exact match
/// waits one full day.
pub open spec fn wait_millis(target: Time, now: Moment) -> int {
    let t = target.total_seconds() * 1000;
    if t > now.total_millis() {
        t - now.total_millis()
    } else {
        t + MILLIS_PER_DAY - now.total_millis()
    }
}

/// A time built from any nonnegative second count is a valid time whose
/// second count is the remainder of the original modulo one day.
pub proof fn lemma_time_of_seconds_props(n: int)
    requires
        n >= 0,
    ensures
        time_of_seconds(n).valid(),
        time_of_seconds(n).total_seconds() == n % (SECONDS_PER_DAY as int),
{
    let r = n % 86400;
    lemma_mod_bound(n, 86400);
    lemma_fundamental_div_mod(r, 3600);
    lemma_fundamental_div_mod(r % 3600, 60);
    lemma_mod_bound(r, 3600);
    lemma_mod_bound(r % 3600, 60);
    let h = r / 3600;
    let m = (r % 3600) / 60;
    let s = (r % 3600) % 60;
    assert(h < 24) by {
        if h >= 24 {
            assert(3600 * h >= 3600 * 24) by (nonlinear_arith)
                requires
                    h >= 24,
            ;
        }
    }
    assert(h >= 0) by {
        if h < 0 {
            assert(3600 * h <= 3600 * -1) by (nonlinear_arith)
                requires
                    h < 0,
            ;
        }
    }
    assert(r == 3600 * h + 60 * m + s);
    lemma_fundamental_div_mod_converse_mod(r, 60, 60 * h + m, s);
    assert(s == r % 60);
}

/// A valid time is recovered unchanged from its own second count: the
/// conversion to seconds since midnight and back round-trips.
pub proof fn lemma_seconds_round_trip(t: Time)
    requires
        t.valid(),
    ensures
        time_of_seconds(t.total_seconds()) == t,
{
    let n = t.total_seconds();
    lemma_small_mod(n as nat, 86400);
    assert(n % 86400 == n);
    lemma_fundamental_div_mod_converse_div(n, 3600, t.hour as int, t.minute * 60 + t.second);
    lemma_fundamental_div_mod_converse_mod(n, 3600, t.hour as int, t.minute * 60 + t.second);
    lemma_fundamental_div_mod_converse_div(t.minute * 60 + t.second, 60, t.minute as int, t.second as int);
    lemma_fundamental_div_mod_converse_mod(n, 60, t.hour * 60 + t.minute, t.second as int);
}

/// Two valid times with the same second count are the same time.
pub proof fn lemma_total_seconds_injective(a: Time, b: Time)
    requires
        a.valid(),
        b.valid(),
        a.total_seconds() == b.total_seconds(),
    ensures
        a == b,
{
    lemma_seconds_round_trip(a);
    lemma_seconds_round_trip(b);
}

/// Subtracting a zero-second duration on the ring leaves a valid time
/// unchanged.
pub proof fn lemma_sub_zero_identity(t: Time)
    requires
        t.valid(),
    ensures
        time_of_seconds(
            t.total_seconds() - time_of_seconds(0).total_seconds() + SECONDS_PER_DAY,
        ) == t,
{
    assert(time_of_seconds(0).total_seconds() == 0);
    let n = t.total_seconds() + SECONDS_PER_DAY;
    lemma_mod_add_multiples_vanish(t.total_seconds(), SECONDS_PER_DAY as int);
    lemma_small_mod(t.total_seconds() as nat, SECONDS_PER_DAY as nat);
    assert(n % (SECONDS_PER_DAY as int) == t.total_seconds() % (SECONDS_PER_DAY as int));
    lemma_seconds_round_trip(t);
}

/// Ring subtraction is undone by ring addition: taking `t2` seconds off
/// `t1` and then adding them back recovers `t1` on the 24-hour ring.
pub proof fn lemma_sub_then_add(t1: Time, t2: Time)
    requires
        t1.valid(),
        t2.valid(),
    ensures
        ({
            let d = time_of_seconds(t1.total_seconds() - t2.total_seconds() + SECONDS_PER_DAY);
            time_of_seconds(d.total_seconds() + t2.total_seconds()) == t1
        }),
{
    let day = SECONDS_PER_DAY as int;
    let x = t1.total_seconds() - t2.total_seconds() + day;
    lemma_time_of_seconds_props(x);
    let d = time_of_seconds(x);
    lemma_add_mod_noop(x, t2.total_seconds(), day);
    lemma_small_mod(t2.total_seconds() as nat, day as nat);
    lemma_small_mod(t1.total_seconds() as nat, day as nat);
    lemma_mod_add_multiples_vanish(t1.total_seconds(), day);
    assert((d.total_seconds() + t2.total_seconds()) % day == t1.total_seconds() % day);
    assert(time_of_seconds(d.total_seconds() + t2.total_seconds()) == time_of_seconds(
        t1.total_seconds(),
    ));
    lemma_seconds_round_trip(t1);
}

/// The wait until a target time is always positive and never more than
/// one full day; it is the full day exactly when the clock reads the
/// target to the millisecond, so a slot that just fired waits for its
/// next occurrence rather than firing again.
pub proof fn lemma_wait_millis_bounds(target: Time, now: Moment)
    requires
        target.valid(),
        now.valid(),
    ensures
        0 < wait_millis(target, now),
        wait_millis(target, now) <= MILLIS_PER_DAY,
        (wait_millis(target, now) == MILLIS_PER_DAY) <==> (now.time == target
            && now.millisecond == 0),
{
    if wait_millis(target, now) == MILLIS_PER_DAY {
        assert(target.total_seconds() * 1000 == now.time.total_seconds() * 1000
            + now.millisecond);
        assert(now.millisecond == 0);
        lemma_total_seconds_injective(target, now.time);
    }
}

impl Time {
    /// The seconds since midnight, as a machine integer.
    pub fn to_total_seconds(&self) -> (n: usize)
        ensures
            n == self.total_seconds(),
    {
        self.hour as usize * 3600 + self.minute as usize * 60 + self.second as usize
    }

    /// The time of day reached `total` seconds after midnight; counts of a
    /// day or more wrap around the ring.
    pub fn second(total: usize) -> (t: Time)
        ensures
            t == time_of_seconds(total as int),
    {
        let n: u32 = (total % 86400) as u32;
        proof {
            lemma_mod_bound(total as int, 86400);
            lemma_small_mod(n as nat, 86400);
        }
        Time {
            hour: (n / 3600) as u8,
            minute: ((n % 3600) / 60) as u8,
            second: (n % 60) as u8,
        }
    }

    /// Ring addition: the time of day `other.total_seconds()` seconds after
    /// `self`, wrapping through midnight.
    pub fn add(self, other: Time) -> (t: Time)
        requires
            self.valid(),
            other.valid(),
        ensures
            t == time_of_seconds(self.total_seconds() + other.total_seconds()),
    {
        Time::second(self.to_total_seconds() + other.to_total_seconds())
    }

    /// Ring subtraction: the time of day `other.total_seconds()` seconds
    /// before `self`, wrapping back through midnight when `self` is too
    /// early in the day.
    pub fn sub(self, other: Time) -> (t: Time)
        requires
            self.valid(),
            other.valid(),
        ensures
            t == time_of_seconds(self.total_seconds() - other.total_seconds() + SECONDS_PER_DAY),
    {
        Time::second(self.to_total_seconds() + 86_400 - other.to_total_seconds())
    }

    /// The milliseconds to wait from the reading `now` until the next
    /// occurrence of `self` on the ring.
    pub fn duration_from(&self, now: Moment) -> (ms: u64)
        requires
            self.valid(),
            now.valid(),
        ensures
            ms == wait_millis(*self, now),
    {
        let t: u64 = self.to_total_seconds() as u64 * 1000;
        let n: u64 = now.time.to_total_seconds() as u64 * 1000 + now.millisecond as u64;
        if t > n {
            t - n
        } else {
            t + MILLIS_PER_DAY - n
        }
    }
}

} // verus!
