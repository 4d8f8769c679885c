//! Instants, as whole seconds since the Unix epoch in UTC, and the calendar
//! facts the scheduling rules read off them.

use vstd::prelude::*;
use vstd::arithmetic::div_mod::{lemma_fundamental_div_mod, lemma_fundamental_div_mod_converse};

verus! {

/// The earliest instant a `chrono::DateTime<Utc>` can hold
/// (-262143-01-01T00:00:00Z).
pub const MIN_INSTANT: i64 = -8334601315200;

/// The latest instant a `chrono::DateTime<Utc>` can hold
/// (262142-12-31T23:59:59Z).
pub const MAX_INSTANT: i64 = 8210266876799;

/// The largest number of whole seconds a `chrono::TimeDelta` holds.
pub const MAX_DELTA_SECS: i64 = 9223372036854775;

pub const SECS_PER_MINUTE: i64 = 60;
pub const SECS_PER_HOUR: i64 = 3600;
pub const SECS_PER_DAY: i64 = 86400;

/// Whether `t` is an instant a `DateTime<Utc>` can represent.
pub open spec fn representable(t: int) -> bool {
    MIN_INSTANT <= t <= MAX_INSTANT
}

/// Day of the week of the instant `t`, 0 for Monday through 6 for Sunday.
/// 1970-01-01 was a Thursday.
pub open spec fn weekday_of(t: int) -> int {
    ((t / 86400) + 3) % 7
}

/// Hour of the day (0-23) of the instant `t`.
pub open spec fn hour_of(t: int) -> int {
    (t % 86400) / 3600
}

/// Seconds since midnight of the instant `t`.
pub open spec fn second_of_day(t: int) -> int {
    t % 86400
}

/// A multiple of a week large enough to make any instant near the
/// representable range positive.
const WEEK_SHIFT: i64 = 9676800000000;

proof fn lemma_shift_day(t: int)
    ensures
        (t + 9676800000000) / 86400 == t / 86400 + 112000000,
        (t + 9676800000000) % 86400 == t % 86400,
{
    lemma_fundamental_div_mod(t, 86400);
    let q = t / 86400;
    let r = t % 86400;
    lemma_fundamental_div_mod_converse(t + 9676800000000, 86400, q + 112000000, r);
}

/// Day of the week of `t`, 0 for Monday.
pub fn weekday(t: i64) -> (d: u8)
    requires
        -9676800000000 <= t <= 9676800000000,
    ensures
        d as int == weekday_of(t as int),
        d < 7,
{
    let shifted: u64 = (t + WEEK_SHIFT) as u64;
    proof {
        lemma_shift_day(t as int);
        assert((t / 86400 + 112000000 + 3) % 7 == (t / 86400 + 3) % 7) by {
            lemma_fundamental_div_mod(t / 86400 + 3, 7);
            lemma_fundamental_div_mod_converse(
                t / 86400 + 112000000 + 3,
                7,
                (t / 86400 + 3) / 7 + 16000000,
                (t / 86400 + 3) % 7,
            );
        }
    }
    ((shifted / 86400 + 3) % 7) as u8
}

/// Hour of the day of `t`.
pub fn hour(t: i64) -> (h: u8)
    requires
        -9676800000000 <= t <= 9676800000000,
    ensures
        h as int == hour_of(t as int),
        h < 24,
{
    let shifted: u64 = (t + WEEK_SHIFT) as u64;
    proof {
        lemma_shift_day(t as int);
    }
    ((shifted % 86400) / 3600) as u8
}

} // verus!
