//! Expanding a recurrence rule into the start times it gives.

use vstd::prelude::*;
use chrono::Datelike;
use crate::ics::values::{Freq, IcsError, Rrule, RuleSpec, rule_wf};
use crate::time::{representable, second_of_day, weekday, weekday_of, MAX_INSTANT, MIN_INSTANT};

verus! {

/// The most occurrences one rule is ever walked for.
pub const MAX_OCCURRENCES: usize = 1000;

/// The (year, zero-based month, day of month) that `chrono` reads off the
/// UTC instant `t` with `DateTime::year`, `month0` and `day`.
pub uninterp spec fn civil_date(t: int) -> (int, int, int);

/// The instant of midnight UTC on `year-month-day`, where
/// `chrono::NaiveDate::from_ymd_opt` accepts that date.
pub uninterp spec fn ymd_midnight(year: int, month: int, day: int) -> Option<int>;

/// `DateTime::<Utc>::year`, `month0` and `day` of the instant `t`. The
/// contract claims the named result, a month below 12 and a day from 1
/// to 31.
#[verifier::external_body]
fn civil_of(t: i64) -> (r: (i32, u32, u32))
    requires
        representable(t as int),
    ensures
        civil_date(t as int) == (r.0 as int, r.1 as int, r.2 as int),
        r.1 < 12,
        1 <= r.2 <= 31,
{
    let at = chrono::DateTime::from_timestamp(t, 0).unwrap_or_default();
    (at.year(), at.month0(), at.day())
}

/// `chrono::NaiveDate::from_ymd_opt(year, month, day)`, at midnight UTC.
/// The contract claims the named result, and that the whole of that day is
/// made of instants a `DateTime<Utc>` holds.
#[verifier::external_body]
fn midnight_of(year: i32, month: u32, day: u32) -> (r: Option<i64>)
    ensures
        r matches Some(m) ==> ymd_midnight(year as int, month as int, day as int) == Some(
            m as int,
        ) && representable(m as int) && representable(m + 86399),
        r is None ==> ymd_midnight(year as int, month as int, day as int) is None,
{
    chrono::NaiveDate::from_ymd_opt(year, month, day).map(
        |d| d.and_time(chrono::NaiveTime::MIN).and_utc().timestamp(),
    )
}

/// `t` moved by `d` seconds, unless that leaves what a `DateTime<Utc>`
/// holds (where `chrono` panics).
pub open spec fn shift(t: int, d: int) -> Result<int, IcsError> {
    if representable(t + d) {
        Ok(t + d)
    } else {
        Err(IcsError::OutOfRange)
    }
}

/// The first valid date at or before `day` in `year-month` at the time of
/// day of `t`; where none down to the 28th is valid, `t` plus `30 * months`
/// days.
pub open spec fn clamp_day(year: int, month: int, day: int, t: int, months: int) -> Result<
    int,
    IcsError,
>
    decreases day,
{
    match ymd_midnight(year, month, day) {
        Some(m) => Ok(m + second_of_day(t)),
        None => if day <= 28 {
            shift(t, months * 2592000)
        } else {
            clamp_day(year, month, day - 1, t, months)
        },
    }
}

/// Calendar-aware month arithmetic on the instant `t`, clamping to the
/// last valid day of the target month. `Err` where the arithmetic leaves
/// the `i64`/`i32` fields it is done in or the instants `chrono` holds.
pub open spec fn months_after(t: int, months: int) -> Result<int, IcsError> {
    let (year, month0, day) = civil_date(t);
    let total = month0 + months;
    if total > i64::MAX {
        Err(IcsError::OutOfRange)
    } else {
        let q = total / 12;
        let y = year + (q as i32);
        if y < i32::MIN || y > i32::MAX {
            Err(IcsError::OutOfRange)
        } else {
            clamp_day(y, total % 12 + 1, day, t, months)
        }
    }
}

/// Where a rule moves its cursor next; `None` for a frequency expansion
/// does not know, which stops it. A weekly rule with `BYDAY` steps a day at
/// a time and lets the weekday test do the filtering.
pub open spec fn next_cursor(rule: RuleSpec, cursor: int) -> Option<Result<int, IcsError>> {
    match rule.freq {
        Freq::Daily => Some(shift(cursor, rule.interval * 86400)),
        Freq::Weekly => if rule.byday.len() > 0 {
            Some(shift(cursor, 86400))
        } else {
            Some(shift(cursor, rule.interval * 604800))
        },
        Freq::Monthly => Some(months_after(cursor, rule.interval as int)),
        Freq::Other => None,
    }
}

/// Whether the rule's `BYDAY` list (empty meaning every day) takes the day
/// of `cursor`.
pub open spec fn day_matches(rule: RuleSpec, cursor: int) -> bool {
    rule.byday.len() == 0 || rule.byday.contains(weekday_of(cursor) as u8)
}

/// The walk of a rule from `cursor`, at step `i` of at most
/// `MAX_OCCURRENCES`, with `emitted` occurrences counted so far and `out`
/// collected: it stops at `to`, past `UNTIL`, once `COUNT` occurrences are
/// counted, or when the cursor cannot move; every occurrence counts
/// towards `COUNT` but only those at or after `from` are kept.
pub open spec fn expand_from(
    rule: RuleSpec,
    cursor: int,
    emitted: int,
    i: int,
    from: int,
    to: int,
    out: Seq<i64>,
) -> Result<Seq<i64>, IcsError>
    decreases MAX_OCCURRENCES - i,
{
    if i >= MAX_OCCURRENCES || cursor >= to || (rule.until matches Some(u) && cursor > u) || (
    rule.count matches Some(c) && emitted >= c) {
        Ok(out)
    } else {
        let hit = day_matches(rule, cursor);
        let emitted2 = if hit {
            emitted + 1
        } else {
            emitted
        };
        let out2 = if hit && cursor >= from {
            out.push(cursor as i64)
        } else {
            out
        };
        match next_cursor(rule, cursor) {
            None => Ok(out2),
            Some(Err(e)) => Err(e),
            Some(Ok(c2)) => expand_from(rule, c2, emitted2, i + 1, from, to, out2),
        }
    }
}

/// The start times of a rule whose first occurrence is `first`, within
/// `[from, to)`.
pub open spec fn expansion(rule: RuleSpec, first: int, from: int, to: int) -> Result<
    Seq<i64>,
    IcsError,
> {
    expand_from(rule, first, 0, 0, from, to, seq![])
}

/// `t + d` where that stays representable.
fn shift_by(t: i64, d: i64) -> (r: Result<i64, IcsError>)
    requires
        representable(t as int),
        d >= 0,
    ensures
        r == (match shift(t as int, d as int) {
            Ok(x) => Ok::<i64, IcsError>(x as i64),
            Err(e) => Err(e),
        }),
{
    if d > MAX_INSTANT - t {
        Err(IcsError::OutOfRange)
    } else {
        Ok(t + d)
    }
}

/// `t` plus `n` periods of `unit` seconds.
fn shift_periods(t: i64, n: i64, unit: i64) -> (r: Result<i64, IcsError>)
    requires
        representable(t as int),
        n >= 1,
        1 <= unit <= 2592000,
    ensures
        r == (match shift(t as int, n * unit) {
            Ok(x) => Ok::<i64, IcsError>(x as i64),
            Err(e) => Err(e),
        }),
{
    let span: i64 = MAX_INSTANT - MIN_INSTANT;
    if n > span / unit {
        proof {
            assert(n * unit > span) by (nonlinear_arith)
                requires
                    n > span / unit,
                    unit >= 1,
            {}
        }
        return Err(IcsError::OutOfRange);
    }
    proof {
        assert(n * unit <= span) by (nonlinear_arith)
            requires
                n <= span / unit,
                unit >= 1,
        {}
        assert(n * unit >= 1) by (nonlinear_arith)
            requires
                n >= 1,
                unit >= 1,
        {}
    }
    shift_by(t, n * unit)
}

/// `Ok(x)` of a spec result, as an `i64`.
pub open spec fn as_i64_result(r: Result<int, IcsError>) -> Result<i64, IcsError> {
    match r {
        Ok(x) => Ok(x as i64),
        Err(e) => Err(e),
    }
}

/// Calendar-aware month arithmetic, clamping to the last valid day - the
/// 31st of a 30-day month would otherwise roll into the next one.
pub fn add_months(at: i64, months: i64) -> (r: Result<i64, IcsError>)
    requires
        representable(at as int),
        months >= 1,
    ensures
        r == as_i64_result(months_after(at as int, months as int)),
        r matches Ok(x) ==> representable(x as int),
        months_after(at as int, months as int) matches Ok(x) ==> representable(x),
{
    let (year, month0, day) = civil_of(at);
    if months > i64::MAX - (month0 as i64) {
        return Err(IcsError::OutOfRange);
    }
    let total: i64 = month0 as i64 + months;
    let q: i64 = total / 12;
    let qi: i32 = #[verifier::truncate] (q as i32);
    let y: i32 = match year.checked_add(qi) {
        Some(y) => y,
        None => return Err(IcsError::OutOfRange),
    };
    let m: u32 = (total % 12) as u32 + 1;
    proof {
        assert(months_after(at as int, months as int) == clamp_day(
            y as int,
            m as int,
            day as int,
            at as int,
            months as int,
        ));
    }
    let mut d: u32 = day;
    loop
        invariant
            1 <= d <= 31,
            representable(at as int),
            months >= 1,
            months_after(at as int, months as int) == clamp_day(
                y as int,
                m as int,
                d as int,
                at as int,
                months as int,
            ),
        decreases d,
    {
        match midnight_of(y, m, d) {
            Some(mid) => {
                return Ok(mid + second_of_day_exec(at));
            },
            None => {
                if d <= 28 {
                    return shift_periods(at, months, 2592000);
                }
                d = d - 1;
            },
        }
    }
}

/// Seconds since midnight of the instant `t`.
fn second_of_day_exec(t: i64) -> (s: i64)
    requires
        representable(t as int),
    ensures
        s == second_of_day(t as int),
        0 <= s < 86400,
{
    let r = t % 86400;
    if r < 0 {
        proof {
            assert(second_of_day(t as int) == r + 86400) by {
                vstd::arithmetic::div_mod::lemma_fundamental_div_mod(t as int, 86400);
            }
        }
        r + 86400
    } else {
        proof {
            assert(second_of_day(t as int) == r) by {
                vstd::arithmetic::div_mod::lemma_fundamental_div_mod(t as int, 86400);
            }
        }
        r
    }
}

/// Whether the rule's `BYDAY` list takes the day of `cursor`.
fn day_hit(byday: &Vec<u8>, cursor: i64) -> (b: bool)
    requires
        representable(cursor as int),
    ensures
        b == (byday@.len() == 0 || byday@.contains(weekday_of(cursor as int) as u8)),
{
    if byday.len() == 0 {
        return true;
    }
    let w = weekday(cursor);
    let mut k: usize = 0;
    while k < byday.len()
        invariant
            k <= byday@.len(),
            w as int == weekday_of(cursor as int),
            forall|j: int| 0 <= j < k ==> byday@[j] != w,
        decreases byday@.len() - k,
    {
        if byday[k] == w {
            assert(byday@[k as int] == weekday_of(cursor as int) as u8);
            return true;
        }
        k = k + 1;
    }
    proof {
        if byday@.contains(weekday_of(cursor as int) as u8) {
            let j = choose|j: int| 0 <= j < byday@.len() && byday@[j] == weekday_of(cursor as int) as u8;
            assert(byday@[j] == w);
        }
    }
    false
}

/// Expands a recurring event's start times within `[from, to)`, starting
/// from its first occurrence `first`. Bounded by the window on purpose: a
/// rule with neither `COUNT` nor `UNTIL` is infinite. At most
/// `MAX_OCCURRENCES` steps are walked, against a pathological `INTERVAL`.
pub fn expand(rule: &Rrule, first: i64, from: i64, to: i64) -> (r: Result<Vec<i64>, IcsError>)
    requires
        representable(first as int),
        rule_wf(rule@),
    ensures
        match r {
            Ok(v) => expansion(rule@, first as int, from as int, to as int) == Ok::<
                Seq<i64>,
                IcsError,
            >(v@) && forall|k: int| 0 <= k < v@.len() ==> representable(#[trigger] v@[k] as int),
            Err(e) => expansion(rule@, first as int, from as int, to as int) == Err::<
                Seq<i64>,
                IcsError,
            >(e),
        },
{
    let mut out: Vec<i64> = Vec::new();
    let mut cursor = first;
    let mut emitted: usize = 0;
    let mut i: usize = 0;
    proof {
        assert(out@ =~= seq![]);
    }
    while i < MAX_OCCURRENCES
        invariant
            i <= MAX_OCCURRENCES,
            emitted <= i,
            representable(cursor as int),
            forall|k: int| 0 <= k < out@.len() ==> representable(#[trigger] out@[k] as int),
            rule_wf(rule@),
            expansion(rule@, first as int, from as int, to as int) == expand_from(
                rule@,
                cursor as int,
                emitted as int,
                i as int,
                from as int,
                to as int,
                out@,
            ),
        decreases MAX_OCCURRENCES - i,
    {
        if cursor >= to {
            return Ok(out);
        }
        match rule.until {
            Some(u) => {
                if cursor > u {
                    return Ok(out);
                }
            },
            None => {},
        }
        match rule.count {
            Some(c) => {
                if emitted >= c {
                    return Ok(out);
                }
            },
            None => {},
        }
        let ghost c0 = cursor as int;
        let ghost e0 = emitted as int;
        let ghost o0 = out@;
        let hit = day_hit(&rule.byday, cursor);
        if hit {
            emitted = emitted + 1;
            if cursor >= from {
                out.push(cursor);
            }
        }
        let next = match rule.freq {
            Freq::Daily => shift_periods(cursor, rule.interval, 86400),
            Freq::Weekly => {
                if rule.byday.len() > 0 {
                    shift_periods(cursor, 1, 86400)
                } else {
                    shift_periods(cursor, rule.interval, 604800)
                }
            },
            Freq::Monthly => add_months(cursor, rule.interval),
            Freq::Other => {
                return Ok(out);
            },
        };
        match next {
            Ok(c2) => {
                proof {
                    assert(next_cursor(rule@, c0) == Some(Ok::<int, IcsError>(c2 as int)));
                    assert(expand_from(rule@, c0, e0, i as int, from as int, to as int, o0)
                        == expand_from(rule@, c2 as int, emitted as int, i + 1, from as int, to as int, out@));
                }
                cursor = c2;
            },
            Err(e) => {
                return Err(e);
            },
        }
        i = i + 1;
    }
    Ok(out)
}

proof fn lemma_expand_days(
    rule: RuleSpec,
    cursor: int,
    emitted: int,
    i: int,
    from: int,
    to: int,
    out: Seq<i64>,
)
    requires
        rule.freq is Daily || rule.freq is Weekly,
        representable(cursor),
        forall|k: int|
            0 <= k < out.len() ==> from <= #[trigger] out[k] < to && (rule.byday.len() == 0
                || rule.byday.contains(weekday_of(out[k] as int) as u8)),
    ensures
        expand_from(rule, cursor, emitted, i, from, to, out) matches Ok(v) ==> forall|k: int|
            0 <= k < v.len() ==> from <= #[trigger] v[k] < to && (rule.byday.len() == 0
                || rule.byday.contains(weekday_of(v[k] as int) as u8)),
    decreases MAX_OCCURRENCES - i,
{
    if i >= MAX_OCCURRENCES || cursor >= to || (rule.until matches Some(u) && cursor > u) || (
    rule.count matches Some(c) && emitted >= c) {
    } else {
        let hit = day_matches(rule, cursor);
        let emitted2 = if hit { emitted + 1 } else { emitted };
        let out2 = if hit && cursor >= from { out.push(cursor as i64) } else { out };
        assert forall|k: int|
            0 <= k < out2.len() implies from <= #[trigger] out2[k] < to && (rule.byday.len() == 0
                || rule.byday.contains(weekday_of(out2[k] as int) as u8)) by {
            if k < out.len() {
                assert(out2[k] == out[k]);
            } else {
                assert(out2[k] == cursor as i64);
                assert((cursor as i64) as int == cursor);
            }
        }
        match next_cursor(rule, cursor) {
            None => {},
            Some(Err(e)) => {},
            Some(Ok(c2)) => {
                lemma_expand_days(rule, c2, emitted2, i + 1, from, to, out2);
            },
        }
    }
}

/// A daily or weekly rule keeps to its days: every occurrence its
/// expansion yields lies in the window `[from, to)` and falls on a weekday
/// its `BYDAY` list names (any day where the list is empty). With
/// `BYDAY=TH` every occurrence is a Thursday.
pub proof fn law_expansion_keeps_to_its_days(rule: RuleSpec, first: int, from: int, to: int)
    requires
        representable(first),
        rule.freq is Daily || rule.freq is Weekly,
    ensures
        expansion(rule, first, from, to) matches Ok(v) ==> forall|k: int|
            0 <= k < v.len() ==> from <= #[trigger] v[k] < to && (rule.byday.len() == 0
                || rule.byday.contains(weekday_of(v[k] as int) as u8)),
{
    lemma_expand_days(rule, first, 0, 0, from, to, seq![]);
}

} // verus!
