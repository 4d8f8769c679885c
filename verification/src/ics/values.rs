//! Property values: date-times, durations, weekdays and recurrence rules.

use vstd::prelude::*;
use chrono::TimeZone;
use crate::ics::property::params_view;
use crate::text::{
    all_digits, byte_len, byte_len_of, chars_eq, is_digit, lemma_split_on_nonempty, parse_i64,
    parse_int, parse_usize, slice_range, split_all, split_on, split_once, split_once_at,
    to_chars, upper_all, upper_chars,
};
use crate::time::{representable, MAX_DELTA_SECS};

verus! {

/// Why a document could not be read: a date or a duration in it went past
/// what a `chrono` instant or time delta can hold.
#[derive(Debug, Clone, Copy, PartialEq, Eq)]
pub enum IcsError {
    OutOfRange,
}

/// A parsed date-time, which may be all-day.
#[derive(Debug, Clone, Copy, PartialEq, Eq)]
pub struct IcsTime {
    pub at: i64,
    pub all_day: bool,
}

/// The instant of midnight UTC on the date that
/// `chrono::NaiveDate::parse_from_str(value, "%Y%m%d")` reads from `value`.
pub uninterp spec fn date_midnight(value: Seq<char>) -> Option<int>;

/// The seconds since the epoch of the date-time that
/// `chrono::NaiveDateTime::parse_from_str(value, "%Y%m%dT%H%M%S")` reads
/// from `value`, taken as UTC.
pub uninterp spec fn naive_secs(value: Seq<char>) -> Option<int>;

/// Whether `name.parse::<chrono_tz::Tz>()` succeeds.
pub uninterp spec fn tz_known(name: Seq<char>) -> bool;

/// The earliest UTC instant at which the zone `name` reads the wall-clock
/// time `local` (the wall-clock reading given as seconds since the epoch),
/// as `from_local_datetime(..).earliest()` finds it; `None` in a gap.
pub uninterp spec fn zone_earliest(name: Seq<char>, local: int) -> Option<int>;

/// `chrono::NaiveDate::parse_from_str(value, "%Y%m%d")`, at midnight UTC.
/// The contract claims only that the result is the named one and that any
/// instant returned is one a `DateTime<Utc>` holds.
#[verifier::external_body]
fn parse_date(value: &[char]) -> (r: Option<i64>)
    ensures
        r matches Some(t) ==> date_midnight(value@) == Some(t as int) && representable(t as int),
        r is None ==> date_midnight(value@) is None,
{
    let s: String = value.iter().collect();
    match chrono::NaiveDate::parse_from_str(&s, "%Y%m%d") {
        Ok(d) => d.and_hms_opt(0, 0, 0).map(|m| m.and_utc().timestamp()),
        Err(_) => None,
    }
}

/// `chrono::NaiveDateTime::parse_from_str(value, "%Y%m%dT%H%M%S")`, read
/// as UTC. The contract claims the named result, and that any instant
/// returned is one a `DateTime<Utc>` holds.
#[verifier::external_body]
fn parse_naive(value: &[char]) -> (r: Option<i64>)
    ensures
        r matches Some(t) ==> naive_secs(value@) == Some(t as int) && representable(t as int),
        r is None ==> naive_secs(value@) is None,
{
    let s: String = value.iter().collect();
    match chrono::NaiveDateTime::parse_from_str(&s, "%Y%m%dT%H%M%S") {
        Ok(n) => Some(n.and_utc().timestamp()),
        Err(_) => None,
    }
}

/// `name.parse::<chrono_tz::Tz>().is_ok()`.
#[verifier::external_body]
fn is_known_zone(name: &[char]) -> (r: bool)
    ensures
        r == tz_known(name@),
{
    let s: String = name.iter().collect();
    s.parse::<chrono_tz::Tz>().is_ok()
}

/// `tz.from_local_datetime(&local).earliest()` in the zone `name`, as a UTC
/// instant. The contract claims the named result, and that any instant
/// returned is one a `DateTime<Utc>` holds.
#[verifier::external_body]
fn zone_to_utc(name: &[char], local: i64) -> (r: Option<i64>)
    requires
        tz_known(name@),
        representable(local as int),
    ensures
        r matches Some(t) ==> zone_earliest(name@, local as int) == Some(t as int) && representable(
            t as int,
        ),
        r is None ==> zone_earliest(name@, local as int) is None,
{
    let s: String = name.iter().collect();
    let tz: chrono_tz::Tz = match s.parse::<chrono_tz::Tz>() {
        Ok(tz) => tz,
        Err(_) => return None,
    };
    let naive = match chrono::DateTime::from_timestamp(local, 0) {
        Some(d) => d.naive_utc(),
        None => return None,
    };
    tz.from_local_datetime(&naive).earliest().map(|d| d.timestamp())
}

/// Whether the parameters hold `VALUE=DATE` (the value in any case).
pub open spec fn has_date_value(params: Seq<(Seq<char>, Seq<char>)>) -> bool
    decreases params.len(),
{
    if params.len() == 0 {
        false
    } else {
        has_date_value(params.drop_last()) || (params.last().0 == "VALUE"@ && upper_all(
            params.last().1,
        ) == "DATE"@)
    }
}

/// The value of the first `TZID` parameter.
pub open spec fn first_tzid(params: Seq<(Seq<char>, Seq<char>)>) -> Option<Seq<char>>
    decreases params.len(),
{
    if params.len() == 0 {
        None
    } else {
        match first_tzid(params.drop_last()) {
            Some(z) => Some(z),
            None => if params.last().0 == "TZID"@ {
                Some(params.last().1)
            } else {
                None
            },
        }
    }
}

/// What a `DTSTART`, `DTEND`, `EXDATE` or `UNTIL` value with `params` reads
/// as. A `VALUE=DATE` parameter or an eight-byte value is an all-day date;
/// a value ending in `Z` is UTC; otherwise the value is a local time in the
/// first `TZID` zone when that zone is known, and UTC when not.
pub open spec fn time_of(params: Seq<(Seq<char>, Seq<char>)>, value: Seq<char>) -> Option<IcsTime> {
    if has_date_value(params) || byte_len(value) == 8 {
        match date_midnight(value) {
            Some(t) => Some(IcsTime { at: t as i64, all_day: true }),
            None => None,
        }
    } else if value.len() > 0 && value.last() == 'Z' {
        match naive_secs(value.drop_last()) {
            Some(t) => Some(IcsTime { at: t as i64, all_day: false }),
            None => None,
        }
    } else {
        match naive_secs(value) {
            None => None,
            Some(local) => match first_tzid(params) {
                Some(z) if tz_known(z) => match zone_earliest(z, local) {
                    Some(t) => Some(IcsTime { at: t as i64, all_day: false }),
                    None => None,
                },
                _ => Some(IcsTime { at: local as i64, all_day: false }),
            },
        }
    }
}

/// Every instant `time_of` gives is one a `DateTime<Utc>` holds.
pub open spec fn time_ok(t: Option<IcsTime>) -> bool {
    t matches Some(x) ==> representable(x.at as int)
}

fn date_value_in(params: &[(Vec<char>, Vec<char>)]) -> (b: bool)
    ensures
        b == has_date_value(params_view(params@)),
{
    let value_kw = to_chars("VALUE");
    let date_kw = to_chars("DATE");
    let mut k: usize = 0;
    let mut found = false;
    while k < params.len()
        invariant
            k <= params@.len(),
            value_kw@ == "VALUE"@,
            date_kw@ == "DATE"@,
            found == has_date_value(params_view(params@).take(k as int)),
        decreases params@.len() - k,
    {
        proof {
            assert(params_view(params@).take(k + 1).drop_last() =~= params_view(params@).take(
                k as int,
            ));
        }
        let hit = chars_eq(&params[k].0, &value_kw) && chars_eq(&upper_chars(&params[k].1), &date_kw);
        found = found || hit;
        k = k + 1;
    }
    assert(params_view(params@).take(params@.len() as int) =~= params_view(params@));
    found
}

fn tzid_in(params: &[(Vec<char>, Vec<char>)]) -> (r: Option<usize>)
    ensures
        match r {
            Some(i) => i < params@.len() && first_tzid(params_view(params@)) == Some(params@[i as int].1@),
            None => first_tzid(params_view(params@)) is None,
        },
{
    let tzid_kw = to_chars("TZID");
    let mut k: usize = 0;
    while k < params.len()
        invariant
            k <= params@.len(),
            tzid_kw@ == "TZID"@,
            first_tzid(params_view(params@).take(k as int)) is None,
        decreases params@.len() - k,
    {
        proof {
            assert(params_view(params@).take(k + 1).drop_last() =~= params_view(params@).take(
                k as int,
            ));
        }
        if chars_eq(&params[k].0, &tzid_kw) {
            proof {
                lemma_first_tzid_prefix(params_view(params@), k + 1);
            }
            return Some(k);
        }
        k = k + 1;
    }
    assert(params_view(params@).take(params@.len() as int) =~= params_view(params@));
    None
}

/// Once a prefix holds a `TZID`, longer prefixes find the same one.
proof fn lemma_first_tzid_prefix(params: Seq<(Seq<char>, Seq<char>)>, n: int)
    requires
        0 <= n <= params.len(),
        first_tzid(params.take(n)) is Some,
    ensures
        first_tzid(params) == first_tzid(params.take(n)),
    decreases params.len() - n,
{
    if n < params.len() {
        assert(params.take(n + 1).drop_last() =~= params.take(n));
        lemma_first_tzid_prefix(params, n + 1);
    } else {
        assert(params.take(n) =~= params);
    }
}

/// Reads a `DTSTART`-style value with its parameters.
pub fn parse_time(params: &[(Vec<char>, Vec<char>)], value: &[char]) -> (r: Option<IcsTime>)
    ensures
        r == time_of(params_view(params@), value@),
        time_ok(r),
{
    let is_date = date_value_in(params);
    if is_date || byte_len_of(value, 0, value.len()) == 8 {
        proof {
            assert(value@.subrange(0, value@.len() as int) =~= value@);
        }
        return match parse_date(value) {
            Some(t) => Some(IcsTime { at: t, all_day: true }),
            None => None,
        };
    }
    proof {
        assert(value@.subrange(0, value@.len() as int) =~= value@);
    }
    if value.len() > 0 && value[value.len() - 1] == 'Z' {
        let stripped = slice_range(value, 0, value.len() - 1);
        proof {
            assert(stripped@ =~= value@.drop_last());
        }
        return match parse_naive(&stripped) {
            Some(t) => Some(IcsTime { at: t, all_day: false }),
            None => None,
        };
    }
    let local = match parse_naive(value) {
        Some(t) => t,
        None => return None,
    };
    match tzid_in(params) {
        Some(i) => {
            if is_known_zone(&params[i].1) {
                match zone_to_utc(&params[i].1, local) {
                    Some(t) => Some(IcsTime { at: t, all_day: false }),
                    None => None,
                }
            } else {
                Some(IcsTime { at: local, all_day: false })
            }
        },
        None => Some(IcsTime { at: local, all_day: false }),
    }
}

/// Seconds in one unit of a duration: `W` and `D` before the `T`, `H`,
/// `M` and `S` after it; 0 for any other letter.
pub open spec fn unit_secs(c: char, time: bool) -> int {
    if !time {
        if c == 'W' {
            604800
        } else if c == 'D' {
            86400
        } else {
            0
        }
    } else {
        if c == 'H' {
            3600
        } else if c == 'M' {
            60
        } else if c == 'S' {
            1
        } else {
            0
        }
    }
}

/// Where a duration scan stands: refused (`Ok(None)`), past what a time
/// delta holds (`Err`), or a running total and the digits read since the
/// last unit.
pub type DurScan = Result<Option<(int, Seq<char>)>, IcsError>;

/// One character of a duration. A digit extends the pending number; a
/// unit letter adds the pending number of that unit to the total; anything
/// else, or a unit with no number before it, refuses the whole value.
pub open spec fn dur_step(acc: DurScan, c: char, time: bool) -> DurScan {
    match acc {
        Err(e) => Err(e),
        Ok(None) => Ok(None),
        Ok(Some((total, number))) => if is_digit(c) {
            Ok(Some((total, number.push(c))))
        } else {
            match parse_int(number, i64::MIN as int, i64::MAX as int) {
                None => Ok(None),
                Some(n) => if unit_secs(c, time) == 0 {
                    Ok(None)
                } else if n * unit_secs(c, time) > MAX_DELTA_SECS || total + n * unit_secs(c, time)
                    > MAX_DELTA_SECS {
                    Err(IcsError::OutOfRange)
                } else {
                    Ok(Some((total + n * unit_secs(c, time), seq![])))
                },
            }
        },
    }
}

pub open spec fn dur_run(acc: DurScan, s: Seq<char>, time: bool) -> DurScan
    decreases s.len(),
{
    if s.len() == 0 {
        acc
    } else {
        dur_step(dur_run(acc, s.drop_last(), time), s.last(), time)
    }
}

/// What a `DURATION` value such as `PT1H30M` or `P1D` is worth, in seconds:
/// `Ok(None)` where it does not read as a duration, `Err` where it is more
/// than a `chrono::TimeDelta` holds.
pub open spec fn duration_of(value: Seq<char>) -> Result<Option<int>, IcsError> {
    if value.len() == 0 || value[0] != 'P' {
        Ok(None)
    } else {
        let v = value.drop_first();
        let start: DurScan = Ok(Some((0, seq![])));
        let after = match split_once(v, 'T') {
            Some((d, t)) => dur_run(dur_run(start, d, false), t, true),
            None => dur_run(start, v, false),
        };
        match after {
            Err(e) => Err(e),
            Ok(None) => Ok(None),
            Ok(Some((total, _))) => Ok(Some(total)),
        }
    }
}

fn unit_of(c: char, time: bool) -> (u: i64)
    ensures
        u == unit_secs(c, time),
{
    if !time {
        if c == 'W' {
            604800
        } else if c == 'D' {
            86400
        } else {
            0
        }
    } else {
        if c == 'H' {
            3600
        } else if c == 'M' {
            60
        } else if c == 'S' {
            1
        } else {
            0
        }
    }
}

/// Feeds the characters of `s` to a duration scan that stands at `total`
/// with the pending digits `number`.
fn dur_feed(total0: i64, number0: Vec<char>, s: &[char], time: bool) -> (r: Result<
    Option<(i64, Vec<char>)>,
    IcsError,
>)
    requires
        0 <= total0 <= MAX_DELTA_SECS,
        all_digits(number0@),
    ensures
        r matches Err(e) ==> dur_run(Ok(Some((total0 as int, number0@))), s@, time) == Err::<
            Option<(int, Seq<char>)>,
            IcsError,
        >(e),
        r matches Ok(None) ==> dur_run(Ok(Some((total0 as int, number0@))), s@, time) == Ok::<
            Option<(int, Seq<char>)>,
            IcsError,
        >(None),
        r matches Ok(Some((t, n))) ==> dur_run(Ok(Some((total0 as int, number0@))), s@, time)
            == Ok::<Option<(int, Seq<char>)>, IcsError>(Some((t as int, n@))) && 0 <= t
            <= MAX_DELTA_SECS && all_digits(n@),
{
    let ghost start: DurScan = Ok(Some((total0 as int, number0@)));
    let mut total = total0;
    let mut number = number0;
    let mut k: usize = 0;
    while k < s.len()
        invariant
            k <= s@.len(),
            start == Ok::<Option<(int, Seq<char>)>, IcsError>(Some((total0 as int, number0@))),
            0 <= total <= MAX_DELTA_SECS,
            all_digits(number@),
            dur_run(start, s@.take(k as int), time) == Ok::<Option<(int, Seq<char>)>, IcsError>(
                Some((total as int, number@)),
            ),
        decreases s@.len() - k,
    {
        proof {
            assert(s@.take(k + 1).drop_last() =~= s@.take(k as int));
            assert(s@.take(k + 1).last() == s@[k as int]);
        }
        let c = s[k];
        if '0' <= c && c <= '9' {
            number.push(c);
            proof {
                assert forall|i: int| 0 <= i < number@.len() implies is_digit(#[trigger] number@[i]) by {
                    if i < number@.len() - 1 {
                        assert(number@[i] == number@.drop_last()[i]);
                    }
                }
            }
        } else {
            let n = match parse_i64(&number) {
                Some(n) => n,
                None => {
                    proof {
                        assert(dur_run(start, s@.take(k + 1), time) == dur_step(dur_run(start, s@.take(k as int), time), c, time));
                        assert(dur_run(start, s@.take(k + 1), time) == Ok::<Option<(int, Seq<char>)>, IcsError>(None));
                        lemma_dur_run_stays(start, s@, k + 1, time);
                    }
                    return Ok(None);
                },
            };
            let unit = unit_of(c, time);
            if unit == 0 {
                proof {
                    assert(dur_run(start, s@.take(k + 1), time) == dur_step(dur_run(start, s@.take(k as int), time), c, time));
                    lemma_dur_run_stays(start, s@, k + 1, time);
                }
                return Ok(None);
            }
            proof {
                assert(n >= 0) by {
                    assert(is_digit(number@[0]));
                    lemma_digits_nonneg(number@);
                }
            }
            if n > MAX_DELTA_SECS / unit || total > MAX_DELTA_SECS - n * unit {
                proof {
                    if n > MAX_DELTA_SECS / unit {
                        assert(n * unit > MAX_DELTA_SECS) by (nonlinear_arith)
                            requires
                                n > MAX_DELTA_SECS / unit,
                                unit > 0,
                        {}
                    }
                    assert(dur_run(start, s@.take(k + 1), time) == dur_step(dur_run(start, s@.take(k as int), time), c, time));
                    assert(dur_run(start, s@.take(k + 1), time) == Err::<Option<(int, Seq<char>)>, IcsError>(IcsError::OutOfRange));
                    lemma_dur_run_stays(start, s@, k + 1, time);
                }
                return Err(IcsError::OutOfRange);
            }
            proof {
                assert(n * unit <= MAX_DELTA_SECS) by (nonlinear_arith)
                    requires
                        n <= MAX_DELTA_SECS / unit,
                        unit > 0,
                {}
            }
            total = total + n * unit;
            number = Vec::new();
        }
        k = k + 1;
    }
    proof {
        assert(s@.take(s@.len() as int) =~= s@);
    }
    Ok(Some((total, number)))
}

proof fn lemma_digits_nonneg(s: Seq<char>)
    requires
        all_digits(s),
    ensures
        crate::text::digits_value(s) >= 0,
    decreases s.len(),
{
    if s.len() > 0 {
        assert(all_digits(s.drop_last())) by {
            assert forall|i: int| 0 <= i < s.drop_last().len() implies is_digit(#[trigger] s.drop_last()[i]) by {
                assert(s.drop_last()[i] == s[i]);
            }
        }
        lemma_digits_nonneg(s.drop_last());
    }
}

/// Nothing moves a stopped scan.
proof fn lemma_dur_run_stopped(acc: DurScan, s: Seq<char>, time: bool)
    requires
        !(acc matches Ok(Some(_))),
    ensures
        dur_run(acc, s, time) == acc,
    decreases s.len(),
{
    if s.len() > 0 {
        lemma_dur_run_stopped(acc, s.drop_last(), time);
    }
}

/// A scan that stopped stays stopped.
proof fn lemma_dur_run_stays(start: DurScan, s: Seq<char>, n: int, time: bool)
    requires
        0 <= n <= s.len(),
        !(dur_run(start, s.take(n), time) matches Ok(Some(_))),
    ensures
        dur_run(start, s, time) == dur_run(start, s.take(n), time),
    decreases s.len() - n,
{
    if n < s.len() {
        assert(s.take(n + 1).drop_last() =~= s.take(n));
        lemma_dur_run_stays(start, s, n + 1, time);
    } else {
        assert(s.take(n) =~= s);
    }
}

/// `PT1H30M`, `P1D` and friends, in seconds.
#[verifier::rlimit(60)]
pub fn parse_duration(value: &[char]) -> (r: Result<Option<i64>, IcsError>)
    ensures
        match r {
            Ok(Some(d)) => duration_of(value@) == Ok::<Option<int>, IcsError>(Some(d as int)),
            Ok(None) => duration_of(value@) == Ok::<Option<int>, IcsError>(None),
            Err(e) => duration_of(value@) == Err::<Option<int>, IcsError>(e),
        },
        r matches Ok(Some(d)) ==> 0 <= d <= MAX_DELTA_SECS,
{
    if value.len() == 0 || value[0] != 'P' {
        return Ok(None);
    }
    let v = slice_range(value, 1, value.len());
    let empty: Vec<char> = Vec::new();
    let ghost start: DurScan = Ok(Some((0, seq![])));
    proof {
        assert(v@ =~= value@.drop_first());
        assert(empty@ =~= seq![]);
    }
    let after = match split_once_at(&v, 'T') {
        Some((d, t)) => {
            let first = dur_feed(0, empty, &d, false);
            match first {
                Ok(Some((total, number))) => dur_feed(total, number, &t, true),
                Ok(None) => {
                    proof {
                        lemma_dur_run_stopped(dur_run(start, d@, false), t@, true);
                    }
                    Ok(None)
                },
                Err(e) => {
                    proof {
                        lemma_dur_run_stopped(dur_run(start, d@, false), t@, true);
                    }
                    Err(e)
                },
            }
        },
        None => dur_feed(0, empty, &v, false),
    };
    let ghost spec_after: DurScan = match split_once(v@, 'T') {
        Some((d, t)) => dur_run(dur_run(start, d, false), t, true),
        None => dur_run(start, v@, false),
    };
    proof {
        assert(after matches Ok(Some((t, n))) ==> spec_after == Ok::<Option<(int, Seq<char>)>, IcsError>(Some((t as int, n@))));
        assert(after matches Ok(None) ==> spec_after == Ok::<Option<(int, Seq<char>)>, IcsError>(None));
        assert(after matches Err(e) ==> spec_after == Err::<Option<(int, Seq<char>)>, IcsError>(e));
    }
    match after {
        Ok(Some((total, _))) => Ok(Some(total)),
        Ok(None) => Ok(None),
        Err(e) => Err(e),
    }
}

/// Characters that may open a `BYDAY` entry as its ordinal (`2TU`, `-1FR`).
pub open spec fn is_ordinal_char(c: char) -> bool {
    is_digit(c) || c == '-' || c == '+'
}

pub open spec fn strip_ordinal(s: Seq<char>) -> Seq<char>
    decreases s.len(),
{
    if s.len() > 0 && is_ordinal_char(s[0]) {
        strip_ordinal(s.drop_first())
    } else {
        s
    }
}

/// The weekday (0 for Monday) a `BYDAY` entry names, its ordinal ignored.
pub open spec fn weekday_code(code: Seq<char>) -> Option<u8> {
    let u = upper_all(strip_ordinal(code));
    if u == "MO"@ {
        Some(0u8)
    } else if u == "TU"@ {
        Some(1u8)
    } else if u == "WE"@ {
        Some(2u8)
    } else if u == "TH"@ {
        Some(3u8)
    } else if u == "FR"@ {
        Some(4u8)
    } else if u == "SA"@ {
        Some(5u8)
    } else if u == "SU"@ {
        Some(6u8)
    } else {
        None
    }
}

proof fn lemma_strip_ordinal_prefix(ord: Seq<char>, s: Seq<char>)
    requires
        forall|i: int| 0 <= i < ord.len() ==> is_ordinal_char(#[trigger] ord[i]),
    ensures
        strip_ordinal(ord + s) == strip_ordinal(s),
    decreases ord.len(),
{
    if ord.len() > 0 {
        assert((ord + s)[0] == ord[0]);
        assert((ord + s).drop_first() =~= ord.drop_first() + s);
        assert forall|i: int| 0 <= i < ord.drop_first().len() implies is_ordinal_char(
            #[trigger] ord.drop_first()[i],
        ) by {
            assert(ord.drop_first()[i] == ord[i + 1]);
        }
        lemma_strip_ordinal_prefix(ord.drop_first(), s);
    } else {
        assert(ord + s =~= s);
    }
}

/// What one two-letter code reads as, after any ordinal, in either case.
proof fn lemma_code(ord: Seq<char>, code: Seq<char>)
    requires
        forall|i: int| 0 <= i < ord.len() ==> is_ordinal_char(#[trigger] ord[i]),
        code.len() == 2,
        !is_ordinal_char(code[0]),
    ensures
        upper_all(strip_ordinal(ord + code)) == upper_all(code),
{
    lemma_strip_ordinal_prefix(ord, code);
}

/// Each `BYDAY` code names its own weekday, Monday = 0 through Sunday = 6,
/// whatever ordinal stands before it (`2TH`, `-1TH`) and in either case.
pub proof fn law_weekday_codes(ord: Seq<char>)
    requires
        forall|i: int| 0 <= i < ord.len() ==> is_ordinal_char(#[trigger] ord[i]),
    ensures
        weekday_code(ord + "MO"@) == Some(0u8),
        weekday_code(ord + "TU"@) == Some(1u8),
        weekday_code(ord + "WE"@) == Some(2u8),
        weekday_code(ord + "TH"@) == Some(3u8),
        weekday_code(ord + "FR"@) == Some(4u8),
        weekday_code(ord + "SA"@) == Some(5u8),
        weekday_code(ord + "SU"@) == Some(6u8),
        weekday_code(ord + "th"@) == Some(3u8),
        weekday_code(ord + "mo"@) == Some(0u8),
{
    reveal_strlit("MO");
    reveal_strlit("TU");
    reveal_strlit("WE");
    reveal_strlit("TH");
    reveal_strlit("FR");
    reveal_strlit("SA");
    reveal_strlit("SU");
    reveal_strlit("th");
    reveal_strlit("mo");
    lemma_code(ord, "MO"@);
    lemma_code(ord, "TU"@);
    lemma_code(ord, "WE"@);
    lemma_code(ord, "TH"@);
    lemma_code(ord, "FR"@);
    lemma_code(ord, "SA"@);
    lemma_code(ord, "SU"@);
    lemma_code(ord, "th"@);
    lemma_code(ord, "mo"@);
    assert(("MO"@)[0] == 'M' && ("MO"@)[1] == 'O');
    assert(("TU"@)[0] == 'T' && ("TU"@)[1] == 'U');
    assert(("WE"@)[0] == 'W' && ("WE"@)[1] == 'E');
    assert(("TH"@)[0] == 'T' && ("TH"@)[1] == 'H');
    assert(("FR"@)[0] == 'F' && ("FR"@)[1] == 'R');
    assert(("SA"@)[0] == 'S' && ("SA"@)[1] == 'A');
    assert(("SU"@)[0] == 'S' && ("SU"@)[1] == 'U');
    assert(upper_all("MO"@) =~= "MO"@);
    assert(upper_all("TU"@) =~= "TU"@);
    assert(upper_all("WE"@) =~= "WE"@);
    assert(upper_all("TH"@) =~= "TH"@);
    assert(upper_all("FR"@) =~= "FR"@);
    assert(upper_all("SA"@) =~= "SA"@);
    assert(upper_all("SU"@) =~= "SU"@);
    assert(upper_all("th"@) =~= "TH"@);
    assert(upper_all("mo"@) =~= "MO"@);
}

/// The weekday a `BYDAY` entry names, 0 for Monday. An ordinal such as the
/// `2` of `2TU` is skipped: only the day code is read.
pub fn weekday_from_ics(code: &[char]) -> (r: Option<u8>)
    ensures
        r == weekday_code(code@),
        r matches Some(d) ==> d < 7,
{
    let mut i: usize = 0;
    assert(code@.subrange(0, code@.len() as int) =~= code@);
    while i < code.len() && (('0' <= code[i] && code[i] <= '9') || code[i] == '-' || code[i] == '+')
        invariant
            i <= code@.len(),
            strip_ordinal(code@) == strip_ordinal(code@.subrange(i as int, code@.len() as int)),
        decreases code@.len() - i,
    {
        assert(code@.subrange(i as int, code@.len() as int).drop_first() =~= code@.subrange(
            i + 1,
            code@.len() as int,
        ));
        i = i + 1;
    }
    let rest = slice_range(code, i, code.len());
    let u = upper_chars(&rest);
    if chars_eq(&u, &to_chars("MO")) {
        Some(0)
    } else if chars_eq(&u, &to_chars("TU")) {
        Some(1)
    } else if chars_eq(&u, &to_chars("WE")) {
        Some(2)
    } else if chars_eq(&u, &to_chars("TH")) {
        Some(3)
    } else if chars_eq(&u, &to_chars("FR")) {
        Some(4)
    } else if chars_eq(&u, &to_chars("SA")) {
        Some(5)
    } else if chars_eq(&u, &to_chars("SU")) {
        Some(6)
    } else {
        None
    }
}

/// The frequency of a rule, as far as expansion tells them apart.
#[derive(Debug, Clone, Copy, PartialEq, Eq)]
pub enum Freq {
    Daily,
    Weekly,
    Monthly,
    Other,
}

pub open spec fn freq_kind(f: Seq<char>) -> Freq {
    if f == "DAILY"@ {
        Freq::Daily
    } else if f == "WEEKLY"@ {
        Freq::Weekly
    } else if f == "MONTHLY"@ {
        Freq::Monthly
    } else {
        Freq::Other
    }
}

/// A recurrence rule, as expansion reads it.
pub struct Rrule {
    pub freq: Freq,
    pub interval: i64,
    pub count: Option<usize>,
    pub until: Option<i64>,
    pub byday: Vec<u8>,
}

/// The model of a recurrence rule.
pub struct RuleSpec {
    pub freq: Freq,
    pub interval: i64,
    pub count: Option<usize>,
    pub until: Option<i64>,
    pub byday: Seq<u8>,
}

impl View for Rrule {
    type V = RuleSpec;

    open spec fn view(&self) -> RuleSpec {
        RuleSpec {
            freq: self.freq,
            interval: self.interval,
            count: self.count,
            until: self.until,
            byday: self.byday@,
        }
    }
}

/// What the parts of a rule read so far have set.
pub struct RuleAcc {
    pub freq: Option<Seq<char>>,
    pub interval: i64,
    pub count: Option<usize>,
    pub until: Option<i64>,
    pub byday: Seq<u8>,
}

/// The weekdays named in `codes`, in order; an unknown code is skipped.
pub open spec fn days_of(codes: Seq<Seq<char>>) -> Seq<u8>
    decreases codes.len(),
{
    if codes.len() == 0 {
        seq![]
    } else {
        let r = days_of(codes.drop_last());
        match weekday_code(codes.last()) {
            Some(d) => r.push(d),
            None => r,
        }
    }
}

/// One `KEY=VALUE` part of a rule; `None` where the part has no `=`.
/// A later part overrides an earlier one of the same key, an `INTERVAL`
/// that does not read as an integer counts as 1, and unknown keys are
/// ignored.
pub open spec fn rule_part(acc: RuleAcc, part: Seq<char>) -> Option<RuleAcc> {
    match split_once(part, '=') {
        None => None,
        Some((k, v)) => {
            let key = upper_all(k);
            Some(
                if key == "FREQ"@ {
                    RuleAcc {
                        freq: Some(upper_all(v)),
                        interval: acc.interval,
                        count: acc.count,
                        until: acc.until,
                        byday: acc.byday,
                    }
                } else if key == "INTERVAL"@ {
                    RuleAcc {
                        freq: acc.freq,
                        interval: match parse_int(v, i64::MIN as int, i64::MAX as int) {
                            Some(n) => n as i64,
                            None => 1i64,
                        },
                        count: acc.count,
                        until: acc.until,
                        byday: acc.byday,
                    }
                } else if key == "COUNT"@ {
                    RuleAcc {
                        freq: acc.freq,
                        interval: acc.interval,
                        count: match parse_int(v, 0, usize::MAX as int) {
                            Some(n) => Some(n as usize),
                            None => None,
                        },
                        until: acc.until,
                        byday: acc.byday,
                    }
                } else if key == "UNTIL"@ {
                    RuleAcc {
                        freq: acc.freq,
                        interval: acc.interval,
                        count: acc.count,
                        until: match time_of(seq![], v) {
                            Some(t) => Some(t.at),
                            None => None,
                        },
                        byday: acc.byday,
                    }
                } else if key == "BYDAY"@ {
                    RuleAcc {
                        freq: acc.freq,
                        interval: acc.interval,
                        count: acc.count,
                        until: acc.until,
                        byday: days_of(split_on(v, ',')),
                    }
                } else {
                    acc
                },
            )
        },
    }
}

pub open spec fn rule_start() -> RuleAcc {
    RuleAcc { freq: None, interval: 1, count: None, until: None, byday: seq![] }
}

pub open spec fn rule_run(parts: Seq<Seq<char>>) -> Option<RuleAcc>
    decreases parts.len(),
{
    if parts.len() == 0 {
        Some(rule_start())
    } else {
        match rule_run(parts.drop_last()) {
            None => None,
            Some(acc) => rule_part(acc, parts.last()),
        }
    }
}

/// What an `RRULE` value reads as: `None` where a part has no `=` or no
/// `FREQ` is given; the interval is at least 1.
pub open spec fn rrule_of(value: Seq<char>) -> Option<RuleSpec> {
    match rule_run(split_on(value, ';')) {
        None => None,
        Some(acc) => match acc.freq {
            None => None,
            Some(f) => Some(
                RuleSpec {
                    freq: freq_kind(f),
                    interval: if acc.interval < 1 {
                        1
                    } else {
                        acc.interval
                    },
                    count: acc.count,
                    until: acc.until,
                    byday: acc.byday,
                },
            ),
        },
    }
}

/// What every rule read from a document satisfies.
pub open spec fn rule_wf(rule: RuleSpec) -> bool {
    &&& rule.interval >= 1
    &&& (rule.until matches Some(u) ==> representable(u as int))
    &&& forall|i: int| 0 <= i < rule.byday.len() ==> rule.byday[i] < 7
}

fn days_in(v: &[char]) -> (r: Vec<u8>)
    ensures
        r@ == days_of(split_on(v@, ',')),
        forall|i: int| 0 <= i < r@.len() ==> r@[i] < 7,
{
    let codes = split_all(v, ',');
    let ghost cs = split_on(v@, ',');
    let mut r: Vec<u8> = Vec::new();
    let mut k: usize = 0;
    while k < codes.len()
        invariant
            k <= codes@.len() == cs.len(),
            cs == split_on(v@, ','),
            forall|i: int| 0 <= i < codes@.len() ==> (#[trigger] codes@[i])@ == cs[i],
            r@ == days_of(cs.take(k as int)),
            forall|i: int| 0 <= i < r@.len() ==> r@[i] < 7,
        decreases codes@.len() - k,
    {
        proof {
            assert(cs.take(k + 1).drop_last() =~= cs.take(k as int));
        }
        match weekday_from_ics(&codes[k]) {
            Some(d) => r.push(d),
            None => {},
        }
        k = k + 1;
    }
    assert(cs.take(codes@.len() as int) =~= cs);
    r
}

fn freq_of(f: &[char]) -> (r: Freq)
    ensures
        r == freq_kind(f@),
{
    if chars_eq(f, &to_chars("DAILY")) {
        Freq::Daily
    } else if chars_eq(f, &to_chars("WEEKLY")) {
        Freq::Weekly
    } else if chars_eq(f, &to_chars("MONTHLY")) {
        Freq::Monthly
    } else {
        Freq::Other
    }
}

pub open spec fn opt_chars(o: Option<Vec<char>>) -> Option<Seq<char>> {
    match o {
        Some(v) => Some(v@),
        None => None,
    }
}

proof fn lemma_rule_run_none(parts: Seq<Seq<char>>, n: int)
    requires
        0 <= n <= parts.len(),
        rule_run(parts.take(n)) is None,
    ensures
        rule_run(parts) is None,
    decreases parts.len() - n,
{
    if n < parts.len() {
        assert(parts.take(n + 1).drop_last() =~= parts.take(n));
        lemma_rule_run_none(parts, n + 1);
    } else {
        assert(parts.take(n) =~= parts);
    }
}

/// Reads an `RRULE` value.
pub fn parse_rrule(value: &[char]) -> (r: Option<Rrule>)
    ensures
        match r {
            Some(rule) => rrule_of(value@) == Some(rule@) && rule_wf(rule@),
            None => rrule_of(value@) is None,
        },
{
    let parts = split_all(value, ';');
    let ghost ps = split_on(value@, ';');
    let mut freq: Option<Vec<char>> = None;
    let mut interval: i64 = 1;
    let mut count: Option<usize> = None;
    let mut until: Option<i64> = None;
    let mut byday: Vec<u8> = Vec::new();
    let no_params: Vec<(Vec<char>, Vec<char>)> = Vec::new();
    proof {
        assert(ps.take(0) =~= seq![]);
        assert(byday@ =~= seq![]);
        assert(params_view(no_params@) =~= seq![]);
    }
    let mut k: usize = 0;
    while k < parts.len()
        invariant
            k <= parts@.len() == ps.len(),
            ps == split_on(value@, ';'),
            forall|i: int| 0 <= i < parts@.len() ==> (#[trigger] parts@[i])@ == ps[i],
            params_view(no_params@) == Seq::<(Seq<char>, Seq<char>)>::empty(),
            rule_run(ps.take(k as int)) == Some(
                RuleAcc {
                    freq: opt_chars(freq),
                    interval,
                    count,
                    until,
                    byday: byday@,
                },
            ),
            until matches Some(u) ==> representable(u as int),
            forall|i: int| 0 <= i < byday@.len() ==> byday@[i] < 7,
        decreases parts@.len() - k,
    {
        proof {
            assert(ps.take(k + 1).drop_last() =~= ps.take(k as int));
            assert(ps.take(k + 1).last() == ps[k as int]);
        }
        let (key, v) = match split_once_at(&parts[k], '=') {
            Some(kv) => kv,
            None => {
                proof {
                    lemma_rule_run_none(ps, k + 1);
                }
                return None;
            },
        };
        let ukey = upper_chars(&key);
        if chars_eq(&ukey, &to_chars("FREQ")) {
            freq = Some(upper_chars(&v));
        } else if chars_eq(&ukey, &to_chars("INTERVAL")) {
            interval = match parse_i64(&v) {
                Some(n) => n,
                None => 1,
            };
        } else if chars_eq(&ukey, &to_chars("COUNT")) {
            count = parse_usize(&v);
        } else if chars_eq(&ukey, &to_chars("UNTIL")) {
            until = match parse_time(&no_params, &v) {
                Some(t) => Some(t.at),
                None => None,
            };
        } else if chars_eq(&ukey, &to_chars("BYDAY")) {
            byday = days_in(&v);
        }
        k = k + 1;
    }
    proof {
        assert(ps.take(parts@.len() as int) =~= ps);
    }
    match freq {
        None => None,
        Some(f) => {
            let kind = freq_of(&f);
            let iv = if interval < 1 { 1 } else { interval };
            Some(Rrule { freq: kind, interval: iv, count, until, byday })
        },
    }
}

} // verus!
