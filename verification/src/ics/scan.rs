//! The pass over a document's lines that collects busy intervals.

use vstd::prelude::*;
use crate::ics::lines::{ics_lines, unfold_chars};
use crate::ics::property::{params_view, parse_property, property_of};
use crate::ics::recur::{expand, expansion};
use crate::ics::values::{
    duration_of, parse_duration, parse_rrule, parse_time, rrule_of, rule_wf, time_of, time_ok,
    IcsError, IcsTime, Rrule, RuleSpec,
};
use crate::text::{
    chars_eq, split_all, split_on, to_chars, trim_end, trim_end_index, slice_range, upper_all,
    upper_chars,
};
use crate::time::{representable, MAX_DELTA_SECS, MAX_INSTANT, MIN_INSTANT};

verus! {

/// The only thing that leaves the parser: when someone is busy, and
/// nothing about why.
#[derive(Debug, Clone, Copy, PartialEq, Eq)]
pub struct BusyInterval {
    pub start: i64,
    pub end: i64,
}

/// What the pass over the lines has gathered so far.
pub struct ScanState {
    pub in_event: bool,
    pub start: Option<IcsTime>,
    pub end: Option<IcsTime>,
    pub duration: Option<i64>,
    pub rrule: Option<RuleSpec>,
    pub exdates: Seq<i64>,
    pub cancelled: bool,
    pub transparent: bool,
    pub out: Seq<BusyInterval>,
}

pub open spec fn scan_start() -> ScanState {
    ScanState {
        in_event: false,
        start: None,
        end: None,
        duration: None,
        rrule: None,
        exdates: seq![],
        cancelled: false,
        transparent: false,
        out: seq![],
    }
}

/// What every state of the pass satisfies.
pub open spec fn scan_wf(st: ScanState) -> bool {
    &&& time_ok(st.start)
    &&& time_ok(st.end)
    &&& (st.duration matches Some(d) ==> 0 <= d <= MAX_DELTA_SECS)
    &&& (st.rrule matches Some(r) ==> rule_wf(r))
}

/// The instants of the `EXDATE` entries `pieces` that read as times.
pub open spec fn exdate_list(params: Seq<(Seq<char>, Seq<char>)>, pieces: Seq<Seq<char>>) -> Seq<i64>
    decreases pieces.len(),
{
    if pieces.len() == 0 {
        seq![]
    } else {
        let r = exdate_list(params, pieces.drop_last());
        match time_of(params, pieces.last()) {
            Some(t) => r.push(t.at),
            None => r,
        }
    }
}

/// What a property line inside an event changes.
pub open spec fn property_effect(
    st: ScanState,
    name: Seq<char>,
    params: Seq<(Seq<char>, Seq<char>)>,
    value: Seq<char>,
) -> Result<ScanState, IcsError> {
    if name == "DTSTART"@ {
        Ok(ScanState { start: time_of(params, value), ..st })
    } else if name == "DTEND"@ {
        Ok(ScanState { end: time_of(params, value), ..st })
    } else if name == "DURATION"@ {
        match duration_of(value) {
            Err(e) => Err(e),
            Ok(d) => Ok(
                ScanState {
                    duration: match d {
                        Some(x) => Some(x as i64),
                        None => None,
                    },
                    ..st
                },
            ),
        }
    } else if name == "RRULE"@ {
        Ok(ScanState { rrule: rrule_of(value), ..st })
    } else if name == "EXDATE"@ {
        Ok(ScanState { exdates: st.exdates + exdate_list(params, split_on(value, ',')), ..st })
    } else if name == "STATUS"@ {
        Ok(ScanState { cancelled: upper_all(value) == "CANCELLED"@, ..st })
    } else if name == "TRANSP"@ {
        Ok(ScanState { transparent: upper_all(value) == "TRANSPARENT"@, ..st })
    } else {
        Ok(st)
    }
}

/// How long the current event lasts: its `DTEND` minus its start, else its
/// `DURATION`, else a day for an all-day event; `None` for a timed event
/// with neither, which is an instant and blocks nothing.
pub open spec fn event_length(st: ScanState, s: IcsTime) -> Option<int> {
    match st.end {
        Some(e) => Some(e.at - s.at),
        None => match st.duration {
            Some(d) => Some(d as int),
            None => if s.all_day {
                Some(86400)
            } else {
                None
            },
        },
    }
}

/// The intervals `[o, o + len)` of the occurrences `occ` that are not
/// excluded and overlap `[from, to)`, half-open on both sides.
pub open spec fn place(occ: Seq<i64>, exdates: Seq<i64>, len: int, from: int, to: int) -> Result<
    Seq<BusyInterval>,
    IcsError,
>
    decreases occ.len(),
{
    if occ.len() == 0 {
        Ok(seq![])
    } else {
        match place(occ.drop_last(), exdates, len, from, to) {
            Err(e) => Err(e),
            Ok(r) => {
                let o = occ.last();
                if exdates.contains(o) {
                    Ok(r)
                } else if !representable(o + len) {
                    Err(IcsError::OutOfRange)
                } else if o < to && from < o + len {
                    Ok(r.push(BusyInterval { start: o, end: (o + len) as i64 }))
                } else {
                    Ok(r)
                }
            },
        }
    }
}

/// The busy intervals the event gathered in `st` contributes at its
/// `END:VEVENT`. A cancelled or transparent event, one without a start, an
/// all-day event when those are not wanted, and one of no positive length
/// contribute nothing; a recurring one is expanded over the window
/// widened back by its length, so an occurrence that starts before the
/// window but reaches into it is kept.
pub open spec fn event_intervals(st: ScanState, from: int, to: int, all_day: bool) -> Result<
    Seq<BusyInterval>,
    IcsError,
> {
    if st.cancelled || st.transparent {
        Ok(seq![])
    } else {
        match st.start {
            None => Ok(seq![]),
            Some(s) => if s.all_day && !all_day {
                Ok(seq![])
            } else {
                match event_length(st, s) {
                    None => Ok(seq![]),
                    Some(len) => if len <= 0 {
                        Ok(seq![])
                    } else {
                        let starts = match st.rrule {
                            Some(rule) => if representable(from - len) {
                                expansion(rule, s.at as int, from - len, to)
                            } else {
                                Err(IcsError::OutOfRange)
                            },
                            None => Ok(seq![s.at]),
                        };
                        match starts {
                            Err(e) => Err(e),
                            Ok(occ) => place(occ, st.exdates, len, from, to),
                        }
                    },
                }
            },
        }
    }
}

/// One logical line of the document. `BEGIN:VEVENT` starts afresh;
/// `END:VEVENT` closes the event and adds what it contributes; other lines
/// count only inside an event.
pub open spec fn scan_line(st: ScanState, line: Seq<char>, from: int, to: int, all_day: bool) -> Result<
    ScanState,
    IcsError,
> {
    let t = trim_end(line);
    if upper_all(t) == "BEGIN:VEVENT"@ {
        Ok(ScanState { in_event: true, out: st.out, ..scan_start() })
    } else if upper_all(t) == "END:VEVENT"@ {
        match event_intervals(st, from, to, all_day) {
            Err(e) => Err(e),
            Ok(more) => Ok(ScanState { in_event: false, out: st.out + more, ..st }),
        }
    } else if !st.in_event {
        Ok(st)
    } else {
        match property_of(t) {
            None => Ok(st),
            Some((name, params, value)) => property_effect(st, name, params, value),
        }
    }
}

pub open spec fn scan_run(lines: Seq<Seq<char>>, from: int, to: int, all_day: bool) -> Result<
    ScanState,
    IcsError,
>
    decreases lines.len(),
{
    if lines.len() == 0 {
        Ok(scan_start())
    } else {
        match scan_run(lines.drop_last(), from, to, all_day) {
            Err(e) => Err(e),
            Ok(st) => scan_line(st, lines.last(), from, to, all_day),
        }
    }
}

/// Every busy interval of the document `input` that overlaps `[from, to)`,
/// in the order the document gives them; `Err` where a date or duration in
/// it goes past what `chrono` holds.
pub open spec fn busy_of(input: Seq<char>, from: int, to: int, all_day: bool) -> Result<
    Seq<BusyInterval>,
    IcsError,
> {
    match scan_run(ics_lines(input), from, to, all_day) {
        Err(e) => Err(e),
        Ok(st) => Ok(st.out),
    }
}

pub open spec fn rule_view(r: Option<Rrule>) -> Option<RuleSpec> {
    match r {
        Some(x) => Some(x@),
        None => None,
    }
}

/// The pass's state as the program holds it.
pub struct Scanner {
    pub in_event: bool,
    pub start: Option<IcsTime>,
    pub end: Option<IcsTime>,
    pub duration: Option<i64>,
    pub rrule: Option<Rrule>,
    pub exdates: Vec<i64>,
    pub cancelled: bool,
    pub transparent: bool,
    pub out: Vec<BusyInterval>,
}

impl View for Scanner {
    type V = ScanState;

    open spec fn view(&self) -> ScanState {
        ScanState {
            in_event: self.in_event,
            start: self.start,
            end: self.end,
            duration: self.duration,
            rrule: rule_view(self.rrule),
            exdates: self.exdates@,
            cancelled: self.cancelled,
            transparent: self.transparent,
            out: self.out@,
        }
    }
}

fn contains_i64(v: &[i64], x: i64) -> (b: bool)
    ensures
        b == v@.contains(x),
{
    let mut k: usize = 0;
    while k < v.len()
        invariant
            k <= v@.len(),
            forall|j: int| 0 <= j < k ==> v@[j] != x,
        decreases v@.len() - k,
    {
        if v[k] == x {
            assert(v@[k as int] == x);
            return true;
        }
        k = k + 1;
    }
    false
}

proof fn lemma_place_err(occ: Seq<i64>, exdates: Seq<i64>, len: int, from: int, to: int, n: int)
    requires
        0 <= n <= occ.len(),
        place(occ.take(n), exdates, len, from, to) is Err,
    ensures
        place(occ, exdates, len, from, to) == place(occ.take(n), exdates, len, from, to),
    decreases occ.len() - n,
{
    if n < occ.len() {
        assert(occ.take(n + 1).drop_last() =~= occ.take(n));
        lemma_place_err(occ, exdates, len, from, to, n + 1);
    } else {
        assert(occ.take(n) =~= occ);
    }
}

/// The intervals of the occurrences `occ`, as `place` gives them.
fn place_exec(occ: &[i64], exdates: &[i64], len: i64, from: i64, to: i64) -> (r: Result<
    Vec<BusyInterval>,
    IcsError,
>)
    requires
        0 < len <= MAX_DELTA_SECS,
        forall|k: int| 0 <= k < occ@.len() ==> representable(#[trigger] occ@[k] as int),
    ensures
        match r {
            Ok(v) => place(occ@, exdates@, len as int, from as int, to as int) == Ok::<
                Seq<BusyInterval>,
                IcsError,
            >(v@),
            Err(e) => place(occ@, exdates@, len as int, from as int, to as int) == Err::<
                Seq<BusyInterval>,
                IcsError,
            >(e),
        },
{
    let mut out: Vec<BusyInterval> = Vec::new();
    let mut k: usize = 0;
    proof {
        assert(occ@.take(0) =~= seq![]);
        assert(out@ =~= seq![]);
    }
    while k < occ.len()
        invariant
            k <= occ@.len(),
            0 < len <= MAX_DELTA_SECS,
            forall|j: int| 0 <= j < occ@.len() ==> representable(#[trigger] occ@[j] as int),
            place(occ@.take(k as int), exdates@, len as int, from as int, to as int) == Ok::<
                Seq<BusyInterval>,
                IcsError,
            >(out@),
        decreases occ@.len() - k,
    {
        proof {
            assert(occ@.take(k + 1).drop_last() =~= occ@.take(k as int));
            assert(occ@.take(k + 1).last() == occ@[k as int]);
        }
        let o = occ[k];
        assert(representable(o as int));
        if contains_i64(exdates, o) {
        } else if len > MAX_INSTANT - o {
            proof {
                lemma_place_err(occ@, exdates@, len as int, from as int, to as int, k + 1);
            }
            return Err(IcsError::OutOfRange);
        } else {
            let end = o + len;
            if o < to && from < end {
                out.push(BusyInterval { start: o, end });
            }
        }
        k = k + 1;
    }
    proof {
        assert(occ@.take(occ@.len() as int) =~= occ@);
    }
    Ok(out)
}

/// What the event gathered in `st` contributes at its `END:VEVENT`.
fn event_exec(st: &Scanner, from: i64, to: i64, all_day: bool) -> (r: Result<
    Vec<BusyInterval>,
    IcsError,
>)
    requires
        scan_wf(st@),
        representable(from as int),
        representable(to as int),
    ensures
        match r {
            Ok(v) => event_intervals(st@, from as int, to as int, all_day) == Ok::<
                Seq<BusyInterval>,
                IcsError,
            >(v@),
            Err(e) => event_intervals(st@, from as int, to as int, all_day) == Err::<
                Seq<BusyInterval>,
                IcsError,
            >(e),
        },
{
    let none: Vec<BusyInterval> = Vec::new();
    proof {
        assert(none@ =~= seq![]);
    }
    if st.cancelled || st.transparent {
        return Ok(none);
    }
    let s = match st.start {
        Some(s) => s,
        None => return Ok(none),
    };
    if s.all_day && !all_day {
        return Ok(none);
    }
    let len: i64 = match st.end {
        Some(e) => e.at - s.at,
        None => match st.duration {
            Some(d) => d,
            None => {
                if s.all_day {
                    86400
                } else {
                    return Ok(none);
                }
            },
        },
    };
    assert(event_length(st@, s) == Some(len as int));
    if len <= 0 {
        return Ok(none);
    }
    if len > MAX_DELTA_SECS {
        proof {
            assert(false);
        }
        return Ok(none);
    }
    let starts: Vec<i64> = match &st.rrule {
        Some(rule) => {
            if len > from - MIN_INSTANT {
                return Err(IcsError::OutOfRange);
            }
            match expand(rule, s.at, from - len, to) {
                Ok(v) => v,
                Err(e) => return Err(e),
            }
        },
        None => {
            let mut v: Vec<i64> = Vec::new();
            v.push(s.at);
            proof {
                assert(v@ =~= seq![s.at]);
            }
            v
        },
    };
    place_exec(&starts, &st.exdates, len, from, to)
}

/// The instants of the `EXDATE` entries of `value`.
fn exdates_exec(params: &[(Vec<char>, Vec<char>)], value: &[char]) -> (r: Vec<i64>)
    ensures
        r@ == exdate_list(params_view(params@), split_on(value@, ',')),
{
    let pieces = split_all(value, ',');
    let ghost ps = split_on(value@, ',');
    let mut r: Vec<i64> = Vec::new();
    let mut k: usize = 0;
    proof {
        assert(r@ =~= seq![]);
    }
    while k < pieces.len()
        invariant
            k <= pieces@.len() == ps.len(),
            ps == split_on(value@, ','),
            forall|i: int| 0 <= i < pieces@.len() ==> (#[trigger] pieces@[i])@ == ps[i],
            r@ == exdate_list(params_view(params@), ps.take(k as int)),
        decreases pieces@.len() - k,
    {
        proof {
            assert(ps.take(k + 1).drop_last() =~= ps.take(k as int));
        }
        match parse_time(params, &pieces[k]) {
            Some(t) => r.push(t.at),
            None => {},
        }
        k = k + 1;
    }
    assert(ps.take(pieces@.len() as int) =~= ps);
    r
}

/// Upper-cases `s` and compares it with `word`.
fn upper_is(s: &[char], word: &str) -> (b: bool)
    ensures
        b == (upper_all(s@) == word@),
{
    chars_eq(&upper_chars(s), &to_chars(word))
}

/// Applies one property line of an event.
fn apply_property(st: &mut Scanner, name: &[char], params: &[(Vec<char>, Vec<char>)], value: &[char]) -> (r: Result<(), IcsError>)
    requires
        scan_wf(old(st)@),
    ensures
        scan_wf(final(st)@),
        match r {
            Ok(()) => property_effect(old(st)@, name@, params_view(params@), value@) == Ok::<
                ScanState,
                IcsError,
            >(final(st)@),
            Err(e) => property_effect(old(st)@, name@, params_view(params@), value@) == Err::<
                ScanState,
                IcsError,
            >(e),
        },
{
    if chars_eq(name, &to_chars("DTSTART")) {
        st.start = parse_time(params, value);
    } else if chars_eq(name, &to_chars("DTEND")) {
        st.end = parse_time(params, value);
    } else if chars_eq(name, &to_chars("DURATION")) {
        match parse_duration(value) {
            Ok(d) => {
                st.duration = d;
            },
            Err(e) => {
                return Err(e);
            },
        }
    } else if chars_eq(name, &to_chars("RRULE")) {
        st.rrule = parse_rrule(value);
    } else if chars_eq(name, &to_chars("EXDATE")) {
        let mut more = exdates_exec(params, value);
        st.exdates.append(&mut more);
    } else if chars_eq(name, &to_chars("STATUS")) {
        st.cancelled = upper_is(value, "CANCELLED");
    } else if chars_eq(name, &to_chars("TRANSP")) {
        st.transparent = upper_is(value, "TRANSPARENT");
    }
    Ok(())
}

/// Processes one logical line of the document.
fn scan_step(st: &mut Scanner, line: &[char], from: i64, to: i64, all_day: bool) -> (r: Result<(), IcsError>)
    requires
        scan_wf(old(st)@),
        representable(from as int),
        representable(to as int),
    ensures
        scan_wf(final(st)@),
        match r {
            Ok(()) => scan_line(old(st)@, line@, from as int, to as int, all_day) == Ok::<
                ScanState,
                IcsError,
            >(final(st)@),
            Err(e) => scan_line(old(st)@, line@, from as int, to as int, all_day) == Err::<
                ScanState,
                IcsError,
            >(e),
        },
{
    let hi = trim_end_index(line, 0, line.len());
    let t = slice_range(line, 0, hi);
    proof {
        assert(line@.subrange(0, line@.len() as int) =~= line@);
    }
    if upper_is(&t, "BEGIN:VEVENT") {
        st.in_event = true;
        st.start = None;
        st.end = None;
        st.duration = None;
        st.rrule = None;
        st.exdates = Vec::new();
        st.cancelled = false;
        st.transparent = false;
        proof {
            assert(st.exdates@ =~= seq![]);
        }
        return Ok(());
    }
    if upper_is(&t, "END:VEVENT") {
        let more = match event_exec(st, from, to, all_day) {
            Ok(v) => v,
            Err(e) => return Err(e),
        };
        st.in_event = false;
        let mut more = more;
        st.out.append(&mut more);
        return Ok(());
    }
    if !st.in_event {
        return Ok(());
    }
    match parse_property(&t) {
        None => Ok(()),
        Some(p) => apply_property(st, &p.name, &p.params, &p.value),
    }
}

proof fn lemma_scan_err(lines: Seq<Seq<char>>, from: int, to: int, all_day: bool, n: int)
    requires
        0 <= n <= lines.len(),
        scan_run(lines.take(n), from, to, all_day) is Err,
    ensures
        scan_run(lines, from, to, all_day) == scan_run(lines.take(n), from, to, all_day),
    decreases lines.len() - n,
{
    if n < lines.len() {
        assert(lines.take(n + 1).drop_last() =~= lines.take(n));
        lemma_scan_err(lines, from, to, all_day, n + 1);
    } else {
        assert(lines.take(n) =~= lines);
    }
}

/// Every busy interval in `input` that overlaps `[from, to)`, as
/// character input.
pub fn busy_intervals_of(input: &[char], from: i64, to: i64, include_all_day: bool) -> (r: Result<
    Vec<BusyInterval>,
    IcsError,
>)
    requires
        representable(from as int),
        representable(to as int),
    ensures
        match r {
            Ok(v) => busy_of(input@, from as int, to as int, include_all_day) == Ok::<
                Seq<BusyInterval>,
                IcsError,
            >(v@),
            Err(e) => busy_of(input@, from as int, to as int, include_all_day) == Err::<
                Seq<BusyInterval>,
                IcsError,
            >(e),
        },
{
    let lines = unfold_chars(input);
    let ghost ls = ics_lines(input@);
    let mut st = Scanner {
        in_event: false,
        start: None,
        end: None,
        duration: None,
        rrule: None,
        exdates: Vec::new(),
        cancelled: false,
        transparent: false,
        out: Vec::new(),
    };
    proof {
        assert(st@ == scan_start());
        assert(ls.take(0) =~= seq![]);
    }
    let mut k: usize = 0;
    while k < lines.len()
        invariant
            k <= lines@.len() == ls.len(),
            ls == ics_lines(input@),
            forall|i: int| 0 <= i < lines@.len() ==> (#[trigger] lines@[i])@ == ls[i],
            representable(from as int),
            representable(to as int),
            scan_wf(st@),
            scan_run(ls.take(k as int), from as int, to as int, include_all_day) == Ok::<
                ScanState,
                IcsError,
            >(st@),
        decreases lines@.len() - k,
    {
        proof {
            assert(ls.take(k + 1).drop_last() =~= ls.take(k as int));
            assert(ls.take(k + 1).last() == ls[k as int]);
        }
        match scan_step(&mut st, &lines[k], from, to, include_all_day) {
            Ok(()) => {},
            Err(e) => {
                proof {
                    lemma_scan_err(ls, from as int, to as int, include_all_day, k + 1);
                }
                return Err(e);
            },
        }
        k = k + 1;
    }
    proof {
        assert(ls.take(lines@.len() as int) =~= ls);
    }
    Ok(st.out)
}

/// Every busy interval in `input` that overlaps `[from, to)`.
///
/// `include_all_day` decides whether a day-long block counts.
pub fn busy_intervals(input: &str, from: i64, to: i64, include_all_day: bool) -> (r: Result<
    Vec<BusyInterval>,
    IcsError,
>)
    requires
        representable(from as int),
        representable(to as int),
    ensures
        match r {
            Ok(v) => busy_of(input@, from as int, to as int, include_all_day) == Ok::<
                Seq<BusyInterval>,
                IcsError,
            >(v@),
            Err(e) => busy_of(input@, from as int, to as int, include_all_day) == Err::<
                Seq<BusyInterval>,
                IcsError,
            >(e),
        },
{
    let chars = to_chars(input);
    busy_intervals_of(&chars, from, to, include_all_day)
}

/// Whether every interval of `v` is non-empty and overlaps `[from, to)`.
pub open spec fn within_window(v: Seq<BusyInterval>, from: int, to: int) -> bool {
    forall|i: int|
        0 <= i < v.len() ==> (#[trigger] v[i]).start < v[i].end && v[i].start < to && from
            < v[i].end
}

proof fn lemma_place_within(occ: Seq<i64>, exdates: Seq<i64>, len: int, from: int, to: int)
    requires
        len > 0,
    ensures
        place(occ, exdates, len, from, to) matches Ok(r) ==> within_window(r, from, to),
    decreases occ.len(),
{
    if occ.len() > 0 {
        lemma_place_within(occ.drop_last(), exdates, len, from, to);
        match place(occ.drop_last(), exdates, len, from, to) {
            Ok(r) => {
                let o = occ.last();
                if !exdates.contains(o) && representable(o + len) && o < to && from < o + len {
                    let r2 = r.push(BusyInterval { start: o, end: (o + len) as i64 });
                    assert forall|i: int| 0 <= i < r2.len() implies (#[trigger] r2[i]).start
                        < r2[i].end && r2[i].start < to && from < r2[i].end by {
                        if i < r.len() {
                            assert(r2[i] == r[i]);
                        }
                    }
                }
            },
            Err(_) => {},
        }
    }
}

proof fn lemma_event_within(st: ScanState, from: int, to: int, all_day: bool)
    ensures
        event_intervals(st, from, to, all_day) matches Ok(r) ==> within_window(r, from, to),
{
    if !(st.cancelled || st.transparent) {
        if let Some(s) = st.start {
            if let Some(len) = event_length(st, s) {
                if len > 0 {
                    let starts = match st.rrule {
                        Some(rule) => if representable(from - len) {
                            expansion(rule, s.at as int, from - len, to)
                        } else {
                            Err(IcsError::OutOfRange)
                        },
                        None => Ok(seq![s.at]),
                    };
                    if let Ok(occ) = starts {
                        lemma_place_within(occ, st.exdates, len, from, to);
                    }
                }
            }
        }
    }
}

proof fn lemma_window_concat(a: Seq<BusyInterval>, b: Seq<BusyInterval>, from: int, to: int)
    requires
        within_window(a, from, to),
        within_window(b, from, to),
    ensures
        within_window(a + b, from, to),
{
    assert forall|i: int| 0 <= i < (a + b).len() implies (#[trigger] (a + b)[i]).start < (a
        + b)[i].end && (a + b)[i].start < to && from < (a + b)[i].end by {
        if i < a.len() {
            assert((a + b)[i] == a[i]);
        } else {
            assert((a + b)[i] == b[i - a.len()]);
        }
    }
}

proof fn lemma_scan_within(lines: Seq<Seq<char>>, from: int, to: int, all_day: bool)
    ensures
        scan_run(lines, from, to, all_day) matches Ok(st) ==> within_window(st.out, from, to),
    decreases lines.len(),
{
    if lines.len() > 0 {
        lemma_scan_within(lines.drop_last(), from, to, all_day);
        if let Ok(st) = scan_run(lines.drop_last(), from, to, all_day) {
            lemma_event_within(st, from, to, all_day);
            if let Ok(more) = event_intervals(st, from, to, all_day) {
                lemma_window_concat(st.out, more, from, to);
            }
            let t = trim_end(lines.last());
            if let Some((name, params, value)) = property_of(t) {
                if let Ok(st2) = property_effect(st, name, params, value) {
                    assert(st2.out == st.out);
                }
            }
        }
    }
}

/// Every interval read from a document is non-empty and overlaps the
/// requested window `[from, to)`, half-open on both sides: events outside
/// the window, and events of no positive length, are dropped.
pub proof fn law_busy_intervals_within_window(input: Seq<char>, from: int, to: int, all_day: bool)
    ensures
        busy_of(input, from, to, all_day) matches Ok(v) ==> within_window(v, from, to),
{
    lemma_scan_within(ics_lines(input), from, to, all_day);
}


/// Whether a logical line is one at which reading can fail: the end of an
/// event, where its dates are placed, or its `DURATION`.
pub open spec fn may_fail(line: Seq<char>) -> bool {
    ||| upper_all(trim_end(line)) == "END:VEVENT"@
    ||| (property_of(trim_end(line)) matches Some((n, _, _)) && n == "DURATION"@)
}

/// Whether a logical line closes an event.
pub open spec fn closes_event(line: Seq<char>) -> bool {
    upper_all(trim_end(line)) == "END:VEVENT"@
}

proof fn lemma_scan_fails_at(lines: Seq<Seq<char>>, from: int, to: int, all_day: bool)
    ensures
        scan_run(lines, from, to, all_day) is Err ==> exists|i: int|
            0 <= i < lines.len() && may_fail(#[trigger] lines[i]),
    decreases lines.len(),
{
    if lines.len() > 0 {
        let init = lines.drop_last();
        lemma_scan_fails_at(init, from, to, all_day);
        if scan_run(init, from, to, all_day) is Err {
            let i = choose|i: int| 0 <= i < init.len() && may_fail(#[trigger] init[i]);
            assert(lines[i] == init[i]);
        } else if scan_run(lines, from, to, all_day) is Err {
            assert(may_fail(lines[lines.len() - 1]));
        }
    }
}

proof fn lemma_scan_quiet(lines: Seq<Seq<char>>, from: int, to: int, all_day: bool)
    requires
        forall|i: int| 0 <= i < lines.len() ==> !closes_event(#[trigger] lines[i]),
    ensures
        scan_run(lines, from, to, all_day) matches Ok(st) ==> st.out.len() == 0,
    decreases lines.len(),
{
    if lines.len() > 0 {
        let init = lines.drop_last();
        assert forall|i: int| 0 <= i < init.len() implies !closes_event(#[trigger] init[i]) by {
            assert(init[i] == lines[i]);
        }
        lemma_scan_quiet(init, from, to, all_day);
        assert(!closes_event(lines[lines.len() - 1]));
    }
}

/// Reading fails only at the end of an event or at a `DURATION` (where a
/// date or a length would go past what `chrono` holds), and a document in
/// which no event ends yields no interval at all: junk such as an empty
/// text, prose, or a lone `BEGIN:VEVENT` reads as nothing, without error.
pub proof fn law_errors_only_where_dates_are_placed(input: Seq<char>, from: int, to: int, all_day: bool)
    ensures
        busy_of(input, from, to, all_day) is Err ==> exists|i: int|
            0 <= i < ics_lines(input).len() && may_fail(#[trigger] ics_lines(input)[i]),
        (forall|i: int| 0 <= i < ics_lines(input).len() ==> !may_fail(#[trigger] ics_lines(input)[i]))
            ==> busy_of(input, from, to, all_day) == Ok::<Seq<BusyInterval>, IcsError>(seq![]),
{
    let lines = ics_lines(input);
    lemma_scan_fails_at(lines, from, to, all_day);
    if forall|i: int| 0 <= i < lines.len() ==> !may_fail(#[trigger] lines[i]) {
        assert forall|i: int| 0 <= i < lines.len() implies !closes_event(#[trigger] lines[i]) by {
            assert(!may_fail(lines[i]));
        }
        lemma_scan_quiet(lines, from, to, all_day);
        if let Ok(st) = scan_run(lines, from, to, all_day) {
            assert(st.out =~= seq![]);
        }
    }
}


proof fn lemma_place_skips_excluded(occ: Seq<i64>, exdates: Seq<i64>, len: int, from: int, to: int)
    ensures
        place(occ, exdates, len, from, to) matches Ok(v) ==> forall|i: int|
            0 <= i < v.len() ==> !exdates.contains(#[trigger] v[i].start) && occ.contains(v[i].start),
    decreases occ.len(),
{
    if occ.len() > 0 {
        let init = occ.drop_last();
        lemma_place_skips_excluded(init, exdates, len, from, to);
        if let Ok(v) = place(occ, exdates, len, from, to) {
            if let Ok(r) = place(init, exdates, len, from, to) {
                assert forall|i: int| 0 <= i < v.len() implies !exdates.contains(#[trigger] v[i].start)
                    && occ.contains(v[i].start) by {
                    if i < r.len() {
                        assert(v[i] == r[i]);
                        let k = choose|k: int| 0 <= k < init.len() && init[k] == r[i].start;
                        assert(occ[k] == init[k]);
                    } else {
                        assert(v[i].start == occ.last());
                        assert(occ[occ.len() - 1] == occ.last());
                    }
                }
            }
        }
    }
}

/// What one event contributes at its end: nothing when it is cancelled or
/// marked transparent, nothing when it is all-day and all-day events are
/// not wanted, and never an occurrence on one of its excluded dates.
pub proof fn law_what_an_event_contributes(st: ScanState, from: int, to: int, all_day: bool)
    ensures
        st.cancelled || st.transparent ==> event_intervals(st, from, to, all_day) == Ok::<
            Seq<BusyInterval>,
            IcsError,
        >(seq![]),
        (st.start matches Some(s) && s.all_day && !all_day) ==> event_intervals(st, from, to, all_day)
            == Ok::<Seq<BusyInterval>, IcsError>(seq![]),
        event_intervals(st, from, to, all_day) matches Ok(v) ==> forall|i: int|
            0 <= i < v.len() ==> !st.exdates.contains(#[trigger] v[i].start),
{
    if let Some(s) = st.start {
        if let Some(len) = event_length(st, s) {
            let starts = match st.rrule {
                Some(rule) => if representable(from - len) {
                    expansion(rule, s.at as int, from - len, to)
                } else {
                    Err(IcsError::OutOfRange)
                },
                None => Ok(seq![s.at]),
            };
            if let Ok(occ) = starts {
                lemma_place_skips_excluded(occ, st.exdates, len, from, to);
            }
        }
    }
}

} // verus!
