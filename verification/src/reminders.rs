//! Event reminders: when one is due, how its lead time reads, and what is
//! posted.

use vstd::prelude::*;
use crate::models::{CalendarEvent, ParticipationStatus};
use crate::text::{int_decimal, lemma_filter_step, push_int, push_str};
use crate::time::representable;

verus! {

/// Used when a create request does not mention reminders at all. An
/// explicit empty list means "none"; only silence gets a default.
pub const DEFAULT_LEAD_MINUTES: i32 = 60;

/// Whether a reminder `lead` minutes ahead of an event starting at `start`
/// is due at `now`: not sent yet, the event still ahead, and inside the
/// lead window.
pub open spec fn reminder_due(now: int, start: int, lead: int, sent: bool) -> bool {
    !sent && now < start && start <= now + lead * 60
}

/// Whether a given reminder should fire now. The event must not have
/// started: after an outage, what started meanwhile is not reminded.
pub fn is_due(now: i64, start_time: i64, lead_minutes: i32, reminder_sent_at: Option<i64>) -> (b: bool)
    requires
        representable(now as int),
        reminder_sent_at is None && start_time > now ==> representable(
            now + lead_minutes * 60,
        ),
    ensures
        b == reminder_due(now as int, start_time as int, lead_minutes as int, reminder_sent_at is Some),
{
    if reminder_sent_at.is_some() {
        return false;
    }
    if start_time <= now {
        return false;
    }
    start_time <= now + (lead_minutes as i64) * 60
}

/// A reminder is never due once sent, never for an event that has started,
/// and never with a zero lead; and a longer lead opens the window no later
/// than a shorter one does.
pub proof fn law_reminder_window(now: int, start: int, lead: int, longer: int, sent: bool)
    ensures
        reminder_due(now, start, lead, true) == false,
        start <= now ==> !reminder_due(now, start, lead, sent),
        !reminder_due(now, start, 0, sent),
        reminder_due(now, start, lead, sent) && lead <= longer ==> reminder_due(
            now,
            start,
            longer,
            sent,
        ),
{
}

/// A lead time as words: whole weeks, else whole days, else whole hours,
/// else minutes.
pub open spec fn humanised(m: int) -> Seq<char> {
    if m % 10080 == 0 && m >= 10080 {
        if m / 10080 == 1 {
            "1 week"@
        } else {
            int_decimal(m / 10080) + " weeks"@
        }
    } else if m % 1440 == 0 && m >= 1440 {
        if m / 1440 == 1 {
            "1 day"@
        } else {
            int_decimal(m / 1440) + " days"@
        }
    } else if m % 60 == 0 && m >= 60 {
        if m / 60 == 1 {
            "1 hour"@
        } else {
            int_decimal(m / 60) + " hours"@
        }
    } else {
        int_decimal(m) + " minutes"@
    }
}

/// `n` followed by `unit`, as one string.
fn count_with(n: i64, unit: &str) -> (s: String)
    ensures
        s@ == int_decimal(n as int) + unit@,
{
    let mut s = String::new();
    push_int(&mut s, n);
    push_str(&mut s, unit);
    proof {
        assert(s@ =~= int_decimal(n as int) + unit@);
    }
    s
}

fn text(t: &str) -> (s: String)
    ensures
        s@ == t@,
{
    let mut s = String::new();
    push_str(&mut s, t);
    proof {
        assert(s@ =~= t@);
    }
    s
}

/// Renders a lead time for the in-app notification text.
pub fn humanise_lead(lead_minutes: i32) -> (s: String)
    ensures
        s@ == humanised(lead_minutes as int),
{
    let m = lead_minutes as i64;
    if m >= 10080 && m % 10080 == 0 {
        if m / 10080 == 1 {
            text("1 week")
        } else {
            count_with(m / 10080, " weeks")
        }
    } else if m >= 1440 && m % 1440 == 0 {
        if m / 1440 == 1 {
            text("1 day")
        } else {
            count_with(m / 1440, " days")
        }
    } else if m >= 60 && m % 60 == 0 {
        if m / 60 == 1 {
            text("1 hour")
        } else {
            count_with(m / 60, " hours")
        }
    } else {
        count_with(m, " minutes")
    }
}

/// The in-app reminder text: `{title} starts in {lead}`.
pub fn reminder_notification(title: &str, lead_minutes: i32) -> (s: String)
    ensures
        s@ == title@ + " starts in "@ + humanised(lead_minutes as int),
{
    let mut s = String::new();
    push_str(&mut s, title);
    push_str(&mut s, " starts in ");
    let h = humanise_lead(lead_minutes);
    push_str(&mut s, h.as_str());
    proof {
        assert(s@ =~= title@ + " starts in "@ + humanised(lead_minutes as int));
    }
    s
}

/// The reminder posted into the event's Discord thread, French and with
/// Discord timestamps so each reader sees their own zone.
pub open spec fn reminder_message(e: CalendarEvent) -> Seq<char> {
    "⏰ **Rappel :** "@ + e.title@ + " commence <t:"@ + int_decimal(e.start_time as int)
        + ":R> !\n"@ + "**Heure :** <t:"@ + int_decimal(e.start_time as int) + ":t>\n"@ + (
    match e.location {
        Some(l) => "**Lieu :** "@ + l@ + "\n"@,
        None => seq![],
    }) + (match e.price {
        Some(p) => "**Prix :** "@ + p@ + "\n"@,
        None => seq![],
    }) + "\nÀ tout à l'heure ! 🎉"@
}

/// The message posted into the event's Discord thread. The lead time is
/// not spelled out: `<t:…:R>` already says "in 2 days" in the reader's
/// locale.
pub fn format_reminder_message(event: &CalendarEvent, lead_minutes: i32) -> (s: String)
    ensures
        s@ == reminder_message(*event),
{
    let mut s = String::new();
    push_str(&mut s, "⏰ **Rappel :** ");
    push_str(&mut s, event.title.as_str());
    push_str(&mut s, " commence <t:");
    push_int(&mut s, event.start_time);
    push_str(&mut s, ":R> !\n");
    push_str(&mut s, "**Heure :** <t:");
    push_int(&mut s, event.start_time);
    push_str(&mut s, ":t>\n");
    let ghost mid = s@;
    match &event.location {
        Some(l) => {
            push_str(&mut s, "**Lieu :** ");
            push_str(&mut s, l.as_str());
            push_str(&mut s, "\n");
        },
        None => {},
    }
    let ghost mid2 = s@;
    match &event.price {
        Some(p) => {
            push_str(&mut s, "**Prix :** ");
            push_str(&mut s, p.as_str());
            push_str(&mut s, "\n");
        },
        None => {},
    }
    let ghost mid3 = s@;
    push_str(&mut s, "\nÀ tout à l'heure ! 🎉");
    proof {
        assert(mid2 =~= mid + (match event.location {
            Some(l) => "**Lieu :** "@ + l@ + "\n"@,
            None => seq![],
        }));
        assert(mid3 =~= mid2 + (match event.price {
            Some(p) => "**Prix :** "@ + p@ + "\n"@,
            None => seq![],
        }));
        assert(s@ =~= reminder_message(*event));
    }
    s
}

/// Whether `out` is strictly increasing and holds exactly the positive
/// values of `leads`.
pub open spec fn normalised_leads(out: Seq<i32>, leads: Seq<i32>) -> bool {
    &&& forall|i: int, j: int| 0 <= i < j < out.len() ==> out[i] < out[j]
    &&& forall|x: i32| out.contains(x) <==> (leads.contains(x) && x > 0)
}

/// The first position of `v` whose value is not below `m`.
fn first_not_below(v: &Vec<i32>, m: i32) -> (p: usize)
    ensures
        p <= v@.len(),
        forall|i: int| 0 <= i < p ==> v@[i] < m,
        p < v@.len() ==> v@[p as int] >= m,
{
    let mut p: usize = 0;
    while p < v.len() && v[p] < m
        invariant
            p <= v@.len(),
            forall|i: int| 0 <= i < p ==> v@[i] < m,
        decreases v@.len() - p,
    {
        p = p + 1;
    }
    p
}

/// The reminder lead times an event keeps: non-positive values and
/// duplicates are dropped rather than rejected, and the rest sorted.
pub fn normalise_leads(leads: &[i32]) -> (out: Vec<i32>)
    ensures
        normalised_leads(out@, leads@),
{
    let mut out: Vec<i32> = Vec::new();
    let mut k: usize = 0;
    while k < leads.len()
        invariant
            k <= leads@.len(),
            forall|i: int, j: int| 0 <= i < j < out@.len() ==> out@[i] < out@[j],
            forall|x: i32| out@.contains(x) <==> (leads@.take(k as int).contains(x) && x > 0),
        decreases leads@.len() - k,
    {
        let m = leads[k];
        let ghost t1 = leads@.take(k + 1);
        let ghost t0 = leads@.take(k as int);
        let ghost out0 = out@;
        proof {
            assert forall|x: i32| t1.contains(x) <==> (t0.contains(x) || x == m) by {
                if t1.contains(x) {
                    let i = choose|i: int| 0 <= i < t1.len() && #[trigger] t1[i] == x;
                    if i < k {
                        assert(t0[i] == x);
                    }
                }
                if t0.contains(x) {
                    let i = choose|i: int| 0 <= i < t0.len() && #[trigger] t0[i] == x;
                    assert(t1[i] == x);
                }
                if x == m {
                    assert(t1[k as int] == x);
                }
            }
        }
        if m > 0 {
            let p = first_not_below(&out, m);
            if p < out.len() && out[p] == m {
                assert(out@[p as int] == m);
                assert(out@.contains(m));
                assert forall|x: i32| out@.contains(x) <==> (out0.contains(x) || x == m) by {}
            } else {
                let ghost before = out@;
                proof {
                    assert(!before.contains(m)) by {
                        if before.contains(m) {
                            let i = choose|i: int| 0 <= i < before.len() && #[trigger] before[i] == m;
                            if i < p {
                                assert(before[i] < m);
                            } else if i > p {
                                assert(before[p as int] < before[i]);
                                assert(before[p as int] >= m);
                            }
                        }
                    }
                }
                out.insert(p, m);
                proof {
                    crate::text::lemma_insert_contains(before, p as int, m, m);
                    assert forall|x: i32| out@.contains(x) <==> (before.contains(x) || x == m) by {
                        crate::text::lemma_insert_contains(before, p as int, m, x);
                    }
                    assert forall|i: int, j: int| 0 <= i < j < out@.len() implies out@[i] < out@[j] by {
                        if j < p {
                            assert(out@[i] == before[i] && out@[j] == before[j]);
                        } else if j == p {
                            assert(out@[i] == before[i]);
                        } else if i < p {
                            assert(out@[i] == before[i] && out@[j] == before[j - 1]);
                            if p < before.len() {
                                assert(before[p as int] >= m);
                                if j - 1 > p {
                                    assert(before[p as int] < before[j - 1]);
                                }
                            }
                        } else if i == p {
                            assert(out@[j] == before[j - 1]);
                            assert(before[p as int] >= m);
                            assert(before[p as int] != m);
                            if j - 1 > p {
                                assert(before[p as int] < before[j - 1]);
                            }
                        } else {
                            assert(out@[i] == before[i - 1] && out@[j] == before[j - 1]);
                        }
                    }
                }
            }
        }
        proof {
            assert forall|x: i32| out@.contains(x) <==> (t1.contains(x) && x > 0) by {
                if m > 0 {
                    assert(out@.contains(x) <==> (out0.contains(x) || x == m));
                } else {
                    assert(out@ == out0);
                }
            }
        }
        k = k + 1;
    }
    proof {
        assert(leads@.take(leads@.len() as int) =~= leads@);
    }
    out
}

/// The reminder leads a new event gets: the default single reminder where
/// the request says nothing about reminders, else the ones it gives,
/// positive, without duplicates, in ascending order (an explicit empty
/// list means none).
pub fn leads_for_create(leads: Option<&[i32]>) -> (out: Vec<i32>)
    ensures
        match leads {
            None => out@ == seq![DEFAULT_LEAD_MINUTES],
            Some(l) => normalised_leads(out@, l@),
        },
{
    match leads {
        None => {
            let v: Vec<i32> = vec![DEFAULT_LEAD_MINUTES];
            assert(v@ =~= seq![DEFAULT_LEAD_MINUTES]);
            v
        },
        Some(l) => normalise_leads(l),
    }
}

/// Whether an update re-arms the event's reminders (clears their sent
/// markers): exactly when it moves the start. A reminder that went out
/// described the old time; renaming an event must not re-notify anyone.
pub fn rearms_reminders(old_start: i64, new_start: Option<i64>) -> (b: bool)
    ensures
        b == (new_start matches Some(t) && t != old_start),
{
    match new_start {
        Some(t) => t != old_start,
        None => false,
    }
}

/// When the reminder of lead `lead` among `existing` (lead, sent time)
/// went out: the first one of that lead, if any.
pub open spec fn sent_for(existing: Seq<(i32, Option<i64>)>, lead: i32) -> Option<i64>
    decreases existing.len(),
{
    if existing.len() == 0 {
        None
    } else if existing[0].0 == lead {
        existing[0].1
    } else {
        sent_for(existing.drop_first(), lead)
    }
}

/// A reminder's sent time comes only from an existing reminder of exactly
/// the same lead - the first such, where there are several - and a lead
/// that no existing reminder has starts unsent.
pub proof fn law_sent_time_follows_its_lead(existing: Seq<(i32, Option<i64>)>, lead: i32)
    ensures
        (forall|i: int| 0 <= i < existing.len() ==> (#[trigger] existing[i]).0 != lead) ==> sent_for(
            existing,
            lead,
        ) is None,
        (exists|i: int| 0 <= i < existing.len() && (#[trigger] existing[i]).0 == lead) ==> exists|i: int|
            0 <= i < existing.len() && (#[trigger] existing[i]).0 == lead && sent_for(existing, lead)
                == existing[i].1 && forall|j: int| 0 <= j < i ==> (#[trigger] existing[j]).0 != lead,
    decreases existing.len(),
{
    if existing.len() > 0 {
        let rest = existing.drop_first();
        law_sent_time_follows_its_lead(rest, lead);
        if existing[0].0 != lead {
            if forall|i: int| 0 <= i < existing.len() ==> (#[trigger] existing[i]).0 != lead {
                assert forall|i: int| 0 <= i < rest.len() implies (#[trigger] rest[i]).0 != lead by {
                    assert(rest[i] == existing[i + 1]);
                }
            }
            if exists|i: int| 0 <= i < existing.len() && (#[trigger] existing[i]).0 == lead {
                let i0 = choose|i: int| 0 <= i < existing.len() && (#[trigger] existing[i]).0 == lead;
                assert(rest[i0 - 1] == existing[i0]);
                let j = choose|j: int|
                    0 <= j < rest.len() && (#[trigger] rest[j]).0 == lead && sent_for(rest, lead) == rest[j].1
                        && forall|m: int| 0 <= m < j ==> (#[trigger] rest[m]).0 != lead;
                assert(existing[j + 1] == rest[j]);
                assert forall|m: int| 0 <= m < j + 1 implies (#[trigger] existing[m]).0 != lead by {
                    if m > 0 {
                        assert(existing[m] == rest[m - 1]);
                    }
                }
            }
        } else {
            assert(existing[0].0 == lead);
        }
    }
}

fn sent_time(existing: &[(i32, Option<i64>)], lead: i32) -> (r: Option<i64>)
    ensures
        r == sent_for(existing@, lead),
{
    let mut k: usize = 0;
    proof {
        assert(existing@.skip(0) =~= existing@);
    }
    while k < existing.len()
        invariant
            k <= existing@.len(),
            sent_for(existing@, lead) == sent_for(existing@.skip(k as int), lead),
        decreases existing@.len() - k,
    {
        proof {
            assert(existing@.skip(k as int)[0] == existing@[k as int]);
            assert(existing@.skip(k as int).drop_first() =~= existing@.skip(k + 1));
        }
        if existing[k].0 == lead {
            return existing[k].1;
        }
        k = k + 1;
    }
    proof {
        assert(existing@.skip(k as int).len() == 0);
    }
    None
}

/// The reminders an event keeps when its leads are set to `wanted`, given
/// the ones it has (`existing`, lead and sent time): the positive wanted
/// leads, ascending and each once, and each keeps the sent time it had,
/// so setting the leads again never re-arms a reminder that went out; a
/// new lead starts unsent, and a lead no longer wanted is dropped.
pub fn plan_reminders(existing: &[(i32, Option<i64>)], wanted: &[i32]) -> (r: Vec<(i32, Option<i64>)>)
    ensures
        normalised_leads(r@.map_values(|x: (i32, Option<i64>)| x.0), wanted@),
        forall|i: int| 0 <= i < r@.len() ==> (#[trigger] r@[i]).1 == sent_for(existing@, r@[i].0),
{
    let leads = normalise_leads(wanted);
    let mut r: Vec<(i32, Option<i64>)> = Vec::new();
    let mut k: usize = 0;
    while k < leads.len()
        invariant
            k <= leads@.len(),
            r@.len() == k,
            forall|i: int| 0 <= i < k ==> (#[trigger] r@[i]).0 == leads@[i] && r@[i].1 == sent_for(
                existing@,
                leads@[i],
            ),
        decreases leads@.len() - k,
    {
        let lead = leads[k];
        let sent = sent_time(existing, lead);
        r.push((lead, sent));
        k = k + 1;
    }
    proof {
        assert(r@.map_values(|x: (i32, Option<i64>)| x.0) =~= leads@);
    }
    r
}

/// One pending reminder as the sweep sees it: its id, its event's start,
/// its lead and when it went out.
pub open spec fn entry_due(now: int, e: (u128, i64, i32, Option<i64>)) -> bool {
    reminder_due(now, e.1 as int, e.2 as int, e.3 is Some)
}

/// The ids of the reminders due at `now`, in order.
pub open spec fn due_ids(now: int, rs: Seq<(u128, i64, i32, Option<i64>)>) -> Seq<u128> {
    rs.filter(|e: (u128, i64, i32, Option<i64>)| entry_due(now, e)).map_values(
        |e: (u128, i64, i32, Option<i64>)| e.0,
    )
}

/// The reminders after a sweep at `now` marked the due ones sent.
pub open spec fn after_sweep(now: int, rs: Seq<(u128, i64, i32, Option<i64>)>) -> Seq<(u128, i64, i32, Option<i64>)> {
    rs.map_values(
        |e: (u128, i64, i32, Option<i64>)|
            if entry_due(now, e) {
                (e.0, e.1, e.2, Some(now as i64))
            } else {
                e
            },
    )
}

/// Which reminders a sweep at `now` sends, in order.
pub fn sweep(now: i64, rs: &[(u128, i64, i32, Option<i64>)]) -> (r: Vec<u128>)
    requires
        representable(now as int),
        forall|i: int|
            0 <= i < rs@.len() ==> ((#[trigger] rs@[i]).3 is None && rs@[i].1 > now ==> representable(
                now + rs@[i].2 * 60,
            )),
    ensures
        r@ == due_ids(now as int, rs@),
{
    let ghost pred = |e: (u128, i64, i32, Option<i64>)| entry_due(now as int, e);
    let ghost proj = |e: (u128, i64, i32, Option<i64>)| e.0;
    let mut r: Vec<u128> = Vec::new();
    let mut k: usize = 0;
    proof {
        assert(rs@.take(0).filter(pred) =~= Seq::<(u128, i64, i32, Option<i64>)>::empty());
        assert(r@ =~= rs@.take(0).filter(pred).map_values(proj));
    }
    while k < rs.len()
        invariant
            k <= rs@.len(),
            representable(now as int),
            forall|i: int|
                0 <= i < rs@.len() ==> ((#[trigger] rs@[i]).3 is None && rs@[i].1 > now ==> representable(
                    now + rs@[i].2 * 60,
                )),
            pred == (|e: (u128, i64, i32, Option<i64>)| entry_due(now as int, e)),
            proj == (|e: (u128, i64, i32, Option<i64>)| e.0),
            r@ == rs@.take(k as int).filter(pred).map_values(proj),
        decreases rs@.len() - k,
    {
        let e = rs[k];
        let d = is_due(now, e.1, e.2, e.3);
        proof {
            assert(rs@.take(k + 1).drop_last() =~= rs@.take(k as int));
            assert(rs@.take(k + 1).last() == e);
            assert(d == pred(e));
            lemma_filter_step(rs@, k as int, pred);
        }
        if d {
            r.push(e.0);
            proof {
                assert(rs@.take(k + 1).filter(pred) == rs@.take(k as int).filter(pred).push(e));
                assert(r@ =~= rs@.take(k + 1).filter(pred).map_values(proj));
            }
        } else {
            proof {
                assert(rs@.take(k + 1).filter(pred) == rs@.take(k as int).filter(pred));
            }
        }
        k = k + 1;
    }
    proof {
        assert(rs@.take(rs@.len() as int) =~= rs@);
    }
    r
}

/// A reminder goes out at most once: after a sweep marks what it sent,
/// a second sweep at the same time finds nothing due.
pub proof fn law_second_sweep_sends_nothing(now: int, rs: Seq<(u128, i64, i32, Option<i64>)>)
    requires
        representable(now),
    ensures
        due_ids(now, after_sweep(now, rs)).len() == 0,
{
    let a = after_sweep(now, rs);
    let pred = |e: (u128, i64, i32, Option<i64>)| entry_due(now, e);
    assert forall|i: int| 0 <= i < a.len() implies !pred(#[trigger] a[i]) by {
        assert(a[i] == (if entry_due(now, rs[i]) {
            (rs[i].0, rs[i].1, rs[i].2, Some(now as i64))
        } else {
            rs[i]
        }));
    }
    assert(a.filter(pred) =~= Seq::<(u128, i64, i32, Option<i64>)>::empty()) by {
        lemma_filter_none(a, pred);
    }
}

proof fn lemma_filter_none(s: Seq<(u128, i64, i32, Option<i64>)>, p: spec_fn((u128, i64, i32, Option<i64>)) -> bool)
    requires
        forall|i: int| 0 <= i < s.len() ==> !p(#[trigger] s[i]),
    ensures
        s.filter(p).len() == 0,
    decreases s.len(),
{
    reveal(Seq::filter);
    if s.len() > 0 {
        assert forall|i: int| 0 <= i < s.drop_last().len() implies !p(#[trigger] s.drop_last()[i]) by {
            assert(s.drop_last()[i] == s[i]);
        }
        lemma_filter_none(s.drop_last(), p);
        assert(!p(s.last()));
    }
}

/// Who hears a reminder: everyone who said yes or maybe, not those who declined or never answered.
pub open spec fn hears_reminders(p: (u128, ParticipationStatus)) -> bool {
    p.1 == ParticipationStatus::Accepted || p.1 == ParticipationStatus::Maybe
}

pub fn reminder_recipients(ps: &[(u128, ParticipationStatus)]) -> (r: Vec<u128>)
    ensures
        r@ == ps@.filter(|p: (u128, ParticipationStatus)| hears_reminders(p)).map_values(
            |p: (u128, ParticipationStatus)| p.0,
        ),
{
    let ghost pred = |p: (u128, ParticipationStatus)| hears_reminders(p);
    let ghost proj = |p: (u128, ParticipationStatus)| p.0;
    let mut r: Vec<u128> = Vec::new();
    let mut k: usize = 0;
    proof {
        assert(ps@.take(0).filter(pred) =~= Seq::<(u128, ParticipationStatus)>::empty());
        assert(r@ =~= ps@.take(0).filter(pred).map_values(proj));
    }
    while k < ps.len()
        invariant
            k <= ps@.len(),
            pred == (|p: (u128, ParticipationStatus)| hears_reminders(p)),
            proj == (|p: (u128, ParticipationStatus)| p.0),
            r@ == ps@.take(k as int).filter(pred).map_values(proj),
        decreases ps@.len() - k,
    {
        let (user, status) = ps[k];
        proof {
            lemma_filter_step(ps@, k as int, pred);
        }
        if status == ParticipationStatus::Accepted || status == ParticipationStatus::Maybe {
            r.push(user);
            proof {
                assert(r@ =~= ps@.take(k + 1).filter(pred).map_values(proj));
            }
        }
        k = k + 1;
    }
    proof {
        assert(ps@.take(ps@.len() as int) =~= ps@);
    }
    r
}

} // verus!
