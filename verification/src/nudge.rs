//! Chasing the people who never answered: the creator-only, rate-limited
//! nudge.

use vstd::prelude::*;
use crate::models::ParticipationStatus;
use crate::text::{int_decimal, lemma_filter_step, nat_decimal, push_int, push_nat, push_str};
use crate::time::representable;

verus! {

/// How long a creator waits before nudging the same event again.
pub const NUDGE_COOLDOWN_HOURS: i64 = 24;

/// The cooldown, in seconds.
pub open spec fn cooldown_secs() -> int {
    NUDGE_COOLDOWN_HOURS * 3600
}

/// When a nudge made at `last` allows the next.
pub open spec fn next_nudge(last: int) -> int {
    last + cooldown_secs()
}

/// Whether an event last nudged at `last` (never, for `None`) may be nudged
/// at `now`.
pub open spec fn nudge_allowed(now: int, last: Option<int>) -> bool {
    match last {
        None => true,
        Some(l) => now >= l + cooldown_secs(),
    }
}

/// Whether an event last nudged at `nudged_at` may be nudged at `now`: the
/// cooldown boundary is inclusive.
pub fn can_nudge(now: i64, nudged_at: Option<i64>) -> (b: bool)
    requires
        nudged_at matches Some(l) ==> representable(l + cooldown_secs()),
    ensures
        b == nudge_allowed(
            now as int,
            match nudged_at {
                Some(l) => Some(l as int),
                None => None,
            },
        ),
{
    match nudged_at {
        None => true,
        Some(last) => now >= last + NUDGE_COOLDOWN_HOURS * 3600,
    }
}

/// When the next nudge becomes allowed.
pub fn next_nudge_at(nudged_at: i64) -> (t: i64)
    requires
        representable(nudged_at + cooldown_secs()),
    ensures
        t == next_nudge(nudged_at as int),
{
    nudged_at + NUDGE_COOLDOWN_HOURS * 3600
}

/// A nudge is allowed exactly from the moment `next_nudge_at` names, which
/// is a full cooldown after the last one; a refused nudge is told a time
/// still ahead of it.
pub proof fn law_nudge_allowed_from_next(now: int, last: int)
    ensures
        nudge_allowed(now, Some(last)) <==> now >= next_nudge(last),
        next_nudge(last) - last == NUDGE_COOLDOWN_HOURS * 3600,
        !nudge_allowed(now, Some(last)) ==> next_nudge(last) > now,
        nudge_allowed(now, None),
{
}

/// What a nudge did.
#[derive(Debug, PartialEq, Eq, Structural)]
pub struct NudgeReport {
    /// How many people were notified.
    pub nudged: usize,
    /// True when the Discord half failed; the in-app half still went out.
    pub discord_failed: bool,
}

/// Why a nudge was refused.
#[derive(Debug, Clone, Copy, PartialEq, Eq, Structural)]
pub enum NudgeError {
    /// No such event, or not this user's to nudge: one variant, so the
    /// answer cannot be used to discover which events exist.
    NotYours,
    /// Already nudged inside the cooldown; the time the next is allowed.
    TooSoon(i64),
}

/// The decision before a nudge goes out, from what the creator-scoped
/// lookup found: `None` where the event is not the caller's, else its last
/// nudge time.
pub fn check_nudge(found: Option<Option<i64>>, now: i64) -> (r: Result<(), NudgeError>)
    requires
        found matches Some(Some(l)) ==> representable(l + cooldown_secs()),
    ensures
        match found {
            None => r == Err::<(), NudgeError>(NudgeError::NotYours),
            Some(None) => r is Ok,
            Some(Some(l)) => if now >= l + cooldown_secs() {
                r is Ok
            } else {
                r == Err::<(), NudgeError>(NudgeError::TooSoon((l + cooldown_secs()) as i64))
            },
        },
{
    match found {
        None => Err(NudgeError::NotYours),
        Some(nudged_at) => {
            if can_nudge(now, nudged_at) {
                Ok(())
            } else {
                match nudged_at {
                    Some(l) => Err(NudgeError::TooSoon(next_nudge_at(l))),
                    None => Ok(()),
                }
            }
        },
    }
}

/// The nudge posted into the event's thread, French like the other posts.
pub open spec fn nudge_message(title: Seq<char>, start: int, pending: nat) -> Seq<char> {
    "⏳ **"@ + title + "** c'est <t:"@ + int_decimal(start) + ":R> — il manque encore "@
        + nat_decimal(pending) + " réponse"@ + (if pending > 1 {
        "s"@
    } else {
        ""@
    }) + "."@
}

pub fn format_nudge_message(title: &str, start_time: i64, pending: usize) -> (s: String)
    ensures
        s@ == nudge_message(title@, start_time as int, pending as nat),
{
    let mut s = String::new();
    push_str(&mut s, "⏳ **");
    push_str(&mut s, title);
    push_str(&mut s, "** c'est <t:");
    push_int(&mut s, start_time);
    push_str(&mut s, ":R> — il manque encore ");
    push_nat(&mut s, pending as u64);
    push_str(&mut s, " réponse");
    if pending > 1 {
        push_str(&mut s, "s");
    } else {
        push_str(&mut s, "");
    }
    push_str(&mut s, ".");
    proof {
        assert(s@ =~= nudge_message(title@, start_time as int, pending as nat));
    }
    s
}

/// The in-app nudge text.
pub fn nudge_notification(title: &str) -> (s: String)
    ensures
        s@ == "Still waiting on your answer for \""@ + title@ + "\""@,
{
    let mut s = String::new();
    push_str(&mut s, "Still waiting on your answer for \"");
    push_str(&mut s, title);
    push_str(&mut s, "\"");
    proof {
        assert(s@ =~= "Still waiting on your answer for \""@ + title@ + "\""@);
    }
    s
}

/// Who a nudge chases: exactly the participants who have not answered.
pub open spec fn awaits_answer(p: (u128, ParticipationStatus)) -> bool {
    p.1 == ParticipationStatus::Pending
}

pub fn nudge_recipients(ps: &[(u128, ParticipationStatus)]) -> (r: Vec<u128>)
    ensures
        r@ == ps@.filter(|p: (u128, ParticipationStatus)| awaits_answer(p)).map_values(
            |p: (u128, ParticipationStatus)| p.0,
        ),
{
    let ghost pred = |p: (u128, ParticipationStatus)| awaits_answer(p);
    let ghost proj = |p: (u128, ParticipationStatus)| p.0;
    let mut r: Vec<u128> = Vec::new();
    let mut k: usize = 0;
    proof {
        assert(ps@.take(0).filter(pred) =~= Seq::<(u128, ParticipationStatus)>::empty());
        assert(r@ =~= ps@.take(0).filter(pred).map_values(proj));
    }
    while k < ps.len()
        invariant
            k <= ps@.len(),
            pred == (|p: (u128, ParticipationStatus)| awaits_answer(p)),
            proj == (|p: (u128, ParticipationStatus)| p.0),
            r@ == ps@.take(k as int).filter(pred).map_values(proj),
        decreases ps@.len() - k,
    {
        let (user, status) = ps[k];
        proof {
            lemma_filter_step(ps@, k as int, pred);
        }
        if status == ParticipationStatus::Pending {
            r.push(user);
            proof {
                assert(r@ =~= ps@.take(k + 1).filter(pred).map_values(proj));
            }
        }
        k = k + 1;
    }
    proof {
        assert(ps@.take(ps@.len() as int) =~= ps@);
    }
    r
}

} // verus!
