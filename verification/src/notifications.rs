//! In-app notifications: which preference gates which kind.

use vstd::prelude::*;
use crate::text::{chars_eq, to_chars};

verus! {

/// The `users` column holding the preference that gates a notification
/// kind; kinds with no preference of their own are always delivered.
pub open spec fn preference_of(kind: Seq<char>) -> Option<Seq<char>> {
    if kind == "event_invite"@ {
        Some("notify_event_invites"@)
    } else if kind == "rsvp_change"@ {
        Some("notify_rsvp_changes"@)
    } else if kind == "announcement"@ {
        Some("notify_announcements"@)
    } else if kind == "event_reminder"@ {
        Some("notify_event_reminders"@)
    } else {
        None
    }
}

fn is(kind: &[char], word: &str) -> (b: bool)
    ensures
        b == (kind@ == word@),
{
    chars_eq(kind, &to_chars(word))
}

/// The preference column for a notification kind. The name comes from
/// this match, never from the caller, so it cannot carry user input into
/// a query.
pub fn preference_column_for(kind: &str) -> (r: Option<&'static str>)
    ensures
        match r {
            Some(c) => preference_of(kind@) == Some(c@),
            None => preference_of(kind@) is None,
        },
{
    let k = to_chars(kind);
    if is(&k, "event_invite") {
        Some("notify_event_invites")
    } else if is(&k, "rsvp_change") {
        Some("notify_rsvp_changes")
    } else if is(&k, "announcement") {
        Some("notify_announcements")
    } else if is(&k, "event_reminder") {
        Some("notify_event_reminders")
    } else {
        None
    }
}

/// Whether a notification of `kind` is stored, given the recipient's
/// setting of the preference that gates it (`None` where there is no such
/// user): a gated kind only when the preference is on.
pub fn should_deliver(kind: &str, enabled: Option<bool>) -> (b: bool)
    ensures
        b == match preference_of(kind@) {
            None => true,
            Some(_) => enabled == Some(true),
        },
{
    match preference_column_for(kind) {
        None => true,
        Some(_) => match enabled {
            Some(e) => e,
            None => false,
        },
    }
}

} // verus!
