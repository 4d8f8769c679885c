//! The weekly digest: when it is due, and what it says.

use vstd::prelude::*;
use crate::text::{int_decimal, push_int, push_str};
use crate::time::{hour, hour_of, representable, weekday, weekday_of};

verus! {

/// Six days, in seconds: the floor between two digests.
pub open spec fn digest_gap() -> int {
    6int * 86400
}

/// Due on a Monday at 9:00 UTC or later, when nothing was ever sent or the
/// last one is at least six days old.
pub open spec fn digest_due(now: int, last_sent: Option<int>) -> bool {
    weekday_of(now) == 0 && hour_of(now) >= 9 && match last_sent {
        None => true,
        Some(last) => now - last >= digest_gap(),
    }
}

/// Whether the weekly digest should be posted at `now`.
pub fn is_due(now: i64, last_sent: Option<i64>) -> (b: bool)
    requires
        representable(now as int),
        last_sent matches Some(l) ==> representable(l as int),
    ensures
        b == digest_due(
            now as int,
            match last_sent {
                Some(l) => Some(l as int),
                None => None,
            },
        ),
        b ==> weekday_of(now as int) == 0 && hour_of(now as int) >= 9,
{
    if weekday(now) != 0 || hour(now) < 9 {
        return false;
    }
    match last_sent {
        None => true,
        Some(last) => now - last >= 6 * 86400,
    }
}

/// A digest is never due twice within six days, and is only ever due on a
/// Monday at 09:00 UTC or later, whenever the last one went out.
pub proof fn law_digest_at_most_weekly(now: int, last: int)
    ensures
        digest_due(now, Some(last)) ==> now >= last + digest_gap(),
        digest_due(now, None) ==> weekday_of(now) == 0 && hour_of(now) >= 9,
        digest_due(now, Some(last)) ==> weekday_of(now) == 0 && hour_of(now) >= 9,
        now < last + digest_gap() ==> !digest_due(now, Some(last)),
{
}

/// The digest's one line.
pub open spec fn digest_text(count: int) -> Seq<char> {
    "📬 **Weekly digest** — "@ + int_decimal(count) + " new post"@ + (if count == 1 {
        ""@
    } else {
        "s"@
    }) + " this week."@
}

pub fn digest_message(count: i64) -> (s: String)
    ensures
        s@ == digest_text(count as int),
{
    let mut s = String::new();
    push_str(&mut s, "📬 **Weekly digest** — ");
    push_int(&mut s, count);
    push_str(&mut s, " new post");
    if count == 1 {
        push_str(&mut s, "");
    } else {
        push_str(&mut s, "s");
    }
    push_str(&mut s, " this week.");
    proof {
        assert(s@ =~= digest_text(count as int));
    }
    s
}

/// Where the digest goes, if it goes anywhere now: the guild's digest must
/// be switched on, an announcements channel configured, and the digest
/// due.
pub fn digest_channel(
    digest_enabled: bool,
    channel_id: Option<String>,
    last_sent: Option<i64>,
    now: i64,
) -> (r: Option<String>)
    requires
        representable(now as int),
        last_sent matches Some(l) ==> representable(l as int),
    ensures
        match r {
            Some(c) => digest_enabled && channel_id == Some(c) && digest_due(
                now as int,
                match last_sent {
                    Some(l) => Some(l as int),
                    None => None,
                },
            ),
            None => !digest_enabled || channel_id is None || !digest_due(
                now as int,
                match last_sent {
                    Some(l) => Some(l as int),
                    None => None,
                },
            ),
        },
{
    if !digest_enabled {
        return None;
    }
    let channel = match channel_id {
        Some(c) => c,
        None => return None,
    };
    if !is_due(now, last_sent) {
        return None;
    }
    Some(channel)
}

} // verus!
