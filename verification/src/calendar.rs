//! Events: who gets invited, what the invitees and the creator are told,
//! where an announcement goes, and how an event looks to one user.

use vstd::prelude::*;
use crate::models::{CalendarEvent, EventWithParticipants, ParticipantInfo, ParticipationStatus, Visibility};
use crate::text::{nat_decimal, parse_int, parse_u64, push_nat, push_str, to_chars};

verus! {

/// An explicit visibility in the request wins; the creator's stored
/// preference is only a default, and with neither the event is private.
pub fn initial_visibility(explicit: Option<Visibility>, stored_default: Option<Visibility>) -> (v: Visibility)
    ensures
        v == match explicit {
            Some(e) => e,
            None => match stored_default {
                Some(d) => d,
                None => Visibility::Private,
            },
        },
{
    match explicit {
        Some(e) => e,
        None => match stored_default {
            Some(d) => d,
            None => Visibility::Private,
        },
    }
}

/// The people a new event invites: everyone listed but its creator, who
/// joins as accepted, in the order listed.
pub fn invitees(creator_id: u128, participant_ids: &[u128]) -> (r: Vec<u128>)
    ensures
        r@ == participant_ids@.filter(|u: u128| u != creator_id),
{
    let ghost p = |u: u128| u != creator_id;
    let mut r: Vec<u128> = Vec::new();
    let mut k: usize = 0;
    while k < participant_ids.len()
        invariant
            k <= participant_ids@.len(),
            p == (|u: u128| u != creator_id),
            r@ == participant_ids@.take(k as int).filter(p),
        decreases participant_ids@.len() - k,
    {
        proof {
            crate::text::lemma_filter_step(participant_ids@, k as int, p);
        }
        if participant_ids[k] != creator_id {
            r.push(participant_ids[k]);
        }
        k = k + 1;
    }
    assert(participant_ids@.take(participant_ids@.len() as int) =~= participant_ids@);
    r
}

/// The invitation notification: `{creator} invited you to {title}`.
pub fn invite_message(creator_username: &str, title: &str) -> (s: String)
    ensures
        s@ == creator_username@ + " invited you to "@ + title@,
{
    let mut s = String::new();
    push_str(&mut s, creator_username);
    push_str(&mut s, " invited you to ");
    push_str(&mut s, title);
    proof {
        assert(s@ =~= creator_username@ + " invited you to "@ + title@);
    }
    s
}

/// What the creator is told when someone answers.
pub open spec fn rsvp_text(username: Seq<char>, status: ParticipationStatus, title: Seq<char>) -> Seq<char> {
    match status {
        ParticipationStatus::Accepted => username + " is going to your event "@ + title,
        ParticipationStatus::Declined => username + " can't make it to your event "@ + title,
        ParticipationStatus::Maybe => username + " might come to your event "@ + title,
        ParticipationStatus::Pending => username + " reset their response for your event "@ + title,
    }
}

/// The creator's notification about an answer, or nothing when the
/// creator answered their own event.
pub fn rsvp_message(
    creator_id: u128,
    responder_id: u128,
    username: &str,
    status: ParticipationStatus,
    title: &str,
) -> (r: Option<String>)
    ensures
        creator_id == responder_id ==> r is None,
        creator_id != responder_id ==> (r matches Some(m) && m@ == rsvp_text(username@, status, title@)),
{
    if creator_id == responder_id {
        return None;
    }
    let mut s = String::new();
    push_str(&mut s, username);
    match status {
        ParticipationStatus::Accepted => push_str(&mut s, " is going to your event "),
        ParticipationStatus::Declined => push_str(&mut s, " can't make it to your event "),
        ParticipationStatus::Maybe => push_str(&mut s, " might come to your event "),
        ParticipationStatus::Pending => push_str(&mut s, " reset their response for your event "),
    }
    push_str(&mut s, title);
    proof {
        assert(s@ =~= rsvp_text(username@, status, title@));
    }
    Some(s)
}

/// The channel an event is announced in for a server: its configured
/// channel where that reads as an id, else the deployment-wide fallback.
pub fn announcement_channel(configured: Option<&str>, fallback: Option<u64>) -> (r: Option<u64>)
    ensures
        r == announcement_channel_spec(configured, fallback),
{
    match configured {
        Some(c) => match parse_u64(&to_chars(c)) {
            Some(v) => Some(v),
            None => fallback,
        },
        None => fallback,
    }
}

/// What announcing an event in one selected server comes to.
#[derive(Debug, PartialEq, Eq)]
pub enum AnnounceStep {
    /// The server is not registered: skipped.
    UnknownServer,
    /// Neither the server nor the deployment names a channel: skipped.
    NoChannel,
    /// Record the publication and post in this channel.
    Publish(String),
}

/// The step for one selected server: its Discord id, if registered, and
/// its configured announcements channel; the deployment-wide channel is
/// the fallback.
pub fn announce_step(discord_guild_id: Option<&str>, configured: Option<&str>, fallback: Option<u64>) -> (r:
    AnnounceStep)
    ensures
        discord_guild_id is None ==> r == AnnounceStep::UnknownServer,
        discord_guild_id is Some ==> match announcement_channel_spec(configured, fallback) {
            Some(c) => r matches AnnounceStep::Publish(s) && s@ == nat_decimal(c as nat),
            None => r == AnnounceStep::NoChannel,
        },
{
    if discord_guild_id.is_none() {
        return AnnounceStep::UnknownServer;
    }
    match announcement_channel(configured, fallback) {
        Some(c) => {
            let mut s = String::new();
            push_nat(&mut s, c);
            assert(s@ =~= nat_decimal(c as nat));
            AnnounceStep::Publish(s)
        },
        None => AnnounceStep::NoChannel,
    }
}

/// `announcement_channel` as a spec.
pub open spec fn announcement_channel_spec(configured: Option<&str>, fallback: Option<u64>) -> Option<u64> {
    match configured {
        Some(c) => match parse_int(c@, 0, u64::MAX as int) {
            Some(v) => Some(v as u64),
            None => fallback,
        },
        None => fallback,
    }
}

/// The status of `user` on the guest list, the first entry if listed
/// twice.
pub open spec fn status_in(ps: Seq<ParticipantInfo>, user: u128) -> Option<ParticipationStatus>
    decreases ps.len(),
{
    if ps.len() == 0 {
        None
    } else if ps[0].user_id == user {
        Some(ps[0].status)
    } else {
        status_in(ps.drop_first(), user)
    }
}

/// An event as `requester` sees it: whether they created it, their own
/// answer, and whether they are on the guest list at all.
pub fn event_view(event: CalendarEvent, participants: Vec<ParticipantInfo>, requester: u128) -> (v: EventWithParticipants)
    ensures
        v.is_creator == (event.creator_id == requester),
        v.my_status == status_in(participants@, requester),
        v.is_participant == (status_in(participants@, requester) is Some),
        v.participants@ == participants@,
        v.event == event,
{
    let mut k: usize = 0;
    let mut mine: Option<ParticipationStatus> = None;
    proof {
        assert(participants@.skip(0) =~= participants@);
    }
    while k < participants.len()
        invariant_except_break
            k <= participants@.len(),
            mine is None,
            status_in(participants@, requester) == status_in(participants@.skip(k as int), requester),
        ensures
            mine == status_in(participants@, requester),
        decreases participants@.len() - k,
    {
        proof {
            assert(participants@.skip(k as int).drop_first() =~= participants@.skip(k + 1));
        }
        if participants[k].user_id == requester {
            mine = Some(participants[k].status);
            assert(participants@.skip(k as int)[0] == participants@[k as int]);
            break;
        }
        k = k + 1;
        proof {
            if k == participants@.len() {
                assert(participants@.skip(k as int).len() == 0);
            }
        }
    }
    let is_creator = event.creator_id == requester;
    let is_participant = mine.is_some();
    EventWithParticipants { event, participants, is_creator, my_status: mine, is_participant }
}

} // verus!
