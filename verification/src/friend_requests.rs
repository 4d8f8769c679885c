//! Friend requests: what sending one does, given what is already there.

use vstd::prelude::*;
use crate::text::push_str;

verus! {

/// What sending a friend request came to.
#[derive(Debug, Clone, Copy, PartialEq, Eq, Structural)]
pub enum SendRequestOutcome {
    Sent,
    /// The recipient had already asked us: theirs is accepted instead of
    /// creating a second request.
    AutoAccepted,
    UserNotFound,
    CannotRequestSelf,
    AlreadyFriends,
    AlreadyPending,
}

/// What answering a friend request came to.
#[derive(Debug, Clone, Copy, PartialEq, Eq, Structural)]
pub enum RespondOutcome {
    Responded,
    /// No pending request with that id addressed to this user: covers both
    /// "does not exist" and "not yours" without saying which.
    NotFound,
}

/// What the sender's request does to the store.
#[derive(Debug, Clone, Copy, PartialEq, Eq, Structural)]
pub enum SendAction {
    /// Nothing is written; the outcome says why.
    Refuse(SendRequestOutcome),
    /// Accept the recipient's own pending request, of this id.
    AcceptReverse(u128),
    /// Reopen the earlier, answered request of this id.
    Reopen(u128),
    /// Create a new pending request.
    Create,
}

/// The action a friend request takes, checked in this order: an unknown
/// user, oneself, an existing friendship, a pending request the other way
/// (accepted instead), an earlier request this way (refused while pending,
/// reopened once answered), else a new request.
pub open spec fn send_action_spec(
    from: u128,
    to: Option<u128>,
    already_friends: bool,
    reverse_pending: Option<u128>,
    existing: Option<(u128, bool)>,
) -> SendAction {
    match to {
        None => SendAction::Refuse(SendRequestOutcome::UserNotFound),
        Some(t) => if t == from {
            SendAction::Refuse(SendRequestOutcome::CannotRequestSelf)
        } else if already_friends {
            SendAction::Refuse(SendRequestOutcome::AlreadyFriends)
        } else {
            match reverse_pending {
                Some(r) => SendAction::AcceptReverse(r),
                None => match existing {
                    Some((id, pending)) => if pending {
                        SendAction::Refuse(SendRequestOutcome::AlreadyPending)
                    } else {
                        SendAction::Reopen(id)
                    },
                    None => SendAction::Create,
                },
            }
        },
    }
}

/// Decides a friend request from `from` to the user named, from what the
/// store holds: the named user's id (`None` where nobody has that name),
/// whether the two are friends already, the id of a pending request the
/// other way, and an earlier request this way with whether it is still
/// pending. Checked in that order; being declined once does not block
/// asking again.
pub fn send_request_action(
    from: u128,
    to: Option<u128>,
    already_friends: bool,
    reverse_pending: Option<u128>,
    existing: Option<(u128, bool)>,
) -> (a: SendAction)
    ensures
        a == send_action_spec(from, to, already_friends, reverse_pending, existing),
{
    let t = match to {
        None => return SendAction::Refuse(SendRequestOutcome::UserNotFound),
        Some(t) => t,
    };
    if t == from {
        return SendAction::Refuse(SendRequestOutcome::CannotRequestSelf);
    }
    if already_friends {
        return SendAction::Refuse(SendRequestOutcome::AlreadyFriends);
    }
    if let Some(r) = reverse_pending {
        return SendAction::AcceptReverse(r);
    }
    match existing {
        Some((id, pending)) => {
            if pending {
                SendAction::Refuse(SendRequestOutcome::AlreadyPending)
            } else {
                SendAction::Reopen(id)
            }
        },
        None => SendAction::Create,
    }
}

/// What the sender is told once the action is done.
pub fn outcome_of(a: SendAction) -> (o: SendRequestOutcome)
    ensures
        o == match a {
            SendAction::Refuse(o) => o,
            SendAction::AcceptReverse(_) => SendRequestOutcome::AutoAccepted,
            SendAction::Reopen(_) => SendRequestOutcome::Sent,
            SendAction::Create => SendRequestOutcome::Sent,
        },
{
    match a {
        SendAction::Refuse(o) => o,
        SendAction::AcceptReverse(_) => SendRequestOutcome::AutoAccepted,
        SendAction::Reopen(_) => SendRequestOutcome::Sent,
        SendAction::Create => SendRequestOutcome::Sent,
    }
}

/// Nobody can befriend themselves, and a request never duplicates one
/// already pending either way: it is refused, or it accepts the other.
pub proof fn law_no_duplicate_requests(
    from: u128,
    to: u128,
    already_friends: bool,
    reverse_pending: Option<u128>,
    existing: Option<(u128, bool)>,
)
    ensures
        to == from ==> send_action_spec(from, Some(to), already_friends, reverse_pending, existing)
            == SendAction::Refuse(SendRequestOutcome::CannotRequestSelf),
        to != from && !already_friends && reverse_pending is Some ==> send_action_spec(
            from,
            Some(to),
            already_friends,
            reverse_pending,
            existing,
        ) is AcceptReverse,
        (send_action_spec(from, Some(to), already_friends, reverse_pending, existing) is Create
            || send_action_spec(from, Some(to), already_friends, reverse_pending, existing) is Reopen)
            ==> reverse_pending is None && !already_friends && to != from && !(existing matches Some(
            (_, true),
        )),
{
}

/// The text the sender's client shows for a successful request.
pub fn status_text(o: SendRequestOutcome) -> (s: Option<String>)
    ensures
        match o {
            SendRequestOutcome::Sent => s matches Some(t) && t@ == "sent"@,
            SendRequestOutcome::AutoAccepted => s matches Some(t) && t@ == "auto_accepted"@,
            _ => s is None,
        },
{
    match o {
        SendRequestOutcome::Sent => {
            let mut t = String::new();
            push_str(&mut t, "sent");
            assert(t@ =~= "sent"@);
            Some(t)
        },
        SendRequestOutcome::AutoAccepted => {
            let mut t = String::new();
            push_str(&mut t, "auto_accepted");
            assert(t@ =~= "auto_accepted"@);
            Some(t)
        },
        _ => None,
    }
}

/// The in-app notification the recipient of a new request gets.
pub fn request_notification(from_username: &str) -> (s: String)
    ensures
        s@ == from_username@ + " sent you a friend request"@,
{
    let mut s = String::new();
    push_str(&mut s, from_username);
    push_str(&mut s, " sent you a friend request");
    proof {
        assert(s@ =~= from_username@ + " sent you a friend request"@);
    }
    s
}

} // verus!
