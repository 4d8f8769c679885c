//! The records the rules read and the requests that change them, with
//! identifiers as `u128` and instants as whole seconds since the epoch.

use vstd::prelude::*;
use crate::text::push_str;

verus! {

/// Who can see an event. A user who never chose gets `Private`.
#[derive(Debug, Clone, Copy, PartialEq, Eq, Structural)]
pub enum Visibility {
    Private,
    Friends,
    Public,
}

impl Default for Visibility {
    fn default() -> (v: Visibility)
        ensures
            v == Visibility::Private,
    {
        Visibility::Private
    }
}

/// Where an invitee stands on an event.
#[derive(Debug, Clone, Copy, PartialEq, Eq, Structural)]
pub enum ParticipationStatus {
    Pending,
    Accepted,
    Declined,
    Maybe,
}

/// An event on the calendar.
#[derive(Debug)]
pub struct CalendarEvent {
    pub id: u128,
    pub creator_id: u128,
    pub title: String,
    pub description: Option<String>,
    pub start_time: i64,
    pub end_time: i64,
    pub location: Option<String>,
    pub visibility: Visibility,
    pub created_at: i64,
    pub updated_at: i64,
    pub discord_message_id: Option<String>,
    pub discord_channel_id: Option<String>,
    pub price: Option<String>,
    pub link: Option<String>,
}

/// One person on an event's guest list, as the event view shows them.
#[derive(Debug)]
pub struct ParticipantInfo {
    pub user_id: u128,
    pub discord_id: String,
    pub username: String,
    pub avatar_url: Option<String>,
    pub status: ParticipationStatus,
    pub responded_at: Option<i64>,
}

/// An event with its guest list, from the caller's point of view.
#[derive(Debug)]
pub struct EventWithParticipants {
    pub event: CalendarEvent,
    pub participants: Vec<ParticipantInfo>,
    pub is_creator: bool,
    pub my_status: Option<ParticipationStatus>,
    pub is_participant: bool,
}

/// A change to an event: only the fields present change.
#[derive(Debug)]
pub struct UpdateEventRequest {
    pub title: Option<String>,
    pub description: Option<String>,
    pub start_time: Option<i64>,
    pub end_time: Option<i64>,
    pub location: Option<String>,
    pub visibility: Option<Visibility>,
    pub price: Option<String>,
    pub link: Option<String>,
}

#[derive(Debug, Clone, Copy)]
pub struct UpdateParticipationRequest {
    pub status: ParticipationStatus,
}

#[derive(Debug)]
pub struct UpdateBotChannelConfigRequest {
    pub announcements_channel_id: Option<String>,
    pub digest_enabled: Option<bool>,
}

/// A set field of an update wins; an absent one keeps the old value.
pub open spec fn merged<T>(new: Option<T>, old: T) -> T {
    match new {
        Some(v) => v,
        None => old,
    }
}

/// A set field of an update wins, as `Some`; an absent one keeps the old
/// optional value.
pub open spec fn merged_opt<T>(new: Option<T>, old: Option<T>) -> Option<T> {
    match new {
        Some(v) => Some(v),
        None => old,
    }
}

/// Sets `slot` to the new value where there is one.
fn set_field<T>(slot: &mut T, new: Option<T>)
    ensures
        *final(slot) == merged(new, *old(slot)),
{
    if let Some(v) = new {
        *slot = v;
    }
}

/// Sets the optional `slot` to the new value where there is one.
fn set_opt_field<T>(slot: &mut Option<T>, new: Option<T>)
    ensures
        *final(slot) == merged_opt(new, *old(slot)),
{
    if let Some(v) = new {
        *slot = Some(v);
    }
}

/// Applies `req` to `event`: only the fields present in the request change.
pub fn apply_event_update(event: &mut CalendarEvent, req: UpdateEventRequest)
    ensures
        final(event).title == merged(req.title, old(event).title),
        final(event).description == merged_opt(req.description, old(event).description),
        final(event).start_time == merged(req.start_time, old(event).start_time),
        final(event).end_time == merged(req.end_time, old(event).end_time),
        final(event).location == merged_opt(req.location, old(event).location),
        final(event).visibility == merged(req.visibility, old(event).visibility),
        final(event).price == merged_opt(req.price, old(event).price),
        final(event).link == merged_opt(req.link, old(event).link),
        final(event).id == old(event).id,
        final(event).creator_id == old(event).creator_id,
        final(event).created_at == old(event).created_at,
        final(event).updated_at == old(event).updated_at,
        final(event).discord_message_id == old(event).discord_message_id,
        final(event).discord_channel_id == old(event).discord_channel_id,
{
    set_field(&mut event.title, req.title);
    set_opt_field(&mut event.description, req.description);
    set_field(&mut event.start_time, req.start_time);
    set_field(&mut event.end_time, req.end_time);
    set_opt_field(&mut event.location, req.location);
    set_field(&mut event.visibility, req.visibility);
    set_opt_field(&mut event.price, req.price);
    set_opt_field(&mut event.link, req.link);
}

/// An account.
#[derive(Debug)]
pub struct User {
    pub id: u128,
    pub discord_id: String,
    pub username: String,
    pub discriminator: Option<String>,
    pub avatar: Option<String>,
    pub email: Option<String>,
    pub created_at: i64,
    pub updated_at: i64,
    pub display_name: Option<String>,
    pub timezone: String,
    pub default_visibility: Visibility,
    pub notify_event_invites: bool,
    pub notify_rsvp_changes: bool,
    pub notify_announcements: bool,
    pub notify_weekly_digest: bool,
    pub notify_event_reminders: bool,
}

/// `s1 + s2 + s3 + s4 + s5` as one string.
fn concat5(s1: &str, s2: &str, s3: &str, s4: &str, s5: &str) -> (r: String)
    ensures
        r@ == s1@ + s2@ + s3@ + s4@ + s5@,
{
    let mut r = String::new();
    push_str(&mut r, s1);
    push_str(&mut r, s2);
    push_str(&mut r, s3);
    push_str(&mut r, s4);
    push_str(&mut r, s5);
    proof {
        assert(r@ =~= s1@ + s2@ + s3@ + s4@ + s5@);
    }
    r
}

/// The Discord CDN address of an image.
pub open spec fn cdn_url(kind: Seq<char>, owner: Seq<char>, hash: Seq<char>) -> Seq<char> {
    "https://cdn.discordapp.com/"@ + kind + owner + "/"@ + hash + ".png"@
}

impl User {
    /// The CDN address of a Discord avatar, where the user has one.
    pub fn build_avatar_url(discord_id: &str, avatar: &Option<String>) -> (r: Option<String>)
        ensures
            match avatar {
                Some(a) => r matches Some(u) && u@ == cdn_url("avatars/"@, discord_id@, a@),
                None => r is None,
            },
    {
        match avatar {
            Some(a) => {
                let u = concat5("https://cdn.discordapp.com/avatars/", discord_id, "/", a.as_str(), ".png");
                proof {
                    reveal_strlit("https://cdn.discordapp.com/avatars/");
                    reveal_strlit("https://cdn.discordapp.com/");
                    reveal_strlit("avatars/");
                    assert("https://cdn.discordapp.com/avatars/"@ =~= "https://cdn.discordapp.com/"@ + "avatars/"@);
                }
                Some(u)
            },
            None => None,
        }
    }
}

/// The profile fields a user may change: only the ones present change.
#[derive(Debug)]
pub struct UpdateProfileRequest {
    pub display_name: Option<String>,
    pub timezone: Option<String>,
    pub default_visibility: Option<Visibility>,
    pub notify_event_invites: Option<bool>,
    pub notify_rsvp_changes: Option<bool>,
    pub notify_announcements: Option<bool>,
    pub notify_weekly_digest: Option<bool>,
    pub notify_event_reminders: Option<bool>,
}

/// Applies `req` to `user`: only the fields present in the request change.
pub fn apply_profile_update(user: &mut User, req: UpdateProfileRequest)
    ensures
        final(user).display_name == merged_opt(req.display_name, old(user).display_name),
        final(user).timezone == merged(req.timezone, old(user).timezone),
        final(user).default_visibility == merged(req.default_visibility, old(user).default_visibility),
        final(user).notify_event_invites == merged(req.notify_event_invites, old(user).notify_event_invites),
        final(user).notify_rsvp_changes == merged(req.notify_rsvp_changes, old(user).notify_rsvp_changes),
        final(user).notify_announcements == merged(req.notify_announcements, old(user).notify_announcements),
        final(user).notify_weekly_digest == merged(req.notify_weekly_digest, old(user).notify_weekly_digest),
        final(user).notify_event_reminders == merged(req.notify_event_reminders, old(user).notify_event_reminders),
        final(user).id == old(user).id,
        final(user).discord_id == old(user).discord_id,
        final(user).username == old(user).username,
        final(user).discriminator == old(user).discriminator,
        final(user).avatar == old(user).avatar,
        final(user).email == old(user).email,
        final(user).created_at == old(user).created_at,
        final(user).updated_at == old(user).updated_at,
{
    set_opt_field(&mut user.display_name, req.display_name);
    set_field(&mut user.timezone, req.timezone);
    set_field(&mut user.default_visibility, req.default_visibility);
    set_field(&mut user.notify_event_invites, req.notify_event_invites);
    set_field(&mut user.notify_rsvp_changes, req.notify_rsvp_changes);
    set_field(&mut user.notify_announcements, req.notify_announcements);
    set_field(&mut user.notify_weekly_digest, req.notify_weekly_digest);
    set_field(&mut user.notify_event_reminders, req.notify_event_reminders);
}

/// The user record Discord's OAuth answer carries.
#[derive(Debug)]
pub struct DiscordUser {
    pub id: String,
    pub username: String,
    pub discriminator: String,
    pub avatar: Option<String>,
    pub email: Option<String>,
}

/// An account deletion must echo the account's own username back.
#[derive(Debug)]
pub struct DeleteAccountRequest {
    pub confirm_username: String,
}

/// Basic public info about the linked Discord server.
#[derive(Debug)]
pub struct LinkedServerInfo {
    pub id: String,
    pub name: String,
    pub icon_url: Option<String>,
    pub approximate_member_count: Option<u64>,
}

impl LinkedServerInfo {
    /// The CDN address of a server's icon, where it has one.
    pub fn build_icon_url(guild_id: &str, icon_hash: Option<&str>) -> (r: Option<String>)
        ensures
            match icon_hash {
                Some(h) => r matches Some(u) && u@ == cdn_url("icons/"@, guild_id@, h@),
                None => r is None,
            },
    {
        match icon_hash {
            Some(h) => {
                let u = concat5("https://cdn.discordapp.com/icons/", guild_id, "/", h, ".png");
                proof {
                    reveal_strlit("https://cdn.discordapp.com/icons/");
                    reveal_strlit("https://cdn.discordapp.com/");
                    reveal_strlit("icons/");
                    assert("https://cdn.discordapp.com/icons/"@ =~= "https://cdn.discordapp.com/"@ + "icons/"@);
                }
                Some(u)
            },
            None => None,
        }
    }
}

} // verus!
