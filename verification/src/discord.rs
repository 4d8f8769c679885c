//! Discord-facing rules: feed post titles, path escaping, server ids and
//! icons, reactions, and the errors of server registration and adoption.

use vstd::prelude::*;
use crate::models::cdn_url;
use crate::text::{push_str, slice_range, split_once, split_once_at, string_from, to_chars, trim, trimmed};

verus! {

/// A feed post's title and body: a non-blank first line of a multi-line
/// post is its title; otherwise there is no title and the whole post,
/// trimmed, is the body.
pub open spec fn title_split(content: Seq<char>) -> (Option<Seq<char>>, Seq<char>) {
    match split_once(content, '\n') {
        Some((first, rest)) => if trim(first).len() > 0 {
            (Some(trim(first)), trim(rest))
        } else {
            (None, trim(content))
        },
        None => (None, trim(content)),
    }
}

/// Splits a post into its title and body.
pub fn split_title(content: &str) -> (r: (Option<String>, String))
    ensures
        (match r.0 {
            Some(t) => Some(t@),
            None => None,
        }, r.1@) == title_split(content@),
{
    let chars = to_chars(content);
    match split_once_at(&chars, '\n') {
        Some((first, rest)) => {
            let t = trimmed(&first);
            if t.len() > 0 {
                let title = string_from(&t);
                let body = string_from(&trimmed(&rest));
                return (Some(title), body);
            }
        },
        None => {},
    }
    (None, string_from(&trimmed(&chars)))
}

/// An upper-case hexadecimal digit.
pub open spec fn hex_upper(n: int) -> char {
    if n < 10 {
        (48 + n) as char
    } else {
        (55 + n) as char
    }
}

/// Every byte written as `%XX`, upper-case hex.
pub open spec fn percent_all(bytes: Seq<u8>) -> Seq<char>
    decreases bytes.len(),
{
    if bytes.len() == 0 {
        seq![]
    } else {
        percent_all(bytes.drop_last()) + seq![
            '%',
            hex_upper(bytes.last() as int / 16),
            hex_upper(bytes.last() as int % 16),
        ]
    }
}

fn hex_upper_char(n: u8) -> (c: char)
    requires
        n < 16,
    ensures
        c == hex_upper(n as int),
{
    if n < 10 {
        (48 + n) as char
    } else {
        (55 + n) as char
    }
}

/// Escapes every byte of `s` for a URL path (emoji in reaction paths).
pub fn url_encode(s: &str) -> (r: String)
    ensures
        r@ == percent_all(vstd::utf8::encode_utf8(s@)),
{
    let bytes = s.as_bytes();
    let mut r = String::new();
    let mut k: usize = 0;
    proof {
        assert(bytes@.take(0) =~= Seq::<u8>::empty());
        assert(r@ =~= percent_all(bytes@.take(0)));
    }
    while k < bytes.len()
        invariant
            k <= bytes@.len(),
            r@ == percent_all(bytes@.take(k as int)),
        decreases bytes@.len() - k,
    {
        proof {
            assert(bytes@.take(k + 1).drop_last() =~= bytes@.take(k as int));
        }
        let b = bytes[k];
        r.push('%');
        r.push(hex_upper_char(b / 16));
        r.push(hex_upper_char(b % 16));
        k = k + 1;
        proof {
            assert(r@ =~= percent_all(bytes@.take(k as int)));
        }
    }
    proof {
        assert(bytes@.take(bytes@.len() as int) =~= bytes@);
    }
    r
}

/// The CDN address of a server's icon, where it has one.
pub fn icon_url_for(discord_guild_id: &str, icon: Option<&str>) -> (r: Option<String>)
    ensures
        match icon {
            Some(i) => r matches Some(u) && u@ == cdn_url("icons/"@, discord_guild_id@, i@),
            None => r is None,
        },
{
    crate::models::LinkedServerInfo::build_icon_url(discord_guild_id, icon)
}

/// Why registering a server by id did not work.
#[derive(Debug, PartialEq, Eq)]
pub enum RegisterError {
    /// Not a Discord snowflake.
    NotASnowflake,
    /// Discord answered, and the bot is not a member of that server.
    BotNotInServer,
    /// No bot token configured, so nothing can be checked.
    NoBotToken,
    /// Discord could not be reached, or said something unexpected.
    Unreachable(String),
}

/// What a registration error says to the user.
pub open spec fn register_error_text(e: RegisterError) -> Seq<char> {
    match e {
        RegisterError::NotASnowflake => "That isn't a Discord server ID - it should be a long number, copied with Developer Mode on"@,
        RegisterError::BotNotInServer => "The bot isn't in that server yet. Use the invite link above to add it, then try again"@,
        RegisterError::NoBotToken => "This deployment has no Discord bot token configured, so servers can't be checked"@,
        RegisterError::Unreachable(why) => "Couldn't reach Discord: "@ + why@,
    }
}

impl RegisterError {
    pub fn message(&self) -> (s: String)
        ensures
            s@ == register_error_text(*self),
    {
        let mut s = String::new();
        match self {
            RegisterError::NotASnowflake => push_str(
                &mut s,
                "That isn't a Discord server ID - it should be a long number, copied with Developer Mode on",
            ),
            RegisterError::BotNotInServer => push_str(
                &mut s,
                "The bot isn't in that server yet. Use the invite link above to add it, then try again",
            ),
            RegisterError::NoBotToken => push_str(
                &mut s,
                "This deployment has no Discord bot token configured, so servers can't be checked",
            ),
            RegisterError::Unreachable(why) => {
                push_str(&mut s, "Couldn't reach Discord: ");
                push_str(&mut s, why.as_str());
            },
        }
        proof {
            assert(s@ =~= register_error_text(*self));
        }
        s
    }
}

/// Whether every character of `s` is an ASCII digit.
pub open spec fn all_ascii_digits(s: Seq<char>) -> bool {
    forall|i: int| 0 <= i < s.len() ==> '0' <= #[trigger] s[i] <= '9'
}

/// The server id a user typed, trimmed, where it is a snowflake: one or
/// more decimal digits. Anything else would be put straight into a request
/// path.
pub fn check_guild_id(raw: &str) -> (r: Result<String, RegisterError>)
    ensures
        match r {
            Ok(id) => id@ == trim(raw@) && trim(raw@).len() > 0 && all_ascii_digits(trim(raw@)),
            Err(e) => e == RegisterError::NotASnowflake && !(trim(raw@).len() > 0
                && all_ascii_digits(trim(raw@))),
        },
{
    let chars = to_chars(raw);
    let id = trimmed(&chars);
    if id.len() == 0 {
        return Err(RegisterError::NotASnowflake);
    }
    let mut k: usize = 0;
    while k < id.len()
        invariant
            k <= id@.len(),
            id@ == trim(raw@),
            forall|i: int| 0 <= i < k ==> '0' <= #[trigger] id@[i] <= '9',
        decreases id@.len() - k,
    {
        if !('0' <= id[k] && id[k] <= '9') {
            assert(!('0' <= id@[k as int] <= '9'));
            assert(!all_ascii_digits(id@));
            return Err(RegisterError::NotASnowflake);
        }
        k = k + 1;
    }
    Ok(string_from(&id))
}

/// What Discord's answer to looking up a server means for registering it:
/// 404 and 403 both mean the bot is not in that server (Discord does not
/// tell "no such server" from "not yours"), any other non-2xx status is an
/// error naming the status (`status_text`, as the HTTP client prints it),
/// and a 2xx answer goes on.
pub fn guild_reply(status: u16, status_text: &str) -> (r: Result<(), RegisterError>)
    ensures
        status == 404 || status == 403 ==> r == Err::<(), RegisterError>(RegisterError::BotNotInServer),
        !(status == 404 || status == 403) && !(200 <= status < 300) ==> (r matches Err(
            RegisterError::Unreachable(why),
        ) && why@ == "HTTP "@ + status_text@),
        200 <= status < 300 ==> r is Ok,
{
    if status == 404 || status == 403 {
        return Err(RegisterError::BotNotInServer);
    }
    if !(200 <= status && status < 300) {
        let mut why = String::new();
        push_str(&mut why, "HTTP ");
        push_str(&mut why, status_text);
        assert(why@ =~= "HTTP "@ + status_text@);
        return Err(RegisterError::Unreachable(why));
    }
    Ok(())
}

/// Why an announcement cannot become an event.
#[derive(Debug, Clone, Copy, PartialEq, Eq, Structural)]
pub enum AdoptError {
    /// No announcement with that id.
    UnknownPost,
    /// The message already backs an event.
    AlreadyAdopted,
    /// No server is registered, so there is nothing to publish into.
    NoGuild,
}

pub open spec fn adopt_error_text(e: AdoptError) -> Seq<char> {
    match e {
        AdoptError::UnknownPost => "No such announcement"@,
        AdoptError::AlreadyAdopted => "That announcement is already on the calendar as an event"@,
        AdoptError::NoGuild => "No Discord server is registered yet - the bot records one when it connects"@,
    }
}

impl AdoptError {
    pub fn message(&self) -> (s: String)
        ensures
            s@ == adopt_error_text(*self),
    {
        let mut s = String::new();
        match self {
            AdoptError::UnknownPost => push_str(&mut s, "No such announcement"),
            AdoptError::AlreadyAdopted => push_str(
                &mut s,
                "That announcement is already on the calendar as an event",
            ),
            AdoptError::NoGuild => push_str(
                &mut s,
                "No Discord server is registered yet - the bot records one when it connects",
            ),
        }
        proof {
            assert(s@ =~= adopt_error_text(*self));
        }
        s
    }
}

/// A webhook to post through; its id and token travel together.
#[derive(Debug, PartialEq, Eq)]
pub struct WebhookTarget {
    pub id: String,
    pub token: String,
}

/// How a post is attributed.
#[derive(Debug)]
pub struct Author {
    pub name: String,
    pub avatar_url: Option<String>,
}

/// Whether a reaction (its emoji, where it is a Unicode one) counts as
/// signing up: only the check marks do.
pub fn is_attendance_emoji(unicode: Option<&str>) -> (b: bool)
    ensures
        b == match unicode {
            Some(s) => s@ == "✅"@ || s@ == "☑️"@,
            None => false,
        },
{
    match unicode {
        Some(s) => {
            let c = to_chars(s);
            crate::text::chars_eq(&c, &to_chars("✅")) || crate::text::chars_eq(
                &c,
                &to_chars("☑️"),
            )
        },
        None => false,
    }
}

/// What a pass of reaction syncing saw and did.
#[derive(Debug, Default, PartialEq, Eq, Structural)]
pub struct SyncReport {
    pub messages_checked: usize,
    pub reactions_seen: usize,
    pub rsvps_recorded: usize,
}

/// Discord returns at most this many reactors per page.
pub const REACTION_PAGE: usize = 100;

/// Where the next page of reactors starts: after the last reactor of a
/// full page; nowhere after an empty or short page.
pub fn next_reactor_page(page_ids: &[String]) -> (r: Option<String>)
    ensures
        match r {
            Some(c) => page_ids@.len() >= REACTION_PAGE && c@ == page_ids@.last()@,
            None => page_ids@.len() < REACTION_PAGE,
        },
{
    if page_ids.len() < REACTION_PAGE {
        return None;
    }
    Some(page_ids[page_ids.len() - 1].clone())
}

/// The name a discussion thread gets: the first 90 characters of the
/// event's title (Discord caps names at 100), or `Thread` where that is
/// blank.
pub open spec fn thread_name_of(title: Seq<char>) -> Seq<char> {
    let n = if title.len() < 90 { title.len() as int } else { 90 };
    if trim(title.take(n)).len() == 0 {
        "Thread"@
    } else {
        title.take(n)
    }
}

pub fn thread_name(title: &str) -> (r: String)
    ensures
        r@ == thread_name_of(title@),
{
    let c = to_chars(title);
    let n: usize = if c.len() < 90 { c.len() } else { 90 };
    let head = slice_range(&c, 0, n);
    assert(head@ =~= title@.take(n as int));
    if trimmed(&head).len() == 0 {
        let mut r = String::new();
        push_str(&mut r, "Thread");
        assert(r@ =~= "Thread"@);
        r
    } else {
        string_from(&head)
    }
}

} // verus!
