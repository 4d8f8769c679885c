//! What the HTTP layer answers with: errors, the best-slot request check,
//! and the request and response bodies.

use vstd::prelude::*;
use crate::calendar_feed::token_of_file;
use crate::text::{push_str, to_chars};

verus! {

/// An error a request ends in.
#[derive(Debug, PartialEq, Eq)]
pub enum AppError {
    DatabaseError(String),
    OAuth2Error(String),
    ExternalApiError(String),
    JwtError(String),
    Unauthorized,
    NotFound,
}

/// The HTTP status an error answers with.
pub open spec fn status_of(e: AppError) -> u16 {
    match e {
        AppError::DatabaseError(_) => 500,
        AppError::OAuth2Error(_) => 400,
        AppError::ExternalApiError(_) => 502,
        AppError::JwtError(_) => 401,
        AppError::Unauthorized => 401,
        AppError::NotFound => 404,
    }
}

/// The `error` text of the body an error answers with.
pub open spec fn error_text(e: AppError) -> Seq<char> {
    match e {
        AppError::DatabaseError(m) => m@,
        AppError::OAuth2Error(m) => m@,
        AppError::ExternalApiError(m) => m@,
        AppError::JwtError(m) => m@,
        AppError::Unauthorized => "Unauthorized"@,
        AppError::NotFound => "Not found"@,
    }
}

impl AppError {
    pub fn status_code(&self) -> (s: u16)
        ensures
            s == status_of(*self),
    {
        match self {
            AppError::DatabaseError(_) => 500,
            AppError::OAuth2Error(_) => 400,
            AppError::ExternalApiError(_) => 502,
            AppError::JwtError(_) => 401,
            AppError::Unauthorized => 401,
            AppError::NotFound => 404,
        }
    }

    pub fn message(&self) -> (m: String)
        ensures
            m@ == error_text(*self),
    {
        let mut m = String::new();
        match self {
            AppError::DatabaseError(x) => push_str(&mut m, x.as_str()),
            AppError::OAuth2Error(x) => push_str(&mut m, x.as_str()),
            AppError::ExternalApiError(x) => push_str(&mut m, x.as_str()),
            AppError::JwtError(x) => push_str(&mut m, x.as_str()),
            AppError::Unauthorized => push_str(&mut m, "Unauthorized"),
            AppError::NotFound => push_str(&mut m, "Not found"),
        }
        proof {
            assert(m@ =~= error_text(*self));
        }
        m
    }
}

/// How long a planned slot runs when the request does not say, in minutes.
pub fn default_slot_minutes() -> (m: i64)
    ensures
        m == 120,
{
    120
}

/// Why a best-slot request was refused.
#[derive(Debug, Clone, Copy, PartialEq, Eq, Structural)]
pub enum BestSlotError {
    /// `to` is not after `from`.
    EmptyWindow,
    /// The duration is not positive.
    NonPositiveDuration,
}

pub open spec fn best_slot_error_text(e: BestSlotError) -> Seq<char> {
    match e {
        BestSlotError::EmptyWindow => "`to` must be after `from`"@,
        BestSlotError::NonPositiveDuration => "`duration_minutes` must be positive"@,
    }
}

impl BestSlotError {
    pub fn message(&self) -> (m: String)
        ensures
            m@ == best_slot_error_text(*self),
    {
        let mut m = String::new();
        match self {
            BestSlotError::EmptyWindow => push_str(&mut m, "`to` must be after `from`"),
            BestSlotError::NonPositiveDuration => push_str(
                &mut m,
                "`duration_minutes` must be positive",
            ),
        }
        proof {
            assert(m@ =~= best_slot_error_text(*self));
        }
        m
    }
}

/// Checks a best-slot request before anything is looked up: the window
/// must be non-empty, then the duration positive.
pub fn check_best_slot_query(from: i64, to: i64, duration_minutes: i64) -> (r: Result<(), BestSlotError>)
    ensures
        r == (if to <= from {
            Err(BestSlotError::EmptyWindow)
        } else if duration_minutes <= 0 {
            Err(BestSlotError::NonPositiveDuration)
        } else {
            Ok(())
        }),
{
    if to <= from {
        return Err(BestSlotError::EmptyWindow);
    }
    if duration_minutes <= 0 {
        return Err(BestSlotError::NonPositiveDuration);
    }
    Ok(())
}

/// What deleting an account came to.
#[derive(Debug, Clone, Copy, PartialEq, Eq, Structural)]
pub enum DeleteAccountOutcome {
    Deleted,
    /// The username echoed back did not match the account's own.
    ConfirmationMismatch,
}

/// An account is deleted only when the request echoes its own username
/// back exactly.
pub fn confirm_deletion(username: &str, confirm_username: &str) -> (o: DeleteAccountOutcome)
    ensures
        o == (if username@ == confirm_username@ {
            DeleteAccountOutcome::Deleted
        } else {
            DeleteAccountOutcome::ConfirmationMismatch
        }),
{
    if crate::text::chars_eq(&to_chars(username), &to_chars(confirm_username)) {
        DeleteAccountOutcome::Deleted
    } else {
        DeleteAccountOutcome::ConfirmationMismatch
    }
}

/// Discord's OAuth redirect parameters.
#[derive(Debug)]
pub struct AuthCallback {
    pub code: String,
    pub state: String,
}

/// The calendar feed address to paste into a calendar app.
#[derive(Debug)]
pub struct FeedLink {
    pub url: String,
}

/// The feed address for a token: the API's own origin, since it is
/// fetched by the calendar provider's servers, not by a browser tab.
pub open spec fn feed_link_text(public_api_url: Seq<char>, token: Seq<char>) -> Seq<char> {
    public_api_url + "/calendar/"@ + token + ".ics"@
}

pub fn feed_url(public_api_url: &str, token: &str) -> (l: FeedLink)
    ensures
        l.url@ == feed_link_text(public_api_url@, token@),
{
    let mut u = String::new();
    push_str(&mut u, public_api_url);
    push_str(&mut u, "/calendar/");
    push_str(&mut u, token);
    push_str(&mut u, ".ics");
    proof {
        assert(u@ =~= public_api_url@ + "/calendar/"@ + token@ + ".ics"@);
    }
    FeedLink { url: u }
}

/// The address handed out for a token names that token again: what follows
/// `/calendar/` in it is the segment the feed route reads, and stripping
/// `.ics` from that segment gives the token back.
pub proof fn law_feed_link_names_its_token(public_api_url: Seq<char>, token: Seq<char>)
    ensures
        token_of_file(
            feed_link_text(public_api_url, token).skip((public_api_url.len() + "/calendar/"@.len()) as int),
        ) == token,
{
    reveal_strlit(".ics");
    reveal_strlit("/calendar/");
    let f = token + ".ics"@;
    assert(feed_link_text(public_api_url, token).skip((public_api_url.len() + "/calendar/"@.len()) as int)
        =~= f);
    assert(f.skip(f.len() - 4) =~= ".ics"@);
    assert(f.take(f.len() - 4) =~= token);
}

/// A calendar feed to connect.
#[derive(Debug)]
pub struct ConnectRequest {
    pub url: String,
    pub label: Option<String>,
}

#[derive(Debug)]
pub struct SendFriendRequestBody {
    pub username: String,
}

#[derive(Debug)]
pub struct SendFriendRequestResponse {
    /// `sent` or `auto_accepted`.
    pub status: String,
}

#[derive(Debug)]
pub struct MissingMembersResponse {
    pub count: usize,
}

#[derive(Debug)]
pub struct UnreadCountResponse {
    pub count: i64,
}

/// Whether a new event's times are acceptable: it must end after it
/// starts.
pub fn event_times_ok(start_time: i64, end_time: i64) -> (b: bool)
    ensures
        b == (end_time > start_time),
{
    end_time > start_time
}

/// Whether an update's times are acceptable: where both are given, the end
/// must come after the start; one alone is not checked.
pub fn update_times_ok(start_time: Option<i64>, end_time: Option<i64>) -> (b: bool)
    ensures
        b == match (start_time, end_time) {
            (Some(s), Some(e)) => e > s,
            _ => true,
        },
{
    match (start_time, end_time) {
        (Some(s), Some(e)) => e > s,
        _ => true,
    }
}

/// The refusal of an event whose end is not after its start.
pub fn end_before_start_message() -> (m: String)
    ensures
        m@ == "End time must be after start time"@,
{
    let mut m = String::new();
    push_str(&mut m, "End time must be after start time");
    proof {
        assert(m@ =~= "End time must be after start time"@);
    }
    m
}

} // verus!
