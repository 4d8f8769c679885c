//! Imported calendars: the feed URL check that stands between a user's
//! paste and a server-side fetch.

use vstd::prelude::*;
use crate::ics::scan::{busy_intervals, busy_of, BusyInterval};
use crate::ics::values::IcsError;
use crate::time::representable;
use crate::text::{has_prefix, push_chars, push_str, slice_range, starts_with, string_from, to_chars, trim, trimmed};

verus! {

/// What `url::Url::parse(s)` gives: the URL's scheme and its serialised
/// text; `None` where it refuses `s`.
pub uninterp spec fn url_parsed(s: Seq<char>) -> Option<(Seq<char>, Seq<char>)>;

/// `url::Url::parse(s)`, as its scheme and its serialised text. The
/// contract claims the named result and, as `Url::scheme` is the leading
/// part of the serialisation up to its first `:`, that the text starts
/// with the scheme and a colon.
#[verifier::external_body]
fn parse_url(s: &str) -> (r: Option<(String, String)>)
    ensures
        match r {
            Some((scheme, text)) => url_parsed(s@) == Some((scheme@, text@)) && scheme@.len()
                < text@.len() && text@.take(scheme@.len() as int) == scheme@
                && text@[scheme@.len() as int] == ':',
            None => url_parsed(s@) is None,
        },
{
    match url::Url::parse(s) {
        Ok(u) => Some((u.scheme().to_string(), u.to_string())),
        Err(_) => None,
    }
}

/// Why a feed URL was refused.
#[derive(Debug, PartialEq, Eq)]
pub enum FeedUrlError {
    /// It does not parse as a URL.
    Invalid,
    /// It parses, with a scheme other than http or https.
    UnsupportedScheme(String),
}

pub open spec fn feed_url_error_text(e: FeedUrlError) -> Seq<char> {
    match e {
        FeedUrlError::Invalid => "That isn't a valid URL"@,
        FeedUrlError::UnsupportedScheme(s) => "Only http(s) calendar links are supported, not "@
            + s@,
    }
}

impl FeedUrlError {
    pub fn message(&self) -> (s: String)
        ensures
            s@ == feed_url_error_text(*self),
    {
        let mut s = String::new();
        match self {
            FeedUrlError::Invalid => push_str(&mut s, "That isn't a valid URL"),
            FeedUrlError::UnsupportedScheme(other) => {
                push_str(&mut s, "Only http(s) calendar links are supported, not ");
                push_str(&mut s, other.as_str());
            },
        }
        proof {
            assert(s@ =~= feed_url_error_text(*self));
        }
        s
    }
}

/// The pasted URL, trimmed, with Apple's `webcal://` rewritten to
/// `https://`.
pub open spec fn rewritten(raw: Seq<char>) -> Seq<char> {
    let t = trim(raw);
    if starts_with(t, "webcal://"@) {
        "https://"@ + t.skip("webcal://"@.len() as int)
    } else {
        t
    }
}

/// Accepts only plain http(s): the server fetches this URL, so `file://`,
/// `gopher://` and friends would make it a file-read or SSRF primitive.
/// Returns the URL as the parser serialises it.
pub fn normalise_feed_url(raw: &str) -> (r: Result<String, FeedUrlError>)
    ensures
        match r {
            Ok(u) => url_parsed(rewritten(raw@)) matches Some((sch, text)) && (sch == "http"@
                || sch == "https"@) && u@ == text,
            Err(FeedUrlError::Invalid) => url_parsed(rewritten(raw@)) is None,
            Err(FeedUrlError::UnsupportedScheme(s)) => url_parsed(rewritten(raw@)) matches Some(
                (sch, _),
            ) && sch == s@ && sch != "http"@ && sch != "https"@,
        },
        r matches Ok(u) ==> starts_with(u@, "http:"@) || starts_with(u@, "https:"@),
{
    let chars = to_chars(raw);
    let t = trimmed(&chars);
    let webcal = to_chars("webcal://");
    let mut candidate = String::new();
    if has_prefix(&t, &webcal) {
        push_str(&mut candidate, "https://");
        let rest = slice_range(&t, webcal.len(), t.len());
        push_chars(&mut candidate, &rest);
        proof {
            assert(rest@ =~= t@.skip(webcal@.len() as int));
            assert(candidate@ =~= rewritten(raw@));
        }
    } else {
        push_chars(&mut candidate, &t);
        proof {
            assert(candidate@ =~= rewritten(raw@));
        }
    }
    match parse_url(candidate.as_str()) {
        None => Err(FeedUrlError::Invalid),
        Some((scheme, text)) => {
            let sc = to_chars(scheme.as_str());
            if crate::text::chars_eq(&sc, &to_chars("http")) || crate::text::chars_eq(
                &sc,
                &to_chars("https"),
            ) {
                proof {
                    reveal_strlit("http");
                    reveal_strlit("https");
                    reveal_strlit("http:");
                    reveal_strlit("https:");
                    if scheme@ == "http"@ {
                        assert(text@.take(5) =~= "http:"@);
                    } else {
                        assert(text@.take(6) =~= "https:"@);
                    }
                }
                Ok(text)
            } else {
                Err(FeedUrlError::UnsupportedScheme(scheme))
            }
        },
    }
}

/// How far ahead an imported calendar is read, in days.
pub const SYNC_WINDOW_DAYS: i64 = 30;

/// The busy intervals a fetched feed contributes at `now`: those
/// overlapping the next `SYNC_WINDOW_DAYS` days, all-day blocks excluded -
/// a day-long "Annual leave" should not rule out a 19:00 slot.
pub fn sync_intervals(body: &str, now: i64) -> (r: Result<Vec<BusyInterval>, IcsError>)
    requires
        representable(now as int),
        representable(now + SYNC_WINDOW_DAYS * 86400),
    ensures
        match r {
            Ok(v) => busy_of(body@, now as int, now + SYNC_WINDOW_DAYS * 86400, false) == Ok::<
                Seq<BusyInterval>,
                IcsError,
            >(v@),
            Err(e) => busy_of(body@, now as int, now + SYNC_WINDOW_DAYS * 86400, false) == Err::<
                Seq<BusyInterval>,
                IcsError,
            >(e),
        },
{
    busy_intervals(body, now, now + SYNC_WINDOW_DAYS * 86400, false)
}

} // verus!
