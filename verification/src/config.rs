//! What the server makes of its environment: which values count as set,
//! and the defaults that stand in for the rest.

use vstd::prelude::*;
use crate::ics::property::strip_trail;
use crate::text::{parse_int, parse_u64, push_chars, push_str, slice_range, to_chars, trim};

verus! {

fn owned(s: &str) -> (r: String)
    ensures
        r@ == s@,
{
    let mut r = String::new();
    push_str(&mut r, s);
    proof {
        assert(r@ =~= s@);
    }
    r
}

fn is_blank(s: &str) -> (b: bool)
    ensures
        b == (trim(s@).len() == 0),
{
    let c = to_chars(s);
    crate::text::trimmed(&c).len() == 0
}

/// A required setting: present and not blank (white space alone counts as
/// missing), else `None` - which stops the server at startup.
pub fn required_value(raw: Option<&str>) -> (r: Option<String>)
    ensures
        match raw {
            Some(v) => if trim(v@).len() > 0 {
                r matches Some(x) && x@ == v@
            } else {
                r is None
            },
            None => r is None,
        },
{
    match raw {
        Some(v) => {
            if is_blank(v) {
                None
            } else {
                Some(owned(v))
            }
        },
        None => None,
    }
}

/// An optional setting: present and not empty.
pub fn optional_value(raw: Option<&str>) -> (r: Option<String>)
    ensures
        match raw {
            Some(v) => if v@.len() > 0 {
                r matches Some(x) && x@ == v@
            } else {
                r is None
            },
            None => r is None,
        },
{
    match raw {
        Some(v) => {
            if v.is_empty() {
                None
            } else {
                Some(owned(v))
            }
        },
        None => None,
    }
}

/// The API's public origin: the configured one unless blank, else the
/// local default.
pub fn public_api_url(raw: Option<&str>) -> (r: String)
    ensures
        match raw {
            Some(v) => if trim(v@).len() > 0 {
                r@ == v@
            } else {
                r@ == "http://localhost:8080"@
            },
            None => r@ == "http://localhost:8080"@,
        },
{
    match required_value(raw) {
        Some(v) => v,
        None => owned("http://localhost:8080"),
    }
}

/// The frontend's origin: as configured, else the development origin.
pub fn frontend_url(raw: Option<&str>) -> (r: String)
    ensures
        match raw {
            Some(v) => r@ == v@,
            None => r@ == "http://localhost:1420"@,
        },
{
    match raw {
        Some(v) => owned(v),
        None => owned("http://localhost:1420"),
    }
}

/// Where Discord sends the user back after login: the public API origin
/// without trailing slashes, then `/api/auth/callback`.
pub fn oauth_redirect_url(public_api_url: &str) -> (r: String)
    ensures
        r@ == strip_trail(public_api_url@, '/') + "/api/auth/callback"@,
{
    let c = to_chars(public_api_url);
    let mut hi = c.len();
    assert(c@.subrange(0, c@.len() as int) =~= c@);
    while hi > 0 && c[hi - 1] == '/'
        invariant
            hi <= c@.len(),
            c@ == public_api_url@,
            strip_trail(public_api_url@, '/') == strip_trail(c@.subrange(0, hi as int), '/'),
        decreases hi,
    {
        assert(c@.subrange(0, hi as int).drop_last() =~= c@.subrange(0, hi - 1));
        hi = hi - 1;
    }
    let kept = slice_range(&c, 0, hi);
    let mut r = String::new();
    push_chars(&mut r, &kept);
    push_str(&mut r, "/api/auth/callback");
    proof {
        assert(r@ =~= strip_trail(public_api_url@, '/') + "/api/auth/callback"@);
    }
    r
}

/// The deployment-wide announcement channel: set, not empty, and a valid
/// channel id; anything else is ignored.
pub fn announcement_channel_id(raw: Option<&str>) -> (r: Option<u64>)
    ensures
        r == match raw {
            Some(v) => if v@.len() > 0 {
                match parse_int(v@, 0, u64::MAX as int) {
                    Some(n) => Some(n as u64),
                    None => None,
                }
            } else {
                None
            },
            None => None,
        },
{
    match raw {
        Some(v) => {
            if v.is_empty() {
                None
            } else {
                parse_u64(&to_chars(v))
            }
        },
        None => None,
    }
}

/// Discord's API address: as configured unless empty, else the public
/// v10 API.
pub fn discord_api_base(raw: Option<&str>) -> (r: String)
    ensures
        match raw {
            Some(v) => if v@.len() > 0 {
                r@ == v@
            } else {
                r@ == "https://discord.com/api/v10"@
            },
            None => r@ == "https://discord.com/api/v10"@,
        },
{
    match optional_value(raw) {
        Some(v) => v,
        None => owned("https://discord.com/api/v10"),
    }
}

} // verus!
