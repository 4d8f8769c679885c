//! Session tokens: HS256 JSON Web Tokens whose subject is the Discord id
//! and whose `exp` is a Unix time in seconds.

use vstd::prelude::*;
use crate::api::AppError;
use crate::text::push_str;

verus! {

/// The subject and expiry a token carries when its HS256 signature checks
/// under `secret` and its payload has a string `sub` and an unsigned
/// integer `exp`, as `jsonwebtoken::decode` reads it with the expiry check
/// left out; `None` for any other token.
pub uninterp spec fn jwt_claims(token: Seq<char>, secret: Seq<char>) -> Option<(Seq<char>, int)>;

/// `jsonwebtoken::decode` with the default validation (HS256, `exp`
/// required) but the expiry check switched off, into a JSON map whose
/// `sub` and `exp` are read. `Err` carries the crate's own message where
/// decoding fails; `Ok(None)` is a token that decodes but whose `sub` is
/// not a string or whose `exp` is not an unsigned integer. The contract
/// claims the named result; the text of the crate's messages is not
/// stated.
#[verifier::external_body]
fn decode_claims(token: &str, secret: &str) -> (r: Result<Option<(String, u64)>, String>)
    ensures
        r matches Ok(Some((s, e))) ==> jwt_claims(token@, secret@) == Some((s@, e as int)),
        !(r matches Ok(Some(_))) ==> jwt_claims(token@, secret@) is None,
{
    let mut validation = jsonwebtoken::Validation::default();
    validation.validate_exp = false;
    let key = jsonwebtoken::DecodingKey::from_secret(secret.as_bytes());
    let data = jsonwebtoken::decode::<serde_json::Map<String, serde_json::Value>>(token, &key, &validation)
        .map_err(|e| e.to_string())?;
    let sub = data.claims.get("sub").and_then(|v| v.as_str()).map(|s| s.to_string());
    let exp = data.claims.get("exp").and_then(|v| v.as_u64());
    Ok(sub.zip(exp))
}

/// The token `jsonwebtoken::encode` writes, with the default header
/// (HS256) and the key `secret`, for the claims object `{"sub": sub,
/// "exp": exp}`.
pub uninterp spec fn jwt_encoded(sub: Seq<char>, exp: int, secret: Seq<char>) -> Seq<char>;

/// `jsonwebtoken::encode(&Header::default(), claims, &EncodingKey::from_secret(secret))`
/// for the claims `{"sub": sub, "exp": exp}` (a JSON map, which keeps its
/// keys in insertion order). The contract claims the named token. It
/// always comes back: the default header is HS256, a key made by
/// `from_secret` is an HMAC key, so the algorithm check passes, serialising
/// the header and a JSON map cannot fail, and HMAC signing returns its
/// signature unconditionally.
#[verifier::external_body]
fn encode_claims(sub: &str, exp: u64, secret: &str) -> (t: String)
    ensures
        t@ == jwt_encoded(sub@, exp as int, secret@),
{
    let mut claims = serde_json::Map::new();
    claims.insert("sub".to_string(), serde_json::Value::from(sub));
    claims.insert("exp".to_string(), serde_json::Value::from(exp));
    let key = jsonwebtoken::EncodingKey::from_secret(secret.as_bytes());
    jsonwebtoken::encode(&jsonwebtoken::Header::default(), &claims, &key)
        .expect("HS256 with an HMAC key always encodes")
}

/// How long a session token is valid, in seconds.
pub const SESSION_SECS: u64 = 86400;

/// The session token issued at `now` to the user `discord_id`: it expires
/// a day later.
pub fn generate_jwt(discord_id: &str, secret: &str, now: u64) -> (r: Result<String, AppError>)
    requires
        now + SESSION_SECS <= u64::MAX,
    ensures
        r matches Ok(t) && t@ == jwt_encoded(discord_id@, now + SESSION_SECS, secret@),
{
    Ok(encode_claims(discord_id, now + SESSION_SECS, secret))
}

/// Where the login callback sends the browser: the frontend, with the
/// session token in the query.
pub fn login_redirect(frontend_url: &str, token: &str) -> (r: String)
    ensures
        r@ == frontend_url@ + "?token="@ + token@,
{
    let mut r = String::new();
    push_str(&mut r, frontend_url);
    push_str(&mut r, "?token=");
    push_str(&mut r, token);
    proof {
        assert(r@ =~= frontend_url@ + "?token="@ + token@);
    }
    r
}

/// How long a token stays valid past its `exp`, in seconds (the default
/// leeway of `jsonwebtoken::Validation`).
pub const LEEWAY_SECS: u64 = 60;

pub open spec fn expired_token_text() -> Seq<char> {
    "ExpiredSignature"@
}

/// The identity a bearer token proves at `now`: its subject and expiry,
/// where the signature checks and the token has not expired (an `exp`
/// up to a minute in the past is still accepted). A token that does not
/// decode is refused with the decoder's own message; one without a string
/// `sub` and an unsigned `exp` with `InvalidToken`.
pub fn verify_jwt(token: &str, secret: &str, now: u64) -> (r: Result<(String, u64), AppError>)
    requires
        now >= LEEWAY_SECS,
    ensures
        match jwt_claims(token@, secret@) {
            Some((s, e)) => if e + LEEWAY_SECS >= now {
                r matches Ok((rs, re)) && rs@ == s && re == e
            } else {
                r matches Err(AppError::JwtError(m)) && m@ == expired_token_text()
            },
            None => r matches Err(AppError::JwtError(_)),
        },
{
    match decode_claims(token, secret) {
        Ok(Some((sub, exp))) => {
            if exp < now - LEEWAY_SECS {
                let mut m = String::new();
                push_str(&mut m, "ExpiredSignature");
                assert(m@ =~= expired_token_text());
                Err(AppError::JwtError(m))
            } else {
                Ok((sub, exp))
            }
        },
        Ok(None) => {
            let mut m = String::new();
            push_str(&mut m, "InvalidToken");
            Err(AppError::JwtError(m))
        },
        Err(m) => Err(AppError::JwtError(m)),
    }
}

} // verus!
