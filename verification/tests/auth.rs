use friends_calendar::api::AppError;
use friends_calendar::auth::{generate_jwt, login_redirect, verify_jwt};
use jsonwebtoken::{encode, EncodingKey, Header};

fn token(sub: &str, exp: u64, secret: &str) -> String {
    let mut claims = serde_json::Map::new();
    claims.insert("sub".to_string(), serde_json::Value::from(sub));
    claims.insert("exp".to_string(), serde_json::Value::from(exp));
    encode(&Header::default(), &claims, &EncodingKey::from_secret(secret.as_bytes())).unwrap()
}

#[test]
fn a_fresh_token_names_its_user() {
    let t = token("me-discord", 2_000_000_000, "secret");
    assert_eq!(
        verify_jwt(&t, "secret", 1_900_000_000),
        Ok(("me-discord".to_string(), 2_000_000_000))
    );
}

#[test]
fn a_token_signed_with_another_secret_is_refused() {
    let t = token("me-discord", 2_000_000_000, "secret");
    assert_eq!(
        verify_jwt(&t, "other", 1_900_000_000),
        Err(AppError::JwtError("InvalidSignature".to_string()))
    );
}

#[test]
fn junk_is_not_a_token() {
    assert!(matches!(verify_jwt("not.a.token", "secret", 1_900_000_000), Err(AppError::JwtError(_))));
}

#[test]
fn a_token_without_an_expiry_is_refused() {
    let mut claims = serde_json::Map::new();
    claims.insert("sub".to_string(), serde_json::Value::from("me-discord"));
    let t = encode(&Header::default(), &claims, &EncodingKey::from_secret(b"secret")).unwrap();
    assert_eq!(
        verify_jwt(&t, "secret", 1_900_000_000),
        Err(AppError::JwtError("Missing required claim: exp".to_string()))
    );
}

#[test]
fn an_expired_token_is_refused_after_a_minute_of_leeway() {
    let t = token("me-discord", 1_000_000, "secret");
    assert_eq!(verify_jwt(&t, "secret", 1_000_060), Ok(("me-discord".to_string(), 1_000_000)));
    assert_eq!(
        verify_jwt(&t, "secret", 1_000_061),
        Err(AppError::JwtError("ExpiredSignature".to_string()))
    );
}

#[test]
fn an_issued_token_is_accepted_for_a_day() {
    let now = 1_900_000_000;
    let t = generate_jwt("me-discord", "secret", now).unwrap();
    assert_eq!(verify_jwt(&t, "secret", now), Ok(("me-discord".to_string(), now + 86_400)));
    assert_eq!(verify_jwt(&t, "secret", now + 86_460), Ok(("me-discord".to_string(), now + 86_400)));
    assert_eq!(
        verify_jwt(&t, "secret", now + 86_461),
        Err(AppError::JwtError("ExpiredSignature".to_string()))
    );
    assert!(verify_jwt(&t, "another secret", now).is_err());
}

#[test]
fn a_sub_that_is_not_a_string_is_refused() {
    let mut claims = serde_json::Map::new();
    claims.insert("sub".to_string(), serde_json::Value::from(42));
    claims.insert("exp".to_string(), serde_json::Value::from(2_000_000_000u64));
    let t = encode(&Header::default(), &claims, &EncodingKey::from_secret(b"secret")).unwrap();
    assert_eq!(
        verify_jwt(&t, "secret", 1_900_000_000),
        Err(AppError::JwtError("InvalidToken".to_string()))
    );
}

#[test]
fn login_sends_the_token_to_the_frontend() {
    assert_eq!(login_redirect("http://localhost:1420", "abc.def.ghi"), "http://localhost:1420?token=abc.def.ghi");
}

fn base64url_decode(s: &str) -> Vec<u8> {
    let mut bits: u32 = 0;
    let mut n = 0;
    let mut out = Vec::new();
    for c in s.bytes() {
        let v = match c {
            b'A'..=b'Z' => c - b'A',
            b'a'..=b'z' => c - b'a' + 26,
            b'0'..=b'9' => c - b'0' + 52,
            b'-' => 62,
            b'_' => 63,
            _ => continue,
        } as u32;
        bits = (bits << 6) | v;
        n += 6;
        if n >= 8 {
            n -= 8;
            out.push((bits >> n) as u8);
            bits &= (1 << n) - 1;
        }
    }
    out
}

#[test]
fn an_issued_token_carries_sub_then_exp() {
    let t = generate_jwt("me-discord", "secret", 1_900_000_000).unwrap();
    let payload = t.split('.').nth(1).unwrap();
    let json = String::from_utf8(base64url_decode(payload)).unwrap();
    assert_eq!(json, r#"{"sub":"me-discord","exp":1900086400}"#);
}
