use rate_guard::auth::Claims;
use rate_guard::auth::Jwt;
use rate_guard::auth::TokenError;
use rate_guard::rate_limiter::RateLimiterCheck;

const SECRET: &[u8] = b"test-signing-secret";

#[test]
fn issue_then_verify_recovers_the_claims() {
    let now: i64 = 1_600_000_000;
    let (token, expires_at) = Jwt::generate(
        String::from("u1"),
        5,
        String::from("ADMIN"),
        SECRET,
        24,
        now,
    )
    .unwrap();
    assert_eq!(expires_at, now + 24 * 3600);
    let claims = Jwt::parse(&token, SECRET, now).unwrap();
    assert_eq!(claims.sub, "u1");
    assert_eq!(claims.user_id, "u1");
    assert_eq!(claims.user_roles, "ADMIN");
    assert_eq!(claims.user_limit, 5);
    assert_eq!(claims.iat, now);
    assert_eq!(claims.nbf, now);
    assert_eq!(claims.exp, expires_at);
}

#[test]
fn mismatched_key_never_verifies() {
    let now: i64 = 1_600_000_000;
    let (token, _) =
        Jwt::generate(String::from("u1"), 5, String::from("ADMIN"), SECRET, 24, now).unwrap();
    assert_eq!(
        Jwt::parse(&token, b"another-secret", now).unwrap_err(),
        TokenError::SignatureInvalid
    );
}

#[test]
fn stale_and_garbled_tokens_are_rejected() {
    let now: i64 = 1_600_000_000;
    let (token, expires_at) =
        Jwt::generate(String::from("u1"), 5, String::from("ADMIN"), SECRET, 24, now).unwrap();
    assert_eq!(
        Jwt::parse(&token, SECRET, expires_at + 1).unwrap_err(),
        TokenError::Expired
    );
    assert_eq!(
        Jwt::parse(&token, SECRET, now - 1).unwrap_err(),
        TokenError::Expired
    );
    assert_eq!(
        Jwt::parse("not a token", SECRET, now).unwrap_err(),
        TokenError::Malformed
    );
    let mut tampered = token.clone().into_bytes();
    let last = tampered.len() - 1;
    tampered[last] = if tampered[last] == b'A' { b'B' } else { b'A' };
    assert_eq!(
        Jwt::parse(&String::from_utf8(tampered).unwrap(), SECRET, now).unwrap_err(),
        TokenError::SignatureInvalid
    );
}

#[test]
fn token_payload_is_really_base64url() {
    let now: i64 = 1_600_000_000;
    let (token, _) =
        Jwt::generate(String::from("a/b:c"), 1, String::from("r/w"), SECRET, 1, now).unwrap();
    let after_dot = token.split_once('.').unwrap().1;
    assert!(!after_dot.contains('/'));
    assert!(!after_dot.contains(':'));
    assert!(!after_dot.is_empty());
}

#[test]
fn verified_token_resolves_to_its_own_limit() {
    let now: i64 = 1_600_000_000;
    let (token, _) =
        Jwt::generate(String::from("u1"), 5, String::from("ADMIN"), SECRET, 24, now).unwrap();
    let header = format!("Bearer {token}").into_bytes();
    let claims = Claims::extract_from_request(Some(&header), SECRET, now)
        .unwrap()
        .unwrap();
    assert_eq!(claims.user_id, "u1");
    assert_eq!(claims.user_limit, 5);

    let address = String::from("10.0.0.1");
    let check = RateLimiterCheck::init(Some(claims), "rl_", 30, Some(&address));
    assert_eq!(check.error, None);
    assert_eq!(check.key.as_deref(), Some("rl_u1"));
    assert_eq!(check.limit, 5);
}

#[test]
fn bearer_extraction_follows_the_header() {
    let now: i64 = 1_600_000_000;
    assert!(Claims::extract_from_request(None, SECRET, now).is_none());
    let no_bearer = b"Basic dXNlcjpwdw==".to_vec();
    assert!(Claims::extract_from_request(Some(&no_bearer), SECRET, now).is_none());
    let not_text = vec![b'B', 0x01, b'x'];
    assert!(Claims::extract_from_request(Some(&not_text), SECRET, now).is_none());
    let empty_token = b"Bearer   ".to_vec();
    let r = Claims::extract_from_request(Some(&empty_token), SECRET, now).unwrap();
    assert_eq!(r.unwrap_err(), TokenError::Malformed);
}

#[test]
fn bearer_token_is_the_piece_between_markers() {
    let now: i64 = 1_600_000_000;
    let (token, _) =
        Jwt::generate(String::from("u2"), 4, String::from("USER"), SECRET, 24, now).unwrap();
    let padded = format!("Bearer   {token}   ").into_bytes();
    let claims = Claims::extract_from_request(Some(&padded), SECRET, now)
        .unwrap()
        .unwrap();
    assert_eq!(claims.user_id, "u2");
    let doubled = format!("Bearer {token} Bearer junk").into_bytes();
    let claims = Claims::extract_from_request(Some(&doubled), SECRET, now)
        .unwrap()
        .unwrap();
    assert_eq!(claims.user_id, "u2");
}
