use rate_guard::auth::Claims;
use rate_guard::rate_limiter::CheckOutput;
use rate_guard::rate_limiter::RateLimiterCheck;
use rate_guard::rate_limiter::RateLimiterError;
use rate_guard::rate_limiter::RecordFields;

fn record_of(out: &CheckOutput) -> RecordFields {
    let w = out.write.as_ref().expect("a limited evaluation writes back");
    RecordFields {
        remaining: Some(w.remaining.clone()),
        expired_at: Some(w.expired_at.clone()),
    }
}

#[test]
fn test_rate_limiter_check_init() {
    let mut requests_by_second: i32 = 30;
    let claims: Option<Claims> = None;
    let addr: Option<&String> = None;
    let redis_prefix = "axum_";

    assert_eq!(
        RateLimiterCheck::init(claims, redis_prefix, requests_by_second, addr),
        RateLimiterCheck {
            error: Some(RateLimiterError::Ip),
            key: None,
            limit: 0
        }
    );

    requests_by_second = -1;
    let claims: Option<Claims> = None;
    let addr: Option<&String> = None;
    assert_eq!(
        RateLimiterCheck::init(claims, redis_prefix, requests_by_second, addr),
        RateLimiterCheck {
            error: None,
            key: None,
            limit: -1
        }
    );

    requests_by_second = 30;
    let user_id = uuid::Uuid::new_v4().to_string();
    let claims = Some(Claims {
        sub: String::from("Subject"),
        exp: 123456789,
        iat: 123456789,
        nbf: 123456789,
        user_id: user_id.clone(),
        user_roles: String::from("ADMIN"),
        user_limit: 25,
    });
    let addr: Option<&String> = None;
    let mut key = user_id.clone();
    key.insert_str(0, redis_prefix);
    assert_eq!(
        RateLimiterCheck::init(claims, redis_prefix, requests_by_second, addr),
        RateLimiterCheck {
            error: None,
            key: Some(key),
            limit: 25
        }
    );

    let claims: Option<Claims> = None;
    let address = String::from("127.0.0.1");
    let mut key = "127.0.0.1".to_owned();
    key.insert_str(0, redis_prefix);
    assert_eq!(
        RateLimiterCheck::init(claims, redis_prefix, requests_by_second, Some(&address)),
        RateLimiterCheck {
            error: None,
            key: Some(key),
            limit: 30
        }
    );
}

#[test]
fn unlimited_never_touches_store() {
    let check = RateLimiterCheck::new(None, None, -1);
    assert!(check.store_key().is_none());
    let out = check.check_and_update(None, 1000, 60).unwrap();
    assert_eq!((out.limit, out.remaining, out.reset), (-1, 0, 0));
    assert!(out.write.is_none());
}

#[test]
fn fresh_key_spends_one_request() {
    let check = RateLimiterCheck::new(None, Some(String::from("rl_a")), 30);
    assert_eq!(check.store_key().map(|k| k.as_str()), Some("rl_a"));
    let out = check.check_and_update(None, 123456789, 25).unwrap();
    assert_eq!((out.limit, out.remaining, out.reset), (30, 29, 25));
    let w = out.write.unwrap();
    assert!(!w.delete_first);
    assert_eq!(w.remaining, b"29".to_vec());
}

#[test]
fn successive_calls_floor_at_minus_one() {
    let check = RateLimiterCheck::new(None, Some(String::from("rl_k")), 3);
    let now: i64 = 1000;
    let mut out = check.check_and_update(None, now, 60).unwrap();
    let mut seen = vec![out.remaining];
    for _ in 0..4 {
        let rec = record_of(&out);
        out = check.check_and_update(Some(&rec), now, 60).unwrap();
        seen.push(out.remaining);
    }
    assert_eq!(seen, vec![2, 1, 0, -1, -1]);
}

#[test]
fn window_reset_behaves_like_fresh_key() {
    let check = RateLimiterCheck::new(None, Some(String::from("rl_k")), 3);
    let now: i64 = 1000;
    let mut out = check.check_and_update(None, now, 60).unwrap();
    for _ in 0..3 {
        let rec = record_of(&out);
        out = check.check_and_update(Some(&rec), now, 60).unwrap();
    }
    assert_eq!(out.remaining, -1);
    let rec = record_of(&out);
    let after = check.check_and_update(Some(&rec), now + 61, 60).unwrap();
    assert_eq!((after.limit, after.remaining, after.reset), (3, 2, 60));
    assert!(after.write.as_ref().unwrap().delete_first);
}

#[test]
fn stored_expiry_round_trips_through_text() {
    let check = RateLimiterCheck::new(None, Some(String::from("rl_k")), 5);
    let out = check.check_and_update(None, 0, 60).unwrap();
    let w = out.write.unwrap();
    assert_eq!(
        String::from_utf8(w.expired_at.clone()).unwrap(),
        "1970-01-01T00:01:00+00:00"
    );
    let rec = RecordFields {
        remaining: Some(b"2".to_vec()),
        expired_at: Some("1970-01-01T00:02:00+00:00".as_bytes().to_vec()),
    };
    let out = check.check_and_update(Some(&rec), 60, 60).unwrap();
    assert_eq!((out.limit, out.remaining, out.reset), (5, 1, 60));
}

#[test]
fn resolution_error_is_returned_first() {
    let check = RateLimiterCheck::new(Some(RateLimiterError::Ip), None, 0);
    assert!(check.store_key().is_none());
    assert_eq!(
        check.check_and_update(None, 1000, 60).unwrap_err(),
        RateLimiterError::Ip
    );
}

#[test]
fn corrupt_records_name_their_defect() {
    let check = RateLimiterCheck::new(None, Some(String::from("rl_k")), 5);
    let missing_expiry = RecordFields {
        remaining: Some(b"3".to_vec()),
        expired_at: None,
    };
    assert_eq!(
        check.check_and_update(Some(&missing_expiry), 1000, 60).unwrap_err(),
        RateLimiterError::Redis
    );
    let bad_expiry = RecordFields {
        remaining: Some(b"3".to_vec()),
        expired_at: Some(b"not a date".to_vec()),
    };
    assert_eq!(
        check.check_and_update(Some(&bad_expiry), 1000, 60).unwrap_err(),
        RateLimiterError::DateTime
    );
    let missing_remaining = RecordFields {
        remaining: None,
        expired_at: Some("1970-01-01T00:20:00+00:00".as_bytes().to_vec()),
    };
    assert_eq!(
        check.check_and_update(Some(&missing_remaining), 60, 60).unwrap_err(),
        RateLimiterError::Redis
    );
    let bad_remaining = RecordFields {
        remaining: Some(b"many".to_vec()),
        expired_at: Some("1970-01-01T00:20:00+00:00".as_bytes().to_vec()),
    };
    assert_eq!(
        check.check_and_update(Some(&bad_remaining), 60, 60).unwrap_err(),
        RateLimiterError::Parse
    );
}

#[test]
fn expired_record_ignores_corrupt_counter() {
    let check = RateLimiterCheck::new(None, Some(String::from("rl_k")), 5);
    let rec = RecordFields {
        remaining: Some(b"many".to_vec()),
        expired_at: Some("1970-01-01T00:00:30+00:00".as_bytes().to_vec()),
    };
    let out = check.check_and_update(Some(&rec), 60, 60).unwrap();
    assert_eq!((out.limit, out.remaining, out.reset), (5, 4, 60));
    assert!(out.write.unwrap().delete_first);
}

#[test]
fn store_counter_text_parses_like_std() {
    assert_eq!(rate_guard::digits::parse_i32_text(b"25"), Some(25));
    assert_eq!(rate_guard::digits::parse_i32_text(b"007"), Some(7));
    assert_eq!(rate_guard::digits::parse_i32_text(b"+7"), Some(7));
    assert_eq!(rate_guard::digits::parse_i32_text(b"-1"), Some(-1));
    assert_eq!(rate_guard::digits::parse_i32_text(b"-2147483648"), Some(-2147483648));
    assert_eq!(rate_guard::digits::parse_i32_text(b"2147483648"), None);
    assert_eq!(rate_guard::digits::parse_i32_text(b""), None);
    assert_eq!(rate_guard::digits::parse_i32_text(b"12a"), None);
}

#[test]
fn window_can_end_at_the_last_supported_second() {
    // Expiries are supported up to the last second of year 9999, the top
    // of the store's date syntax; the written text must still parse back.
    let check = RateLimiterCheck::new(None, Some(String::from("rl_k")), 5);
    let now: i64 = 253_402_300_799 - 60;
    let out = check.check_and_update(None, now, 60).unwrap();
    assert_eq!((out.limit, out.remaining, out.reset), (5, 4, 60));
    let w = out.write.as_ref().unwrap();
    assert_eq!(
        String::from_utf8(w.expired_at.clone()).unwrap(),
        "9999-12-31T23:59:59+00:00"
    );
    let rec = record_of(&out);
    let again = check.check_and_update(Some(&rec), now, 60).unwrap();
    assert_eq!((again.limit, again.remaining, again.reset), (5, 3, 60));
}
