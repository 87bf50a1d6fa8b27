use rate_guard::auth::Jwt;
use rate_guard::middleware::error_body;
use rate_guard::middleware::header_plan;
use rate_guard::middleware::is_authorized;
use rate_guard::middleware::respond_plan;
use rate_guard::middleware::ResponsePlan;
use rate_guard::rate_limiter::CheckOutput;
use rate_guard::rate_limiter::RateLimiterCheck;
use rate_guard::rate_limiter::RateLimiterError;
use rate_guard::rate_limiter::RecordFields;

#[test]
fn disabled_limiting_forwards_without_quota_headers() {
    // With the feature disabled the orchestrator synthesizes an unlimited
    // outcome without evaluating any identity; the plan forwards the
    // request untouched, whatever the caller was.
    let plan = respond_plan(Ok((-1, 0, 0)));
    assert!(matches!(plan, ResponsePlan::Forward));
}

#[test]
fn missing_address_surfaces_as_internal_error() {
    let check = RateLimiterCheck::init(None, "rl_", 30, None);
    assert_eq!(check.error, Some(RateLimiterError::Ip));
    let result = check
        .check_and_update(None, 1000, 60)
        .map(|o| (o.limit, o.remaining, o.reset));
    let plan = respond_plan(result);
    match plan {
        ResponsePlan::InternalError { body } => {
            assert_eq!(body, "{\"code\":500,\"message\":\"Ip\"}");
        }
        _ => panic!("a missing address must be answered as a server error"),
    }
}

#[test]
fn quota_headers_come_and_go_with_the_quota() {
    let allowed = header_plan(30, 7, 25);
    assert_eq!(allowed.len(), 3);
    assert_eq!(allowed[0], ("x-ratelimit-limit".to_string(), "30".to_string()));
    assert_eq!(allowed[1], ("x-ratelimit-remaining".to_string(), "7".to_string()));
    assert_eq!(allowed[2], ("x-ratelimit-reset".to_string(), "25".to_string()));
    let denied = header_plan(30, -1, 12);
    assert_eq!(denied.len(), 1);
    assert_eq!(denied[0], ("retry-after".to_string(), "12".to_string()));
}

#[test]
fn error_body_is_exact_json() {
    assert_eq!(
        error_body(429, "Too Many Requests"),
        "{\"code\":429,\"message\":\"Too Many Requests\"}"
    );
}

#[test]
fn authorization_asks_only_for_a_bearer_token() {
    let now: i64 = 1_600_000_000;
    let secret = b"door-secret";
    assert!(!is_authorized(None, secret, now));
    let plain = b"token xyz".to_vec();
    assert!(!is_authorized(Some(&plain), secret, now));
    let junk_bearer = b"Bearer junk".to_vec();
    assert!(is_authorized(Some(&junk_bearer), secret, now));
    let (token, _) =
        Jwt::generate(String::from("u9"), 2, String::from("USER"), secret, 1, now).unwrap();
    let good = format!("Bearer {token}").into_bytes();
    assert!(is_authorized(Some(&good), secret, now));
}

fn record_of(out: &CheckOutput) -> RecordFields {
    let w = out.write.as_ref().expect("a limited evaluation writes back");
    RecordFields {
        remaining: Some(w.remaining.clone()),
        expired_at: Some(w.expired_at.clone()),
    }
}

#[test]
fn four_requests_walk_the_whole_window() {
    // prefix "rl_", limit 2, window 60, all from 10.0.0.1.
    let address = String::from("10.0.0.1");
    let check = RateLimiterCheck::init(None, "rl_", 2, Some(&address));
    assert_eq!(check.key.as_deref(), Some("rl_10.0.0.1"));
    let t0: i64 = 1000;

    let first = check.check_and_update(None, t0, 60).unwrap();
    assert_eq!((first.limit, first.remaining, first.reset), (2, 1, 60));
    let plan = respond_plan(Ok((first.limit, first.remaining, first.reset)));
    assert!(matches!(plan, ResponsePlan::ForwardWithQuota { limit: 2, remaining: 1, reset: 60 }));
    assert_eq!(header_plan(first.limit, first.remaining, first.reset).len(), 3);

    let second = check.check_and_update(Some(&record_of(&first)), t0, 60).unwrap();
    assert_eq!((second.limit, second.remaining), (2, 0));

    let third = check.check_and_update(Some(&record_of(&second)), t0, 60).unwrap();
    assert!(third.remaining < 0);
    assert!(third.reset <= 60);
    let plan = respond_plan(Ok((third.limit, third.remaining, third.reset)));
    match plan {
        ResponsePlan::TooManyRequests { reset, body, .. } => {
            assert!(reset <= 60);
            assert_eq!(body, "{\"code\":429,\"message\":\"Too Many Requests\"}");
        }
        _ => panic!("the third request within the window must be denied"),
    }
    let headers = header_plan(third.limit, third.remaining, third.reset);
    assert_eq!(headers.len(), 1);
    assert_eq!(headers[0].0, "retry-after");

    let fourth = check
        .check_and_update(Some(&record_of(&third)), t0 + 61, 60)
        .unwrap();
    assert_eq!((fourth.limit, fourth.remaining, fourth.reset), (2, 1, 60));
}

#[test]
fn email_context_builds_the_reset_link() {
    let ctx = rate_guard::email::EmailContext::new(
        String::from("https://example.test/reset"),
        String::from("tok123"),
    );
    assert_eq!(ctx.link, "https://example.test/reset/tok123");
    assert_eq!(ctx.title, "rate_guard");
}

#[test]
fn decimal_rendering_is_canonical() {
    assert_eq!(rate_guard::text::dec_string(0), "0");
    assert_eq!(rate_guard::text::dec_string(-1), "-1");
    assert_eq!(rate_guard::text::dec_string(9007), "9007");
    assert_eq!(rate_guard::text::dec_string(i64::MIN), "-9223372036854775808");
}
