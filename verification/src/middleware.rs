//! Per-request decisions of the two middlewares.
//!
//! The rate-limiting middleware turns the outcome of one evaluation into a
//! response plan: forward the request as it is, forward it and add the
//! quota headers, short-circuit with a "too many requests" answer carrying
//! a retry signal, or answer for a failed evaluation.  The authentication
//! gate decides whether a request carries a bearer token at all.  The
//! surrounding service executes these plans; the decisions are made and
//! proved here.

use crate::auth::bearer_token_of;
use crate::auth::is_header_text;
use crate::auth::Claims;
use crate::rate_limiter::RateLimiterError;
use crate::text::dec_chars;
use crate::text::dec_string;
use vstd::prelude::*;
use vstd::string::StringExecFns;

verus! {

/// JSON error body `{"code":<code>,"message":"<message>"}`.  The message is
/// spliced in verbatim, so callers hand in text free of quotes and
/// backslashes.
pub open spec fn json_error_body(code: int, message: Seq<char>) -> Seq<char> {
    "{\"code\":"@ + dec_chars(code) + ",\"message\":\""@ + message + "\"}"@
}

/// Renders the JSON error body for a status code and message.
pub fn error_body(code: u16, message: &str) -> (r: String)
    ensures
        r@ == json_error_body(code as int, message@),
{
    let mut s: String = "{\"code\":".to_owned();
    let code_s = dec_string(code as i64);
    s.append(code_s.as_str());
    s.append(",\"message\":\"");
    s.append(message);
    s.append("\"}");
    proof {
        assert(s@ =~= json_error_body(code as int, message@));
    }
    s
}

/// How one request is answered, decided from its rate-limit evaluation.
pub enum ResponsePlan {
    /// Unlimited: dispatch downstream and pass the response through.
    Forward,
    /// Allowed: dispatch downstream and add the three quota headers.
    ForwardWithQuota { limit: i32, remaining: i32, reset: i64 },
    /// Denied: never dispatch; answer 429 with a retry signal and this body.
    TooManyRequests { limit: i32, remaining: i32, reset: i64, body: String },
    /// Evaluation failed: never dispatch; answer 500 with this body.
    InternalError { body: String },
}

/// Decides the response plan for one evaluation outcome, as the
/// orchestrator dispatches: unlimited passes through untouched, an allowed
/// request gets the quota headers, a denied one is answered 429 with the
/// standard payload, and an evaluation error is answered 500 with the
/// error's name in the payload.
pub fn respond_plan(check_result: Result<(i32, i32, i64), RateLimiterError>) -> (r: ResponsePlan)
    ensures
        ({
            match check_result {
                Ok(t) => {
                    if t.0 <= -1 {
                        r == ResponsePlan::Forward
                    } else if t.1 >= 0 {
                        r == (ResponsePlan::ForwardWithQuota {
                            limit: t.0,
                            remaining: t.1,
                            reset: t.2,
                        })
                    } else {
                        r matches ResponsePlan::TooManyRequests { limit, remaining, reset, body }
                            && limit == t.0 && remaining == t.1 && reset == t.2 && body@
                            == json_error_body(429, "Too Many Requests"@)
                    }
                },
                Err(e) => r matches ResponsePlan::InternalError { body } && body@
                    == json_error_body(500, e.message_spec()),
            }
        }),
{
    match check_result {
        Ok((limit, remaining, reset)) => {
            if limit <= -1 {
                ResponsePlan::Forward
            } else if remaining >= 0 {
                ResponsePlan::ForwardWithQuota { limit, remaining, reset }
            } else {
                ResponsePlan::TooManyRequests {
                    limit,
                    remaining,
                    reset,
                    body: error_body(429, "Too Many Requests"),
                }
            }
        },
        Err(e) => {
            let msg = e.message();
            ResponsePlan::InternalError { body: error_body(500, msg.as_str()) }
        },
    }
}

/// The headers a response gets for an evaluation outcome: the three quota
/// headers while quota remains, only a retry signal once it is exhausted.
pub fn header_plan(limit: i32, remaining: i32, reset: i64) -> (r: Vec<(String, String)>)
    ensures
        remaining >= 0 ==> ({
            &&& r@.len() == 3
            &&& r@[0].0@ == "x-ratelimit-limit"@ && r@[0].1@ == dec_chars(limit as int)
            &&& r@[1].0@ == "x-ratelimit-remaining"@ && r@[1].1@ == dec_chars(remaining as int)
            &&& r@[2].0@ == "x-ratelimit-reset"@ && r@[2].1@ == dec_chars(reset as int)
        }),
        remaining < 0 ==> ({
            &&& r@.len() == 1
            &&& r@[0].0@ == "retry-after"@ && r@[0].1@ == dec_chars(reset as int)
        }),
{
    let mut v: Vec<(String, String)> = Vec::new();
    if remaining >= 0 {
        v.push(("x-ratelimit-limit".to_owned(), dec_string(limit as i64)));
        v.push(("x-ratelimit-remaining".to_owned(), dec_string(remaining as i64)));
        v.push(("x-ratelimit-reset".to_owned(), dec_string(reset)));
    } else {
        v.push(("retry-after".to_owned(), dec_string(reset)));
    }
    v
}

/// The authentication layer: wraps a next-stage service.
pub struct JwtLayer;

/// The authentication middleware around a next-stage service `S`: a
/// request without a bearer token has its response replaced by an empty
/// 401.
#[derive(Clone)]
pub struct JwtMiddleware<S> {
    pub inner: S,
}

impl JwtLayer {
    /// Wraps the next-stage service.
    pub fn layer<S>(&self, inner: S) -> (r: JwtMiddleware<S>)
        ensures
            r.inner == inner,
    {
        JwtMiddleware { inner }
    }
}

/// Whether a request counts as authorized: exactly when its
/// `Authorization` header is header text carrying a bearer token.  Even a
/// token that fails verification counts; only a missing token is turned
/// away.
pub fn is_authorized(authorization: Option<&Vec<u8>>, key: &[u8], now: i64) -> (r: bool)
    ensures
        r <==> (authorization is Some && is_header_text(authorization.unwrap()@)
            && bearer_token_of(authorization.unwrap()@) is Some),
{
    Claims::extract_from_request(authorization, key, now).is_some()
}

} // verus!
