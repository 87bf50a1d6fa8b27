//! Identity resolution and the counter-store check-and-update protocol.
//!
//! A [`RateLimiterCheck`] is resolved from a request's claims and address,
//! and then evaluated against the caller's counter record with
//! [`RateLimiterCheck::check_and_update`].  The store itself is external:
//! the caller fetches the record named by [`RateLimiterCheck::store_key`],
//! hands it in, and afterwards applies the returned [`StoreWrite`].
//! Fixed-window counting: a record carries the remaining quota and an
//! absolute expiry; once the expiry has passed the record is deleted and
//! the window restarts.

use crate::auth::Claims;
use crate::digits::dec_bytes;
use crate::digits::dec_digits;
use crate::digits::dec_i64;
use crate::digits::i32_from_text;
use crate::digits::parse_i32_text;
use vstd::prelude::*;
use vstd::string::StringExecFns;

verus! {

/// Everything that can go wrong while evaluating a request's quota.
#[derive(Debug, Clone, Copy, PartialEq, Eq, Structural)]
pub enum RateLimiterError {
    /// Anonymous request without a network address while limiting is active.
    Ip,
    /// The store record is missing a field, or the store itself failed.
    Redis,
    /// The stored expiry does not parse as an RFC 3339 date.
    DateTime,
    /// The stored counter does not parse as an integer.
    Parse,
}

impl RateLimiterError {
    /// Short name of the error, as it appears in an error response body.
    pub open spec fn message_spec(&self) -> Seq<char> {
        match self {
            RateLimiterError::Ip => "Ip"@,
            RateLimiterError::Redis => "Redis"@,
            RateLimiterError::DateTime => "DateTime"@,
            RateLimiterError::Parse => "Parse"@,
        }
    }

    /// Short name of the error, for an error response body.
    pub fn message(&self) -> (r: String)
        ensures
            r@ == self.message_spec(),
    {
        match self {
            RateLimiterError::Ip => "Ip".to_owned(),
            RateLimiterError::Redis => "Redis".to_owned(),
            RateLimiterError::DateTime => "DateTime".to_owned(),
            RateLimiterError::Parse => "Parse".to_owned(),
        }
    }
}

/// Raw fields of a counter record as fetched from the store, both kept as
/// the byte strings the store returned.  An absent record is `None` at the
/// caller, not an empty `RecordFields`.
#[derive(Debug)]
pub struct RecordFields {
    /// Value of the `remaining` field, when present.
    pub remaining: Option<Vec<u8>>,
    /// Value of the `expiredAt` field, when present.
    pub expired_at: Option<Vec<u8>>,
}

/// The write-back that concludes a successful evaluation: optionally delete
/// the stale record first, then set both fields to the given byte strings.
#[derive(Debug)]
pub struct StoreWrite {
    /// Delete the record before writing (the stored window had expired).
    pub delete_first: bool,
    /// New value of the `remaining` field.
    pub remaining: Vec<u8>,
    /// New value of the `expiredAt` field.
    pub expired_at: Vec<u8>,
}

/// Outcome of one evaluation: the identity's ceiling, the quota left after
/// this request, seconds until the window resets, and the write to apply.
/// `write` is `None` exactly when the identity is unlimited, in which case
/// the store is never touched.
#[derive(Debug)]
pub struct CheckOutput {
    /// The configured ceiling (`-1`: unlimited).
    pub limit: i32,
    /// Quota left after this request; negative means the request is denied.
    pub remaining: i32,
    /// Seconds until the current window resets.
    pub reset: i64,
    /// The write to apply to the store, when the identity is limited.
    pub write: Option<StoreWrite>,
}

/// What chrono's RFC 3339 parser yields on these bytes, as whole epoch
/// seconds, or nothing when they do not parse.
pub uninterp spec fn rfc3339_secs(s: Seq<u8>) -> Option<i64>;

/// Relies on `chrono::DateTime::parse_from_rfc3339`: the result is a
/// function of the input text alone, and any parsed instant lies within
/// chrono's representable range of about 262,000 years around the epoch,
/// so its timestamp is far below 9e12 in magnitude.
#[verifier::external_body]
fn parse_rfc3339(b: &[u8]) -> (r: Option<i64>)
    ensures
        r == rfc3339_secs(b@),
        r is Some ==> -9000000000000 <= r.unwrap() <= 9000000000000,
{
    match core::str::from_utf8(b) {
        Ok(s) => chrono::DateTime::parse_from_rfc3339(s).ok().map(|dt| dt.timestamp()),
        Err(_) => None,
    }
}

/// Relies on `chrono::DateTime::from_timestamp` and `to_rfc3339`.  The
/// round trip holds only up to the end of year 9999: the writer prints a
/// year outside 0000-9999 with a sign and five or more digits, while
/// `parse_from_rfc3339` reads exactly four year digits and rejects such
/// text, so the claim is bounded by the last second of year 9999.  Within
/// that range formatting always succeeds and the text parses back to the
/// same instant.
#[verifier::external_body]
fn format_rfc3339(ts: i64) -> (r: Option<Vec<u8>>)
    requires
        0 <= ts <= 253402300799,
    ensures
        r is Some,
        r is Some ==> rfc3339_secs(r.unwrap()@) == Some(ts),
{
    chrono::DateTime::<chrono::Utc>::from_timestamp(ts, 0).map(|dt| dt.to_rfc3339().into_bytes())
}

/// A resolved identity, ready to be evaluated: either an error met during
/// resolution, or the store key naming the caller's counter record together
/// with the caller's configured limit.
#[derive(Debug)]
pub struct RateLimiterCheck {
    /// Error met while resolving the identity, if any.
    pub error: Option<RateLimiterError>,
    /// Store key of the caller's counter record, when one is needed.
    pub key: Option<String>,
    /// The caller's request ceiling per window (`-1`: unlimited).
    pub limit: i32,
}

impl PartialEq for RateLimiterCheck {
    fn eq(&self, other: &Self) -> (r: bool) {
        let errors_eq = match (self.error, other.error) {
            (None, None) => true,
            (Some(a), Some(b)) => match (a, b) {
                (RateLimiterError::Ip, RateLimiterError::Ip) => true,
                (RateLimiterError::Redis, RateLimiterError::Redis) => true,
                (RateLimiterError::DateTime, RateLimiterError::DateTime) => true,
                (RateLimiterError::Parse, RateLimiterError::Parse) => true,
                _ => false,
            },
            _ => false,
        };
        let keys_eq = match (&self.key, &other.key) {
            (None, None) => true,
            (Some(a), Some(b)) => *a == *b,
            _ => false,
        };
        errors_eq && keys_eq && self.limit == other.limit
    }
}

impl vstd::std_specs::cmp::PartialEqSpecImpl for RateLimiterCheck {
    open spec fn obeys_eq_spec() -> bool {
        true
    }

    open spec fn eq_spec(&self, other: &Self) -> bool {
        &&& self.error == other.error
        &&& match (self.key, other.key) {
            (Option::None, Option::None) => true,
            (Option::Some(a), Option::Some(b)) => a@ == b@,
            _ => false,
        }
        &&& self.limit == other.limit
    }
}

impl Default for RateLimiterCheck {
    /// The unlimited check: no error, no key, limit `-1`.
    fn default() -> (r: Self)
        ensures
            r.error is None,
            r.key is None,
            r.limit == -1,
    {
        Self { error: None, key: None, limit: -1 }
    }
}

impl RateLimiterCheck {
    /// Plain constructor.
    pub fn new(error: Option<RateLimiterError>, key: Option<String>, limit: i32) -> (r: Self)
        ensures
            r.error == error,
            r.key == key,
            r.limit == limit,
    {
        Self { error, key, limit }
    }

    /// Resolves a caller's identity into a check.
    ///
    /// A verified claim set always wins and carries its own limit; otherwise
    /// an anonymous caller is keyed by network address under the configured
    /// default limit; a default of `-1` disables limiting without needing an
    /// address; an anonymous caller without an address while limiting is
    /// active is an error.
    pub fn init(
        claims: Option<Claims>,
        redis_prefix: &str,
        requests_by_second: i32,
        addr: Option<&String>,
    ) -> (r: Self)
        ensures
            claims is Some ==> {
                &&& r.error is None
                &&& r.key is Some
                &&& r.key.unwrap()@ == redis_prefix@ + claims.unwrap().user_id@
                &&& r.limit == claims.unwrap().user_limit
            },
            claims is None && requests_by_second == -1 ==> {
                &&& r.error is None
                &&& r.key is None
                &&& r.limit == -1
            },
            claims is None && requests_by_second != -1 && addr is None ==> {
                &&& r.error == Some(RateLimiterError::Ip)
                &&& r.key is None
                &&& r.limit == 0
            },
            claims is None && requests_by_second != -1 && addr is Some ==> {
                &&& r.error is None
                &&& r.key is Some
                &&& r.key.unwrap()@ == redis_prefix@ + addr.unwrap()@
                &&& r.limit == requests_by_second
            },
    {
        match claims {
            None => {
                let default_limit = requests_by_second;
                if default_limit == -1 {
                    Self::default()
                } else {
                    match addr {
                        None => Self::new(Some(RateLimiterError::Ip), None, 0),
                        Some(remote_address) => {
                            let mut key: String = redis_prefix.to_owned();
                            key.append(remote_address.as_str());
                            Self::new(None, Some(key), default_limit)
                        },
                    }
                }
            },
            Some(claims) => {
                let mut key: String = redis_prefix.to_owned();
                key.append(claims.user_id.as_str());
                Self::new(None, Some(key), claims.user_limit)
            },
        }
    }

    /// A check is well formed when a key is present whenever the store will
    /// be consulted.  Checks built by [`RateLimiterCheck::init`] always are.
    pub open spec fn wf(&self) -> bool {
        self.error is None && self.limit != -1 ==> self.key is Some
    }

    /// The store key that evaluation will consult, or `None` when the store
    /// is never touched (a resolution error, or an unlimited identity).
    pub fn store_key(&self) -> (r: Option<&String>)
        requires
            self.wf(),
        ensures
            r is Some <==> (self.error is None && self.limit != -1),
            r is Some ==> r.unwrap()@ == self.key.unwrap()@,
    {
        if self.error.is_none() && self.limit != -1 {
            match &self.key {
                Some(k) => Some(k),
                None => {
                    proof {
                        assert(false);
                    }
                    None
                },
            }
        } else {
            None
        }
    }

    /// Checks the limit against the caller's counter record and computes the
    /// write that advances the window, following the fixed-window protocol:
    /// a missing record starts a fresh window with one request spent; an
    /// expired record is deleted and the window restarts; a live record is
    /// decremented while its counter is non-negative and held at its floor
    /// otherwise, so a negative counter keeps signalling "blocked" until the
    /// window resets.
    pub fn check_and_update(
        &self,
        record: Option<&RecordFields>,
        now: i64,
        expire_in_seconds: i32,
    ) -> (r: Result<CheckOutput, RateLimiterError>)
        requires
            0 <= now,
            0 <= expire_in_seconds,
            now + expire_in_seconds <= 253402300799,
            self.limit > i32::MIN,
        ensures
            self.error is Some ==> r == Err::<CheckOutput, RateLimiterError>(self.error.unwrap()),
            self.error is None && self.limit == -1 ==> r is Ok && {
                &&& r.unwrap().limit == -1
                &&& r.unwrap().remaining == 0
                &&& r.unwrap().reset == 0
                &&& r.unwrap().write is None
            },
            self.error is None && self.limit != -1 ==> match record {
                None => r is Ok && fresh_window_outcome(
                    r.unwrap(),
                    self.limit,
                    now,
                    expire_in_seconds,
                    false,
                ),
                Some(f) => match f.expired_at {
                    None => r == Err::<CheckOutput, RateLimiterError>(RateLimiterError::Redis),
                    Some(ea) => match rfc3339_secs(ea@) {
                        None => r == Err::<CheckOutput, RateLimiterError>(
                            RateLimiterError::DateTime,
                        ),
                        Some(ts) => if ts - now <= 0 {
                            r is Ok && fresh_window_outcome(
                                r.unwrap(),
                                self.limit,
                                now,
                                expire_in_seconds,
                                true,
                            )
                        } else {
                            match f.remaining {
                                None => r == Err::<CheckOutput, RateLimiterError>(
                                    RateLimiterError::Redis,
                                ),
                                Some(rb) => match i32_from_text(rb@) {
                                    None => r == Err::<CheckOutput, RateLimiterError>(
                                        RateLimiterError::Parse,
                                    ),
                                    Some(r0) => r is Ok && live_window_outcome(
                                        r.unwrap(),
                                        self.limit,
                                        r0,
                                        ts - now,
                                        ea@,
                                    ),
                                },
                            }
                        },
                    },
                },
            },
    {
        if let Some(err) = self.error {
            return Err(err);
        }
        if self.limit == -1 {
            return Ok(CheckOutput { limit: self.limit, remaining: 0, reset: 0, write: None });
        }
        let mut remaining: i32 = self.limit - 1;
        let mut reset: i64 = expire_in_seconds as i64;
        let mut delete_first = false;
        let mut echoed_expiry: Option<&Vec<u8>> = None;
        match record {
            None => {},
            Some(f) => {
                let ea = match &f.expired_at {
                    None => {
                        return Err(RateLimiterError::Redis);
                    },
                    Some(ea) => ea,
                };
                let ts = match parse_rfc3339(ea.as_slice()) {
                    None => {
                        return Err(RateLimiterError::DateTime);
                    },
                    Some(ts) => ts,
                };
                let reset0: i64 = ts - now;
                if reset0 <= 0 {
                    delete_first = true;
                } else {
                    reset = reset0;
                    echoed_expiry = Some(ea);
                    let rb = match &f.remaining {
                        None => {
                            return Err(RateLimiterError::Redis);
                        },
                        Some(rb) => rb,
                    };
                    let r0 = match parse_i32_text(rb.as_slice()) {
                        None => {
                            return Err(RateLimiterError::Parse);
                        },
                        Some(r0) => r0,
                    };
                    remaining = if r0 >= 0 {
                        r0 - 1
                    } else {
                        r0
                    };
                }
            },
        }
        let remaining_bytes = dec_i64(remaining as i64);
        let expiry_bytes: Vec<u8> = match echoed_expiry {
            Some(ea) => ea.clone(),
            None => match format_rfc3339(now + (expire_in_seconds as i64)) {
                Some(v) => v,
                None => {
                    proof {
                        assert(false);
                    }
                    return Err(RateLimiterError::DateTime);
                },
            },
        };
        Ok(
            CheckOutput {
                limit: self.limit,
                remaining,
                reset,
                write: Some(
                    StoreWrite { delete_first, remaining: remaining_bytes, expired_at: expiry_bytes },
                ),
            },
        )
    }
}

/// The outcome of starting a fresh window: one request spent out of `limit`,
/// the full window ahead, and a write that stores exactly that; the stale
/// record is deleted first when one had expired.
pub open spec fn fresh_window_outcome(
    out: CheckOutput,
    limit: i32,
    now: i64,
    expire_in_seconds: i32,
    deleted: bool,
) -> bool {
    &&& out.limit == limit
    &&& out.remaining == limit - 1
    &&& out.reset == expire_in_seconds
    &&& out.write is Some
    &&& out.write.unwrap().delete_first == deleted
    &&& out.write.unwrap().remaining@ == dec_bytes(limit - 1)
    &&& rfc3339_secs(out.write.unwrap().expired_at@) == Some((now + expire_in_seconds) as i64)
}

/// One step of the counter: decremented while non-negative, held at its
/// floor otherwise.
pub open spec fn step_remaining(r0: int) -> int {
    if r0 >= 0 {
        r0 - 1
    } else {
        r0
    }
}

/// The outcome within a live window: the stored counter `r0` advances by
/// one [`step_remaining`] step, the reset is the time left on the stored
/// expiry, and the write carries the new counter while echoing the stored
/// expiry bytes unchanged.
pub open spec fn live_window_outcome(
    out: CheckOutput,
    limit: i32,
    r0: i32,
    reset: int,
    stored_expiry: Seq<u8>,
) -> bool {
    &&& out.limit == limit
    &&& out.remaining == step_remaining(r0 as int)
    &&& out.reset == reset
    &&& out.write is Some
    &&& !out.write.unwrap().delete_first
    &&& out.write.unwrap().remaining@ == dec_bytes(out.remaining as int)
    &&& out.write.unwrap().expired_at@ == stored_expiry
}

/// The remaining quota that the `k`-th check in one uninterrupted window
/// reports, starting from a fresh key with ceiling `limit`: the first call
/// spends one request, and each further call decrements the stored counter
/// while it is non-negative and holds it at its floor otherwise.
pub open spec fn remaining_after(limit: int, k: nat) -> int
    decreases k,
{
    if k <= 1 {
        limit - 1
    } else {
        step_remaining(remaining_after(limit, (k - 1) as nat))
    }
}

/// Law of successive calls: `limit` calls on the same key in immediate
/// succession within one window yield remaining values `limit-1, limit-2,
/// …, 0, -1, -1, …` — the `k`-th call reports `limit - k`, floored at `-1`
/// and never below it.  [`RateLimiterCheck::check_and_update`] promises
/// [`fresh_window_outcome`] for the first call and one [`step_remaining`]
/// step per later call ([`live_window_outcome`]), and
/// [`lemma_store_remaining_round_trip`] carries each written counter intact
/// to the next call, so the `k`-th outcome is [`remaining_after`].
pub proof fn lemma_successive_calls(limit: int, k: nat)
    requires
        limit >= 0,
        k >= 1,
    ensures
        remaining_after(limit, k) == if limit - k >= -1 {
            limit - k
        } else {
            -1
        },
    decreases k,
{
    if k > 1 {
        lemma_successive_calls(limit, (k - 1) as nat);
    }
}

/// Glue between a write and the next read: the counter bytes that a write
/// stores parse back to the written value, so the next call in the window
/// sees exactly the counter the previous call left.
pub proof fn lemma_store_remaining_round_trip(v: i32)
    ensures
        i32_from_text(dec_bytes(v as int)) == Some(v),
{
    let b = dec_bytes(v as int);
    if v >= 0 {
        crate::digits::lemma_dec_digits_shape(v as nat);
        assert(b[0] != 43 && b[0] != 45);
        assert(crate::digits::int_text_shape(b));
        assert(crate::digits::int_text_val(b) == v);
    } else {
        crate::digits::lemma_dec_digits_shape((-(v as int)) as nat);
        assert(b[0] == 45);
        assert(b.subrange(1, b.len() as int) =~= dec_digits((-(v as int)) as nat));
        assert(crate::digits::int_text_shape(b));
        assert(crate::digits::int_text_val(b) == v);
    }
}

} // verus!
