//! Identity tokens: the claim set carried by a signed bearer token, and
//! the codec that issues and verifies such tokens.
//!
//! A token is `signature ++ "." ++ base64url(payload)`: the payload lays the
//! claim fields out with fixed-width decimal numbers and length-prefixed
//! strings, and the signature is an HMAC-SHA512 over the encoded payload.
//! The framing and the payload codec are verified here; the MAC and the
//! base64 alphabet come from outside crates through trusted wrappers.

use base64::Engine;
use vstd::prelude::*;
use vstd::utf8::encode_utf8;

use crate::digits::digits_val;
use crate::digits::is_digit_seq;
use crate::digits::pow10;
use crate::text::bytes_to_string;

verus! {

/// Decoded payload of a verified identity token.
///
/// A value of this type only ever comes out of [`Jwt::parse`] after the
/// signature and the time window have been checked, or is built by a caller
/// that wants a token issued.
#[derive(Debug, Clone)]
pub struct Claims {
    pub sub: String,
    pub exp: i64,
    pub iat: i64,
    pub nbf: i64,
    pub user_id: String,
    pub user_roles: String,
    /// Max number of requests per window for this user (`-1`: unlimited).
    pub user_limit: i32,
}

/// The mathematical content of a claim set.
pub ghost struct ClaimsView {
    pub sub: Seq<char>,
    pub exp: int,
    pub iat: int,
    pub nbf: int,
    pub user_id: Seq<char>,
    pub user_roles: Seq<char>,
    pub user_limit: int,
}

impl ClaimsView {
    /// The ranges every `Claims` value satisfies by its field types, plus
    /// the string-length bound the payload layout can carry.
    pub open spec fn wf(&self) -> bool {
        &&& i64::MIN <= self.exp <= i64::MAX
        &&& i64::MIN <= self.iat <= i64::MAX
        &&& i64::MIN <= self.nbf <= i64::MAX
        &&& i32::MIN <= self.user_limit <= i32::MAX
        &&& encode_utf8(self.sub).len() < 10000000000
        &&& encode_utf8(self.user_id).len() < 10000000000
        &&& encode_utf8(self.user_roles).len() < 10000000000
    }
}

impl View for Claims {
    type V = ClaimsView;

    open spec fn view(&self) -> ClaimsView {
        ClaimsView {
            sub: self.sub@,
            exp: self.exp as int,
            iat: self.iat as int,
            nbf: self.nbf as int,
            user_id: self.user_id@,
            user_roles: self.user_roles@,
            user_limit: self.user_limit as int,
        }
    }
}

/// Verification failures of the claims codec.
#[derive(Debug, Clone, Copy, PartialEq, Eq, Structural)]
pub enum TokenError {
    /// The signature does not match the payload under the given key.
    SignatureInvalid,
    /// The token is outside its validity window.
    Expired,
    /// The token is not a well-formed token at all.
    Malformed,
}

/// A byte of the base64url alphabet (no padding).
pub open spec fn is_b64url_byte(b: u8) -> bool {
    (65 <= b <= 90) || (97 <= b <= 122) || (48 <= b <= 57) || b == 45 || b == 95
}

/// The base64url (no padding) signature text that HMAC-SHA512 produces for
/// this message under this key, as bytes.
pub uninterp spec fn sig_of(message: Seq<u8>, key: Seq<u8>) -> Seq<u8>;

/// Relies on `jsonwebtoken::crypto::sign` with HS512: an HMAC-SHA512 over
/// the message, base64url-encoded without padding — a pure function of
/// message and key that cannot fail for an HMAC algorithm, whose output is
/// the 86-byte base64url text of a 64-byte digest.
#[verifier::external_body]
fn hs512_sign(message: &[u8], key: &[u8]) -> (r: Vec<u8>)
    ensures
        r@ == sig_of(message@, key@),
        r@.len() == 86,
        forall|i: int| 0 <= i < r@.len() ==> is_b64url_byte(#[trigger] r@[i]),
{
    let k = jsonwebtoken::EncodingKey::from_secret(key);
    match jsonwebtoken::crypto::sign(message, &k, jsonwebtoken::Algorithm::HS512) {
        Ok(s) => s.into_bytes(),
        Err(_) => Vec::new(),
    }
}

/// Relies on `jsonwebtoken::crypto::verify` with HS512: per its source it
/// re-signs the message and compares the two base64 signature texts byte
/// for byte, so it returns true exactly when `signature` is that text.
#[verifier::external_body]
fn hs512_verify(signature: &[u8], message: &[u8], key: &[u8]) -> (r: bool)
    ensures
        r == (signature@ == sig_of(message@, key@)),
{
    let k = jsonwebtoken::DecodingKey::from_secret(key);
    match core::str::from_utf8(signature) {
        Ok(s) => jsonwebtoken::crypto::verify(s, message, &k, jsonwebtoken::Algorithm::HS512)
            .unwrap_or(false),
        Err(_) => false,
    }
}

/// The base64url (no padding) encoding of these bytes.
pub uninterp spec fn b64url(data: Seq<u8>) -> Seq<u8>;

/// Relies on base64's `URL_SAFE_NO_PAD` engine: encoding is a pure function
/// of the input, and every output byte is in the base64url alphabet.
#[verifier::external_body]
fn b64url_encode(data: &[u8]) -> (r: Vec<u8>)
    ensures
        r@ == b64url(data@),
        forall|i: int| 0 <= i < r@.len() ==> is_b64url_byte(#[trigger] r@[i]),
{
    base64::engine::general_purpose::URL_SAFE_NO_PAD.encode(data).into_bytes()
}

/// Relies on base64's `URL_SAFE_NO_PAD` engine: decoding accepts exactly
/// the canonical encodings (no padding, and non-zero trailing bits are
/// rejected by default), so it succeeds precisely on the encoder's outputs
/// and inverts it there.
#[verifier::external_body]
fn b64url_decode(data: &[u8]) -> (r: Option<Vec<u8>>)
    ensures
        r is Some ==> b64url(r.unwrap()@) == data@,
        forall|bs: Seq<u8>|
            b64url(bs) == data@ ==> r is Some && r.unwrap()@ == bs,
{
    base64::engine::general_purpose::URL_SAFE_NO_PAD.decode(data).ok()
}

/// `n` written as exactly `w` decimal digits, zero-padded.
pub open spec fn fix_digits(n: nat, w: nat) -> Seq<u8>
    decreases w,
{
    if w == 0 {
        Seq::empty()
    } else {
        fix_digits(n / 10, (w - 1) as nat).push((48 + n % 10) as u8)
    }
}

/// A signed number in 20 bytes: a sign byte, then 19 zero-padded digits.
pub open spec fn fix_i64(n: int) -> Seq<u8> {
    if n < 0 {
        seq![45u8] + fix_digits((-n) as nat, 19)
    } else {
        seq![43u8] + fix_digits(n as nat, 19)
    }
}

/// Shape and value of fixed-width digits.
pub proof fn lemma_fix_digits_shape(n: nat, w: nat)
    requires
        n < pow10(w),
    ensures
        fix_digits(n, w).len() == w,
        is_digit_seq(fix_digits(n, w)),
        digits_val(fix_digits(n, w)) == n,
    decreases w,
{
    if w == 0 {
    } else {
        assert(n / 10 < pow10((w - 1) as nat)) by (nonlinear_arith)
            requires
                n < pow10(w),
                pow10(w) == 10 * pow10((w - 1) as nat),
        ;
        lemma_fix_digits_shape(n / 10, (w - 1) as nat);
        let s = fix_digits(n, w);
        assert(s.drop_last() =~= fix_digits(n / 10, (w - 1) as nat));
        assert(digits_val(s) == (n / 10) * 10 + n % 10);
        assert((n / 10) * 10 + n % 10 == n) by (nonlinear_arith);
    }
}

/// Fixed-width digits are determined by their value: equal renderings of
/// in-range values mean equal values.
pub proof fn lemma_fix_digits_injective(n1: nat, n2: nat, w: nat)
    requires
        n1 < pow10(w),
        n2 < pow10(w),
        fix_digits(n1, w) == fix_digits(n2, w),
    ensures
        n1 == n2,
{
    lemma_fix_digits_shape(n1, w);
    lemma_fix_digits_shape(n2, w);
}

/// Appends exactly `w` zero-padded decimal digits of `n` to `out`.
pub fn push_fix_digits(n: u64, w: u64, out: &mut Vec<u8>)
    ensures
        final(out)@ == old(out)@ + fix_digits(n as nat, w as nat),
    decreases w,
{
    if w == 0 {
        assert(out@ =~= old(out)@ + fix_digits(n as nat, 0));
    } else {
        push_fix_digits(n / 10, w - 1, out);
        out.push(48 + (n % 10) as u8);
        assert(out@ =~= old(out)@ + fix_digits(n as nat, w as nat));
    }
}

/// Appends the 20-byte signed rendering of `n` to `out`.
pub fn push_fix_i64(n: i64, out: &mut Vec<u8>)
    ensures
        final(out)@ == old(out)@ + fix_i64(n as int),
{
    if n < 0 {
        out.push(45);
        let mag: u64 = ((-(n as i128)) as u64);
        push_fix_digits(mag, 19, out);
        assert(out@ =~= old(out)@ + fix_i64(n as int));
    } else {
        out.push(43);
        push_fix_digits(n as u64, 19, out);
        assert(out@ =~= old(out)@ + fix_i64(n as int));
    }
}

/// A digit sequence of width `w` is the fixed-width rendering of its own
/// value.
pub proof fn lemma_fix_digits_canonical(s: Seq<u8>)
    requires
        is_digit_seq(s),
    ensures
        0 <= digits_val(s) < pow10(s.len() as nat),
        fix_digits(digits_val(s) as nat, s.len() as nat) == s,
    decreases s.len(),
{
    crate::digits::lemma_digits_val_bounds(s);
    if s.len() == 0 {
        assert(fix_digits(0, 0) =~= s);
    } else {
        let p = s.drop_last();
        assert(is_digit_seq(p)) by {
            assert(forall|i: int| 0 <= i < p.len() ==> #[trigger] p[i] == s[i]);
        }
        lemma_fix_digits_canonical(p);
        let v = digits_val(p) as nat;
        let d = (s.last() - 48) as nat;
        let n = digits_val(s) as nat;
        assert(n == v * 10 + d);
        assert(n / 10 == v && n % 10 == d) by (nonlinear_arith)
            requires
                n == v * 10 + d,
                v >= 0,
                d < 10,
        ;
        assert(fix_digits(n, s.len() as nat) == fix_digits(v, p.len() as nat).push(
            (48 + d) as u8,
        ));
        assert(fix_digits(n, s.len() as nat) =~= s);
    }
}

/// The claim fields laid out as bytes: each string length-prefixed with ten
/// digits, each number as a sign and nineteen digits.
#[verifier::opaque]
pub open spec fn payload_of(c: ClaimsView) -> Seq<u8> {
    let sub_b = encode_utf8(c.sub);
    let uid_b = encode_utf8(c.user_id);
    let roles_b = encode_utf8(c.user_roles);
    fix_digits(sub_b.len(), 10) + sub_b + fix_i64(c.exp) + fix_i64(c.iat) + fix_i64(c.nbf)
        + fix_digits(uid_b.len(), 10) + uid_b + fix_digits(roles_b.len(), 10) + roles_b + fix_i64(
        c.user_limit,
    )
}

/// A full token: the 86-byte signature text over the encoded payload, a
/// dot, then the base64url encoding of the payload.
pub open spec fn token_of(c: ClaimsView, key: Seq<u8>) -> Seq<u8> {
    sig_of(b64url(payload_of(c)), key) + seq![46u8] + b64url(payload_of(c))
}

/// Renders the claim fields as payload bytes.
fn build_payload(c: &Claims) -> (r: Vec<u8>)
    ensures
        r@ == payload_of(c@),
{
    proof {
        reveal(payload_of);
    }
    let mut out: Vec<u8> = Vec::new();
    let sub_b: &[u8] = c.sub.as_str().as_bytes();
    let uid_b: &[u8] = c.user_id.as_str().as_bytes();
    let roles_b: &[u8] = c.user_roles.as_str().as_bytes();
    push_fix_digits(sub_b.len() as u64, 10, &mut out);
    out.extend_from_slice(sub_b);
    assert(out@ =~= fix_digits(encode_utf8(c.sub@).len(), 10) + encode_utf8(c.sub@));
    push_fix_i64(c.exp, &mut out);
    push_fix_i64(c.iat, &mut out);
    push_fix_i64(c.nbf, &mut out);
    push_fix_digits(uid_b.len() as u64, 10, &mut out);
    out.extend_from_slice(uid_b);
    push_fix_digits(roles_b.len() as u64, 10, &mut out);
    out.extend_from_slice(roles_b);
    push_fix_i64(c.user_limit as i64, &mut out);
    assert(out@ =~= payload_of(c@));
    out
}

/// Reads `w` digits at `at` and returns their value.
fn parse_fix_digits(p: &[u8], at: usize, w: usize) -> (r: Option<u64>)
    requires
        at + w <= p@.len(),
        w <= 19,
    ensures
        r is Some ==> r.unwrap() < pow10(w as nat) && p@.subrange(at as int, (at + w) as int)
            == fix_digits(r.unwrap() as nat, w as nat),
        r is None ==> !is_digit_seq(p@.subrange(at as int, (at + w) as int)),
{
    let ghost region = p@.subrange(at as int, (at + w) as int);
    let n = p.len();
    let mut i: usize = 0;
    let mut val: u64 = 0;
    while i < w
        invariant
            0 <= i <= w,
            w <= 19,
            at + w <= n,
            n == p@.len(),
            region == p@.subrange(at as int, (at + w) as int),
            is_digit_seq(region.subrange(0, i as int)),
            val == digits_val(region.subrange(0, i as int)),
            val < pow10(i as nat),
        decreases w - i,
    {
        let c = p[at + i];
        proof {
            assert(region[i as int] == p@[(at + i) as int]);
        }
        if c < 48 || c > 57 {
            return None;
        }
        proof {
            let seen = region.subrange(0, i as int);
            let seen2 = region.subrange(0, (i + 1) as int);
            assert(seen2 =~= seen.push(region[i as int]));
            assert(seen2.drop_last() =~= seen);
            assert(digits_val(seen2) == digits_val(seen) * 10 + (region[i as int] - 48));
            crate::digits::lemma_pow10_monotone(i as nat, 18);
            crate::digits::lemma_pow10_19();
            assert(pow10(19) == 10 * pow10(18));
            assert(pow10((i + 1) as nat) == 10 * pow10(i as nat));
            assert(val * 10 < pow10(18) * 10) by (nonlinear_arith)
                requires
                    val < pow10(18),
            ;
            assert(val * 10 + (region[i as int] - 48) < pow10((i + 1) as nat)) by (nonlinear_arith)
                requires
                    val < pow10(i as nat),
                    region[i as int] - 48 < 10,
                    pow10((i + 1) as nat) == 10 * pow10(i as nat),
            ;
        }
        val = val * 10 + ((c - 48) as u64);
        i += 1;
    }
    proof {
        assert(region.subrange(0, w as int) =~= region);
        lemma_fix_digits_canonical(region);
    }
    Some(val)
}

/// Reads a sign byte and nineteen digits at `at`: exactly the renderings of
/// [`fix_i64`] for values in range are accepted.
fn parse_fix_i64(p: &[u8], at: usize) -> (r: Option<i64>)
    requires
        at + 20 <= p@.len(),
    ensures
        r is Some ==> p@.subrange(at as int, (at + 20) as int) == fix_i64(r.unwrap() as int),
        forall|m: i64| p@.subrange(at as int, (at + 20) as int) == fix_i64(m as int) ==> r
            == Some(m),
{
    let ghost region = p@.subrange(at as int, (at + 20) as int);
    let ghost digits = p@.subrange((at + 1) as int, (at + 20) as int);
    proof {
        assert(digits =~= region.subrange(1, 20));
        crate::digits::lemma_pow10_19();
        assert forall|m: i64| region == fix_i64(m as int) implies {
            let mag: nat = if m >= 0 {
                m as nat
            } else {
                (-(m as int)) as nat
            };
            &&& region[0] == (if m < 0 {
                45u8
            } else {
                43u8
            })
            &&& digits == fix_digits(mag, 19)
            &&& digits_val(digits) == mag
            &&& is_digit_seq(digits)
        } by {
            let mag: nat = if m >= 0 {
                m as nat
            } else {
                (-(m as int)) as nat
            };
            lemma_fix_digits_shape(mag, 19);
            assert(digits =~= fix_digits(mag, 19));
        }
    }
    let sign = p[at];
    proof {
        assert(region[0] == p@[at as int]);
    }
    if sign != 43 && sign != 45 {
        return None;
    }
    let n = p.len();
    let val = match parse_fix_digits(p, at + 1, 19) {
        None => {
            return None;
        },
        Some(v) => v,
    };
    proof {
        assert(p@.subrange((at + 1) as int, (at + 1 + 19) as int) =~= digits);
        crate::digits::lemma_pow10_19();
        lemma_fix_digits_shape(val as nat, 19);
    }
    if sign == 45 {
        if val == 0 || val > 9223372036854775808u64 {
            proof {
                assert forall|m: i64| region != fix_i64(m as int) by {
                    if region == fix_i64(m as int) {
                        assert(m < 0);
                        let mag: nat = (-(m as int)) as nat;
                        assert(digits_val(digits) == mag);
                        assert(digits == fix_digits(val as nat, 19));
                        lemma_fix_digits_shape(mag, 19);
                        lemma_fix_digits_injective(val as nat, mag, 19);
                    }
                }
            }
            return None;
        }
        let res: i64 = (-(val as i128)) as i64;
        proof {
            assert(res as int == -(val as int));
            assert(region =~= seq![45u8] + fix_digits(val as nat, 19));
            assert(region =~= fix_i64(res as int));
            assert forall|m: i64| region == fix_i64(m as int) implies Some(res) == Some(m) by {
                if m >= 0 {
                    assert(region[0] == 43u8);
                } else {
                    let mag: nat = (-(m as int)) as nat;
                    lemma_fix_digits_shape(mag, 19);
                    lemma_fix_digits_injective(val as nat, mag, 19);
                }
            }
        }
        Some(res)
    } else {
        if val > 9223372036854775807u64 {
            proof {
                assert forall|m: i64| region != fix_i64(m as int) by {
                    if region == fix_i64(m as int) {
                        assert(m >= 0);
                        assert(digits_val(digits) == m as nat);
                        assert(digits == fix_digits(val as nat, 19));
                        lemma_fix_digits_shape(m as nat, 19);
                        lemma_fix_digits_injective(val as nat, m as nat, 19);
                    }
                }
            }
            return None;
        }
        let res: i64 = val as i64;
        proof {
            assert(region =~= seq![43u8] + fix_digits(val as nat, 19));
            assert(region =~= fix_i64(res as int));
            assert forall|m: i64| region == fix_i64(m as int) implies Some(res) == Some(m) by {
                if m < 0 {
                    assert(region[0] == 45u8);
                } else {
                    lemma_fix_digits_shape(m as nat, 19);
                    lemma_fix_digits_injective(val as nat, m as nat, 19);
                }
            }
        }
        Some(res)
    }
}

/// `10^10` written out, the bound of the ten-digit length fields.
pub proof fn lemma_pow10_10()
    ensures
        pow10(10) == 10000000000,
{
    reveal_with_fuel(pow10, 12);
}

/// Where each field of an encoded payload lies, for a claim set that the
/// payload matches.
pub open spec fn payload_layout_at(p: Seq<u8>, c: ClaimsView) -> bool {
    let sub_b = encode_utf8(c.sub);
    let uid_b = encode_utf8(c.user_id);
    let roles_b = encode_utf8(c.user_roles);
    let sl = sub_b.len() as int;
    let ul = uid_b.len() as int;
    let rl = roles_b.len() as int;
    &&& p.len() == 110 + sl + ul + rl
    &&& p.subrange(0, 10) == fix_digits(sub_b.len(), 10)
    &&& p.subrange(10, 10 + sl) == sub_b
    &&& p.subrange(10 + sl, 30 + sl) == fix_i64(c.exp)
    &&& p.subrange(30 + sl, 50 + sl) == fix_i64(c.iat)
    &&& p.subrange(50 + sl, 70 + sl) == fix_i64(c.nbf)
    &&& p.subrange(70 + sl, 80 + sl) == fix_digits(uid_b.len(), 10)
    &&& p.subrange(80 + sl, 80 + sl + ul) == uid_b
    &&& p.subrange(80 + sl + ul, 90 + sl + ul) == fix_digits(roles_b.len(), 10)
    &&& p.subrange(90 + sl + ul, 90 + sl + ul + rl) == roles_b
    &&& p.subrange(90 + sl + ul + rl, 110 + sl + ul + rl) == fix_i64(c.user_limit)
}

/// An encoded payload carries its fields at the layout's places.
proof fn lemma_payload_layout(p: Seq<u8>, c: ClaimsView)
    requires
        c.wf(),
        p == payload_of(c),
    ensures
        payload_layout_at(p, c),
{
    reveal(payload_of);
    let sub_b = encode_utf8(c.sub);
    let uid_b = encode_utf8(c.user_id);
    let roles_b = encode_utf8(c.user_roles);
    let sl = sub_b.len() as int;
    let ul = uid_b.len() as int;
    let rl = roles_b.len() as int;
    lemma_pow10_10();
    crate::digits::lemma_pow10_19();
    lemma_fix_digits_shape(sub_b.len(), 10);
    lemma_fix_digits_shape(uid_b.len(), 10);
    lemma_fix_digits_shape(roles_b.len(), 10);
    assert(fix_i64(c.exp).len() == 20) by {
        if c.exp < 0 {
            lemma_fix_digits_shape((-c.exp) as nat, 19);
        } else {
            lemma_fix_digits_shape(c.exp as nat, 19);
        }
    }
    assert(fix_i64(c.iat).len() == 20) by {
        if c.iat < 0 {
            lemma_fix_digits_shape((-c.iat) as nat, 19);
        } else {
            lemma_fix_digits_shape(c.iat as nat, 19);
        }
    }
    assert(fix_i64(c.nbf).len() == 20) by {
        if c.nbf < 0 {
            lemma_fix_digits_shape((-c.nbf) as nat, 19);
        } else {
            lemma_fix_digits_shape(c.nbf as nat, 19);
        }
    }
    assert(fix_i64(c.user_limit).len() == 20) by {
        if c.user_limit < 0 {
            lemma_fix_digits_shape((-c.user_limit) as nat, 19);
        } else {
            lemma_fix_digits_shape(c.user_limit as nat, 19);
        }
    }
    assert(p.subrange(0, 10) =~= fix_digits(sub_b.len(), 10));
    assert(p.subrange(10, 10 + sl) =~= sub_b);
    assert(p.subrange(10 + sl, 30 + sl) =~= fix_i64(c.exp));
    assert(p.subrange(30 + sl, 50 + sl) =~= fix_i64(c.iat));
    assert(p.subrange(50 + sl, 70 + sl) =~= fix_i64(c.nbf));
    assert(p.subrange(70 + sl, 80 + sl) =~= fix_digits(uid_b.len(), 10));
    assert(p.subrange(80 + sl, 80 + sl + ul) =~= uid_b);
    assert(p.subrange(80 + sl + ul, 90 + sl + ul) =~= fix_digits(roles_b.len(), 10));
    assert(p.subrange(90 + sl + ul, 90 + sl + ul + rl) =~= roles_b);
    assert(p.subrange(90 + sl + ul + rl, 110 + sl + ul + rl) =~= fix_i64(c.user_limit));
}

/// A claim set matching an encoded payload.
pub open spec fn matches_payload(p: Seq<u8>, c: ClaimsView) -> bool {
    c.wf() && p == payload_of(c)
}

/// Decodes payload bytes back into a claim set.  Exactly the outputs of
/// [`payload_of`] on well-formed claim sets are accepted, and the claim set
/// is recovered in full.
#[verifier::rlimit(100)]
fn parse_payload(p: &[u8]) -> (r: Option<Claims>)
    ensures
        r is Some ==> r.unwrap()@.wf() && p@ == payload_of(r.unwrap()@),
        forall|c: ClaimsView| matches_payload(p@, c) ==> r is Some && r.unwrap()@ == c,
{
    let gp = Ghost(p@);
    let n = p.len();
    proof {
        lemma_pow10_10();
        assert forall|c: ClaimsView| matches_payload(gp@, c) implies payload_layout_at(
            gp@,
            c,
        ) by {
            lemma_payload_layout(gp@, c);
        }
    }
    if n < 110 {
        proof {
            assert forall|c: ClaimsView| !matches_payload(gp@, c) by {
                if matches_payload(gp@, c) {
                    assert(payload_layout_at(gp@, c));
                }
            }
        }
        return None;
    }
    let sl64 = match parse_fix_digits(p, 0, 10) {
        None => {
            proof {
                assert forall|c: ClaimsView| !matches_payload(gp@, c) by {
                    if matches_payload(gp@, c) {
                        assert(payload_layout_at(gp@, c));
                        lemma_fix_digits_shape(encode_utf8(c.sub).len(), 10);
                    }
                }
            }
            return None;
        },
        Some(v) => v,
    };
    proof {
        assert forall|c: ClaimsView| matches_payload(gp@, c) implies encode_utf8(c.sub).len()
            == sl64 as nat by {
            assert(payload_layout_at(gp@, c));
            lemma_fix_digits_injective(encode_utf8(c.sub).len(), sl64 as nat, 10);
        }
    }
    if sl64 > (n as u64) - 110 {
        proof {
            assert forall|c: ClaimsView| !matches_payload(gp@, c) by {
                if matches_payload(gp@, c) {
                    assert(payload_layout_at(gp@, c));
                }
            }
        }
        return None;
    }
    let sl = sl64 as usize;
    let sub_v = vstd::slice::slice_to_vec(vstd::slice::slice_subrange(p, 10, 10 + sl));
    let p1: usize = 10 + sl;
    let exp = match parse_fix_i64(p, p1) {
        None => {
            proof {
                assert forall|c: ClaimsView| !matches_payload(gp@, c) by {
                    if matches_payload(gp@, c) {
                        assert(payload_layout_at(gp@, c));
                        let m: i64 = c.exp as i64;
                        assert(gp@.subrange(p1 as int, (p1 + 20) as int) == fix_i64(m as int));
                    }
                }
            }
            return None;
        },
        Some(v) => v,
    };
    let p2: usize = p1 + 20;
    let iat = match parse_fix_i64(p, p2) {
        None => {
            proof {
                assert forall|c: ClaimsView| !matches_payload(gp@, c) by {
                    if matches_payload(gp@, c) {
                        assert(payload_layout_at(gp@, c));
                        let m: i64 = c.iat as i64;
                        assert(gp@.subrange(p2 as int, (p2 + 20) as int) == fix_i64(m as int));
                    }
                }
            }
            return None;
        },
        Some(v) => v,
    };
    let p3: usize = p2 + 20;
    let nbf = match parse_fix_i64(p, p3) {
        None => {
            proof {
                assert forall|c: ClaimsView| !matches_payload(gp@, c) by {
                    if matches_payload(gp@, c) {
                        assert(payload_layout_at(gp@, c));
                        let m: i64 = c.nbf as i64;
                        assert(gp@.subrange(p3 as int, (p3 + 20) as int) == fix_i64(m as int));
                    }
                }
            }
            return None;
        },
        Some(v) => v,
    };
    let p4: usize = p3 + 20;
    let ul64 = match parse_fix_digits(p, p4, 10) {
        None => {
            proof {
                assert forall|c: ClaimsView| !matches_payload(gp@, c) by {
                    if matches_payload(gp@, c) {
                        assert(payload_layout_at(gp@, c));
                        lemma_fix_digits_shape(encode_utf8(c.user_id).len(), 10);
                    }
                }
            }
            return None;
        },
        Some(v) => v,
    };
    proof {
        assert forall|c: ClaimsView| matches_payload(gp@, c) implies encode_utf8(c.user_id).len()
            == ul64 as nat by {
            assert(payload_layout_at(gp@, c));
            lemma_fix_digits_injective(encode_utf8(c.user_id).len(), ul64 as nat, 10);
        }
    }
    let p5: usize = p4 + 10;
    if ul64 > ((n - p5) as u64) {
        proof {
            assert forall|c: ClaimsView| !matches_payload(gp@, c) by {
                if matches_payload(gp@, c) {
                    assert(payload_layout_at(gp@, c));
                }
            }
        }
        return None;
    }
    let ul = ul64 as usize;
    let uid_v = vstd::slice::slice_to_vec(vstd::slice::slice_subrange(p, p5, p5 + ul));
    let p6: usize = p5 + ul;
    if n - p6 < 30 {
        proof {
            assert forall|c: ClaimsView| !matches_payload(gp@, c) by {
                if matches_payload(gp@, c) {
                    assert(payload_layout_at(gp@, c));
                }
            }
        }
        return None;
    }
    let rl64 = match parse_fix_digits(p, p6, 10) {
        None => {
            proof {
                assert forall|c: ClaimsView| !matches_payload(gp@, c) by {
                    if matches_payload(gp@, c) {
                        assert(payload_layout_at(gp@, c));
                        lemma_fix_digits_shape(encode_utf8(c.user_roles).len(), 10);
                    }
                }
            }
            return None;
        },
        Some(v) => v,
    };
    proof {
        assert forall|c: ClaimsView| matches_payload(gp@, c) implies encode_utf8(
            c.user_roles,
        ).len() == rl64 as nat by {
            assert(payload_layout_at(gp@, c));
            lemma_fix_digits_injective(encode_utf8(c.user_roles).len(), rl64 as nat, 10);
        }
    }
    let p7: usize = p6 + 10;
    if rl64 != ((n - p7) as u64) - 20 {
        proof {
            assert forall|c: ClaimsView| !matches_payload(gp@, c) by {
                if matches_payload(gp@, c) {
                    assert(payload_layout_at(gp@, c));
                }
            }
        }
        return None;
    }
    let rl = rl64 as usize;
    let roles_v = vstd::slice::slice_to_vec(vstd::slice::slice_subrange(p, p7, p7 + rl));
    let p8: usize = p7 + rl;
    let limit64 = match parse_fix_i64(p, p8) {
        None => {
            proof {
                assert forall|c: ClaimsView| !matches_payload(gp@, c) by {
                    if matches_payload(gp@, c) {
                        assert(payload_layout_at(gp@, c));
                        let m: i64 = c.user_limit as i64;
                        assert(gp@.subrange(p8 as int, (p8 + 20) as int) == fix_i64(m as int));
                    }
                }
            }
            return None;
        },
        Some(v) => v,
    };
    if limit64 > 2147483647i64 || limit64 < -2147483648i64 {
        proof {
            assert forall|c: ClaimsView| !matches_payload(gp@, c) by {
                if matches_payload(gp@, c) {
                    assert(payload_layout_at(gp@, c));
                    let m: i64 = c.user_limit as i64;
                    assert(gp@.subrange(p8 as int, (p8 + 20) as int) == fix_i64(m as int));
                }
            }
        }
        return None;
    }
    let ghost sub_bytes = gp@.subrange(10, 10 + sl as int);
    let ghost uid_bytes = gp@.subrange(p5 as int, (p5 + ul) as int);
    let ghost roles_bytes = gp@.subrange(p7 as int, (p7 + rl) as int);
    let sub_s = match bytes_to_string(sub_v) {
        None => {
            proof {
                assert forall|c: ClaimsView| !matches_payload(gp@, c) by {
                    if matches_payload(gp@, c) {
                        assert(payload_layout_at(gp@, c));
                        vstd::utf8::encode_utf8_valid_utf8(c.sub);
                    }
                }
            }
            return None;
        },
        Some(s) => s,
    };
    let uid_s = match bytes_to_string(uid_v) {
        None => {
            proof {
                assert forall|c: ClaimsView| !matches_payload(gp@, c) by {
                    if matches_payload(gp@, c) {
                        assert(payload_layout_at(gp@, c));
                        vstd::utf8::encode_utf8_valid_utf8(c.user_id);
                    }
                }
            }
            return None;
        },
        Some(s) => s,
    };
    let roles_s = match bytes_to_string(roles_v) {
        None => {
            proof {
                assert forall|c: ClaimsView| !matches_payload(gp@, c) by {
                    if matches_payload(gp@, c) {
                        assert(payload_layout_at(gp@, c));
                        vstd::utf8::encode_utf8_valid_utf8(c.user_roles);
                    }
                }
            }
            return None;
        },
        Some(s) => s,
    };
    let claims = Claims {
        sub: sub_s,
        exp,
        iat,
        nbf,
        user_id: uid_s,
        user_roles: roles_s,
        user_limit: limit64 as i32,
    };
    proof {
        vstd::utf8::decode_utf8_encode_utf8(sub_bytes);
        vstd::utf8::decode_utf8_encode_utf8(uid_bytes);
        vstd::utf8::decode_utf8_encode_utf8(roles_bytes);
        assert(encode_utf8(claims.sub@) == sub_bytes);
        assert(encode_utf8(claims.user_id@) == uid_bytes);
        assert(encode_utf8(claims.user_roles@) == roles_bytes);
        assert(claims@.wf()) by {
            crate::digits::lemma_pow10_19();
        }
        assert(gp@ =~= payload_of(claims@)) by {
            reveal(payload_of);
            assert(gp@.subrange(0, 10) == fix_digits(sl64 as nat, 10));
            assert(gp@.subrange(p1 as int, (p1 + 20) as int) == fix_i64(exp as int));
            assert(gp@.subrange(p2 as int, (p2 + 20) as int) == fix_i64(iat as int));
            assert(gp@.subrange(p3 as int, (p3 + 20) as int) == fix_i64(nbf as int));
            assert(gp@.subrange(p4 as int, (p4 + 10) as int) == fix_digits(ul64 as nat, 10));
            assert(gp@.subrange(p6 as int, (p6 + 10) as int) == fix_digits(rl64 as nat, 10));
            assert(gp@.subrange(p8 as int, (p8 + 20) as int) == fix_i64(limit64 as int));
        }
        assert forall|c: ClaimsView| matches_payload(gp@, c) implies claims@ == c by {
            assert(payload_layout_at(gp@, c));
            assert(encode_utf8(c.sub) == sub_bytes);
            assert(encode_utf8(c.user_id) == uid_bytes);
            assert(encode_utf8(c.user_roles) == roles_bytes);
            vstd::utf8::encode_utf8_decode_utf8(c.sub);
            vstd::utf8::encode_utf8_decode_utf8(c.user_id);
            vstd::utf8::encode_utf8_decode_utf8(c.user_roles);
            assert(c.sub == claims.sub@);
            assert(gp@.subrange(p1 as int, (p1 + 20) as int) == fix_i64(c.exp));
            assert(gp@.subrange(p2 as int, (p2 + 20) as int) == fix_i64(c.iat));
            assert(gp@.subrange(p3 as int, (p3 + 20) as int) == fix_i64(c.nbf));
            assert(gp@.subrange(p8 as int, (p8 + 20) as int) == fix_i64(c.user_limit));
        }
    }
    Some(claims)
}

/// The claim set issued at `now` for a user: subject and user id both carry
/// the user's id, the window opens at `now` and closes `jwt_lifetime` hours
/// later.
pub open spec fn issued_claims(
    user_id: Seq<char>,
    user_limit: int,
    roles: Seq<char>,
    jwt_lifetime: int,
    now: int,
) -> ClaimsView {
    ClaimsView {
        sub: user_id,
        exp: now + jwt_lifetime * 3600,
        iat: now,
        nbf: now,
        user_id: user_id,
        user_roles: roles,
        user_limit: user_limit,
    }
}

/// Token framing: at least 87 bytes with a dot after the 86-byte signature.
pub open spec fn framed(tb: Seq<u8>) -> bool {
    tb.len() >= 87 && tb[86] == 46
}

/// The framed signature text is the one the key produces for the framed
/// message.
pub open spec fn signature_ok(tb: Seq<u8>, key: Seq<u8>) -> bool {
    framed(tb) && tb.subrange(0, 86) == sig_of(tb.subrange(87, tb.len() as int), key)
}

/// Some well-formed claim set encodes to the framed message.
pub open spec fn payload_decodes(tb: Seq<u8>) -> bool {
    exists|c: ClaimsView| c.wf() && b64url(payload_of(c)) == tb.subrange(87, tb.len() as int)
}

/// What verifying token bytes `tb` under `key` at `now` yields: claims are
/// returned exactly when the bytes are a signed encoding of them and `now`
/// lies in their window; otherwise the error names the first defect met —
/// framing, then signature, then payload, then freshness.
pub open spec fn parse_result_ok(
    tb: Seq<u8>,
    key: Seq<u8>,
    now: int,
    r: Result<Claims, TokenError>,
) -> bool {
    &&& (r is Ok ==> ({
        let c = r.unwrap()@;
        &&& c.wf()
        &&& tb == token_of(c, key)
        &&& c.nbf <= now <= c.exp
    }))
    &&& (forall|c: ClaimsView|
        (c.wf() && tb == token_of(c, key) && sig_of(b64url(payload_of(c)), key).len() == 86
            && c.nbf <= now <= c.exp) ==> r is Ok && r.unwrap()@ == c)
    &&& ((r == Err::<Claims, TokenError>(TokenError::SignatureInvalid)) <==> (framed(tb)
        && !signature_ok(tb, key)))
    &&& ((r == Err::<Claims, TokenError>(TokenError::Malformed)) <==> (!framed(tb) || (
    signature_ok(tb, key) && !payload_decodes(tb))))
    &&& ((r == Err::<Claims, TokenError>(TokenError::Expired)) <==> (signature_ok(tb, key)
        && exists|c: ClaimsView|
        c.wf() && b64url(payload_of(c)) == tb.subrange(87, tb.len() as int) && !(c.nbf <= now
            <= c.exp)))
}

/// The claims codec.
pub struct Jwt {}

impl Jwt {
    /// Issues a signed token for a user: the claim set of
    /// [`issued_claims`], encoded and signed under `secret`.  Fails only
    /// when a string field is too long for the payload layout.
    pub fn generate(
        user_id: String,
        user_limit: i32,
        roles: String,
        secret: &[u8],
        jwt_lifetime: i64,
        now: i64,
    ) -> (r: Result<(String, i64), TokenError>)
        requires
            0 <= now <= 8000000000000,
            0 <= jwt_lifetime <= 1000000000,
        ensures
            r is Ok <==> (encode_utf8(user_id@).len() < 10000000000 && encode_utf8(roles@).len()
                < 10000000000),
            r is Err ==> r == Err::<(String, i64), TokenError>(TokenError::Malformed),
            r is Ok ==> ({
                let c = issued_claims(
                    user_id@,
                    user_limit as int,
                    roles@,
                    jwt_lifetime as int,
                    now as int,
                );
                &&& c.wf()
                &&& r.unwrap().1 == now + jwt_lifetime * 3600
                &&& encode_utf8(r.unwrap().0@) == token_of(c, secret@)
                &&& sig_of(b64url(payload_of(c)), secret@).len() == 86
            }),
    {
        let uid_len = user_id.as_str().as_bytes().len();
        let roles_len = roles.as_str().as_bytes().len();
        if (uid_len as u64) >= 10000000000u64 || (roles_len as u64) >= 10000000000u64 {
            return Err(TokenError::Malformed);
        }
        let exp: i64 = now + jwt_lifetime * 3600;
        let claims = Claims {
            sub: user_id.clone(),
            exp,
            iat: now,
            nbf: now,
            user_id,
            user_roles: roles,
            user_limit,
        };
        let ghost c = issued_claims(
            claims.user_id@,
            user_limit as int,
            claims.user_roles@,
            jwt_lifetime as int,
            now as int,
        );
        proof {
            assert(claims@ == c);
        }
        let payload = build_payload(&claims);
        let bp = b64url_encode(payload.as_slice());
        let mut tb = hs512_sign(bp.as_slice(), secret);
        tb.push(46);
        tb.extend_from_slice(bp.as_slice());
        proof {
            assert(tb@ =~= sig_of(bp@, secret@) + seq![46u8] + bp@);
            assert(tb@ == token_of(c, secret@));
            assert(crate::text::is_ascii_bytes(tb@)) by {
                assert(forall|i: int|
                    0 <= i < tb@.len() ==> is_b64url_byte(#[trigger] tb@[i]) || tb@[i] == 46);
            }
            crate::text::lemma_ascii_round_trip(tb@);
        }
        let ghost tbv = tb@;
        let token = crate::text::ascii_to_string(tb);
        proof {
            assert(encode_utf8(token@) == tbv);
        }
        Ok((token, exp))
    }

    /// Verifies a token under `secret` at time `now` and recovers its claim
    /// set.  Success means exactly: the bytes of the token are a signed
    /// encoding of the returned claims under this key, and `now` lies in
    /// the claims' validity window.  A framing defect is `Malformed`, a
    /// wrong signature is `SignatureInvalid`, and a token whose window does
    /// not contain `now` is `Expired`.
    pub fn parse(token: &str, secret: &[u8], now: i64) -> (r: Result<Claims, TokenError>)
        ensures
            parse_result_ok(encode_utf8(token@), secret@, now as int, r),
    {
        Self::parse_token_bytes(token.as_bytes(), secret, now)
    }

    /// [`Jwt::parse`] on the raw bytes of a token.
    pub fn parse_token_bytes(tbs: &[u8], secret: &[u8], now: i64) -> (r: Result<
        Claims,
        TokenError,
    >)
        ensures
            parse_result_ok(tbs@, secret@, now as int, r),
    {
        let ghost tb = tbs@;
        let n = tbs.len();
        proof {
            assert forall|c: ClaimsView|
                tb == token_of(c, secret@) && sig_of(b64url(payload_of(c)), secret@).len()
                    == 86 implies framed(tb) && tb.subrange(0, 86) == sig_of(
                b64url(payload_of(c)),
                secret@,
            ) && tb.subrange(87, tb.len() as int) == b64url(payload_of(c)) by {
                let sg = sig_of(b64url(payload_of(c)), secret@);
                let bp0 = b64url(payload_of(c));
                assert(tb.len() == 87 + bp0.len());
                assert(tb[86] == 46);
                assert(tb.subrange(0, 86) =~= sg);
                assert(tb.subrange(87, tb.len() as int) =~= bp0);
            }
        }
        if n < 87 {
            return Err(TokenError::Malformed);
        }
        let dot = tbs[86];
        if dot != 46 {
            return Err(TokenError::Malformed);
        }
        let sig = vstd::slice::slice_subrange(tbs, 0, 86);
        let bp = vstd::slice::slice_subrange(tbs, 87, n);
        if !hs512_verify(sig, bp, secret) {
            return Err(TokenError::SignatureInvalid);
        }
        let payload = match b64url_decode(bp) {
            None => {
                proof {
                    assert(!payload_decodes(tb)) by {
                        if payload_decodes(tb) {
                            let c = choose|c: ClaimsView|
                                c.wf() && b64url(payload_of(c)) == tb.subrange(
                                    87,
                                    tb.len() as int,
                                );
                            assert(b64url(payload_of(c)) == bp@);
                        }
                    }
                }
                return Err(TokenError::Malformed);
            },
            Some(v) => v,
        };
        let claims = match parse_payload(payload.as_slice()) {
            None => {
                proof {
                    assert(!payload_decodes(tb)) by {
                        if payload_decodes(tb) {
                            let c = choose|c: ClaimsView|
                                c.wf() && b64url(payload_of(c)) == tb.subrange(
                                    87,
                                    tb.len() as int,
                                );
                            assert(b64url(payload_of(c)) == bp@);
                            assert(payload@ == payload_of(c));
                            assert(matches_payload(payload@, c));
                        }
                    }
                }
                return Err(TokenError::Malformed);
            },
            Some(v) => v,
        };
        proof {
            assert(payload_decodes(tb)) by {
                assert(claims@.wf() && b64url(payload_of(claims@)) == tb.subrange(
                    87,
                    tb.len() as int,
                ));
            }
            assert forall|c: ClaimsView|
                c.wf() && b64url(payload_of(c)) == tb.subrange(
                    87,
                    tb.len() as int,
                ) implies c == claims@ by {
                assert(b64url(payload_of(c)) == bp@);
                assert(payload@ == payload_of(c));
                assert(matches_payload(payload@, c));
            }
        }
        if !(claims.nbf <= now && now <= claims.exp) {
            return Err(TokenError::Expired);
        }
        proof {
            assert(tb =~= tb.subrange(0, 86) + seq![46u8] + tb.subrange(87, tb.len() as int));
            assert(tb == token_of(claims@, secret@));
        }
        Ok(claims)
    }
}

/// The bytes of the marker word `Bearer`.
pub open spec fn bearer_bytes() -> Seq<u8> {
    seq![66u8, 101u8, 97u8, 114u8, 101u8, 114u8]
}

/// The marker word occurs at position `i` of `h`.
pub open spec fn bearer_at(h: Seq<u8>, i: int) -> bool {
    0 <= i && i + 6 <= h.len() && h.subrange(i, i + 6) == bearer_bytes()
}

/// Position of the first occurrence of the marker word at or after `i`.
pub open spec fn first_bearer_from(h: Seq<u8>, i: int) -> Option<int>
    decreases h.len() - i,
    when 0 <= i <= h.len()
{
    if i + 6 > h.len() {
        None
    } else if bearer_at(h, i) {
        Some(i)
    } else {
        first_bearer_from(h, i + 1)
    }
}

/// An ASCII whitespace byte, as `str::trim` strips it from header text.
pub open spec fn is_ws(b: u8) -> bool {
    b == 9 || b == 10 || b == 11 || b == 12 || b == 13 || b == 32
}

/// First non-whitespace position in `[s, e)`, or `e`.
pub open spec fn trim_from(h: Seq<u8>, s: int, e: int) -> int
    decreases e - s,
    when 0 <= s <= e <= h.len()
{
    if s < e && is_ws(h[s]) {
        trim_from(h, s + 1, e)
    } else {
        s
    }
}

/// Position after the last non-whitespace byte in `[s, e)`, or `s`.
pub open spec fn trim_to(h: Seq<u8>, s: int, e: int) -> int
    decreases e - s,
    when 0 <= s <= e <= h.len()
{
    if e > s && is_ws(h[e - 1]) {
        trim_to(h, s, e - 1)
    } else {
        e
    }
}

/// The token a header value carries: the text between the first marker word
/// and the next one (or the end), with surrounding whitespace stripped.
pub open spec fn bearer_token_of(h: Seq<u8>) -> Option<Seq<u8>> {
    match first_bearer_from(h, 0) {
        None => None,
        Some(i) => {
            let start = i + 6;
            let end = match first_bearer_from(h, start) {
                None => h.len() as int,
                Some(j) => j,
            };
            let s = trim_from(h, start, end);
            let e = trim_to(h, s, end);
            Some(h.subrange(s, e))
        },
    }
}

/// Header text as `HeaderValue::to_str` accepts it: visible ASCII or tab.
pub open spec fn is_header_text(h: Seq<u8>) -> bool {
    forall|i: int| 0 <= i < h.len() ==> (32 <= #[trigger] h[i] < 127 || h[i] == 9)
}

/// Finds the first occurrence of the marker word at or after `from`.
fn find_bearer(h: &[u8], from: usize) -> (r: Option<usize>)
    requires
        from <= h@.len(),
    ensures
        ({
            let fr = first_bearer_from(h@, from as int);
            match r {
                Some(i) => fr == Some(i as int) && from <= i && bearer_at(h@, i as int),
                None => fr is None,
            }
        }),
{
    let n = h.len();
    let mut i: usize = from;
    loop
        invariant
            from <= i <= n,
            n == h@.len(),
            first_bearer_from(h@, from as int) == first_bearer_from(h@, i as int),
        decreases n - i,
    {
        if n - i < 6 {
            return None;
        }
        if h[i] == 66 && h[i + 1] == 101 && h[i + 2] == 97 && h[i + 3] == 114 && h[i + 4] == 101
            && h[i + 5] == 114 {
            proof {
                assert(h@.subrange(i as int, i + 6) =~= bearer_bytes());
            }
            return Some(i);
        }
        proof {
            assert(!bearer_at(h@, i as int)) by {
                if bearer_at(h@, i as int) {
                    let w = h@.subrange(i as int, i + 6);
                    assert(w[0] == h@[i as int] && w[1] == h@[i + 1] && w[2] == h@[i + 2] && w[3]
                        == h@[i + 3] && w[4] == h@[i + 4] && w[5] == h@[i + 5]);
                }
            }
        }
        i += 1;
    }
}

/// Whitespace test matching [`is_ws`].
fn is_ws_byte(b: u8) -> (r: bool)
    ensures
        r == is_ws(b),
{
    b == 9 || b == 10 || b == 11 || b == 12 || b == 13 || b == 32
}

/// Extracts the bearer token from a header value, as splitting the text on
/// the marker word and trimming the second piece does.
pub fn bearer_token(h: &[u8]) -> (r: Option<Vec<u8>>)
    ensures
        ({
            let bt = bearer_token_of(h@);
            match r {
                Some(v) => bt == Some(v@),
                None => bt is None,
            }
        }),
{
    let n = h.len();
    let i = match find_bearer(h, 0) {
        None => {
            return None;
        },
        Some(i) => i,
    };
    let start = i + 6;
    let end = match find_bearer(h, start) {
        None => n,
        Some(j) => j,
    };
    let mut s = start;
    while s < end && is_ws_byte(h[s])
        invariant
            start <= s <= end <= n,
            n == h@.len(),
            trim_from(h@, start as int, end as int) == trim_from(h@, s as int, end as int),
        decreases end - s,
    {
        s += 1;
    }
    proof {
        assert(trim_from(h@, s as int, end as int) == s as int);
    }
    let mut e = end;
    while e > s && is_ws_byte(h[e - 1])
        invariant
            s <= e <= end <= n,
            n == h@.len(),
            trim_to(h@, s as int, end as int) == trim_to(h@, s as int, e as int),
        decreases e,
    {
        e -= 1;
    }
    proof {
        assert(trim_to(h@, s as int, e as int) == e as int);
    }
    Some(vstd::slice::slice_to_vec(vstd::slice::slice_subrange(h, s, e)))
}

impl Claims {
    /// Extracts the claims a request carries: nothing unless the header
    /// value is text that `HeaderValue::to_str` accepts and carries a
    /// bearer token; otherwise the token is verified under `key` and the
    /// outcome, good or bad, is handed back.
    pub fn extract_from_request(
        authorization: Option<&Vec<u8>>,
        key: &[u8],
        now: i64,
    ) -> (r: Option<Result<Claims, TokenError>>)
        ensures
            r is Some <==> (authorization is Some && is_header_text(authorization.unwrap()@)
                && bearer_token_of(authorization.unwrap()@) is Some),
            r is Some ==> parse_result_ok(
                bearer_token_of(authorization.unwrap()@).unwrap(),
                key@,
                now as int,
                r.unwrap(),
            ),
    {
        let h = match authorization {
            None => {
                return None;
            },
            Some(h) => h,
        };
        let n = h.len();
        let mut i: usize = 0;
        while i < n
            invariant
                0 <= i <= n,
                n == h@.len(),
                authorization is Some && authorization.unwrap()@ == h@,
                forall|j: int| 0 <= j < i ==> (32 <= #[trigger] h@[j] < 127 || h@[j] == 9),
            decreases n - i,
        {
            let b = h[i];
            if !(b >= 32 && b < 127 || b == 9) {
                proof {
                    assert(!is_header_text(h@)) by {
                        assert(!(32 <= h@[i as int] < 127 || h@[i as int] == 9));
                    }
                }
                return None;
            }
            i += 1;
        }
        let token = match bearer_token(h.as_slice()) {
            None => {
                return None;
            },
            Some(t) => t,
        };
        Some(Jwt::parse_token_bytes(token.as_slice(), key, now))
    }
}

/// Law of the round trip: a token issued at `now` verifies at `now` with
/// the same key and recovers the original user id, limit, and roles.  The
/// claim set that [`Jwt::generate`] signs is well formed, its subject and
/// user id are the user's id, its roles and limit are the given ones, and
/// `now` lies in its validity window — so [`Jwt::parse`], whose contract
/// promises success for every well-formed, fresh, correctly signed claim
/// set, returns exactly this claim set.
pub proof fn lemma_issue_verify_round_trip(
    user_id: Seq<char>,
    user_limit: int,
    roles: Seq<char>,
    jwt_lifetime: int,
    now: int,
)
    requires
        0 <= jwt_lifetime,
        i32::MIN <= user_limit <= i32::MAX,
        0 <= now <= 8000000000000,
        jwt_lifetime <= 1000000000,
        encode_utf8(user_id).len() < 10000000000,
        encode_utf8(roles).len() < 10000000000,
    ensures
        ({
            let c = issued_claims(user_id, user_limit, roles, jwt_lifetime, now);
            &&& c.wf()
            &&& c.sub == user_id
            &&& c.user_id == user_id
            &&& c.user_roles == roles
            &&& c.user_limit == user_limit
            &&& c.nbf <= now <= c.exp
        }),
{
    let c = issued_claims(user_id, user_limit, roles, jwt_lifetime, now);
    assert(c.exp == now + jwt_lifetime * 3600);
    assert(jwt_lifetime * 3600 >= 0) by (nonlinear_arith)
        requires
            jwt_lifetime >= 0,
    ;
}

/// The identity a verification outcome yields: a verified claim set, and
/// nothing otherwise.  A failed verification is recovered locally — it is
/// treated as no identity, never as a hard error, so resolution falls back
/// to the anonymous path.
pub fn identity_from_token(outcome: Option<Result<Claims, TokenError>>) -> (r: Option<Claims>)
    ensures
        r is Some <==> (outcome is Some && outcome.unwrap() is Ok),
        r is Some ==> r.unwrap() == outcome.unwrap().unwrap(),
{
    match outcome {
        Some(Ok(claims)) => Some(claims),
        _ => None,
    }
}

/// The two keys produce different signature texts for this claim set's
/// message — true of any two distinct keys short of an HMAC collision,
/// which the codec's tamper evidence presumes away — and the signature has
/// its nominal 86-byte width.
pub open spec fn keys_separate_on(c: ClaimsView, k1: Seq<u8>, k2: Seq<u8>) -> bool {
    &&& sig_of(b64url(payload_of(c)), k1).len() == 86
    &&& sig_of(b64url(payload_of(c)), k1) != sig_of(b64url(payload_of(c)), k2)
}

/// Law of key separation: a token issued under one key never carries a
/// valid signature under another key whose signature text differs, so
/// [`Jwt::parse`] — whose contract answers `SignatureInvalid` exactly for a
/// framed token with a wrong signature — always rejects it.
pub proof fn lemma_mismatched_key_rejected(c: ClaimsView, k1: Seq<u8>, k2: Seq<u8>)
    requires
        keys_separate_on(c, k1, k2),
    ensures
        framed(token_of(c, k1)),
        !signature_ok(token_of(c, k1), k2),
{
    let bp = b64url(payload_of(c));
    let tb = token_of(c, k1);
    assert(tb.len() == 87 + bp.len());
    assert(tb[86] == 46);
    assert(tb.subrange(0, 86) =~= sig_of(bp, k1));
    assert(tb.subrange(87, tb.len() as int) =~= bp);
}

} // verus!
