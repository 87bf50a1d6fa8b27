//! Bridges between byte strings and `String`.
//!
//! The token codec and the store protocol work on bytes; the surrounding
//! service speaks `String`.  Decoding bytes back into characters goes
//! through one trusted item over `String::from_utf8`; everything else is
//! proved from vstd's UTF-8 model.

use vstd::prelude::*;
use vstd::utf8::decode_utf8;
use vstd::utf8::encode_utf8;
use vstd::utf8::valid_utf8;

use crate::digits::dec_bytes;
use crate::digits::dec_i64;
use crate::digits::lemma_dec_bytes_ascii;

verus! {

/// Relies on `String::from_utf8`: it succeeds exactly on valid UTF-8 input
/// and then returns the characters that the bytes encode.
#[verifier::external_body]
pub fn bytes_to_string(b: Vec<u8>) -> (r: Option<String>)
    ensures
        r is Some <==> valid_utf8(b@),
        r is Some ==> r.unwrap()@ == decode_utf8(b@),
{
    String::from_utf8(b).ok()
}

/// All bytes below 128.
pub open spec fn is_ascii_bytes(b: Seq<u8>) -> bool {
    forall|i: int| 0 <= i < b.len() ==> #[trigger] b[i] < 128
}

/// The characters an ASCII byte sequence decodes to: each byte, as a char.
pub open spec fn ascii_chars(b: Seq<u8>) -> Seq<char> {
    b.map(|_i: int, x: u8| x as char)
}

/// ASCII bytes are valid UTF-8 and decode byte for byte.
pub proof fn lemma_ascii_bytes_utf8(b: Seq<u8>)
    requires
        is_ascii_bytes(b),
    ensures
        valid_utf8(b),
        decode_utf8(b) == ascii_chars(b),
    decreases b.len(),
{
    if b.len() == 0 {
        assert(decode_utf8(b) =~= ascii_chars(b));
    } else {
        let b0 = b[0];
        assert(vstd::utf8::is_leading_byte_width_1(b0));
        assert(b0 & 0x7f == b0) by (bit_vector)
            requires
                b0 < 128,
        ;
        assert(vstd::utf8::decode_first_codepoint(b) == b0 as u32);
        assert(vstd::utf8::valid_first_scalar(b));
        let rest = vstd::utf8::pop_first_scalar(b);
        assert(rest =~= b.subrange(1, b.len() as int));
        assert(is_ascii_bytes(rest));
        lemma_ascii_bytes_utf8(rest);
        assert(valid_utf8(b));
        assert(decode_utf8(b) == seq![b0 as char] + decode_utf8(rest));
        assert(decode_utf8(b) =~= ascii_chars(b));
    }
}

/// The UTF-8 encoding of the characters an ASCII byte sequence decodes to
/// is the sequence itself, so a `String` made from ASCII bytes has exactly
/// those bytes again.
pub proof fn lemma_ascii_round_trip(b: Seq<u8>)
    requires
        is_ascii_bytes(b),
    ensures
        valid_utf8(b),
        encode_utf8(ascii_chars(b)) == b,
{
    lemma_ascii_bytes_utf8(b);
    vstd::utf8::decode_utf8_encode_utf8(b);
}

/// Turns ASCII bytes into the `String` of the same characters.
pub fn ascii_to_string(b: Vec<u8>) -> (r: String)
    requires
        is_ascii_bytes(b@),
    ensures
        r@ == ascii_chars(b@),
{
    proof {
        lemma_ascii_bytes_utf8(b@);
    }
    match bytes_to_string(b) {
        Some(s) => s,
        None => {
            proof {
                assert(false);
            }
            String::new()
        },
    }
}

/// The characters of the canonical decimal rendering of `n`.
pub open spec fn dec_chars(n: int) -> Seq<char> {
    ascii_chars(dec_bytes(n))
}

/// The canonical decimal rendering of `n`, as a `String`.
pub fn dec_string(n: i64) -> (r: String)
    ensures
        r@ == dec_chars(n as int),
{
    let b = dec_i64(n);
    proof {
        lemma_dec_bytes_ascii(n as int);
    }
    ascii_to_string(b)
}

} // verus!
