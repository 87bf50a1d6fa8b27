//! Decimal rendering and parsing of integers, as bytes.
//!
//! Counter values travel through the store and the token payload as decimal
//! ASCII bytes; quota headers carry the same rendering.  The spec functions
//! here pin the canonical rendering down and the executable functions are
//! proved against it.

use vstd::prelude::*;

verus! {

/// Decimal digits of `n`, most significant first, without a sign.
pub open spec fn dec_digits(n: nat) -> Seq<u8>
    decreases n,
{
    if n < 10 {
        seq![(48 + n) as u8]
    } else {
        dec_digits(n / 10).push((48 + n % 10) as u8)
    }
}

/// Canonical decimal rendering of an integer: optional minus sign, no
/// leading zeros.
pub open spec fn dec_bytes(n: int) -> Seq<u8> {
    if n < 0 {
        seq![45u8] + dec_digits((-n) as nat)
    } else {
        dec_digits(n as nat)
    }
}

/// All bytes of `s` are ASCII digits.
pub open spec fn is_digit_seq(s: Seq<u8>) -> bool {
    forall|i: int| 0 <= i < s.len() ==> 48 <= #[trigger] s[i] <= 57
}

/// Value of a digit sequence read most significant first.
pub open spec fn digits_val(s: Seq<u8>) -> int
    decreases s.len(),
{
    if s.len() == 0 {
        0
    } else {
        digits_val(s.drop_last()) * 10 + (s.last() - 48)
    }
}

/// `10^k`.
pub open spec fn pow10(k: nat) -> nat
    decreases k,
{
    if k == 0 {
        1
    } else {
        10 * pow10((k - 1) as nat)
    }
}

/// The digits of `n` are digits, start with a non-zero digit unless `n`
/// itself is a single digit, and carry the value `n`.
pub proof fn lemma_dec_digits_shape(n: nat)
    ensures
        dec_digits(n).len() >= 1,
        is_digit_seq(dec_digits(n)),
        digits_val(dec_digits(n)) == n,
        n >= 10 ==> dec_digits(n)[0] != 48,
        n >= 1 ==> dec_digits(n)[0] != 48,
    decreases n,
{
    if n < 10 {
        let s0 = seq![(48 + n) as u8];
        assert(dec_digits(n) =~= s0);
        assert(s0.drop_last() =~= Seq::<u8>::empty());
        assert(digits_val(Seq::<u8>::empty()) == 0);
        assert(digits_val(s0) == (s0.last() - 48));
    } else {
        lemma_dec_digits_shape(n / 10);
        let s = dec_digits(n);
        assert(s.drop_last() =~= dec_digits(n / 10));
        assert(s[0] == dec_digits(n / 10)[0]);
        assert(digits_val(s) == (n / 10) * 10 + n % 10);
        assert((n / 10) * 10 + n % 10 == n) by (nonlinear_arith);
    }
}

/// A digit sequence with a non-zero leading digit has a value of at least 1,
/// and its value is below `10^len`.
pub proof fn lemma_digits_val_bounds(s: Seq<u8>)
    requires
        is_digit_seq(s),
    ensures
        0 <= digits_val(s) < pow10(s.len() as nat),
        s.len() >= 1 && s[0] != 48 ==> digits_val(s) >= 1,
    decreases s.len(),
{
    if s.len() == 0 {
    } else {
        lemma_digits_val_bounds(s.drop_last());
        assert(s.drop_last().len() == s.len() - 1);
        let v = digits_val(s.drop_last());
        let d = (s.last() - 48) as int;
        assert(v < pow10((s.len() - 1) as nat));
        assert(v * 10 + d < pow10((s.len() - 1) as nat) * 10 && v * 10 + d >= 0) by (nonlinear_arith)
            requires
                0 <= v < pow10((s.len() - 1) as nat),
                0 <= d < 10,
        ;
        assert(pow10(s.len() as nat) == 10 * pow10((s.len() - 1) as nat));
        if s.len() >= 1 && s[0] != 48 {
            if s.len() == 1 {
                assert(digits_val(s) == (s.last() - 48));
            } else {
                assert(s.drop_last()[0] == s[0]);
                assert(v >= 1);
                assert(v * 10 + d >= 10) by (nonlinear_arith)
                    requires
                        v >= 1,
                        d >= 0,
                ;
            }
        }
    }
}

/// Appending digits never shrinks the value.
pub proof fn lemma_digits_val_monotone(s: Seq<u8>, t: Seq<u8>)
    requires
        is_digit_seq(s),
        is_digit_seq(t),
    ensures
        digits_val(s) <= digits_val(s + t),
    decreases t.len(),
{
    if t.len() == 0 {
        assert(s + t =~= s);
    } else {
        assert(is_digit_seq(t.drop_last())) by {
            assert(forall|i: int|
                0 <= i < t.drop_last().len() ==> #[trigger] t.drop_last()[i] == t[i]);
        }
        lemma_digits_val_monotone(s, t.drop_last());
        assert((s + t).drop_last() =~= s + t.drop_last());
        assert(is_digit_seq(s + t.drop_last())) by {
            assert(forall|i: int| 0 <= i < s.len() ==> #[trigger] (s + t.drop_last())[i] == s[i]);
            assert(forall|i: int|
                s.len() <= i < s.len() + t.drop_last().len() ==> #[trigger] (s
                    + t.drop_last())[i] == t.drop_last()[i - s.len()]);
        }
        lemma_digits_val_bounds(s + t.drop_last());
        let v = digits_val(s + t.drop_last());
        let w = digits_val(s + t);
        assert((s + t).last() == t.last());
        assert(w == v * 10 + ((s + t).last() - 48));
        assert(v * 10 >= v) by (nonlinear_arith)
            requires
                v >= 0,
        ;
    }
}

/// `10^19` written out, for bounding 19-digit numbers against the `i64`
/// range.
pub proof fn lemma_pow10_19()
    ensures
        pow10(19) == 10000000000000000000,
{
    reveal_with_fuel(pow10, 21);
}

/// `pow10` is monotone.
pub proof fn lemma_pow10_monotone(j: nat, k: nat)
    requires
        j <= k,
    ensures
        pow10(j) <= pow10(k),
    decreases k,
{
    if j < k {
        lemma_pow10_monotone(j, (k - 1) as nat);
        let p = pow10((k - 1) as nat);
        assert(10 * p >= p) by (nonlinear_arith)
            requires
                p >= 0,
        ;
    }
}

/// Appends the decimal digits of `n` to `out`.
pub fn push_dec_u64(n: u64, out: &mut Vec<u8>)
    ensures
        final(out)@ == old(out)@ + dec_digits(n as nat),
    decreases n,
{
    if n < 10 {
        out.push(48 + n as u8);
        assert(out@ =~= old(out)@ + dec_digits(n as nat));
    } else {
        push_dec_u64(n / 10, out);
        out.push(48 + (n % 10) as u8);
        assert(out@ =~= old(out)@ + dec_digits(n as nat));
    }
}

/// Appends the canonical decimal rendering of `n` to `out`.
pub fn push_dec_i64(n: i64, out: &mut Vec<u8>)
    ensures
        final(out)@ == old(out)@ + dec_bytes(n as int),
{
    if n < 0 {
        out.push(45);
        let mag: u64 = ((-(n as i128)) as u64);
        push_dec_u64(mag, out);
        assert(out@ =~= old(out)@ + dec_bytes(n as int));
    } else {
        push_dec_u64(n as u64, out);
    }
}

/// The canonical decimal rendering of `n`, as a fresh byte vector.
pub fn dec_i64(n: i64) -> (r: Vec<u8>)
    ensures
        r@ == dec_bytes(n as int),
{
    let mut out: Vec<u8> = Vec::new();
    push_dec_i64(n, &mut out);
    assert(out@ =~= dec_bytes(n as int));
    out
}

/// Shape of an integer as `str::parse` for a signed type accepts it: an
/// optional sign followed by one or more ASCII digits.
pub open spec fn int_text_shape(s: Seq<u8>) -> bool {
    if s.len() == 0 {
        false
    } else if s[0] == 43 || s[0] == 45 {
        s.len() >= 2 && is_digit_seq(s.subrange(1, s.len() as int))
    } else {
        is_digit_seq(s)
    }
}

/// Signed value of such a text.
pub open spec fn int_text_val(s: Seq<u8>) -> int {
    if s.len() > 0 && s[0] == 45 {
        -digits_val(s.subrange(1, s.len() as int))
    } else if s.len() > 0 && s[0] == 43 {
        digits_val(s.subrange(1, s.len() as int))
    } else {
        digits_val(s)
    }
}

/// What `str::parse::<i32>` returns on this text: the value when the shape
/// is right and the value fits, nothing otherwise.
pub open spec fn i32_from_text(s: Seq<u8>) -> Option<i32> {
    if int_text_shape(s) && i32::MIN <= int_text_val(s) <= i32::MAX {
        Some(int_text_val(s) as i32)
    } else {
        None
    }
}

/// Parses an `i32` with the acceptance of `str::parse::<i32>`: optional
/// sign, one or more digits, leading zeros allowed, overflow rejected.
pub fn parse_i32_text(b: &[u8]) -> (r: Option<i32>)
    ensures
        r == i32_from_text(b@),
{
    let ghost gb = b@;
    let n = b.len();
    if n == 0 {
        return None;
    }
    let signed = b[0] == 43 || b[0] == 45;
    let neg = b[0] == 45;
    let start: usize = if signed {
        1
    } else {
        0
    };
    if n == start {
        return None;
    }
    let ghost digits = gb.subrange(start as int, n as int);
    let mut i: usize = start;
    let mut val: u64 = 0;
    while i < n
        invariant
            start <= i <= n,
            n == gb.len(),
            gb == b@,
            start <= 1,
            signed ==> start == 1 && (gb[0] == 43 || gb[0] == 45),
            !signed ==> start == 0 && gb[0] != 43 && gb[0] != 45,
            neg <==> gb[0] == 45,
            digits == gb.subrange(start as int, n as int),
            is_digit_seq(gb.subrange(start as int, i as int)),
            val == digits_val(gb.subrange(start as int, i as int)),
            val <= 2147483648,
        decreases n - i,
    {
        let c = b[i];
        if c < 48 || c > 57 {
            proof {
                assert(!int_text_shape(gb)) by {
                    if int_text_shape(gb) {
                        if signed {
                            let ds = gb.subrange(1, n as int);
                            assert(ds[i - 1] == gb[i as int]);
                            assert(48 <= ds[i - 1] <= 57);
                        } else {
                            assert(gb.subrange(0, n as int) =~= gb);
                            assert(48 <= gb[i as int] <= 57);
                        }
                    }
                }
            }
            return None;
        }
        proof {
            let seen = gb.subrange(start as int, i as int);
            let seen2 = gb.subrange(start as int, i + 1 as int);
            assert(seen2 =~= seen.push(gb[i as int]));
            assert(seen2.drop_last() =~= seen);
            assert(digits_val(seen2) == digits_val(seen) * 10 + (gb[i as int] - 48));
        }
        val = val * 10 + ((c - 48) as u64);
        i += 1;
        if val > 2147483648 {
            proof {
                let seen = gb.subrange(start as int, i as int);
                let rest = gb.subrange(i as int, n as int);
                assert(digits =~= seen + rest);
                if int_text_shape(gb) {
                    assert(is_digit_seq(digits));
                    assert(is_digit_seq(seen)) by {
                        assert(forall|j: int|
                            0 <= j < seen.len() ==> #[trigger] seen[j] == digits[j]);
                    }
                    assert(is_digit_seq(rest)) by {
                        assert(forall|j: int|
                            0 <= j < rest.len() ==> #[trigger] rest[j] == digits[j + (i - start)]);
                    }
                    lemma_digits_val_monotone(seen, rest);
                    assert(digits_val(digits) > 2147483648);
                    if signed {
                        assert(gb.subrange(1, gb.len() as int) =~= digits);
                    } else {
                        assert(gb =~= digits);
                    }
                    assert(int_text_val(gb) == if neg {
                        -digits_val(digits)
                    } else {
                        digits_val(digits)
                    });
                    assert(!(i32::MIN <= int_text_val(gb) <= i32::MAX));
                }
                assert(i32_from_text(gb) is None);
            }
            return None;
        }
    }
    proof {
        assert(digits =~= gb.subrange(start as int, n as int));
        if signed {
            assert(gb.subrange(1, n as int) =~= digits);
        } else {
            assert(gb =~= digits);
        }
        assert(int_text_shape(gb));
        assert(int_text_val(gb) == if neg {
            -digits_val(digits)
        } else {
            digits_val(digits)
        });
    }
    if neg {
        let res: i32 = (-(val as i64)) as i32;
        Some(res)
    } else {
        if val > 2147483647 {
            return None;
        }
        Some(val as i32)
    }
}

/// Every byte of a decimal rendering is ASCII.
pub proof fn lemma_dec_bytes_ascii(n: int)
    ensures
        forall|i: int| 0 <= i < dec_bytes(n).len() ==> #[trigger] dec_bytes(n)[i] < 128,
{
    if n < 0 {
        lemma_dec_digits_shape((-n) as nat);
        assert forall|i: int| 0 <= i < dec_bytes(n).len() implies #[trigger] dec_bytes(n)[i]
            < 128 by {
            if i > 0 {
                assert(dec_bytes(n)[i] == dec_digits((-n) as nat)[i - 1]);
            }
        }
    } else {
        lemma_dec_digits_shape(n as nat);
    }
}

} // verus!
