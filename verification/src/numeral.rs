//! Decimal number text: the plain base-ten rendering of integers used in
//! SQL literals, its zero-padded form, and proofs that reading the digits
//! back recovers the number.

use vstd::prelude::*;

verus! {

/// The decimal digits of `n`, most significant first, as ASCII bytes.
/// Zero is rendered as a single `0`; there are never leading zeros.
pub open spec fn dec_digits(n: nat) -> Seq<u8>
    decreases n,
{
    if n < 10 {
        seq![(48 + n) as u8]
    } else {
        dec_digits(n / 10).push((48 + n % 10) as u8)
    }
}

/// The decimal rendering of a signed number: a minus sign in front of the
/// digits of the magnitude when negative.
pub open spec fn dec_signed(v: int) -> Seq<u8> {
    if v < 0 {
        seq![45u8] + dec_digits((-v) as nat)
    } else {
        dec_digits(v as nat)
    }
}

/// `k` ASCII zero bytes.
pub open spec fn zeros(k: nat) -> Seq<u8> {
    Seq::new(k, |i: int| 48u8)
}

/// The digits of `n`, left-padded with zeros to at least `w` bytes.
pub open spec fn dec_padded(n: nat, w: nat) -> Seq<u8> {
    if dec_digits(n).len() >= w {
        dec_digits(n)
    } else {
        zeros((w - dec_digits(n).len()) as nat) + dec_digits(n)
    }
}

/// The number a run of ASCII digits denotes, read in base ten.
pub open spec fn dec_value(s: Seq<u8>) -> int
    decreases s.len(),
{
    if s.len() == 0 {
        0
    } else {
        dec_value(s.drop_last()) * 10 + (s.last() - 48)
    }
}

/// Renders `n` in decimal.
pub fn u64_to_decimal(n: u64) -> (r: Vec<u8>)
    ensures
        r@ == dec_digits(n as nat),
    decreases n,
{
    if n < 10 {
        let mut r: Vec<u8> = Vec::new();
        r.push(48 + n as u8);
        proof {
            assert(r@ =~= dec_digits(n as nat));
        }
        r
    } else {
        let mut r = u64_to_decimal(n / 10);
        r.push(48 + (n % 10) as u8);
        r
    }
}

/// Renders `v` in decimal, with a leading minus sign when negative.
pub fn i64_to_decimal(v: i64) -> (r: Vec<u8>)
    ensures
        r@ == dec_signed(v as int),
{
    if v >= 0 {
        u64_to_decimal(v as u64)
    } else {
        // -1 - v lies in 0 ..= i64::MAX, so the magnitude -v fits in u64
        // even when v is i64::MIN.
        let mag: u64 = ((-1 - v) as u64) + 1;
        assert(mag == (-(v as int)) as nat);
        let mut r: Vec<u8> = Vec::new();
        r.push(45);
        let digits = u64_to_decimal(mag);
        r.extend_from_slice(digits.as_slice());
        proof {
            assert(r@ =~= dec_signed(v as int));
        }
        r
    }
}

/// Renders `n` in decimal, zero-padded to at least `w` bytes.
pub fn u64_to_decimal_padded(n: u64, w: usize) -> (r: Vec<u8>)
    ensures
        r@ == dec_padded(n as nat, w as nat),
{
    let digits = u64_to_decimal(n);
    if digits.len() >= w {
        digits
    } else {
        let pad = w - digits.len();
        let mut r: Vec<u8> = Vec::new();
        let mut k: usize = 0;
        while k < pad
            invariant
                k <= pad,
                r@ =~= zeros(k as nat),
            decreases pad - k,
        {
            r.push(48);
            proof {
                assert(r@ =~= zeros((k + 1) as nat));
            }
            k = k + 1;
        }
        r.extend_from_slice(digits.as_slice());
        proof {
            assert(r@ =~= dec_padded(n as nat, w as nat));
        }
        r
    }
}

/// Every byte of a decimal rendering is an ASCII digit.
pub proof fn lemma_dec_digits_are_digits(n: nat)
    ensures
        dec_digits(n).len() > 0,
        forall|i: int| 0 <= i < dec_digits(n).len() ==> 48 <= #[trigger] dec_digits(n)[i] <= 57,
    decreases n,
{
    if n >= 10 {
        lemma_dec_digits_are_digits(n / 10);
    }
}

/// Reading the decimal rendering back in base ten recovers the number.
pub proof fn lemma_dec_value_of_digits(n: nat)
    ensures
        dec_value(dec_digits(n)) == n,
    decreases n,
{
    if n < 10 {
        let s = dec_digits(n);
        assert(s.drop_last().len() == 0);
        assert(dec_value(s.drop_last()) == 0);
        assert(s.last() == (48 + n) as u8);
    } else {
        lemma_dec_value_of_digits(n / 10);
        let s = dec_digits(n);
        assert(s.drop_last() == dec_digits(n / 10));
        assert(dec_value(s) == (n / 10) * 10 + n % 10);
        assert((n / 10) * 10 + n % 10 == n) by (nonlinear_arith);
    }
}

/// Leading zeros do not change the number a digit run denotes.
pub proof fn lemma_dec_value_leading_zeros(k: nat, t: Seq<u8>)
    ensures
        dec_value(zeros(k) + t) == dec_value(t),
    decreases t.len(),
{
    if t.len() == 0 {
        assert(zeros(k) + t =~= zeros(k));
        lemma_dec_value_all_zeros(k);
    } else {
        assert((zeros(k) + t).drop_last() =~= zeros(k) + t.drop_last());
        lemma_dec_value_leading_zeros(k, t.drop_last());
        assert((zeros(k) + t).last() == t.last());
    }
}

/// A run of zeros denotes zero.
proof fn lemma_dec_value_all_zeros(k: nat)
    ensures
        dec_value(zeros(k)) == 0,
    decreases k,
{
    if k > 0 {
        assert(zeros(k).drop_last() =~= zeros((k - 1) as nat));
        lemma_dec_value_all_zeros((k - 1) as nat);
    }
}

/// Holds when every byte of `s` is an ASCII digit.
pub open spec fn all_digits(s: Seq<u8>) -> bool {
    forall|i: int| 0 <= i < s.len() ==> 48 <= #[trigger] s[i] <= 57
}

/// Ten to the power `k`.
pub open spec fn pow10(k: nat) -> nat
    decreases k,
{
    if k == 0 {
        1
    } else {
        10 * pow10((k - 1) as nat)
    }
}

/// A number below ten to the `k` needs at most `k` decimal digits.
pub proof fn lemma_dec_digits_len(n: nat, k: nat)
    requires
        k >= 1,
        n < pow10(k),
    ensures
        dec_digits(n).len() <= k,
    decreases n,
{
    if n < 10 {
    } else {
        if k == 1 {
            assert(pow10(0) == 1);
            assert(pow10(1) == 10);
            assert(false);
        }
        let p = pow10((k - 1) as nat);
        assert(pow10(k) == 10 * p);
        assert(n / 10 < p) by (nonlinear_arith)
            requires
                n < 10 * p,
                p >= 1,
        ;
        lemma_dec_digits_len(n / 10, (k - 1) as nat);
    }
}

/// A number below ten to the `k`, padded to `k`, is exactly `k` digits.
pub proof fn lemma_dec_padded_exact(n: nat, k: nat)
    requires
        k >= 1,
        n < pow10(k),
    ensures
        dec_padded(n, k).len() == k,
        dec_value(dec_padded(n, k)) == n,
        all_digits(dec_padded(n, k)),
{
    lemma_dec_digits_len(n, k);
    lemma_dec_padded(n, k);
}

/// Reading a zero-padded rendering back recovers the number, and the
/// padded text is all digits and at least `w` long.
pub proof fn lemma_dec_padded(n: nat, w: nat)
    ensures
        dec_value(dec_padded(n, w)) == n,
        dec_padded(n, w).len() >= w,
        dec_padded(n, w).len() == if dec_digits(n).len() >= w {
            dec_digits(n).len()
        } else {
            w
        },
        forall|i: int| 0 <= i < dec_padded(n, w).len() ==> 48 <= #[trigger] dec_padded(n, w)[i] <= 57,
{
    lemma_dec_digits_are_digits(n);
    lemma_dec_value_of_digits(n);
    if dec_digits(n).len() < w {
        lemma_dec_value_leading_zeros((w - dec_digits(n).len()) as nat, dec_digits(n));
    }
}

} // verus!
