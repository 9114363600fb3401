//! Decimal integers: specification of digit strings and their values,
//! verified formatting of 64-bit integers, and the policy that classifies a
//! numeric token as unsigned, signed, or kept-as-text.
use vstd::prelude::*;

use crate::value::GNumber;

verus! {

pub open spec fn is_digit(b: u8) -> bool {
    0x30 <= b && b <= 0x39
}

pub open spec fn all_digits(s: Seq<u8>) -> bool {
    forall|i: int| 0 <= i < s.len() ==> is_digit(#[trigger] s[i])
}

/// Value of a digit string, most significant digit first.
pub open spec fn dec_val(s: Seq<u8>) -> nat
    decreases s.len(),
{
    if s.len() == 0 {
        0
    } else {
        (dec_val(s.drop_last()) * 10 + (s.last() - 0x30)) as nat
    }
}

/// Canonical decimal text of `n`: no sign, no leading zero (except `"0"`).
pub open spec fn dec_of(n: nat) -> Seq<u8>
    decreases n,
{
    if n < 10 {
        seq![(0x30 + n) as u8]
    } else {
        dec_of(n / 10).push((0x30 + n % 10) as u8)
    }
}

pub proof fn lemma_dec_of(n: nat)
    ensures
        dec_of(n).len() >= 1,
        all_digits(dec_of(n)),
        dec_val(dec_of(n)) == n,
        dec_of(n)[0] != 0x30 || n < 10,
    decreases n,
{
    if n < 10 {
        assert(dec_of(n).drop_last() =~= Seq::<u8>::empty());
        assert(dec_val(dec_of(n)) == (dec_val(Seq::<u8>::empty()) * 10 + ((0x30 + n) as u8
            - 0x30)) as nat);
    } else {
        lemma_dec_of(n / 10);
        let d = dec_of(n / 10);
        let whole = d.push((0x30 + n % 10) as u8);
        assert(whole.drop_last() =~= d);
        assert(dec_val(whole) == dec_val(d) * 10 + (n % 10));
        assert(n / 10 * 10 + n % 10 == n) by (nonlinear_arith);
        assert(whole[0] == d[0]);
        assert(d[0] != 0x30 || n / 10 < 10);
        if n / 10 < 10 {
            assert(n / 10 >= 1);
            assert(d[0] == 0x30 + n / 10);
        }
    }
}

/// First index at or after `i` that does not hold a decimal digit
/// (or the end of `s`).
pub open spec fn digits_end(s: Seq<u8>, i: int) -> int
    decreases s.len() - i,
{
    if i < 0 || i >= s.len() || !is_digit(s[i]) {
        i
    } else {
        digits_end(s, i + 1)
    }
}

/// Everything from `i` up to `digits_end` is a digit, and the scan stops
/// at a non-digit (or the end).
pub proof fn lemma_digits_end(s: Seq<u8>, i: int)
    requires
        0 <= i <= s.len(),
    ensures
        i <= digits_end(s, i) <= s.len(),
        forall|j: int| i <= j < digits_end(s, i) ==> is_digit(#[trigger] s[j]),
        digits_end(s, i) < s.len() ==> !is_digit(s[digits_end(s, i)]),
    decreases s.len() - i,
{
    if i < s.len() && is_digit(s[i]) {
        lemma_digits_end(s, i + 1);
    }
}

/// End of the integer part of a number token starting at `i`:
/// a single `0`, or a nonzero digit followed by digits.
pub open spec fn int_end(s: Seq<u8>, i: int) -> Option<int> {
    if 0 <= i < s.len() && s[i] == 0x30 {
        Some(i + 1)
    } else if 0 <= i < s.len() && is_digit(s[i]) {
        Some(digits_end(s, i + 1))
    } else {
        None
    }
}

/// End of the optional fraction part at `i` (`.` then one or more digits).
pub open spec fn frac_end(s: Seq<u8>, i: int) -> Option<int> {
    if 0 <= i < s.len() && s[i] == 0x2E {
        if i + 1 < s.len() && is_digit(s[i + 1]) {
            Some(digits_end(s, i + 1))
        } else {
            None
        }
    } else {
        Some(i)
    }
}

/// End of the optional exponent part at `i`
/// (`e` or `E`, an optional sign, then one or more digits).
pub open spec fn exp_end(s: Seq<u8>, i: int) -> Option<int> {
    if 0 <= i < s.len() && (s[i] == 0x65 || s[i] == 0x45) {
        let j = if i + 1 < s.len() && (s[i + 1] == 0x2B || s[i + 1] == 0x2D) {
            i + 2
        } else {
            i + 1
        };
        if j < s.len() && is_digit(s[j]) {
            Some(digits_end(s, j))
        } else {
            None
        }
    } else {
        Some(i)
    }
}

/// End of a complete JSON number token starting at `i`, or `None` if the
/// bytes at `i` do not start one.
pub open spec fn num_end(s: Seq<u8>, i: int) -> Option<int> {
    let i1 = if 0 <= i < s.len() && s[i] == 0x2D {
        i + 1
    } else {
        i
    };
    match int_end(s, i1) {
        Some(i2) => match frac_end(s, i2) {
            Some(i3) => exp_end(s, i3),
            None => None,
        },
        None => None,
    }
}

/// `t` is exactly one JSON number token.
pub open spec fn is_num_token(t: Seq<u8>) -> bool {
    num_end(t, 0) == Some(t.len() as int)
}

/// A digit scan that stays inside `[off, lim)` of `s` runs identically
/// inside the subrange `s[off..lim]`.
pub proof fn lemma_digits_end_sub(s: Seq<u8>, off: int, lim: int, x: int)
    requires
        0 <= off <= x <= lim <= s.len(),
        digits_end(s, x) <= lim,
    ensures
        digits_end(s.subrange(off, lim), x - off) == digits_end(s, x) - off,
    decreases lim - x,
{
    let sub = s.subrange(off, lim);
    lemma_digits_end(s, x);
    if x < lim {
        assert(sub[x - off] == s[x]);
        if is_digit(s[x]) {
            lemma_digits_end_sub(s, off, lim, x + 1);
        }
    }
}

/// A number token extracted from its context is itself a complete
/// number token.
pub proof fn lemma_num_token(s: Seq<u8>, i: int, end: int)
    requires
        0 <= i,
        end <= s.len(),
        num_end(s, i) == Some(end),
    ensures
        end > i,
        is_num_token(s.subrange(i, end)),
{
    let t = s.subrange(i, end);
    let i1 = if 0 <= i < s.len() && s[i] == 0x2D {
        i + 1
    } else {
        i
    };
    let i2 = int_end(s, i1)->Some_0;
    let i3 = frac_end(s, i2)->Some_0;
    lemma_digits_end(s, i1 + 1);
    assert(i2 > i1);
    if 0 <= i2 < s.len() && s[i2] == 0x2E {
        lemma_digits_end(s, i2 + 1);
        assert(i3 >= i2 + 2);
    }
    if 0 <= i3 < s.len() && (s[i3] == 0x65 || s[i3] == 0x45) {
        let j = if i3 + 1 < s.len() && (s[i3 + 1] == 0x2B || s[i3 + 1] == 0x2D) {
            i3 + 2
        } else {
            i3 + 1
        };
        lemma_digits_end(s, j);
        assert(end >= j + 1);
    }
    assert(end > i);
    assert(i < s.len());
    assert(t[0] == s[i]);
    // The scanner over `t` visits the same components, shifted by `i`.
    let t1 = if 0 <= 0 < t.len() && t[0] == 0x2D {
        1int
    } else {
        0int
    };
    assert(t1 == i1 - i);
    // Integer part.
    assert(t[i1 - i] == s[i1]);
    if s[i1] == 0x30 {
        assert(int_end(t, i1 - i) == Some(i2 - i));
    } else {
        lemma_digits_end_sub(s, i, end, i1 + 1);
        assert(int_end(t, i1 - i) == Some(i2 - i));
    }
    // Fraction part.
    if 0 <= i2 < s.len() && s[i2] == 0x2E {
        assert(t[i2 - i] == s[i2]);
        assert(t[i2 + 1 - i] == s[i2 + 1]);
        lemma_digits_end_sub(s, i, end, i2 + 1);
        assert(frac_end(t, i2 - i) == Some(i3 - i));
    } else {
        if i2 < end {
            assert(t[i2 - i] == s[i2]);
        }
        assert(frac_end(t, i2 - i) == Some(i3 - i));
    }
    // Exponent part.
    if 0 <= i3 < s.len() && (s[i3] == 0x65 || s[i3] == 0x45) {
        assert(t[i3 - i] == s[i3]);
        let j = if i3 + 1 < s.len() && (s[i3 + 1] == 0x2B || s[i3 + 1] == 0x2D) {
            i3 + 2
        } else {
            i3 + 1
        };
        let tj = if i3 + 1 - i < t.len() && (t[i3 + 1 - i] == 0x2B || t[i3 + 1 - i] == 0x2D) {
            i3 + 2 - i
        } else {
            i3 + 1 - i
        };
        assert(i3 + 1 < end);
        assert(t[i3 + 1 - i] == s[i3 + 1]);
        assert(tj == j - i);
        assert(t[j - i] == s[j]);
        lemma_digits_end_sub(s, i, end, j);
        assert(exp_end(t, i3 - i) == Some(end - i));
    } else {
        if i3 < end {
            assert(t[i3 - i] == s[i3]);
        }
        assert(exp_end(t, i3 - i) == Some(end - i));
    }
    assert(num_end(t, 0) == Some(t.len() as int));
}

/// The digit-classification policy for an integer-shaped token (no
/// fraction, no exponent): `ds` are the digits, `neg` says whether the
/// token carries a leading minus, `t` is the whole token text.
pub open spec fn classify_int(t: Seq<u8>, neg: bool, ds: Seq<u8>) -> GNumber {
    let v = dec_val(ds);
    if !neg {
        if v <= u64::MAX {
            GNumber::Unsigned(v as u64)
        } else {
            GNumber::Decimal(t)
        }
    } else {
        if 1 <= v <= 0x8000_0000_0000_0000 {
            GNumber::Signed((-(v as int)) as i64)
        } else {
            GNumber::Decimal(t)
        }
    }
}

/// How a whole number token decodes: exact unsigned or signed 64-bit
/// integer where it fits, otherwise the token text itself.
pub open spec fn classify_num(t: Seq<u8>) -> GNumber {
    let neg = t.len() > 0 && t[0] == 0x2D;
    let ds = if neg {
        t.skip(1)
    } else {
        t
    };
    if ds.len() > 0 && all_digits(ds) {
        classify_int(t, neg, ds)
    } else {
        GNumber::Decimal(t)
    }
}

/// Formats `x` as canonical decimal text.
pub fn fmt_u64(x: u64) -> (r: Vec<u8>)
    ensures
        r@ == dec_of(x as nat),
    decreases x,
{
    if x < 10 {
        let mut v: Vec<u8> = Vec::new();
        v.push(0x30 + (x as u8));
        proof {
            assert(v@ =~= dec_of(x as nat));
        }
        v
    } else {
        let mut v = fmt_u64(x / 10);
        v.push(0x30 + ((x % 10) as u8));
        proof {
            assert(v@ =~= dec_of(x as nat));
        }
        v
    }
}

/// Magnitude of a negative `i64`, as a `u64`.
pub fn neg_magnitude(x: i64) -> (r: u64)
    requires
        x < 0,
    ensures
        r == -(x as int),
{
    if x == i64::MIN {
        0x8000_0000_0000_0000u64
    } else {
        (-x) as u64
    }
}

/// An IEEE double bit pattern is finite exactly when its exponent field
/// is not all ones (all-ones encodes an infinity or a NaN).
pub open spec fn f64_bits_finite(bits: u64) -> bool {
    (bits >> 52) & 0x7FF != 0x7FF
}

/// Classifies an IEEE double bit pattern. A value that is not finite has
/// no JSON number form and must become `null`.
pub fn is_finite_f64_bits(bits: u64) -> (r: bool)
    ensures
        r == f64_bits_finite(bits),
{
    (bits >> 52) & 0x7FF != 0x7FF
}

} // verus!
