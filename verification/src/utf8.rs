//! UTF-8 well-formedness: a byte-level specification and a verified
//! validator. The decoder only hands out string leaves whose bytes satisfy
//! [`is_utf8`].
use vstd::prelude::*;

verus! {

/// `b` is a UTF-8 continuation byte (`0b10xx_xxxx`).
pub open spec fn is_cont(b: u8) -> bool {
    0x80 <= b && b <= 0xBF
}

/// Length of the well-formed UTF-8 sequence starting at index `i` of `s`,
/// or `None` if the bytes at `i` do not start one. Overlong forms,
/// surrogate code points and values above U+10FFFF are rejected.
pub open spec fn utf8_step(s: Seq<u8>, i: int) -> Option<int> {
    let b0 = s[i];
    if b0 < 0x80 {
        Some(1)
    } else if 0xC2 <= b0 && b0 <= 0xDF {
        if i + 2 <= s.len() && is_cont(s[i + 1]) {
            Some(2)
        } else {
            None
        }
    } else if b0 == 0xE0 {
        if i + 3 <= s.len() && 0xA0 <= s[i + 1] && s[i + 1] <= 0xBF && is_cont(s[i + 2]) {
            Some(3)
        } else {
            None
        }
    } else if (0xE1 <= b0 && b0 <= 0xEC) || b0 == 0xEE || b0 == 0xEF {
        if i + 3 <= s.len() && is_cont(s[i + 1]) && is_cont(s[i + 2]) {
            Some(3)
        } else {
            None
        }
    } else if b0 == 0xED {
        if i + 3 <= s.len() && 0x80 <= s[i + 1] && s[i + 1] <= 0x9F && is_cont(s[i + 2]) {
            Some(3)
        } else {
            None
        }
    } else if b0 == 0xF0 {
        if i + 4 <= s.len() && 0x90 <= s[i + 1] && s[i + 1] <= 0xBF && is_cont(s[i + 2]) && is_cont(
            s[i + 3],
        ) {
            Some(4)
        } else {
            None
        }
    } else if 0xF1 <= b0 && b0 <= 0xF3 {
        if i + 4 <= s.len() && is_cont(s[i + 1]) && is_cont(s[i + 2]) && is_cont(s[i + 3]) {
            Some(4)
        } else {
            None
        }
    } else if b0 == 0xF4 {
        if i + 4 <= s.len() && 0x80 <= s[i + 1] && s[i + 1] <= 0x8F && is_cont(s[i + 2]) && is_cont(
            s[i + 3],
        ) {
            Some(4)
        } else {
            None
        }
    } else {
        None
    }
}

/// The bytes of `s` from `i` on are a well-formed UTF-8 sequence.
pub open spec fn is_utf8_from(s: Seq<u8>, i: int) -> bool
    decreases s.len() - i,
{
    if i >= s.len() {
        true
    } else {
        match utf8_step(s, i) {
            Some(n) => is_utf8_from(s, i + n),
            None => false,
        }
    }
}

/// `s` is well-formed UTF-8.
pub open spec fn is_utf8(s: Seq<u8>) -> bool {
    is_utf8_from(s, 0)
}

/// Checks whether `s[from..to]` is well-formed UTF-8.
pub fn is_utf8_range(s: &[u8], from: usize, to: usize) -> (r: bool)
    requires
        from <= to <= s@.len(),
    ensures
        r == is_utf8(s@.subrange(from as int, to as int)),
{
    let ghost sub = s@.subrange(from as int, to as int);
    let n: usize = to - from;
    let mut i: usize = 0;
    loop
        invariant
            i <= n,
            n == to - from,
            from <= to <= s@.len(),
            sub == s@.subrange(from as int, to as int),
            is_utf8(sub) == is_utf8_from(sub, i as int),
        decreases n - i,
    {
        if i >= n {
            return true;
        }
        let b0 = s[from + i];
        assert(sub[i as int] == b0);
        if b0 < 0x80 {
            i = i + 1;
        } else if 0xC2 <= b0 && b0 <= 0xDF {
            if n - i >= 2 && is_cont_byte(s[from + i + 1]) {
                assert(sub[i + 1] == s@[from + i + 1]);
                i = i + 2;
            } else {
                return false;
            }
        } else if b0 == 0xE0 {
            if n - i >= 3 && 0xA0 <= s[from + i + 1] && s[from + i + 1] <= 0xBF && is_cont_byte(
                s[from + i + 2],
            ) {
                assert(sub[i + 1] == s@[from + i + 1]);
                assert(sub[i + 2] == s@[from + i + 2]);
                i = i + 3;
            } else {
                return false;
            }
        } else if (0xE1 <= b0 && b0 <= 0xEC) || b0 == 0xEE || b0 == 0xEF {
            if n - i >= 3 && is_cont_byte(s[from + i + 1]) && is_cont_byte(s[from + i + 2]) {
                assert(sub[i + 1] == s@[from + i + 1]);
                assert(sub[i + 2] == s@[from + i + 2]);
                i = i + 3;
            } else {
                return false;
            }
        } else if b0 == 0xED {
            if n - i >= 3 && 0x80 <= s[from + i + 1] && s[from + i + 1] <= 0x9F && is_cont_byte(
                s[from + i + 2],
            ) {
                assert(sub[i + 1] == s@[from + i + 1]);
                assert(sub[i + 2] == s@[from + i + 2]);
                i = i + 3;
            } else {
                return false;
            }
        } else if b0 == 0xF0 {
            if n - i >= 4 && 0x90 <= s[from + i + 1] && s[from + i + 1] <= 0xBF && is_cont_byte(
                s[from + i + 2],
            ) && is_cont_byte(s[from + i + 3]) {
                assert(sub[i + 1] == s@[from + i + 1]);
                assert(sub[i + 2] == s@[from + i + 2]);
                assert(sub[i + 3] == s@[from + i + 3]);
                i = i + 4;
            } else {
                return false;
            }
        } else if 0xF1 <= b0 && b0 <= 0xF3 {
            if n - i >= 4 && is_cont_byte(s[from + i + 1]) && is_cont_byte(s[from + i + 2])
                && is_cont_byte(s[from + i + 3]) {
                assert(sub[i + 1] == s@[from + i + 1]);
                assert(sub[i + 2] == s@[from + i + 2]);
                assert(sub[i + 3] == s@[from + i + 3]);
                i = i + 4;
            } else {
                return false;
            }
        } else if b0 == 0xF4 {
            if n - i >= 4 && 0x80 <= s[from + i + 1] && s[from + i + 1] <= 0x8F && is_cont_byte(
                s[from + i + 2],
            ) && is_cont_byte(s[from + i + 3]) {
                assert(sub[i + 1] == s@[from + i + 1]);
                assert(sub[i + 2] == s@[from + i + 2]);
                assert(sub[i + 3] == s@[from + i + 3]);
                i = i + 4;
            } else {
                return false;
            }
        } else {
            return false;
        }
    }
}

/// Checks whether all of `s` is well-formed UTF-8.
pub fn is_utf8_bytes(s: &Vec<u8>) -> (r: bool)
    ensures
        r == is_utf8(s@),
{
    let res = is_utf8_range(s.as_slice(), 0, s.len());
    proof {
        assert(s@.subrange(0, s@.len() as int) =~= s@);
    }
    res
}

fn is_cont_byte(b: u8) -> (r: bool)
    ensures
        r == is_cont(b),
{
    0x80 <= b && b <= 0xBF
}

} // verus!
