//! The JSON decoder: a specification-level recursive-descent parser over
//! the input bytes, and (further below) the executable decoder proved to
//! return exactly what the specification parser says.
//!
//! String tokens without escape sequences become borrowed [`Span`]s into
//! the input (zero-copy); tokens with escapes are unescaped into owned
//! bytes. Objects are built with last-write-wins on duplicate keys, kept
//! sorted by key bytes. Numbers follow the classification in
//! [`crate::num::classify_num`].
use vstd::prelude::*;

use crate::num::{
    all_digits, classify_int, classify_num, dec_val, digits_end, exp_end, frac_end, int_end,
    is_digit, is_num_token, lemma_digits_end, num_end,
};
use crate::value::Number;
use crate::utf8::{is_utf8, is_utf8_bytes, is_utf8_range};
use crate::value::{
    gtext_bytes, lex_lt, GNumber, GText, GValue, Span, Text, Value,
};

verus! {

/// Why a decode failed.
#[derive(Clone, Copy, PartialEq, Eq, Structural, Debug)]
pub enum ErrorKind {
    /// Input ended inside a value.
    UnexpectedEnd,
    /// The byte at `pos` cannot start a value.
    ExpectedValue,
    /// A malformed number token.
    InvalidNumber,
    /// String content is not well-formed UTF-8.
    InvalidUtf8,
    /// A malformed escape sequence (including lone surrogates).
    InvalidEscape,
    /// An unescaped control byte inside a string literal.
    ControlChar,
    /// An object key must be a string literal.
    ExpectedString,
    /// A `:` must follow an object key.
    ExpectedColon,
    /// A `,` or closing bracket must follow an element or entry.
    ExpectedCommaOrEnd,
    /// Nesting beyond the recursion limit.
    TooDeep,
    /// Bytes other than whitespace follow the document.
    TrailingData,
}

/// A decode failure, with the byte position it was detected at.
#[derive(Clone, Copy, PartialEq, Eq, Structural, Debug)]
pub struct DecodeError {
    pub kind: ErrorKind,
    pub pos: usize,
}

/// Ghost outcome of a specification-level parse step: the parsed item and
/// the position after it, or the failure.
#[verifier::ext_equal]
pub enum PR<T> {
    POk(T, int),
    PFail(DecodeError),
}

/// Nesting limit for arrays and objects, as in common JSON readers.
pub const MAX_DEPTH: u32 = 128;

pub open spec fn is_ws(b: u8) -> bool {
    b == 0x20 || b == 0x09 || b == 0x0A || b == 0x0D
}

/// First index at or after `i` holding a non-whitespace byte (or the end).
pub open spec fn skip_ws(s: Seq<u8>, i: int) -> int
    decreases s.len() - i,
{
    if i < 0 || i >= s.len() || !is_ws(s[i]) {
        i
    } else {
        skip_ws(s, i + 1)
    }
}

pub open spec fn hex_digit_val(b: u8) -> Option<int> {
    if 0x30 <= b && b <= 0x39 {
        Some(b - 0x30)
    } else if 0x41 <= b && b <= 0x46 {
        Some(b - 0x41 + 10)
    } else if 0x61 <= b && b <= 0x66 {
        Some(b - 0x61 + 10)
    } else {
        None
    }
}

/// The four bytes at `j` are hex digits.
pub open spec fn is_hex4(s: Seq<u8>, j: int) -> bool {
    &&& j + 4 <= s.len()
    &&& hex_digit_val(s[j]) is Some
    &&& hex_digit_val(s[j + 1]) is Some
    &&& hex_digit_val(s[j + 2]) is Some
    &&& hex_digit_val(s[j + 3]) is Some
}

pub open spec fn hex4_val(s: Seq<u8>, j: int) -> int {
    hex_digit_val(s[j])->Some_0 * 0x1000 + hex_digit_val(s[j + 1])->Some_0 * 0x100 + hex_digit_val(
        s[j + 2],
    )->Some_0 * 0x10 + hex_digit_val(s[j + 3])->Some_0
}

/// UTF-8 encoding of the scalar value `cp`.
pub open spec fn utf8_enc(cp: int) -> Seq<u8> {
    if cp < 0x80 {
        seq![cp as u8]
    } else if cp < 0x800 {
        seq![(0xC0 + cp / 0x40) as u8, (0x80 + cp % 0x40) as u8]
    } else if cp < 0x10000 {
        seq![
            (0xE0 + cp / 0x1000) as u8,
            (0x80 + (cp / 0x40) % 0x40) as u8,
            (0x80 + cp % 0x40) as u8,
        ]
    } else {
        seq![
            (0xF0 + cp / 0x40000) as u8,
            (0x80 + (cp / 0x1000) % 0x40) as u8,
            (0x80 + (cp / 0x40) % 0x40) as u8,
            (0x80 + cp % 0x40) as u8,
        ]
    }
}

/// First index at or after `j` that ends a raw string run: a quote, a
/// backslash, a control byte, or the end of input.
pub open spec fn raw_end(s: Seq<u8>, j: int) -> int
    decreases s.len() - j,
{
    if j < 0 || j >= s.len() || s[j] == 0x22 || s[j] == 0x5C || s[j] < 0x20 {
        j
    } else {
        raw_end(s, j + 1)
    }
}

/// Unescapes string content starting at `j` (just after the opening
/// quote), accumulating output bytes in `acc`; stops after the closing
/// quote. Surrogate pairs combine; lone surrogates fail.
pub open spec fn unesc(s: Seq<u8>, j: int, acc: Seq<u8>) -> PR<Seq<u8>>
    decreases s.len() - j,
{
    if j < 0 || j >= s.len() {
        PR::PFail(DecodeError { kind: ErrorKind::UnexpectedEnd, pos: s.len() as usize })
    } else if s[j] == 0x22 {
        PR::POk(acc, j + 1)
    } else if s[j] == 0x5C {
        if j + 1 >= s.len() {
            PR::PFail(DecodeError { kind: ErrorKind::UnexpectedEnd, pos: s.len() as usize })
        } else {
            let e = s[j + 1];
            if e == 0x22 {
                unesc(s, j + 2, acc.push(0x22))
            } else if e == 0x5C {
                unesc(s, j + 2, acc.push(0x5C))
            } else if e == 0x2F {
                unesc(s, j + 2, acc.push(0x2F))
            } else if e == 0x62 {
                unesc(s, j + 2, acc.push(0x08))
            } else if e == 0x66 {
                unesc(s, j + 2, acc.push(0x0C))
            } else if e == 0x6E {
                unesc(s, j + 2, acc.push(0x0A))
            } else if e == 0x72 {
                unesc(s, j + 2, acc.push(0x0D))
            } else if e == 0x74 {
                unesc(s, j + 2, acc.push(0x09))
            } else if e == 0x75 {
                if !is_hex4(s, j + 2) {
                    PR::PFail(DecodeError { kind: ErrorKind::InvalidEscape, pos: j as usize })
                } else {
                    let cp = hex4_val(s, j + 2);
                    if 0xD800 <= cp && cp < 0xDC00 {
                        if j + 12 <= s.len() && s[j + 6] == 0x5C && s[j + 7] == 0x75 && is_hex4(
                            s,
                            j + 8,
                        ) {
                            let cp2 = hex4_val(s, j + 8);
                            if 0xDC00 <= cp2 && cp2 < 0xE000 {
                                unesc(
                                    s,
                                    j + 12,
                                    acc + utf8_enc(
                                        0x10000 + (cp - 0xD800) * 0x400 + (cp2 - 0xDC00),
                                    ),
                                )
                            } else {
                                PR::PFail(
                                    DecodeError { kind: ErrorKind::InvalidEscape, pos: j as usize },
                                )
                            }
                        } else {
                            PR::PFail(
                                DecodeError { kind: ErrorKind::InvalidEscape, pos: j as usize },
                            )
                        }
                    } else if 0xDC00 <= cp && cp < 0xE000 {
                        PR::PFail(DecodeError { kind: ErrorKind::InvalidEscape, pos: j as usize })
                    } else {
                        unesc(s, j + 6, acc + utf8_enc(cp))
                    }
                }
            } else {
                PR::PFail(DecodeError { kind: ErrorKind::InvalidEscape, pos: j as usize })
            }
        }
    } else if s[j] < 0x20 {
        PR::PFail(DecodeError { kind: ErrorKind::ControlChar, pos: j as usize })
    } else {
        unesc(s, j + 1, acc.push(s[j]))
    }
}

/// Parses the string literal whose opening quote stands at `i`. Escape-free
/// content is returned as a borrowed span, escaped content as owned bytes.
pub open spec fn sp_string(s: Seq<u8>, i: int) -> PR<GText> {
    let k = raw_end(s, i + 1);
    if k >= s.len() {
        PR::PFail(DecodeError { kind: ErrorKind::UnexpectedEnd, pos: s.len() as usize })
    } else if s[k] == 0x22 {
        if is_utf8(s.subrange(i + 1, k)) {
            PR::POk(GText::Borrowed(Span { start: (i + 1) as usize, len: (k - i - 1) as usize }), k + 1)
        } else {
            PR::PFail(DecodeError { kind: ErrorKind::InvalidUtf8, pos: i as usize })
        }
    } else if s[k] == 0x5C {
        match unesc(s, i + 1, Seq::empty()) {
            PR::POk(content, end) => if is_utf8(content) {
                PR::POk(GText::Owned(content), end)
            } else {
                PR::PFail(DecodeError { kind: ErrorKind::InvalidUtf8, pos: i as usize })
            },
            PR::PFail(e) => PR::PFail(e),
        }
    } else {
        PR::PFail(DecodeError { kind: ErrorKind::ControlChar, pos: k as usize })
    }
}

/// Parses the number token starting at `i`.
pub open spec fn sp_num(s: Seq<u8>, i: int) -> PR<GNumber> {
    match num_end(s, i) {
        Some(end) => PR::POk(classify_num(s.subrange(i, end)), end),
        None => PR::PFail(DecodeError { kind: ErrorKind::InvalidNumber, pos: i as usize }),
    }
}

/// Inserts `(k, v)` into entries kept strictly sorted by resolved key
/// bytes; an equal key is replaced (last write wins).
pub open spec fn insert_sorted(
    buf: Seq<u8>,
    ents: Seq<(GText, GValue)>,
    k: GText,
    v: GValue,
) -> Seq<(GText, GValue)>
    decreases ents.len(),
{
    if ents.len() == 0 {
        seq![(k, v)]
    } else {
        let kb = gtext_bytes(buf, k);
        let k0 = gtext_bytes(buf, ents[0].0);
        if lex_lt(kb, k0) {
            seq![(k, v)] + ents
        } else if kb == k0 {
            seq![(k, v)] + ents.subrange(1, ents.len() as int)
        } else {
            seq![ents[0]] + insert_sorted(buf, ents.subrange(1, ents.len() as int), k, v)
        }
    }
}

/// Parses one JSON value whose first byte stands at `i`; `d` is the
/// remaining nesting allowance.
pub open spec fn sp_value(s: Seq<u8>, i: int, d: nat) -> PR<GValue>
    decreases s.len() - i, 0nat,
{
    if i < 0 || i >= s.len() {
        PR::PFail(DecodeError { kind: ErrorKind::UnexpectedEnd, pos: s.len() as usize })
    } else {
        let b = s[i];
        if b == 0x6E {  // 'n'
            if i + 4 <= s.len() && s[i + 1] == 0x75 && s[i + 2] == 0x6C && s[i + 3] == 0x6C {
                PR::POk(GValue::Null, i + 4)
            } else {
                PR::PFail(DecodeError { kind: ErrorKind::ExpectedValue, pos: i as usize })
            }
        } else if b == 0x74 {  // 't'
            if i + 4 <= s.len() && s[i + 1] == 0x72 && s[i + 2] == 0x75 && s[i + 3] == 0x65 {
                PR::POk(GValue::Bool(true), i + 4)
            } else {
                PR::PFail(DecodeError { kind: ErrorKind::ExpectedValue, pos: i as usize })
            }
        } else if b == 0x66 {  // 'f'
            if i + 5 <= s.len() && s[i + 1] == 0x61 && s[i + 2] == 0x6C && s[i + 3] == 0x73 && s[i
                + 4] == 0x65 {
                PR::POk(GValue::Bool(false), i + 5)
            } else {
                PR::PFail(DecodeError { kind: ErrorKind::ExpectedValue, pos: i as usize })
            }
        } else if b == 0x22 {  // '"'
            match sp_string(s, i) {
                PR::POk(t, end) => match t {
                    GText::Borrowed(sp) => PR::POk(GValue::String(sp), end),
                    GText::Owned(o) => PR::POk(GValue::OwnedString(o), end),
                },
                PR::PFail(e) => PR::PFail(e),
            }
        } else if b == 0x2D || is_digit(b) {
            match sp_num(s, i) {
                PR::POk(n, end) => PR::POk(GValue::Number(n), end),
                PR::PFail(e) => PR::PFail(e),
            }
        } else if b == 0x5B {  // '['
            if d == 0 {
                PR::PFail(DecodeError { kind: ErrorKind::TooDeep, pos: i as usize })
            } else {
                let j = skip_ws(s, i + 1);
                if j >= s.len() {
                    PR::PFail(DecodeError { kind: ErrorKind::UnexpectedEnd, pos: s.len() as usize })
                } else if s[j] == 0x5D {
                    PR::POk(GValue::Array(Seq::empty()), j + 1)
                } else if j > i {
                    // The comparison grounds the termination measure; a
                    // whitespace scan never moves backward, so the other
                    // branch cannot be reached.
                    sp_elems(s, j, (d - 1) as nat, Seq::empty())
                } else {
                    PR::PFail(DecodeError { kind: ErrorKind::ExpectedValue, pos: i as usize })
                }
            }
        } else if b == 0x7B {  // '{'
            if d == 0 {
                PR::PFail(DecodeError { kind: ErrorKind::TooDeep, pos: i as usize })
            } else {
                let j = skip_ws(s, i + 1);
                if j >= s.len() {
                    PR::PFail(DecodeError { kind: ErrorKind::UnexpectedEnd, pos: s.len() as usize })
                } else if s[j] == 0x7D {
                    PR::POk(GValue::Object(Seq::empty()), j + 1)
                } else if j > i {
                    sp_members(s, j, (d - 1) as nat, Seq::empty())
                } else {
                    PR::PFail(DecodeError { kind: ErrorKind::ExpectedValue, pos: i as usize })
                }
            }
        } else {
            PR::PFail(DecodeError { kind: ErrorKind::ExpectedValue, pos: i as usize })
        }
    }
}

/// Parses array elements from the first byte of the first element, with
/// the already-parsed elements in `acc`.
pub open spec fn sp_elems(s: Seq<u8>, i: int, d: nat, acc: Seq<GValue>) -> PR<GValue>
    decreases s.len() - i, 1nat,
{
    match sp_value(s, i, d) {
        PR::POk(v, end) => {
            let j = skip_ws(s, end);
            let acc2 = acc.push(v);
            if j >= s.len() {
                PR::PFail(DecodeError { kind: ErrorKind::UnexpectedEnd, pos: s.len() as usize })
            } else if s[j] == 0x5D {
                PR::POk(GValue::Array(acc2), j + 1)
            } else if s[j] == 0x2C {
                let j2 = skip_ws(s, j + 1);
                if j2 > i && j2 <= s.len() {
                    sp_elems(s, j2, d, acc2)
                } else {
                    PR::PFail(DecodeError { kind: ErrorKind::ExpectedValue, pos: j2 as usize })
                }
            } else {
                PR::PFail(DecodeError { kind: ErrorKind::ExpectedCommaOrEnd, pos: j as usize })
            }
        },
        PR::PFail(e) => PR::PFail(e),
    }
}

/// Parses object members from the first byte of a key, with the
/// already-parsed entries in `acc`.
pub open spec fn sp_members(
    s: Seq<u8>,
    i: int,
    d: nat,
    acc: Seq<(GText, GValue)>,
) -> PR<GValue>
    decreases s.len() - i, 1nat,
{
    if i < 0 || i >= s.len() {
        PR::PFail(DecodeError { kind: ErrorKind::UnexpectedEnd, pos: s.len() as usize })
    } else if s[i] != 0x22 {
        PR::PFail(DecodeError { kind: ErrorKind::ExpectedString, pos: i as usize })
    } else {
        match sp_string(s, i) {
            PR::POk(k, i2) => {
                let j = skip_ws(s, i2);
                if j >= s.len() {
                    PR::PFail(DecodeError { kind: ErrorKind::UnexpectedEnd, pos: s.len() as usize })
                } else if s[j] != 0x3A {
                    PR::PFail(DecodeError { kind: ErrorKind::ExpectedColon, pos: j as usize })
                } else {
                    let j2 = skip_ws(s, j + 1);
                    if j2 <= i || j2 > s.len() {
                        PR::PFail(DecodeError { kind: ErrorKind::ExpectedValue, pos: j2 as usize })
                    } else {
                        match sp_value(s, j2, d) {
                            PR::POk(v, i3) => {
                                let acc2 = insert_sorted(s, acc, k, v);
                                let j3 = skip_ws(s, i3);
                                if j3 >= s.len() {
                                    PR::PFail(
                                        DecodeError {
                                            kind: ErrorKind::UnexpectedEnd,
                                            pos: s.len() as usize,
                                        },
                                    )
                                } else if s[j3] == 0x7D {
                                    PR::POk(GValue::Object(acc2), j3 + 1)
                                } else if s[j3] == 0x2C {
                                    let j4 = skip_ws(s, j3 + 1);
                                    if j4 > i && j4 <= s.len() {
                                        sp_members(s, j4, d, acc2)
                                    } else {
                                        PR::PFail(
                                            DecodeError {
                                                kind: ErrorKind::ExpectedString,
                                                pos: j4 as usize,
                                            },
                                        )
                                    }
                                } else {
                                    PR::PFail(
                                        DecodeError {
                                            kind: ErrorKind::ExpectedCommaOrEnd,
                                            pos: j3 as usize,
                                        },
                                    )
                                }
                            },
                            PR::PFail(e) => PR::PFail(e),
                        }
                    }
                }
            },
            PR::PFail(e) => PR::PFail(e),
        }
    }
}

/// Element-wise deep view commutes with `push`.
pub proof fn lemma_dview_elems_push(els: Seq<Value>, v: Value)
    ensures
        crate::value::dview_elems(els.push(v)) == crate::value::dview_elems(els).push(v.dview()),
{
    crate::value::lemma_dview_elems(els);
    crate::value::lemma_dview_elems(els.push(v));
    let l = crate::value::dview_elems(els.push(v));
    let r = crate::value::dview_elems(els).push(v.dview());
    assert forall|i: int| 0 <= i < l.len() implies l[i] == r[i] by {
        assert(l[i] == els.push(v)[i].dview());
        if i < els.len() {
            assert(els.push(v)[i] == els[i]);
            assert(r[i] == els[i].dview());
        } else {
            assert(els.push(v)[i] == v);
            assert(r[i] == v.dview());
        }
    }
    assert(l =~= r);
}

/// `insert_sorted` passes over a strictly smaller prefix unchanged.
pub proof fn lemma_insert_sorted_unfold(
    buf: Seq<u8>,
    ents: Seq<(GText, GValue)>,
    k: GText,
    v: GValue,
    m: int,
)
    requires
        0 <= m <= ents.len(),
        forall|p: int|
            0 <= p < m ==> lex_lt(gtext_bytes(buf, (#[trigger] ents[p]).0), gtext_bytes(buf, k)),
    ensures
        insert_sorted(buf, ents, k, v) == ents.subrange(0, m) + insert_sorted(
            buf,
            ents.subrange(m, ents.len() as int),
            k,
            v,
        ),
    decreases m,
{
    if m == 0 {
        assert(ents.subrange(0, ents.len() as int) =~= ents);
        assert(insert_sorted(buf, ents, k, v) =~= ents.subrange(0, 0) + insert_sorted(
            buf,
            ents,
            k,
            v,
        ));
    } else {
        let kb = gtext_bytes(buf, k);
        let k0 = gtext_bytes(buf, ents[0].0);
        crate::value::lemma_lex_lt_trichotomy(kb, k0);
        assert(lex_lt(k0, kb));
        let rest = ents.subrange(1, ents.len() as int);
        assert forall|p: int| 0 <= p < m - 1 implies lex_lt(
            gtext_bytes(buf, (#[trigger] rest[p]).0),
            gtext_bytes(buf, k),
        ) by {
            assert(rest[p] == ents[p + 1]);
        }
        lemma_insert_sorted_unfold(buf, rest, k, v, m - 1);
        assert(rest.subrange(0, m - 1) =~= ents.subrange(1, m));
        assert(rest.subrange(m - 1, rest.len() as int) =~= ents.subrange(m, ents.len() as int));
        assert(insert_sorted(buf, ents, k, v) == seq![ents[0]] + insert_sorted(buf, rest, k, v));
        assert(seq![ents[0]] + (ents.subrange(1, m) + insert_sorted(
            buf,
            ents.subrange(m, ents.len() as int),
            k,
            v,
        )) =~= ents.subrange(0, m) + insert_sorted(buf, ents.subrange(m, ents.len() as int), k, v));
    }
}

/// First non-whitespace position at or after `i`.
fn skip_ws_x(s: &[u8], i: usize) -> (r: usize)
    requires
        i <= s@.len(),
    ensures
        r == skip_ws(s@, i as int),
        i <= r <= s@.len(),
{
    let n = s.len();
    let mut c = i;
    loop
        invariant
            i <= c <= n,
            n == s@.len(),
            skip_ws(s@, i as int) == skip_ws(s@, c as int),
        decreases n - c,
    {
        if c >= n {
            return c;
        }
        let b = s[c];
        if b == 0x20 || b == 0x09 || b == 0x0A || b == 0x0D {
            c = c + 1;
        } else {
            return c;
        }
    }
}

/// First non-digit position at or after `i`.
fn digits_end_x(s: &[u8], i: usize) -> (r: usize)
    requires
        i <= s@.len(),
    ensures
        r == digits_end(s@, i as int),
        i <= r <= s@.len(),
{
    let n = s.len();
    let mut c = i;
    loop
        invariant
            i <= c <= n,
            n == s@.len(),
            digits_end(s@, i as int) == digits_end(s@, c as int),
        decreases n - c,
    {
        if c >= n {
            return c;
        }
        let b = s[c];
        if 0x30 <= b && b <= 0x39 {
            c = c + 1;
        } else {
            return c;
        }
    }
}

/// Copies `s[from..to]` into a fresh vector.
fn copy_range(s: &[u8], from: usize, to: usize) -> (r: Vec<u8>)
    requires
        from <= to <= s@.len(),
    ensures
        r@ == s@.subrange(from as int, to as int),
{
    let mut out: Vec<u8> = Vec::new();
    let mut c = from;
    loop
        invariant
            from <= c <= to <= s@.len(),
            out@ == s@.subrange(from as int, c as int),
        decreases to - c,
    {
        if c >= to {
            return out;
        }
        out.push(s[c]);
        proof {
            assert(out@ =~= s@.subrange(from as int, c + 1));
        }
        c = c + 1;
    }
}

/// Three-way byte-lexicographic comparison: 0 equal, 1 if `a` sorts
/// first, 2 if `b` sorts first.
fn lex_cmp(a: &[u8], b: &[u8]) -> (r: u8)
    ensures
        (r == 0) <==> a@ == b@,
        (r == 1) <==> lex_lt(a@, b@),
        (r == 2) <==> lex_lt(b@, a@),
{
    proof {
        crate::value::lemma_lex_lt_trichotomy(a@, b@);
        assert(a@.skip(0) =~= a@);
        assert(b@.skip(0) =~= b@);
    }
    let na = a.len();
    let nb = b.len();
    let mut k: usize = 0;
    loop
        invariant
            k <= na,
            k <= nb,
            na == a@.len(),
            nb == b@.len(),
            lex_lt(a@, b@) == lex_lt(a@.skip(k as int), b@.skip(k as int)),
            lex_lt(b@, a@) == lex_lt(b@.skip(k as int), a@.skip(k as int)),
            (a@ == b@) == (na == nb && a@.skip(k as int) == b@.skip(k as int)),
            lex_lt(a@, b@) || a@ == b@ || lex_lt(b@, a@),
            lex_lt(a@, b@) ==> a@ != b@ && !lex_lt(b@, a@),
            (a@ == b@) ==> !lex_lt(a@, b@) && !lex_lt(b@, a@),
        decreases na - k,
    {
        if k >= na || k >= nb {
            if na == nb {
                proof {
                    assert(a@.skip(k as int) =~= b@.skip(k as int));
                }
                return 0;
            } else if na < nb {
                assert(a@.skip(k as int).len() == 0 && b@.skip(k as int).len() > 0);
                return 1;
            } else {
                assert(b@.skip(k as int).len() == 0 && a@.skip(k as int).len() > 0);
                return 2;
            }
        }
        let ba = a[k];
        let bb = b[k];
        assert(a@.skip(k as int)[0] == ba && b@.skip(k as int)[0] == bb);
        if ba < bb {
            return 1;
        } else if ba > bb {
            return 2;
        }
        proof {
            assert(a@.skip(k as int).skip(1) =~= a@.skip(k + 1));
            assert(b@.skip(k as int).skip(1) =~= b@.skip(k + 1));
            if a@.skip(k as int) == b@.skip(k as int) {
                assert(a@.skip(k + 1) =~= b@.skip(k + 1));
            }
            if a@.skip(k + 1) == b@.skip(k + 1) && na == nb {
                assert(a@.skip(k as int) =~= b@.skip(k as int));
            }
        }
        k = k + 1;
    }
}

/// The span or owned bytes of `t` lie within a buffer of length `blen`.
pub open spec fn text_in_bounds(t: Text, blen: nat) -> bool {
    match t {
        Text::Borrowed(sp) => sp.start + sp.len <= blen,
        Text::Owned(_) => true,
    }
}

/// Three-way comparison of two keys by their resolved bytes.
fn key_cmp(buf: &[u8], a: &Text, b: &Text) -> (r: u8)
    requires
        text_in_bounds(*a, buf@.len()),
        text_in_bounds(*b, buf@.len()),
    ensures
        (r == 0) <==> gtext_bytes(buf@, a.dview()) == gtext_bytes(buf@, b.dview()),
        (r == 1) <==> lex_lt(gtext_bytes(buf@, a.dview()), gtext_bytes(buf@, b.dview())),
        (r == 2) <==> lex_lt(gtext_bytes(buf@, b.dview()), gtext_bytes(buf@, a.dview())),
{
    let sa: &[u8] = match a {
        Text::Borrowed(sp) => {
            let bl = buf.len();
            proof {
                assert(sp.start + sp.len <= bl);
            }
            &buf[sp.start..sp.start + sp.len]
        },
        Text::Owned(o) => o.as_slice(),
    };
    let sb: &[u8] = match b {
        Text::Borrowed(sp) => {
            let bl = buf.len();
            proof {
                assert(sp.start + sp.len <= bl);
            }
            &buf[sp.start..sp.start + sp.len]
        },
        Text::Owned(o) => o.as_slice(),
    };
    lex_cmp(sa, sb)
}

/// Inserts `(k, v)` into the entry vector, which mirrors a ghost entry
/// sequence kept sorted by `insert_sorted`.
fn insert_entry(buf: &[u8], ents: &mut Vec<(Text, Value)>, k: Text, v: Value)
    requires
        text_in_bounds(k, buf@.len()),
        forall|p: int|
            0 <= p < old(ents)@.len() ==> text_in_bounds((#[trigger] old(ents)@[p]).0, buf@.len()),
    ensures
        crate::value::dview_entries(final(ents)@) == insert_sorted(
            buf@,
            crate::value::dview_entries(old(ents)@),
            k.dview(),
            v.dview(),
        ),
        forall|p: int|
            0 <= p < final(ents)@.len() ==> text_in_bounds((#[trigger] final(ents)@[p]).0, buf@.len()),
{
    let ghost e0 = crate::value::dview_entries(old(ents)@);
    let ghost kd = k.dview();
    let ghost kb = gtext_bytes(buf@, kd);
    proof {
        crate::value::lemma_dview_entries(old(ents)@);
    }
    let n = ents.len();
    let mut m: usize = 0;
    loop
        invariant
            m <= n,
            n == ents@.len(),
            ents@ == old(ents)@,
            e0 == crate::value::dview_entries(ents@),
            e0.len() == n,
            kd == k.dview(),
            kb == gtext_bytes(buf@, kd),
            text_in_bounds(k, buf@.len()),
            forall|p: int|
                0 <= p < ents@.len() ==> text_in_bounds((#[trigger] ents@[p]).0, buf@.len()),
            forall|p: int| 0 <= p < m ==> lex_lt(gtext_bytes(buf@, (#[trigger] e0[p]).0), kb),
        decreases n - m,
    {
        proof {
            crate::value::lemma_dview_entries(ents@);
        }
        if m >= n {
            let ghost prev = ents@;
            ents.push((k, v));
            proof {
                lemma_insert_sorted_unfold(buf@, e0, kd, v.dview(), n as int);
                assert(e0.subrange(n as int, n as int) =~= Seq::<(GText, GValue)>::empty());
                crate::value::lemma_dview_entries(ents@);
                let l = crate::value::dview_entries(ents@);
                let r = insert_sorted(buf@, e0, kd, v.dview());
                assert forall|i: int| 0 <= i < l.len() implies l[i] == r[i] by {
                    assert(l[i] == (ents@[i].0.dview(), ents@[i].1.dview()));
                    assert(r == e0.subrange(0, n as int) + seq![(kd, v.dview())]);
                    if i < n {
                        assert(ents@[i] == prev[i]);
                        assert(e0[i] == (prev[i].0.dview(), prev[i].1.dview()));
                        assert(r[i] == e0.subrange(0, n as int)[i]);
                    } else {
                        assert(ents@[i] == (k, v));
                        assert(r[i] == (kd, v.dview()));
                    }
                }
                assert(l =~= r);
            }
            return ;
        }
        let c = key_cmp(buf, &k, &ents[m].0);
        proof {
            assert(e0[m as int] == (ents@[m as int].0.dview(), ents@[m as int].1.dview()));
            assert(gtext_bytes(buf@, e0[m as int].0) == gtext_bytes(
                buf@,
                ents@[m as int].0.dview(),
            ));
        }
        if c == 1 {
            // k sorts before the entry at m: insert here.
            let ghost prev = ents@;
            ents.insert(m, (k, v));
            proof {
                lemma_insert_sorted_unfold(buf@, e0, kd, v.dview(), m as int);
                let suf = e0.subrange(m as int, n as int);
                assert(suf[0] == e0[m as int]);
                assert(insert_sorted(buf@, suf, kd, v.dview()) == seq![(kd, v.dview())] + suf);
                crate::value::lemma_dview_entries(ents@);
                let l = crate::value::dview_entries(ents@);
                let r = insert_sorted(buf@, e0, kd, v.dview());
                assert forall|i: int| 0 <= i < l.len() implies l[i] == r[i] by {
                    assert(l[i] == (ents@[i].0.dview(), ents@[i].1.dview()));
                    assert(r == e0.subrange(0, m as int) + (seq![(kd, v.dview())] + suf));
                    if i < m {
                        assert(ents@[i] == prev[i]);
                        assert(e0[i] == (prev[i].0.dview(), prev[i].1.dview()));
                        assert(r[i] == e0.subrange(0, m as int)[i]);
                    } else if i == m {
                        assert(ents@[i] == (k, v));
                        assert(r[i] == (seq![(kd, v.dview())] + suf)[0]);
                    } else {
                        assert(ents@[i] == prev[i - 1]);
                        assert(e0[i - 1] == (prev[i - 1].0.dview(), prev[i - 1].1.dview()));
                        assert(r[i] == (seq![(kd, v.dview())] + suf)[i - m]);
                        assert((seq![(kd, v.dview())] + suf)[i - m] == suf[i - m - 1]);
                        assert(suf[i - m - 1] == e0[i - 1]);
                    }
                }
                assert(l =~= r);
            }
            return ;
        } else if c == 0 {
            // Equal key: last write wins.
            let ghost prev = ents@;
            ents[m] = (k, v);
            proof {
                lemma_insert_sorted_unfold(buf@, e0, kd, v.dview(), m as int);
                let suf = e0.subrange(m as int, n as int);
                assert(suf[0] == e0[m as int]);
                assert(insert_sorted(buf@, suf, kd, v.dview()) == seq![(kd, v.dview())]
                    + suf.subrange(1, suf.len() as int));
                crate::value::lemma_dview_entries(ents@);
                let l = crate::value::dview_entries(ents@);
                let r = insert_sorted(buf@, e0, kd, v.dview());
                assert forall|i: int| 0 <= i < l.len() implies l[i] == r[i] by {
                    assert(l[i] == (ents@[i].0.dview(), ents@[i].1.dview()));
                    let tail = suf.subrange(1, suf.len() as int);
                    assert(r == e0.subrange(0, m as int) + (seq![(kd, v.dview())] + tail));
                    if i < m {
                        assert(ents@[i] == prev[i]);
                        assert(e0[i] == (prev[i].0.dview(), prev[i].1.dview()));
                        assert(r[i] == e0.subrange(0, m as int)[i]);
                    } else if i == m {
                        assert(ents@[i] == (k, v));
                        assert(r[i] == (seq![(kd, v.dview())] + tail)[0]);
                    } else {
                        assert(ents@[i] == prev[i]);
                        assert(e0[i] == (prev[i].0.dview(), prev[i].1.dview()));
                        assert(r[i] == (seq![(kd, v.dview())] + tail)[i - m]);
                        assert((seq![(kd, v.dview())] + tail)[i - m] == tail[i - m - 1]);
                        assert(tail[i - m - 1] == suf[i - m]);
                        assert(suf[i - m] == e0[i]);
                    }
                }
                assert(l =~= r);
            }
            return ;
        } else {
            proof {
                crate::value::lemma_lex_lt_trichotomy(
                    kb,
                    gtext_bytes(buf@, ents@[m as int].0.dview()),
                );
            }
            m = m + 1;
        }
    }
}

/// Parses a whole document: one value, surrounded only by whitespace.
pub open spec fn sp_doc(s: Seq<u8>) -> PR<GValue> {
    let i = skip_ws(s, 0);
    match sp_value(s, i, MAX_DEPTH as nat) {
        PR::POk(g, end) => {
            let j = skip_ws(s, end);
            if j >= s.len() {
                PR::POk(g, j)
            } else {
                PR::PFail(DecodeError { kind: ErrorKind::TrailingData, pos: j as usize })
            }
        },
        PR::PFail(e) => PR::PFail(e),
    }
}

/// Parses the number token starting at `i`, mirroring [`sp_num`]: an
/// integer-shaped token that fits becomes `Unsigned` or `Signed`, anything
/// else keeps its exact text.
#[verifier::rlimit(80)]
fn parse_number(s: &[u8], i: usize) -> (res: Result<(Number, usize), DecodeError>)
    requires
        i < s@.len(),
    ensures
        match res {
            Ok(p) => sp_num(s@, i as int) == PR::POk(p.0.dview(), p.1 as int) && i < p.1 <= s@.len(),
            Err(e) => sp_num(s@, i as int) == PR::<GNumber>::PFail(e),
        },
{
    let n_len = s.len();
    let neg = s[i] == 0x2D;
    let i1 = if neg {
        i + 1
    } else {
        i
    };
    // Integer part: one zero, or a nonzero digit then digits.
    let i2: usize;
    if i1 < n_len && s[i1] == 0x30 {
        i2 = i1 + 1;
    } else if i1 < n_len && 0x30 <= s[i1] && s[i1] <= 0x39 {
        i2 = digits_end_x(s, i1 + 1);
    } else {
        assert(int_end(s@, i1 as int) is None);
        assert(num_end(s@, i as int) is None);
        return Err(DecodeError { kind: ErrorKind::InvalidNumber, pos: i });
    }
    assert(int_end(s@, i1 as int) == Some(i2 as int));
    // Fraction part.
    let i3: usize;
    if i2 < n_len && s[i2] == 0x2E {
        if i2 + 1 < n_len && 0x30 <= s[i2 + 1] && s[i2 + 1] <= 0x39 {
            i3 = digits_end_x(s, i2 + 1);
        } else {
            assert(frac_end(s@, i2 as int) is None);
            assert(num_end(s@, i as int) is None);
            return Err(DecodeError { kind: ErrorKind::InvalidNumber, pos: i });
        }
    } else {
        i3 = i2;
    }
    assert(frac_end(s@, i2 as int) == Some(i3 as int));
    // Exponent part.
    let end: usize;
    if i3 < n_len && (s[i3] == 0x65 || s[i3] == 0x45) {
        let j = if i3 + 1 < n_len && (s[i3 + 1] == 0x2B || s[i3 + 1] == 0x2D) {
            i3 + 2
        } else {
            i3 + 1
        };
        if j < n_len && 0x30 <= s[j] && s[j] <= 0x39 {
            end = digits_end_x(s, j);
        } else {
            assert(exp_end(s@, i3 as int) is None);
            assert(num_end(s@, i as int) is None);
            return Err(DecodeError { kind: ErrorKind::InvalidNumber, pos: i });
        }
    } else {
        end = i3;
    }
    assert(exp_end(s@, i3 as int) == Some(end as int));
    assert(num_end(s@, i as int) == Some(end as int));
    let ghost tok = s@.subrange(i as int, end as int);
    let ghost ds = s@.subrange(i1 as int, end as int);
    proof {
        assert(tok[0] == s@[i as int]);
        if neg {
            assert(tok.skip(1) =~= ds);
        } else {
            assert(tok =~= ds);
        }
    }
    if i3 == i2 && end == i3 {
        // Integer-shaped: all bytes after the optional minus are digits.
        proof {
            lemma_digits_end(s@, i1 + 1);
            assert forall|p: int| 0 <= p < ds.len() implies is_digit(#[trigger] ds[p]) by {
                assert(ds[p] == s@[i1 + p]);
                if p == 0 {
                    assert(is_digit(s@[i1 as int]));
                } else {
                    assert(i2 == digits_end(s@, i1 + 1));
                    assert(is_digit(s@[i1 + p]));
                }
            }
        }
        let mut acc: u64 = 0;
        let mut over = false;
        let mut c = i1;
        while c < end
            invariant
                i1 <= c <= end,
                end <= n_len,
                n_len == s@.len(),
                ds == s@.subrange(i1 as int, end as int),
                all_digits(ds),
                !over ==> acc as nat == dec_val(s@.subrange(i1 as int, c as int)),
                over ==> dec_val(s@.subrange(i1 as int, c as int)) > u64::MAX,
            decreases end - c,
        {
            let b = s[c];
            assert(ds[c - i1] == b);
            assert(is_digit(b));
            let d = (b - 0x30) as u64;
            let ghost pre = s@.subrange(i1 as int, c as int);
            let ghost pre2 = s@.subrange(i1 as int, c + 1);
            proof {
                assert(pre2.drop_last() =~= pre);
                assert(pre2.last() == b);
                assert(dec_val(pre2) == (dec_val(pre) * 10 + (b - 0x30)) as nat);
            }
            if !over {
                // 0x1999999999999999 is u64::MAX / 10.
                if acc > 0x1999_9999_9999_9999u64 || (acc == 0x1999_9999_9999_9999u64 && d > 5) {
                    proof {
                        assert(acc * 10 + d > u64::MAX);
                    }
                    over = true;
                } else {
                    assert(acc * 10 + d <= u64::MAX);
                    acc = acc * 10 + d;
                }
            }
            c = c + 1;
        }
        assert(s@.subrange(i1 as int, c as int) == ds);
        let ghost v = dec_val(ds);
        proof {
            assert(classify_num(tok) == classify_int(tok, neg, ds));
        }
        if !neg {
            if !over {
                return Ok((Number::Unsigned(acc), end));
            }
        } else {
            if !over && acc >= 1 && acc <= 0x8000_0000_0000_0000u64 {
                let x: i64 = if acc == 0x8000_0000_0000_0000u64 {
                    i64::MIN
                } else {
                    -(acc as i64)
                };
                proof {
                    assert(x as int == -(v as int));
                }
                return Ok((Number::Signed(x), end));
            }
        }
        let t = copy_range(s, i, end);
        return Ok((Number::Decimal(t), end));
    } else {
        proof {
            if i3 != i2 {
                assert(s@[i2 as int] == 0x2E);
                assert(i2 < end);
                assert(ds[i2 - i1] == 0x2E);
                assert(!is_digit(ds[i2 - i1]));
            } else {
                assert(s@[i3 as int] == 0x65 || s@[i3 as int] == 0x45);
                assert(i3 < end);
                assert(ds[i3 - i1] == s@[i3 as int]);
                assert(!is_digit(ds[i3 - i1]));
            }
            assert(!all_digits(ds));
            assert(classify_num(tok) == GNumber::Decimal(tok));
        }
        let t = copy_range(s, i, end);
        return Ok((Number::Decimal(t), end));
    }
}

fn hex_digit(b: u8) -> (r: Option<u8>)
    ensures
        match r {
            Some(v) => hex_digit_val(b) == Some(v as int),
            None => hex_digit_val(b) is None,
        },
{
    if 0x30 <= b && b <= 0x39 {
        Some(b - 0x30)
    } else if 0x41 <= b && b <= 0x46 {
        Some(b - 0x41 + 10)
    } else if 0x61 <= b && b <= 0x66 {
        Some(b - 0x61 + 10)
    } else {
        None
    }
}

/// Reads the four hex digits of a `\u` escape.
fn read_hex4(s: &[u8], j: usize) -> (r: Option<u32>)
    requires
        j <= s@.len(),
    ensures
        match r {
            Some(v) => is_hex4(s@, j as int) && v as int == hex4_val(s@, j as int) && v < 0x10000,
            None => !is_hex4(s@, j as int),
        },
{
    if s.len() - j < 4 {
        return None;
    }
    let d0 = match hex_digit(s[j]) {
        Some(d) => d,
        None => {
            return None;
        },
    };
    let d1 = match hex_digit(s[j + 1]) {
        Some(d) => d,
        None => {
            return None;
        },
    };
    let d2 = match hex_digit(s[j + 2]) {
        Some(d) => d,
        None => {
            return None;
        },
    };
    let d3 = match hex_digit(s[j + 3]) {
        Some(d) => d,
        None => {
            return None;
        },
    };
    Some((d0 as u32) * 0x1000 + (d1 as u32) * 0x100 + (d2 as u32) * 0x10 + (d3 as u32))
}

/// Appends the UTF-8 encoding of the scalar value `cp`.
fn push_utf8(out: &mut Vec<u8>, cp: u32)
    requires
        cp < 0x110000,
    ensures
        final(out)@ == old(out)@ + utf8_enc(cp as int),
{
    let ghost o0 = out@;
    if cp < 0x80 {
        out.push(cp as u8);
        proof {
            assert(out@ =~= o0 + utf8_enc(cp as int));
        }
    } else if cp < 0x800 {
        out.push((0xC0 + cp / 0x40) as u8);
        out.push((0x80 + cp % 0x40) as u8);
        proof {
            assert(out@ =~= o0 + utf8_enc(cp as int));
        }
    } else if cp < 0x10000 {
        out.push((0xE0 + cp / 0x1000) as u8);
        out.push((0x80 + (cp / 0x40) % 0x40) as u8);
        out.push((0x80 + cp % 0x40) as u8);
        proof {
            assert(out@ =~= o0 + utf8_enc(cp as int));
        }
    } else {
        out.push((0xF0 + cp / 0x40000) as u8);
        out.push((0x80 + (cp / 0x1000) % 0x40) as u8);
        out.push((0x80 + (cp / 0x40) % 0x40) as u8);
        out.push((0x80 + cp % 0x40) as u8);
        proof {
            assert(out@ =~= o0 + utf8_enc(cp as int));
        }
    }
}

/// Unescapes string content from `start` (just past the opening quote),
/// mirroring [`unesc`].
#[verifier::rlimit(80)]
fn unescape(s: &[u8], start: usize) -> (res: Result<(Vec<u8>, usize), DecodeError>)
    requires
        start <= s@.len(),
    ensures
        match res {
            Ok(p) => unesc(s@, start as int, Seq::empty()) == PR::POk(p.0@, p.1 as int) && start
                < p.1 <= s@.len(),
            Err(e) => unesc(s@, start as int, Seq::empty()) == PR::<Seq<u8>>::PFail(e),
        },
{
    let n_len = s.len();
    let mut out: Vec<u8> = Vec::new();
    let mut j = start;
    loop
        invariant
            start <= j <= n_len,
            n_len == s@.len(),
            unesc(s@, start as int, Seq::empty()) == unesc(s@, j as int, out@),
        decreases n_len - j,
    {
        if j >= n_len {
            return Err(DecodeError { kind: ErrorKind::UnexpectedEnd, pos: n_len });
        }
        let b = s[j];
        if b == 0x22 {
            let r = j + 1;
            return Ok((out, r));
        } else if b == 0x5C {
            if j + 1 >= n_len {
                return Err(DecodeError { kind: ErrorKind::UnexpectedEnd, pos: n_len });
            }
            let e = s[j + 1];
            if e == 0x22 {
                out.push(0x22);
                j = j + 2;
            } else if e == 0x5C {
                out.push(0x5C);
                j = j + 2;
            } else if e == 0x2F {
                out.push(0x2F);
                j = j + 2;
            } else if e == 0x62 {
                out.push(0x08);
                j = j + 2;
            } else if e == 0x66 {
                out.push(0x0C);
                j = j + 2;
            } else if e == 0x6E {
                out.push(0x0A);
                j = j + 2;
            } else if e == 0x72 {
                out.push(0x0D);
                j = j + 2;
            } else if e == 0x74 {
                out.push(0x09);
                j = j + 2;
            } else if e == 0x75 {
                match read_hex4(s, j + 2) {
                    None => {
                        return Err(DecodeError { kind: ErrorKind::InvalidEscape, pos: j });
                    },
                    Some(cp) => {
                        if 0xD800 <= cp && cp < 0xDC00 {
                            if n_len - j >= 12 && s[j + 6] == 0x5C && s[j + 7] == 0x75 {
                                match read_hex4(s, j + 8) {
                                    None => {
                                        return Err(
                                            DecodeError { kind: ErrorKind::InvalidEscape, pos: j },
                                        );
                                    },
                                    Some(cp2) => {
                                        if 0xDC00 <= cp2 && cp2 < 0xE000 {
                                            let combined = 0x10000 + (cp - 0xD800) * 0x400 + (cp2
                                                - 0xDC00);
                                            push_utf8(&mut out, combined);
                                            j = j + 12;
                                        } else {
                                            return Err(
                                                DecodeError {
                                                    kind: ErrorKind::InvalidEscape,
                                                    pos: j,
                                                },
                                            );
                                        }
                                    },
                                }
                            } else {
                                return Err(
                                    DecodeError { kind: ErrorKind::InvalidEscape, pos: j },
                                );
                            }
                        } else if 0xDC00 <= cp && cp < 0xE000 {
                            return Err(DecodeError { kind: ErrorKind::InvalidEscape, pos: j });
                        } else {
                            push_utf8(&mut out, cp);
                            j = j + 6;
                        }
                    },
                }
            } else {
                return Err(DecodeError { kind: ErrorKind::InvalidEscape, pos: j });
            }
        } else if b < 0x20 {
            return Err(DecodeError { kind: ErrorKind::ControlChar, pos: j });
        } else {
            out.push(b);
            j = j + 1;
        }
    }
}

/// First terminator of a raw string run at or after `start`.
fn raw_end_x(s: &[u8], start: usize) -> (r: usize)
    requires
        start <= s@.len(),
    ensures
        r == raw_end(s@, start as int),
        start <= r <= s@.len(),
{
    let n_len = s.len();
    let mut k = start;
    while k < n_len && !(s[k] == 0x22 || s[k] == 0x5C || s[k] < 0x20)
        invariant
            start <= k <= n_len,
            n_len == s@.len(),
            raw_end(s@, start as int) == raw_end(s@, k as int),
        decreases n_len - k,
    {
        k = k + 1;
    }
    k
}

/// Parses the string literal whose opening quote stands at `i`,
/// mirroring [`sp_string`].
fn parse_string(s: &[u8], i: usize) -> (res: Result<(Text, usize), DecodeError>)
    requires
        i < s@.len(),
        s@[i as int] == 0x22,
    ensures
        match res {
            Ok(p) => sp_string(s@, i as int) == PR::POk(p.0.dview(), p.1 as int) && i < p.1
                <= s@.len() && text_in_bounds(p.0, s@.len()),
            Err(e) => sp_string(s@, i as int) == PR::<GText>::PFail(e),
        },
{
    let n_len = s.len();
    let k = raw_end_x(s, i + 1);
    if k >= n_len {
        return Err(DecodeError { kind: ErrorKind::UnexpectedEnd, pos: n_len });
    }
    let b = s[k];
    if b == 0x22 {
        if is_utf8_range(s, i + 1, k) {
            let sp = Span { start: i + 1, len: k - (i + 1) };
            return Ok((Text::Borrowed(sp), k + 1));
        } else {
            return Err(DecodeError { kind: ErrorKind::InvalidUtf8, pos: i });
        }
    } else if b == 0x5C {
        match unescape(s, i + 1) {
            Ok(p) => {
                let content = p.0;
                let end = p.1;
                if is_utf8_bytes(&content) {
                    return Ok((Text::Owned(content), end));
                } else {
                    return Err(DecodeError { kind: ErrorKind::InvalidUtf8, pos: i });
                }
            },
            Err(e) => {
                return Err(e);
            },
        }
    } else {
        return Err(DecodeError { kind: ErrorKind::ControlChar, pos: k });
    }
}

/// Parses one value whose first byte stands at `i`, mirroring
/// [`sp_value`]; `d` is the remaining nesting allowance.
#[verifier::rlimit(100)]
fn parse_value(s: &[u8], i: usize, d: u32) -> (res: Result<(Value, usize), DecodeError>)
    requires
        i <= s@.len(),
    ensures
        match res {
            Ok(p) => sp_value(s@, i as int, d as nat) == PR::POk(p.0.dview(), p.1 as int) && i < p.1
                <= s@.len(),
            Err(e) => sp_value(s@, i as int, d as nat) == PR::<GValue>::PFail(e),
        },
    decreases s@.len() - i,
{
    let n_len = s.len();
    if i >= n_len {
        return Err(DecodeError { kind: ErrorKind::UnexpectedEnd, pos: n_len });
    }
    let b = s[i];
    if b == 0x6E {
        if n_len - i >= 4 && s[i + 1] == 0x75 && s[i + 2] == 0x6C && s[i + 3] == 0x6C {
            return Ok((Value::Null, i + 4));
        } else {
            return Err(DecodeError { kind: ErrorKind::ExpectedValue, pos: i });
        }
    } else if b == 0x74 {
        if n_len - i >= 4 && s[i + 1] == 0x72 && s[i + 2] == 0x75 && s[i + 3] == 0x65 {
            return Ok((Value::Bool(true), i + 4));
        } else {
            return Err(DecodeError { kind: ErrorKind::ExpectedValue, pos: i });
        }
    } else if b == 0x66 {
        if n_len - i >= 5 && s[i + 1] == 0x61 && s[i + 2] == 0x6C && s[i + 3] == 0x73 && s[i + 4]
            == 0x65 {
            return Ok((Value::Bool(false), i + 5));
        } else {
            return Err(DecodeError { kind: ErrorKind::ExpectedValue, pos: i });
        }
    } else if b == 0x22 {
        match parse_string(s, i) {
            Ok(p) => match p.0 {
                Text::Borrowed(sp) => Ok((Value::String(sp), p.1)),
                Text::Owned(o) => Ok((Value::OwnedString(o), p.1)),
            },
            Err(e) => Err(e),
        }
    } else if b == 0x2D || (0x30 <= b && b <= 0x39) {
        match parse_number(s, i) {
            Ok(p) => Ok((Value::Number(p.0), p.1)),
            Err(e) => Err(e),
        }
    } else if b == 0x5B {
        if d == 0 {
            return Err(DecodeError { kind: ErrorKind::TooDeep, pos: i });
        }
        let j = skip_ws_x(s, i + 1);
        if j >= n_len {
            return Err(DecodeError { kind: ErrorKind::UnexpectedEnd, pos: n_len });
        }
        if s[j] == 0x5D {
            let v: Vec<Value> = Vec::new();
            proof {
                assert(crate::value::dview_elems(v@) =~= Seq::<GValue>::empty());
            }
            return Ok((Value::Array(v), j + 1));
        }
        let d2 = d - 1;
        let mut els: Vec<Value> = Vec::new();
        let mut pos = j;
        proof {
            assert(crate::value::dview_elems(els@) =~= Seq::<GValue>::empty());
        }
        loop
            invariant
                i < pos <= n_len,
                n_len == s@.len(),
                d2 == d - 1,
                d >= 1,
                sp_value(s@, i as int, d as nat) == sp_elems(
                    s@,
                    pos as int,
                    d2 as nat,
                    crate::value::dview_elems(els@),
                ),
            decreases n_len - pos,
        {
            match parse_value(s, pos, d2) {
                Err(e) => {
                    return Err(e);
                },
                Ok(p) => {
                    let v = p.0;
                    let end = p.1;
                    let j2 = skip_ws_x(s, end);
                    proof {
                        lemma_dview_elems_push(els@, v);
                    }
                    if j2 >= n_len {
                        return Err(DecodeError { kind: ErrorKind::UnexpectedEnd, pos: n_len });
                    }
                    let bb = s[j2];
                    if bb == 0x5D {
                        els.push(v);
                        return Ok((Value::Array(els), j2 + 1));
                    } else if bb == 0x2C {
                        let j3 = skip_ws_x(s, j2 + 1);
                        if j3 > pos {
                            els.push(v);
                            pos = j3;
                        } else {
                            return Err(DecodeError { kind: ErrorKind::ExpectedValue, pos: j3 });
                        }
                    } else {
                        return Err(DecodeError { kind: ErrorKind::ExpectedCommaOrEnd, pos: j2 });
                    }
                },
            }
        }
    } else if b == 0x7B {
        if d == 0 {
            return Err(DecodeError { kind: ErrorKind::TooDeep, pos: i });
        }
        let j = skip_ws_x(s, i + 1);
        if j >= n_len {
            return Err(DecodeError { kind: ErrorKind::UnexpectedEnd, pos: n_len });
        }
        if s[j] == 0x7D {
            let v: Vec<(Text, Value)> = Vec::new();
            proof {
                assert(crate::value::dview_entries(v@) =~= Seq::<(GText, GValue)>::empty());
            }
            return Ok((Value::Object(v), j + 1));
        }
        let d2 = d - 1;
        let mut ents: Vec<(Text, Value)> = Vec::new();
        let mut pos = j;
        proof {
            assert(crate::value::dview_entries(ents@) =~= Seq::<(GText, GValue)>::empty());
        }
        loop
            invariant
                i < pos <= n_len,
                n_len == s@.len(),
                d2 == d - 1,
                d >= 1,
                forall|q: int|
                    0 <= q < ents@.len() ==> text_in_bounds(
                        (#[trigger] ents@[q]).0,
                        s@.len(),
                    ),
                sp_value(s@, i as int, d as nat) == sp_members(
                    s@,
                    pos as int,
                    d2 as nat,
                    crate::value::dview_entries(ents@),
                ),
            decreases n_len - pos,
        {
            if pos >= n_len {
                return Err(DecodeError { kind: ErrorKind::UnexpectedEnd, pos: n_len });
            }
            if s[pos] != 0x22 {
                return Err(DecodeError { kind: ErrorKind::ExpectedString, pos: pos });
            }
            match parse_string(s, pos) {
                Err(e) => {
                    return Err(e);
                },
                Ok(kp) => {
                    let key = kp.0;
                    let i2 = kp.1;
                    let j1 = skip_ws_x(s, i2);
                    if j1 >= n_len {
                        return Err(DecodeError { kind: ErrorKind::UnexpectedEnd, pos: n_len });
                    }
                    if s[j1] != 0x3A {
                        return Err(DecodeError { kind: ErrorKind::ExpectedColon, pos: j1 });
                    }
                    let j2 = skip_ws_x(s, j1 + 1);
                    if j2 <= pos {
                        return Err(DecodeError { kind: ErrorKind::ExpectedValue, pos: j2 });
                    }
                    match parse_value(s, j2, d2) {
                        Err(e) => {
                            return Err(e);
                        },
                        Ok(vp) => {
                            let val = vp.0;
                            let i3 = vp.1;
                            insert_entry(s, &mut ents, key, val);
                            let j3 = skip_ws_x(s, i3);
                            if j3 >= n_len {
                                return Err(
                                    DecodeError { kind: ErrorKind::UnexpectedEnd, pos: n_len },
                                );
                            }
                            let bb = s[j3];
                            if bb == 0x7D {
                                return Ok((Value::Object(ents), j3 + 1));
                            } else if bb == 0x2C {
                                let j4 = skip_ws_x(s, j3 + 1);
                                if j4 > pos {
                                    pos = j4;
                                } else {
                                    return Err(
                                        DecodeError { kind: ErrorKind::ExpectedString, pos: j4 },
                                    );
                                }
                            } else {
                                return Err(
                                    DecodeError { kind: ErrorKind::ExpectedCommaOrEnd, pos: j3 },
                                );
                            }
                        },
                    }
                },
            }
        }
    } else {
        return Err(DecodeError { kind: ErrorKind::ExpectedValue, pos: i });
    }
}

/// Decodes one JSON document: one value surrounded only by whitespace.
/// The outcome is exactly what the specification parser [`sp_doc`] says.
pub fn decode(s: &[u8]) -> (res: Result<Value, DecodeError>)
    ensures
        match res {
            Ok(v) => sp_doc(s@) == PR::POk(v.dview(), s@.len() as int),
            Err(e) => sp_doc(s@) == PR::<GValue>::PFail(e),
        },
{
    let i = skip_ws_x(s, 0);
    match parse_value(s, i, MAX_DEPTH) {
        Err(e) => Err(e),
        Ok(p) => {
            let j = skip_ws_x(s, p.1);
            if j >= s.len() {
                Ok(p.0)
            } else {
                Err(DecodeError { kind: ErrorKind::TrailingData, pos: j })
            }
        },
    }
}

/// `skip_ws` moves forward and never passes the end of input.
pub proof fn lemma_skip_ws(s: Seq<u8>, x: int)
    requires
        0 <= x <= s.len(),
    ensures
        x <= skip_ws(s, x) <= s.len(),
    decreases s.len() - x,
{
    if x < s.len() && is_ws(s[x]) {
        lemma_skip_ws(s, x + 1);
    }
}

/// Everything scanned over by `raw_end` is an ordinary content byte.
pub proof fn lemma_raw_end(s: Seq<u8>, start: int)
    requires
        0 <= start <= s.len(),
    ensures
        start <= raw_end(s, start) <= s.len(),
        forall|j: int|
            start <= j < raw_end(s, start) ==> !crate::value::must_escape(#[trigger] s[j]),
    decreases s.len() - start,
{
    if start < s.len() && !(s[start] == 0x22 || s[start] == 0x5C || s[start] < 0x20) {
        lemma_raw_end(s, start + 1);
    }
}

/// A successful unescape ends after the position it started at, within
/// the input.
pub proof fn lemma_unesc_bounds(s: Seq<u8>, j: int, acc: Seq<u8>)
    requires
        0 <= j,
    ensures
        (match unesc(s, j, acc) {
            PR::POk(_, end) => j < end <= s.len(),
            PR::PFail(_) => true,
        }),
    decreases s.len() - j,
{
    if 0 <= j < s.len() {
        if s[j] == 0x22 {
        } else if s[j] == 0x5C {
            if j + 1 < s.len() {
                let e = s[j + 1];
                if e == 0x75 {
                    if is_hex4(s, j + 2) {
                        let cp = hex4_val(s, j + 2);
                        if 0xD800 <= cp && cp < 0xDC00 {
                            if j + 12 <= s.len() && s[j + 6] == 0x5C && s[j + 7] == 0x75
                                && is_hex4(s, j + 8) {
                                let cp2 = hex4_val(s, j + 8);
                                if 0xDC00 <= cp2 && cp2 < 0xE000 {
                                    lemma_unesc_bounds(
                                        s,
                                        j + 12,
                                        acc + utf8_enc(
                                            0x10000 + (cp - 0xD800) * 0x400 + (cp2 - 0xDC00),
                                        ),
                                    );
                                }
                            }
                        } else if 0xDC00 <= cp && cp < 0xE000 {
                        } else {
                            lemma_unesc_bounds(s, j + 6, acc + utf8_enc(cp));
                        }
                    }
                } else if e == 0x22 {
                    lemma_unesc_bounds(s, j + 2, acc.push(0x22));
                } else if e == 0x5C {
                    lemma_unesc_bounds(s, j + 2, acc.push(0x5C));
                } else if e == 0x2F {
                    lemma_unesc_bounds(s, j + 2, acc.push(0x2F));
                } else if e == 0x62 {
                    lemma_unesc_bounds(s, j + 2, acc.push(0x08));
                } else if e == 0x66 {
                    lemma_unesc_bounds(s, j + 2, acc.push(0x0C));
                } else if e == 0x6E {
                    lemma_unesc_bounds(s, j + 2, acc.push(0x0A));
                } else if e == 0x72 {
                    lemma_unesc_bounds(s, j + 2, acc.push(0x0D));
                } else if e == 0x74 {
                    lemma_unesc_bounds(s, j + 2, acc.push(0x09));
                }
            }
        } else if s[j] < 0x20 {
        } else {
            lemma_unesc_bounds(s, j + 1, acc.push(s[j]));
        }
    }
}

/// A successfully parsed string yields a well-formed key or leaf.
pub proof fn lemma_sp_string_wf(s: Seq<u8>, i: int)
    requires
        0 <= i < s.len(),
        s.len() <= usize::MAX,
    ensures
        (match sp_string(s, i) {
            PR::POk(t, end) => i < end <= s.len() && crate::value::wf_gtext(s, t),
            PR::PFail(_) => true,
        }),
{
    lemma_raw_end(s, i + 1);
    let k = raw_end(s, i + 1);
    if k < s.len() {
        if s[k] == 0x22 {
            if is_utf8(s.subrange(i + 1, k)) {
                let sp = Span { start: (i + 1) as usize, len: (k - i - 1) as usize };
                assert(sp.bytes_of(s) == s.subrange(i + 1, k));
                assert forall|j: int|
                    0 <= j < sp.bytes_of(s).len() implies !crate::value::must_escape(
                    #[trigger] sp.bytes_of(s)[j],
                ) by {
                    assert(sp.bytes_of(s)[j] == s[i + 1 + j]);
                }
            }
        } else if s[k] == 0x5C {
            lemma_unesc_bounds(s, i + 1, Seq::empty());
        }
    }
}

/// Bounds of a complete number token.
pub proof fn lemma_num_end_bounds(s: Seq<u8>, i: int)
    requires
        0 <= i,
    ensures
        (match num_end(s, i) {
            Some(end) => i < end <= s.len(),
            None => true,
        }),
{
    let i1 = if 0 <= i < s.len() && s[i] == 0x2D {
        i + 1
    } else {
        i
    };
    if int_end(s, i1) is Some {
        let i2 = int_end(s, i1)->0;
        crate::num::lemma_digits_end(s, i1 + 1);
        assert(i1 < i2 <= s.len());
        if frac_end(s, i2) is Some {
            let i3 = frac_end(s, i2)->0;
            if 0 <= i2 < s.len() && s[i2] == 0x2E {
                crate::num::lemma_digits_end(s, i2 + 1);
            }
            assert(i2 <= i3 <= s.len());
            if exp_end(s, i3) is Some {
                let e = exp_end(s, i3)->0;
                if 0 <= i3 < s.len() && (s[i3] == 0x65 || s[i3] == 0x45) {
                    let j = if i3 + 1 < s.len() && (s[i3 + 1] == 0x2B || s[i3 + 1] == 0x2D) {
                        i3 + 2
                    } else {
                        i3 + 1
                    };
                    crate::num::lemma_digits_end(s, j);
                }
                assert(i3 <= e <= s.len());
            }
        }
    }
}

/// A successfully parsed number is a well-formed number value.
pub proof fn lemma_sp_num_wf(s: Seq<u8>, i: int)
    requires
        0 <= i,
    ensures
        (match sp_num(s, i) {
            PR::POk(n, end) => i < end <= s.len() && crate::value::wf_gnum(n),
            PR::PFail(_) => true,
        }),
{
    lemma_num_end_bounds(s, i);
    if num_end(s, i) is Some {
        let end = num_end(s, i)->0;
        crate::num::lemma_num_token(s, i, end);
        let t = s.subrange(i, end);
        let n = classify_num(t);
        match n {
            GNumber::Unsigned(_) => {},
            GNumber::Signed(_) => {},
            GNumber::Decimal(t0) => {
                assert(t0 == t);
            },
        }
    }
}

/// The head key of an inserted entry list is the smaller of the new key
/// and the old head key.
pub proof fn lemma_insert_sorted_shape(
    buf: Seq<u8>,
    ents: Seq<(GText, GValue)>,
    k: GText,
    v: GValue,
)
    ensures
        insert_sorted(buf, ents, k, v).len() >= 1,
        insert_sorted(buf, ents, k, v)[0] == (k, v) || (ents.len() >= 1 && insert_sorted(
            buf,
            ents,
            k,
            v,
        )[0] == ents[0]),
{
    let r = insert_sorted(buf, ents, k, v);
    if ents.len() == 0 {
        assert(r == seq![(k, v)]);
        assert(r[0] == (k, v));
    } else {
        let kb = gtext_bytes(buf, k);
        let k0 = gtext_bytes(buf, ents[0].0);
        if lex_lt(kb, k0) {
            assert(r == seq![(k, v)] + ents);
            assert(r[0] == (k, v));
        } else if kb == k0 {
            assert(r == seq![(k, v)] + ents.subrange(1, ents.len() as int));
            assert(r[0] == (k, v));
        } else {
            assert(r == seq![ents[0]] + insert_sorted(
                buf,
                ents.subrange(1, ents.len() as int),
                k,
                v,
            ));
            assert(r[0] == ents[0]);
        }
    }
}

/// Inserting a well-formed entry into well-formed, sorted entries keeps
/// every entry property (and the sortedness that makes keys unique).
pub proof fn lemma_insert_sorted_props(
    buf: Seq<u8>,
    ents: Seq<(GText, GValue)>,
    k: GText,
    v: GValue,
    d: nat,
)
    requires
        crate::value::wf_entries(buf, ents),
        crate::value::entries_sorted(buf, ents),
        crate::value::fits_depth_entries(ents, d),
        crate::value::no_bytes_entries(ents),
        crate::value::wf_gtext(buf, k),
        crate::value::wf_gval(buf, v),
        crate::value::fits_depth(v, d),
        crate::value::no_bytes_leaf(v),
    ensures
        crate::value::wf_entries(buf, insert_sorted(buf, ents, k, v)),
        crate::value::entries_sorted(buf, insert_sorted(buf, ents, k, v)),
        crate::value::fits_depth_entries(insert_sorted(buf, ents, k, v), d),
        crate::value::no_bytes_entries(insert_sorted(buf, ents, k, v)),
    decreases ents.len(),
{
    let r = insert_sorted(buf, ents, k, v);
    let kb = gtext_bytes(buf, k);
    assert(crate::value::wf_entries(buf, Seq::<(GText, GValue)>::empty()));
    assert(crate::value::entries_sorted(buf, Seq::<(GText, GValue)>::empty()));
    assert(crate::value::fits_depth_entries(Seq::<(GText, GValue)>::empty(), d));
    assert(crate::value::no_bytes_entries(Seq::<(GText, GValue)>::empty()));
    if ents.len() == 0 {
        assert(r == seq![(k, v)]);
        assert(r.subrange(1, 1) =~= Seq::<(GText, GValue)>::empty());
        assert(r[0] == (k, v));
        assert(crate::value::wf_entries(buf, r));
        assert(crate::value::entries_sorted(buf, r));
        assert(crate::value::fits_depth_entries(r, d));
        assert(crate::value::no_bytes_entries(r));
    } else {
        let k0 = gtext_bytes(buf, ents[0].0);
        let rest = ents.subrange(1, ents.len() as int);
        if lex_lt(kb, k0) {
            assert(r == seq![(k, v)] + ents);
            assert(r.subrange(1, r.len() as int) =~= ents);
            assert(r[0] == (k, v));
            assert(r[1] == ents[0]);
            assert(crate::value::wf_entries(buf, r));
            assert(crate::value::entries_sorted(buf, r));
            assert(crate::value::fits_depth_entries(r, d));
            assert(crate::value::no_bytes_entries(r));
        } else if kb == k0 {
            assert(r == seq![(k, v)] + rest);
            assert(r.subrange(1, r.len() as int) =~= rest);
            assert(r[0] == (k, v));
            if rest.len() >= 1 {
                assert(r[1] == rest[0]);
                assert(rest[0] == ents[1]);
                assert(lex_lt(k0, gtext_bytes(buf, ents[1].0)));
            }
            assert(crate::value::wf_entries(buf, r));
            assert(crate::value::entries_sorted(buf, r));
            assert(crate::value::fits_depth_entries(r, d));
            assert(crate::value::no_bytes_entries(r));
        } else {
            crate::value::lemma_lex_lt_trichotomy(kb, k0);
            assert(lex_lt(k0, kb));
            lemma_insert_sorted_props(buf, rest, k, v, d);
            let rr = insert_sorted(buf, rest, k, v);
            assert(r == seq![ents[0]] + rr);
            assert(r.subrange(1, r.len() as int) =~= rr);
            assert(r[0] == ents[0]);
            lemma_insert_sorted_shape(buf, rest, k, v);
            assert(r[1] == rr[0]);
            if rr[0] == (k, v) {
                assert(lex_lt(gtext_bytes(buf, r[0].0), gtext_bytes(buf, r[1].0)));
            } else {
                assert(rr[0] == rest[0]);
                assert(rest[0] == ents[1]);
                assert(lex_lt(gtext_bytes(buf, r[0].0), gtext_bytes(buf, r[1].0)));
            }
            assert(crate::value::wf_entries(buf, r));
            assert(crate::value::entries_sorted(buf, r));
            assert(crate::value::fits_depth_entries(r, d));
            assert(crate::value::no_bytes_entries(r));
        }
    }
}

/// A successfully parsed value is well formed against the input, nests
/// within the depth allowance, and has no `Bytes` leaf.
pub proof fn lemma_sp_value_wf(s: Seq<u8>, i: int, d: nat)
    requires
        s.len() <= usize::MAX,
    ensures
        (match sp_value(s, i, d) {
            PR::POk(g, end) => i < end <= s.len() && crate::value::wf_gval(s, g)
                && crate::value::fits_depth(g, d) && crate::value::no_bytes_leaf(g),
            PR::PFail(_) => true,
        }),
    decreases s.len() - i, 0nat,
{
    if 0 <= i < s.len() {
        let b = s[i];
        if b == 0x22 {
            lemma_sp_string_wf(s, i);
        } else if b == 0x2D || is_digit(b) {
            lemma_sp_num_wf(s, i);
        } else if b == 0x5B {
            if d > 0 {
                lemma_skip_ws(s, i + 1);
                let j = skip_ws(s, i + 1);
                assert(crate::value::wf_elems(s, Seq::<GValue>::empty()));
                assert(crate::value::fits_depth_elems(Seq::<GValue>::empty(), (d - 1) as nat));
                assert(crate::value::no_bytes_elems(Seq::<GValue>::empty()));
                if j < s.len() && s[j] != 0x5D && j > i {
                    lemma_sp_elems_wf(s, j, (d - 1) as nat, Seq::empty());
                }
            }
        } else if b == 0x7B {
            if d > 0 {
                lemma_skip_ws(s, i + 1);
                let j = skip_ws(s, i + 1);
                assert(crate::value::wf_entries(s, Seq::<(GText, GValue)>::empty()));
                assert(crate::value::entries_sorted(s, Seq::<(GText, GValue)>::empty()));
                assert(crate::value::fits_depth_entries(
                    Seq::<(GText, GValue)>::empty(),
                    (d - 1) as nat,
                ));
                assert(crate::value::no_bytes_entries(Seq::<(GText, GValue)>::empty()));
                if j < s.len() && s[j] != 0x7D && j > i {
                    lemma_sp_members_wf(s, j, (d - 1) as nat, Seq::empty());
                }
            }
        }
    }
}

/// Helper for [`lemma_sp_value_wf`]: array elements.
pub proof fn lemma_sp_elems_wf(s: Seq<u8>, i: int, d: nat, acc: Seq<GValue>)
    requires
        s.len() <= usize::MAX,
        crate::value::wf_elems(s, acc),
        crate::value::fits_depth_elems(acc, d),
        crate::value::no_bytes_elems(acc),
    ensures
        (match sp_elems(s, i, d, acc) {
            PR::POk(g, end) => i < end <= s.len() && (match g {
                GValue::Array(acc2) => crate::value::wf_elems(s, acc2)
                    && crate::value::fits_depth_elems(acc2, d) && crate::value::no_bytes_elems(
                    acc2,
                ),
                _ => false,
            }),
            PR::PFail(_) => true,
        }),
    decreases s.len() - i, 1nat,
{
    lemma_sp_value_wf(s, i, d);
    match sp_value(s, i, d) {
        PR::POk(v, end) => {
            let acc2 = acc.push(v);
            proof_push_elem_props(s, acc, v, d);
            lemma_skip_ws(s, end);
            let j = skip_ws(s, end);
            if j < s.len() {
                if s[j] == 0x5D {
                } else if s[j] == 0x2C {
                    let j2 = skip_ws(s, j + 1);
                    if j2 > i && j2 <= s.len() {
                        lemma_sp_elems_wf(s, j2, d, acc2);
                    }
                }
            }
        },
        PR::PFail(_) => {},
    }
}

/// Pushing a well-formed element keeps the element-list properties.
pub proof fn proof_push_elem_props(s: Seq<u8>, acc: Seq<GValue>, v: GValue, d: nat)
    requires
        crate::value::wf_elems(s, acc),
        crate::value::fits_depth_elems(acc, d),
        crate::value::no_bytes_elems(acc),
        crate::value::wf_gval(s, v),
        crate::value::fits_depth(v, d),
        crate::value::no_bytes_leaf(v),
    ensures
        crate::value::wf_elems(s, acc.push(v)),
        crate::value::fits_depth_elems(acc.push(v), d),
        crate::value::no_bytes_elems(acc.push(v)),
{
    let acc2 = acc.push(v);
    crate::value::lemma_wf_elems(s, acc);
    crate::value::lemma_wf_elems(s, acc2);
    crate::value::lemma_fits_depth_elems(acc, d);
    crate::value::lemma_fits_depth_elems(acc2, d);
    crate::value::lemma_no_bytes_elems(acc);
    crate::value::lemma_no_bytes_elems(acc2);
    assert forall|p: int| 0 <= p < acc2.len() implies crate::value::wf_gval(
        s,
        #[trigger] acc2[p],
    ) && crate::value::fits_depth(acc2[p], d) && crate::value::no_bytes_leaf(acc2[p]) by {
        if p < acc.len() {
            assert(acc2[p] == acc[p]);
        } else {
            assert(acc2[p] == v);
        }
    }
}

/// Helper for [`lemma_sp_value_wf`]: object members.
pub proof fn lemma_sp_members_wf(s: Seq<u8>, i: int, d: nat, acc: Seq<(GText, GValue)>)
    requires
        s.len() <= usize::MAX,
        crate::value::wf_entries(s, acc),
        crate::value::entries_sorted(s, acc),
        crate::value::fits_depth_entries(acc, d),
        crate::value::no_bytes_entries(acc),
    ensures
        (match sp_members(s, i, d, acc) {
            PR::POk(g, end) => i < end <= s.len() && (match g {
                GValue::Object(acc2) => crate::value::wf_entries(s, acc2)
                    && crate::value::entries_sorted(s, acc2) && crate::value::fits_depth_entries(
                    acc2,
                    d,
                ) && crate::value::no_bytes_entries(acc2),
                _ => false,
            }),
            PR::PFail(_) => true,
        }),
    decreases s.len() - i, 1nat,
{
    if 0 <= i < s.len() && s[i] == 0x22 {
        lemma_sp_string_wf(s, i);
        match sp_string(s, i) {
            PR::POk(k, i2) => {
                lemma_skip_ws(s, i2);
                let j = skip_ws(s, i2);
                if j < s.len() && s[j] == 0x3A {
                    let j2 = skip_ws(s, j + 1);
                    if !(j2 <= i || j2 > s.len()) {
                        lemma_sp_value_wf(s, j2, d);
                        match sp_value(s, j2, d) {
                            PR::POk(v, i3) => {
                                let acc2 = insert_sorted(s, acc, k, v);
                                lemma_insert_sorted_props(s, acc, k, v, d);
                                lemma_skip_ws(s, i3);
                                let j3 = skip_ws(s, i3);
                                if j3 < s.len() {
                                    if s[j3] == 0x7D {
                                    } else if s[j3] == 0x2C {
                                        let j4 = skip_ws(s, j3 + 1);
                                        if j4 > i && j4 <= s.len() {
                                            lemma_sp_members_wf(s, j4, d, acc2);
                                        }
                                    }
                                }
                            },
                            PR::PFail(_) => {},
                        }
                    }
                }
            },
            PR::PFail(_) => {},
        }
    }
}

/// Everything the decoder returns is well formed: in bounds of the
/// input, UTF-8 where it claims text, sorted and unique in object keys,
/// within the nesting limit, and free of `Bytes` leaves.
pub proof fn lemma_sp_doc_wf(s: Seq<u8>)
    requires
        s.len() <= usize::MAX,
    ensures
        (match sp_doc(s) {
            PR::POk(g, _) => crate::value::wf_gval(s, g) && crate::value::fits_depth(
                g,
                MAX_DEPTH as nat,
            ) && crate::value::no_bytes_leaf(g),
            PR::PFail(_) => true,
        }),
{
    let i = skip_ws(s, 0);
    lemma_sp_value_wf(s, i, MAX_DEPTH as nat);
}

/// Last write wins: after inserting `(k, v)`, the key resolves to
/// exactly `v`, whatever was stored before.
pub proof fn lemma_insert_lookup(buf: Seq<u8>, ents: Seq<(GText, GValue)>, k: GText, v: GValue)
    ensures
        crate::value::obj_lookup(buf, insert_sorted(buf, ents, k, v), gtext_bytes(buf, k))
            == Some(v),
    decreases ents.len(),
{
    let r = insert_sorted(buf, ents, k, v);
    let kb = gtext_bytes(buf, k);
    if ents.len() == 0 {
        assert(r == seq![(k, v)]);
        assert(r[0] == (k, v));
    } else {
        let k0 = gtext_bytes(buf, ents[0].0);
        let rest = ents.subrange(1, ents.len() as int);
        if lex_lt(kb, k0) {
            assert(r == seq![(k, v)] + ents);
            assert(r[0] == (k, v));
        } else if kb == k0 {
            assert(r == seq![(k, v)] + rest);
            assert(r[0] == (k, v));
        } else {
            crate::value::lemma_lex_lt_trichotomy(kb, k0);
            let rr = insert_sorted(buf, rest, k, v);
            assert(r == seq![ents[0]] + rr);
            assert(r[0] == ents[0]);
            assert(gtext_bytes(buf, r[0].0) != kb);
            lemma_insert_lookup(buf, rest, k, v);
            assert(r.subrange(1, r.len() as int) =~= rr);
        }
    }
}

/// Inserting a borrowed key and an alias-only value keeps the entry list
/// alias-only.
pub proof fn lemma_insert_sorted_borrowed(
    buf: Seq<u8>,
    ents: Seq<(GText, GValue)>,
    k: GText,
    v: GValue,
)
    requires
        crate::value::all_borrowed_entries(ents),
        k is Borrowed,
        crate::value::all_borrowed(v),
    ensures
        crate::value::all_borrowed_entries(insert_sorted(buf, ents, k, v)),
    decreases ents.len(),
{
    let r = insert_sorted(buf, ents, k, v);
    let kb = gtext_bytes(buf, k);
    assert(crate::value::all_borrowed_entries(Seq::<(GText, GValue)>::empty()));
    if ents.len() == 0 {
        assert(r == seq![(k, v)]);
        assert(r[0] == (k, v));
        assert(r.subrange(1, 1) =~= Seq::<(GText, GValue)>::empty());
        assert(crate::value::all_borrowed_entries(r));
    } else {
        let k0 = gtext_bytes(buf, ents[0].0);
        let rest = ents.subrange(1, ents.len() as int);
        if lex_lt(kb, k0) {
            assert(r == seq![(k, v)] + ents);
            assert(r[0] == (k, v));
            assert(r.subrange(1, r.len() as int) =~= ents);
            assert(crate::value::all_borrowed_entries(r));
        } else if kb == k0 {
            assert(r == seq![(k, v)] + rest);
            assert(r[0] == (k, v));
            assert(r.subrange(1, r.len() as int) =~= rest);
            assert(crate::value::all_borrowed_entries(r));
        } else {
            lemma_insert_sorted_borrowed(buf, rest, k, v);
            let rr = insert_sorted(buf, rest, k, v);
            assert(r == seq![ents[0]] + rr);
            assert(r[0] == ents[0]);
            assert(r.subrange(1, r.len() as int) =~= rr);
            assert(crate::value::all_borrowed_entries(r));
        }
    }
}

/// Pushing an alias-only element keeps the element list alias-only.
pub proof fn lemma_push_borrowed(els: Seq<GValue>, v: GValue)
    requires
        crate::value::all_borrowed_elems(els),
        crate::value::all_borrowed(v),
    ensures
        crate::value::all_borrowed_elems(els.push(v)),
    decreases els.len(),
{
    let r = els.push(v);
    if els.len() == 0 {
        assert(r[0] == v);
        assert(r.subrange(1, 1) =~= Seq::<GValue>::empty());
        assert(crate::value::all_borrowed_elems(Seq::<GValue>::empty()));
        assert(crate::value::all_borrowed_elems(r));
    } else {
        let rest = els.subrange(1, els.len() as int);
        lemma_push_borrowed(rest, v);
        assert(r[0] == els[0]);
        assert(r.subrange(1, r.len() as int) =~= rest.push(v));
        assert(crate::value::all_borrowed_elems(r));
    }
}

/// Zero-copy: when the input holds no backslash, every string leaf and
/// every key of a successfully parsed value borrows from the input.
pub proof fn lemma_sp_value_zero_copy(s: Seq<u8>, i: int, d: nat)
    requires
        forall|j: int| 0 <= j < s.len() ==> s[j] != 0x5C,
    ensures
        (match sp_value(s, i, d) {
            PR::POk(g, _) => crate::value::all_borrowed(g),
            PR::PFail(_) => true,
        }),
    decreases s.len() - i, 0nat,
{
    if 0 <= i < s.len() {
        let b = s[i];
        if b == 0x22 {
            lemma_raw_end(s, i + 1);
        } else if b == 0x5B {
            if d > 0 {
                let j = skip_ws(s, i + 1);
                if j < s.len() && s[j] != 0x5D && j > i {
                    assert(crate::value::all_borrowed_elems(Seq::<GValue>::empty()));
                    lemma_sp_elems_zero_copy(s, j, (d - 1) as nat, Seq::empty());
                }
            }
        } else if b == 0x7B {
            if d > 0 {
                let j = skip_ws(s, i + 1);
                if j < s.len() && s[j] != 0x7D && j > i {
                    assert(crate::value::all_borrowed_entries(Seq::<(GText, GValue)>::empty()));
                    lemma_sp_members_zero_copy(s, j, (d - 1) as nat, Seq::empty());
                }
            }
        }
    }
}

/// Helper for [`lemma_sp_value_zero_copy`]: array elements.
pub proof fn lemma_sp_elems_zero_copy(s: Seq<u8>, i: int, d: nat, acc: Seq<GValue>)
    requires
        forall|j: int| 0 <= j < s.len() ==> s[j] != 0x5C,
        crate::value::all_borrowed_elems(acc),
    ensures
        (match sp_elems(s, i, d, acc) {
            PR::POk(g, _) => crate::value::all_borrowed(g),
            PR::PFail(_) => true,
        }),
    decreases s.len() - i, 1nat,
{
    lemma_sp_value_zero_copy(s, i, d);
    match sp_value(s, i, d) {
        PR::POk(v, end) => {
            let acc2 = acc.push(v);
            lemma_push_borrowed(acc, v);
            let j = skip_ws(s, end);
            if j < s.len() {
                if s[j] == 0x5D {
                } else if s[j] == 0x2C {
                    let j2 = skip_ws(s, j + 1);
                    if j2 > i && j2 <= s.len() {
                        lemma_sp_elems_zero_copy(s, j2, d, acc2);
                    }
                }
            }
        },
        PR::PFail(_) => {},
    }
}

/// Helper for [`lemma_sp_value_zero_copy`]: object members.
pub proof fn lemma_sp_members_zero_copy(s: Seq<u8>, i: int, d: nat, acc: Seq<(GText, GValue)>)
    requires
        forall|j: int| 0 <= j < s.len() ==> s[j] != 0x5C,
        crate::value::all_borrowed_entries(acc),
    ensures
        (match sp_members(s, i, d, acc) {
            PR::POk(g, _) => crate::value::all_borrowed(g),
            PR::PFail(_) => true,
        }),
    decreases s.len() - i, 1nat,
{
    if 0 <= i < s.len() && s[i] == 0x22 {
        lemma_raw_end(s, i + 1);
        match sp_string(s, i) {
            PR::POk(k, i2) => {
                assert(k is Borrowed);
                let j = skip_ws(s, i2);
                if j < s.len() && s[j] == 0x3A {
                    let j2 = skip_ws(s, j + 1);
                    if !(j2 <= i || j2 > s.len()) {
                        lemma_sp_value_zero_copy(s, j2, d);
                        match sp_value(s, j2, d) {
                            PR::POk(v, i3) => {
                                let acc2 = insert_sorted(s, acc, k, v);
                                lemma_insert_sorted_borrowed(s, acc, k, v);
                                let j3 = skip_ws(s, i3);
                                if j3 < s.len() {
                                    if s[j3] == 0x7D {
                                    } else if s[j3] == 0x2C {
                                        let j4 = skip_ws(s, j3 + 1);
                                        if j4 > i && j4 <= s.len() {
                                            lemma_sp_members_zero_copy(s, j4, d, acc2);
                                        }
                                    }
                                }
                            },
                            PR::PFail(_) => {},
                        }
                    }
                }
            },
            PR::PFail(_) => {},
        }
    }
}

/// Zero-copy for whole documents: an input without escape sequences
/// decodes to a tree whose every text leaf and key is a span into the
/// input; nothing is copied.
pub proof fn lemma_sp_doc_zero_copy(s: Seq<u8>)
    requires
        forall|j: int| 0 <= j < s.len() ==> s[j] != 0x5C,
    ensures
        (match sp_doc(s) {
            PR::POk(g, _) => crate::value::all_borrowed(g),
            PR::PFail(_) => true,
        }),
{
    lemma_sp_value_zero_copy(s, skip_ws(s, 0), MAX_DEPTH as nat);
}

/// Builds a number value from decimal text: `Some` exactly when the text
/// is one complete JSON number token, classified the same way the
/// decoder classifies it. This is the bridge for numbers produced
/// outside the library (for instance, formatted doubles).
pub fn number_from_decimal(text: &[u8]) -> (r: Option<Value>)
    ensures
        r is Some <==> is_num_token(text@),
        (match r {
            Some(v) => v.dview() == GValue::Number(classify_num(text@)),
            None => true,
        }),
{
    if text.len() == 0 {
        assert(num_end(text@, 0) is None);
        return None;
    }
    match parse_number(text, 0) {
        Ok(p) => {
            if p.1 == text.len() {
                proof {
                    assert(text@.subrange(0, text@.len() as int) =~= text@);
                }
                Some(Value::Number(p.0))
            } else {
                proof {
                    if is_num_token(text@) {
                        assert(num_end(text@, 0) == Some(text@.len() as int));
                    }
                }
                None
            }
        },
        Err(_) => {
            proof {
                if is_num_token(text@) {
                    assert(num_end(text@, 0) == Some(text@.len() as int));
                }
            }
            None
        },
    }
}

/// Inserting under one key leaves every other key's lookup unchanged.
pub proof fn lemma_insert_preserves_others(
    buf: Seq<u8>,
    ents: Seq<(GText, GValue)>,
    k: GText,
    v: GValue,
    kb2: Seq<u8>,
)
    requires
        kb2 != gtext_bytes(buf, k),
    ensures
        crate::value::obj_lookup(buf, insert_sorted(buf, ents, k, v), kb2)
            == crate::value::obj_lookup(buf, ents, kb2),
    decreases ents.len(),
{
    let r = insert_sorted(buf, ents, k, v);
    let kb = gtext_bytes(buf, k);
    if ents.len() == 0 {
        assert(r == seq![(k, v)]);
        assert(r[0] == (k, v));
        assert(r.subrange(1, 1) =~= Seq::<(GText, GValue)>::empty());
    } else {
        let k0 = gtext_bytes(buf, ents[0].0);
        let rest = ents.subrange(1, ents.len() as int);
        if lex_lt(kb, k0) {
            assert(r == seq![(k, v)] + ents);
            assert(r[0] == (k, v));
            assert(r.subrange(1, r.len() as int) =~= ents);
        } else if kb == k0 {
            assert(r == seq![(k, v)] + rest);
            assert(r[0] == (k, v));
            assert(r.subrange(1, r.len() as int) =~= rest);
            assert(crate::value::obj_lookup(buf, ents, kb2) == crate::value::obj_lookup(
                buf,
                rest,
                kb2,
            ));
        } else {
            let rr = insert_sorted(buf, rest, k, v);
            assert(r == seq![ents[0]] + rr);
            assert(r[0] == ents[0]);
            assert(r.subrange(1, r.len() as int) =~= rr);
            lemma_insert_preserves_others(buf, rest, k, v, kb2);
        }
    }
}

} // verus!
