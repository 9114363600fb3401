//! The zero-copy JSON value model.
//!
//! String-like leaves that alias the decoded input are held as [`Span`]s:
//! byte offsets into the input buffer, resolved lazily against it. Leaves
//! that had to be materialized (escape sequences) are held as owned bytes.
//! Numbers are unsigned or signed 64-bit integers, or the exact decimal
//! token text for anything that fits neither.
use vstd::prelude::*;

verus! {

broadcast use vstd::std_specs::vec::axiom_vec_decreases_to_view, vstd::std_specs::vec::axiom_vec_index_decreases, vstd::seq::axiom_seq_index_decreases;

/// A contiguous byte range inside one input buffer.
#[derive(Clone, Copy, PartialEq, Eq, Structural, Debug)]
pub struct Span {
    pub start: usize,
    pub len: usize,
}

impl Span {
    /// The bytes this span selects out of `buf`.
    pub open spec fn bytes_of(self, buf: Seq<u8>) -> Seq<u8> {
        buf.subrange(self.start as int, self.start + self.len)
    }

    /// The span lies inside a buffer of length `blen`.
    pub open spec fn in_bounds(self, blen: nat) -> bool {
        self.start + self.len <= blen
    }
}

/// A JSON number: exact integer when it fits, otherwise the decimal token.
#[derive(Clone, PartialEq, Eq, Debug)]
pub enum Number {
    /// A non-negative integer that fits 64 bits.
    Unsigned(u64),
    /// A negative integer that fits 64 bits.
    Signed(i64),
    /// Any other numeric token, kept as its exact decimal text.
    Decimal(Vec<u8>),
}

/// Object-key text: borrowed from the input buffer, or an owned copy.
#[derive(Clone, PartialEq, Eq, Debug)]
pub enum Text {
    Borrowed(Span),
    Owned(Vec<u8>),
}

/// A decoded JSON value. `Bytes` and `String` alias the input buffer
/// through spans; `OwnedString` is the copying fallback for tokens that
/// required unescaping. Object entries are kept sorted by key bytes with
/// unique keys (duplicate source keys resolve last-write-wins).
#[derive(PartialEq, Eq, Debug)]
pub enum Value {
    Null,
    Bool(bool),
    Number(Number),
    Bytes(Span),
    String(Span),
    OwnedString(Vec<u8>),
    Array(Vec<Value>),
    Object(Vec<(Text, Value)>),
}

/// Ghost mirror of [`Number`].
#[verifier::ext_equal]
pub enum GNumber {
    Unsigned(u64),
    Signed(i64),
    Decimal(Seq<u8>),
}

/// Ghost mirror of [`Text`].
#[verifier::ext_equal]
pub enum GText {
    Borrowed(Span),
    Owned(Seq<u8>),
}

/// Ghost mirror of [`Value`].
#[verifier::ext_equal]
pub enum GValue {
    Null,
    Bool(bool),
    Number(GNumber),
    Bytes(Span),
    String(Span),
    OwnedString(Seq<u8>),
    Array(Seq<GValue>),
    Object(Seq<(GText, GValue)>),
}

impl Number {
    pub open spec fn dview(self) -> GNumber {
        match self {
            Number::Unsigned(u) => GNumber::Unsigned(u),
            Number::Signed(i) => GNumber::Signed(i),
            Number::Decimal(t) => GNumber::Decimal(t@),
        }
    }
}

impl Text {
    pub open spec fn dview(self) -> GText {
        match self {
            Text::Borrowed(sp) => GText::Borrowed(sp),
            Text::Owned(t) => GText::Owned(t@),
        }
    }
}

impl Value {
    pub open spec fn dview(self) -> GValue
        decreases self,
    {
        match self {
            Value::Null => GValue::Null,
            Value::Bool(b) => GValue::Bool(b),
            Value::Number(n) => GValue::Number(n.dview()),
            Value::Bytes(sp) => GValue::Bytes(sp),
            Value::String(sp) => GValue::String(sp),
            Value::OwnedString(t) => GValue::OwnedString(t@),
            Value::Array(els) => GValue::Array(dview_elems(els@)),
            Value::Object(ents) => GValue::Object(dview_entries(ents@)),
        }
    }
}

pub open spec fn dview_elems(els: Seq<Value>) -> Seq<GValue>
    decreases els,
{
    if els.len() == 0 {
        Seq::empty()
    } else {
        seq![els[0].dview()] + dview_elems(els.subrange(1, els.len() as int))
    }
}

pub open spec fn dview_entries(ents: Seq<(Text, Value)>) -> Seq<(GText, GValue)>
    decreases ents,
{
    if ents.len() == 0 {
        Seq::empty()
    } else {
        seq![(ents[0].0.dview(), ents[0].1.dview())] + dview_entries(
            ents.subrange(1, ents.len() as int),
        )
    }
}

/// The deep view of a sequence of values is its element-wise deep view.
pub proof fn lemma_dview_elems(els: Seq<Value>)
    ensures
        dview_elems(els).len() == els.len(),
        forall|i: int| 0 <= i < els.len() ==> dview_elems(els)[i] == #[trigger] els[i].dview(),
    decreases els,
{
    if els.len() > 0 {
        let rest = els.subrange(1, els.len() as int);
        lemma_dview_elems(rest);
        assert forall|i: int| 0 <= i < els.len() implies dview_elems(els)[i]
            == #[trigger] els[i].dview() by {
            if i > 0 {
                assert(rest[i - 1] == els[i]);
                assert(dview_elems(els)[i] == dview_elems(rest)[i - 1]);
            }
        }
    }
}

/// The deep view of an entry sequence is its entry-wise deep view.
pub proof fn lemma_dview_entries(ents: Seq<(Text, Value)>)
    ensures
        dview_entries(ents).len() == ents.len(),
        forall|i: int| 0 <= i < ents.len() ==> dview_entries(ents)[i] == (
        #[trigger] ents[i].0.dview(),
        ents[i].1.dview(),
        ),
    decreases ents,
{
    if ents.len() > 0 {
        let rest = ents.subrange(1, ents.len() as int);
        lemma_dview_entries(rest);
        assert forall|i: int| 0 <= i < ents.len() implies dview_entries(ents)[i] == (
        #[trigger] ents[i].0.dview(),
        ents[i].1.dview(),
        ) by {
            if i > 0 {
                assert(rest[i - 1] == ents[i]);
                assert(dview_entries(ents)[i] == dview_entries(rest)[i - 1]);
            }
        }
    }
}

/// Strict byte-lexicographic order, the order object keys are kept in
/// (it coincides with the standard ordering of UTF-8 text).
pub open spec fn lex_lt(a: Seq<u8>, b: Seq<u8>) -> bool
    decreases a.len(),
{
    if b.len() == 0 {
        false
    } else if a.len() == 0 {
        true
    } else if a[0] < b[0] {
        true
    } else if a[0] > b[0] {
        false
    } else {
        lex_lt(a.skip(1), b.skip(1))
    }
}

pub proof fn lemma_lex_lt_irrefl(a: Seq<u8>)
    ensures
        !lex_lt(a, a),
    decreases a.len(),
{
    if a.len() > 0 {
        lemma_lex_lt_irrefl(a.skip(1));
    }
}

/// Exactly one of `lex_lt(a, b)`, `a == b`, `lex_lt(b, a)` holds.
pub proof fn lemma_lex_lt_trichotomy(a: Seq<u8>, b: Seq<u8>)
    ensures
        lex_lt(a, b) || a == b || lex_lt(b, a),
        lex_lt(a, b) ==> a != b && !lex_lt(b, a),
        a == b ==> !lex_lt(a, b) && !lex_lt(b, a),
    decreases a.len(),
{
    lemma_lex_lt_irrefl(a);
    lemma_lex_lt_irrefl(b);
    if a.len() > 0 && b.len() > 0 && a[0] == b[0] {
        lemma_lex_lt_trichotomy(a.skip(1), b.skip(1));
        if a.skip(1) == b.skip(1) {
            assert forall|i: int| 0 <= i < a.len() implies a[i] == b[i] by {
                if i > 0 {
                    assert(a.skip(1)[i - 1] == b.skip(1)[i - 1]);
                }
            }
            assert(a =~= b);
        }
    } else if a.len() == 0 && b.len() == 0 {
        assert(a =~= b);
    }
}

pub proof fn lemma_lex_lt_trans(a: Seq<u8>, b: Seq<u8>, c: Seq<u8>)
    requires
        lex_lt(a, b),
        lex_lt(b, c),
    ensures
        lex_lt(a, c),
    decreases a.len(),
{
    if a.len() > 0 && b.len() > 0 && c.len() > 0 && a[0] == b[0] && b[0] == c[0] {
        lemma_lex_lt_trans(a.skip(1), b.skip(1), c.skip(1));
    }
}

/// The key bytes a [`GText`] denotes, resolved against the input buffer.
pub open spec fn gtext_bytes(buf: Seq<u8>, t: GText) -> Seq<u8> {
    match t {
        GText::Borrowed(sp) => sp.bytes_of(buf),
        GText::Owned(s) => s,
    }
}

/// A byte that cannot stand unescaped inside a JSON string literal.
pub open spec fn must_escape(b: u8) -> bool {
    b < 0x20 || b == 0x22 || b == 0x5C
}

/// Bytes that may be emitted verbatim between quotes: well-formed UTF-8
/// with nothing that requires escaping.
pub open spec fn raw_str_ok(s: Seq<u8>) -> bool {
    crate::utf8::is_utf8(s) && forall|i: int| 0 <= i < s.len() ==> !must_escape(#[trigger] s[i])
}

pub open spec fn wf_gnum(n: GNumber) -> bool {
    match n {
        GNumber::Unsigned(_) => true,
        GNumber::Signed(x) => x < 0,
        GNumber::Decimal(t) => crate::num::is_num_token(t) && crate::num::classify_num(t)
            == GNumber::Decimal(t),
    }
}

/// A well-formed key: a borrowed one lies in the buffer and could have
/// stood verbatim in source text; an owned one is UTF-8.
pub open spec fn wf_gtext(buf: Seq<u8>, t: GText) -> bool {
    match t {
        GText::Borrowed(sp) => sp.in_bounds(buf.len()) && raw_str_ok(sp.bytes_of(buf)),
        GText::Owned(s) => crate::utf8::is_utf8(s),
    }
}

/// Object entries are strictly ascending in resolved key bytes
/// (hence keys are unique).
pub open spec fn entries_sorted(buf: Seq<u8>, ents: Seq<(GText, GValue)>) -> bool
    decreases ents.len(),
{
    if ents.len() <= 1 {
        true
    } else {
        lex_lt(gtext_bytes(buf, ents[0].0), gtext_bytes(buf, ents[1].0)) && entries_sorted(
            buf,
            ents.subrange(1, ents.len() as int),
        )
    }
}

/// Sorted entries are pairwise ascending, not only adjacently.
pub proof fn lemma_entries_sorted_pairwise(buf: Seq<u8>, ents: Seq<(GText, GValue)>)
    requires
        entries_sorted(buf, ents),
    ensures
        forall|i: int, j: int|
            0 <= i < j < ents.len() ==> lex_lt(
                gtext_bytes(buf, (#[trigger] ents[i]).0),
                gtext_bytes(buf, (#[trigger] ents[j]).0),
            ),
    decreases ents.len(),
{
    if ents.len() > 1 {
        let rest = ents.subrange(1, ents.len() as int);
        lemma_entries_sorted_pairwise(buf, rest);
        assert forall|i: int, j: int| 0 <= i < j < ents.len() implies lex_lt(
            gtext_bytes(buf, (#[trigger] ents[i]).0),
            gtext_bytes(buf, (#[trigger] ents[j]).0),
        ) by {
            if i == 0 {
                if j == 1 {
                } else {
                    assert(rest[0] == ents[1]);
                    assert(rest[j - 1] == ents[j]);
                    assert(lex_lt(
                        gtext_bytes(buf, rest[0].0),
                        gtext_bytes(buf, rest[j - 1].0),
                    ));
                    lemma_lex_lt_trans(
                        gtext_bytes(buf, ents[0].0),
                        gtext_bytes(buf, ents[1].0),
                        gtext_bytes(buf, ents[j].0),
                    );
                }
            } else {
                assert(rest[i - 1] == ents[i]);
                assert(rest[j - 1] == ents[j]);
                assert(lex_lt(
                    gtext_bytes(buf, rest[i - 1].0),
                    gtext_bytes(buf, rest[j - 1].0),
                ));
            }
        }
    }
}

/// Well-formedness of a value against the buffer its spans point into.
pub open spec fn wf_gval(buf: Seq<u8>, g: GValue) -> bool
    decreases g,
{
    match g {
        GValue::Null => true,
        GValue::Bool(_) => true,
        GValue::Number(n) => wf_gnum(n),
        GValue::Bytes(sp) => sp.in_bounds(buf.len()),
        GValue::String(sp) => sp.in_bounds(buf.len()) && raw_str_ok(sp.bytes_of(buf)),
        GValue::OwnedString(s) => crate::utf8::is_utf8(s),
        GValue::Array(els) => wf_elems(buf, els),
        GValue::Object(ents) => wf_entries(buf, ents) && entries_sorted(buf, ents),
    }
}

pub open spec fn wf_elems(buf: Seq<u8>, els: Seq<GValue>) -> bool
    decreases els,
{
    if els.len() == 0 {
        true
    } else {
        wf_gval(buf, els[0]) && wf_elems(buf, els.subrange(1, els.len() as int))
    }
}

pub open spec fn wf_entries(buf: Seq<u8>, ents: Seq<(GText, GValue)>) -> bool
    decreases ents,
{
    if ents.len() == 0 {
        true
    } else {
        wf_gtext(buf, ents[0].0) && wf_gval(buf, ents[0].1) && wf_entries(
            buf,
            ents.subrange(1, ents.len() as int),
        )
    }
}

pub proof fn lemma_wf_elems(buf: Seq<u8>, els: Seq<GValue>)
    ensures
        wf_elems(buf, els) <==> (forall|i: int|
            0 <= i < els.len() ==> wf_gval(buf, #[trigger] els[i])),
    decreases els,
{
    if els.len() > 0 {
        let rest = els.subrange(1, els.len() as int);
        lemma_wf_elems(buf, rest);
        if wf_elems(buf, els) {
            assert forall|i: int| 0 <= i < els.len() implies wf_gval(buf, #[trigger] els[i]) by {
                if i > 0 {
                    assert(rest[i - 1] == els[i]);
                    assert(wf_gval(buf, rest[i - 1]));
                }
            }
        }
        if forall|i: int| 0 <= i < els.len() ==> wf_gval(buf, #[trigger] els[i]) {
            assert forall|i: int| 0 <= i < rest.len() implies wf_gval(buf, #[trigger] rest[i]) by {
                assert(rest[i] == els[i + 1]);
            }
            assert(wf_gval(buf, els[0]));
        }
    }
}

pub proof fn lemma_wf_entries(buf: Seq<u8>, ents: Seq<(GText, GValue)>)
    ensures
        wf_entries(buf, ents) <==> (forall|i: int|
            0 <= i < ents.len() ==> wf_gtext(buf, (#[trigger] ents[i]).0) && wf_gval(
                buf,
                ents[i].1,
            )),
    decreases ents,
{
    if ents.len() > 0 {
        let rest = ents.subrange(1, ents.len() as int);
        lemma_wf_entries(buf, rest);
        if wf_entries(buf, ents) {
            assert forall|i: int|
                0 <= i < ents.len() implies wf_gtext(buf, (#[trigger] ents[i]).0) && wf_gval(
                buf,
                ents[i].1,
            ) by {
                if i > 0 {
                    assert(rest[i - 1] == ents[i]);
                    assert(wf_gtext(buf, rest[i - 1].0) && wf_gval(buf, rest[i - 1].1));
                }
            }
        }
        if forall|i: int|
            0 <= i < ents.len() ==> wf_gtext(buf, (#[trigger] ents[i]).0) && wf_gval(
                buf,
                ents[i].1,
            ) {
            assert forall|i: int|
                0 <= i < rest.len() implies wf_gtext(buf, (#[trigger] rest[i]).0) && wf_gval(
                buf,
                rest[i].1,
            ) by {
                assert(rest[i] == ents[i + 1]);
            }
            assert(wf_gtext(buf, ents[0].0) && wf_gval(buf, ents[0].1));
        }
    }
}

/// `g` nests no deeper than `d` levels of arrays and objects.
pub open spec fn fits_depth(g: GValue, d: nat) -> bool
    decreases g,
{
    match g {
        GValue::Array(els) => d >= 1 && fits_depth_elems(els, (d - 1) as nat),
        GValue::Object(ents) => d >= 1 && fits_depth_entries(ents, (d - 1) as nat),
        _ => true,
    }
}

pub open spec fn fits_depth_elems(els: Seq<GValue>, d: nat) -> bool
    decreases els,
{
    if els.len() == 0 {
        true
    } else {
        fits_depth(els[0], d) && fits_depth_elems(els.subrange(1, els.len() as int), d)
    }
}

pub open spec fn fits_depth_entries(ents: Seq<(GText, GValue)>, d: nat) -> bool
    decreases ents,
{
    if ents.len() == 0 {
        true
    } else {
        fits_depth(ents[0].1, d) && fits_depth_entries(ents.subrange(1, ents.len() as int), d)
    }
}

/// No `Bytes` leaf occurs anywhere in `g` (the decoder never makes one).
pub open spec fn no_bytes_leaf(g: GValue) -> bool
    decreases g,
{
    match g {
        GValue::Bytes(_) => false,
        GValue::Array(els) => no_bytes_elems(els),
        GValue::Object(ents) => no_bytes_entries(ents),
        _ => true,
    }
}

pub open spec fn no_bytes_elems(els: Seq<GValue>) -> bool
    decreases els,
{
    if els.len() == 0 {
        true
    } else {
        no_bytes_leaf(els[0]) && no_bytes_elems(els.subrange(1, els.len() as int))
    }
}

pub open spec fn no_bytes_entries(ents: Seq<(GText, GValue)>) -> bool
    decreases ents,
{
    if ents.len() == 0 {
        true
    } else {
        no_bytes_leaf(ents[0].1) && no_bytes_entries(ents.subrange(1, ents.len() as int))
    }
}

pub proof fn lemma_no_bytes_elems(els: Seq<GValue>)
    ensures
        no_bytes_elems(els) <==> (forall|i: int|
            0 <= i < els.len() ==> no_bytes_leaf(#[trigger] els[i])),
    decreases els,
{
    if els.len() > 0 {
        let rest = els.subrange(1, els.len() as int);
        lemma_no_bytes_elems(rest);
        if no_bytes_elems(els) {
            assert forall|i: int| 0 <= i < els.len() implies no_bytes_leaf(#[trigger] els[i]) by {
                if i > 0 {
                    assert(rest[i - 1] == els[i]);
                    assert(no_bytes_leaf(rest[i - 1]));
                }
            }
        }
        if forall|i: int| 0 <= i < els.len() ==> no_bytes_leaf(#[trigger] els[i]) {
            assert forall|i: int| 0 <= i < rest.len() implies no_bytes_leaf(
                #[trigger] rest[i],
            ) by {
                assert(rest[i] == els[i + 1]);
            }
            assert(no_bytes_leaf(els[0]));
        }
    }
}

pub proof fn lemma_no_bytes_entries(ents: Seq<(GText, GValue)>)
    ensures
        no_bytes_entries(ents) <==> (forall|i: int|
            0 <= i < ents.len() ==> no_bytes_leaf((#[trigger] ents[i]).1)),
    decreases ents,
{
    if ents.len() > 0 {
        let rest = ents.subrange(1, ents.len() as int);
        lemma_no_bytes_entries(rest);
        if no_bytes_entries(ents) {
            assert forall|i: int| 0 <= i < ents.len() implies no_bytes_leaf(
                (#[trigger] ents[i]).1,
            ) by {
                if i > 0 {
                    assert(rest[i - 1] == ents[i]);
                    assert(no_bytes_leaf(rest[i - 1].1));
                }
            }
        }
        if forall|i: int| 0 <= i < ents.len() ==> no_bytes_leaf((#[trigger] ents[i]).1) {
            assert forall|i: int| 0 <= i < rest.len() implies no_bytes_leaf(
                (#[trigger] rest[i]).1,
            ) by {
                assert(rest[i] == ents[i + 1]);
            }
            assert(no_bytes_leaf(ents[0].1));
        }
    }
}

pub proof fn lemma_fits_depth_elems(els: Seq<GValue>, d: nat)
    ensures
        fits_depth_elems(els, d) <==> (forall|i: int|
            0 <= i < els.len() ==> fits_depth(#[trigger] els[i], d)),
    decreases els,
{
    if els.len() > 0 {
        let rest = els.subrange(1, els.len() as int);
        lemma_fits_depth_elems(rest, d);
        if fits_depth_elems(els, d) {
            assert forall|i: int| 0 <= i < els.len() implies fits_depth(
                #[trigger] els[i],
                d,
            ) by {
                if i > 0 {
                    assert(rest[i - 1] == els[i]);
                    assert(fits_depth(rest[i - 1], d));
                }
            }
        }
        if forall|i: int| 0 <= i < els.len() ==> fits_depth(#[trigger] els[i], d) {
            assert forall|i: int| 0 <= i < rest.len() implies fits_depth(
                #[trigger] rest[i],
                d,
            ) by {
                assert(rest[i] == els[i + 1]);
            }
            assert(fits_depth(els[0], d));
        }
    }
}

pub proof fn lemma_fits_depth_entries(ents: Seq<(GText, GValue)>, d: nat)
    ensures
        fits_depth_entries(ents, d) <==> (forall|i: int|
            0 <= i < ents.len() ==> fits_depth((#[trigger] ents[i]).1, d)),
    decreases ents,
{
    if ents.len() > 0 {
        let rest = ents.subrange(1, ents.len() as int);
        lemma_fits_depth_entries(rest, d);
        if fits_depth_entries(ents, d) {
            assert forall|i: int| 0 <= i < ents.len() implies fits_depth(
                (#[trigger] ents[i]).1,
                d,
            ) by {
                if i > 0 {
                    assert(rest[i - 1] == ents[i]);
                    assert(fits_depth(rest[i - 1].1, d));
                }
            }
        }
        if forall|i: int| 0 <= i < ents.len() ==> fits_depth((#[trigger] ents[i]).1, d) {
            assert forall|i: int| 0 <= i < rest.len() implies fits_depth(
                (#[trigger] rest[i]).1,
                d,
            ) by {
                assert(rest[i] == ents[i + 1]);
            }
            assert(fits_depth(ents[0].1, d));
        }
    }
}

/// The resolved, buffer-independent reading of a value: every string-like
/// leaf becomes its bytes. This is the JSON meaning a standard (copying)
/// reader would see.
#[verifier::ext_equal]
pub enum JVal {
    Null,
    Bool(bool),
    Num(GNumber),
    Str(Seq<u8>),
    Arr(Seq<JVal>),
    Obj(Seq<(Seq<u8>, JVal)>),
}

pub open spec fn resolve(buf: Seq<u8>, g: GValue) -> JVal
    decreases g,
{
    match g {
        GValue::Null => JVal::Null,
        GValue::Bool(b) => JVal::Bool(b),
        GValue::Number(n) => JVal::Num(n),
        GValue::Bytes(sp) => JVal::Str(sp.bytes_of(buf)),
        GValue::String(sp) => JVal::Str(sp.bytes_of(buf)),
        GValue::OwnedString(s) => JVal::Str(s),
        GValue::Array(els) => JVal::Arr(resolve_elems(buf, els)),
        GValue::Object(ents) => JVal::Obj(resolve_entries(buf, ents)),
    }
}

pub open spec fn resolve_elems(buf: Seq<u8>, els: Seq<GValue>) -> Seq<JVal>
    decreases els,
{
    if els.len() == 0 {
        Seq::empty()
    } else {
        seq![resolve(buf, els[0])] + resolve_elems(buf, els.subrange(1, els.len() as int))
    }
}

pub open spec fn resolve_entries(buf: Seq<u8>, ents: Seq<(GText, GValue)>) -> Seq<(Seq<u8>, JVal)>
    decreases ents,
{
    if ents.len() == 0 {
        Seq::empty()
    } else {
        seq![(gtext_bytes(buf, ents[0].0), resolve(buf, ents[0].1))] + resolve_entries(
            buf,
            ents.subrange(1, ents.len() as int),
        )
    }
}

pub proof fn lemma_resolve_elems(buf: Seq<u8>, els: Seq<GValue>)
    ensures
        resolve_elems(buf, els).len() == els.len(),
        forall|i: int|
            0 <= i < els.len() ==> resolve_elems(buf, els)[i] == resolve(
                buf,
                #[trigger] els[i],
            ),
    decreases els,
{
    if els.len() > 0 {
        let rest = els.subrange(1, els.len() as int);
        lemma_resolve_elems(buf, rest);
        assert forall|i: int| 0 <= i < els.len() implies resolve_elems(buf, els)[i] == resolve(
            buf,
            #[trigger] els[i],
        ) by {
            if i > 0 {
                assert(rest[i - 1] == els[i]);
                assert(resolve_elems(buf, els)[i] == resolve_elems(buf, rest)[i - 1]);
            }
        }
    }
}

pub proof fn lemma_resolve_entries(buf: Seq<u8>, ents: Seq<(GText, GValue)>)
    ensures
        resolve_entries(buf, ents).len() == ents.len(),
        forall|i: int|
            0 <= i < ents.len() ==> resolve_entries(buf, ents)[i] == (
                gtext_bytes(buf, (#[trigger] ents[i]).0),
                resolve(buf, ents[i].1),
            ),
    decreases ents,
{
    if ents.len() > 0 {
        let rest = ents.subrange(1, ents.len() as int);
        lemma_resolve_entries(buf, rest);
        assert forall|i: int| 0 <= i < ents.len() implies resolve_entries(buf, ents)[i] == (
            gtext_bytes(buf, (#[trigger] ents[i]).0),
            resolve(buf, ents[i].1),
        ) by {
            if i > 0 {
                assert(rest[i - 1] == ents[i]);
                assert(resolve_entries(buf, ents)[i] == resolve_entries(buf, rest)[i - 1]);
            }
        }
    }
}

/// First (and, for sorted entries, only) value stored under key bytes
/// `kb`, resolved against `buf`.
pub open spec fn obj_lookup(buf: Seq<u8>, ents: Seq<(GText, GValue)>, kb: Seq<u8>) -> Option<
    GValue,
>
    decreases ents.len(),
{
    if ents.len() == 0 {
        None
    } else if gtext_bytes(buf, ents[0].0) == kb {
        Some(ents[0].1)
    } else {
        obj_lookup(buf, ents.subrange(1, ents.len() as int), kb)
    }
}

/// Every text leaf and every object key aliases the input buffer:
/// nothing was copied out of it.
pub open spec fn all_borrowed(g: GValue) -> bool
    decreases g,
{
    match g {
        GValue::OwnedString(_) => false,
        GValue::Array(els) => all_borrowed_elems(els),
        GValue::Object(ents) => all_borrowed_entries(ents),
        _ => true,
    }
}

pub open spec fn all_borrowed_elems(els: Seq<GValue>) -> bool
    decreases els,
{
    if els.len() == 0 {
        true
    } else {
        all_borrowed(els[0]) && all_borrowed_elems(els.subrange(1, els.len() as int))
    }
}

pub open spec fn all_borrowed_entries(ents: Seq<(GText, GValue)>) -> bool
    decreases ents,
{
    if ents.len() == 0 {
        true
    } else {
        (ents[0].0 is Borrowed) && all_borrowed(ents[0].1) && all_borrowed_entries(
            ents.subrange(1, ents.len() as int),
        )
    }
}

/// Byte-for-byte equality of two slices.
pub fn bytes_eq(a: &[u8], b: &[u8]) -> (r: bool)
    ensures
        r == (a@ == b@),
{
    let n = a.len();
    if n != b.len() {
        return false;
    }
    let mut i: usize = 0;
    while i < n
        invariant
            i <= n,
            n == a@.len(),
            n == b@.len(),
            forall|j: int| 0 <= j < i ==> a@[j] == b@[j],
        decreases n - i,
    {
        if a[i] != b[i] {
            return false;
        }
        i = i + 1;
    }
    proof {
        assert(a@ =~= b@);
    }
    true
}

impl Value {
    /// Looks up the value stored under `key` when `self` is an object
    /// whose spans resolve against `buf`; `None` for other shapes or an
    /// absent key.
    pub fn lookup<'a>(&'a self, buf: &[u8], key: &[u8]) -> (r: Option<&'a Value>)
        requires
            wf_gval(buf@, self.dview()),
        ensures
            (match self.dview() {
                GValue::Object(gents) => (match r {
                    Some(v) => obj_lookup(buf@, gents, key@) == Some(v.dview()),
                    None => obj_lookup(buf@, gents, key@) is None,
                }),
                _ => r is None,
            }),
    {
        match self {
            Value::Object(ents) => {
                let ghost gents = dview_entries(ents@);
                proof {
                    lemma_dview_entries(ents@);
                }
                let n = ents.len();
                proof {
                    assert(gents.subrange(0, n as int) =~= gents);
                }
                let mut m: usize = 0;
                loop
                    invariant
                        m <= n,
                        n == ents@.len(),
                        gents == dview_entries(ents@),
                        gents.len() == n,
                        wf_gval(buf@, self.dview()),
                        self.dview() == GValue::Object(gents),
                        obj_lookup(buf@, gents, key@) == obj_lookup(
                            buf@,
                            gents.subrange(m as int, n as int),
                            key@,
                        ),
                    decreases n - m,
                {
                    if m >= n {
                        proof {
                            assert(gents.subrange(m as int, n as int) =~= Seq::<(
                                GText,
                                GValue,
                            )>::empty());
                        }
                        return None;
                    }
                    let ent = &ents[m];
                    proof {
                        lemma_dview_entries(ents@);
                        assert(gents[m as int] == (ents@[m as int].0.dview(), ents@[
                            m as int].1.dview()));
                        lemma_wf_entries(buf@, gents);
                        assert(wf_gtext(buf@, gents[m as int].0));
                    }
                    let kslice: &[u8] = match &ent.0 {
                        Text::Borrowed(sp) => {
                            let bl = buf.len();
                            proof {
                                assert(sp.start + sp.len <= bl);
                            }
                            &buf[sp.start..sp.start + sp.len]
                        },
                        Text::Owned(o) => o.as_slice(),
                    };
                    proof {
                        assert(kslice@ == gtext_bytes(buf@, gents[m as int].0));
                        let tail = gents.subrange(m as int, n as int);
                        assert(tail[0] == gents[m as int]);
                        assert(tail.subrange(1, tail.len() as int) =~= gents.subrange(
                            m + 1,
                            n as int,
                        ));
                    }
                    if bytes_eq(kslice, key) {
                        return Some(&ent.1);
                    }
                    m = m + 1;
                }
            },
            _ => None,
        }
    }
}

} // verus!
