//! The JSON encoder: a specification of the emitted bytes and an
//! executable writer proved to produce exactly them.
//!
//! Text leaves are emitted as quoted strings with minimal escaping
//! (quote, backslash, and control bytes as `\u00XX`). `Bytes` leaves are
//! validated as UTF-8 and fail the encode if invalid. Numbers print as
//! canonical decimals, or as their kept token text. Objects are written
//! in stored (key-sorted) order; no whitespace is emitted.
use vstd::prelude::*;

use crate::num::{dec_of, fmt_u64, neg_magnitude};
use crate::utf8::{is_utf8, is_utf8_range};
use crate::value::{gtext_bytes, GNumber, GText, GValue, Number, Text, Value};

verus! {

broadcast use vstd::std_specs::vec::axiom_vec_decreases_to_view, vstd::std_specs::vec::axiom_vec_index_decreases, vstd::seq::axiom_seq_index_decreases;

/// Why an encode failed.
#[derive(Clone, Copy, PartialEq, Eq, Structural, Debug)]
pub enum EncodeError {
    /// A `Bytes` leaf whose content is not well-formed UTF-8.
    InvalidUtf8,
    /// A span that reaches outside the buffer it is resolved against.
    SpanOutOfBounds,
}

/// Ghost outcome of serialization: the emitted bytes, or the failure.
#[verifier::ext_equal]
pub enum SR {
    SOk(Seq<u8>),
    SFail(EncodeError),
}

/// The bytes of a successful serialization.
pub open spec fn sr_bytes(r: SR) -> Seq<u8> {
    match r {
        SR::SOk(x) => x,
        SR::SFail(_) => Seq::empty(),
    }
}

/// Lower-case hex digit for a value below 16.
pub open spec fn hex_char(v: int) -> u8 {
    if v < 10 {
        (0x30 + v) as u8
    } else {
        (0x61 + v - 10) as u8
    }
}

/// How one content byte is emitted inside a string literal.
pub open spec fn esc_byte(b: u8) -> Seq<u8> {
    if b == 0x22 {
        seq![0x5C, 0x22]
    } else if b == 0x5C {
        seq![0x5C, 0x5C]
    } else if b < 0x20 {
        seq![0x5C, 0x75, 0x30, 0x30, hex_char((b as int) / 16), hex_char((b as int) % 16)]
    } else {
        seq![b]
    }
}

/// Escaped form of the content bytes from `i` on.
pub open spec fn esc_seq(s: Seq<u8>, i: int) -> Seq<u8>
    decreases s.len() - i,
{
    if i < 0 || i >= s.len() {
        Seq::empty()
    } else {
        esc_byte(s[i]) + esc_seq(s, i + 1)
    }
}

/// A quoted, escaped string literal holding `content`.
pub open spec fn ser_string(content: Seq<u8>) -> Seq<u8> {
    seq![0x22] + esc_seq(content, 0) + seq![0x22]
}

/// Magnitude of a signed value as written after the minus sign.
pub open spec fn signed_mag(x: i64) -> nat {
    if x < 0 {
        (-(x as int)) as nat
    } else {
        0
    }
}

/// The decimal text of a number value.
pub open spec fn ser_num(n: GNumber) -> Seq<u8> {
    match n {
        GNumber::Unsigned(u) => dec_of(u as nat),
        GNumber::Signed(x) => seq![0x2D] + dec_of(signed_mag(x)),
        GNumber::Decimal(t) => t,
    }
}

/// A key's span lies within the buffer.
pub open spec fn key_in_bounds(t: GText, blen: nat) -> bool {
    match t {
        GText::Borrowed(sp) => sp.in_bounds(blen),
        GText::Owned(_) => true,
    }
}

/// Serializes one value against the buffer its spans point into.
pub open spec fn ser_val(buf: Seq<u8>, g: GValue) -> SR
    decreases g, 0int,
{
    match g {
        GValue::Null => SR::SOk(seq![0x6E, 0x75, 0x6C, 0x6C]),
        GValue::Bool(b) => if b {
            SR::SOk(seq![0x74, 0x72, 0x75, 0x65])
        } else {
            SR::SOk(seq![0x66, 0x61, 0x6C, 0x73, 0x65])
        },
        GValue::Number(n) => SR::SOk(ser_num(n)),
        GValue::String(sp) => if sp.in_bounds(buf.len()) {
            SR::SOk(ser_string(sp.bytes_of(buf)))
        } else {
            SR::SFail(EncodeError::SpanOutOfBounds)
        },
        GValue::OwnedString(o) => SR::SOk(ser_string(o)),
        GValue::Bytes(sp) => if !sp.in_bounds(buf.len()) {
            SR::SFail(EncodeError::SpanOutOfBounds)
        } else if is_utf8(sp.bytes_of(buf)) {
            SR::SOk(ser_string(sp.bytes_of(buf)))
        } else {
            SR::SFail(EncodeError::InvalidUtf8)
        },
        GValue::Array(els) => match ser_elems_from(buf, els, 0) {
            SR::SOk(x) => SR::SOk(seq![0x5B] + x + seq![0x5D]),
            SR::SFail(e) => SR::SFail(e),
        },
        GValue::Object(ents) => match ser_entries_from(buf, ents, 0) {
            SR::SOk(x) => SR::SOk(seq![0x7B] + x + seq![0x7D]),
            SR::SFail(e) => SR::SFail(e),
        },
    }
}

/// Serializes the elements from index `k` on, joined by commas.
pub open spec fn ser_elems_from(buf: Seq<u8>, els: Seq<GValue>, k: int) -> SR
    decreases els, els.len() - k,
{
    if k < 0 || k >= els.len() {
        SR::SOk(Seq::empty())
    } else {
        match ser_val(buf, els[k]) {
            SR::SFail(e) => SR::SFail(e),
            SR::SOk(h) => if k == els.len() - 1 {
                SR::SOk(h)
            } else {
                match ser_elems_from(buf, els, k + 1) {
                    SR::SFail(e) => SR::SFail(e),
                    SR::SOk(t) => SR::SOk(h + seq![0x2C] + t),
                }
            },
        }
    }
}

/// Serializes the object entries from index `k` on, joined by commas,
/// each as `"key":value`.
pub open spec fn ser_entries_from(buf: Seq<u8>, ents: Seq<(GText, GValue)>, k: int) -> SR
    decreases ents, ents.len() - k,
{
    if k < 0 || k >= ents.len() {
        SR::SOk(Seq::empty())
    } else if !key_in_bounds(ents[k].0, buf.len()) {
        SR::SFail(EncodeError::SpanOutOfBounds)
    } else {
        match ser_val(buf, ents[k].1) {
            SR::SFail(e) => SR::SFail(e),
            SR::SOk(h) => {
                let entry = ser_string(gtext_bytes(buf, ents[k].0)) + seq![0x3A] + h;
                if k == ents.len() - 1 {
                    SR::SOk(entry)
                } else {
                    match ser_entries_from(buf, ents, k + 1) {
                        SR::SFail(e) => SR::SFail(e),
                        SR::SOk(t) => SR::SOk(entry + seq![0x2C] + t),
                    }
                }
            },
        }
    }
}

/// Appends all of `t` to `out`.
fn push_slice(out: &mut Vec<u8>, t: &[u8])
    ensures
        final(out)@ == old(out)@ + t@,
{
    let ghost o0 = out@;
    let n = t.len();
    let mut c: usize = 0;
    while c < n
        invariant
            c <= n,
            n == t@.len(),
            out@ == o0 + t@.subrange(0, c as int),
        decreases n - c,
    {
        out.push(t[c]);
        proof {
            assert(o0 + t@.subrange(0, c + 1) =~= (o0 + t@.subrange(0, c as int)).push(
                t@[c as int],
            ));
        }
        c = c + 1;
    }
    proof {
        assert(t@.subrange(0, n as int) =~= t@);
    }
}

fn hex_char_x(v: u8) -> (r: u8)
    requires
        v < 16,
    ensures
        r == hex_char(v as int),
{
    if v < 10 {
        0x30 + v
    } else {
        0x61 + (v - 10)
    }
}

/// Emits `content` as a quoted, escaped string literal.
fn encode_string(out: &mut Vec<u8>, content: &[u8])
    ensures
        final(out)@ == old(out)@ + ser_string(content@),
{
    let ghost o0 = out@;
    out.push(0x22);
    let n = content.len();
    let mut c: usize = 0;
    let ghost mut done = Seq::<u8>::empty();
    while c < n
        invariant
            c <= n,
            n == content@.len(),
            out@ == o0.push(0x22) + done,
            esc_seq(content@, 0) == done + esc_seq(content@, c as int),
        decreases n - c,
    {
        let b = content[c];
        if b == 0x22 {
            out.push(0x5C);
            out.push(0x22);
        } else if b == 0x5C {
            out.push(0x5C);
            out.push(0x5C);
        } else if b < 0x20 {
            out.push(0x5C);
            out.push(0x75);
            out.push(0x30);
            out.push(0x30);
            out.push(hex_char_x(b / 16));
            out.push(hex_char_x(b % 16));
        } else {
            out.push(b);
        }
        proof {
            assert(out@ =~= o0.push(0x22) + (done + esc_byte(b)));
            assert(esc_seq(content@, c as int) == esc_byte(b) + esc_seq(content@, c + 1));
            assert(done + (esc_byte(b) + esc_seq(content@, c + 1)) =~= (done + esc_byte(b))
                + esc_seq(content@, c + 1));
            done = done + esc_byte(b);
        }
        c = c + 1;
    }
    out.push(0x22);
    proof {
        assert(esc_seq(content@, n as int) =~= Seq::<u8>::empty());
        assert(done =~= esc_seq(content@, 0));
        assert(out@ =~= o0 + ser_string(content@));
    }
}

/// Emits the decimal text of a number.
fn encode_num(out: &mut Vec<u8>, n: &Number)
    ensures
        final(out)@ == old(out)@ + ser_num(n.dview()),
{
    match n {
        Number::Unsigned(u) => {
            let t = fmt_u64(*u);
            push_slice(out, t.as_slice());
        },
        Number::Signed(x) => {
            let ghost o0 = out@;
            out.push(0x2D);
            let mag: u64 = if *x < 0 {
                neg_magnitude(*x)
            } else {
                0
            };
            proof {
                assert(mag as nat == signed_mag(*x));
            }
            let t = fmt_u64(mag);
            push_slice(out, t.as_slice());
            proof {
                assert(out@ =~= o0 + (seq![0x2D] + dec_of(signed_mag(*x))));
            }
        },
        Number::Decimal(t) => {
            push_slice(out, t.as_slice());
        },
    }
}

/// Writes one value, mirroring [`ser_val`].
#[verifier::rlimit(100)]
fn encode_val(buf: &[u8], v: &Value, out: &mut Vec<u8>) -> (res: Result<(), EncodeError>)
    ensures
        match res {
            Ok(_) => ser_val(buf@, v.dview()) is SOk && final(out)@ == old(out)@ + sr_bytes(
                ser_val(buf@, v.dview()),
            ),
            Err(e) => ser_val(buf@, v.dview()) == SR::SFail(e),
        },
    decreases v,
{
    let ghost o0 = out@;
    match v {
        Value::Null => {
            out.push(0x6E);
            out.push(0x75);
            out.push(0x6C);
            out.push(0x6C);
            proof {
                assert(out@ =~= o0 + seq![0x6E, 0x75, 0x6C, 0x6C]);
            }
            Ok(())
        },
        Value::Bool(b) => {
            if *b {
                out.push(0x74);
                out.push(0x72);
                out.push(0x75);
                out.push(0x65);
                proof {
                    assert(out@ =~= o0 + seq![0x74, 0x72, 0x75, 0x65]);
                }
            } else {
                out.push(0x66);
                out.push(0x61);
                out.push(0x6C);
                out.push(0x73);
                out.push(0x65);
                proof {
                    assert(out@ =~= o0 + seq![0x66, 0x61, 0x6C, 0x73, 0x65]);
                }
            }
            Ok(())
        },
        Value::Number(n) => {
            encode_num(out, n);
            Ok(())
        },
        Value::String(sp) => {
            let bl = buf.len();
            if !(sp.start <= bl && bl - sp.start >= sp.len) {
                return Err(EncodeError::SpanOutOfBounds);
            }
            encode_string(out, &buf[sp.start..sp.start + sp.len]);
            Ok(())
        },
        Value::OwnedString(o) => {
            encode_string(out, o.as_slice());
            Ok(())
        },
        Value::Bytes(sp) => {
            let bl = buf.len();
            if !(sp.start <= bl && bl - sp.start >= sp.len) {
                return Err(EncodeError::SpanOutOfBounds);
            }
            if is_utf8_range(buf, sp.start, sp.start + sp.len) {
                encode_string(out, &buf[sp.start..sp.start + sp.len]);
                Ok(())
            } else {
                Err(EncodeError::InvalidUtf8)
            }
        },
        Value::Array(els) => {
            let ghost gels = crate::value::dview_elems(els@);
            proof {
                crate::value::lemma_dview_elems(els@);
            }
            out.push(0x5B);
            let n_els = els.len();
            if n_els == 0 {
                out.push(0x5D);
                proof {
                    assert(ser_elems_from(buf@, gels, 0) == SR::SOk(Seq::<u8>::empty()));
                    assert(out@ =~= o0 + (seq![0x5B] + Seq::<u8>::empty() + seq![0x5D]));
                }
                return Ok(());
            }
            let ghost mut done = Seq::<u8>::empty();
            let mut m: usize = 0;
            loop
                invariant
                    m < n_els,
                    n_els == els@.len(),
                    gels == crate::value::dview_elems(els@),
                    gels.len() == n_els,
                    v == Value::Array(*els),
                    o0 == old(out)@,
                    out@ == o0.push(0x5B) + done,
                    (match ser_elems_from(buf@, gels, m as int) {
                        SR::SFail(e) => ser_elems_from(buf@, gels, 0) == SR::SFail(e),
                        SR::SOk(t) => ser_elems_from(buf@, gels, 0) == SR::SOk(done + t),
                    }),
                decreases n_els - m,
            {
                let el = &els[m];
                proof {
                    crate::value::lemma_dview_elems(els@);
                    assert(gels[m as int] == els@[m as int].dview());
                    assert(gels[m as int] == el.dview());
                }
                match encode_val(buf, el, out) {
                    Err(e) => {
                        return Err(e);
                    },
                    Ok(_) => {
                        let ghost h = sr_bytes(ser_val(buf@, el.dview()));
                        if m + 1 == n_els {
                            out.push(0x5D);
                            proof {
                                assert(ser_elems_from(buf@, gels, m as int) == SR::SOk(h));
                                assert(ser_elems_from(buf@, gels, 0) == SR::SOk(done + h));
                                assert(out@ =~= o0 + (seq![0x5B] + (done + h) + seq![0x5D]));
                            }
                            return Ok(());
                        } else {
                            out.push(0x2C);
                            proof {
                                match ser_elems_from(buf@, gels, m + 1) {
                                    SR::SFail(e) => {
                                        assert(ser_elems_from(buf@, gels, m as int)
                                            == SR::SFail(e));
                                    },
                                    SR::SOk(t) => {
                                        assert(ser_elems_from(buf@, gels, m as int) == SR::SOk(
                                            h + seq![0x2C] + t,
                                        ));
                                        assert(done + (h + seq![0x2C] + t) =~= (done + h + seq![
                                            0x2C,
                                        ]) + t);
                                    },
                                }
                                assert(out@ =~= o0.push(0x5B) + (done + h + seq![0x2C]));
                                done = done + h + seq![0x2C];
                            }
                            m = m + 1;
                        }
                    },
                }
            }
        },
        Value::Object(ents) => {
            let ghost gents = crate::value::dview_entries(ents@);
            proof {
                crate::value::lemma_dview_entries(ents@);
            }
            out.push(0x7B);
            let n_ents = ents.len();
            if n_ents == 0 {
                out.push(0x7D);
                proof {
                    assert(ser_entries_from(buf@, gents, 0) == SR::SOk(Seq::<u8>::empty()));
                    assert(out@ =~= o0 + (seq![0x7B] + Seq::<u8>::empty() + seq![0x7D]));
                }
                return Ok(());
            }
            let ghost mut done = Seq::<u8>::empty();
            let mut m: usize = 0;
            loop
                invariant
                    m < n_ents,
                    n_ents == ents@.len(),
                    gents == crate::value::dview_entries(ents@),
                    gents.len() == n_ents,
                    v == Value::Object(*ents),
                    o0 == old(out)@,
                    out@ == o0.push(0x7B) + done,
                    (match ser_entries_from(buf@, gents, m as int) {
                        SR::SFail(e) => ser_entries_from(buf@, gents, 0) == SR::SFail(e),
                        SR::SOk(t) => ser_entries_from(buf@, gents, 0) == SR::SOk(done + t),
                    }),
                decreases n_ents - m,
            {
                let ent = &ents[m];
                proof {
                    crate::value::lemma_dview_entries(ents@);
                    assert(gents[m as int] == (ents@[m as int].0.dview(), ents@[m as int].1.dview()));
                    assert(gents[m as int] == (ent.0.dview(), ent.1.dview()));
                }
                let ghost kb = gtext_bytes(buf@, ent.0.dview());
                match &ent.0 {
                    Text::Borrowed(sp) => {
                        let bl = buf.len();
                        if !(sp.start <= bl && bl - sp.start >= sp.len) {
                            proof {
                                assert(ser_entries_from(buf@, gents, m as int) == SR::SFail(
                                    EncodeError::SpanOutOfBounds,
                                ));
                            }
                            return Err(EncodeError::SpanOutOfBounds);
                        }
                        encode_string(out, &buf[sp.start..sp.start + sp.len]);
                    },
                    Text::Owned(o) => {
                        encode_string(out, o.as_slice());
                    },
                }
                out.push(0x3A);
                let el = &ent.1;
                match encode_val(buf, el, out) {
                    Err(e) => {
                        return Err(e);
                    },
                    Ok(_) => {
                        let ghost h = sr_bytes(ser_val(buf@, el.dview()));
                        let ghost entry = ser_string(kb) + seq![0x3A] + h;
                        proof {
                            assert(out@ =~= o0.push(0x7B) + (done + entry));
                        }
                        if m + 1 == n_ents {
                            out.push(0x7D);
                            proof {
                                assert(ser_entries_from(buf@, gents, m as int) == SR::SOk(entry));
                                assert(ser_entries_from(buf@, gents, 0) == SR::SOk(done + entry));
                                assert(out@ =~= o0 + (seq![0x7B] + (done + entry) + seq![0x7D]));
                            }
                            return Ok(());
                        } else {
                            out.push(0x2C);
                            proof {
                                match ser_entries_from(buf@, gents, m + 1) {
                                    SR::SFail(e) => {
                                        assert(ser_entries_from(buf@, gents, m as int)
                                            == SR::SFail(e));
                                    },
                                    SR::SOk(t) => {
                                        assert(ser_entries_from(buf@, gents, m as int) == SR::SOk(
                                            entry + seq![0x2C] + t,
                                        ));
                                        assert(done + (entry + seq![0x2C] + t) =~= (done + entry
                                            + seq![0x2C]) + t);
                                    },
                                }
                                assert(out@ =~= o0.push(0x7B) + (done + entry + seq![0x2C]));
                                done = done + entry + seq![0x2C];
                            }
                            m = m + 1;
                        }
                    },
                }
            }
        },
    }
}

/// Encodes one value to JSON bytes. The outcome is exactly what the
/// serialization specification [`ser_val`] says.
pub fn encode(buf: &[u8], v: &Value) -> (res: Result<Vec<u8>, EncodeError>)
    ensures
        match res {
            Ok(o) => ser_val(buf@, v.dview()) == SR::SOk(o@),
            Err(e) => ser_val(buf@, v.dview()) == SR::SFail(e),
        },
{
    let mut out: Vec<u8> = Vec::new();
    match encode_val(buf, v, &mut out) {
        Ok(_) => {
            proof {
                assert(Seq::<u8>::empty() + sr_bytes(ser_val(buf@, v.dview())) =~= sr_bytes(
                    ser_val(buf@, v.dview()),
                ));
            }
            Ok(out)
        },
        Err(e) => Err(e),
    }
}

/// A well-formed tree without `Bytes` leaves always serializes.
pub proof fn lemma_wf_ser_ok(buf: Seq<u8>, g: GValue)
    requires
        crate::value::wf_gval(buf, g),
        crate::value::no_bytes_leaf(g),
    ensures
        ser_val(buf, g) is SOk,
    decreases g, 0int,
{
    match g {
        GValue::Array(els) => {
            lemma_wf_ser_ok_elems(buf, els, 0);
        },
        GValue::Object(ents) => {
            lemma_wf_ser_ok_entries(buf, ents, 0);
        },
        _ => {},
    }
}

/// Helper for [`lemma_wf_ser_ok`]: element lists.
pub proof fn lemma_wf_ser_ok_elems(buf: Seq<u8>, els: Seq<GValue>, k: int)
    requires
        crate::value::wf_elems(buf, els),
        crate::value::no_bytes_elems(els),
    ensures
        ser_elems_from(buf, els, k) is SOk,
    decreases els, els.len() - k,
{
    if 0 <= k < els.len() {
        crate::value::lemma_wf_elems(buf, els);
        crate::value::lemma_no_bytes_elems(els);
        lemma_wf_ser_ok(buf, els[k]);
        if k < els.len() - 1 {
            lemma_wf_ser_ok_elems(buf, els, k + 1);
        }
    }
}

/// Helper for [`lemma_wf_ser_ok`]: entry lists.
pub proof fn lemma_wf_ser_ok_entries(buf: Seq<u8>, ents: Seq<(GText, GValue)>, k: int)
    requires
        crate::value::wf_entries(buf, ents),
        crate::value::no_bytes_entries(ents),
    ensures
        ser_entries_from(buf, ents, k) is SOk,
    decreases ents, ents.len() - k,
{
    if 0 <= k < ents.len() {
        crate::value::lemma_wf_entries(buf, ents);
        crate::value::lemma_no_bytes_entries(ents);
        assert(crate::value::wf_gtext(buf, ents[k].0));
        lemma_wf_ser_ok(buf, ents[k].1);
        if k < ents.len() - 1 {
            lemma_wf_ser_ok_entries(buf, ents, k + 1);
        }
    }
}

} // verus!
