//! The round-trip law: a well-formed tree serializes to a document that
//! decodes back to a tree with the same resolved JSON meaning, even
//! though the bytes may differ from the tree's original source (keys
//! re-ordered, numbers re-printed, escapes normalized).
use vstd::prelude::*;

use crate::num::{
    all_digits, classify_int, classify_num, dec_of, dec_val, digits_end, exp_end, frac_end,
    int_end, is_digit, is_num_token, lemma_dec_of, lemma_digits_end, num_end,
};
use crate::parse::{
    hex4_val, hex_digit_val, is_hex4, is_ws, raw_end, skip_ws, sp_doc, sp_elems, sp_members,
    sp_num, sp_string, sp_value, unesc, utf8_enc, DecodeError, MAX_DEPTH, PR,
};
use crate::ser::{
    esc_byte, esc_seq, hex_char, ser_elems_from, ser_entries_from, ser_num, ser_string, ser_val,
    signed_mag, sr_bytes, SR,
};
use crate::utf8::is_utf8;
use crate::value::{
    entries_sorted, fits_depth, gtext_bytes, lex_lt, must_escape, no_bytes_leaf, resolve,
    resolve_elems, resolve_entries, wf_gnum, wf_gval, GNumber, GText, GValue, JVal, Span,
};

verus! {

/// A byte that could extend a number token to its left.
pub open spec fn num_extender(b: u8) -> bool {
    is_digit(b) || b == 0x2E || b == 0x65 || b == 0x45 || b == 0x2B || b == 0x2D
}

/// An all-digit run scans to its end.
pub proof fn lemma_digits_end_all(s: Seq<u8>, i: int)
    requires
        0 <= i <= s.len(),
        forall|j: int| i <= j < s.len() ==> is_digit(#[trigger] s[j]),
    ensures
        digits_end(s, i) == s.len(),
{
    lemma_digits_end(s, i);
    if digits_end(s, i) < s.len() {
        assert(is_digit(s[digits_end(s, i)]));
    }
}

/// The printed form of a well-formed number is one complete token that
/// classifies back to exactly the same number.
pub proof fn lemma_ser_num_token(n: GNumber)
    requires
        wf_gnum(n),
    ensures
        is_num_token(ser_num(n)),
        classify_num(ser_num(n)) == n,
        ser_num(n).len() >= 1,
        ser_num(n)[0] == 0x2D || is_digit(ser_num(n)[0]),
{
    let t = ser_num(n);
    match n {
        GNumber::Unsigned(u) => {
            lemma_dec_of(u as nat);
            assert(is_digit(t[0]));
            assert(t[0] != 0x2D);
            if t[0] == 0x30 {
                assert(u < 10);
                assert((0x30 + (u as nat)) as u8 == 0x30);
                assert(u == 0);
                assert(t.len() == 1);
                assert(int_end(t, 0) == Some(1int));
            } else {
                lemma_digits_end_all(t, 1);
                assert(int_end(t, 0) == Some(t.len() as int));
            }
            assert(num_end(t, 0) == Some(t.len() as int));
            assert(classify_num(t) == classify_int(t, false, t));
        },
        GNumber::Signed(x) => {
            let mag = signed_mag(x);
            assert(1 <= mag <= 0x8000_0000_0000_0000);
            lemma_dec_of(mag);
            let d = dec_of(mag);
            assert(t == seq![0x2Du8] + d);
            assert(t[0] == 0x2D);
            assert(t.len() == 1 + d.len());
            assert forall|j: int| 1 <= j < t.len() implies is_digit(#[trigger] t[j]) by {
                assert(t[j] == d[j - 1]);
            }
            assert(t[1] == d[0]);
            if d[0] == 0x30 {
                assert(mag < 10);
                assert((0x30 + mag) as u8 == 0x30);
                assert(mag == 0);
            }
            assert(t[1] != 0x30);
            assert(is_digit(t[1]));
            lemma_digits_end_all(t, 2);
            assert(int_end(t, 1) == Some(t.len() as int));
            assert(num_end(t, 0) == Some(t.len() as int));
            let ds = t.skip(1);
            assert(ds =~= d);
            assert(classify_num(t) == classify_int(t, true, d));
            assert(dec_val(d) == mag);
            assert((-(mag as int)) as i64 == x);
        },
        GNumber::Decimal(t0) => {
            assert(t == t0);
            assert(num_end(t, 0) == Some(t.len() as int));
            let i1 = if 0 <= 0 < t.len() && t[0] == 0x2D {
                1int
            } else {
                0int
            };
            assert(int_end(t, i1) is Some);
            assert(t[i1] == 0x30 || is_digit(t[i1]));
            if t[0] != 0x2D {
                assert(i1 == 0);
                assert(is_digit(t[0]));
            }
        },
    }
}

/// A digit scan over an embedded token runs as it does in the token,
/// stopped at the token's end by the terminator.
pub proof fn lemma_digits_end_embed(s: Seq<u8>, t: Seq<u8>, i: int, x: int)
    requires
        0 <= i,
        i + t.len() <= s.len(),
        s.subrange(i, i + t.len()) == t,
        i <= x <= i + t.len(),
        i + t.len() == s.len() || !is_digit(s[i + t.len()]),
    ensures
        digits_end(s, x) == i + digits_end(t, x - i),
    decreases i + t.len() - x,
{
    lemma_digits_end(t, x - i);
    if x < i + t.len() {
        assert(s[x] == t[x - i]);
        if is_digit(s[x]) {
            lemma_digits_end_embed(s, t, i, x + 1);
        }
    }
}

/// A complete number token embedded before a non-extending byte scans to
/// exactly its own end.
pub proof fn lemma_num_embed(s: Seq<u8>, t: Seq<u8>, i: int)
    requires
        is_num_token(t),
        0 <= i,
        i + t.len() <= s.len(),
        s.subrange(i, i + t.len()) == t,
        i + t.len() == s.len() || !num_extender(s[i + t.len()]),
    ensures
        num_end(s, i) == Some(i + t.len()),
{
    let e = i + t.len();
    let ti1 = if 0 <= 0 < t.len() && t[0] == 0x2D {
        1int
    } else {
        0int
    };
    let ti2 = int_end(t, ti1)->0;
    let ti3 = frac_end(t, ti2)->0;
    crate::num::lemma_digits_end(t, ti1 + 1);
    assert(t.len() >= 1);
    assert(s[i] == t[0]);
    let i1 = if 0 <= i < s.len() && s[i] == 0x2D {
        i + 1
    } else {
        i
    };
    assert(i1 == i + ti1);
    // Integer part.
    assert(ti1 < t.len());
    assert(s[i + ti1] == t[ti1]);
    if t[ti1] == 0x30 {
        assert(int_end(s, i1) == Some(i + ti2));
    } else {
        lemma_digits_end_embed(s, t, i, i1 + 1);
        assert(int_end(s, i1) == Some(i + ti2));
    }
    // Fraction part.
    if 0 <= ti2 < t.len() && t[ti2] == 0x2E {
        assert(s[i + ti2] == t[ti2]);
        assert(s[i + ti2 + 1] == t[ti2 + 1]);
        lemma_digits_end_embed(s, t, i, i + ti2 + 1);
        assert(frac_end(s, i + ti2) == Some(i + ti3));
    } else {
        if ti2 < t.len() {
            assert(s[i + ti2] == t[ti2]);
        } else {
            assert(i + ti2 == e);
        }
        assert(frac_end(s, i + ti2) == Some(i + ti3));
    }
    // Exponent part.
    if 0 <= ti3 < t.len() && (t[ti3] == 0x65 || t[ti3] == 0x45) {
        assert(s[i + ti3] == t[ti3]);
        let tj = if ti3 + 1 < t.len() && (t[ti3 + 1] == 0x2B || t[ti3 + 1] == 0x2D) {
            ti3 + 2
        } else {
            ti3 + 1
        };
        assert(exp_end(t, ti3) == Some(t.len() as int));
        assert(tj < t.len() && is_digit(t[tj]));
        assert(ti3 + 1 < t.len());
        assert(s[i + ti3 + 1] == t[ti3 + 1]);
        let sj = if i + ti3 + 1 < s.len() && (s[i + ti3 + 1] == 0x2B || s[i + ti3 + 1] == 0x2D) {
            i + ti3 + 2
        } else {
            i + ti3 + 1
        };
        assert(sj == i + tj);
        assert(s[i + tj] == t[tj]);
        lemma_digits_end_embed(s, t, i, i + tj);
        assert(exp_end(s, i + ti3) == Some(e));
    } else {
        if ti3 < t.len() {
            assert(s[i + ti3] == t[ti3]);
        } else {
            assert(i + ti3 == e);
        }
        assert(exp_end(s, i + ti3) == Some(i + ti3));
        assert(i + ti3 == e);
    }
    assert(num_end(s, i) == Some(e));
}

/// A well-formed number embedded before a non-extending byte parses back
/// to itself.
pub proof fn lemma_sp_num_embed(s: Seq<u8>, n: GNumber, i: int)
    requires
        wf_gnum(n),
        0 <= i,
        i + ser_num(n).len() <= s.len(),
        s.subrange(i, i + ser_num(n).len()) == ser_num(n),
        i + ser_num(n).len() == s.len() || !num_extender(s[i + ser_num(n).len()]),
    ensures
        sp_num(s, i) == PR::POk(n, i + ser_num(n).len()),
{
    let t = ser_num(n);
    lemma_ser_num_token(n);
    lemma_num_embed(s, t, i);
    assert(s.subrange(i, i + t.len()) == t);
    assert(classify_num(s.subrange(i, i + t.len())) == n);
}

/// Escaping is the identity on content that needs no escapes.
pub proof fn lemma_esc_id(content: Seq<u8>, idx: int)
    requires
        0 <= idx <= content.len(),
        forall|j: int| 0 <= j < content.len() ==> !must_escape(#[trigger] content[j]),
    ensures
        esc_seq(content, idx) == content.skip(idx),
    decreases content.len() - idx,
{
    if idx < content.len() {
        lemma_esc_id(content, idx + 1);
        assert(esc_byte(content[idx]) == seq![content[idx]]);
        assert(seq![content[idx]] + content.skip(idx + 1) =~= content.skip(idx));
    } else {
        assert(content.skip(idx) =~= Seq::<u8>::empty());
    }
}

/// Reading back an emitted hex digit gives the digit.
pub proof fn lemma_hex_char_val(v: int)
    requires
        0 <= v < 16,
    ensures
        hex_digit_val(hex_char(v)) == Some(v),
{
}

/// A clean run of content bytes followed by a terminator byte scans to
/// exactly that terminator.
pub proof fn lemma_raw_end_clean(s: Seq<u8>, a: int, b: int)
    requires
        0 <= a <= b < s.len(),
        forall|j: int| a <= j < b ==> !must_escape(#[trigger] s[j]),
        must_escape(s[b]),
    ensures
        raw_end(s, a) == b,
    decreases b - a,
{
    if a < b {
        assert(!must_escape(s[a]));
        lemma_raw_end_clean(s, a + 1, b);
    }
}

/// When the escaped form of the remaining content holds at least one
/// escape, the raw scan stops on the backslash that begins it.
pub proof fn lemma_raw_end_esc(s: Seq<u8>, content: Seq<u8>, idx: int, pos: int)
    requires
        0 <= idx <= content.len(),
        0 <= pos,
        pos + esc_seq(content, idx).len() < s.len(),
        s.subrange(pos, pos + esc_seq(content, idx).len()) == esc_seq(content, idx),
        s[pos + esc_seq(content, idx).len()] == 0x22,
        exists|p: int| idx <= p < content.len() && must_escape(#[trigger] content[p]),
    ensures
        s[raw_end(s, pos)] == 0x5C,
        raw_end(s, pos) < pos + esc_seq(content, idx).len(),
    decreases content.len() - idx,
{
    let ec = esc_seq(content, idx);
    let p = choose|p: int| idx <= p < content.len() && must_escape(#[trigger] content[p]);
    let b = content[idx];
    assert(ec == esc_byte(b) + esc_seq(content, idx + 1));
    if must_escape(b) {
        assert(esc_byte(b)[0] == 0x5C);
        assert(ec[0] == 0x5C);
        assert(s[pos] == 0x5C);
        assert(raw_end(s, pos) == pos);
    } else {
        assert(esc_byte(b) == seq![b]);
        assert(ec[0] == b);
        assert(s[pos] == b);
        assert(raw_end(s, pos) == raw_end(s, pos + 1));
        let ec2 = esc_seq(content, idx + 1);
        assert(s.subrange(pos + 1, pos + 1 + ec2.len()) =~= ec2) by {
            assert forall|j: int| 0 <= j < ec2.len() implies s.subrange(
                pos + 1,
                pos + 1 + ec2.len(),
            )[j] == ec2[j] by {
                assert(s.subrange(pos + 1, pos + 1 + ec2.len())[j] == s[pos + 1 + j]);
                assert(s[pos + 1 + j] == ec[j + 1]);
                assert(ec[j + 1] == ec2[j]);
            }
        }
        assert(p != idx);
        assert(idx + 1 <= p < content.len() && must_escape(content[p]));
        lemma_raw_end_esc(s, content, idx + 1, pos + 1);
    }
}

/// Unescaping the escaped form of the remaining content, up to the
/// closing quote, yields the content.
pub proof fn lemma_unesc_esc(s: Seq<u8>, content: Seq<u8>, idx: int, pos: int, acc: Seq<u8>)
    requires
        0 <= idx <= content.len(),
        0 <= pos,
        pos + esc_seq(content, idx).len() < s.len(),
        s.subrange(pos, pos + esc_seq(content, idx).len()) == esc_seq(content, idx),
        s[pos + esc_seq(content, idx).len()] == 0x22,
    ensures
        unesc(s, pos, acc) == PR::POk(acc + content.skip(idx), pos + esc_seq(content, idx).len()
            + 1),
    decreases content.len() - idx,
{
    let ec = esc_seq(content, idx);
    if idx == content.len() {
        assert(ec =~= Seq::<u8>::empty());
        assert(s[pos] == 0x22);
        assert(acc + content.skip(idx) =~= acc);
    } else {
        let b = content[idx];
        let eb = esc_byte(b);
        let ec2 = esc_seq(content, idx + 1);
        assert(ec == eb + ec2);
        assert forall|j: int| 0 <= j < eb.len() implies s[pos + j] == eb[j] by {
            assert(s[pos + j] == ec[j]);
            assert(ec[j] == eb[j]);
        }
        let pos2 = pos + eb.len();
        assert(s.subrange(pos2, pos2 + ec2.len()) =~= ec2) by {
            assert forall|j: int| 0 <= j < ec2.len() implies s.subrange(pos2, pos2 + ec2.len())[j]
                == ec2[j] by {
                assert(s.subrange(pos2, pos2 + ec2.len())[j] == s[pos2 + j]);
                assert(s[pos2 + j] == ec[eb.len() + j]);
                assert(ec[eb.len() + j] == ec2[j]);
            }
        }
        if b == 0x22 {
            assert(eb == seq![0x5Cu8, 0x22u8]);
            assert(s[pos] == 0x5C && s[pos + 1] == 0x22);
            lemma_unesc_esc(s, content, idx + 1, pos + 2, acc.push(0x22));
            assert(acc.push(0x22) + content.skip(idx + 1) =~= acc + content.skip(idx));
        } else if b == 0x5C {
            assert(eb == seq![0x5Cu8, 0x5Cu8]);
            assert(s[pos] == 0x5C && s[pos + 1] == 0x5C);
            lemma_unesc_esc(s, content, idx + 1, pos + 2, acc.push(0x5C));
            assert(acc.push(0x5C) + content.skip(idx + 1) =~= acc + content.skip(idx));
        } else if b < 0x20 {
            assert(eb == seq![
                0x5Cu8,
                0x75u8,
                0x30u8,
                0x30u8,
                hex_char((b as int) / 16),
                hex_char((b as int) % 16),
            ]);
            assert(s[pos] == 0x5C && s[pos + 1] == 0x75);
            assert(s[pos + 2] == 0x30 && s[pos + 3] == 0x30);
            assert(s[pos + 4] == hex_char((b as int) / 16));
            assert(s[pos + 5] == hex_char((b as int) % 16));
            lemma_hex_char_val((b as int) / 16);
            lemma_hex_char_val((b as int) % 16);
            assert(hex_digit_val(0x30u8) == Some(0int));
            assert(is_hex4(s, pos + 2));
            let cp = hex4_val(s, pos + 2);
            assert(cp == ((b as int) / 16) * 0x10 + (b as int) % 16);
            assert(cp == b as int);
            assert(utf8_enc(cp) == seq![b]);
            lemma_unesc_esc(s, content, idx + 1, pos + 6, acc + utf8_enc(cp));
            assert((acc + utf8_enc(cp)) + content.skip(idx + 1) =~= acc + content.skip(idx));
        } else {
            assert(eb == seq![b]);
            assert(s[pos + 0] == eb[0]);
            assert(s[pos] == b);
            assert(!(b == 0x22 || b == 0x5C || b < 0x20));
            lemma_unesc_esc(s, content, idx + 1, pos + 1, acc.push(b));
            assert(acc.push(b) + content.skip(idx + 1) =~= acc + content.skip(idx));
        }
    }
}

/// A string literal embedded in a document parses back to its content:
/// escape-free content comes back as a span into the document, content
/// that needed escapes as an owned copy.
pub proof fn lemma_sp_string_embed(s: Seq<u8>, content: Seq<u8>, i: int)
    requires
        is_utf8(content),
        0 <= i,
        i + ser_string(content).len() <= s.len(),
        s.subrange(i, i + ser_string(content).len()) == ser_string(content),
        s.len() <= usize::MAX,
    ensures
        (match sp_string(s, i) {
            PR::POk(t, e2) => e2 == i + ser_string(content).len() && gtext_bytes(s, t) == content,
            PR::PFail(_) => false,
        }),
{
    let ec = esc_seq(content, 0);
    let lit = ser_string(content);
    assert(lit.len() == 2 + ec.len());
    assert forall|j: int| 0 <= j < lit.len() implies s[i + j] == lit[j] by {
        assert(s.subrange(i, i + lit.len())[j] == s[i + j]);
    }
    assert(lit[0] == 0x22);
    assert(s[i] == 0x22);
    assert(lit[lit.len() - 1] == 0x22);
    assert(s[i + lit.len() - 1] == 0x22);
    assert forall|j: int| 0 <= j < ec.len() implies s[i + 1 + j] == ec[j] by {
        assert(lit[1 + j] == ec[j]);
    }
    assert(s.subrange(i + 1, i + 1 + ec.len()) =~= ec);
    if forall|j: int| 0 <= j < content.len() ==> !must_escape(#[trigger] content[j]) {
        lemma_esc_id(content, 0);
        assert(ec == content.skip(0));
        assert(content.skip(0) =~= content);
        assert forall|j: int| i + 1 <= j < i + 1 + ec.len() implies !must_escape(
            #[trigger] s[j],
        ) by {
            assert(s[j] == ec[j - i - 1]);
            assert(ec[j - i - 1] == content[j - i - 1]);
        }
        assert(must_escape(s[i + 1 + ec.len()]));
        lemma_raw_end_clean(s, i + 1, i + 1 + ec.len());
        let k = raw_end(s, i + 1);
        assert(k == i + 1 + ec.len());
        assert(s.subrange(i + 1, k) =~= content);
        let sp = Span { start: (i + 1) as usize, len: (k - i - 1) as usize };
        assert(sp.bytes_of(s) =~= content);
    } else {
        let p = choose|p: int| 0 <= p < content.len() && must_escape(#[trigger] content[p]);
        assert(0 <= p < content.len() && must_escape(content[p]));
        lemma_raw_end_esc(s, content, 0, i + 1);
        let k = raw_end(s, i + 1);
        assert(s[k] == 0x5C);
        assert(k < s.len());
        lemma_unesc_esc(s, content, 0, i + 1, Seq::empty());
        assert(Seq::<u8>::empty() + content.skip(0) =~= content);
        assert(unesc(s, i + 1, Seq::empty()) == PR::POk(
            content,
            i + 1 + ec.len() + 1,
        ));
    }
}

/// Resolution commutes with appending an element.
pub proof fn lemma_resolve_elems_push(b: Seq<u8>, els: Seq<GValue>, v: GValue)
    ensures
        resolve_elems(b, els.push(v)) == resolve_elems(b, els).push(resolve(b, v)),
{
    crate::value::lemma_resolve_elems(b, els);
    crate::value::lemma_resolve_elems(b, els.push(v));
    let l = resolve_elems(b, els.push(v));
    let r = resolve_elems(b, els).push(resolve(b, v));
    assert forall|j: int| 0 <= j < l.len() implies l[j] == r[j] by {
        if j < els.len() {
            assert(els.push(v)[j] == els[j]);
            assert(l[j] == resolve(b, els[j]));
            assert(r[j] == resolve(b, els[j]));
        } else {
            assert(els.push(v)[j] == v);
        }
    }
    assert(l =~= r);
}

/// Resolution commutes with appending an entry.
pub proof fn lemma_resolve_entries_push(b: Seq<u8>, ents: Seq<(GText, GValue)>, k: GText, v: GValue)
    ensures
        resolve_entries(b, ents.push((k, v))) == resolve_entries(b, ents).push(
            (gtext_bytes(b, k), resolve(b, v)),
        ),
{
    crate::value::lemma_resolve_entries(b, ents);
    crate::value::lemma_resolve_entries(b, ents.push((k, v)));
    let l = resolve_entries(b, ents.push((k, v)));
    let r = resolve_entries(b, ents).push((gtext_bytes(b, k), resolve(b, v)));
    assert forall|j: int| 0 <= j < l.len() implies l[j] == r[j] by {
        if j < ents.len() {
            assert(ents.push((k, v))[j] == ents[j]);
            assert(l[j] == (gtext_bytes(b, ents[j].0), resolve(b, ents[j].1)));
            assert(r[j] == (gtext_bytes(b, ents[j].0), resolve(b, ents[j].1)));
        } else {
            assert(ents.push((k, v))[j] == (k, v));
        }
    }
    assert(l =~= r);
}

/// Taking one more element extends the resolved prefix by it.
pub proof fn lemma_resolve_elems_prefix(b: Seq<u8>, els: Seq<GValue>, k: int)
    requires
        0 <= k < els.len(),
    ensures
        resolve_elems(b, els.subrange(0, k + 1)) == resolve_elems(b, els.subrange(0, k)).push(
            resolve(b, els[k]),
        ),
{
    assert(els.subrange(0, k + 1) =~= els.subrange(0, k).push(els[k]));
    lemma_resolve_elems_push(b, els.subrange(0, k), els[k]);
}

/// Taking one more entry extends the resolved prefix by it.
pub proof fn lemma_resolve_entries_prefix(b: Seq<u8>, ents: Seq<(GText, GValue)>, k: int)
    requires
        0 <= k < ents.len(),
    ensures
        resolve_entries(b, ents.subrange(0, k + 1)) == resolve_entries(b, ents.subrange(0, k)).push(
            (gtext_bytes(b, ents[k].0), resolve(b, ents[k].1)),
        ),
{
    assert(ents.subrange(0, k + 1) =~= ents.subrange(0, k).push((ents[k].0, ents[k].1)));
    assert(ents.subrange(0, k + 1) =~= ents.subrange(0, k).push(ents[k]));
    lemma_resolve_entries_push(b, ents.subrange(0, k), ents[k].0, ents[k].1);
}

/// The first emitted byte of a value announces its shape, and is never
/// whitespace.
pub proof fn lemma_ser_first_byte(buf: Seq<u8>, g: GValue)
    requires
        ser_val(buf, g) is SOk,
        no_bytes_leaf(g),
        wf_gval(buf, g),
    ensures
        sr_bytes(ser_val(buf, g)).len() >= 1,
        !is_ws(sr_bytes(ser_val(buf, g))[0]),
        (match g {
            GValue::Null => sr_bytes(ser_val(buf, g))[0] == 0x6E,
            GValue::Bool(x) => sr_bytes(ser_val(buf, g))[0] == (if x {
                0x74u8
            } else {
                0x66u8
            }),
            GValue::Number(n) => sr_bytes(ser_val(buf, g))[0] == 0x2D || is_digit(
                sr_bytes(ser_val(buf, g))[0],
            ),
            GValue::String(_) => sr_bytes(ser_val(buf, g))[0] == 0x22,
            GValue::OwnedString(_) => sr_bytes(ser_val(buf, g))[0] == 0x22,
            GValue::Bytes(_) => false,
            GValue::Array(_) => sr_bytes(ser_val(buf, g))[0] == 0x5B,
            GValue::Object(_) => sr_bytes(ser_val(buf, g))[0] == 0x7B,
        }),
{
    let x = sr_bytes(ser_val(buf, g));
    match g {
        GValue::Number(n) => {
            lemma_ser_num_token(n);
        },
        GValue::String(sp) => {
            assert(x == ser_string(sp.bytes_of(buf)));
            assert(x[0] == 0x22);
        },
        GValue::OwnedString(o) => {
            assert(x == ser_string(o));
            assert(x[0] == 0x22);
        },
        GValue::Array(els) => {
            match ser_elems_from(buf, els, 0) {
                SR::SOk(y) => {
                    assert(x == seq![0x5Bu8] + y + seq![0x5Du8]);
                    assert(x[0] == 0x5B);
                },
                SR::SFail(_) => {},
            }
        },
        GValue::Object(ents) => {
            match ser_entries_from(buf, ents, 0) {
                SR::SOk(y) => {
                    assert(x == seq![0x7Bu8] + y + seq![0x7Du8]);
                    assert(x[0] == 0x7B);
                },
                SR::SFail(_) => {},
            }
        },
        _ => {},
    }
}

/// Parsing the serialized form of a well-formed value, embedded in a
/// document before a byte that cannot extend it, succeeds, consumes
/// exactly the serialized bytes, and yields a tree with the same
/// resolved JSON meaning.
#[verifier::rlimit(100)]
pub proof fn lemma_parse_of_ser(buf: Seq<u8>, g: GValue, s: Seq<u8>, i: int, d: nat)
    requires
        wf_gval(buf, g),
        no_bytes_leaf(g),
        fits_depth(g, d),
        ser_val(buf, g) is SOk,
        0 <= i,
        i + sr_bytes(ser_val(buf, g)).len() <= s.len(),
        s.subrange(i, i + sr_bytes(ser_val(buf, g)).len()) == sr_bytes(ser_val(buf, g)),
        i + sr_bytes(ser_val(buf, g)).len() == s.len() || !num_extender(
            s[i + sr_bytes(ser_val(buf, g)).len()],
        ),
        s.len() <= usize::MAX,
    ensures
        (match sp_value(s, i, d) {
            PR::POk(g2, end) => end == i + sr_bytes(ser_val(buf, g)).len() && resolve(s, g2)
                == resolve(buf, g),
            PR::PFail(_) => false,
        }),
    decreases g, 0int,
{
    let x = sr_bytes(ser_val(buf, g));
    lemma_ser_first_byte(buf, g);
    assert forall|j: int| 0 <= j < x.len() implies s[i + j] == x[j] by {
        assert(s.subrange(i, i + x.len())[j] == s[i + j]);
    }
    assert(s[i + 0] == x[0]);
    assert(s[i] == x[0]);
    match g {
        GValue::Null => {
            assert(x =~= seq![0x6Eu8, 0x75u8, 0x6Cu8, 0x6Cu8]);
            assert(s[i + 1] == 0x75 && s[i + 2] == 0x6C && s[i + 3] == 0x6C);
        },
        GValue::Bool(bv) => {
            if bv {
                assert(x =~= seq![0x74u8, 0x72u8, 0x75u8, 0x65u8]);
                assert(s[i + 1] == 0x72 && s[i + 2] == 0x75 && s[i + 3] == 0x65);
            } else {
                assert(x =~= seq![0x66u8, 0x61u8, 0x6Cu8, 0x73u8, 0x65u8]);
                assert(s[i + 1] == 0x61 && s[i + 2] == 0x6C && s[i + 3] == 0x73 && s[i + 4]
                    == 0x65);
            }
        },
        GValue::Number(n) => {
            lemma_sp_num_embed(s, n, i);
        },
        GValue::String(sp) => {
            let content = sp.bytes_of(buf);
            assert(x == ser_string(content));
            lemma_sp_string_embed(s, content, i);
        },
        GValue::OwnedString(o) => {
            assert(x == ser_string(o));
            lemma_sp_string_embed(s, o, i);
        },
        GValue::Bytes(_) => {
            assert(false);
        },
        GValue::Array(els) => {
            lemma_parse_of_ser_array(buf, els, s, i, d);
        },
        GValue::Object(ents) => {
            lemma_parse_of_ser_object(buf, ents, s, i, d);
        },
    }
}

/// Helper for [`lemma_parse_of_ser`]: the array case.
#[verifier::rlimit(100)]
pub proof fn lemma_parse_of_ser_array(buf: Seq<u8>, els: Seq<GValue>, s: Seq<u8>, i: int, d: nat)
    requires
        wf_gval(buf, GValue::Array(els)),
        no_bytes_leaf(GValue::Array(els)),
        fits_depth(GValue::Array(els), d),
        ser_val(buf, GValue::Array(els)) is SOk,
        0 <= i,
        i + sr_bytes(ser_val(buf, GValue::Array(els))).len() <= s.len(),
        s.subrange(i, i + sr_bytes(ser_val(buf, GValue::Array(els))).len()) == sr_bytes(
            ser_val(buf, GValue::Array(els)),
        ),
        s.len() <= usize::MAX,
    ensures
        (match sp_value(s, i, d) {
            PR::POk(g2, end) => end == i + sr_bytes(ser_val(buf, GValue::Array(els))).len()
                && resolve(s, g2) == resolve(buf, GValue::Array(els)),
            PR::PFail(_) => false,
        }),
    decreases els, els.len() + 1,
{
    let g = GValue::Array(els);
    let x = sr_bytes(ser_val(buf, g));
    let y = sr_bytes(ser_elems_from(buf, els, 0));
    assert(ser_elems_from(buf, els, 0) is SOk);
    assert(x == seq![0x5Bu8] + y + seq![0x5Du8]);
    assert(x.len() == y.len() + 2);
    assert forall|j: int| 0 <= j < x.len() implies s[i + j] == x[j] by {
        assert(s.subrange(i, i + x.len())[j] == s[i + j]);
    }
    assert(s[i + 0] == x[0]);
    assert(s[i] == 0x5B);
    assert forall|q: int| 0 <= q < y.len() implies s[i + 1 + q] == y[q] by {
        assert(x[1 + q] == y[q]);
        assert(s[i + (1 + q)] == x[1 + q]);
    }
    assert(s.subrange(i + 1, i + 1 + y.len()) =~= y);
    assert(x[1 + y.len() as int] == 0x5D);
    assert(s[i + 1 + y.len()] == x[1 + y.len() as int]);
    assert(s[i + 1 + y.len()] == 0x5D);
    assert(d >= 1);
    if els.len() == 0 {
        assert(y =~= Seq::<u8>::empty());
        assert(s[i + 1] == 0x5D);
        assert(skip_ws(s, i + 1) == i + 1);
        assert(sp_value(s, i, d) == PR::POk(GValue::Array(Seq::<GValue>::empty()), i + 2));
        assert(resolve_elems(s, Seq::<GValue>::empty()) =~= Seq::<JVal>::empty());
        assert(resolve_elems(buf, els) =~= Seq::<JVal>::empty());
    } else {
        crate::value::lemma_wf_elems(buf, els);
        crate::value::lemma_no_bytes_elems(els);
        crate::value::lemma_fits_depth_elems(els, (d - 1) as nat);
        assert(ser_val(buf, els[0]) is SOk);
        let x0 = sr_bytes(ser_val(buf, els[0]));
        lemma_ser_first_byte(buf, els[0]);
        assert(y[0] == x0[0]);
        assert(s[i + 1] == y[0]);
        assert(!is_ws(s[i + 1]));
        assert(s[i + 1] != 0x5D);
        assert(skip_ws(s, i + 1) == i + 1);
        assert(resolve_elems(s, Seq::<GValue>::empty()) =~= Seq::<JVal>::empty());
        assert(resolve_elems(buf, els.subrange(0, 0)) =~= Seq::<JVal>::empty());
        lemma_parse_of_ser_elems(buf, els, 0, s, i + 1, (d - 1) as nat, Seq::empty());
        assert(sp_value(s, i, d) == sp_elems(s, i + 1, (d - 1) as nat, Seq::empty()));
    }
}

/// Helper for [`lemma_parse_of_ser`]: the object case.
#[verifier::rlimit(100)]
pub proof fn lemma_parse_of_ser_object(
    buf: Seq<u8>,
    ents: Seq<(GText, GValue)>,
    s: Seq<u8>,
    i: int,
    d: nat,
)
    requires
        wf_gval(buf, GValue::Object(ents)),
        no_bytes_leaf(GValue::Object(ents)),
        fits_depth(GValue::Object(ents), d),
        ser_val(buf, GValue::Object(ents)) is SOk,
        0 <= i,
        i + sr_bytes(ser_val(buf, GValue::Object(ents))).len() <= s.len(),
        s.subrange(i, i + sr_bytes(ser_val(buf, GValue::Object(ents))).len()) == sr_bytes(
            ser_val(buf, GValue::Object(ents)),
        ),
        s.len() <= usize::MAX,
    ensures
        (match sp_value(s, i, d) {
            PR::POk(g2, end) => end == i + sr_bytes(ser_val(buf, GValue::Object(ents))).len()
                && resolve(s, g2) == resolve(buf, GValue::Object(ents)),
            PR::PFail(_) => false,
        }),
    decreases ents, ents.len() + 1,
{
    let g = GValue::Object(ents);
    let x = sr_bytes(ser_val(buf, g));
    let y = sr_bytes(ser_entries_from(buf, ents, 0));
    assert(ser_entries_from(buf, ents, 0) is SOk);
    assert(x == seq![0x7Bu8] + y + seq![0x7Du8]);
    assert(x.len() == y.len() + 2);
    assert forall|j: int| 0 <= j < x.len() implies s[i + j] == x[j] by {
        assert(s.subrange(i, i + x.len())[j] == s[i + j]);
    }
    assert(s[i + 0] == x[0]);
    assert(s[i] == 0x7B);
    assert forall|q: int| 0 <= q < y.len() implies s[i + 1 + q] == y[q] by {
        assert(x[1 + q] == y[q]);
        assert(s[i + (1 + q)] == x[1 + q]);
    }
    assert(s.subrange(i + 1, i + 1 + y.len()) =~= y);
    assert(x[1 + y.len() as int] == 0x7D);
    assert(s[i + 1 + y.len()] == x[1 + y.len() as int]);
    assert(s[i + 1 + y.len()] == 0x7D);
    assert(d >= 1);
    if ents.len() == 0 {
        assert(y =~= Seq::<u8>::empty());
        assert(s[i + 1] == 0x7D);
        assert(skip_ws(s, i + 1) == i + 1);
        assert(sp_value(s, i, d) == PR::POk(
            GValue::Object(Seq::<(GText, GValue)>::empty()),
            i + 2,
        ));
        assert(resolve_entries(s, Seq::<(GText, GValue)>::empty()) =~= Seq::<(
            Seq<u8>,
            JVal,
        )>::empty());
        assert(resolve_entries(buf, ents) =~= Seq::<(Seq<u8>, JVal)>::empty());
    } else {
        crate::value::lemma_wf_entries(buf, ents);
        crate::value::lemma_no_bytes_entries(ents);
        crate::value::lemma_fits_depth_entries(ents, (d - 1) as nat);
        let kb0 = gtext_bytes(buf, ents[0].0);
        assert(y[0] == ser_string(kb0)[0]);
        assert(ser_string(kb0)[0] == 0x22);
        assert(s[i + 1] == 0x22);
        assert(skip_ws(s, i + 1) == i + 1);
        assert(s[i + 1] != 0x7D);
        assert(resolve_entries(s, Seq::<(GText, GValue)>::empty()) =~= Seq::<(
            Seq<u8>,
            JVal,
        )>::empty());
        assert(resolve_entries(buf, ents.subrange(0, 0)) =~= Seq::<(Seq<u8>, JVal)>::empty());
        lemma_parse_of_ser_entries(buf, ents, 0, s, i + 1, (d - 1) as nat, Seq::empty());
        assert(sp_value(s, i, d) == sp_members(s, i + 1, (d - 1) as nat, Seq::empty()));
    }
}

/// Helper for [`lemma_parse_of_ser`]: the serialized elements from index
/// `k` on, followed by the closing bracket, parse into the array whose
/// resolved elements are all of `els`.
#[verifier::rlimit(100)]
pub proof fn lemma_parse_of_ser_elems(
    buf: Seq<u8>,
    els: Seq<GValue>,
    k: int,
    s: Seq<u8>,
    i: int,
    d: nat,
    acc: Seq<GValue>,
)
    requires
        0 <= k < els.len(),
        forall|p: int|
            0 <= p < els.len() ==> wf_gval(buf, #[trigger] els[p]) && no_bytes_leaf(els[p])
                && fits_depth(els[p], d),
        ser_elems_from(buf, els, k) is SOk,
        0 <= i,
        i + sr_bytes(ser_elems_from(buf, els, k)).len() < s.len(),
        s.subrange(i, i + sr_bytes(ser_elems_from(buf, els, k)).len()) == sr_bytes(
            ser_elems_from(buf, els, k),
        ),
        s[i + sr_bytes(ser_elems_from(buf, els, k)).len()] == 0x5D,
        s.len() <= usize::MAX,
        resolve_elems(s, acc) == resolve_elems(buf, els.subrange(0, k)),
    ensures
        (match sp_elems(s, i, d, acc) {
            PR::POk(g2, end) => end == i + sr_bytes(ser_elems_from(buf, els, k)).len() + 1
                && resolve(s, g2) == JVal::Arr(resolve_elems(buf, els)),
            PR::PFail(_) => false,
        }),
    decreases els, els.len() - k,
{
    let y = sr_bytes(ser_elems_from(buf, els, k));
    assert forall|q: int| 0 <= q < y.len() implies s[i + q] == y[q] by {
        assert(s.subrange(i, i + y.len())[q] == s[i + q]);
    }
    assert(ser_val(buf, els[k]) is SOk);
    let xk = sr_bytes(ser_val(buf, els[k]));
    lemma_ser_first_byte(buf, els[k]);
    if k == els.len() - 1 {
        assert(y == xk);
        lemma_parse_of_ser(buf, els[k], s, i, d);
        match sp_value(s, i, d) {
            PR::POk(v2, e1) => {
                assert(e1 == i + y.len());
                assert(s[e1] == 0x5D);
                assert(skip_ws(s, e1) == e1);
                assert(sp_elems(s, i, d, acc) == PR::POk(GValue::Array(acc.push(v2)), e1 + 1));
                lemma_resolve_elems_push(s, acc, v2);
                lemma_resolve_elems_prefix(buf, els, k);
                assert(els.subrange(0, els.len() as int) =~= els);
                assert(resolve_elems(s, acc.push(v2)) == resolve_elems(buf, els));
            },
            PR::PFail(_) => {},
        }
    } else {
        let yr = sr_bytes(ser_elems_from(buf, els, k + 1));
        assert(ser_elems_from(buf, els, k + 1) is SOk);
        assert(y == xk + seq![0x2Cu8] + yr);
        assert(y.len() == xk.len() + 1 + yr.len());
        assert forall|q: int| 0 <= q < xk.len() implies s[i + q] == xk[q] by {
            assert(y[q] == (xk + seq![0x2Cu8])[q]);
        }
        assert(s.subrange(i, i + xk.len()) =~= xk);
        assert(y[xk.len() as int] == 0x2C);
        assert(s[i + xk.len()] == 0x2C);
        lemma_parse_of_ser(buf, els[k], s, i, d);
        match sp_value(s, i, d) {
            PR::POk(v2, e1) => {
                assert(e1 == i + xk.len());
                assert(s[e1] == 0x2C);
                assert(skip_ws(s, e1) == e1);
                assert(s[e1] != 0x5D);
                let j2 = e1 + 1;
                assert(ser_val(buf, els[k + 1]) is SOk);
                let xn = sr_bytes(ser_val(buf, els[k + 1]));
                lemma_ser_first_byte(buf, els[k + 1]);
                assert(yr[0] == xn[0]);
                assert(y[xk.len() + 1int] == yr[0]);
                assert(s[i + xk.len() + 1] == y[xk.len() + 1int]);
                assert(s[j2] == yr[0]);
                assert(!is_ws(s[j2]));
                assert(skip_ws(s, j2) == j2);
                assert forall|q: int| 0 <= q < yr.len() implies s[j2 + q] == yr[q] by {
                    assert(y[xk.len() + 1 + q] == yr[q]);
                    assert(s[i + (xk.len() + 1 + q)] == y[xk.len() + 1 + q]);
                }
                assert(s.subrange(j2, j2 + yr.len()) =~= yr);
                assert(j2 + yr.len() == i + y.len());
                assert(s[j2 + yr.len()] == 0x5D);
                lemma_resolve_elems_push(s, acc, v2);
                lemma_resolve_elems_prefix(buf, els, k);
                lemma_parse_of_ser_elems(buf, els, k + 1, s, j2, d, acc.push(v2));
                assert(sp_elems(s, i, d, acc) == sp_elems(s, j2, d, acc.push(v2)));
            },
            PR::PFail(_) => {},
        }
    }
}

/// Byte layout of one serialized entry at the front of the remaining
/// entry bytes.
#[verifier::rlimit(100)]
pub proof fn lemma_entries_layout(
    buf: Seq<u8>,
    ents: Seq<(GText, GValue)>,
    k: int,
    s: Seq<u8>,
    i: int,
)
    requires
        0 <= k < ents.len(),
        ser_entries_from(buf, ents, k) is SOk,
        0 <= i,
        i + sr_bytes(ser_entries_from(buf, ents, k)).len() < s.len(),
        s.subrange(i, i + sr_bytes(ser_entries_from(buf, ents, k)).len()) == sr_bytes(
            ser_entries_from(buf, ents, k),
        ),
        s[i + sr_bytes(ser_entries_from(buf, ents, k)).len()] == 0x7D,
    ensures
        ser_val(buf, ents[k].1) is SOk,
        ({
            let kl = ser_string(gtext_bytes(buf, ents[k].0));
            let xk = sr_bytes(ser_val(buf, ents[k].1));
            let y = sr_bytes(ser_entries_from(buf, ents, k));
            &&& i + kl.len() + 1 + xk.len() <= i + y.len()
            &&& s.subrange(i, i + kl.len()) == kl
            &&& s[i + kl.len()] == 0x3A
            &&& s.subrange(i + kl.len() + 1, i + kl.len() + 1 + xk.len()) == xk
            &&& (k == ents.len() - 1 ==> i + kl.len() + 1 + xk.len() == i + y.len())
            &&& (k < ents.len() - 1 ==> s[i + kl.len() + 1 + xk.len()] == 0x2C && i + kl.len()
                + 1 + xk.len() + 1 + sr_bytes(ser_entries_from(buf, ents, k + 1)).len() == i
                + y.len() && ser_entries_from(buf, ents, k + 1) is SOk && s.subrange(
                i + kl.len() + 1 + xk.len() + 1,
                i + y.len(),
            ) == sr_bytes(ser_entries_from(buf, ents, k + 1)))
        }),
{
    let y = sr_bytes(ser_entries_from(buf, ents, k));
    let kb = gtext_bytes(buf, ents[k].0);
    let kl = ser_string(kb);
    let xk = sr_bytes(ser_val(buf, ents[k].1));
    let entry = kl + seq![0x3Au8] + xk;
    assert forall|q: int| 0 <= q < y.len() implies s[i + q] == y[q] by {
        assert(s.subrange(i, i + y.len())[q] == s[i + q]);
    }
    if k == ents.len() - 1 {
        assert(y == entry);
    } else {
        let yr = sr_bytes(ser_entries_from(buf, ents, k + 1));
        assert(y == entry + seq![0x2Cu8] + yr);
    }
    assert forall|q: int| 0 <= q < entry.len() implies s[i + q] == entry[q] by {
        if k == ents.len() - 1 {
            assert(y[q] == entry[q]);
        } else {
            let yr = sr_bytes(ser_entries_from(buf, ents, k + 1));
            assert(y[q] == (entry + seq![0x2Cu8] + yr)[q]);
        }
    }
    assert forall|q: int| 0 <= q < kl.len() implies s[i + q] == kl[q] by {
        assert(entry[q] == kl[q]);
    }
    assert(s.subrange(i, i + kl.len()) =~= kl);
    assert(entry[kl.len() as int] == 0x3A);
    assert(s[i + kl.len()] == entry[kl.len() as int]);
    assert forall|q: int| 0 <= q < xk.len() implies s[i + kl.len() + 1 + q] == xk[q] by {
        assert(entry[kl.len() + 1 + q] == xk[q]);
        assert(s[i + (kl.len() + 1 + q)] == entry[kl.len() + 1 + q]);
    }
    assert(s.subrange(i + kl.len() + 1, i + kl.len() + 1 + xk.len()) =~= xk);
    if k < ents.len() - 1 {
        let yr = sr_bytes(ser_entries_from(buf, ents, k + 1));
        assert(y[entry.len() as int] == 0x2C);
        assert(s[i + entry.len()] == y[entry.len() as int]);
        assert forall|q: int| 0 <= q < yr.len() implies s[i + entry.len() + 1 + q] == yr[q] by {
            assert(y[entry.len() + 1 + q] == yr[q]);
            assert(s[i + (entry.len() + 1 + q)] == y[entry.len() + 1 + q]);
        }
        assert(s.subrange(i + entry.len() + 1, i + y.len()) =~= yr);
    }
}

/// Helper for [`lemma_parse_of_ser`]: the serialized entries from index
/// `k` on, followed by the closing brace, parse into the object whose
/// resolved entries are all of `ents`.
#[verifier::rlimit(100)]
pub proof fn lemma_parse_of_ser_entries(
    buf: Seq<u8>,
    ents: Seq<(GText, GValue)>,
    k: int,
    s: Seq<u8>,
    i: int,
    d: nat,
    acc: Seq<(GText, GValue)>,
)
    requires
        0 <= k < ents.len(),
        forall|p: int|
            0 <= p < ents.len() ==> crate::value::wf_gtext(buf, (#[trigger] ents[p]).0)
                && wf_gval(buf, ents[p].1) && no_bytes_leaf(ents[p].1) && fits_depth(
                ents[p].1,
                d,
            ),
        entries_sorted(buf, ents),
        ser_entries_from(buf, ents, k) is SOk,
        0 <= i,
        i + sr_bytes(ser_entries_from(buf, ents, k)).len() < s.len(),
        s.subrange(i, i + sr_bytes(ser_entries_from(buf, ents, k)).len()) == sr_bytes(
            ser_entries_from(buf, ents, k),
        ),
        s[i + sr_bytes(ser_entries_from(buf, ents, k)).len()] == 0x7D,
        s.len() <= usize::MAX,
        resolve_entries(s, acc) == resolve_entries(buf, ents.subrange(0, k)),
    ensures
        (match sp_members(s, i, d, acc) {
            PR::POk(g2, end) => end == i + sr_bytes(ser_entries_from(buf, ents, k)).len() + 1
                && resolve(s, g2) == JVal::Obj(resolve_entries(buf, ents)),
            PR::PFail(_) => false,
        }),
    decreases ents, ents.len() - k,
{
    let y = sr_bytes(ser_entries_from(buf, ents, k));
    let kb = gtext_bytes(buf, ents[k].0);
    let kl = ser_string(kb);
    let xk = sr_bytes(ser_val(buf, ents[k].1));
    lemma_entries_layout(buf, ents, k, s, i);
    lemma_ser_first_byte(buf, ents[k].1);
    assert(is_utf8(kb)) by {
        match ents[k].0 {
            GText::Borrowed(spk) => {
                assert(crate::value::raw_str_ok(spk.bytes_of(buf)));
            },
            GText::Owned(_) => {},
        }
    }
    let after_key = i + kl.len();
    let jv = after_key + 1;
    assert(s.subrange(i, i + kl.len())[0] == s[i]);
    assert(s[i] == kl[0]);
    assert(kl[0] == 0x22);
    lemma_sp_string_embed(s, kb, i);
    match sp_string(s, i) {
        PR::POk(k2, ekey) => {
            assert(ekey == after_key);
            assert(gtext_bytes(s, k2) == kb);
            assert(s[after_key] == 0x3A);
            assert(skip_ws(s, after_key) == after_key);
            assert(s.subrange(jv, jv + xk.len())[0] == s[jv]);
            assert(s[jv] == xk[0]);
            assert(!is_ws(s[jv]));
            assert(skip_ws(s, after_key + 1) == jv);
            assert(jv > i);
            assert(jv <= s.len());
            if k == ents.len() - 1 {
                assert(jv + xk.len() == i + y.len());
                assert(s[jv + xk.len()] == 0x7D);
            } else {
                assert(s[jv + xk.len()] == 0x2C);
            }
            lemma_parse_of_ser(buf, ents[k].1, s, jv, d);
            match sp_value(s, jv, d) {
                PR::POk(v2, e1) => {
                    assert(e1 == jv + xk.len());
                    crate::value::lemma_resolve_entries(s, acc);
                    crate::value::lemma_resolve_entries(buf, ents.subrange(0, k));
                    assert(acc.len() == k);
                    lemma_entries_sorted_pairwise_use(buf, ents, k, s, acc, k2);
                    crate::parse::lemma_insert_sorted_unfold(s, acc, k2, v2, k);
                    let acc2 = crate::parse::insert_sorted(s, acc, k2, v2);
                    assert(acc.subrange(k, k) =~= Seq::<(GText, GValue)>::empty());
                    assert(crate::parse::insert_sorted(
                        s,
                        Seq::<(GText, GValue)>::empty(),
                        k2,
                        v2,
                    ) == seq![(k2, v2)]);
                    assert(acc.subrange(0, k) =~= acc);
                    assert(acc2 =~= acc + seq![(k2, v2)]);
                    assert(acc2 =~= acc.push((k2, v2)));
                    lemma_resolve_entries_push(s, acc, k2, v2);
                    lemma_resolve_entries_prefix(buf, ents, k);
                    assert(resolve_entries(s, acc2) == resolve_entries(
                        buf,
                        ents.subrange(0, k + 1),
                    ));
                    if k == ents.len() - 1 {
                        assert(s[e1] == 0x7D);
                        assert(skip_ws(s, e1) == e1);
                        assert(sp_members(s, i, d, acc) == PR::POk(GValue::Object(acc2), e1 + 1));
                        assert(ents.subrange(0, ents.len() as int) =~= ents);
                        assert(resolve(s, GValue::Object(acc2)) == JVal::Obj(
                            resolve_entries(buf, ents),
                        ));
                    } else {
                        let yr = sr_bytes(ser_entries_from(buf, ents, k + 1));
                        assert(s[e1] == 0x2C);
                        assert(skip_ws(s, e1) == e1);
                        assert(s[e1] != 0x7D);
                        let j4 = e1 + 1;
                        let kbn = gtext_bytes(buf, ents[k + 1].0);
                        assert(yr[0] == ser_string(kbn)[0]);
                        assert(ser_string(kbn)[0] == 0x22);
                        assert(s.subrange(j4, i + y.len()) == yr);
                        assert(s.subrange(j4, i + y.len())[0] == s[j4]);
                        assert(s[j4] == yr[0]);
                        assert(s[j4] == 0x22);
                        assert(!is_ws(s[j4]));
                        assert(skip_ws(s, j4) == j4);
                        assert(j4 + yr.len() == i + y.len());
                        assert(s[j4 + yr.len()] == 0x7D);
                        lemma_parse_of_ser_entries(buf, ents, k + 1, s, j4, d, acc2);
                        assert(sp_members(s, i, d, acc) == sp_members(s, j4, d, acc2));
                    }
                },
                PR::PFail(_) => {},
            }
        },
        PR::PFail(_) => {},
    }
}

/// All keys already gathered sort strictly before the key now parsed.
pub proof fn lemma_entries_sorted_pairwise_use(
    buf: Seq<u8>,
    ents: Seq<(GText, GValue)>,
    k: int,
    s: Seq<u8>,
    acc: Seq<(GText, GValue)>,
    k2: GText,
)
    requires
        0 <= k < ents.len(),
        entries_sorted(buf, ents),
        acc.len() == k,
        resolve_entries(s, acc) == resolve_entries(buf, ents.subrange(0, k)),
        gtext_bytes(s, k2) == gtext_bytes(buf, ents[k].0),
    ensures
        forall|p: int|
            0 <= p < acc.len() ==> lex_lt(
                gtext_bytes(s, (#[trigger] acc[p]).0),
                gtext_bytes(s, k2),
            ),
{
    crate::value::lemma_entries_sorted_pairwise(buf, ents);
    crate::value::lemma_resolve_entries(s, acc);
    crate::value::lemma_resolve_entries(buf, ents.subrange(0, k));
    assert forall|p: int| 0 <= p < acc.len() implies lex_lt(
        gtext_bytes(s, (#[trigger] acc[p]).0),
        gtext_bytes(s, k2),
    ) by {
        assert(resolve_entries(s, acc)[p] == (gtext_bytes(s, acc[p].0), resolve(s, acc[p].1)));
        assert(resolve_entries(buf, ents.subrange(0, k))[p] == (
            gtext_bytes(buf, ents.subrange(0, k)[p].0),
            resolve(buf, ents.subrange(0, k)[p].1),
        ));
        assert(ents.subrange(0, k)[p] == ents[p]);
        assert(gtext_bytes(s, acc[p].0) == gtext_bytes(buf, ents[p].0));
        assert(lex_lt(gtext_bytes(buf, ents[p].0), gtext_bytes(buf, ents[k].0)));
    }
}

/// The serialize-then-decode round trip: a well-formed tree without
/// `Bytes` leaves, nested within the decoder's limit, serializes to a
/// document that decodes back to a tree with the same resolved JSON
/// meaning — although the bytes may differ from whatever source the tree
/// came from (keys re-ordered, numbers re-printed, escapes normalized).
pub proof fn lemma_round_trip(buf: Seq<u8>, g: GValue)
    requires
        wf_gval(buf, g),
        no_bytes_leaf(g),
        fits_depth(g, MAX_DEPTH as nat),
        sr_bytes(ser_val(buf, g)).len() <= usize::MAX,
    ensures
        ser_val(buf, g) is SOk,
        (match sp_doc(sr_bytes(ser_val(buf, g))) {
            PR::POk(g2, _) => resolve(sr_bytes(ser_val(buf, g)), g2) == resolve(buf, g),
            PR::PFail(_) => false,
        }),
{
    crate::ser::lemma_wf_ser_ok(buf, g);
    let x = sr_bytes(ser_val(buf, g));
    lemma_ser_first_byte(buf, g);
    assert(!is_ws(x[0]));
    assert(skip_ws(x, 0) == 0);
    assert(x.subrange(0, x.len() as int) =~= x);
    lemma_parse_of_ser(buf, g, x, 0, MAX_DEPTH as nat);
    match sp_value(x, 0, MAX_DEPTH as nat) {
        PR::POk(g2, end) => {
            assert(end == x.len());
            assert(skip_ws(x, end) == end);
        },
        PR::PFail(_) => {},
    }
}

/// The decode-then-encode round trip: re-encoding any decoded document
/// yields bytes that decode to the same resolved JSON value as the
/// original document, whatever whitespace, key order, duplicate keys or
/// escape spellings the original used.
pub proof fn lemma_encode_of_decode(s: Seq<u8>)
    requires
        s.len() <= usize::MAX,
        (match sp_doc(s) {
            PR::POk(g, _) => sr_bytes(ser_val(s, g)).len() <= usize::MAX,
            PR::PFail(_) => true,
        }),
    ensures
        (match sp_doc(s) {
            PR::POk(g, _) => {
                &&& ser_val(s, g) is SOk
                &&& (match sp_doc(sr_bytes(ser_val(s, g))) {
                    PR::POk(g2, _) => resolve(sr_bytes(ser_val(s, g)), g2) == resolve(s, g),
                    PR::PFail(_) => false,
                })
            },
            PR::PFail(_) => true,
        }),
{
    crate::parse::lemma_sp_doc_wf(s);
    match sp_doc(s) {
        PR::POk(g, _) => {
            lemma_round_trip(s, g);
        },
        PR::PFail(_) => {},
    }
}

} // verus!
