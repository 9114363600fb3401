//! Behavior of the decoder, encoder and wrapper on concrete inputs:
//! round trips, the zero-copy and copying fallback paths, duplicate-key
//! resolution, the numeric policy, every error variant, and shared
//! buffers behind independently dropped wrapper units.
use std::sync::Arc;

use zero_copy_json::{
    decode, encode, number_from_decimal, ErasedDoc, ErrorKind, EncodeError, Number, Span, Text,
    Value,
};

fn roundtrip(json_str: &str) {
    let result: Value = decode(json_str.as_bytes()).unwrap();
    let encoded = encode(json_str.as_bytes(), &result).unwrap();
    let reread: serde_json::Value =
        serde_json::from_str(std::str::from_utf8(&encoded).unwrap()).unwrap();
    let direct: serde_json::Value = serde_json::from_str(json_str).unwrap();
    assert_eq!(reread, direct);
}

fn kind_of(json: &[u8]) -> ErrorKind {
    decode(json).unwrap_err().kind
}

#[test]
fn roundtrip_scalars() {
    roundtrip("null");
    roundtrip("true");
    roundtrip("false");
    roundtrip("0");
    roundtrip("-1");
    roundtrip("123");
    roundtrip("1.5");
    roundtrip("-2.75e-3");
    roundtrip("\"\"");
    roundtrip("\"hello\"");
    roundtrip("\"caf\\u00e9 \\n \\\" \\\\ \\/ \\u0001\"");
    roundtrip("\"\\ud83d\\ude00\"");
}

#[test]
fn roundtrip_structures() {
    roundtrip("[]");
    roundtrip("{}");
    roundtrip("[1,[2,[3,[4]]],{\"a\":[true,null]}]");
    roundtrip("  { \"b\" : 1 , \"a\" : [ 1.5 , \"x\" ] , \"c\" : { } }  ");
    roundtrip(r#"{"id":123,"name":"John Doe","screen_name":"Unidentified","location":"Fringe"}"#);
}

#[test]
fn end_to_end_scenario() {
    // decode -> inspect -> encode -> reread by a standard reader.
    let json_str = r#"{"id":123,"name":"John Doe"}"#;
    let buf = json_str.as_bytes();
    let v = decode(buf).unwrap();
    let id = v.lookup(buf, b"id").unwrap();
    match id {
        Value::Number(Number::Unsigned(u)) => assert_eq!(*u, 123),
        _ => panic!(),
    }
    let name = v.lookup(buf, b"name").unwrap();
    let name_off = json_str.find("John Doe").unwrap();
    match name {
        Value::String(sp) => {
            assert_eq!(sp.start, name_off);
            assert_eq!(sp.len, "John Doe".len());
            assert_eq!(&buf[sp.start..sp.start + sp.len], b"John Doe");
        }
        _ => panic!(),
    }
    let encoded = encode(buf, &v).unwrap();
    let reread: serde_json::Value = serde_json::from_slice(&encoded).unwrap();
    let direct: serde_json::Value = serde_json::from_str(json_str).unwrap();
    assert_eq!(reread, direct);
}

#[test]
fn zero_copy_when_no_escapes() {
    // Without escape sequences every text leaf is a span into the input.
    let json_str = r#"{"k":"plain text","a":["x","y"]}"#;
    let buf = json_str.as_bytes();
    let v = decode(buf).unwrap();
    let leaf = v.lookup(buf, b"k").unwrap();
    match leaf {
        Value::String(sp) => {
            let off = json_str.find("plain text").unwrap();
            assert_eq!(sp.start, off);
            assert_eq!(&buf[sp.start..sp.start + sp.len], b"plain text");
        }
        _ => panic!(),
    }
}

#[test]
fn owned_fallback_when_escaped() {
    // An escaped token is materialized as an owned copy with the decoded
    // content.
    let json_str = r#"{"k":"a\nb\u0041"}"#;
    let buf = json_str.as_bytes();
    let v = decode(buf).unwrap();
    match v.lookup(buf, b"k").unwrap() {
        Value::OwnedString(o) => assert_eq!(o.as_slice(), b"a\nbA"),
        _ => panic!(),
    }
}

#[test]
fn duplicate_keys_last_write_wins() {
    let buf = br#"{"a":1,"a":2}"#;
    let v = decode(buf).unwrap();
    match v {
        Value::Object(ref entries) => assert_eq!(entries.len(), 1),
        _ => panic!(),
    }
    match v.lookup(buf, b"a").unwrap() {
        Value::Number(Number::Unsigned(u)) => assert_eq!(*u, 2),
        _ => panic!(),
    }
}

#[test]
fn object_keys_emitted_sorted() {
    let buf = br#"{"b":1,"a":2}"#;
    let v = decode(buf).unwrap();
    let encoded = encode(buf, &v).unwrap();
    assert_eq!(encoded.as_slice(), br#"{"a":2,"b":1}"#);
}

#[test]
fn numeric_policy() {
    let cases: &[(&str, fn(&Number) -> bool)] = &[
        ("0", |n| matches!(n, Number::Unsigned(0))),
        ("123", |n| matches!(n, Number::Unsigned(123))),
        ("18446744073709551615", |n| matches!(n, Number::Unsigned(u64::MAX))),
        ("-1", |n| matches!(n, Number::Signed(-1))),
        ("-9223372036854775808", |n| matches!(n, Number::Signed(i64::MIN))),
    ];
    for (text, check) in cases {
        match decode(text.as_bytes()).unwrap() {
            Value::Number(ref n) => assert!(check(n)),
            _ => panic!(),
        }
    }
    let decimal_cases =
        ["-0", "1.5", "1e2", "18446744073709551616", "-9223372036854775809", "1e999"];
    for text in decimal_cases {
        match decode(text.as_bytes()).unwrap() {
            Value::Number(Number::Decimal(t)) => assert_eq!(t.as_slice(), text.as_bytes()),
            _ => panic!(),
        }
    }
}

#[test]
fn number_reformatting_is_semantic() {
    // A leading zero does not start a longer integer token.
    assert_eq!(kind_of(b" 0123456789 "), ErrorKind::TrailingData);
    // Integers reprint canonically; kept decimal tokens reprint verbatim.
    let v = decode(b"123").unwrap();
    assert_eq!(encode(b"123", &v).unwrap().as_slice(), b"123");
    let v = decode(b"1.50e+2").unwrap();
    assert_eq!(encode(b"1.50e+2", &v).unwrap().as_slice(), b"1.50e+2");
}

#[test]
fn nonfinite_from_outside_becomes_null() {
    // The bridge for numbers computed outside the library: finite doubles
    // arrive as decimal text, non-finite ones must become null.
    assert!(!zero_copy_json::num::is_finite_f64_bits(f64::NAN.to_bits()));
    assert!(!zero_copy_json::num::is_finite_f64_bits(f64::INFINITY.to_bits()));
    assert!(!zero_copy_json::num::is_finite_f64_bits(f64::NEG_INFINITY.to_bits()));
    assert!(zero_copy_json::num::is_finite_f64_bits(1.5f64.to_bits()));
    assert!(zero_copy_json::num::is_finite_f64_bits(0.0f64.to_bits()));
    let x = 0.0f64 / 0.0f64;
    let v = if zero_copy_json::num::is_finite_f64_bits(x.to_bits()) {
        number_from_decimal(format!("{}", x).as_bytes()).unwrap()
    } else {
        Value::Null
    };
    assert!(matches!(v, Value::Null));
    let y = 1.5f64;
    let v = if zero_copy_json::num::is_finite_f64_bits(y.to_bits()) {
        number_from_decimal(format!("{}", y).as_bytes()).unwrap()
    } else {
        Value::Null
    };
    match v {
        Value::Number(Number::Decimal(t)) => assert_eq!(t.as_slice(), b"1.5"),
        _ => panic!(),
    }
    assert!(number_from_decimal(b"not a number").is_none());
}

#[test]
fn decode_error_variants() {
    assert_eq!(kind_of(b""), ErrorKind::UnexpectedEnd);
    assert_eq!(kind_of(b"{"), ErrorKind::UnexpectedEnd);
    assert_eq!(kind_of(b"\"abc"), ErrorKind::UnexpectedEnd);
    assert_eq!(kind_of(b"x"), ErrorKind::ExpectedValue);
    assert_eq!(kind_of(b"nul"), ErrorKind::ExpectedValue);
    assert_eq!(kind_of(b"-"), ErrorKind::InvalidNumber);
    assert_eq!(kind_of(b"1."), ErrorKind::InvalidNumber);
    assert_eq!(kind_of(b"1e"), ErrorKind::InvalidNumber);
    assert_eq!(kind_of(b"\"\xff\""), ErrorKind::InvalidUtf8);
    assert_eq!(kind_of(b"\"\\q\""), ErrorKind::InvalidEscape);
    assert_eq!(kind_of(b"\"\\ud800\""), ErrorKind::InvalidEscape);
    assert_eq!(kind_of(b"\"a\nb\""), ErrorKind::ControlChar);
    assert_eq!(kind_of(b"{1:2}"), ErrorKind::ExpectedString);
    assert_eq!(kind_of(b"{\"a\" 1}"), ErrorKind::ExpectedColon);
    assert_eq!(kind_of(b"[1 2]"), ErrorKind::ExpectedCommaOrEnd);
    assert_eq!(kind_of(b"1 x"), ErrorKind::TrailingData);
    let mut deep = String::new();
    for _ in 0..200 {
        deep.push('[');
    }
    assert_eq!(kind_of(deep.as_bytes()), ErrorKind::TooDeep);
}

#[test]
fn encode_error_variants() {
    // A binary leaf must be UTF-8 under the strict encoding policy.
    let buf = [0xffu8, 0xfe];
    let v = Value::Bytes(Span { start: 0, len: 2 });
    assert_eq!(encode(&buf, &v).unwrap_err(), EncodeError::InvalidUtf8);
    let v = Value::Bytes(Span { start: 0, len: 9 });
    assert_eq!(encode(&buf, &v).unwrap_err(), EncodeError::SpanOutOfBounds);
    // A UTF-8 binary leaf encodes as a string.
    let buf = b"hi";
    let v = Value::Bytes(Span { start: 0, len: 2 });
    assert_eq!(encode(buf, &v).unwrap().as_slice(), b"\"hi\"");
}

#[test]
fn wrapper_lifecycle() {
    // The projection borrows from the unit; the value stays readable for
    // as long as the unit lives, wherever the unit has been moved to.
    let doc = ErasedDoc::decode_owned(br#"{"id":123,"name":"John Doe"}"#.to_vec()).unwrap();
    let moved = doc;
    let v = moved.get();
    match v.lookup(moved.buffer(), b"id").unwrap() {
        Value::Number(Number::Unsigned(u)) => assert_eq!(*u, 123),
        _ => panic!(),
    }
    let encoded = moved.to_bytes();
    let reread: serde_json::Value = serde_json::from_slice(&encoded).unwrap();
    let direct: serde_json::Value =
        serde_json::from_slice(br#"{"id":123,"name":"John Doe"}"#).unwrap();
    assert_eq!(reread, direct);
    drop(moved);
}

#[test]
fn shared_buffer_two_wrappers() {
    // One reference-counted buffer, two independently constructed units;
    // each remains valid after the other is dropped.
    let buf: Arc<Vec<u8>> = Arc::new(br#"{"a":[1,2],"b":"text"}"#.to_vec());
    let doc1 = ErasedDoc::decode_and_erase(Arc::clone(&buf)).unwrap();
    let doc2 = ErasedDoc::decode_and_erase(Arc::clone(&buf)).unwrap();
    drop(buf);
    let enc1 = doc1.to_bytes();
    drop(doc1);
    let enc2 = doc2.to_bytes();
    assert_eq!(enc1, enc2);
    let reread: serde_json::Value = serde_json::from_slice(&enc2).unwrap();
    let direct: serde_json::Value = serde_json::from_slice(br#"{"a":[1,2],"b":"text"}"#).unwrap();
    assert_eq!(reread, direct);
}

#[test]
fn lookup_misses() {
    let buf = br#"{"a":1}"#;
    let v = decode(buf).unwrap();
    assert!(v.lookup(buf, b"b").is_none());
    let v = decode(b"[1]").unwrap();
    assert!(v.lookup(b"[1]", b"a").is_none());
}

#[test]
fn escaped_object_key() {
    let buf = br#"{"a\u0042c":7}"#;
    let v = decode(buf).unwrap();
    match v.lookup(buf, b"aBc").unwrap() {
        Value::Number(Number::Unsigned(u)) => assert_eq!(*u, 7),
        _ => panic!(),
    }
    match &v {
        Value::Object(entries) => match &entries[0].0 {
            Text::Owned(o) => assert_eq!(o.as_slice(), b"aBc"),
            _ => panic!(),
        },
        _ => panic!(),
    }
}

#[test]
fn nesting_limit_boundary() {
    // The recursion allowance admits exactly its depth of nesting.
    let mut ok = String::new();
    for _ in 0..128 {
        ok.push('[');
    }
    for _ in 0..128 {
        ok.push(']');
    }
    assert!(decode(ok.as_bytes()).is_ok());
    let mut too_deep = String::from("[");
    too_deep.push_str(&ok);
    too_deep.push(']');
    assert_eq!(kind_of(too_deep.as_bytes()), ErrorKind::TooDeep);
}

#[test]
fn surrogate_pair_content() {
    let json = "{\"k\":\"\\ud83d\\ude00\"}";
    let buf = json.as_bytes();
    let v = decode(buf).unwrap();
    match v.lookup(buf, b"k").unwrap() {
        Value::OwnedString(o) => assert_eq!(o.as_slice(), "\u{1F600}".as_bytes()),
        _ => panic!(),
    }
}
