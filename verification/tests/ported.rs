//! Decode/encode round trips against a standard (copying) JSON reader,
//! and the zero-copy address checks on object keys.
use zero_copy_json::{decode, encode, Text, Value};

fn reencode_semantically_equal(json_str: &str) {
    let result: Value = decode(json_str.as_bytes()).unwrap();
    let encoded = encode(json_str.as_bytes(), &result).unwrap();
    let reread: serde_json::Value =
        serde_json::from_str(std::str::from_utf8(&encoded).unwrap()).unwrap();
    let direct: serde_json::Value = serde_json::from_str(json_str).unwrap();
    assert_eq!(reread, direct);
}

fn key_entry<'a>(buf: &[u8], v: &'a Value, key: &str) -> (&'a Text, &'a Value) {
    match v {
        Value::Object(entries) => {
            for (k, val) in entries {
                let bytes: &[u8] = match k {
                    Text::Borrowed(sp) => &buf[sp.start..sp.start + sp.len],
                    Text::Owned(o) => o.as_slice(),
                };
                if bytes == key.as_bytes() {
                    return (k, val);
                }
            }
            panic!();
        }
        _ => panic!(),
    }
}

#[test]
fn serde_zero_copy_value_1() {
    let json_str = r#"{"id":123,"name":"John Doe","screen_name":"Unidentified","location":"Atlantis"}"#;
    let i = json_str.find("name").unwrap();
    let original_key_ptr = json_str.get(i..i + 4).unwrap().as_ptr();
    let i = json_str.find("John").unwrap();
    let original_val_ptr = json_str.get(i..i + 8).unwrap().as_ptr();
    println!("original ptr: {:?}", original_val_ptr);
    let buf = json_str.as_bytes();
    let result: Value = decode(buf).unwrap();
    let (k, v) = key_entry(buf, &result, "name");
    match k {
        Text::Borrowed(sp) => {
            assert_eq!(buf[sp.start..sp.start + sp.len].as_ptr(), original_key_ptr);
        }
        Text::Owned(_) => panic!(),
    }
    match v {
        Value::String(sp) => {
            assert_eq!(buf[sp.start..sp.start + sp.len].as_ptr(), original_val_ptr);
        }
        _ => panic!(),
    }
    reencode_semantically_equal(json_str);
}

#[test]
fn serde_zero_copy_value_nested() {
    let json_str = r#"{"id":123,"name":"John Doe","screen_name":"Unidentified","location":"Fringe","nested":{"id":123,"name":"John Doe","screen_name":"Unidentified","location":"Fringe"}}"#;
    let i = json_str.find("name").unwrap();
    let original_key_ptr = json_str.get(i..i + 4).unwrap().as_ptr();
    let i = json_str.find("John").unwrap();
    let original_val_ptr = json_str.get(i..i + 8).unwrap().as_ptr();
    println!("original ptr: {:?}", original_val_ptr);
    let buf = json_str.as_bytes();
    let result: Value = decode(buf).unwrap();
    let (k, _v) = key_entry(buf, &result, "name");
    match k {
        Text::Borrowed(sp) => {
            assert_eq!(buf[sp.start..sp.start + sp.len].as_ptr(), original_key_ptr);
        }
        Text::Owned(_) => panic!(),
    }
    reencode_semantically_equal(json_str);
}

#[test]
fn serde_zero_copy_value_with_bytes() {
    let json_str = r#"{"id":"123","name":"John Doe","screen_name":"Unidentified","location":"Fringe","nested":{"id":"123","name":"John Doe","screen_name":"Unidentified","location":"Fringe"}}"#;
    let i = json_str.find("name").unwrap();
    let original_key_ptr = json_str.get(i..i + 4).unwrap().as_ptr();
    let i = json_str.find("John").unwrap();
    let original_val_ptr = json_str.get(i..i + 8).unwrap().as_ptr();
    println!("original ptr: {:?}", original_val_ptr);
    let buf = json_str.as_bytes();
    let result: Value = decode(buf).unwrap();
    let (k, _v) = key_entry(buf, &result, "name");
    match k {
        Text::Borrowed(sp) => {
            assert_eq!(buf[sp.start..sp.start + sp.len].as_ptr(), original_key_ptr);
        }
        Text::Owned(_) => panic!(),
    }
    reencode_semantically_equal(json_str);
}
