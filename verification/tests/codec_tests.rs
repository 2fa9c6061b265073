//! Tests of the table-literal serializer and parser and of the compression
//! adapter, against concrete texts and byte streams.

use std::io::Write;

use bal_save::codec::{compress, decompress};
use bal_save::parse::parse;
use bal_save::ser::serialize;
use bal_save::value::{TableKey, Value};
use bal_save::CoreError;

fn key(s: &str) -> TableKey {
    TableKey::Text(s.to_string())
}

#[test]
fn serialize_flat_table() {
    let v = Value::Table(vec![
        (key("a"), Value::Bool(true)),
        (TableKey::Num(3), Value::Num(7)),
        (key("s"), Value::Text("hi".to_string())),
    ]);
    assert_eq!(serialize(&v, false), "{[\"a\"]=true,[3]=7,[\"s\"]=\"hi\",}");
    assert_eq!(serialize(&v, true), "return {[\"a\"]=true,[3]=7,[\"s\"]=\"hi\",}");
}

#[test]
fn serialize_escapes_like_percent_q() {
    let v = Value::Text("a\"b\\c\nd\re\u{0}f".to_string());
    // Quote, backslash and newline get a backslash (the newline stays a
    // literal newline); CR and NUL become \r and \0.
    assert_eq!(serialize(&v, false), "\"a\\\"b\\\\c\\\nd\\re\\0f\"");
}

#[test]
fn serialize_nested_tables() {
    let inner = Value::Table(vec![(key("x"), Value::Bool(false))]);
    let v = Value::Table(vec![(key("t"), inner)]);
    assert_eq!(serialize(&v, true), "return {[\"t\"]={[\"x\"]=false,},}");
}

#[test]
fn parse_inverts_serialize() {
    let v = Value::Table(vec![
        (key("a\"b\\"), Value::Bool(true)),
        (TableKey::Num(0), Value::Num(18446744073709551615)),
        (key("inner"), Value::Table(vec![(key("n"), Value::Num(10))])),
    ]);
    let text = serialize(&v, true);
    let parsed = parse(&text).expect("round trip should parse");
    assert_eq!(parsed, v);
}

#[test]
fn parse_accepts_plain_and_prefixed_documents() {
    assert_eq!(parse("return 42"), Ok(Value::Num(42)));
    assert_eq!(parse("42"), Ok(Value::Num(42)));
    assert_eq!(parse("true"), Ok(Value::Bool(true)));
    assert_eq!(parse("{}"), Ok(Value::Table(vec![])));
}

#[test]
fn parse_accepts_spaced_separator_form() {
    // The spaced, separator-comma constructor form, as a Lua writer might
    // lay it out.
    let v = parse("return { [\"a\"]=true, [\"b\"]=false }").expect("should parse");
    assert_eq!(
        v,
        Value::Table(vec![(key("a"), Value::Bool(true)), (key("b"), Value::Bool(false))])
    );
}

#[test]
fn parse_rejects_malformed_text() {
    assert!(matches!(parse("return {oops"), Err(CoreError::ParseError)));
    assert!(matches!(parse("return {[\"a\"]=true"), Err(CoreError::ParseError)));
    assert!(matches!(parse(""), Err(CoreError::ParseError)));
    assert!(matches!(parse("return {} trailing"), Err(CoreError::ParseError)));
    // A number too large for u64 is rejected, not wrapped.
    assert!(matches!(parse("return 99999999999999999999"), Err(CoreError::ParseError)));
}

#[test]
fn compress_then_decompress_is_identity() {
    let text = "return {[\"alerted\"]={},[\"discovered\"]={},[\"unlocked\"]={},}";
    let bytes = compress(text);
    assert_ne!(bytes.as_slice(), text.as_bytes());
    assert_eq!(decompress(&bytes), Ok(text.to_string()));
}

#[test]
fn decompress_matches_flate2_inflation() {
    // Independently produced raw DEFLATE bytes inflate to the same text.
    let text = "return {[\"unlocked\"]={[\"j_joker\"]=true,},}";
    let mut enc =
        flate2::write::DeflateEncoder::new(Vec::new(), flate2::Compression::default());
    enc.write_all(text.as_bytes()).unwrap();
    let bytes = enc.finish().unwrap();
    assert_eq!(decompress(&bytes), Ok(text.to_string()));
}

#[test]
fn decompress_rejects_corrupt_stream() {
    // 0x07 starts a block with the reserved BTYPE, which no inflater accepts.
    assert_eq!(decompress(&[0x07, 0x00, 0x12]), Err(CoreError::CorruptStream));
}

#[test]
fn decompress_rejects_invalid_utf8() {
    let mut enc =
        flate2::write::DeflateEncoder::new(Vec::new(), flate2::Compression::default());
    enc.write_all(&[0xff, 0xfe, 0x41]).unwrap();
    let bytes = enc.finish().unwrap();
    assert_eq!(decompress(&bytes), Err(CoreError::InvalidEncoding));
}
