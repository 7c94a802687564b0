use arachne::asset::json::{parse_json, write_json, write_json_pretty, JsonError, JsonValue, Literal};

fn num(s: &str) -> JsonValue {
    JsonValue::Number(s.to_string())
}

fn text(s: &str) -> JsonValue {
    JsonValue::Str(s.to_string())
}

#[test]
fn parse_null() {
    assert_eq!(parse_json("null").unwrap(), JsonValue::Null);
}

#[test]
fn parse_bool() {
    assert_eq!(parse_json("true").unwrap(), JsonValue::Bool(true));
    assert_eq!(parse_json("false").unwrap(), JsonValue::Bool(false));
}

#[test]
fn parse_numbers() {
    assert_eq!(parse_json("42").unwrap(), num("42"));
    assert_eq!(parse_json("-3.14").unwrap(), num("-3.14"));
    assert_eq!(parse_json("1e10").unwrap(), num("1e10"));
    assert_eq!(parse_json("2.5E-3").unwrap(), num("2.5E-3"));
}

#[test]
fn parse_strings() {
    assert_eq!(parse_json(r#""hello""#).unwrap(), text("hello"));
    assert_eq!(parse_json(r#""line\nbreak""#).unwrap(), text("line\nbreak"));
    assert_eq!(parse_json(r#""tab\there""#).unwrap(), text("tab\there"));
    assert_eq!(parse_json(r#""esc\\slash""#).unwrap(), text("esc\\slash"));
    assert_eq!(parse_json(r#""quote\"inside""#).unwrap(), text("quote\"inside"));
}

#[test]
fn parse_unicode_escape() {
    assert_eq!(parse_json(r#""\u0041""#).unwrap(), text("A"));
}

#[test]
fn parse_array() {
    let val = parse_json("[1, 2, 3]").unwrap();
    assert_eq!(val, JsonValue::Array(vec![num("1"), num("2"), num("3")]));
}

#[test]
fn parse_empty_array() {
    assert_eq!(parse_json("[]").unwrap(), JsonValue::Array(vec![]));
}

#[test]
fn parse_object() {
    let val = parse_json(r#"{"a": 1, "b": "two"}"#).unwrap();
    assert_eq!(val, JsonValue::Object(vec![("a".into(), num("1")), ("b".into(), text("two"))]));
}

#[test]
fn parse_nested() {
    let val = parse_json(r#"{"arr": [1, {"nested": true}], "x": null}"#).unwrap();
    let obj = val.as_object().unwrap();
    assert_eq!(obj.len(), 2);
    let arr = val.get("arr").unwrap().as_array().unwrap();
    assert_eq!(arr.len(), 2);
    assert_eq!(arr[1].get("nested").unwrap(), &JsonValue::Bool(true));
    assert_eq!(val.get("x").unwrap(), &JsonValue::Null);
}

#[test]
fn write_json_roundtrip() {
    let original = r#"{"name":"test","values":[1,2.5,true,null,"hello"]}"#;
    let parsed = parse_json(original).unwrap();
    let written = write_json(&parsed);
    let reparsed = parse_json(&written).unwrap();
    assert_eq!(parsed, reparsed);
}

#[test]
fn write_json_string_escapes() {
    let val = text("line\nbreak\ttab\"quote\\back");
    let json = write_json(&val);
    assert_eq!(json, r#""line\nbreak\ttab\"quote\\back""#);
    let reparsed = parse_json(&json).unwrap();
    assert_eq!(reparsed, val);
}

#[test]
fn compact_writer_exact_text() {
    let v = JsonValue::Object(vec![
        ("a".into(), JsonValue::Array(vec![num("1"), JsonValue::Null, JsonValue::Bool(false)])),
        ("b".into(), JsonValue::Object(vec![])),
        ("c".into(), JsonValue::Array(vec![])),
    ]);
    assert_eq!(write_json(&v), r#"{"a":[1,null,false],"b":{},"c":[]}"#);
    assert_eq!(parse_json(&write_json(&v)).unwrap(), v);
}

#[test]
fn pretty_writer_exact_text() {
    let v = JsonValue::Object(vec![
        ("name".into(), text("x")),
        ("items".into(), JsonValue::Array(vec![num("1"), JsonValue::Array(vec![]), JsonValue::Object(vec![("k".into(), JsonValue::Null)])])),
    ]);
    let expected = "{\n  \"name\": \"x\",\n  \"items\": [\n    1,\n    [],\n    {\n      \"k\": null\n    }\n  ]\n}";
    assert_eq!(write_json_pretty(&v), expected);
    assert_eq!(parse_json(&write_json_pretty(&v)).unwrap(), v);
    assert_eq!(write_json_pretty(&num("7")), "7");
}

#[test]
fn control_characters_are_escaped_as_hex() {
    let v = text("a\u{1}b\u{8}\u{c}\r\u{1f}");
    let json = write_json(&v);
    assert_eq!(json, "\"a\\u0001b\\b\\f\\r\\u001f\"");
    assert_eq!(parse_json(&json).unwrap(), v);
}

#[test]
fn non_ascii_bytes_read_one_by_one() {
    // "é" is two bytes in UTF-8; each becomes its own character.
    assert_eq!(parse_json("\"\u{e9}\"").unwrap(), text("\u{c3}\u{a9}"));
    assert_eq!(parse_json(r#""\u00e9""#).unwrap(), text("\u{e9}"));
}

#[test]
fn reading_errors() {
    assert_eq!(parse_json(""), Err(JsonError::UnexpectedEof { pos: 0 }));
    assert_eq!(parse_json("  x"), Err(JsonError::UnexpectedChar { found: b'x', pos: 2 }));
    assert_eq!(parse_json("\"abc"), Err(JsonError::UnterminatedString));
    assert_eq!(parse_json("\"a\\"), Err(JsonError::EofInEscape));
    assert_eq!(parse_json(r#""\q""#), Err(JsonError::InvalidEscape(b'q')));
    assert_eq!(parse_json(r#""\u12""#), Err(JsonError::Truncated));
    assert_eq!(parse_json(r#""\uzzzz""#), Err(JsonError::InvalidUnicodeEscape { pos: 3 }));
    assert_eq!(parse_json(r#""\ud800""#), Err(JsonError::InvalidCodepoint(0xd800)));
    assert_eq!(parse_json("-"), Err(JsonError::InvalidNumber { start: 0, end: 1 }));
    assert_eq!(parse_json("1e+"), Err(JsonError::InvalidNumber { start: 0, end: 3 }));
    assert_eq!(parse_json("[1 2]"), Err(JsonError::ExpectedCommaOrBracket { pos: 3 }));
    assert_eq!(parse_json(r#"{"a":1 "b":2}"#), Err(JsonError::ExpectedCommaOrBrace { pos: 7 }));
    assert_eq!(parse_json(r#"{"a" 1}"#), Err(JsonError::Expected { expected: b':', pos: 5, found: Some(b'1') }));
    assert_eq!(parse_json(r#"{"a""#), Err(JsonError::Expected { expected: b':', pos: 4, found: None }));
    assert_eq!(parse_json("{1:2}"), Err(JsonError::Expected { expected: b'"', pos: 1, found: Some(b'1') }));
    assert_eq!(parse_json("tru"), Err(JsonError::ExpectedLiteral { literal: Literal::True, pos: 3 }));
    assert_eq!(parse_json("nul!"), Err(JsonError::ExpectedLiteral { literal: Literal::Null, pos: 4 }));
    assert_eq!(parse_json("1 2"), Err(JsonError::TrailingData { pos: 2 }));
}

#[test]
fn bad_bytes_after_unicode_escape() {
    // The four bytes after `\u` end in the middle of a two-byte character.
    assert_eq!(parse_json("\"\\u000\u{e9}\""), Err(JsonError::InvalidUtf8 { pos: 3 }));
    // Four valid bytes that are not hexadecimal digits.
    assert_eq!(parse_json("\"\\u\u{e9}00\""), Err(JsonError::InvalidUnicodeEscape { pos: 3 }));
    // A leading plus sign is accepted, as `u32::from_str_radix` accepts it.
    assert_eq!(parse_json(r#""\u+041""#).unwrap(), JsonValue::Str("A".to_string()));
}

#[test]
fn number_forms() {
    assert_eq!(parse_json("-0.5e+2").unwrap(), num("-0.5e+2"));
    assert_eq!(parse_json("1.").unwrap(), num("1."));
    assert_eq!(parse_json("-.5").unwrap(), num("-.5"));
    assert_eq!(parse_json("-.").unwrap_err(), JsonError::InvalidNumber { start: 0, end: 2 });
}

#[test]
fn accessors_and_duplicate() {
    let v = parse_json(r#"{"k": 1, "k": 2, "s": "t", "b": false}"#).unwrap();
    assert_eq!(v.get("k"), Some(&num("1")));
    assert_eq!(v.get("missing"), None);
    assert_eq!(v.get("s").unwrap().as_str(), Some("t"));
    assert_eq!(v.get("b").unwrap().as_bool(), Some(false));
    assert_eq!(v.get("k").unwrap().as_number(), Some("1"));
    assert_eq!(num("3").as_str(), None);
    assert_eq!(JsonValue::Null.get("k"), None);
    let copy = v.duplicate();
    assert_eq!(copy, v);
}

#[test]
fn non_ascii_text_reads_back_byte_by_byte() {
    // Each byte of a string's raw text becomes one character, so "é"
    // (bytes C3 A9) reads back as "Ã©": writing and reading does not
    // round-trip text outside ASCII.
    let written = write_json(&text("é"));
    assert_eq!(written, "\"é\"");
    assert_eq!(parse_json(&written).unwrap(), text("\u{c3}\u{a9}"));
    // Escaped code points do read back.
    assert_eq!(parse_json("\"\\u00e9\"").unwrap(), text("é"));
}
