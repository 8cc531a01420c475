use lib::json::parse_json;
use lib::jsonout::{escape, str_lit};
use lib::value::Value;

#[test]
fn parse_json_decodes_object_to_dotted_alist() {
    let value = parse_json(r#"{"a": 1, "b": [true, null]}"#).unwrap();
    assert_eq!(value.to_text(), r#"(("a" . 1) ("b" t ()))"#);
}

#[test]
fn parse_json_rejects_trailing_garbage() {
    assert!(parse_json("{} x").is_err());
    assert!(parse_json("").is_err());
}

#[test]
fn error_messages_name_the_byte() {
    assert_eq!(parse_json("").unwrap_err(), "json-parse: unexpected character at byte 0");
    assert_eq!(parse_json("{} x").unwrap_err(), "json-parse: trailing characters after JSON value at byte 3");
    assert_eq!(parse_json("[1 2]").unwrap_err(), "json-parse: expected ',' or ']' in array at byte 4");
    assert_eq!(parse_json("\"ab").unwrap_err(), "json-parse: unterminated string at byte 3");
    assert_eq!(parse_json("tru").unwrap_err(), "json-parse: invalid literal, expected true at byte 0");
    assert_eq!(parse_json("-").unwrap_err(), "json-parse: invalid number at byte 1");
    assert_eq!(parse_json("{\"a\" 1}").unwrap_err(), "json-parse: expected ':' at byte 6");
    assert_eq!(parse_json("\"\\q\"").unwrap_err(), "json-parse: invalid escape sequence at byte 3");
    assert_eq!(parse_json("\"\\u12x4\"").unwrap_err(), "json-parse: invalid \\u escape: expected 4 hex digits at byte 6");
}

#[test]
fn escapes_decode_including_surrogate_pairs() {
    let value = parse_json(r#""a\n\"\u00e9\ud83d\ude00\ud800x""#).unwrap();
    match value {
        Value::String(s) => assert_eq!(s, "a\n\"é😀\u{FFFD}x"),
        other => panic!("unexpected {:?}", other),
    }
}

#[test]
fn numbers_are_exact_when_integral_and_spelled_otherwise() {
    assert!(matches!(parse_json("-42").unwrap(), Value::Number(-42)));
    assert!(matches!(parse_json("9223372036854775807").unwrap(), Value::Number(9223372036854775807)));
    match parse_json("9223372036854775808").unwrap() {
        Value::Decimal(t) => assert_eq!(t, "9223372036854775808"),
        other => panic!("unexpected {:?}", other),
    }
    match parse_json("1.5e3").unwrap() {
        Value::Decimal(t) => assert_eq!(t, "1.5e3"),
        other => panic!("unexpected {:?}", other),
    }
    assert!(parse_json("1e").is_err());
}

#[test]
fn byte_positions_count_multibyte_characters() {
    assert_eq!(parse_json("\"é\" x").unwrap_err(), "json-parse: trailing characters after JSON value at byte 5");
}

#[test]
fn escape_writes_control_characters_as_unicode_escapes() {
    assert_eq!(escape("a\"b\\c\n\r\t\u{01}é"), "a\\\"b\\\\c\\n\\r\\t\\u0001é");
    assert_eq!(str_lit("x\u{1f}"), "\"x\\u001f\"");
}

#[test]
fn string_literals_decode_to_the_text_they_hold() {
    for text in ["", "plain", "quote \" and backslash \\", "line\nbreak\ttab\r", "\u{1}\u{1f}", "кирилиця é 😀"] {
        let literal = lib::jsonout::str_lit(text);
        match lib::json::parse_json(&literal) {
            Ok(lib::value::Value::String(s)) => assert_eq!(s, text),
            other => panic!("{literal} decoded to {other:?}"),
        }
    }
}

#[test]
fn surrogate_escapes_decode_pairs_and_replace_lone_halves() {
    let pair = parse_json("\"\\ud83d\\ude00\"").unwrap();
    assert!(matches!(pair, Value::String(ref s) if s == "\u{1F600}"));
    let lone = parse_json("\"\\ud83d\\u0041\"").unwrap();
    assert!(matches!(lone, Value::String(ref s) if s == "\u{FFFD}A"));
    let low_only = parse_json("\"\\ude00x\"").unwrap();
    assert!(matches!(low_only, Value::String(ref s) if s == "\u{FFFD}x"));
    let trailing = parse_json("\"\\ud83d\"").unwrap();
    assert!(matches!(trailing, Value::String(ref s) if s == "\u{FFFD}"));
    assert_eq!(
        parse_json("\"\\ud83d\\u12x4\"").unwrap_err(),
        "json-parse: invalid \\u escape: expected 4 hex digits at byte 12"
    );
}
