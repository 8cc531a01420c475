use lib::json::parse_json;
use lib::protocol::{as_array, as_i64, as_str, decode, diagnostic, get, notification, publish_diagnostics, response, span_to_range};
use lib::value::Value;

#[test]
fn get_finds_the_first_matching_key() {
    let v = parse_json(r#"{"a": 1, "b": "x", "a": 2}"#).unwrap();
    assert!(matches!(as_i64(get(&v, "a")), Some(1)));
    assert_eq!(as_str(get(&v, "b")), Some("x"));
    assert!(get(&v, "c").is_none());
}

#[test]
fn as_array_lists_elements() {
    let v = parse_json(r#"[1, "two", null]"#).unwrap();
    let items = as_array(Some(&v));
    assert_eq!(items.len(), 3);
    assert!(matches!(items[2], Value::Nil));
    assert!(as_array(None).is_empty());
}

#[test]
fn decode_splits_id_method_and_params() {
    let m = decode(r#"{"jsonrpc":"2.0","id":7,"method":"x/y","params":{"k":true}}"#).unwrap();
    assert!(matches!(m.id, Some(Value::Number(7))));
    assert_eq!(m.method.as_deref(), Some("x/y"));
    assert!(m.params.is_some());
    assert!(decode("nope").is_err());
}

#[test]
fn span_to_range_counts_utf16_units() {
    assert_eq!(
        span_to_range("a\n😀b", 2, 6),
        "{\"start\":{\"line\":1,\"character\":0},\"end\":{\"line\":1,\"character\":2}}"
    );
}

#[test]
fn response_and_notification_texts() {
    assert_eq!(
        response(&Some(Value::String("q".to_string())), Some("1".to_string()), None),
        "{\"jsonrpc\":\"2.0\",\"id\":\"q\",\"result\":1}"
    );
    assert_eq!(
        response(&None, None, Some((-32700, "bad \"x\"".to_string()))),
        "{\"jsonrpc\":\"2.0\",\"id\":null,\"error\":{\"code\":-32700,\"message\":\"bad \\\"x\\\"\"}}"
    );
    assert_eq!(
        notification("m", "{}".to_string()),
        "{\"jsonrpc\":\"2.0\",\"method\":\"m\",\"params\":{}}"
    );
    assert_eq!(
        publish_diagnostics("file:///a", &["{}".to_string(), "[]".to_string()]),
        "{\"jsonrpc\":\"2.0\",\"method\":\"textDocument/publishDiagnostics\",\"params\":{\"uri\":\"file:///a\",\"diagnostics\":[{},[]]}}"
    );
    assert_eq!(
        diagnostic("ab", "m", 0, 1),
        "{\"range\":{\"start\":{\"line\":0,\"character\":0},\"end\":{\"line\":0,\"character\":1}},\"severity\":1,\"source\":\"my-lisp\",\"message\":\"m\"}"
    );
}
