// Tests for the JSON parser and serializer against real-world shapes.

use dejafoo::json::Json;
use dejafoo::json::parse_json;
use dejafoo::json::to_json_string;

#[test]
fn test_parse_simple_values() {
    assert!(matches!(parse_json("null"), Some(Json::Null)));
    assert!(matches!(parse_json("true"), Some(Json::Bool(true))));
    assert!(matches!(parse_json("false"), Some(Json::Bool(false))));
    assert!(matches!(parse_json("  42  "), Some(Json::Num(ref t)) if t == "42"));
    assert!(matches!(parse_json("-3.5e2"), Some(Json::Num(ref t)) if t == "-3.5e2"));
    assert!(matches!(parse_json("\"hi\""), Some(Json::Str(ref s)) if s == "hi"));
}

#[test]
fn test_parse_rejects_malformed() {
    assert!(parse_json("").is_none());
    assert!(parse_json("{").is_none());
    assert!(parse_json("[1,]").is_none());
    assert!(parse_json("{\"a\":}").is_none());
    assert!(parse_json("01").is_none());
    assert!(parse_json("1.").is_none());
    assert!(parse_json("1e").is_none());
    assert!(parse_json("\"unterminated").is_none());
    assert!(parse_json("nul").is_none());
    assert!(parse_json("{} trailing").is_none());
    assert!(parse_json("\"\\q\"").is_none());
    // a lone surrogate escape is rejected
    assert!(parse_json("\"\\ud800\"").is_none());
}

#[test]
fn test_parse_structures() {
    let v = parse_json("{\"a\": [1, 2, {\"b\": null}], \"c\": \"x\"}").unwrap();
    assert_eq!(to_json_string(&v), "{\"a\":[1,2,{\"b\":null}],\"c\":\"x\"}");
}

#[test]
fn test_string_escapes_round_trip() {
    let v = parse_json("\"a\\n\\t\\\"\\\\b\\u0041\"").unwrap();
    match &v {
        Json::Str(s) => assert_eq!(s, "a\n\t\"\\bA"),
        other => panic!("expected a string, got {:?}", other),
    }
    assert_eq!(to_json_string(&v), "\"a\\n\\t\\\"\\\\bA\"");
}

#[test]
fn test_surrogate_pair_decoding() {
    let v = parse_json("\"\\ud83d\\ude00\"").unwrap();
    match &v {
        Json::Str(s) => assert_eq!(s, "\u{1f600}"),
        other => panic!("expected a string, got {:?}", other),
    }
}

#[test]
fn test_control_char_escaping() {
    let v = Json::Str("a\u{1}b".to_string());
    assert_eq!(to_json_string(&v), "\"a\\u0001b\"");
}

#[test]
fn test_duplicate_keys_last_wins() {
    let v = parse_json("{\"a\":1,\"a\":2}").unwrap();
    assert_eq!(to_json_string(&v), "{\"a\":2}");
}
