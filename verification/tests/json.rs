use kiss_conformance::json::{parse, Json};

#[test]
fn parses_object_array_and_utf8_grouping_mark() {
    let v = parse(r#"{"a": [1, "BF 80·00 00"], "b": true, "c": null}"#).unwrap();
    assert_eq!(v.get("a").unwrap().as_arr().unwrap().len(), 2);
    assert_eq!(v.get("a").unwrap().as_arr().unwrap()[0].as_u64(), Some(1));
    // the · (U+00B7, 2 bytes UTF-8) inside the string must survive intact
    assert_eq!(v.get("a").unwrap().as_arr().unwrap()[1].as_str(), Some("BF 80·00 00"));
    assert_eq!(v.get("b"), Some(&Json::Bool(true)));
    assert_eq!(v.get("c"), Some(&Json::Null));
}

#[test]
fn rejects_trailing_garbage() {
    assert!(parse("{} x").is_err());
}

#[test]
fn error_messages_name_the_byte_offset() {
    assert_eq!(parse("{} x"), Err("trailing data at byte 3".to_string()));
    // the two-byte `·` shifts the byte offset past the character count
    assert_eq!(parse("[\"·\" 1]"), Err("expected ',' or ']' at byte 6".to_string()));
    assert_eq!(parse("{\"a\" 1}"), Err("expected ':' at byte 5".to_string()));
    assert_eq!(parse("{\"a\": 1 \"b\"}"), Err("expected ',' or '}' at byte 8".to_string()));
    assert_eq!(parse("{1: 2}"), Err("expected string at byte 1".to_string()));
    assert_eq!(parse("tru"), Err("invalid literal at byte 0".to_string()));
    assert_eq!(parse(""), Err("unexpected end of input".to_string()));
    assert_eq!(parse("[1,]"), Err("bad number \"\"".to_string()));
    assert_eq!(parse("1e"), Err("bad number \"1e\"".to_string()));
    assert_eq!(parse("\"abc"), Err("unterminated string".to_string()));
    assert_eq!(parse("\"\\q\""), Err("bad escape at byte 3".to_string()));
    assert_eq!(parse("\"\\u12\""), Err("bad \\u".to_string()));
    assert_eq!(parse("\"\\uD800\""), Err("bad codepoint".to_string()));
}

#[test]
fn escapes_and_numbers_are_read_as_std_reads_them() {
    assert_eq!(parse("\"\\u0041\\n\\/\"").unwrap().as_str(), Some("A\n/"));
    assert_eq!(parse("\"\\u+041\"").unwrap().as_str(), Some("A"));
    assert_eq!(parse("-1.5e+3").unwrap(), Json::Num("-1.5e+3".to_string()));
    assert_eq!(parse(".5").unwrap(), Json::Num(".5".to_string()));
    assert_eq!(parse("7.").unwrap(), Json::Num("7.".to_string()));
    assert!(parse(".").is_err());
    assert_eq!(parse("  18446744073709551615 ").unwrap().as_u64(), Some(u64::MAX));
    assert_eq!(parse("18446744073709551616").unwrap().as_u64(), None);
    assert_eq!(parse("\"7\"").unwrap().as_u64(), None);
    assert_eq!(parse("{\"k\": 1, \"k\": 2}").unwrap().get("k").unwrap().as_u64(), Some(1));
    assert_eq!(parse("[]").unwrap().as_arr().unwrap().len(), 0);
    assert!(parse("3").unwrap().get("k").is_none());
}
