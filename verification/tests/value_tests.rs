use rust_json_parser::{parse, JsonError, JsonNumber, JsonObject, JsonParser, JsonValue};

fn num(text: &str) -> JsonValue {
    JsonValue::Number(JsonNumber::from_literal(text).unwrap())
}

#[test]
fn test_json_value_equality() {
    assert_eq!(JsonValue::Null, JsonValue::Null);
    assert_eq!(JsonValue::Boolean(true), JsonValue::Boolean(true));
    assert_eq!(num("42"), num("42"));
    assert_eq!(
        JsonValue::String("test".to_string()),
        JsonValue::String("test".to_string())
    );

    assert_ne!(JsonValue::Null, JsonValue::Boolean(false));
    assert_ne!(num("1"), num("2"));
}

#[test]
fn test_json_value_creation() {
    let null_val = JsonValue::Null;
    let bool_val = JsonValue::Boolean(true);
    let num_val = num("42.5");
    let str_val = JsonValue::String("hello".to_string());

    assert!(null_val.is_null());
    assert_eq!(bool_val.as_bool(), Some(true));
    assert_eq!(num_val.as_number(), Some("42.5"));
    assert_eq!(str_val.as_str(), Some("hello"));
}

#[test]
fn test_json_value_accessors() {
    let value = JsonValue::String("test".to_string());
    assert_eq!(value.as_str(), Some("test"));
    assert_eq!(value.as_number(), None);
    assert_eq!(value.as_bool(), None);
    assert!(!value.is_null());

    let value = num("42");
    assert_eq!(value.as_number(), Some("42"));
    assert_eq!(value.as_str(), None);

    let value = JsonValue::Boolean(true);
    assert_eq!(value.as_bool(), Some(true));

    let value = JsonValue::Null;
    assert!(value.is_null());
}

#[test]
fn test_display_primitives() {
    assert_eq!(JsonValue::Null.to_string(), "null");
    assert_eq!(JsonValue::Boolean(true).to_string(), "true");
    assert_eq!(JsonValue::Boolean(false).to_string(), "false");
    assert_eq!(num("42").to_string(), "42");
    assert_eq!(num("3.14").to_string(), "3.14");
    assert_eq!(
        JsonValue::String("hello".to_string()).to_string(),
        "\"hello\""
    );
}

#[test]
fn test_display_array() {
    let value = JsonValue::Array(vec![num("1"), num("2")]);
    assert_eq!(value.to_string(), "[1,2]");
}

#[test]
fn test_display_empty_containers() {
    assert_eq!(JsonValue::Array(vec![]).to_string(), "[]");
    assert_eq!(JsonValue::Object(JsonObject::new()).to_string(), "{}");
}

#[test]
fn test_display_escape_string() {
    let value = JsonValue::String("hello\nworld".to_string());
    assert_eq!(value.to_string(), "\"hello\\nworld\"");
}

#[test]
fn test_display_escape_quotes() {
    let value = JsonValue::String("say \"hi\"".to_string());
    assert_eq!(value.to_string(), "\"say \\\"hi\\\"\"");
}

#[test]
fn test_display_escape_control_chars() {
    let value = JsonValue::String("\u{01}\t\u{08}".to_string());
    assert_eq!(value.to_string(), "\"\\u0001\\t\\b\"");
}

#[test]
fn test_display_nested() -> Result<(), JsonError> {
    let mut parser = JsonParser::new(r#"{"arr": [1, 2]}"#)?;
    let value = parser.parse()?;
    let output = value.to_string();
    assert!(output.contains("\"arr\""));
    assert!(output.contains("[1,2]"));
    Ok(())
}

#[test]
fn test_pretty_print_escapes_keys_and_values() -> Result<(), JsonError> {
    let mut obj = JsonObject::new();
    obj.insert(
        "say \"hi\"".to_string(),
        JsonValue::String("line\nbreak".to_string()),
    );
    let value = JsonValue::Object(obj);

    let pretty = value.pretty_print(2);
    assert!(pretty.contains(r#""say \"hi\"""#));
    assert!(pretty.contains(r#""line\nbreak""#));

    let mut parser = JsonParser::new(&pretty)?;
    assert_eq!(parser.parse()?, value);
    Ok(())
}

#[test]
fn test_pretty_print_string_not_double_quoted() {
    let value = JsonValue::String("hello".to_string());
    assert_eq!(value.pretty_print(2), r#""hello""#);
}

#[test]
fn test_display_nested_array() {
    let value = JsonValue::Array(vec![JsonValue::Array(vec![num("1"), num("2")])]);
    assert_eq!(value.to_string(), "[[1,2]]");
}

#[test]
fn test_display_nested_exact() -> Result<(), JsonError> {
    let value = parse(r#"{"arr": [1, 2], "ok": true}"#)?;
    assert_eq!(value.to_string(), r#"{"arr":[1,2],"ok":true}"#);
    Ok(())
}

#[test]
fn test_pretty_print_layout() -> Result<(), JsonError> {
    let value = parse(r#"{"a": [1, {"b": null}], "c": {}, "d": []}"#)?;
    let expected = "{\n  \"a\":[\n    1,\n    {\n      \"b\":null\n    }\n  ],\n  \"c\":{},\n  \"d\":[]\n}";
    assert_eq!(value.pretty_print(2), expected);
    assert_eq!(value.checked_pretty_print(2), Some(expected.to_string()));
    Ok(())
}

#[test]
fn test_pretty_print_zero_indent() -> Result<(), JsonError> {
    let value = parse("[1,2]")?;
    assert_eq!(value.pretty_print(0), "[\n1,\n2\n]");
    Ok(())
}

#[test]
fn test_checked_pretty_print_refuses_huge_indent() {
    let value = JsonValue::Array(vec![JsonValue::Array(vec![num("1")])]);
    assert_eq!(value.checked_pretty_print(usize::MAX), None);
    let flat = JsonValue::Array(vec![]);
    assert_eq!(flat.checked_pretty_print(usize::MAX), Some("[]".to_string()));
}

#[test]
fn test_display_escapes_other_control_chars() {
    let value = JsonValue::String("\u{0c}\r\u{1f}\\/".to_string());
    assert_eq!(value.to_string(), "\"\\f\\r\\u001f\\\\/\"");
}

#[test]
fn test_display_keeps_non_ascii() {
    let value = JsonValue::String("é😀".to_string());
    assert_eq!(value.to_string(), "\"é😀\"");
}

#[test]
fn test_round_trip_compact_and_pretty() -> Result<(), JsonError> {
    let text = r#"{"name": "Ferris", "list": [1, -2.5, true, null, "x\ty"], "nested": {"k": [[]]}}"#;
    let value = parse(text)?;
    assert_eq!(parse(&value.to_string())?, value);
    assert_eq!(parse(&value.pretty_print(4))?, value);
    Ok(())
}

#[test]
fn test_object_insert_get_and_replace() {
    let mut obj = JsonObject::new();
    assert!(obj.is_empty());
    assert_eq!(obj.insert("a".to_string(), num("1")), None);
    assert_eq!(obj.insert("b".to_string(), num("2")), None);
    assert_eq!(obj.insert("a".to_string(), num("3")), Some(num("1")));
    assert_eq!(obj.len(), 2);
    assert_eq!(obj.get("a"), Some(&num("3")));
    assert_eq!(obj.get("b"), Some(&num("2")));
    assert_eq!(obj.get("c"), None);
    let keys: Vec<&str> = obj.entries().iter().map(|(k, _)| k.as_str()).collect();
    assert_eq!(keys, vec!["a", "b"]);
}

#[test]
fn test_get_and_get_index() -> Result<(), JsonError> {
    let value = parse(r#"{"xs": [10, 20]}"#)?;
    let xs = value.get("xs").unwrap();
    assert_eq!(xs.get_index(1), Some(&num("20")));
    assert_eq!(xs.get_index(2), None);
    assert_eq!(xs.get("xs"), None);
    assert_eq!(value.get_index(0), None);
    assert_eq!(xs.as_array().map(|a| a.len()), Some(2));
    assert_eq!(value.as_object().map(|o| o.len()), Some(1));
    assert!(num("1").as_array().is_none());
    assert!(num("1").as_object().is_none());
    Ok(())
}

#[test]
fn test_object_equality_ignores_member_order() -> Result<(), JsonError> {
    let first = parse(r#"{"b": 1, "a": {"y": true, "x": null}, "é": 2, "z": 3}"#)?;
    let second = parse(r#"{"é": 2, "a": {"x": null, "y": true}, "z": 3, "b": 1}"#)?;
    assert_eq!(first, second);
    assert_eq!(first.to_string(), r#"{"a":{"x":null,"y":true},"b":1,"z":3,"é":2}"#);

    let mut built = JsonObject::new();
    built.insert("z".to_string(), num("3"));
    built.insert("b".to_string(), num("1"));
    built.insert("é".to_string(), num("2"));
    let mut inner = JsonObject::new();
    inner.insert("y".to_string(), JsonValue::Boolean(true));
    inner.insert("x".to_string(), JsonValue::Null);
    built.insert("a".to_string(), JsonValue::Object(inner));
    assert_eq!(JsonValue::Object(built), first);
    Ok(())
}

#[test]
fn test_clone_is_equal() -> Result<(), JsonError> {
    let value = parse(r#"{"a": [1, "two", null, {"b": false}], "c": -0.5}"#)?;
    let copy = value.clone();
    assert_eq!(copy, value);
    assert_eq!(copy.to_string(), value.to_string());
    let obj = value.as_object().unwrap().clone();
    assert_eq!(JsonValue::Object(obj), value);
    Ok(())
}

#[test]
fn test_number_from_literal() {
    for (literal, text) in [("42", "42"), ("01.50", "1.5"), ("-0.0", "-0"), ("1.", "1"), ("2.5E+03", "2.5e3"), (".5", "0.5")] {
        assert_eq!(JsonNumber::from_literal(literal).map(|n| n.as_str().to_string()), Some(text.to_string()));
    }
    for literal in ["", "abc", "1.2.3", "-", "1e", "4 2", "١"] {
        assert_eq!(JsonNumber::from_literal(literal), None);
    }
    assert_eq!(num("7.50").as_number(), Some("7.5"));
    assert_eq!(num("1e2").to_string(), "1e2");
}

#[test]
fn test_numbers_equal_by_value() -> Result<(), JsonError> {
    for (a, b) in [("-0", "0"), ("0.0e7", "-0"), ("1e5", "100000"), ("1.5e1", "15"), ("0.00125", "1.25e-3"), ("-12e-1", "-1.2")] {
        assert_eq!(num(a), num(b), "{a} == {b}");
    }
    for (a, b) in [("1", "2"), ("-1", "1"), ("1e5", "1e6"), ("0.1", "1e-2"), ("12", "1.2")] {
        assert_ne!(num(a), num(b), "{a} != {b}");
    }
    assert_eq!(parse("[-0]")?, parse("[0]")?);
    assert_eq!(parse(r#"{"x": 2.50E+2}"#)?, parse(r#"{"x": 250}"#)?);
    Ok(())
}
