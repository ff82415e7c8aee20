use rust_json_parser::{parse, JsonError, JsonNumber, JsonObject, JsonParser, JsonValue};

fn num(text: &str) -> JsonValue {
    JsonValue::Number(JsonNumber::from_literal(text).unwrap())
}

#[test]
fn test_parser_creation() {
    let parser = JsonParser::new("42");
    assert!(parser.is_ok());
}

#[test]
fn test_parser_creation_tokenize_error() {
    let parser = JsonParser::new(r#""\q""#); // Invalid escape
    assert!(parser.is_err());
}

#[test]
fn test_parse_number() -> Result<(), JsonError> {
    for (input, expected) in [("42", "42"), ("42.5", "42.5"), ("0", "0")] {
        assert_eq!(parse(input)?, num(expected));
    }
    Ok(())
}

#[test]
fn test_parse_string() -> Result<(), JsonError> {
    assert_eq!(parse(r#""hi""#)?, JsonValue::String("hi".to_string()));
    Ok(())
}

#[test]
fn test_parse_boolean_true() -> Result<(), JsonError> {
    assert_eq!(parse("true")?, JsonValue::Boolean(true));
    Ok(())
}

#[test]
fn test_parse_null() -> Result<(), JsonError> {
    assert_eq!(parse("null")?, JsonValue::Null);
    Ok(())
}

#[test]
fn test_parse_simple_string() -> Result<(), JsonError> {
    assert_eq!(parse(r#""hello""#)?, JsonValue::String("hello".to_string()));
    Ok(())
}

#[test]
fn test_parse_error_trailing_tokens() -> Result<(), JsonError> {
    for input in ["42 true", "null null", r#""a" "b""#] {
        match parse(input) {
            Err(JsonError::UnexpectedToken { expected, .. }) => {
                assert_eq!(expected, "end of input");
            }
            _ => panic!("Expected UnexpectedToken error for {input:?}"),
        }
    }
    Ok(())
}

#[test]
fn test_parse_error_empty() -> Result<(), JsonError> {
    match parse("") {
        Err(JsonError::UnexpectedEndOfInput { expected, position }) => {
            assert_eq!(expected, "JSON value");
            assert_eq!(position, 0);
        }
        _ => panic!("Expected UnexpectedEndOfInput error"),
    }
    Ok(())
}

#[test]
fn test_parse_negative_number() -> Result<(), JsonError> {
    assert_eq!(parse("-3.25")?, num("-3.25"));
    Ok(())
}

#[test]
fn test_parse_boolean_false() -> Result<(), JsonError> {
    assert_eq!(parse("false")?, JsonValue::Boolean(false));
    Ok(())
}

#[test]
fn test_parse_whitespace_only() {
    assert!(parse("   ").is_err());
}

#[test]
fn test_parse_string_with_newline() -> Result<(), JsonError> {
    let value = parse(r#""hello\nworld""#)?;
    assert_eq!(value, JsonValue::String("hello\nworld".to_string()));
    Ok(())
}

#[test]
fn test_parse_string_with_unicode() -> Result<(), JsonError> {
    let value = parse(r#""\u0048\u0065\u006c\u006c\u006f""#)?;
    assert_eq!(value, JsonValue::String("Hello".to_string()));
    Ok(())
}

#[test]
fn test_parse_complex_escapes() -> Result<(), JsonError> {
    let value = parse(r#""line1\nline2\t\"quoted\"\u0021""#)?;
    assert_eq!(
        value,
        JsonValue::String("line1\nline2\t\"quoted\"!".to_string())
    );
    Ok(())
}

#[test]
fn test_parse_string_with_tab() -> Result<(), JsonError> {
    let value = parse(r#""col1\tcol2""#)?;
    assert_eq!(value, JsonValue::String("col1\tcol2".to_string()));
    Ok(())
}

#[test]
fn test_parse_string_with_quotes() -> Result<(), JsonError> {
    let value = parse(r#""say \"hi\"""#)?;
    assert_eq!(value, JsonValue::String("say \"hi\"".to_string()));
    Ok(())
}

#[test]
fn test_parse_error_invalid_token() {
    assert!(JsonParser::new("@").is_err());
}

#[test]
fn test_parse_with_whitespace() -> Result<(), JsonError> {
    assert_eq!(parse("  42  ")?, num("42"));

    assert_eq!(parse("\n\ttrue\n")?, JsonValue::Boolean(true));
    Ok(())
}

#[test]
fn test_parse_empty_array() -> Result<(), JsonError> {
    let mut parser = JsonParser::new("[]")?;
    let value = parser.parse()?;
    assert_eq!(value, JsonValue::Array(vec![]));
    Ok(())
}

#[test]
fn test_parse_array_single() -> Result<(), JsonError> {
    let mut parser = JsonParser::new("[1]")?;
    let value = parser.parse()?;
    assert_eq!(value, JsonValue::Array(vec![num("1")]));
    Ok(())
}

#[test]
fn test_parse_array_multiple() -> Result<(), JsonError> {
    let mut parser = JsonParser::new("[1, 2, 3]")?;
    let value = parser.parse()?;
    let expected = JsonValue::Array(vec![num("1"), num("2"), num("3")]);
    assert_eq!(value, expected);
    Ok(())
}

#[test]
fn test_parse_array_mixed_types() -> Result<(), JsonError> {
    let mut parser = JsonParser::new(r#"[1, "two", true, null]"#)?;
    let value = parser.parse()?;
    let expected = JsonValue::Array(vec![
        num("1"),
        JsonValue::String("two".to_string()),
        JsonValue::Boolean(true),
        JsonValue::Null,
    ]);
    assert_eq!(value, expected);
    Ok(())
}

#[test]
fn test_array_accessor() -> Result<(), JsonError> {
    let mut parser = JsonParser::new("[1, 2, 3]")?;
    let value = parser.parse()?;
    assert_eq!(value.as_array().map(Vec::len), Some(3));
    Ok(())
}

#[test]
fn test_array_get_index() -> Result<(), JsonError> {
    let mut parser = JsonParser::new("[10, 20, 30]")?;
    let value = parser.parse()?;
    assert_eq!(value.get_index(1), Some(&num("20")));
    assert_eq!(value.get_index(5), None);
    Ok(())
}

#[test]
fn test_parse_empty_object() -> Result<(), JsonError> {
    let mut parser = JsonParser::new("{}")?;
    let value = parser.parse()?;
    assert_eq!(value, JsonValue::Object(JsonObject::new()));
    Ok(())
}

#[test]
fn test_parse_object_single_key() -> Result<(), JsonError> {
    let mut parser = JsonParser::new(r#"{"key": "value"}"#)?;
    let value = parser.parse()?;
    let mut expected = JsonObject::new();
    expected.insert("key".to_string(), JsonValue::String("value".to_string()));
    assert_eq!(value, JsonValue::Object(expected));
    Ok(())
}

#[test]
fn test_parse_object_multiple_keys() -> Result<(), JsonError> {
    let mut parser = JsonParser::new(r#"{"name": "Alice", "age": 30}"#)?;
    let value = parser.parse()?;
    if let JsonValue::Object(obj) = value {
        assert_eq!(
            obj.get("name"),
            Some(&JsonValue::String("Alice".to_string()))
        );
        assert_eq!(obj.get("age"), Some(&num("30")));
    } else {
        panic!("Expected object");
    }
    Ok(())
}

#[test]
fn test_object_accessor() -> Result<(), JsonError> {
    let mut parser = JsonParser::new(r#"{"name": "test"}"#)?;
    let value = parser.parse()?;
    assert_eq!(value.as_object().map(JsonObject::len), Some(1));
    Ok(())
}

#[test]
fn test_object_get() -> Result<(), JsonError> {
    let mut parser = JsonParser::new(r#"{"name": "Alice", "age": 30}"#)?;
    let value = parser.parse()?;
    assert_eq!(
        value.get("name"),
        Some(&JsonValue::String("Alice".to_string()))
    );
    assert_eq!(value.get("missing"), None);
    Ok(())
}

#[test]
fn test_parse_nested_arrays() -> Result<(), JsonError> {
    let mut parser = JsonParser::new("[[1, 2], [3, 4]]")?;
    let value = parser.parse()?;
    let expected = JsonValue::Array(vec![
        JsonValue::Array(vec![num("1"), num("2")]),
        JsonValue::Array(vec![num("3"), num("4")]),
    ]);
    assert_eq!(value, expected);
    Ok(())
}

#[test]
fn test_parse_deeply_nested() -> Result<(), JsonError> {
    let mut parser = JsonParser::new("[[[1]]]")?;
    let value = parser.parse()?;
    let expected = JsonValue::Array(vec![JsonValue::Array(vec![JsonValue::Array(vec![
        num("1"),
    ])])]);
    assert_eq!(value, expected);
    Ok(())
}

#[test]
fn test_parse_nested_object() -> Result<(), JsonError> {
    let mut parser = JsonParser::new(r#"{"outer": {"inner": 1}}"#)?;
    let value = parser.parse()?;
    if let JsonValue::Object(outer) = value {
        if let Some(JsonValue::Object(inner)) = outer.get("outer") {
            assert_eq!(inner.get("inner"), Some(&num("1")));
        } else {
            panic!("Expected nested object");
        }
    } else {
        panic!("Expected object");
    }
    Ok(())
}

#[test]
fn test_parse_array_in_object() -> Result<(), JsonError> {
    let mut parser = JsonParser::new(r#"{"items": [1, 2, 3]}"#)?;
    let value = parser.parse()?;
    if let JsonValue::Object(obj) = value {
        if let Some(JsonValue::Array(arr)) = obj.get("items") {
            assert_eq!(arr.len(), 3);
        } else {
            panic!("Expected array");
        }
    } else {
        panic!("Expected object");
    }
    Ok(())
}

#[test]
fn test_parse_object_in_array() -> Result<(), JsonError> {
    let mut parser = JsonParser::new(r#"[{"a": 1}, {"b": 2}]"#)?;
    let value = parser.parse()?;
    if let JsonValue::Array(arr) = value {
        assert_eq!(arr.len(), 2);
    } else {
        panic!("Expected array");
    }
    Ok(())
}

#[test]
fn test_error_unclosed_array() -> Result<(), JsonError> {
    let mut parser = JsonParser::new("[1, 2")?;
    let result = parser.parse();
    assert!(result.is_err());
    Ok(())
}

#[test]
fn test_error_unclosed_object() -> Result<(), JsonError> {
    let mut parser = JsonParser::new(r#"{"key": 1"#)?;
    let result = parser.parse();
    assert!(result.is_err());
    Ok(())
}

#[test]
fn test_error_trailing_comma_array() -> Result<(), JsonError> {
    let mut parser = JsonParser::new("[1, 2,]")?;
    let result = parser.parse();
    assert!(result.is_err());
    Ok(())
}

#[test]
fn test_error_trailing_comma_object() -> Result<(), JsonError> {
    let mut parser = JsonParser::new(r#"{"a": 1,}"#)?;
    let result = parser.parse();
    assert!(result.is_err());
    Ok(())
}

#[test]
fn test_error_missing_colon() -> Result<(), JsonError> {
    let mut parser = JsonParser::new(r#"{"key" 1}"#)?;
    let result = parser.parse();
    assert!(result.is_err());
    Ok(())
}

#[test]
fn test_error_invalid_key() -> Result<(), JsonError> {
    let mut parser = JsonParser::new(r#"{123: "value"}"#)?;
    let result = parser.parse();
    assert!(result.is_err());
    Ok(())
}

#[test]
fn test_error_missing_comma_array() -> Result<(), JsonError> {
    let mut parser = JsonParser::new("[1 2 3]")?;
    let result = parser.parse();
    assert!(result.is_err());
    Ok(())
}

#[test]
fn test_error_missing_comma_object() -> Result<(), JsonError> {
    let mut parser = JsonParser::new(r#"{"a": 1 "b": 2}"#)?;
    let result = parser.parse();
    assert!(result.is_err());
    Ok(())
}

// ----- errors in detail -----

fn unexpected(expected: &str, found: &str, position: usize) -> JsonError {
    JsonError::UnexpectedToken {
        expected: expected.to_string(),
        found: found.to_string(),
        position,
    }
}

fn end_of_input(expected: &str, position: usize) -> JsonError {
    JsonError::UnexpectedEndOfInput {
        expected: expected.to_string(),
        position,
    }
}

#[test]
fn test_parser_error_details() {
    let cases = [
        ("42 true", unexpected("end of input", "Boolean(true)", 3)),
        ("[1 2]", unexpected("',' or ']'", "Number(2.0)", 3)),
        ("[1, 2", end_of_input("',' or ']'", 5)),
        ("[", end_of_input("array value or ']'", 1)),
        ("[1,]", unexpected("null, boolean, number, string, array, or object", "RightBracket", 3)),
        ("{", end_of_input("string key", 1)),
        ("{1: 2}", unexpected("string key or '}'", "Number(1.0)", 1)),
        (r#"{"a" 1}"#, unexpected("':'", "Number(1.0)", 5)),
        (r#"{"a""#, end_of_input("':'", 4)),
        (r#"{"a": 1 "b": 2}"#, unexpected("',' or '}'", r#"String("b")"#, 8)),
        (r#"{"a": 1,}"#, unexpected("string key", "RightBrace", 8)),
        (r#"{"a": 1,"#, end_of_input("string key", 8)),
        (r#"{"a": 1"#, end_of_input("',' or '}'", 7)),
        ("[2.5 null]", unexpected("',' or ']'", "Null", 5)),
        ("[-0.50 :]", unexpected("',' or ']'", "Colon", 7)),
        ("[1 -0.50]", unexpected("',' or ']'", "Number(-0.5)", 3)),
        (",", unexpected("null, boolean, number, string, array, or object", "Comma", 0)),
        ("  [ \"é\"  ,  ]", unexpected("null, boolean, number, string, array, or object", "RightBracket", 13)),
    ];
    for (input, expected) in cases {
        assert_eq!(parse(input).unwrap_err(), expected, "for input {input}");
    }
}

#[test]
fn test_duplicate_key_keeps_first_place_and_last_value() -> Result<(), JsonError> {
    let value = parse(r#"{"a": 1, "b": 2, "a": 3}"#)?;
    let obj = value.as_object().unwrap();
    assert_eq!(obj.len(), 2);
    assert_eq!(obj.get("a"), Some(&num("3")));
    assert_eq!(obj.entries()[0].0, "a");
    assert_eq!(obj.entries()[1].0, "b");
    Ok(())
}

#[test]
fn test_numbers_are_canonical() -> Result<(), JsonError> {
    for (input, text) in [
        ("42.0", "42"),
        ("007", "7"),
        ("-0", "-0"),
        ("-0.000", "-0"),
        ("1.2500", "1.25"),
        ("5.", "5"),
        ("-.5", "-0.5"),
        ("0.001", "0.001"),
    ] {
        assert_eq!(parse(input)?, num(text), "for input {input}");
    }
    Ok(())
}

#[test]
fn test_parse_numbers_with_exponents() -> Result<(), JsonError> {
    assert_eq!(parse("1e5")?, num("1e5"));
    assert_eq!(parse("[2.5E-1]")?, JsonValue::Array(vec![num("2.5e-1")]));
    assert_eq!(parse(r#"{"big": -1.0E+300}"#)?.get("big"), Some(&num("-1e300")));
    Ok(())
}

#[test]
fn test_error_offsets_are_bytes() {
    assert_eq!(
        parse("42 true").unwrap_err(),
        JsonError::UnexpectedToken {
            expected: "end of input".to_string(),
            found: "Boolean(true)".to_string(),
            position: 3,
        }
    );
    assert_eq!(
        parse("[1,").unwrap_err(),
        JsonError::UnexpectedEndOfInput {
            expected: "JSON value".to_string(),
            position: 3,
        }
    );
}

#[test]
fn test_number_tokens_shown_as_floats() {
    for (input, shown) in [
        ("[1 1e5]", "Number(100000.0)"),
        ("[1 1e16]", "Number(1e16)"),
        ("[1 1e15]", "Number(1000000000000000.0)"),
        ("[1 2.5E-1]", "Number(0.25)"),
        ("[1 0.00001]", "Number(1e-5)"),
        ("[1 0.0001]", "Number(0.0001)"),
        ("[1 -0]", "Number(-0.0)"),
        ("[1 123.456e2]", "Number(12345.6)"),
        ("[1 -1.5e-7]", "Number(-1.5e-7)"),
        ("[1 120e-1]", "Number(12.0)"),
    ] {
        let expected = JsonError::UnexpectedToken {
            expected: "',' or ']'".to_string(),
            found: shown.to_string(),
            position: 3,
        };
        assert_eq!(parse(input).unwrap_err(), expected, "{input}");
        let value: f64 = shown["Number(".len()..shown.len() - 1].parse().unwrap();
        assert_eq!(format!("Number({value:?})"), shown);
    }
}
