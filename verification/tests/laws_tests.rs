use rust_json_parser::{parse, JsonError, JsonNumber, JsonObject, JsonValue, Tokenizer};

fn position_of(err: &JsonError) -> usize {
    match err {
        JsonError::UnexpectedToken { position, .. }
        | JsonError::UnexpectedEndOfInput { position, .. }
        | JsonError::InvalidNumber { position, .. }
        | JsonError::UnterminatedString { position }
        | JsonError::InvalidEscape { position, .. }
        | JsonError::InvalidUnicode { position, .. } => *position,
    }
}

#[test]
fn test_written_text_reads_back() -> Result<(), JsonError> {
    let mut inner = JsonObject::new();
    inner.insert("q\"uote".to_string(), JsonValue::String("tab\there\u{1}é😀".to_string()));
    inner.insert("n".to_string(), JsonValue::Number(JsonNumber::from_literal("-0.25").unwrap()));
    let value = JsonValue::Array(vec![
        JsonValue::Null,
        JsonValue::Boolean(false),
        JsonValue::Object(inner),
        JsonValue::Array(vec![]),
        JsonValue::Object(JsonObject::new()),
    ]);
    assert_eq!(parse(&value.to_string())?, value);
    assert_eq!(parse(&value.pretty_print(3))?, value);
    Ok(())
}

#[test]
fn test_reparse_gives_the_same_value() -> Result<(), JsonError> {
    let first = parse(r#"[01.500, -0, {"k": [true, "x"], "k": null}, "\u0041\ud83d\ude00"]"#)?;
    assert_eq!(
        first.to_string(),
        r#"[1.5,-0,{"k":null},"A😀"]"#
    );
    assert_eq!(parse(&first.to_string())?, first);
    assert_eq!(parse(&first.pretty_print(2))?, first);
    Ok(())
}

#[test]
fn test_layout_keeps_tokens() -> Result<(), JsonError> {
    let value = parse(r#"{"a": [1, {"b": "c\nd"}], "e": []}"#)?;
    let compact = value.to_string();
    let pretty = value.pretty_print(4);
    assert_ne!(compact, pretty);
    let compact_tokens = Tokenizer::new(&compact).tokenize()?;
    let pretty_tokens = Tokenizer::new(&pretty).tokenize()?;
    assert_eq!(compact_tokens, pretty_tokens);
    Ok(())
}

#[test]
fn test_error_positions_within_input() {
    for input in [
        "", "[", "[1,", "{\"a\"", "\"abc", "\"\\u12", "\"\\ud800\\u", "1.2.3", "nul", "@",
        "[1 2]", "{\"a\":1,}", "\"\\q\"", "\"\\u00", "\"\\x4",
    ] {
        let err = parse(input).unwrap_err();
        assert!(position_of(&err) <= input.len(), "for input {input:?}: {err:?}");
    }
}

#[test]
fn test_value_error_messages() {
    let cases = [
        (
            JsonError::UnexpectedToken {
                expected: "value".to_string(),
                found: "@".to_string(),
                position: 3,
            },
            "Unexpected token at position 3: expected value, found @",
        ),
        (
            JsonError::UnexpectedEndOfInput { expected: "']'".to_string(), position: 12 },
            "Unexpected end of input at position 12: expected ']'",
        ),
        (
            JsonError::InvalidNumber { value: "1.2.3".to_string(), position: 0 },
            "Invalid number '1.2.3' at position 0",
        ),
        (
            JsonError::UnterminatedString { position: 7 },
            "Unterminated string starting at position 7",
        ),
        (
            JsonError::InvalidEscape { char: 'q', position: 2 },
            "Invalid escape character 'q' at position 2",
        ),
        (
            JsonError::InvalidUnicode { sequence: "D800".to_string(), position: 105 },
            "Invalid unicode sequence 'D800' at position 105",
        ),
    ];
    for (err, message) in cases {
        assert_eq!(err.value_error_message(), message);
    }
}

#[test]
fn test_insert_keeps_other_keys_and_size() {
    let mut obj = JsonObject::new();
    obj.insert("x".to_string(), JsonValue::Null);
    obj.insert("y".to_string(), JsonValue::Boolean(true));
    assert_eq!(obj.len(), 2);
    obj.insert("x".to_string(), JsonValue::Boolean(false));
    assert_eq!(obj.len(), 2);
    assert_eq!(obj.get("x"), Some(&JsonValue::Boolean(false)));
    assert_eq!(obj.get("y"), Some(&JsonValue::Boolean(true)));
    obj.insert("z".to_string(), JsonValue::Null);
    assert_eq!(obj.len(), 3);
    assert_eq!(obj.get("y"), Some(&JsonValue::Boolean(true)));
}

#[test]
fn test_canonical_number_same_value() -> Result<(), JsonError> {
    for literal in ["-0012.3400", "000", "5.", "-.25", "100", "0.000100", "-0.0", "123456.789000"] {
        let value = parse(literal)?;
        let text = value.as_number().unwrap().to_string();
        assert_eq!(text.parse::<f64>().unwrap(), literal.parse::<f64>().unwrap(), "for {literal}");
        assert_eq!(
            text.parse::<f64>().unwrap().is_sign_negative(),
            literal.parse::<f64>().unwrap().is_sign_negative(),
            "for {literal}"
        );
        assert_eq!(parse(&text)?, value, "for {literal}");
    }
    Ok(())
}

#[test]
fn test_number_text_denotes_the_literal() -> Result<(), JsonError> {
    for (input, expected) in [("1e5", 100000.0), ("2.5E-1", 0.25), ("-0.50e+2", -50.0), ("1E-0", 1.0)] {
        match parse(input)? {
            JsonValue::Number(text) => assert_eq!(text.as_str().parse::<f64>().unwrap(), expected),
            other => panic!("expected a number, got {other:?}"),
        }
    }
    Ok(())
}

#[test]
fn test_tokens_of_joined_texts() -> Result<(), JsonError> {
    let pairs = [("123", "456"), (r#"{"a": [1, 2.50e1]}"#, "null"), ("true", r#""x\ty""#), ("", "[]")];
    for (a, b) in pairs {
        let mut ta = Tokenizer::new(a).tokenize()?;
        let tb = Tokenizer::new(b).tokenize()?;
        ta.extend(tb);
        assert_eq!(Tokenizer::new(&format!("{a} {b}")).tokenize()?, ta);
    }
    Ok(())
}

#[test]
fn test_last_duplicate_key_wins() -> Result<(), JsonError> {
    let value = parse(r#"{"a": 1, "b": [true], "a": {"c": null}, "b": 2.50}"#)?;
    let JsonValue::Object(members) = &value else {
        panic!("expected an object");
    };
    assert_eq!(members.len(), 2);
    let mut inner = JsonObject::new();
    inner.insert("c".to_string(), JsonValue::Null);
    assert_eq!(value.get("a"), Some(&JsonValue::Object(inner)));
    assert_eq!(value.get("b"), Some(&JsonValue::Number(JsonNumber::from_literal("2.5").unwrap())));
    assert_eq!(value.get("c"), None);
    Ok(())
}

#[test]
fn test_string_literal_reads_back() -> Result<(), JsonError> {
    for text in ["", "plain", "q\"b\\s/", "\u{0}\u{1f}\n\r\t\u{8}\u{c}", "é😀\u{7f}'"] {
        let written = JsonValue::String(text.to_string()).to_string();
        assert!(written.chars().all(|c| c as u32 >= 0x20), "{written:?}");
        assert_eq!(Tokenizer::new(&written).tokenize()?, vec![rust_json_parser::Token::String(text.to_string())]);
    }
    Ok(())
}
