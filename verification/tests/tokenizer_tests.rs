use rust_json_parser::{JsonError, Token, Tokenizer};

fn tokenize(input: &str) -> Result<Vec<Token>, JsonError> {
    let mut tokenizer = Tokenizer::new(input);
    tokenizer.tokenize()
}

/// A small document with the fields that the sample-file test looks for.
const SAMPLE_JSON: &str = r#"{
  "name": "Alice Johnson",
  "age": 28,
  "active": true,
  "tags": ["developer", "rust", "python"],
  "address": {"city": "Portland", "zip": "97201"},
  "score": -3.75,
  "manager": null
}"#;

#[test]
fn test_tokenizer_new() -> Result<(), JsonError> {
    // Can't directly inspect private fields,
    // so verify construction by using the struct's methods
    let mut t = Tokenizer::new("42");
    let tokens = t.tokenize()?;
    assert_eq!(tokens.len(), 1);
    Ok(())
}

#[test]
fn test_initial_position() {
    let tokenizer = Tokenizer::new("test");
    assert_eq!(tokenizer.position(), 0);
}

#[test]
fn test_empty_braces() -> Result<(), JsonError> {
    let tokens = tokenize("{}")?;
    assert_eq!(tokens.len(), 2);
    assert_eq!(tokens[0], Token::LeftBrace);
    assert_eq!(tokens[1], Token::RightBrace);
    Ok(())
}

#[test]
fn test_simple_string() -> Result<(), JsonError> {
    let tokens = tokenize(r#""hello""#)?;
    assert_eq!(tokens.len(), 1);
    assert_eq!(tokens[0], Token::String("hello".to_string()));
    Ok(())
}

#[test]
fn test_tokenize_string() -> Result<(), JsonError> {
    let tokens = tokenize(r#""hello world""#)?;
    assert_eq!(tokens.len(), 1);
    assert_eq!(tokens[0], Token::String("hello world".to_string()));
    Ok(())
}

#[test]
fn test_empty_string() -> Result<(), JsonError> {
    // Outer boundary: adjacent quotes with no inner content
    let tokens = tokenize(r#""""#)?;
    assert_eq!(tokens.len(), 1);
    assert_eq!(tokens[0], Token::String("".to_string()));
    Ok(())
}

#[test]
fn test_string_containing_json_special_chars() -> Result<(), JsonError> {
    // Inner handling: JSON delimiters inside strings don't break tokenization
    let tokens = tokenize(r#""{key: value}""#)?;
    assert_eq!(tokens.len(), 1);
    assert_eq!(tokens[0], Token::String("{key: value}".to_string()));
    Ok(())
}

#[test]
fn test_string_with_keyword_like_content() -> Result<(), JsonError> {
    // Inner handling: "true", "false", "null" inside strings stay as string content
    let tokens = tokenize(r#""not true or false""#)?;
    assert_eq!(tokens.len(), 1);
    assert_eq!(tokens[0], Token::String("not true or false".to_string()));
    Ok(())
}

#[test]
fn test_string_with_number_like_content() -> Result<(), JsonError> {
    // Inner handling: numeric content inside strings doesn't become Number tokens
    let tokens = tokenize(r#""phone: 555-1234""#)?;
    assert_eq!(tokens.len(), 1);
    assert_eq!(tokens[0], Token::String("phone: 555-1234".to_string()));
    Ok(())
}

#[test]
fn test_number() -> Result<(), JsonError> {
    let tokens = tokenize("42")?;
    assert_eq!(tokens.len(), 1);
    assert_eq!(tokens[0], Token::Number("42".to_string()));
    Ok(())
}

#[test]
fn test_negative_number() -> Result<(), JsonError> {
    let tokens = tokenize("-42")?;
    assert_eq!(tokens.len(), 1);
    assert_eq!(tokens[0], Token::Number("-42".to_string()));
    Ok(())
}

#[test]
fn test_decimal_number() -> Result<(), JsonError> {
    let tokens = tokenize("0.5")?;
    assert_eq!(tokens.len(), 1);
    assert_eq!(tokens[0], Token::Number("0.5".to_string()));
    Ok(())
}

#[test]
fn test_leading_decimal_not_a_number() {
    // .5 is invalid JSON - numbers must have leading digit (0.5 is valid)
    let err = tokenize(".5").unwrap_err();
    assert!(matches!(
        err,
        JsonError::UnexpectedToken { position: 0, .. }
    ));
}

#[test]
fn test_malformed_numbers_rejected() {
    for value in ["1-2-3", "1.2.3"] {
        let err = tokenize(value).unwrap_err();
        assert_eq!(
            err,
            JsonError::InvalidNumber {
                value: value.to_string(),
                position: 0
            }
        );
    }
}

#[test]
fn test_boolean_and_null() -> Result<(), JsonError> {
    let tokens = tokenize("true false null")?;
    assert_eq!(tokens.len(), 3);
    assert_eq!(tokens[0], Token::Boolean(true));
    assert_eq!(tokens[1], Token::Boolean(false));
    assert_eq!(tokens[2], Token::Null);
    Ok(())
}

#[test]
fn test_simple_object() -> Result<(), JsonError> {
    let tokens = tokenize(r#"{"name": "Alice"}"#)?;
    assert_eq!(tokens.len(), 5);
    assert_eq!(tokens[0], Token::LeftBrace);
    assert_eq!(tokens[1], Token::String("name".to_string()));
    assert_eq!(tokens[2], Token::Colon);
    assert_eq!(tokens[3], Token::String("Alice".to_string()));
    assert_eq!(tokens[4], Token::RightBrace);
    Ok(())
}

#[test]
fn test_multiple_values() -> Result<(), JsonError> {
    let tokens = tokenize(r#"{"age": 30, "active": true}"#)?;

    // Verify we have the right tokens
    assert!(tokens.contains(&Token::String("age".to_string())));
    assert!(tokens.contains(&Token::Number("30".to_string())));
    assert!(tokens.contains(&Token::Comma));
    assert!(tokens.contains(&Token::String("active".to_string())));
    assert!(tokens.contains(&Token::Boolean(true)));
    Ok(())
}

#[test]
fn test_array() -> Result<(), JsonError> {
    let tokens = tokenize(r#"[1, 2, 3]"#)?;
    assert_eq!(tokens.len(), 7);
    assert_eq!(tokens[0], Token::LeftBracket);
    assert_eq!(tokens[1], Token::Number("1".to_string()));
    assert_eq!(tokens[2], Token::Comma);
    assert_eq!(tokens[3], Token::Number("2".to_string()));
    assert_eq!(tokens[4], Token::Comma);
    assert_eq!(tokens[5], Token::Number("3".to_string()));
    assert_eq!(tokens[6], Token::RightBracket);
    Ok(())
}

#[test]
fn test_nested_objects() -> Result<(), JsonError> {
    let tokens = tokenize(r#"{"person": {"name": "Alice", "age": 30}}"#)?;
    assert_eq!(tokens.len(), 13);
    assert_eq!(tokens[0], Token::LeftBrace);
    assert_eq!(tokens[1], Token::String("person".to_string()));
    assert_eq!(tokens[2], Token::Colon);
    assert_eq!(tokens[3], Token::LeftBrace);
    assert_eq!(tokens[4], Token::String("name".to_string()));
    assert_eq!(tokens[5], Token::Colon);
    assert_eq!(tokens[6], Token::String("Alice".to_string()));
    assert_eq!(tokens[7], Token::Comma);
    assert_eq!(tokens[8], Token::String("age".to_string()));
    assert_eq!(tokens[9], Token::Colon);
    assert_eq!(tokens[10], Token::Number("30".to_string()));
    assert_eq!(tokens[11], Token::RightBrace);
    assert_eq!(tokens[12], Token::RightBrace);
    Ok(())
}

#[test]
fn test_edge_cases() -> Result<(), JsonError> {
    let tokens = tokenize(r#""", 0, -5"#)?;
    assert_eq!(tokens.len(), 5);
    assert_eq!(tokens[0], Token::String("".to_string()));
    assert_eq!(tokens[1], Token::Comma);
    assert_eq!(tokens[2], Token::Number("0".to_string()));
    assert_eq!(tokens[3], Token::Comma);
    assert_eq!(tokens[4], Token::Number("-5".to_string()));
    Ok(())
}

#[test]
fn test_sample_json_file() -> Result<(), JsonError> {
    let input = SAMPLE_JSON;
    let tokens = tokenize(input)?;

    assert!(tokens.contains(&Token::String("name".to_string())));
    assert!(tokens.contains(&Token::String("Alice Johnson".to_string())));
    assert!(tokens.contains(&Token::Number("28".to_string())));
    assert!(tokens.contains(&Token::Boolean(true)));
    assert!(tokens.contains(&Token::String("tags".to_string())));
    assert!(tokens.contains(&Token::LeftBracket));
    assert!(tokens.contains(&Token::String("developer".to_string())));
    Ok(())
}

#[test]
fn test_position_is_byte_index_after_multibyte() {
    // With a &[u8] cursor, position is a byte index: 'é' is 2 bytes.
    // '@' is at byte index 8 (0:" 1:c 2:a 3:f 4-5:é 6:" 7:space 8:@).
    let err = tokenize(r#""café" @"#).unwrap_err();
    assert_eq!(
        err,
        JsonError::UnexpectedToken {
            expected: "valid JSON token".to_string(),
            found: "@".to_string(),
            position: 8,
        }
    );
}

#[test]
fn test_unterminated_string_should_not_produce_token() {
    let err = tokenize(r#""hello"#).unwrap_err();
    assert!(matches!(err, JsonError::UnterminatedString { position: 0 }))
}

#[test]
fn test_tokenize_literals() -> Result<(), JsonError> {
    assert_eq!(tokenize("true")?, vec![Token::Boolean(true)]);
    assert_eq!(tokenize("false")?, vec![Token::Boolean(false)]);
    assert_eq!(tokenize("null")?, vec![Token::Null]);
    Ok(())
}

#[test]
fn test_tokenizer_multiple_tokens() -> Result<(), JsonError> {
    // Tests that a single tokenize() call handles multiple tokens
    // Note: Unlike Python iterators, calling tokenize() again on the same
    // instance would return empty - the input has been consumed.
    // Create a new Tokenizer instance if you need to parse new input.
    let tokens = tokenize("123 456")?;
    assert_eq!(tokens.len(), 2);
    Ok(())
}

#[test]
fn test_tokenize_negative_number() -> Result<(), JsonError> {
    let tokens = tokenize("-3.5")?;
    assert_eq!(tokens, vec![Token::Number("-3.5".to_string())]);
    Ok(())
}

#[test]
fn test_invalid_keyword_error_position_points_to_start() {
    let err = tokenize("   xyz").unwrap_err();
    match err {
        JsonError::UnexpectedToken { position, .. } => {
            assert_eq!(
                position, 3,
                "error position should point to the start of 'xyz' (index 3), not past it"
            );
        }
        other => panic!("expected UnexpectedToken, got {:?}", other),
    }
}

#[test]
fn test_escape_newline() -> Result<(), JsonError> {
    let tokens = tokenize(r#""hello\nworld""#)?;
    assert_eq!(tokens, vec![Token::String("hello\nworld".to_string())]);
    Ok(())
}

#[test]
fn test_escape_tab() -> Result<(), JsonError> {
    let tokens = tokenize(r#""col1\tcol2""#)?;
    assert_eq!(tokens, vec![Token::String("col1\tcol2".to_string())]);
    Ok(())
}

#[test]
fn test_escape_quote() -> Result<(), JsonError> {
    let tokens = tokenize(r#""say \"hello\"""#)?;
    assert_eq!(tokens, vec![Token::String("say \"hello\"".to_string())]);
    Ok(())
}

#[test]
fn test_escape_backslash() -> Result<(), JsonError> {
    let tokens = tokenize(r#""path\\to\\file""#)?;
    assert_eq!(tokens, vec![Token::String("path\\to\\file".to_string())]);
    Ok(())
}

#[test]
fn test_multiple_escapes() -> Result<(), JsonError> {
    let tokens = tokenize(r#""a\nb\tc\"""#)?;
    assert_eq!(tokens, vec![Token::String("a\nb\tc\"".to_string())]);
    Ok(())
}

#[test]
fn test_escape_forward_slash() -> Result<(), JsonError> {
    let tokens = tokenize(r#""a\/b""#)?;
    assert_eq!(tokens, vec![Token::String("a/b".to_string())]);
    Ok(())
}

#[test]
fn test_escape_carriage_return() -> Result<(), JsonError> {
    let tokens = tokenize(r#""line\r\n""#)?;
    assert_eq!(tokens, vec![Token::String("line\r\n".to_string())]);
    Ok(())
}

#[test]
fn test_escape_backspace_formfeed() -> Result<(), JsonError> {
    let tokens = tokenize(r#""\b\f""#)?;
    assert_eq!(tokens, vec![Token::String("\u{0008}\u{000C}".to_string())]);
    Ok(())
}

#[test]
fn test_unicode_escape_basic() -> Result<(), JsonError> {
    // \u0041 is 'A'
    let tokens = tokenize(r#""\u0041""#)?;
    assert_eq!(tokens, vec![Token::String("A".to_string())]);
    Ok(())
}

#[test]
fn test_unicode_escape_multiple() -> Result<(), JsonError> {
    // \u0048\u0069 is "Hi"
    let tokens = tokenize(r#""\u0048\u0069""#)?;
    assert_eq!(tokens, vec![Token::String("Hi".to_string())]);
    Ok(())
}

#[test]
fn test_unicode_escape_mixed() -> Result<(), JsonError> {
    // Mix of regular chars and unicode escapes
    let tokens = tokenize(r#""Hello \u0057orld""#)?;
    assert_eq!(tokens, vec![Token::String("Hello World".to_string())]);
    Ok(())
}

#[test]
fn test_unicode_escape_lowercase() -> Result<(), JsonError> {
    // Lowercase hex digits should work too
    let tokens = tokenize(r#""\u004a""#)?;
    assert_eq!(tokens, vec![Token::String("J".to_string())]);
    Ok(())
}

#[test]
fn test_unicode_escape_surrogate_pair() -> Result<(), JsonError> {
    // \uD83D\uDE00 is the emoji, built from a high and low surrogate
    let tokens = tokenize(r#""\uD83D\uDE00""#)?;
    assert_eq!(tokens, vec![Token::String("😀".to_string())]);
    Ok(())
}

#[test]
fn test_unicode_escape_surrogate_pair_mixed() -> Result<(), JsonError> {
    let tokens = tokenize(r#""hi \uD83D\uDE00!""#)?;
    assert_eq!(tokens, vec![Token::String("hi 😀!".to_string())]);
    Ok(())
}

#[test]
fn test_lone_high_surrogate_rejected() {
    let result = tokenize(r#""\uD83D""#);
    assert!(matches!(result, Err(JsonError::InvalidUnicode { .. })));
}

#[test]
fn test_lone_low_surrogate_rejected() {
    let result = tokenize(r#""\uDE00""#);
    assert!(matches!(result, Err(JsonError::InvalidUnicode { .. })));
}

#[test]
fn test_high_surrogate_followed_by_non_surrogate_rejected() {
    let result = tokenize(r#""\uD83DA""#);
    assert!(matches!(result, Err(JsonError::InvalidUnicode { .. })));
}

#[test]
fn test_high_surrogate_followed_by_plain_char_rejected() {
    let result = tokenize(r#""\uD83Dx""#);
    assert!(matches!(result, Err(JsonError::InvalidUnicode { .. })));
}

#[test]
fn test_hex_escape_basic() -> Result<(), JsonError> {
    // \x41 is 'A'
    let tokens = tokenize(r#""\x41""#)?;
    assert_eq!(tokens, vec![Token::String("A".to_string())]);
    Ok(())
}

#[test]
fn test_hex_escape_lowercase() -> Result<(), JsonError> {
    let tokens = tokenize(r#""\x4a""#)?;
    assert_eq!(tokens, vec![Token::String("J".to_string())]);
    Ok(())
}

#[test]
fn test_hex_escape_mixed() -> Result<(), JsonError> {
    let tokens = tokenize(r#""a\x42c""#)?;
    assert_eq!(tokens, vec![Token::String("aBc".to_string())]);
    Ok(())
}

#[test]
fn test_hex_escape_high_byte() -> Result<(), JsonError> {
    // \xFF is 'ÿ' - the top of the latin-1 range
    let tokens = tokenize(r#""\xFF""#)?;
    assert_eq!(tokens, vec![Token::String("ÿ".to_string())]);
    Ok(())
}

#[test]
fn test_hex_escape_too_short() {
    let result = tokenize(r#""\x4""#);
    assert!(matches!(result, Err(JsonError::InvalidUnicode { .. })));
}

#[test]
fn test_hex_escape_bad_hex() {
    let result = tokenize(r#""\xGG""#);
    assert!(matches!(result, Err(JsonError::InvalidUnicode { .. })));
}

#[test]
fn test_invalid_escape_sequence() {
    let result = tokenize(r#""\q""#);
    assert!(matches!(result, Err(JsonError::InvalidEscape { .. })));
}

#[test]
fn test_invalid_unicode_too_short() {
    let result = tokenize(r#""\u004""#);
    assert!(matches!(result, Err(JsonError::InvalidUnicode { .. })));
}

#[test]
fn test_invalid_unicode_reports_digits_read_so_far() {
    // The reported sequence is the raw partial digits, so leading zeros survive
    for (input, sequence, position) in [
        (r#""\u00GG""#, "00", 5),
        (r#""\uGG""#, "", 3),
        (r#""\u004""#, "004", 6),
        (r#""\x4""#, "4", 4),
        (r#""\xGG""#, "", 3),
    ] {
        assert_eq!(
            tokenize(input).unwrap_err(),
            JsonError::InvalidUnicode {
                sequence: sequence.to_string(),
                position,
            },
            "for input {input}"
        );
    }
}

#[test]
fn test_invalid_unicode_bad_hex() {
    let result = tokenize(r#""\u00GG""#);
    assert!(matches!(result, Err(JsonError::InvalidUnicode { .. })));
}

#[test]
fn test_unterminated_string_with_escape() {
    let result = tokenize(r#""hello\n"#);
    assert!(result.is_err());
}

#[test]
fn test_advance_sequence() {
    let mut tokenizer = Tokenizer::new("abc");
    assert_eq!(tokenizer.advance(), Some(b'a'));
    assert_eq!(tokenizer.advance(), Some(b'b'));
    assert_eq!(tokenizer.advance(), Some(b'c'));
    assert_eq!(tokenizer.advance(), None);
}

#[test]
fn test_peek_doesnt_advance() {
    let mut tokenizer = Tokenizer::new("ab");
    assert_eq!(tokenizer.peek(), Some(b'a'));
    assert_eq!(tokenizer.peek(), Some(b'a'));
    assert_eq!(tokenizer.peek(), Some(b'a'));
    assert_eq!(tokenizer.advance(), Some(b'a'));
}

#[test]
fn test_advance_order_matters() {
    let mut t1 = Tokenizer::new("12");
    let mut t2 = Tokenizer::new("12");

    // Same operations in same order
    assert_eq!(t1.advance(), t2.advance());
    assert_eq!(t1.advance(), t2.advance());
}

#[test]
fn test_invalid_escape_contains_char() {
    let result = tokenize(r#""\q""#);

    match result {
        Err(JsonError::InvalidEscape { char, position }) => {
            assert_eq!(char, 'q');
            assert!(position > 0); // Not at start
        }
        _ => panic!("Expected InvalidEscape error"),
    }
}

#[test]
fn test_error_message_is_helpful() {
    let err = JsonError::InvalidEscape {
        char: 'x',
        position: 5,
    };
    let msg = err.to_string();

    assert!(msg.contains("escape"), "Should mention 'escape'");
    assert!(msg.contains("x"), "Should include the invalid char");
}

#[test]
fn test_string_escape_errors_exact() {
    let cases = [
        (r#""\q""#, JsonError::InvalidEscape { char: 'q', position: 2 }),
        (r#""ab\"#, JsonError::UnterminatedString { position: 0 }),
        (
            r#""\uD83D""#,
            JsonError::InvalidUnicode {
                sequence: "D83D".to_string(),
                position: 7,
            },
        ),
        (
            r#""\uD83D\u0041""#,
            JsonError::InvalidUnicode {
                sequence: "D83D".to_string(),
                position: 7,
            },
        ),
        (
            r#""\uDE00""#,
            JsonError::InvalidUnicode {
                sequence: "DE00".to_string(),
                position: 7,
            },
        ),
        (
            r#""\uD83D\uZZ""#,
            JsonError::InvalidUnicode {
                sequence: "".to_string(),
                position: 9,
            },
        ),
    ];
    for (input, expected) in cases {
        assert_eq!(tokenize(input).unwrap_err(), expected, "for input {input}");
    }
}

#[test]
fn test_literal_error_reports_word() {
    assert_eq!(
        tokenize("[tru]").unwrap_err(),
        JsonError::UnexpectedToken {
            expected: "true, false, or null".to_string(),
            found: "tru".to_string(),
            position: 1,
        }
    );
}

#[test]
fn test_found_inside_a_character_is_replacement() {
    let mut tokenizer = Tokenizer::new("é");
    assert_eq!(tokenizer.advance(), Some(0xC3));
    assert_eq!(
        tokenizer.tokenize().unwrap_err(),
        JsonError::UnexpectedToken {
            expected: "valid JSON token".to_string(),
            found: "\u{FFFD}".to_string(),
            position: 1,
        }
    );
}

#[test]
fn test_non_ascii_string_content() -> Result<(), JsonError> {
    let tokens = tokenize("\"héllo 😀 \\u00e9\"")?;
    assert_eq!(tokens, vec![Token::String("héllo 😀 é".to_string())]);
    Ok(())
}

#[test]
fn test_tokenize_from_current_position() -> Result<(), JsonError> {
    let mut tokenizer = Tokenizer::new("[1]");
    assert_eq!(tokenizer.advance(), Some(b'['));
    let tokens = tokenizer.tokenize()?;
    assert_eq!(
        tokens,
        vec![Token::Number("1".to_string()), Token::RightBracket]
    );
    Ok(())
}

#[test]
fn test_exponent_numbers() -> Result<(), JsonError> {
    for (input, expected) in [
        ("1e5", "1e5"),
        ("2.5E-1", "2.5e-1"),
        ("1E+02", "1e2"),
        ("0.50e-007", "0.5e-7"),
        ("1e-0", "1"),
        ("-12.0e3", "-12e3"),
    ] {
        assert_eq!(tokenize(input)?, vec![Token::Number(expected.to_string())]);
    }
    Ok(())
}

#[test]
fn test_malformed_exponents_rejected() {
    for value in ["1e", "1e+", "1e5.5", "1ee5", "1e5e5", "1e-+5"] {
        assert_eq!(
            tokenize(value).unwrap_err(),
            JsonError::InvalidNumber {
                value: value.to_string(),
                position: 0
            }
        );
    }
}

#[test]
fn test_tokenize_consumes_the_input() -> Result<(), JsonError> {
    let mut tokenizer = Tokenizer::new("[1, 2] ");
    assert_eq!(tokenizer.tokenize()?.len(), 5);
    assert_eq!(tokenizer.position(), 7);
    assert_eq!(tokenizer.tokenize()?, vec![]);
    Ok(())
}

#[test]
fn test_cursor_after_unterminated_string() {
    let mut tokenizer = Tokenizer::new("[\"abc");
    assert_eq!(
        tokenizer.tokenize().unwrap_err(),
        JsonError::UnterminatedString { position: 1 }
    );
    assert_eq!(tokenizer.position(), 5);
}

#[test]
fn test_cursor_stays_on_invalid_escape() {
    let mut tokenizer = Tokenizer::new(r#""\q""#);
    assert_eq!(
        tokenizer.tokenize().unwrap_err(),
        JsonError::InvalidEscape { char: 'q', position: 2 }
    );
    assert_eq!(tokenizer.position(), 2);
}

#[test]
fn test_cursor_after_bad_unicode_digit() {
    let mut tokenizer = Tokenizer::new(r#""\u12G4""#);
    assert_eq!(
        tokenizer.tokenize().unwrap_err(),
        JsonError::InvalidUnicode { sequence: "12".to_string(), position: 5 }
    );
    assert_eq!(tokenizer.position(), 5);
}

#[test]
fn test_cursor_after_unknown_word() {
    let mut tokenizer = Tokenizer::new("[trueish]");
    assert_eq!(
        tokenizer.tokenize().unwrap_err(),
        JsonError::UnexpectedToken {
            expected: "true, false, or null".to_string(),
            found: "trueish".to_string(),
            position: 1,
        }
    );
    assert_eq!(tokenizer.position(), 8);
}

#[test]
fn test_cursor_after_bad_number() {
    let mut tokenizer = Tokenizer::new("[1.2.3]");
    assert!(tokenizer.tokenize().is_err());
    assert_eq!(tokenizer.position(), 6);
}
