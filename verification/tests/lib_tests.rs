use rust_json_parser::{parse, JsonError, JsonNumber, JsonValue};

#[test]
fn test_integration() -> Result<(), JsonError> {
    // Test the full parsing pipeline
    assert_eq!(parse("42")?, JsonValue::Number(JsonNumber::from_literal("42").unwrap()));
    assert_eq!(parse("true")?, JsonValue::Boolean(true));
    assert_eq!(parse("null")?, JsonValue::Null);
    assert_eq!(parse(r#""hello""#)?, JsonValue::String("hello".to_string()));
    Ok(())
}

#[test]
fn test_error_propagation() {
    // Test that errors propagate properly with correct details
    let result = parse("@invalid@");
    assert!(result.is_err());

    // Validate error details through pattern matching
    match result {
        Err(JsonError::UnexpectedToken {
            expected,
            found,
            position,
        }) => {
            assert_eq!(expected, "valid JSON token");
            assert_eq!(found, "@");
            assert_eq!(position, 0);
        }
        _ => panic!("Expected UnexpectedToken error"),
    }
}

#[test]
fn test_doc_example() -> Result<(), JsonError> {
    let value = parse(r#"{"name": "Ferris", "langs": ["rust"]}"#)?;
    assert_eq!(value.get("name").and_then(|v| v.as_str()), Some("Ferris"));
    assert_eq!(
        value
            .get("langs")
            .and_then(|v| v.get_index(0))
            .and_then(|v| v.as_str()),
        Some("rust")
    );
    Ok(())
}

#[test]
fn test_found_is_whole_multibyte_char() {
    match parse("é") {
        Err(JsonError::UnexpectedToken { found, position, .. }) => {
            assert_eq!(found, "é");
            assert_eq!(position, 0);
        }
        other => panic!("expected UnexpectedToken, got {:?}", other),
    }
    match parse("[1, 😀]") {
        Err(JsonError::UnexpectedToken { found, position, .. }) => {
            assert_eq!(found, "😀");
            assert_eq!(position, 4);
        }
        other => panic!("expected UnexpectedToken, got {:?}", other),
    }
}
