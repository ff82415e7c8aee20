use rust_json_parser::JsonError;

#[test]
fn test_error_creation() {
    let error = JsonError::UnexpectedToken {
        expected: "number".to_string(),
        found: "@".to_string(),
        position: 5,
    };

    // Error should be Debug-printable
    assert!(format!("{:?}", error).contains("UnexpectedToken"));
}

#[test]
fn test_error_variants() {
    let token_error = JsonError::UnexpectedToken {
        expected: "number".to_string(),
        found: "x".to_string(),
        position: 3,
    };

    let eof_error = JsonError::UnexpectedEndOfInput {
        expected: "closing quote".to_string(),
        position: 10,
    };

    let num_error = JsonError::InvalidNumber {
        value: "12.34.56".to_string(),
        position: 0,
    };

    let unterminated_string_error = JsonError::UnterminatedString { position: 15 };
    let invalid_escape_error = JsonError::InvalidEscape {
        char: 'q',
        position: 20,
    };
    let invalid_unicode_error = JsonError::InvalidUnicode {
        sequence: "\\uZZZZ".to_string(),
        position: 25,
    };
    // All variants should be Debug-printable
    assert!(!format!("{:?}", token_error).is_empty());
    assert!(!format!("{:?}", eof_error).is_empty());
    assert!(!format!("{:?}", num_error).is_empty());
    assert!(!format!("{:?}", unterminated_string_error).is_empty());
    assert!(!format!("{:?}", invalid_escape_error).is_empty());
    assert!(!format!("{:?}", invalid_unicode_error).is_empty());
}

#[test]
fn test_error_display() {
    let error = JsonError::UnexpectedToken {
        expected: "valid JSON".to_string(),
        found: "@".to_string(),
        position: 0,
    };

    let message = error.to_string();
    assert!(message.contains("position 0"));
    assert!(message.contains("valid JSON"));
    assert!(message.contains("@"));
}

#[test]
fn test_invalid_escape_display() {
    let err = JsonError::InvalidEscape {
        char: 'q',
        position: 5,
    };
    let msg = err.to_string();
    assert!(msg.contains("escape"));
    assert!(msg.contains("q"));
}

#[test]
fn test_invalid_unicode_display() {
    let err = JsonError::InvalidUnicode {
        sequence: "00GG".to_string(),
        position: 3,
    };
    let msg = err.to_string();
    assert!(msg.contains("unicode") || msg.contains("Unicode"));
}

/// The library's error carried where a `std::error::Error` is expected: its
/// message is the one `to_string` gives.
#[derive(Debug)]
struct AsStdError(JsonError);

impl std::fmt::Display for AsStdError {
    fn fmt(&self, f: &mut std::fmt::Formatter<'_>) -> std::fmt::Result {
        f.write_str(&self.0.to_string())
    }
}

impl std::error::Error for AsStdError {}

#[test]
fn test_error_is_std_error() {
    let err = JsonError::InvalidEscape {
        char: 'x',
        position: 0,
    };
    let wrapped = AsStdError(err);
    let as_error: &dyn std::error::Error = &wrapped;
    assert!(as_error.to_string().contains("escape"));
}

#[test]
fn test_error_messages_exact() {
    let cases = [
        (
            JsonError::UnexpectedToken {
                expected: "valid JSON token".to_string(),
                found: "@".to_string(),
                position: 12,
            },
            "Unexpected token at position 12: expected 'valid JSON token', found '@'",
        ),
        (
            JsonError::UnexpectedEndOfInput {
                expected: "JSON value".to_string(),
                position: 0,
            },
            "Unexpected end of input at position 0: expected 'JSON value'",
        ),
        (
            JsonError::InvalidNumber {
                value: "1.2.3".to_string(),
                position: 7,
            },
            "Invalid number '1.2.3' at position 7",
        ),
        (
            JsonError::UnterminatedString { position: 105 },
            "Unterminated string starting at position 105",
        ),
        (
            JsonError::InvalidEscape {
                char: 'q',
                position: 3,
            },
            "Invalid escape character 'q' at position 3",
        ),
        (
            JsonError::InvalidUnicode {
                sequence: "D83D".to_string(),
                position: 9,
            },
            "Invalid unicode escape sequence 'D83D' at position 9",
        ),
    ];
    for (err, msg) in cases {
        assert_eq!(err.to_string(), msg);
    }
}

#[test]
fn test_error_clone_is_equal() {
    let errors = [
        JsonError::UnexpectedToken { expected: "a".to_string(), found: "b".to_string(), position: 1 },
        JsonError::UnexpectedEndOfInput { expected: "c".to_string(), position: 2 },
        JsonError::InvalidNumber { value: "1.2.3".to_string(), position: 3 },
        JsonError::UnterminatedString { position: 4 },
        JsonError::InvalidEscape { char: 'q', position: 5 },
        JsonError::InvalidUnicode { sequence: "D800".to_string(), position: 6 },
    ];
    for err in errors {
        assert_eq!(err.clone(), err);
    }
}
