//! Errors reported by the scanner and the parser.
use crate::text::{decimal, push_char, push_decimal, push_str};
use vstd::prelude::*;

verus! {

/// What went wrong, and at which byte offset of the input.
#[derive(Debug, PartialEq)]
pub enum JsonError {
    UnexpectedToken { expected: String, found: String, position: usize },
    UnexpectedEndOfInput { expected: String, position: usize },
    InvalidNumber { value: String, position: usize },
    UnterminatedString { position: usize },
    InvalidEscape { char: char, position: usize },
    InvalidUnicode { sequence: String, position: usize },
}

impl Clone for JsonError {
    fn clone(&self) -> (r: Self)
        ensures
            r == *self,
    {
        match self {
            JsonError::UnexpectedToken { expected, found, position } => JsonError::UnexpectedToken {
                expected: expected.clone(),
                found: found.clone(),
                position: *position,
            },
            JsonError::UnexpectedEndOfInput { expected, position } =>
                JsonError::UnexpectedEndOfInput { expected: expected.clone(), position: *position },
            JsonError::InvalidNumber { value, position } => JsonError::InvalidNumber {
                value: value.clone(),
                position: *position,
            },
            JsonError::UnterminatedString { position } => JsonError::UnterminatedString {
                position: *position,
            },
            JsonError::InvalidEscape { char, position } => JsonError::InvalidEscape {
                char: *char,
                position: *position,
            },
            JsonError::InvalidUnicode { sequence, position } => JsonError::InvalidUnicode {
                sequence: sequence.clone(),
                position: *position,
            },
        }
    }
}

/// The mathematical content of a [`JsonError`].
pub enum ErrorModel {
    UnexpectedToken { expected: Seq<char>, found: Seq<char>, position: int },
    UnexpectedEndOfInput { expected: Seq<char>, position: int },
    InvalidNumber { value: Seq<char>, position: int },
    UnterminatedString { position: int },
    InvalidEscape { character: char, position: int },
    InvalidUnicode { sequence: Seq<char>, position: int },
}

impl View for JsonError {
    type V = ErrorModel;

    open spec fn view(&self) -> ErrorModel {
        match self {
            JsonError::UnexpectedToken { expected, found, position } => ErrorModel::UnexpectedToken {
                expected: expected@,
                found: found@,
                position: *position as int,
            },
            JsonError::UnexpectedEndOfInput { expected, position } =>
                ErrorModel::UnexpectedEndOfInput { expected: expected@, position: *position as int },
            JsonError::InvalidNumber { value, position } => ErrorModel::InvalidNumber {
                value: value@,
                position: *position as int,
            },
            JsonError::UnterminatedString { position } => ErrorModel::UnterminatedString {
                position: *position as int,
            },
            JsonError::InvalidEscape { char, position } => ErrorModel::InvalidEscape {
                character: *char,
                position: *position as int,
            },
            JsonError::InvalidUnicode { sequence, position } => ErrorModel::InvalidUnicode {
                sequence: sequence@,
                position: *position as int,
            },
        }
    }
}

/// Where an error was found: a byte offset into the input.
pub open spec fn error_position(e: ErrorModel) -> int {
    match e {
        ErrorModel::UnexpectedToken { position, .. } => position,
        ErrorModel::UnexpectedEndOfInput { position, .. } => position,
        ErrorModel::InvalidNumber { position, .. } => position,
        ErrorModel::UnterminatedString { position } => position,
        ErrorModel::InvalidEscape { position, .. } => position,
        ErrorModel::InvalidUnicode { position, .. } => position,
    }
}

/// The message that describes an error to a person.
pub open spec fn error_message(e: ErrorModel) -> Seq<char> {
    match e {
        ErrorModel::UnexpectedToken { expected, found, position } => "Unexpected token at position "@
            + decimal(position as nat) + ": expected '"@ + expected + "', found '"@ + found + "'"@,
        ErrorModel::UnexpectedEndOfInput { expected, position } =>
            "Unexpected end of input at position "@ + decimal(position as nat) + ": expected '"@
                + expected + "'"@,
        ErrorModel::InvalidNumber { value, position } => "Invalid number '"@ + value
            + "' at position "@ + decimal(position as nat),
        ErrorModel::UnterminatedString { position } => "Unterminated string starting at position "@
            + decimal(position as nat),
        ErrorModel::InvalidEscape { character, position } => "Invalid escape character '"@
            + seq![character] + "' at position "@ + decimal(position as nat),
        ErrorModel::InvalidUnicode { sequence, position } => "Invalid unicode escape sequence '"@
            + sequence + "' at position "@ + decimal(position as nat),
    }
}

/// The message of the `ValueError` that the Python bindings raise for an
/// error: the same facts as `error_message`, with `expected` and `found`
/// unquoted.
pub open spec fn value_error_text(e: ErrorModel) -> Seq<char> {
    match e {
        ErrorModel::UnexpectedToken { expected, found, position } => "Unexpected token at position "@
            + decimal(position as nat) + ": expected "@ + expected + ", found "@ + found,
        ErrorModel::UnexpectedEndOfInput { expected, position } =>
            "Unexpected end of input at position "@ + decimal(position as nat) + ": expected "@
                + expected,
        ErrorModel::InvalidNumber { value, position } => "Invalid number '"@ + value
            + "' at position "@ + decimal(position as nat),
        ErrorModel::UnterminatedString { position } => "Unterminated string starting at position "@
            + decimal(position as nat),
        ErrorModel::InvalidEscape { character, position } => "Invalid escape character '"@
            + seq![character] + "' at position "@ + decimal(position as nat),
        ErrorModel::InvalidUnicode { sequence, position } => "Invalid unicode sequence '"@ + sequence
            + "' at position "@ + decimal(position as nat),
    }
}

impl JsonError {
    /// The error described in words, with its position.
    pub fn to_string(&self) -> (r: String)
        ensures
            r@ == error_message(self@),
    {
        let mut out = String::new();
        match self {
            JsonError::UnexpectedToken { expected, found, position } => {
                push_str(&mut out, "Unexpected token at position ");
                push_decimal(&mut out, *position);
                push_str(&mut out, ": expected '");
                push_str(&mut out, expected.as_str());
                push_str(&mut out, "', found '");
                push_str(&mut out, found.as_str());
                push_str(&mut out, "'");
            },
            JsonError::UnexpectedEndOfInput { expected, position } => {
                push_str(&mut out, "Unexpected end of input at position ");
                push_decimal(&mut out, *position);
                push_str(&mut out, ": expected '");
                push_str(&mut out, expected.as_str());
                push_str(&mut out, "'");
            },
            JsonError::InvalidNumber { value, position } => {
                push_str(&mut out, "Invalid number '");
                push_str(&mut out, value.as_str());
                push_str(&mut out, "' at position ");
                push_decimal(&mut out, *position);
            },
            JsonError::UnterminatedString { position } => {
                push_str(&mut out, "Unterminated string starting at position ");
                push_decimal(&mut out, *position);
            },
            JsonError::InvalidEscape { char, position } => {
                push_str(&mut out, "Invalid escape character '");
                push_char(&mut out, *char);
                push_str(&mut out, "' at position ");
                push_decimal(&mut out, *position);
            },
            JsonError::InvalidUnicode { sequence, position } => {
                push_str(&mut out, "Invalid unicode escape sequence '");
                push_str(&mut out, sequence.as_str());
                push_str(&mut out, "' at position ");
                push_decimal(&mut out, *position);
            },
        }
        assert(out@ =~= error_message(self@));
        out
    }

    /// The message of the `ValueError` that the Python bindings raise.
    pub fn value_error_message(&self) -> (r: String)
        ensures
            r@ == value_error_text(self@),
    {
        let mut out = String::new();
        match self {
            JsonError::UnexpectedToken { expected, found, position } => {
                push_str(&mut out, "Unexpected token at position ");
                push_decimal(&mut out, *position);
                push_str(&mut out, ": expected ");
                push_str(&mut out, expected.as_str());
                push_str(&mut out, ", found ");
                push_str(&mut out, found.as_str());
            },
            JsonError::UnexpectedEndOfInput { expected, position } => {
                push_str(&mut out, "Unexpected end of input at position ");
                push_decimal(&mut out, *position);
                push_str(&mut out, ": expected ");
                push_str(&mut out, expected.as_str());
            },
            JsonError::InvalidNumber { value, position } => {
                push_str(&mut out, "Invalid number '");
                push_str(&mut out, value.as_str());
                push_str(&mut out, "' at position ");
                push_decimal(&mut out, *position);
            },
            JsonError::UnterminatedString { position } => {
                push_str(&mut out, "Unterminated string starting at position ");
                push_decimal(&mut out, *position);
            },
            JsonError::InvalidEscape { char, position } => {
                push_str(&mut out, "Invalid escape character '");
                push_char(&mut out, *char);
                push_str(&mut out, "' at position ");
                push_decimal(&mut out, *position);
            },
            JsonError::InvalidUnicode { sequence, position } => {
                push_str(&mut out, "Invalid unicode sequence '");
                push_str(&mut out, sequence.as_str());
                push_str(&mut out, "' at position ");
                push_decimal(&mut out, *position);
            },
        }
        assert(out@ =~= value_error_text(self@));
        out
    }
}

} // verus!