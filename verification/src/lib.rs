//! A hand-written JSON parser: text in, [`JsonValue`] tree out.
//!
//! Parsing runs in two stages, a [`Token`] scanner ([`Tokenizer`]) followed by
//! a recursive-descent [`JsonParser`], so failures point at the exact offset
//! that broke.  Values can be written back as JSON text with
//! [`JsonValue::to_string`] or [`JsonValue::pretty_print`].
use vstd::prelude::*;
use vstd::string::StringSliceAdditionalSpecFns;

pub mod error;
pub mod float_text;
pub mod laws;
pub mod locality;
pub mod number;
pub mod parser;
pub mod positions;
pub mod roundtrip;
pub mod surrogates;
pub mod text;
pub mod tokenizer;
pub mod value;
pub mod values;

pub use error::JsonError;
pub use parser::JsonParser;
pub use tokenizer::{Token, Tokenizer};
pub use value::{JsonNumber, JsonObject, JsonValue};

verus! {

/// Parses a JSON document into a [`JsonValue`].
pub fn parse(input: &str) -> (r: Result<JsonValue, JsonError>)
    ensures
        match parser::parse_text(input.spec_bytes()) {
            Ok(v) => r matches Ok(x) && x@ == v,
            Err(e) => r matches Err(x) && x@ == e,
        },
{
    match JsonParser::new(input) {
        Ok(mut p) => p.parse(),
        Err(e) => Err(e),
    }
}

} // verus!
