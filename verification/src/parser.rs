//! The recursive-descent parser: tokens in, `JsonValue` out.
//!
//! The parser works on token indices.  The errors that reach the caller
//! carry byte offsets instead: the offset at which the offending token
//! starts, or the length of the input when it ended too early (`located`).
use crate::error::{ErrorModel, JsonError};
use crate::roundtrip::{lemma_scanned_numbers_canonical, numbers_canonical};
use crate::float_text::{float_debug, float_debug_text};
use crate::number::{
    canonical_number_text, char_bytes, is_canonical_number, is_number_byte,
    lemma_canonical_number_is_canonical, number_is_valid,
};
use crate::text::{debug_quoted, debug_text, push_str};
use crate::tokenizer::{
    number_byte, offsets_model, token_starts, tokenize_spec, tokens_model, Token, TokenModel,
    Tokenizer,
};
use crate::value::{
    lemma_array_model, lemma_object_model, lemma_scalar_models, object_insert, JsonObject,
    insert_all, same_text, JsonNumber, JsonValue, ValueModel,
};
use vstd::prelude::*;
use vstd::string::StringSliceAdditionalSpecFns;

verus! {

// ---------------------------------------------------------------------------
// Specification
// ---------------------------------------------------------------------------
/// How a number token is shown in an error: a canonical number text in the
/// form `{:?}` gives a float (`float_debug`, which is exactly the `{:?}` text
/// of the literal's float for literals of at most fifteen significant digits
/// in the normal range of `f64`); any other text as itself, with `.0` added
/// when it has no `.`.
pub open spec fn number_debug(n: Seq<char>) -> Seq<char> {
    if is_canonical_number(n) {
        float_debug(char_bytes(n))
    } else if n.contains('.') {
        n
    } else {
        n + ".0"@
    }
}

/// How a token is shown in an error (the token's `Debug` form).
pub open spec fn describe(t: TokenModel) -> Seq<char> {
    match t {
        TokenModel::LeftBrace => "LeftBrace"@,
        TokenModel::RightBrace => "RightBrace"@,
        TokenModel::LeftBracket => "LeftBracket"@,
        TokenModel::RightBracket => "RightBracket"@,
        TokenModel::Comma => "Comma"@,
        TokenModel::Colon => "Colon"@,
        TokenModel::String(s) => "String("@ + debug_text(s) + ")"@,
        TokenModel::Number(n) => "Number("@ + number_debug(n) + ")"@,
        TokenModel::Boolean(b) => if b {
            "Boolean(true)"@
        } else {
            "Boolean(false)"@
        },
        TokenModel::Null => "Null"@,
    }
}

/// Parses the value that starts at token `p`; on success, also the index after it.
pub open spec fn parse_value(ts: Seq<TokenModel>, p: int) -> Result<(ValueModel, int), ErrorModel>
    decreases ts.len() - p, 0int,
{
    if p < 0 || p >= ts.len() {
        Err(ErrorModel::UnexpectedEndOfInput { expected: "JSON value"@, position: p })
    } else {
        match ts[p] {
            TokenModel::Null => Ok((ValueModel::Null, p + 1)),
            TokenModel::Boolean(b) => Ok((ValueModel::Boolean(b), p + 1)),
            TokenModel::Number(n) => Ok((ValueModel::Number(n), p + 1)),
            TokenModel::String(s) => Ok((ValueModel::String(s), p + 1)),
            TokenModel::LeftBracket => parse_array(ts, p + 1),
            TokenModel::LeftBrace => parse_object(ts, p + 1),
            t => Err(
                ErrorModel::UnexpectedToken {
                    expected: "null, boolean, number, string, array, or object"@,
                    found: describe(t),
                    position: p,
                },
            ),
        }
    }
}

/// Parses an array whose `[` is just before token `p`.
pub open spec fn parse_array(ts: Seq<TokenModel>, p: int) -> Result<(ValueModel, int), ErrorModel>
    decreases ts.len() - p, 1int,
{
    if p < 0 || p >= ts.len() {
        Err(ErrorModel::UnexpectedEndOfInput { expected: "array value or ']'"@, position: p })
    } else if ts[p] is RightBracket {
        Ok((ValueModel::Array(seq![]), p + 1))
    } else {
        match parse_value(ts, p) {
            Ok((v, q)) => if p < q <= ts.len() {
                array_rest(ts, q, seq![v])
            } else {
                Err(ErrorModel::UnexpectedEndOfInput { expected: "',' or ']'"@, position: q })
            },
            Err(e) => Err(e),
        }
    }
}

/// Parses the rest of an array after its elements `items`, from token `q`.
pub open spec fn array_rest(ts: Seq<TokenModel>, q: int, items: Seq<ValueModel>) -> Result<
    (ValueModel, int),
    ErrorModel,
>
    decreases ts.len() - q, 2int,
{
    if q < 0 || q >= ts.len() {
        Err(ErrorModel::UnexpectedEndOfInput { expected: "',' or ']'"@, position: q })
    } else {
        match ts[q] {
            TokenModel::RightBracket => Ok((ValueModel::Array(items), q + 1)),
            TokenModel::Comma => match parse_value(ts, q + 1) {
                Ok((v, r)) => if q < r <= ts.len() {
                    array_rest(ts, r, items.push(v))
                } else {
                    Err(ErrorModel::UnexpectedEndOfInput { expected: "',' or ']'"@, position: r })
                },
                Err(e) => Err(e),
            },
            t => Err(
                ErrorModel::UnexpectedToken { expected: "',' or ']'"@, found: describe(t), position: q },
            ),
        }
    }
}

/// Parses an object whose `{` is just before token `p`.
pub open spec fn parse_object(ts: Seq<TokenModel>, p: int) -> Result<(ValueModel, int), ErrorModel>
    decreases ts.len() - p, 1int,
{
    if p < 0 || p >= ts.len() {
        Err(ErrorModel::UnexpectedEndOfInput { expected: "string key"@, position: p })
    } else {
        match ts[p] {
            TokenModel::RightBrace => Ok((ValueModel::Object(seq![]), p + 1)),
            TokenModel::String(k) => parse_member(ts, p + 1, k, seq![]),
            t => Err(
                ErrorModel::UnexpectedToken {
                    expected: "string key or '}'"@,
                    found: describe(t),
                    position: p,
                },
            ),
        }
    }
}

/// Parses `: value` for key `key` from token `q`, adds the member to `es`, and
/// goes on with the rest of the object.
pub open spec fn parse_member(
    ts: Seq<TokenModel>,
    q: int,
    key: Seq<char>,
    es: Seq<(Seq<char>, ValueModel)>,
) -> Result<(ValueModel, int), ErrorModel>
    decreases ts.len() - q, 1int,
{
    if q < 0 || q >= ts.len() {
        Err(ErrorModel::UnexpectedEndOfInput { expected: "':'"@, position: q })
    } else {
        match ts[q] {
            TokenModel::Colon => match parse_value(ts, q + 1) {
                Ok((v, r)) => if q < r <= ts.len() {
                    object_rest(ts, r, object_insert(es, key, v))
                } else {
                    Err(ErrorModel::UnexpectedEndOfInput { expected: "',' or '}'"@, position: r })
                },
                Err(e) => Err(e),
            },
            t => Err(ErrorModel::UnexpectedToken { expected: "':'"@, found: describe(t), position: q }),
        }
    }
}

/// Parses the rest of an object after its members `es`, from token `r`.
pub open spec fn object_rest(ts: Seq<TokenModel>, r: int, es: Seq<(Seq<char>, ValueModel)>) -> Result<
    (ValueModel, int),
    ErrorModel,
>
    decreases ts.len() - r, 2int,
{
    if r < 0 || r >= ts.len() {
        Err(ErrorModel::UnexpectedEndOfInput { expected: "',' or '}'"@, position: r })
    } else {
        match ts[r] {
            TokenModel::RightBrace => Ok((ValueModel::Object(es), r + 1)),
            TokenModel::Comma => if r + 1 >= ts.len() {
                Err(ErrorModel::UnexpectedEndOfInput { expected: "string key"@, position: r + 1 })
            } else {
                match ts[r + 1] {
                    TokenModel::String(k) => parse_member(ts, r + 2, k, es),
                    t => Err(
                        ErrorModel::UnexpectedToken {
                            expected: "string key"@,
                            found: describe(t),
                            position: r + 1,
                        },
                    ),
                }
            },
            t => Err(
                ErrorModel::UnexpectedToken { expected: "',' or '}'"@, found: describe(t), position: r },
            ),
        }
    }
}

/// Parses one value from token `p` that must end the token sequence.
pub open spec fn parse_document(ts: Seq<TokenModel>, p: int) -> Result<ValueModel, ErrorModel> {
    match parse_value(ts, p) {
        Ok((v, q)) => if q >= ts.len() {
            Ok(v)
        } else {
            Err(ErrorModel::UnexpectedToken { expected: "end of input"@, found: describe(ts[q]), position: q })
        },
        Err(e) => Err(e),
    }
}

/// The value a JSON text denotes, or the first error in it.
pub open spec fn parse_text(s: Seq<u8>) -> Result<ValueModel, ErrorModel> {
    match tokenize_spec(s) {
        Ok(ts) => match parse_document(ts, 0) {
            Ok(v) => Ok(v),
            Err(e) => Err(located(e, token_starts(s, 0), s.len() as int)),
        },
        Err(e) => Err(e),
    }
}

/// The byte offset of token `p`: where it starts, or `end`, the length of
/// the input, when there is no such token.
pub open spec fn token_offset(starts: Seq<int>, end: int, p: int) -> int {
    if 0 <= p < starts.len() {
        starts[p]
    } else {
        end
    }
}

/// A parser error, its token index turned into a byte offset.
pub open spec fn located(e: ErrorModel, starts: Seq<int>, end: int) -> ErrorModel {
    match e {
        ErrorModel::UnexpectedToken { expected, found, position } => ErrorModel::UnexpectedToken {
            expected,
            found,
            position: token_offset(starts, end, position),
        },
        ErrorModel::UnexpectedEndOfInput { expected, position } => ErrorModel::UnexpectedEndOfInput {
            expected,
            position: token_offset(starts, end, position),
        },
        ErrorModel::InvalidNumber { value, position } => ErrorModel::InvalidNumber {
            value,
            position: token_offset(starts, end, position),
        },
        ErrorModel::UnterminatedString { position } => ErrorModel::UnterminatedString {
            position: token_offset(starts, end, position),
        },
        ErrorModel::InvalidEscape { character, position } => ErrorModel::InvalidEscape {
            character,
            position: token_offset(starts, end, position),
        },
        ErrorModel::InvalidUnicode { sequence, position } => ErrorModel::InvalidUnicode {
            sequence,
            position: token_offset(starts, end, position),
        },
    }
}

// ---------------------------------------------------------------------------
// Every successful parse consumes at least one token
// ---------------------------------------------------------------------------
pub proof fn lemma_parse_value_advances(ts: Seq<TokenModel>, p: int)
    ensures
        parse_value(ts, p) matches Ok((v, q)) ==> p < q <= ts.len(),
    decreases ts.len() - p, 0int,
{
    if 0 <= p < ts.len() {
        match ts[p] {
            TokenModel::LeftBracket => lemma_parse_array_advances(ts, p + 1),
            TokenModel::LeftBrace => lemma_parse_object_advances(ts, p + 1),
            _ => {},
        }
    }
}

pub proof fn lemma_parse_array_advances(ts: Seq<TokenModel>, p: int)
    ensures
        parse_array(ts, p) matches Ok((v, q)) ==> p < q <= ts.len(),
    decreases ts.len() - p, 1int,
{
    if 0 <= p < ts.len() && !(ts[p] is RightBracket) {
        lemma_parse_value_advances(ts, p);
        if let Ok((v, q)) = parse_value(ts, p) {
            if p < q <= ts.len() {
                lemma_array_rest_advances(ts, q, seq![v]);
            }
        }
    }
}

pub proof fn lemma_array_rest_advances(ts: Seq<TokenModel>, q: int, items: Seq<ValueModel>)
    ensures
        array_rest(ts, q, items) matches Ok((v, r)) ==> q < r <= ts.len(),
    decreases ts.len() - q, 2int,
{
    if 0 <= q < ts.len() && ts[q] is Comma {
        lemma_parse_value_advances(ts, q + 1);
        if let Ok((v, r)) = parse_value(ts, q + 1) {
            if q < r <= ts.len() {
                lemma_array_rest_advances(ts, r, items.push(v));
            }
        }
    }
}

pub proof fn lemma_parse_object_advances(ts: Seq<TokenModel>, p: int)
    ensures
        parse_object(ts, p) matches Ok((v, q)) ==> p < q <= ts.len(),
    decreases ts.len() - p, 1int,
{
    if 0 <= p < ts.len() {
        if let TokenModel::String(k) = ts[p] {
            lemma_parse_member_advances(ts, p + 1, k, seq![]);
        }
    }
}

pub proof fn lemma_parse_member_advances(
    ts: Seq<TokenModel>,
    q: int,
    key: Seq<char>,
    es: Seq<(Seq<char>, ValueModel)>,
)
    ensures
        parse_member(ts, q, key, es) matches Ok((v, r)) ==> q < r <= ts.len(),
    decreases ts.len() - q, 1int,
{
    if 0 <= q < ts.len() && ts[q] is Colon {
        lemma_parse_value_advances(ts, q + 1);
        if let Ok((v, r)) = parse_value(ts, q + 1) {
            if q < r <= ts.len() {
                lemma_object_rest_advances(ts, r, object_insert(es, key, v));
            }
        }
    }
}

pub proof fn lemma_object_rest_advances(ts: Seq<TokenModel>, r: int, es: Seq<(Seq<char>, ValueModel)>)
    ensures
        object_rest(ts, r, es) matches Ok((v, q)) ==> r < q <= ts.len(),
    decreases ts.len() - r, 2int,
{
    if 0 <= r < ts.len() && ts[r] is Comma && r + 1 < ts.len() {
        if let TokenModel::String(k) = ts[r + 1] {
            lemma_parse_member_advances(ts, r + 2, k, es);
        }
    }
}

/// The members of an object as they are written, from the key `key` whose
/// `:` is expected at token `q` on (as far as the object parses).
pub open spec fn members_from(ts: Seq<TokenModel>, q: int, key: Seq<char>) -> Seq<(Seq<char>, ValueModel)>
    decreases ts.len() - q, 1int,
{
    if q < 0 || q >= ts.len() {
        seq![]
    } else {
        match ts[q] {
            TokenModel::Colon => match parse_value(ts, q + 1) {
                Ok((v, r)) => if q < r <= ts.len() {
                    seq![(key, v)] + members_rest(ts, r)
                } else {
                    seq![]
                },
                Err(e) => seq![],
            },
            _ => seq![],
        }
    }
}

/// The members of an object as they are written, from token `r` on, which
/// follows a member.
pub open spec fn members_rest(ts: Seq<TokenModel>, r: int) -> Seq<(Seq<char>, ValueModel)>
    decreases ts.len() - r, 2int,
{
    if r < 0 || r + 1 >= ts.len() {
        seq![]
    } else {
        match (ts[r], ts[r + 1]) {
            (TokenModel::Comma, TokenModel::String(k)) => members_from(ts, r + 2, k),
            _ => seq![],
        }
    }
}

/// The members of the object whose `{` is just before token `p`, as they are
/// written, duplicates included.
pub open spec fn object_members(ts: Seq<TokenModel>, p: int) -> Seq<(Seq<char>, ValueModel)> {
    if 0 <= p < ts.len() {
        match ts[p] {
            TokenModel::String(k) => members_from(ts, p + 1, k),
            _ => seq![],
        }
    } else {
        seq![]
    }
}

/// A parsed object holds its members inserted one after another.
pub proof fn lemma_parse_member_inserts(
    ts: Seq<TokenModel>,
    q: int,
    key: Seq<char>,
    es: Seq<(Seq<char>, ValueModel)>,
)
    ensures
        parse_member(ts, q, key, es) matches Ok((v, r)) ==> v == ValueModel::Object(
            insert_all(es, members_from(ts, q, key)),
        ),
    decreases ts.len() - q, 1int,
{
    if 0 <= q < ts.len() && ts[q] is Colon {
        if let Ok((v, r)) = parse_value(ts, q + 1) {
            if q < r <= ts.len() {
                let ms = members_from(ts, q, key);
                assert(ms.drop_first() =~= members_rest(ts, r));
                lemma_object_rest_inserts(ts, r, object_insert(es, key, v));
            }
        }
    }
}

pub proof fn lemma_object_rest_inserts(ts: Seq<TokenModel>, r: int, es: Seq<(Seq<char>, ValueModel)>)
    ensures
        object_rest(ts, r, es) matches Ok((v, r2)) ==> v == ValueModel::Object(
            insert_all(es, members_rest(ts, r)),
        ),
    decreases ts.len() - r, 2int,
{
    if 0 <= r < ts.len() && ts[r] is Comma && r + 1 < ts.len() {
        if let TokenModel::String(k) = ts[r + 1] {
            lemma_parse_member_inserts(ts, r + 2, k, es);
        }
    }
}

// ---------------------------------------------------------------------------
// The parser
// ---------------------------------------------------------------------------
/// Whether a text holds a `.`.
fn has_dot(n: &str) -> (r: bool)
    ensures
        r == n@.contains('.'),
{
    for c in it: n.chars()
        invariant
            it.seq() == n@,
            forall|k: int| 0 <= k < it.index() ==> n@[k] != '.',
    {
        if c == '.' {
            assert(n@[it.index()] == '.');
            return true;
        }
    }
    false
}

/// The text of a number token in an error message: see `number_debug`.
fn number_debug_text(n: &str) -> (r: String)
    ensures
        r@ == number_debug(n@),
{
    let mut bytes: Vec<u8> = Vec::new();
    let mut plain = true;
    for c in it: n.chars()
        invariant
            it.seq() == n@,
            bytes@ == char_bytes(n@.take(it.index() as int)),
            plain == forall|k: int| 0 <= k < bytes@.len() ==> is_number_byte(#[trigger] bytes@[k]),
    {
        let b = c as u8;
        let ghost before = bytes@;
        let ghost was_plain = plain;
        plain = plain && number_byte(b);
        bytes.push(b);
        proof {
            if plain {
                assert forall|k: int| 0 <= k < bytes@.len() implies is_number_byte(#[trigger] bytes@[k]) by {
                    if k < before.len() {
                        assert(bytes@[k] == before[k]);
                    }
                }
            } else if was_plain {
                assert(!is_number_byte(bytes@[before.len() as int]));
            } else {
                let k = choose|k: int| 0 <= k < before.len() && !is_number_byte(#[trigger] before[k]);
                assert(bytes@[k] == before[k]);
            }
        }
        assert(char_bytes(n@.take(it.index() + 1)) =~= char_bytes(n@.take(it.index() as int)).push(b));
    }
    assert(n@.take(n@.len() as int) =~= n@);
    if plain && number_is_valid(bytes.as_slice()) {
        let canonical = canonical_number_text(bytes.as_slice());
        if same_text(canonical.as_str(), n) {
            return float_debug_text(bytes.as_slice());
        }
    }
    proof {
        if is_canonical_number(n@) {
            lemma_canonical_number_is_canonical(char_bytes(n@));
            assert forall|k: int| 0 <= k < bytes@.len() implies is_number_byte(#[trigger] bytes@[k]) by {
                assert(bytes@[k] == n@[k] as u8);
            }
        }
    }
    let mut out = String::new();
    push_str(&mut out, n);
    if !has_dot(n) {
        push_str(&mut out, ".0");
    }
    out
}

/// The `Debug` text of a token, for error messages.
fn describe_token(t: &Token) -> (r: String)
    ensures
        r@ == describe(t@),
{
    let mut out = String::new();
    match t {
        Token::LeftBrace => push_str(&mut out, "LeftBrace"),
        Token::RightBrace => push_str(&mut out, "RightBrace"),
        Token::LeftBracket => push_str(&mut out, "LeftBracket"),
        Token::RightBracket => push_str(&mut out, "RightBracket"),
        Token::Comma => push_str(&mut out, "Comma"),
        Token::Colon => push_str(&mut out, "Colon"),
        Token::String(s) => {
            push_str(&mut out, "String(");
            let d = debug_quoted(s.as_str());
            push_str(&mut out, d.as_str());
            push_str(&mut out, ")");
        },
        Token::Number(n) => {
            push_str(&mut out, "Number(");
            let shown = number_debug_text(n.as_str());
            push_str(&mut out, shown.as_str());
            push_str(&mut out, ")");
        },
        Token::Boolean(b) => if *b {
            push_str(&mut out, "Boolean(true)")
        } else {
            push_str(&mut out, "Boolean(false)")
        },
        Token::Null => push_str(&mut out, "Null"),
    }
    assert(out@ =~= describe(t@));
    out
}

/// A parser over the tokens of one input text.
pub struct JsonParser {
    tokens: Vec<Token>,
    starts: Vec<usize>,
    end: usize,
    position: usize,
}

impl JsonParser {
    #[verifier::type_invariant]
    spec fn inv(self) -> bool {
        &&& self.position <= self.tokens@.len()
        &&& numbers_canonical(tokens_model(self.tokens@))
    }

    /// The tokens being parsed.
    pub closed spec fn tokens(self) -> Seq<TokenModel> {
        tokens_model(self.tokens@)
    }

    /// Index of the next token.
    pub closed spec fn pos(self) -> int {
        self.position as int
    }

    /// The byte offset at which each token starts.
    pub closed spec fn starts(self) -> Seq<int> {
        offsets_model(self.starts@)
    }

    /// The length of the input in bytes.
    pub closed spec fn end(self) -> int {
        self.end as int
    }

    /// Scans `input`; the parser starts at its first token.
    pub fn new(input: &str) -> (r: Result<Self, JsonError>)
        ensures
            match tokenize_spec(input.spec_bytes()) {
                Ok(ts) => r matches Ok(p) && p.tokens() == ts && p.pos() == 0 && p.starts()
                    == token_starts(input.spec_bytes(), 0) && p.end() == input.spec_bytes().len(),
                Err(e) => r matches Err(x) && x@ == e,
            },
    {
        let end = input.as_bytes().len();
        let mut tokenizer = Tokenizer::new(input);
        proof {
            lemma_scanned_numbers_canonical(input.spec_bytes(), 0);
        }
        match tokenizer.scan() {
            Ok((tokens, starts)) => Ok(JsonParser { tokens, starts, end, position: 0 }),
            Err(e) => Err(e),
        }
    }

    /// The byte offset of token `p`.
    fn offset_of(&self, p: usize) -> (r: usize)
        ensures
            r == token_offset(self.starts(), self.end(), p as int),
    {
        if p < self.starts.len() {
            self.starts[p]
        } else {
            self.end
        }
    }

    /// The error `e`, its token index turned into a byte offset.
    fn locate(&self, e: JsonError) -> (r: JsonError)
        ensures
            r@ == located(e@, self.starts(), self.end()),
    {
        match e {
            JsonError::UnexpectedToken { expected, found, position } => JsonError::UnexpectedToken {
                expected,
                found,
                position: self.offset_of(position),
            },
            JsonError::UnexpectedEndOfInput { expected, position } => JsonError::UnexpectedEndOfInput {
                expected,
                position: self.offset_of(position),
            },
            JsonError::InvalidNumber { value, position } => JsonError::InvalidNumber {
                value,
                position: self.offset_of(position),
            },
            JsonError::UnterminatedString { position } => JsonError::UnterminatedString {
                position: self.offset_of(position),
            },
            JsonError::InvalidEscape { char, position } => JsonError::InvalidEscape {
                char,
                position: self.offset_of(position),
            },
            JsonError::InvalidUnicode { sequence, position } => JsonError::InvalidUnicode {
                sequence,
                position: self.offset_of(position),
            },
        }
    }

    fn is_at_end(&self) -> (r: bool)
        ensures
            r == (self.pos() >= self.tokens().len()),
    {
        self.position >= self.tokens.len()
    }

    fn advance(&mut self) -> (r: Option<Token>)
        ensures
            final(self).tokens() == old(self).tokens(),
            final(self).starts() == old(self).starts(),
            final(self).end() == old(self).end(),
            old(self).pos() < old(self).tokens().len() ==> (r matches Some(t) && t@ == old(
                self,
            ).tokens()[old(self).pos()] && final(self).pos() == old(self).pos() + 1),
            old(self).pos() >= old(self).tokens().len() ==> r is None && final(self).pos() == old(self).pos(),
    {
        proof {
            use_type_invariant(&*self);
        }
        let len = self.tokens.len();
        assert(self.tokens().len() == len);
        if self.is_at_end() {
            None
        } else {
            let token = self.tokens[self.position].clone();
            self.position = self.position + 1;
            Some(token)
        }
    }

    /// Parses one value that must end the input.
    pub fn parse(&mut self) -> (r: Result<JsonValue, JsonError>)
        ensures
            match parse_document(old(self).tokens(), old(self).pos()) {
                Ok(v) => r matches Ok(x) && x@ == v,
                Err(e) => r matches Err(x) && x@ == located(e, old(self).starts(), old(self).end()),
            },
    {
        match self.parse_whole() {
            Ok(v) => Ok(v),
            Err(e) => Err(self.locate(e)),
        }
    }

    /// Parses one value that must end the input; errors carry token indices.
    fn parse_whole(&mut self) -> (r: Result<JsonValue, JsonError>)
        ensures
            final(self).tokens() == old(self).tokens(),
            final(self).starts() == old(self).starts(),
            final(self).end() == old(self).end(),
            match parse_document(old(self).tokens(), old(self).pos()) {
                Ok(v) => r matches Ok(x) && x@ == v,
                Err(e) => r matches Err(x) && x@ == e,
            },
    {
        let value = match self.parse_value() {
            Ok(v) => v,
            Err(e) => return Err(e),
        };
        let position = self.position;
        match self.advance() {
            None => Ok(value),
            Some(token) => Err(
                JsonError::UnexpectedToken {
                    expected: String::from_str("end of input"),
                    found: describe_token(&token),
                    position,
                },
            ),
        }
    }

    fn parse_value(&mut self) -> (r: Result<JsonValue, JsonError>)
        ensures
            final(self).tokens() == old(self).tokens(),
            final(self).starts() == old(self).starts(),
            final(self).end() == old(self).end(),
            match parse_value(old(self).tokens(), old(self).pos()) {
                Ok((v, q)) => r matches Ok(x) && x@ == v && final(self).pos() == q,
                Err(e) => r matches Err(x) && x@ == e,
            },
        decreases old(self).tokens@.len() - old(self).position, 0int,
    {
        proof {
            use_type_invariant(&*self);
        }
        proof {
            lemma_scalar_models();
        }
        let position = self.position;
        match self.advance() {
            None => Err(
                JsonError::UnexpectedEndOfInput {
                    expected: String::from_str("JSON value"),
                    position,
                },
            ),
            Some(Token::Null) => Ok(JsonValue::Null),
            Some(Token::Boolean(b)) => Ok(JsonValue::Boolean(b)),
            Some(Token::Number(n)) => Ok(JsonValue::Number(JsonNumber::from_canonical(n))),
            Some(Token::String(s)) => Ok(JsonValue::String(s)),
            Some(Token::LeftBracket) => self.parse_array(),
            Some(Token::LeftBrace) => self.parse_object(),
            Some(token) => Err(
                JsonError::UnexpectedToken {
                    expected: String::from_str("null, boolean, number, string, array, or object"),
                    found: describe_token(&token),
                    position,
                },
            ),
        }
    }

    fn parse_array(&mut self) -> (r: Result<JsonValue, JsonError>)
        ensures
            final(self).tokens() == old(self).tokens(),
            final(self).starts() == old(self).starts(),
            final(self).end() == old(self).end(),
            match parse_array(old(self).tokens(), old(self).pos()) {
                Ok((v, q)) => r matches Ok(x) && x@ == v && final(self).pos() == q,
                Err(e) => r matches Err(x) && x@ == e,
            },
        decreases old(self).tokens@.len() - old(self).position, 1int,
    {
        proof {
            use_type_invariant(&*self);
        }
        let ghost ts = self.tokens();
        let ghost p = self.pos();
        let mut items: Vec<JsonValue> = Vec::with_capacity(4);
        match self.advance() {
            Some(Token::RightBracket) => {
                proof {
                    lemma_array_model(items);
                    assert(items@.map_values(|v: JsonValue| v@) =~= Seq::<ValueModel>::empty());
                }
                return Ok(JsonValue::Array(items));
            },
            Some(_) => {
                self.position = self.position - 1;
                match self.parse_value() {
                    Ok(v) => items.push(v),
                    Err(e) => return Err(e),
                }
            },
            None => {
                return Err(
                    JsonError::UnexpectedEndOfInput {
                        expected: String::from_str("array value or ']'"),
                        position: self.position,
                    },
                );
            },
        }
        proof {
            lemma_parse_value_advances(ts, p);
            assert(items@.map_values(|v: JsonValue| v@) =~= seq![items@[0]@]);
        }
        loop
            invariant
                self.tokens() == ts,
                ts == old(self).tokens(),
                self.starts() == old(self).starts(),
                self.end() == old(self).end(),
                p == old(self).pos(),
                p < self.pos() <= ts.len(),
                parse_array(ts, p) == array_rest(ts, self.pos(), items@.map_values(|v: JsonValue| v@)),
            decreases ts.len() - self.pos(),
        {
            let q = self.position;
            let ghost models = items@.map_values(|v: JsonValue| v@);
            match self.advance() {
                Some(Token::RightBracket) => {
                    proof {
                        lemma_array_model(items);
                    }
                    return Ok(JsonValue::Array(items));
                },
                Some(Token::Comma) => {
                    match self.parse_value() {
                        Ok(v) => {
                            proof {
                                lemma_parse_value_advances(ts, q + 1);
                            }
                            items.push(v);
                            proof {
                                assert(items@.map_values(|v: JsonValue| v@) =~= models.push(v@));
                            }
                        },
                        Err(e) => return Err(e),
                    }
                },
                Some(token) => {
                    return Err(
                        JsonError::UnexpectedToken {
                            expected: String::from_str("',' or ']'"),
                            found: describe_token(&token),
                            position: self.position - 1,
                        },
                    );
                },
                None => {
                    return Err(
                        JsonError::UnexpectedEndOfInput {
                            expected: String::from_str("',' or ']'"),
                            position: self.position,
                        },
                    );
                },
            }
        }
    }

    fn parse_object(&mut self) -> (r: Result<JsonValue, JsonError>)
        ensures
            final(self).tokens() == old(self).tokens(),
            final(self).starts() == old(self).starts(),
            final(self).end() == old(self).end(),
            match parse_object(old(self).tokens(), old(self).pos()) {
                Ok((v, q)) => r matches Ok(x) && x@ == v && final(self).pos() == q,
                Err(e) => r matches Err(x) && x@ == e,
            },
        decreases old(self).tokens@.len() - old(self).position, 1int,
    {
        proof {
            use_type_invariant(&*self);
        }
        let ghost ts = self.tokens();
        let ghost p = self.pos();
        let mut items = JsonObject::new();
        let first_key = match self.advance() {
            Some(Token::RightBrace) => {
                proof {
                    lemma_object_model(items);
                }
                return Ok(JsonValue::Object(items));
            },
            Some(Token::String(key)) => key,
            Some(token) => {
                return Err(
                    JsonError::UnexpectedToken {
                        expected: String::from_str("string key or '}'"),
                        found: describe_token(&token),
                        position: self.position - 1,
                    },
                );
            },
            None => {
                return Err(
                    JsonError::UnexpectedEndOfInput {
                        expected: String::from_str("string key"),
                        position: self.position,
                    },
                );
            },
        };
        match self.insert_pair(&mut items, first_key) {
            Ok(()) => {},
            Err(e) => return Err(e),
        }
        loop
            invariant
                self.tokens() == ts,
                ts == old(self).tokens(),
                self.starts() == old(self).starts(),
                self.end() == old(self).end(),
                p == old(self).pos(),
                p < self.pos() <= ts.len(),
                parse_object(ts, p) == object_rest(ts, self.pos(), items@),
            decreases ts.len() - self.pos(),
        {
            match self.advance() {
                Some(Token::RightBrace) => {
                    proof {
                        lemma_object_model(items);
                    }
                    return Ok(JsonValue::Object(items));
                },
                Some(Token::Comma) => {
                    let key = match self.advance() {
                        Some(Token::String(key)) => key,
                        Some(token) => {
                            return Err(
                                JsonError::UnexpectedToken {
                                    expected: String::from_str("string key"),
                                    found: describe_token(&token),
                                    position: self.position - 1,
                                },
                            );
                        },
                        None => {
                            return Err(
                                JsonError::UnexpectedEndOfInput {
                                    expected: String::from_str("string key"),
                                    position: self.position,
                                },
                            );
                        },
                    };
                    match self.insert_pair(&mut items, key) {
                        Ok(()) => {},
                        Err(e) => return Err(e),
                    }
                },
                Some(token) => {
                    return Err(
                        JsonError::UnexpectedToken {
                            expected: String::from_str("',' or '}'"),
                            found: describe_token(&token),
                            position: self.position - 1,
                        },
                    );
                },
                None => {
                    return Err(
                        JsonError::UnexpectedEndOfInput {
                            expected: String::from_str("',' or '}'"),
                            position: self.position,
                        },
                    );
                },
            }
        }
    }

    /// Reads `: value` and adds the member `key` to `map`.
    fn insert_pair(&mut self, map: &mut JsonObject, key: String) -> (r: Result<(), JsonError>)
        ensures
            final(self).tokens() == old(self).tokens(),
            final(self).starts() == old(self).starts(),
            final(self).end() == old(self).end(),
            match r {
                Ok(_) => old(self).pos() < final(self).pos() <= old(self).tokens().len() && parse_member(
                    old(self).tokens(),
                    old(self).pos(),
                    key@,
                    old(map)@,
                ) == object_rest(old(self).tokens(), final(self).pos(), final(map)@),
                Err(x) => parse_member(old(self).tokens(), old(self).pos(), key@, old(map)@) == Err::<
                    (ValueModel, int),
                    ErrorModel,
                >(x@) && final(map)@ == old(map)@,
            },
        decreases old(self).tokens@.len() - old(self).position, 1int,
    {
        proof {
            use_type_invariant(&*self);
        }
        let ghost ts = self.tokens();
        let ghost q = self.pos();
        match self.advance() {
            Some(Token::Colon) => {},
            Some(token) => {
                return Err(
                    JsonError::UnexpectedToken {
                        expected: String::from_str("':'"),
                        found: describe_token(&token),
                        position: self.position - 1,
                    },
                );
            },
            None => {
                return Err(
                    JsonError::UnexpectedEndOfInput {
                        expected: String::from_str("':'"),
                        position: self.position,
                    },
                );
            },
        }
        let value = match self.parse_value() {
            Ok(v) => v,
            Err(e) => return Err(e),
        };
        proof {
            lemma_parse_value_advances(ts, q + 1);
        }
        map.insert(key, value);
        Ok(())
    }
}

} // verus!
