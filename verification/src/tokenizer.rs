//! The scanner: UTF-8 bytes in, tokens out.
//!
//! Positions are byte offsets into the input.  The behaviour of the scanner is
//! stated by `tokens_from`, which reads the input from a position to its end,
//! one token at a time.
use crate::error::{ErrorModel, JsonError};
use crate::number::{
    canonical_number, canonical_number_text, is_digit, is_number_byte, number_is_valid,
    valid_number,
};
use crate::text::{
    ascii_chars, char_from_u32, encode_char, hex4, hex_digit, hex_value, push_ascii, push_char,
    push_hex4, slice_to_string,
};
use vstd::prelude::*;
use vstd::string::StringSliceAdditionalSpecFns;
use vstd::utf8::*;

verus! {

broadcast use vstd::utf8::group_utf8_lib;

/// A lexical token.  A number is kept as the canonical decimal text of its
/// literal (see the `number` module).
#[derive(Debug, PartialEq, Default)]
pub enum Token {
    LeftBrace,
    RightBrace,
    LeftBracket,
    RightBracket,
    Comma,
    Colon,
    String(String),
    Number(String),
    Boolean(bool),
    #[default]
    Null,
}

/// The mathematical content of a [`Token`].
pub enum TokenModel {
    LeftBrace,
    RightBrace,
    LeftBracket,
    RightBracket,
    Comma,
    Colon,
    String(Seq<char>),
    Number(Seq<char>),
    Boolean(bool),
    Null,
}

impl View for Token {
    type V = TokenModel;

    open spec fn view(&self) -> TokenModel {
        match self {
            Token::LeftBrace => TokenModel::LeftBrace,
            Token::RightBrace => TokenModel::RightBrace,
            Token::LeftBracket => TokenModel::LeftBracket,
            Token::RightBracket => TokenModel::RightBracket,
            Token::Comma => TokenModel::Comma,
            Token::Colon => TokenModel::Colon,
            Token::String(s) => TokenModel::String(s@),
            Token::Number(n) => TokenModel::Number(n@),
            Token::Boolean(b) => TokenModel::Boolean(*b),
            Token::Null => TokenModel::Null,
        }
    }
}

impl Clone for Token {
    fn clone(&self) -> (r: Self)
        ensures
            r == *self,
    {
        match self {
            Token::LeftBrace => Token::LeftBrace,
            Token::RightBrace => Token::RightBrace,
            Token::LeftBracket => Token::LeftBracket,
            Token::RightBracket => Token::RightBracket,
            Token::Comma => Token::Comma,
            Token::Colon => Token::Colon,
            Token::String(s) => Token::String(s.clone()),
            Token::Number(n) => Token::Number(n.clone()),
            Token::Boolean(b) => Token::Boolean(*b),
            Token::Null => Token::Null,
        }
    }
}

/// The models of a sequence of tokens.
pub open spec fn tokens_model(ts: Seq<Token>) -> Seq<TokenModel> {
    ts.map_values(|t: Token| t@)
}

// ---------------------------------------------------------------------------
// Specification of the scanner
// ---------------------------------------------------------------------------
/// The token that a one-byte punctuation mark stands for.
pub open spec fn char_token(b: u8) -> Option<TokenModel> {
    if b == 0x7b {
        Some(TokenModel::LeftBrace)
    } else if b == 0x7d {
        Some(TokenModel::RightBrace)
    } else if b == 0x5b {
        Some(TokenModel::LeftBracket)
    } else if b == 0x5d {
        Some(TokenModel::RightBracket)
    } else if b == 0x2c {
        Some(TokenModel::Comma)
    } else if b == 0x3a {
        Some(TokenModel::Colon)
    } else {
        None
    }
}

pub open spec fn is_whitespace(b: u8) -> bool {
    b == 0x20 || b == 0x0a || b == 0x0d || b == 0x09
}

pub open spec fn is_alpha(b: u8) -> bool {
    (0x61 <= b <= 0x7a) || (0x41 <= b <= 0x5a)
}

/// End of the longest run, starting at `i`, of bytes that satisfy `p`.
pub open spec fn run_end(s: Seq<u8>, i: int, p: spec_fn(u8) -> bool) -> int
    decreases s.len() - i,
{
    if 0 <= i < s.len() && p(s[i]) {
        run_end(s, i + 1, p)
    } else {
        i
    }
}

pub open spec fn number_class() -> spec_fn(u8) -> bool {
    |b: u8| is_number_byte(b)
}

pub open spec fn alpha_class() -> spec_fn(u8) -> bool {
    |b: u8| is_alpha(b)
}

/// The character that stands at byte `i`: the scalar that starts there, or
/// U+FFFD when `i` falls inside the encoding of a character.
pub open spec fn char_text_at(s: Seq<u8>, i: int) -> Seq<char> {
    if !(0 <= i < s.len()) {
        seq![]
    } else if is_continuation_byte(s[i]) {
        seq!['\u{FFFD}']
    } else {
        seq![decode_first_scalar(s.subrange(i, s.len() as int)) as char]
    }
}

/// The character that a one-letter escape stands for.
pub open spec fn simple_escape(b: u8) -> Option<char> {
    if b == 0x22 {
        Some('"')
    } else if b == 0x5c {
        Some('\\')
    } else if b == 0x2f {
        Some('/')
    } else if b == 0x62 {
        Some('\u{8}')
    } else if b == 0x66 {
        Some('\u{c}')
    } else if b == 0x6e {
        Some('\n')
    } else if b == 0x72 {
        Some('\r')
    } else if b == 0x74 {
        Some('\t')
    } else {
        None
    }
}

/// How many of the (at most `count`) bytes from `i` on are hexadecimal digits, counted up to the first that is not.
pub open spec fn hex_run(s: Seq<u8>, i: int, count: nat) -> nat
    decreases count,
{
    if count == 0 {
        0
    } else if 0 <= i < s.len() && hex_value(s[i]) is Some {
        1 + hex_run(s, i + 1, (count - 1) as nat)
    } else {
        0
    }
}

/// Value of a sequence of hexadecimal digits, most significant first.
pub open spec fn hex_number(s: Seq<u8>) -> nat
    decreases s.len(),
{
    if s.len() == 0 {
        0
    } else {
        hex_number(s.drop_last()) * 16 + (hex_value(s.last())->0) as nat
    }
}

/// Reads exactly `count` hexadecimal digits at `i`; on failure the error gives
/// the digits read so far and the position of the offending byte.
pub open spec fn read_hex(s: Seq<u8>, i: int, count: nat) -> Result<(u32, int), ErrorModel> {
    let k = hex_run(s, i, count);
    if k < count {
        Err(ErrorModel::InvalidUnicode { sequence: ascii_chars(s.subrange(i, i + k)), position: i + k })
    } else {
        Ok((hex_number(s.subrange(i, i + count)) as u32, i + count))
    }
}

pub open spec fn is_high_surrogate_spec(v: u32) -> bool {
    0xD800 <= v <= 0xDBFF
}

pub open spec fn is_low_surrogate_spec(v: u32) -> bool {
    0xDC00 <= v <= 0xDFFF
}

pub open spec fn combine_surrogates_spec(high: u32, low: u32) -> u32 {
    (0x10000 + (high - 0xD800) * 1024 + (low - 0xDC00)) as u32
}

/// Reads the `\uXXXX` low surrogate that must follow a high surrogate; `i` is
/// the position right after the high surrogate's digits.
pub open spec fn read_low_surrogate(s: Seq<u8>, i: int, high: u32) -> Result<(u32, int), ErrorModel> {
    let invalid = ErrorModel::InvalidUnicode { sequence: hex4(high as nat, true), position: i };
    if !(0 <= i < s.len() && s[i] == 0x5c) {
        Err(invalid)
    } else if !(i + 1 < s.len() && s[i + 1] == 0x75) {
        Err(invalid)
    } else {
        match read_hex(s, i + 2, 4) {
            Ok((low, j)) => if is_low_surrogate_spec(low) {
                Ok((low, j))
            } else {
                Err(invalid)
            },
            Err(e) => Err(e),
        }
    }
}

/// Reads a `\u` escape; `i` is the position of the `u`.
pub open spec fn read_unicode_escape(s: Seq<u8>, i: int) -> Result<(char, int), ErrorModel> {
    match read_hex(s, i + 1, 4) {
        Err(e) => Err(e),
        Ok((first, j)) => {
            let code: Result<(u32, int), ErrorModel> = if is_high_surrogate_spec(first) {
                match read_low_surrogate(s, j, first) {
                    Ok((low, k)) => Ok((combine_surrogates_spec(first, low), k)),
                    Err(e) => Err(e),
                }
            } else {
                Ok((first, j))
            };
            match code {
                Err(e) => Err(e),
                Ok((cp, k)) => if is_scalar(cp) {
                    Ok((cp as char, k))
                } else {
                    Err(ErrorModel::InvalidUnicode { sequence: hex4(cp as nat, true), position: k })
                },
            }
        },
    }
}

/// Reads a `\x` escape (two hexadecimal digits, read as a Latin-1 character);
/// `i` is the position of the `x`.
pub open spec fn read_hex_escape(s: Seq<u8>, i: int) -> Result<(char, int), ErrorModel> {
    match read_hex(s, i + 1, 2) {
        Ok((v, j)) => Ok(((v as u8) as char, j)),
        Err(e) => Err(e),
    }
}

/// Reads the escape whose letter is at `i` (just after the backslash) inside
/// the string that starts at `string_start`.
pub open spec fn read_escape(s: Seq<u8>, string_start: int, i: int) -> Result<(char, int), ErrorModel> {
    if !(0 <= i < s.len()) {
        Err(ErrorModel::UnterminatedString { position: string_start })
    } else {
        let b = s[i];
        match simple_escape(b) {
            Some(c) => Ok((c, i + 1)),
            None => if b == 0x75 {
                read_unicode_escape(s, i)
            } else if b == 0x78 {
                read_hex_escape(s, i)
            } else {
                Err(ErrorModel::InvalidEscape { character: b as char, position: i })
            },
        }
    }
}

/// First position at or after `i` holding a quote or a backslash, or the end.
pub open spec fn next_special(s: Seq<u8>, i: int) -> int
    decreases s.len() - i,
{
    if 0 <= i < s.len() && s[i] != 0x22 && s[i] != 0x5c {
        next_special(s, i + 1)
    } else {
        i
    }
}

/// The bytes of a string's content from `i` on, appended to `acc`, with each
/// escape replaced by the UTF-8 encoding of its character; and the position
/// after the closing quote.  `start` is the position of the opening quote.
#[verifier::opaque]
pub open spec fn string_bytes(s: Seq<u8>, start: int, i: int, acc: Seq<u8>) -> Result<
    (Seq<u8>, int),
    ErrorModel,
>
    decreases s.len() - i,
{
    let j = next_special(s, i);
    if i < 0 || j >= s.len() {
        Err(ErrorModel::UnterminatedString { position: start })
    } else if s[j] == 0x22 {
        Ok((acc + s.subrange(i, j), j + 1))
    } else {
        match read_escape(s, start, j + 1) {
            Ok((c, k)) => {
                proof {
                    lemma_next_special(s, i);
                    lemma_read_escape_advances(s, start, j + 1);
                }
                string_bytes(s, start, k, acc + s.subrange(i, j) + encode_scalar(c as u32))
            },
            Err(e) => Err(e),
        }
    }
}

/// Where the cursor stops when reading `count` hexadecimal digits at `i`:
/// after the digits read, which is also where a failure is reported.
pub open spec fn hex_stop(s: Seq<u8>, i: int, count: nat) -> int {
    i + hex_run(s, i, count)
}

/// Where the cursor stops when reading the low surrogate of a `\u` pair at `i`.
pub open spec fn low_surrogate_stop(s: Seq<u8>, i: int) -> int {
    if !(0 <= i < s.len() && s[i] == 0x5c) {
        i
    } else if !(i + 1 < s.len() && s[i + 1] == 0x75) {
        i + 1
    } else {
        hex_stop(s, i + 2, 4)
    }
}

/// Where the cursor stops when reading a `\u` escape whose `u` is at `i`.
pub open spec fn unicode_stop(s: Seq<u8>, i: int) -> int {
    match read_hex(s, i + 1, 4) {
        Err(e) => hex_stop(s, i + 1, 4),
        Ok((first, j)) => if is_high_surrogate_spec(first) {
            low_surrogate_stop(s, j)
        } else {
            j
        },
    }
}

/// Where the cursor stops when reading the escape whose letter is at `i`
/// fails: in place for a missing or unknown letter, else where the `\u` or
/// `\x` escape stopped.
pub open spec fn escape_stop(s: Seq<u8>, i: int) -> int {
    if !(0 <= i < s.len()) {
        i
    } else if s[i] == 0x75 {
        unicode_stop(s, i)
    } else if s[i] == 0x78 {
        hex_stop(s, i + 1, 2)
    } else {
        i
    }
}

/// Where the cursor stops when reading a string's content from `i` fails:
/// at the end of the input when the string is not closed, else where the
/// failing escape stopped.
#[verifier::opaque]
pub open spec fn string_stop(s: Seq<u8>, start: int, i: int) -> int
    decreases s.len() - i,
{
    let j = next_special(s, i);
    if i < 0 || j >= s.len() {
        s.len() as int
    } else if s[j] == 0x22 {
        j + 1
    } else {
        match read_escape(s, start, j + 1) {
            Ok((c, k)) => {
                proof {
                    lemma_next_special(s, i);
                    lemma_read_escape_advances(s, start, j + 1);
                }
                string_stop(s, start, k)
            },
            Err(e) => escape_stop(s, j + 1),
        }
    }
}

/// Reads the string literal whose opening quote is at `start`.
pub open spec fn lex_string(s: Seq<u8>, start: int) -> Result<(Seq<char>, int), ErrorModel> {
    match string_bytes(s, start, start + 1, seq![]) {
        Ok((b, j)) => Ok((decode_utf8(b), j)),
        Err(e) => Err(e),
    }
}

/// Reads the number literal that starts at `i`.
pub open spec fn lex_number(s: Seq<u8>, i: int) -> Result<(TokenModel, int), ErrorModel> {
    let j = run_end(s, i, number_class());
    let lexeme = s.subrange(i, j);
    if valid_number(lexeme) {
        Ok((TokenModel::Number(canonical_number(lexeme)), j))
    } else {
        Err(ErrorModel::InvalidNumber { value: ascii_chars(lexeme), position: i })
    }
}

/// Reads the keyword that starts at `i`.
pub open spec fn lex_literal(s: Seq<u8>, i: int) -> Result<(TokenModel, int), ErrorModel> {
    let j = run_end(s, i, alpha_class());
    let word = s.subrange(i, j);
    if word == seq![0x74u8, 0x72, 0x75, 0x65] {
        Ok((TokenModel::Boolean(true), j))
    } else if word == seq![0x66u8, 0x61, 0x6c, 0x73, 0x65] {
        Ok((TokenModel::Boolean(false), j))
    } else if word == seq![0x6eu8, 0x75, 0x6c, 0x6c] {
        Ok((TokenModel::Null, j))
    } else {
        Err(
            ErrorModel::UnexpectedToken {
                expected: "true, false, or null"@,
                found: ascii_chars(word),
                position: i,
            },
        )
    }
}

/// `r` with `prefix` put in front of its tokens.
pub open spec fn prefix_result(prefix: Seq<TokenModel>, r: Result<Seq<TokenModel>, ErrorModel>) -> Result<
    Seq<TokenModel>,
    ErrorModel,
> {
    match r {
        Ok(ts) => Ok(prefix + ts),
        Err(e) => Err(e),
    }
}

/// The tokens of the input from byte `i` to its end, or the first error.
#[verifier::opaque]
pub open spec fn tokens_from(s: Seq<u8>, i: int) -> Result<Seq<TokenModel>, ErrorModel>
    decreases s.len() - i,
{
    if i < 0 || i >= s.len() {
        Ok(seq![])
    } else {
        let b = s[i];
        match char_token(b) {
            Some(t) => prefix_result(seq![t], tokens_from(s, i + 1)),
            None => if b == 0x22 {
                match lex_string(s, i) {
                    Ok((v, j)) => {
                        proof {
                            lemma_lex_string_advances(s, i);
                        }
                        prefix_result(seq![TokenModel::String(v)], tokens_from(s, j))
                    },
                    Err(e) => Err(e),
                }
            } else if is_digit(b) || b == 0x2d {
                match lex_number(s, i) {
                    Ok((t, j)) => {
                        proof {
                            lemma_run_end(s, i, number_class());
                        }
                        prefix_result(seq![t], tokens_from(s, j))
                    },
                    Err(e) => Err(e),
                }
            } else if b == 0x74 || b == 0x66 || b == 0x6e {
                match lex_literal(s, i) {
                    Ok((t, j)) => {
                        proof {
                            lemma_run_end(s, i, alpha_class());
                        }
                        prefix_result(seq![t], tokens_from(s, j))
                    },
                    Err(e) => Err(e),
                }
            } else if is_whitespace(b) {
                tokens_from(s, i + 1)
            } else {
                Err(
                    ErrorModel::UnexpectedToken {
                        expected: "valid JSON token"@,
                        found: char_text_at(s, i),
                        position: i,
                    },
                )
            }
        }
    }
}

/// The tokens of a whole input.
pub open spec fn tokenize_spec(s: Seq<u8>) -> Result<Seq<TokenModel>, ErrorModel> {
    tokens_from(s, 0)
}

/// The byte offsets at which the tokens of the input from byte `i` on start
/// (meaningful when `tokens_from(s, i)` succeeds).
#[verifier::opaque]
pub open spec fn token_starts(s: Seq<u8>, i: int) -> Seq<int>
    decreases s.len() - i,
{
    if i < 0 || i >= s.len() {
        seq![]
    } else {
        let b = s[i];
        match char_token(b) {
            Some(t) => seq![i] + token_starts(s, i + 1),
            None => if b == 0x22 {
                match lex_string(s, i) {
                    Ok((v, j)) => {
                        proof {
                            lemma_lex_string_advances(s, i);
                        }
                        seq![i] + token_starts(s, j)
                    },
                    Err(e) => seq![],
                }
            } else if is_digit(b) || b == 0x2d {
                match lex_number(s, i) {
                    Ok((t, j)) => {
                        proof {
                            lemma_run_end(s, i, number_class());
                        }
                        seq![i] + token_starts(s, j)
                    },
                    Err(e) => seq![],
                }
            } else if b == 0x74 || b == 0x66 || b == 0x6e {
                match lex_literal(s, i) {
                    Ok((t, j)) => {
                        proof {
                            lemma_run_end(s, i, alpha_class());
                        }
                        seq![i] + token_starts(s, j)
                    },
                    Err(e) => seq![],
                }
            } else if is_whitespace(b) {
                token_starts(s, i + 1)
            } else {
                seq![]
            }
        }
    }
}

/// The offsets of a sequence of byte positions, as integers.
pub open spec fn offsets_model(v: Seq<usize>) -> Seq<int> {
    v.map_values(|x: usize| x as int)
}

// ---------------------------------------------------------------------------
// Facts about the specification
// ---------------------------------------------------------------------------
pub proof fn lemma_run_end(s: Seq<u8>, i: int, p: spec_fn(u8) -> bool)
    requires
        0 <= i <= s.len(),
    ensures
        i <= run_end(s, i, p) <= s.len(),
        forall|k: int| i <= k < run_end(s, i, p) ==> p(#[trigger] s[k]),
        run_end(s, i, p) < s.len() ==> !p(s[run_end(s, i, p)]),
        0 <= i < s.len() && p(s[i]) ==> run_end(s, i, p) > i,
    decreases s.len() - i,
{
    if 0 <= i < s.len() && p(s[i]) {
        lemma_run_end(s, i + 1, p);
    }
}

pub proof fn lemma_next_special(s: Seq<u8>, i: int)
    requires
        0 <= i,
    ensures
        i <= next_special(s, i),
        next_special(s, i) < s.len() ==> s[next_special(s, i)] == 0x22 || s[next_special(s, i)]
            == 0x5c,
        forall|k: int| i <= k < next_special(s, i) && k < s.len() ==> #[trigger] s[k] != 0x22 && s[k]
            != 0x5c,
        i <= s.len() ==> next_special(s, i) <= s.len(),
    decreases s.len() - i,
{
    if 0 <= i < s.len() && s[i] != 0x22 && s[i] != 0x5c {
        lemma_next_special(s, i + 1);
    }
}

pub proof fn lemma_hex_run(s: Seq<u8>, i: int, count: nat)
    requires
        0 <= i,
    ensures
        hex_run(s, i, count) <= count,
        hex_run(s, i, count) <= s.len() - i || hex_run(s, i, count) == 0,
        forall|k: int| i <= k < i + hex_run(s, i, count) ==> (#[trigger] hex_value(s[k])) is Some,
        hex_run(s, i, count) < count ==> !(0 <= i + hex_run(s, i, count) < s.len() && hex_value(
            s[i + hex_run(s, i, count)],
        ) is Some),
    decreases count,
{
    if count > 0 && 0 <= i < s.len() && hex_value(s[i]) is Some {
        lemma_hex_run(s, i + 1, (count - 1) as nat);
    }
}

pub proof fn lemma_read_hex(s: Seq<u8>, i: int, count: nat)
    requires
        0 <= i,
        count > 0,
    ensures
        read_hex(s, i, count) matches Ok((v, j)) ==> j == i + count && j <= s.len(),
{
    lemma_hex_run(s, i, count);
}

pub proof fn lemma_read_escape_advances(s: Seq<u8>, start: int, i: int)
    requires
        0 <= i,
    ensures
        read_escape(s, start, i) matches Ok((c, k)) ==> i < k <= s.len() && s[k - 1] <= 0x7f,
{
    lemma_hex_run(s, i + 1, 4);
    lemma_hex_run(s, i + 1, 2);
    if let Ok((first, j)) = read_hex(s, i + 1, 4) {
        lemma_hex_run(s, j + 2, 4);
        assert(hex_value(s[j - 1]) is Some);
        if let Ok((low, k)) = read_low_surrogate(s, j, first) {
            assert(hex_value(s[k - 1]) is Some);
        }
    }
    if let Ok((v, j)) = read_hex(s, i + 1, 2) {
        assert(hex_value(s[j - 1]) is Some);
    }
}

/// One step of `string_bytes`, at a position holding a quote, a backslash or the end.
pub proof fn lemma_string_bytes_special(s: Seq<u8>, start: int, i: int, acc: Seq<u8>)
    requires
        0 <= i <= s.len(),
        i == s.len() || s[i] == 0x22 || s[i] == 0x5c,
    ensures
        i == s.len() ==> string_bytes(s, start, i, acc) == Err::<(Seq<u8>, int), ErrorModel>(
            ErrorModel::UnterminatedString { position: start },
        ),
        i < s.len() && s[i] == 0x22 ==> string_bytes(s, start, i, acc) == Ok::<
            (Seq<u8>, int),
            ErrorModel,
        >((acc, i + 1)),
        i < s.len() && s[i] == 0x5c ==> string_bytes(s, start, i, acc) == match read_escape(
            s,
            start,
            i + 1,
        ) {
            Ok((c, k)) => string_bytes(s, start, k, acc + encode_scalar(c as u32)),
            Err(e) => Err(e),
        },
{
    reveal(string_bytes);
    assert(next_special(s, i) == i);
    assert(acc + s.subrange(i, i) =~= acc);
}

pub proof fn lemma_string_bytes_advances(s: Seq<u8>, start: int, i: int, acc: Seq<u8>)
    requires
        0 <= i,
    ensures
        string_bytes(s, start, i, acc) matches Ok((b, j)) ==> i < j <= s.len(),
    decreases s.len() - i,
{
    reveal(string_bytes);
    lemma_next_special(s, i);
    let j = next_special(s, i);
    if j < s.len() && s[j] != 0x22 {
        lemma_read_escape_advances(s, start, j + 1);
        if let Ok((c, k)) = read_escape(s, start, j + 1) {
            lemma_string_bytes_advances(s, start, k, acc + s.subrange(i, j) + encode_scalar(c as u32));
        }
    }
}

pub proof fn lemma_lex_string_advances(s: Seq<u8>, start: int)
    requires
        0 <= start,
    ensures
        lex_string(s, start) matches Ok((v, j)) ==> start < j <= s.len(),
{
    lemma_string_bytes_advances(s, start, start + 1, seq![]);
}

pub proof fn lemma_hex_run_prefix(s: Seq<u8>, i: int, count: nat, n: nat)
    requires
        0 <= i,
        n <= count,
        i + n <= s.len(),
        forall|k: int| i <= k < i + n ==> (#[trigger] hex_value(s[k])) is Some,
        n == count || !(i + n < s.len() && hex_value(s[i + n]) is Some),
    ensures
        hex_run(s, i, count) == n,
    decreases n,
{
    if n > 0 {
        lemma_hex_run_prefix(s, i + 1, (count - 1) as nat, (n - 1) as nat);
    }
}

pub proof fn lemma_next_special_skip(s: Seq<u8>, i: int, k: int)
    requires
        0 <= i <= k <= s.len(),
        forall|m: int| i <= m < k ==> #[trigger] s[m] != 0x22 && s[m] != 0x5c,
    ensures
        next_special(s, i) == next_special(s, k),
    decreases k - i,
{
    if i < k {
        lemma_next_special_skip(s, i + 1, k);
    }
}

/// Reading a plain content byte only moves it to the accumulated bytes.
pub proof fn lemma_string_bytes_step(s: Seq<u8>, start: int, i: int, acc: Seq<u8>)
    requires
        0 <= i < s.len(),
        s[i] != 0x22 && s[i] != 0x5c,
    ensures
        string_bytes(s, start, i, acc) == string_bytes(s, start, i + 1, acc.push(s[i])),
{
    reveal(string_bytes);
    let j = next_special(s, i);
    assert(j == next_special(s, i + 1));
    lemma_next_special(s, i + 1);
    assert(acc + s.subrange(i, j) =~= acc.push(s[i]) + s.subrange(i + 1, j));
}

/// Plain content bytes can be moved to the accumulated bytes all at once.
pub proof fn lemma_string_bytes_skip(s: Seq<u8>, start: int, i: int, k: int, acc: Seq<u8>)
    requires
        0 <= i <= k <= s.len(),
        forall|m: int| i <= m < k ==> #[trigger] s[m] != 0x22 && s[m] != 0x5c,
    ensures
        string_bytes(s, start, i, acc) == string_bytes(s, start, k, acc + s.subrange(i, k)),
    decreases k - i,
{
    if i < k {
        lemma_string_bytes_step(s, start, i, acc);
        lemma_string_bytes_skip(s, start, i + 1, k, acc.push(s[i]));
        assert(acc.push(s[i]) + s.subrange(i + 1, k) =~= acc + s.subrange(i, k));
    } else {
        assert(acc + s.subrange(i, k) =~= acc);
    }
}

/// One step of `string_stop`, at a position holding a quote, a backslash or the end.
pub proof fn lemma_string_stop_special(s: Seq<u8>, start: int, i: int)
    requires
        0 <= i <= s.len(),
        i == s.len() || s[i] == 0x22 || s[i] == 0x5c,
    ensures
        i == s.len() ==> string_stop(s, start, i) == s.len(),
        i < s.len() && s[i] == 0x5c ==> string_stop(s, start, i) == match read_escape(s, start, i + 1) {
            Ok((c, k)) => string_stop(s, start, k),
            Err(e) => escape_stop(s, i + 1),
        },
{
    reveal(string_stop);
    assert(next_special(s, i) == i);
}

/// Plain content bytes do not move where reading a string stops.
pub proof fn lemma_string_stop_skip(s: Seq<u8>, start: int, i: int, k: int)
    requires
        0 <= i <= k <= s.len(),
        forall|m: int| i <= m < k ==> #[trigger] s[m] != 0x22 && s[m] != 0x5c,
    ensures
        string_stop(s, start, i) == string_stop(s, start, k),
{
    reveal(string_stop);
    lemma_next_special_skip(s, i, k);
}

pub proof fn lemma_tokens_end(s: Seq<u8>, i: int)
    requires
        i == s.len(),
    ensures
        tokens_from(s, i) == Ok::<Seq<TokenModel>, ErrorModel>(seq![]),
{
    reveal(tokens_from);
}

pub proof fn lemma_tokens_single(s: Seq<u8>, i: int)
    requires
        0 <= i < s.len(),
        char_token(s[i]) is Some,
    ensures
        tokens_from(s, i) == prefix_result(seq![char_token(s[i])->0], tokens_from(s, i + 1)),
{
    reveal(tokens_from);
}

pub proof fn lemma_tokens_string(s: Seq<u8>, i: int)
    requires
        0 <= i < s.len(),
        s[i] == 0x22,
    ensures
        tokens_from(s, i) == match lex_string(s, i) {
            Ok((v, j)) => prefix_result(seq![TokenModel::String(v)], tokens_from(s, j)),
            Err(e) => Err(e),
        },
{
    reveal(tokens_from);
}

pub proof fn lemma_tokens_number(s: Seq<u8>, i: int)
    requires
        0 <= i < s.len(),
        is_digit(s[i]) || s[i] == 0x2d,
    ensures
        tokens_from(s, i) == match lex_number(s, i) {
            Ok((t, j)) => prefix_result(seq![t], tokens_from(s, j)),
            Err(e) => Err(e),
        },
{
    reveal(tokens_from);
}

pub proof fn lemma_tokens_literal(s: Seq<u8>, i: int)
    requires
        0 <= i < s.len(),
        s[i] == 0x74 || s[i] == 0x66 || s[i] == 0x6e,
    ensures
        tokens_from(s, i) == match lex_literal(s, i) {
            Ok((t, j)) => prefix_result(seq![t], tokens_from(s, j)),
            Err(e) => Err(e),
        },
{
    reveal(tokens_from);
}

pub proof fn lemma_tokens_whitespace(s: Seq<u8>, i: int)
    requires
        0 <= i < s.len(),
        is_whitespace(s[i]),
    ensures
        tokens_from(s, i) == tokens_from(s, i + 1),
{
    reveal(tokens_from);
}

pub proof fn lemma_tokens_other(s: Seq<u8>, i: int)
    requires
        0 <= i < s.len(),
        char_token(s[i]) is None,
        s[i] != 0x22,
        !(is_digit(s[i]) || s[i] == 0x2d),
        !(s[i] == 0x74 || s[i] == 0x66 || s[i] == 0x6e),
        !is_whitespace(s[i]),
    ensures
        tokens_from(s, i) == Err::<Seq<TokenModel>, ErrorModel>(
            ErrorModel::UnexpectedToken {
                expected: "valid JSON token"@,
                found: char_text_at(s, i),
                position: i,
            },
        ),
{
    reveal(tokens_from);
}

pub proof fn lemma_prefix_compose(a: Seq<TokenModel>, b: Seq<TokenModel>, r: Result<Seq<TokenModel>, ErrorModel>)
    ensures
        prefix_result(a, prefix_result(b, r)) == prefix_result(a + b, r),
{
    if let Ok(ts) = r {
        assert(a + (b + ts) =~= (a + b) + ts);
    }
}

proof fn lemma_tokens_model_push(ts: Seq<Token>, t: Token)
    ensures
        tokens_model(ts.push(t)) == tokens_model(ts) + seq![t@],
{
    assert(tokens_model(ts.push(t)) =~= tokens_model(ts) + seq![t@]);
}

// ---------------------------------------------------------------------------
// The scanner
// ---------------------------------------------------------------------------
/// A cursor over the UTF-8 bytes of an input text.
pub struct Tokenizer<'a> {
    input: &'a [u8],
    position: usize,
}

fn single_char_token(byte: u8) -> (r: Option<Token>)
    ensures
        match char_token(byte) {
            Some(t) => r matches Some(x) && x@ == t,
            None => r is None,
        },
{
    if byte == 0x7b {
        Some(Token::LeftBrace)
    } else if byte == 0x7d {
        Some(Token::RightBrace)
    } else if byte == 0x5b {
        Some(Token::LeftBracket)
    } else if byte == 0x5d {
        Some(Token::RightBracket)
    } else if byte == 0x2c {
        Some(Token::Comma)
    } else if byte == 0x3a {
        Some(Token::Colon)
    } else {
        None
    }
}

/// The character at `position`, as a string (empty at the end of the input):
/// see `char_text_at`.
pub(crate) fn char_at(bytes: &[u8], position: usize) -> (r: String)
    requires
        valid_utf8(bytes@),
        position <= bytes@.len(),
    ensures
        r@ == char_text_at(bytes@, position as int),
{
    if position == bytes.len() {
        return String::new();
    }
    let b = bytes[position];
    if 0x80 <= b && b <= 0xbf {
        let mut r = String::new();
        push_char(&mut r, '\u{FFFD}');
        return r;
    }
    let ghost t = bytes@.subrange(position as int, bytes@.len() as int);
    proof {
        is_char_boundary_iff_not_is_continuation_byte(bytes@, position as int);
        valid_utf8_split(bytes@, position as int);
        assert(t[0] == b);
        crate::text::lemma_first_scalar_window(t);
    }
    let width: usize = if b <= 0x7f {
        1
    } else if b <= 0xdf {
        2
    } else if b <= 0xef {
        3
    } else {
        4
    };
    assert(width == length_of_first_scalar(t));
    assert(bytes@.subrange(position as int, position + width) =~= t.take(width as int));
    slice_to_string(&bytes[position..position + width])
}

pub(crate) fn number_byte(b: u8) -> (r: bool)
    ensures
        r == is_number_byte(b),
{
    (0x30 <= b && b <= 0x39) || b == 0x2e || b == 0x2d || b == 0x2b || b == 0x65 || b == 0x45
}

fn alpha_byte(b: u8) -> (r: bool)
    ensures
        r == is_alpha(b),
{
    (0x61 <= b && b <= 0x7a) || (0x41 <= b && b <= 0x5a)
}

fn is_high_surrogate(code_point: u32) -> (r: bool)
    ensures
        r == is_high_surrogate_spec(code_point),
{
    0xD800 <= code_point && code_point <= 0xDBFF
}

fn is_low_surrogate(code_point: u32) -> (r: bool)
    ensures
        r == is_low_surrogate_spec(code_point),
{
    0xDC00 <= code_point && code_point <= 0xDFFF
}

fn combine_surrogates(high: u32, low: u32) -> (r: u32)
    requires
        is_high_surrogate_spec(high),
        is_low_surrogate_spec(low),
    ensures
        r == combine_surrogates_spec(high, low),
        0x10000 <= r <= 0x10FFFF,
{
    let h = high - 0xD800;
    assert(h < 1024 ==> (h << 10) == h * 1024) by (bit_vector);
    0x10000 + (h << 10) + (low - 0xDC00)
}

impl<'a> Tokenizer<'a> {
    #[verifier::type_invariant]
    spec fn inv(self) -> bool {
        &&& self.position <= self.input@.len()
        &&& valid_utf8(self.input@)
    }

    /// The input bytes.
    pub closed spec fn bytes(self) -> Seq<u8> {
        self.input@
    }

    /// The current byte offset.
    pub closed spec fn pos(self) -> int {
        self.position as int
    }

    pub fn new(input: &'a str) -> (r: Self)
        ensures
            r.bytes() == input.spec_bytes(),
            r.pos() == 0,
    {
        Self { input: input.as_bytes(), position: 0 }
    }

    /// The current byte offset.
    pub fn position(&self) -> (r: usize)
        ensures
            r == self.pos(),
    {
        self.position
    }

    /// The byte at the current position, if any.
    pub fn peek(&self) -> (r: Option<u8>)
        ensures
            0 <= self.pos() < self.bytes().len() ==> r == Some(self.bytes()[self.pos()]),
            !(0 <= self.pos() < self.bytes().len()) ==> r is None,
    {
        if self.position < self.input.len() {
            Some(self.input[self.position])
        } else {
            None
        }
    }

    /// Consumes and returns the byte at the current position, if any.
    pub fn advance(&mut self) -> (r: Option<u8>)
        ensures
            final(self).bytes() == old(self).bytes(),
            0 <= old(self).pos() < old(self).bytes().len() ==> r == Some(
                old(self).bytes()[old(self).pos()],
            ) && final(self).pos() == old(self).pos() + 1,
            !(0 <= old(self).pos() < old(self).bytes().len()) ==> r is None && final(self).pos()
                == old(self).pos(),
    {
        proof {
            use_type_invariant(&*self);
        }
        if self.position < self.input.len() {
            let byte = self.input[self.position];
            self.position = self.position + 1;
            Some(byte)
        } else {
            None
        }
    }

    /// Scans the input from the current position to its end.
    pub fn tokenize(&mut self) -> (r: Result<Vec<Token>, JsonError>)
        ensures
            final(self).bytes() == old(self).bytes(),
            match tokens_from(old(self).bytes(), old(self).pos()) {
                Ok(ts) => r matches Ok(v) && tokens_model(v@) == ts && final(self).pos() == final(self).bytes().len(),
                Err(e) => r matches Err(x) && x@ == e,
            },
    {
        match self.scan() {
            Ok((tokens, _starts)) => Ok(tokens),
            Err(e) => Err(e),
        }
    }

    /// Scans the input from the current position to its end, and gives the
    /// byte offset at which each token starts.
    pub(crate) fn scan(&mut self) -> (r: Result<(Vec<Token>, Vec<usize>), JsonError>)
        ensures
            final(self).bytes() == old(self).bytes(),
            match tokens_from(old(self).bytes(), old(self).pos()) {
                Ok(ts) => r matches Ok((v, st)) && tokens_model(v@) == ts && offsets_model(st@)
                    == token_starts(old(self).bytes(), old(self).pos()) && final(self).pos() == final(self).bytes().len(),
                Err(e) => r matches Err(x) && x@ == e,
            },
    {
        proof {
            use_type_invariant(&*self);
        }
        let ghost s = self.input@;
        let ghost p0 = self.position as int;
        let mut tokens: Vec<Token> = Vec::with_capacity(self.input.len() / 4);
        let mut starts: Vec<usize> = Vec::with_capacity(self.input.len() / 4);
        loop
            invariant
                self.input@ == s,
                s == old(self).bytes(),
                p0 == old(self).pos(),
                self.position <= s.len(),
                valid_utf8(s),
                tokens_from(s, p0) == prefix_result(tokens_model(tokens@), tokens_from(s, self.position as int)),
                token_starts(s, p0) == offsets_model(starts@) + token_starts(s, self.position as int),
            ensures
                self.input@ == s,
                self.position == s.len(),
                tokens_from(s, p0) == prefix_result(tokens_model(tokens@), tokens_from(s, self.position as int)),
                token_starts(s, p0) == offsets_model(starts@) + token_starts(s, self.position as int),
            decreases s.len() - self.position,
        {
            let ch = match self.peek() {
                Some(ch) => ch,
                None => break,
            };
            let ghost i = self.position as int;
            let ghost before = tokens@;
            let ghost starts_before = starts@;
            let i_exec = self.position;
            proof {
                reveal(token_starts);
            }
            match single_char_token(ch) {
                Some(token) => {
                    tokens.push(token);
                    starts.push(self.position);
                    self.advance();
                    proof {
                        assert(offsets_model(starts@) =~= offsets_model(starts_before) + seq![i]);
                        lemma_tokens_single(s, i);
                        lemma_tokens_model_push(before, token);
                        lemma_prefix_compose(tokens_model(before), seq![token@], tokens_from(s, i + 1));
                    }
                    continue ;
                },
                None => {},
            }
            if ch == 0x22 {
                proof {
                    lemma_tokens_string(s, i);
                    lemma_lex_string_advances(s, i);
                }
                match self.read_string() {
                    Ok(value) => {
                        let token = Token::String(value);
                        tokens.push(token);
                        starts.push(i_exec);
                        proof {
                            assert(offsets_model(starts@) =~= offsets_model(starts_before) + seq![i]);
                            lemma_tokens_model_push(before, token);
                            lemma_prefix_compose(tokens_model(before), seq![token@], tokens_from(s, self.position as int));
                        }
                    },
                    Err(e) => return Err(e),
                }
            } else if (0x30 <= ch && ch <= 0x39) || ch == 0x2d {
                proof {
                    lemma_tokens_number(s, i);
                    lemma_run_end(s, i, number_class());
                }
                match self.read_number() {
                    Ok(token) => {
                        tokens.push(token);
                        starts.push(i_exec);
                        proof {
                            assert(offsets_model(starts@) =~= offsets_model(starts_before) + seq![i]);
                            lemma_tokens_model_push(before, token);
                            lemma_prefix_compose(tokens_model(before), seq![token@], tokens_from(s, self.position as int));
                        }
                    },
                    Err(e) => return Err(e),
                }
            } else if ch == 0x74 || ch == 0x66 || ch == 0x6e {
                proof {
                    lemma_tokens_literal(s, i);
                    lemma_run_end(s, i, alpha_class());
                }
                match self.read_literal() {
                    Ok(token) => {
                        tokens.push(token);
                        starts.push(i_exec);
                        proof {
                            assert(offsets_model(starts@) =~= offsets_model(starts_before) + seq![i]);
                            lemma_tokens_model_push(before, token);
                            lemma_prefix_compose(tokens_model(before), seq![token@], tokens_from(s, self.position as int));
                        }
                    },
                    Err(e) => return Err(e),
                }
            } else if ch == 0x20 || ch == 0x0a || ch == 0x0d || ch == 0x09 {
                proof {
                    lemma_tokens_whitespace(s, i);
                }
                self.advance();
            } else {
                proof {
                    lemma_tokens_other(s, i);
                }
                let found = char_at(self.input, self.position);
                return Err(
                    JsonError::UnexpectedToken {
                        expected: String::from_str("valid JSON token"),
                        found,
                        position: self.position,
                    },
                );
            }
        }
        proof {
            lemma_tokens_end(s, self.position as int);
            reveal(token_starts);
        }
        assert(tokens_model(tokens@) + Seq::<TokenModel>::empty() =~= tokens_model(tokens@));
        assert(offsets_model(starts@) + Seq::<int>::empty() =~= offsets_model(starts@));
        Ok((tokens, starts))
    }

    /// Consumes the longest run of bytes that satisfy `predicate` (whose
    /// meaning is `p`) and returns it.
    pub(crate) fn take_while(&mut self, predicate: impl Fn(u8) -> bool, Ghost(p): Ghost<spec_fn(u8) -> bool>) -> (r: &'a [u8])
        requires
            forall|b: u8| #[trigger] predicate.requires((b,)),
            forall|b: u8, x: bool| predicate.ensures((b,), x) ==> x == p(b),
        ensures
            final(self).bytes() == old(self).bytes(),
            final(self).pos() == run_end(old(self).bytes(), old(self).pos(), p),
            old(self).pos() <= final(self).pos() <= old(self).bytes().len(),
            forall|k: int| old(self).pos() <= k < final(self).pos() ==> p(#[trigger] old(self).bytes()[k]),
            final(self).pos() < old(self).bytes().len() ==> !p(old(self).bytes()[final(self).pos()]),
            r@ == old(self).bytes().subrange(old(self).pos(), final(self).pos()),
    {
        proof {
            use_type_invariant(&*self);
        }
        let ghost s = self.input@;
        let start = self.position;
        loop
            invariant
                self.input@ == s,
                start <= self.position <= s.len(),
                run_end(s, start as int, p) == run_end(s, self.position as int, p),
                forall|b: u8| #[trigger] predicate.requires((b,)),
                forall|b: u8, x: bool| predicate.ensures((b,), x) ==> x == p(b),
            ensures
                self.input@ == s,
                start <= self.position <= s.len(),
                run_end(s, start as int, p) == self.position,
            decreases s.len() - self.position,
        {
            let next = match self.peek() {
                Some(b) => predicate(b),
                None => false,
            };
            if !next {
                break;
            }
            self.advance();
        }
        proof {
            lemma_run_end(s, start as int, p);
        }
        let input = self.input;
        &input[start..self.position]
    }

    /// Reads the number literal at the current position.
    pub(crate) fn read_number(&mut self) -> (r: Result<Token, JsonError>)
        requires
            old(self).pos() < old(self).bytes().len(),
        ensures
            final(self).bytes() == old(self).bytes(),
            final(self).pos() == run_end(old(self).bytes(), old(self).pos(), number_class()),
            match lex_number(old(self).bytes(), old(self).pos()) {
                Ok((t, j)) => r matches Ok(x) && x@ == t && final(self).pos() == j,
                Err(e) => r matches Err(x) && x@ == e,
            },
    {
        let ghost s = self.bytes();
        let start = self.position;
        let number_bytes = self.take_while(
            number_byte,
            Ghost(number_class()),
        );
        proof {
            lemma_run_end(s, start as int, number_class());
        }
        if number_is_valid(number_bytes) {
            Ok(Token::Number(canonical_number_text(number_bytes)))
        } else {
            proof {
                crate::text::lemma_ascii_decode(number_bytes@);
            }
            Err(JsonError::InvalidNumber { value: slice_to_string(number_bytes), position: start })
        }
    }

    /// Reads the keyword at the current position.
    pub(crate) fn read_literal(&mut self) -> (r: Result<Token, JsonError>)
        requires
            old(self).pos() < old(self).bytes().len(),
        ensures
            final(self).bytes() == old(self).bytes(),
            final(self).pos() == run_end(old(self).bytes(), old(self).pos(), alpha_class()),
            match lex_literal(old(self).bytes(), old(self).pos()) {
                Ok((t, j)) => r matches Ok(x) && x@ == t && final(self).pos() == j,
                Err(e) => r matches Err(x) && x@ == e,
            },
    {
        let ghost s = self.bytes();
        let start = self.position;
        let word = self.take_while(
            alpha_byte,
            Ghost(alpha_class()),
        );
        proof {
            lemma_run_end(s, start as int, alpha_class());
        }
        if word.len() == 4 && word[0] == 0x74 && word[1] == 0x72 && word[2] == 0x75 && word[3] == 0x65 {
            assert(word@ =~= seq![0x74u8, 0x72, 0x75, 0x65]);
            Ok(Token::Boolean(true))
        } else if word.len() == 5 && word[0] == 0x66 && word[1] == 0x61 && word[2] == 0x6c
            && word[3] == 0x73 && word[4] == 0x65 {
            assert(word@ =~= seq![0x66u8, 0x61, 0x6c, 0x73, 0x65]);
            Ok(Token::Boolean(false))
        } else if word.len() == 4 && word[0] == 0x6e && word[1] == 0x75 && word[2] == 0x6c && word[3] == 0x6c {
            assert(word@ =~= seq![0x6eu8, 0x75, 0x6c, 0x6c]);
            Ok(Token::Null)
        } else {
            proof {
                crate::text::lemma_ascii_decode(word@);
                assert(word@ != seq![0x74u8, 0x72, 0x75, 0x65]);
                assert(word@ != seq![0x66u8, 0x61, 0x6c, 0x73, 0x65]);
                assert(word@ != seq![0x6eu8, 0x75, 0x6c, 0x6c]);
            }
            Err(
                JsonError::UnexpectedToken {
                    expected: String::from_str("true, false, or null"),
                    found: slice_to_string(word),
                    position: start,
                },
            )
        }
    }

    /// Reads `count` hexadecimal digits.
    pub(crate) fn read_hex_digits(&mut self, count: usize) -> (r: Result<u32, JsonError>)
        requires
            count <= 8,
        ensures
            final(self).bytes() == old(self).bytes(),
            final(self).pos() == hex_stop(old(self).bytes(), old(self).pos(), count as nat),
            match read_hex(old(self).bytes(), old(self).pos(), count as nat) {
                Ok((v, j)) => r == Ok::<u32, JsonError>(v) && final(self).pos() == j,
                Err(e) => r matches Err(x) && x@ == e,
            },
    {
        proof {
            use_type_invariant(&*self);
        }
        let ghost s = self.input@;
        let start = self.position;
        let mut value: u32 = 0;
        let mut n: usize = 0;
        while n < count
            invariant
                self.input@ == s,
                s == old(self).bytes(),
                start == old(self).pos(),
                self.position == start + n,
                self.position <= s.len(),
                n <= count <= 8,
                forall|k: int| start <= k < start + n ==> (#[trigger] hex_value(s[k])) is Some,
                value as nat == hex_number(s.subrange(start as int, start + n)),
                value < pow16(n as nat),
            decreases count - n,
        {
            let digit = match self.peek() {
                Some(b) => hex_digit(b),
                None => None,
            };
            match digit {
                None => {
                    proof {
                        lemma_hex_run_prefix(s, start as int, count as nat, n as nat);
                        let sub = s.subrange(start as int, start + n);
                        assert forall|k: int| 0 <= k < sub.len() implies #[trigger] sub[k] <= 0x7f by {
                            assert(sub[k] == s[start + k]);
                            assert(hex_value(s[start + k]) is Some);
                        }
                        crate::text::lemma_ascii_decode(sub);
                    }
                    let input = self.input;
                    return Err(
                        JsonError::InvalidUnicode {
                            sequence: slice_to_string(&input[start..self.position]),
                            position: self.position,
                        },
                    );
                },
                Some(d) => {
                    proof {
                        lemma_pow16(n as nat);
                        assert(s.subrange(start as int, start + n + 1).drop_last() =~= s.subrange(
                            start as int,
                            start + n,
                        ));
                    }
                    value = value * 16 + d;
                    self.advance();
                    n = n + 1;
                },
            }
        }
        proof {
            lemma_hex_run_prefix(s, start as int, count as nat, count as nat);
        }
        Ok(value)
    }

    /// Reads a `\u` escape; the current byte is the `u`.
    pub(crate) fn parse_unicode_escape(&mut self) -> (r: Result<char, JsonError>)
        requires
            old(self).pos() < old(self).bytes().len(),
        ensures
            final(self).bytes() == old(self).bytes(),
            final(self).pos() == unicode_stop(old(self).bytes(), old(self).pos()),
            match read_unicode_escape(old(self).bytes(), old(self).pos()) {
                Ok((c, j)) => r == Ok::<char, JsonError>(c) && final(self).pos() == j,
                Err(e) => r matches Err(x) && x@ == e,
            },
    {
        self.advance();
        let first = match self.read_hex_digits(4) {
            Ok(v) => v,
            Err(e) => return Err(e),
        };
        let code_point = if is_high_surrogate(first) {
            let low = match self.parse_low_surrogate(first) {
                Ok(v) => v,
                Err(e) => return Err(e),
            };
            combine_surrogates(first, low)
        } else {
            first
        };
        match char_from_u32(code_point) {
            Some(c) => {
                proof {
                    vstd::utf8::char_u32_cast(c, code_point);
                }
                Ok(c)
            },
            None => {
                let mut sequence = String::new();
                push_hex4(&mut sequence, code_point, true);
                Err(JsonError::InvalidUnicode { sequence, position: self.position })
            },
        }
    }

    /// Reads the `\uXXXX` low surrogate that must follow the high surrogate `high`.
    pub(crate) fn parse_low_surrogate(&mut self, high: u32) -> (r: Result<u32, JsonError>)
        ensures
            final(self).bytes() == old(self).bytes(),
            final(self).pos() == low_surrogate_stop(old(self).bytes(), old(self).pos()),
            match read_low_surrogate(old(self).bytes(), old(self).pos(), high) {
                Ok((v, j)) => r == Ok::<u32, JsonError>(v) && final(self).pos() == j,
                Err(e) => r matches Err(x) && x@ == e,
            },
    {
        let position = self.position;
        if self.peek() != Some(0x5cu8) {
            let mut sequence = String::new();
            push_hex4(&mut sequence, high, true);
            return Err(JsonError::InvalidUnicode { sequence, position });
        }
        self.advance();
        if self.peek() != Some(0x75u8) {
            let mut sequence = String::new();
            push_hex4(&mut sequence, high, true);
            return Err(JsonError::InvalidUnicode { sequence, position });
        }
        self.advance();
        let low = match self.read_hex_digits(4) {
            Ok(v) => v,
            Err(e) => return Err(e),
        };
        if is_low_surrogate(low) {
            Ok(low)
        } else {
            let mut sequence = String::new();
            push_hex4(&mut sequence, high, true);
            Err(JsonError::InvalidUnicode { sequence, position })
        }
    }

    /// Reads a `\x` escape; the current byte is the `x`.
    pub(crate) fn parse_hex_escape(&mut self) -> (r: Result<char, JsonError>)
        requires
            old(self).pos() < old(self).bytes().len(),
        ensures
            final(self).bytes() == old(self).bytes(),
            final(self).pos() == hex_stop(old(self).bytes(), old(self).pos() + 1, 2),
            match read_hex_escape(old(self).bytes(), old(self).pos()) {
                Ok((c, j)) => r == Ok::<char, JsonError>(c) && final(self).pos() == j,
                Err(e) => r matches Err(x) && x@ == e,
            },
    {
        self.advance();
        let byte = match self.read_hex_digits(2) {
            Ok(v) => v,
            Err(e) => return Err(e),
        };
        Ok((byte as u8) as char)
    }

    /// Reads the escape whose letter is at the current position.
    pub(crate) fn read_escape(&mut self, string_start: usize) -> (r: Result<char, JsonError>)
        ensures
            final(self).bytes() == old(self).bytes(),
            r is Err ==> final(self).pos() == escape_stop(old(self).bytes(), old(self).pos()),
            match read_escape(old(self).bytes(), string_start as int, old(self).pos()) {
                Ok((c, j)) => r == Ok::<char, JsonError>(c) && final(self).pos() == j,
                Err(e) => r matches Err(x) && x@ == e,
            },
    {
        let ch = match self.peek() {
            Some(ch) => ch,
            None => return Err(JsonError::UnterminatedString { position: string_start }),
        };
        let escaped = if ch == 0x22 {
            '"'
        } else if ch == 0x5c {
            '\\'
        } else if ch == 0x2f {
            '/'
        } else if ch == 0x62 {
            '\u{8}'
        } else if ch == 0x66 {
            '\u{c}'
        } else if ch == 0x6e {
            '\n'
        } else if ch == 0x72 {
            '\r'
        } else if ch == 0x74 {
            '\t'
        } else if ch == 0x75 {
            return self.parse_unicode_escape();
        } else if ch == 0x78 {
            return self.parse_hex_escape();
        } else {
            return Err(JsonError::InvalidEscape { char: ch as char, position: self.position });
        };
        self.advance();
        Ok(escaped)
    }

    /// Reads the string literal whose opening quote is at the current position.
    pub(crate) fn read_string(&mut self) -> (r: Result<String, JsonError>)
        requires
            old(self).pos() < old(self).bytes().len(),
            old(self).bytes()[old(self).pos()] == 0x22,
        ensures
            final(self).bytes() == old(self).bytes(),
            r is Err ==> final(self).pos() == string_stop(old(self).bytes(), old(self).pos(), old(self).pos() + 1),
            match lex_string(old(self).bytes(), old(self).pos()) {
                Ok((v, j)) => r matches Ok(x) && x@ == v && final(self).pos() == j,
                Err(e) => r matches Err(x) && x@ == e,
            },
    {
        proof {
            use_type_invariant(&*self);
        }
        let ghost s = self.input@;
        let start = self.position;
        self.advance();
        let content_start = self.position;
        proof {
            crate::text::lemma_boundary_after_ascii(s, content_start as int);
        }
        loop
            invariant
                self.input@ == s,
                s == old(self).bytes(),
                start == old(self).pos(),
                valid_utf8(s),
                content_start == start + 1,
                s[start as int] == 0x22,
                content_start <= self.position <= s.len(),
                is_char_boundary(s, content_start as int),
                forall|m: int| content_start <= m < self.position ==> #[trigger] s[m] != 0x22 && s[m] != 0x5c,
            decreases s.len() - self.position,
        {
            let ch = match self.peek() {
                Some(ch) => ch,
                None => {
                    proof {
                        lemma_string_bytes_skip(s, start as int, content_start as int, self.position as int, seq![]);
                        lemma_string_bytes_special(s, start as int, self.position as int, Seq::<u8>::empty() + s.subrange(content_start as int, self.position as int));
                        lemma_string_stop_skip(s, start as int, content_start as int, self.position as int);
                        lemma_string_stop_special(s, start as int, self.position as int);
                    }
                    return Err(JsonError::UnterminatedString { position: start });
                },
            };
            if ch == 0x22 {
                proof {
                    lemma_string_bytes_skip(s, start as int, content_start as int, self.position as int, seq![]);
                    lemma_string_bytes_special(s, start as int, self.position as int, Seq::<u8>::empty() + s.subrange(content_start as int, self.position as int));
                    crate::text::lemma_segment_valid(s, content_start as int, self.position as int);
                    assert(Seq::<u8>::empty() + s.subrange(content_start as int, self.position as int)
                        =~= s.subrange(content_start as int, self.position as int));
                }
                let input = self.input;
                let value = slice_to_string(&input[content_start..self.position]);
                self.advance();
                return Ok(value);
            } else if ch == 0x5c {
                return self.read_escaped_string(start, content_start);
            } else {
                self.advance();
            }
        }
    }

    /// Reads the rest of a string literal that holds escapes; the current byte is its first backslash.
    pub(crate) fn read_escaped_string(&mut self, start: usize, content_start: usize) -> (r: Result<String, JsonError>)
        requires
            content_start == start + 1,
            content_start <= old(self).pos() < old(self).bytes().len(),
            old(self).bytes()[start as int] == 0x22,
            old(self).bytes()[old(self).pos()] == 0x5c,
            is_char_boundary(old(self).bytes(), content_start as int),
            forall|m: int| content_start <= m < old(self).pos() ==> #[trigger] old(self).bytes()[m] != 0x22 && old(self).bytes()[m] != 0x5c,
        ensures
            final(self).bytes() == old(self).bytes(),
            r is Err ==> final(self).pos() == string_stop(old(self).bytes(), start as int, content_start as int),
            match lex_string(old(self).bytes(), start as int) {
                Ok((v, j)) => r matches Ok(x) && x@ == v && final(self).pos() == j,
                Err(e) => r matches Err(x) && x@ == e,
            },
    {
        proof {
            use_type_invariant(&*self);
        }
        let ghost s = self.input@;
        let input = self.input;
        let mut value = vstd::slice::slice_to_vec(&input[content_start..self.position]);
        let ghost target = string_bytes(s, start as int, content_start as int, seq![]);
        proof {
            lemma_string_bytes_skip(s, start as int, content_start as int, self.position as int, seq![]);
            lemma_string_stop_skip(s, start as int, content_start as int, self.position as int);
            assert(Seq::<u8>::empty() + s.subrange(content_start as int, self.position as int)
                =~= value@);
            crate::text::lemma_segment_valid(s, content_start as int, self.position as int);
            assert(value@ + s.subrange(self.position as int, self.position as int) =~= value@);
        }
        loop
            invariant
                self.input@ == s,
                s == old(self).bytes(),
                valid_utf8(s),
                content_start == start + 1,
                target == string_bytes(s, start as int, content_start as int, seq![]),
                self.position <= s.len(),
                target == string_bytes(s, start as int, self.position as int, value@),
                string_stop(s, start as int, content_start as int) == string_stop(s, start as int, self.position as int),
                valid_utf8(value@ + s.subrange(self.position as int, next_special(s, self.position as int))),
            decreases s.len() - self.position,
        {
            proof {
                lemma_next_special(s, self.position as int);
            }
            let ch = match self.peek() {
                Some(ch) => ch,
                None => {
                    proof {
                        lemma_string_bytes_special(s, start as int, self.position as int, value@);
                        lemma_string_stop_special(s, start as int, self.position as int);
                    }
                    return Err(JsonError::UnterminatedString { position: start });
                },
            };
            if ch == 0x22 {
                proof {
                    lemma_string_bytes_special(s, start as int, self.position as int, value@);
                    assert(value@ + s.subrange(self.position as int, self.position as int) =~= value@);
                }
                self.advance();
                return Ok(slice_to_string(value.as_slice()));
            } else if ch == 0x5c {
                let ghost at = self.position as int;
                proof {
                    lemma_string_bytes_special(s, start as int, at, value@);
                    lemma_string_stop_special(s, start as int, at);
                    assert(value@ + s.subrange(at, at) =~= value@);
                }
                self.advance();
                let c = match self.read_escape(start) {
                    Ok(c) => c,
                    Err(e) => return Err(e),
                };
                let encoded = encode_char(c);
                let ghost old_value = value@;
                let mut k: usize = 0;
                while k < encoded.len()
                    invariant
                        value@ == old_value + encoded@.take(k as int),
                        k <= encoded@.len(),
                    decreases encoded.len() - k,
                {
                    value.push(encoded[k]);
                    k = k + 1;
                    assert(encoded@.take(k as int) =~= encoded@.take((k - 1) as int).push(encoded@[k - 1]));
                }
                proof {
                    assert(encoded@.take(k as int) =~= encoded@);
                    lemma_escape_keeps_valid(s, start as int, at, old_value, c, self.position as int);
                }
            } else {
                proof {
                    lemma_plain_byte_keeps_valid(s, start as int, self.position as int, value@);
                    lemma_string_stop_skip(s, start as int, self.position as int, self.position + 1);
                }
                value.push(ch);
                self.advance();
            }
        }
    }
}

proof fn lemma_escape_keeps_valid(s: Seq<u8>, start: int, at: int, acc: Seq<u8>, c: char, p: int)
    requires
        valid_utf8(s),
        0 <= at < s.len(),
        s[at] == 0x5c,
        read_escape(s, start, at + 1) == Ok::<(char, int), ErrorModel>((c, p)),
        valid_utf8(acc),
    ensures
        at < p <= s.len(),
        valid_utf8(acc + encode_scalar(c as u32) + s.subrange(p, next_special(s, p))),
{
    lemma_read_escape_advances(s, start, at + 1);
    crate::text::lemma_boundary_after_ascii(s, p);
    lemma_next_special(s, p);
    crate::text::lemma_segment_valid(s, p, next_special(s, p));
    crate::text::lemma_encode_char(c);
    vstd::utf8::valid_utf8_concat(acc, encode_scalar(c as u32));
    vstd::utf8::valid_utf8_concat(acc + encode_scalar(c as u32), s.subrange(p, next_special(s, p)));
}

proof fn lemma_plain_byte_keeps_valid(s: Seq<u8>, start: int, i: int, acc: Seq<u8>)
    requires
        0 <= i < s.len(),
        s[i] != 0x22 && s[i] != 0x5c,
    ensures
        string_bytes(s, start, i, acc) == string_bytes(s, start, i + 1, acc.push(s[i])),
        acc.push(s[i]) + s.subrange(i + 1, next_special(s, i + 1)) == acc + s.subrange(
            i,
            next_special(s, i),
        ),
{
    lemma_string_bytes_step(s, start, i, acc);
    lemma_next_special(s, i + 1);
    assert(next_special(s, i) == next_special(s, i + 1));
    assert(acc.push(s[i]) + s.subrange(i + 1, next_special(s, i + 1)) =~= acc + s.subrange(
        i,
        next_special(s, i),
    ));
}

pub open spec fn pow16(n: nat) -> nat
    decreases n,
{
    if n == 0 {
        1
    } else {
        16 * pow16((n - 1) as nat)
    }
}

proof fn lemma_pow16(n: nat)
    requires
        n < 8,
    ensures
        pow16(n + 1) == 16 * pow16(n),
        pow16(n + 1) <= 0x1_0000_0000,
{
    reveal_with_fuel(pow16, 9);
}

} // verus!
