//! Where errors are reported: every position an error carries lies within
//! the input (a byte offset up to the input's length for the scanner, a
//! token index up to the number of tokens for the parser), and the scanner
//! never produces more tokens than the input has bytes.
use crate::error::{error_position, ErrorModel};
use crate::number::is_digit;
use crate::parser::{
    array_rest, lemma_parse_value_advances, object_rest, parse_array, parse_document, parse_member,
    parse_object, parse_value,
};
use crate::tokenizer::{
    alpha_class, is_whitespace, lemma_hex_run, lemma_lex_string_advances, lemma_next_special,
    lemma_read_escape_advances, lemma_read_hex, lemma_run_end, lemma_tokens_end, lemma_tokens_literal,
    lemma_tokens_number, lemma_tokens_other, lemma_tokens_single, lemma_tokens_string,
    lemma_tokens_whitespace, lex_literal, lex_number, lex_string, next_special, number_class,
    read_escape, read_hex, char_token, string_bytes, token_starts, tokens_from, TokenModel,
};
use crate::value::{object_insert, ValueModel};
use vstd::prelude::*;

verus! {

/// An error whose position lies in `lo..=hi`.
pub open spec fn err_within<T>(r: Result<T, ErrorModel>, lo: int, hi: int) -> bool {
    r matches Err(e) ==> lo <= error_position(e) <= hi
}

proof fn lemma_read_hex_within(s: Seq<u8>, i: int, count: nat)
    requires
        0 <= i <= s.len(),
    ensures
        err_within(read_hex(s, i, count), 0, s.len() as int),
{
    lemma_hex_run(s, i, count);
}

proof fn lemma_read_escape_within(s: Seq<u8>, start: int, i: int)
    requires
        0 <= start <= s.len(),
        0 <= i,
    ensures
        err_within(read_escape(s, start, i), 0, s.len() as int),
{
    if 0 <= i < s.len() {
        lemma_read_hex_within(s, i + 1, 4);
        lemma_read_hex_within(s, i + 1, 2);
        lemma_read_hex(s, i + 1, 4);
        if let Ok((first, j)) = read_hex(s, i + 1, 4) {
            if j + 1 < s.len() {
                lemma_read_hex_within(s, j + 2, 4);
                lemma_read_hex(s, j + 2, 4);
            }
        }
    }
}

proof fn lemma_string_bytes_within(s: Seq<u8>, start: int, i: int, acc: Seq<u8>)
    requires
        0 <= start <= s.len(),
        0 <= i,
    ensures
        err_within(string_bytes(s, start, i, acc), 0, s.len() as int),
    decreases s.len() - i,
{
    reveal(string_bytes);
    lemma_next_special(s, i);
    let j = next_special(s, i);
    if j < s.len() && s[j] != 0x22 {
        lemma_read_escape_within(s, start, j + 1);
        lemma_read_escape_advances(s, start, j + 1);
        if let Ok((c, k)) = read_escape(s, start, j + 1) {
            lemma_string_bytes_within(s, start, k, acc + s.subrange(i, j) + vstd::utf8::encode_scalar(c as u32));
        }
    }
}

/// The scanner's errors lie within the input, and it makes at most one
/// token per byte.
pub proof fn lemma_scanner_within(s: Seq<u8>, i: int)
    requires
        0 <= i <= s.len(),
    ensures
        err_within(tokens_from(s, i), 0, s.len() as int),
        tokens_from(s, i) matches Ok(ts) ==> ts.len() <= s.len() - i,
    decreases s.len() - i,
{
    if i == s.len() {
        lemma_tokens_end(s, i);
    } else {
        let b = s[i];
        if char_token(b) is Some {
            lemma_tokens_single(s, i);
            lemma_scanner_within(s, i + 1);
        } else if b == 0x22 {
            lemma_tokens_string(s, i);
            lemma_lex_string_advances(s, i);
            lemma_string_bytes_within(s, i, i + 1, seq![]);
            if let Ok((v, j)) = lex_string(s, i) {
                lemma_scanner_within(s, j);
            }
        } else if is_digit(b) || b == 0x2d {
            lemma_tokens_number(s, i);
            lemma_run_end(s, i, number_class());
            if let Ok((t, j)) = lex_number(s, i) {
                lemma_scanner_within(s, j);
            }
        } else if b == 0x74 || b == 0x66 || b == 0x6e {
            lemma_tokens_literal(s, i);
            lemma_run_end(s, i, alpha_class());
            if let Ok((t, j)) = lex_literal(s, i) {
                lemma_scanner_within(s, j);
            }
        } else if is_whitespace(b) {
            lemma_tokens_whitespace(s, i);
            lemma_scanner_within(s, i + 1);
        } else {
            lemma_tokens_other(s, i);
        }
    }
}

pub proof fn lemma_parse_value_within(ts: Seq<TokenModel>, p: int)
    requires
        0 <= p <= ts.len(),
    ensures
        err_within(parse_value(ts, p), 0, ts.len() as int),
    decreases ts.len() - p, 0int,
{
    if p < ts.len() {
        match ts[p] {
            TokenModel::LeftBracket => lemma_parse_array_within(ts, p + 1),
            TokenModel::LeftBrace => lemma_parse_object_within(ts, p + 1),
            _ => {},
        }
    }
}

proof fn lemma_parse_array_within(ts: Seq<TokenModel>, p: int)
    requires
        0 <= p <= ts.len(),
    ensures
        err_within(parse_array(ts, p), 0, ts.len() as int),
    decreases ts.len() - p, 1int,
{
    if p < ts.len() && !(ts[p] is RightBracket) {
        lemma_parse_value_within(ts, p);
        lemma_parse_value_advances(ts, p);
        if let Ok((v, q)) = parse_value(ts, p) {
            if p < q <= ts.len() {
                lemma_array_rest_within(ts, q, seq![v]);
            }
        }
    }
}

proof fn lemma_array_rest_within(ts: Seq<TokenModel>, q: int, items: Seq<ValueModel>)
    requires
        0 <= q <= ts.len(),
    ensures
        err_within(array_rest(ts, q, items), 0, ts.len() as int),
    decreases ts.len() - q, 2int,
{
    if q < ts.len() && ts[q] is Comma {
        lemma_parse_value_within(ts, q + 1);
        lemma_parse_value_advances(ts, q + 1);
        if let Ok((v, r)) = parse_value(ts, q + 1) {
            if q < r <= ts.len() {
                lemma_array_rest_within(ts, r, items.push(v));
            }
        }
    }
}

proof fn lemma_parse_object_within(ts: Seq<TokenModel>, p: int)
    requires
        0 <= p <= ts.len(),
    ensures
        err_within(parse_object(ts, p), 0, ts.len() as int),
    decreases ts.len() - p, 1int,
{
    if p < ts.len() {
        if let TokenModel::String(k) = ts[p] {
            lemma_parse_member_within(ts, p + 1, k, seq![]);
        }
    }
}

proof fn lemma_parse_member_within(
    ts: Seq<TokenModel>,
    q: int,
    key: Seq<char>,
    es: Seq<(Seq<char>, ValueModel)>,
)
    requires
        0 <= q <= ts.len(),
    ensures
        err_within(parse_member(ts, q, key, es), 0, ts.len() as int),
    decreases ts.len() - q, 1int,
{
    if q < ts.len() && ts[q] is Colon {
        lemma_parse_value_within(ts, q + 1);
        lemma_parse_value_advances(ts, q + 1);
        if let Ok((v, r)) = parse_value(ts, q + 1) {
            if q < r <= ts.len() {
                lemma_object_rest_within(ts, r, object_insert(es, key, v));
            }
        }
    }
}

proof fn lemma_object_rest_within(ts: Seq<TokenModel>, r: int, es: Seq<(Seq<char>, ValueModel)>)
    requires
        0 <= r <= ts.len(),
    ensures
        err_within(object_rest(ts, r, es), 0, ts.len() as int),
    decreases ts.len() - r, 2int,
{
    if r < ts.len() && ts[r] is Comma && r + 1 < ts.len() {
        if let TokenModel::String(k) = ts[r + 1] {
            lemma_parse_member_within(ts, r + 2, k, es);
        }
    }
}

/// Every token starts inside the input, from byte `i` on.
pub proof fn lemma_token_starts_within(s: Seq<u8>, i: int)
    requires
        0 <= i <= s.len(),
    ensures
        forall|k: int|
            0 <= k < token_starts(s, i).len() ==> i <= #[trigger] token_starts(s, i)[k] < s.len(),
    decreases s.len() - i,
{
    reveal(token_starts);
    if i < s.len() {
        let b = s[i];
        let st = token_starts(s, i);
        if char_token(b) is Some {
            lemma_token_starts_within(s, i + 1);
            assert forall|k: int| 0 <= k < st.len() implies i <= #[trigger] st[k] < s.len() by {
                if k > 0 {
                    assert(st[k] == token_starts(s, i + 1)[k - 1]);
                }
            }
        } else if b == 0x22 {
            lemma_lex_string_advances(s, i);
            if let Ok((v, j)) = lex_string(s, i) {
                lemma_token_starts_within(s, j);
                assert forall|k: int| 0 <= k < st.len() implies i <= #[trigger] st[k] < s.len() by {
                    if k > 0 {
                        assert(st[k] == token_starts(s, j)[k - 1]);
                    }
                }
            }
        } else if is_digit(b) || b == 0x2d {
            lemma_run_end(s, i, number_class());
            if let Ok((t, j)) = lex_number(s, i) {
                lemma_token_starts_within(s, j);
                assert forall|k: int| 0 <= k < st.len() implies i <= #[trigger] st[k] < s.len() by {
                    if k > 0 {
                        assert(st[k] == token_starts(s, j)[k - 1]);
                    }
                }
            }
        } else if b == 0x74 || b == 0x66 || b == 0x6e {
            lemma_run_end(s, i, alpha_class());
            if let Ok((t, j)) = lex_literal(s, i) {
                lemma_token_starts_within(s, j);
                assert forall|k: int| 0 <= k < st.len() implies i <= #[trigger] st[k] < s.len() by {
                    if k > 0 {
                        assert(st[k] == token_starts(s, j)[k - 1]);
                    }
                }
            }
        } else if is_whitespace(b) {
            lemma_token_starts_within(s, i + 1);
        }
    }
}

} // verus!
