//! What the scanner reads depends only on the bytes it reads.
//!
//! When a token is read from one input, the same token is read from any
//! other input that holds the same bytes at the corresponding positions
//! (shifted by `d`), as long as a number or keyword run stops at the same
//! place in both.  This is what makes whitespace a mere separator.
use crate::number::{is_number_byte, is_digit};
use crate::text::hex_value;
use crate::tokenizer::{
    alpha_class, char_token, is_alpha, is_whitespace, lemma_hex_run, lemma_lex_string_advances,
    lemma_next_special, lemma_prefix_compose, lemma_read_escape_advances, lemma_run_end,
    lemma_string_bytes_advances, lex_literal, lex_number, lex_string, next_special, number_class,
    prefix_result, read_escape, read_hex, read_hex_escape, read_low_surrogate, read_unicode_escape,
    run_end, string_bytes, tokens_from, hex_run, TokenModel,
};
use crate::error::ErrorModel;
use vstd::prelude::*;

verus! {

/// `t` holds the bytes of `s` from `lo` up to `hi`, each `d` places further on.
pub open spec fn agree(s: Seq<u8>, t: Seq<u8>, d: int, lo: int, hi: int) -> bool {
    &&& 0 <= lo <= hi <= s.len()
    &&& 0 <= lo + d
    &&& hi + d <= t.len()
    &&& forall|k: int| lo <= k < hi ==> t[k + d] == #[trigger] s[k]
}

/// A run stops at the end of the input or at a byte outside the class.
pub open spec fn stops_at(s: Seq<u8>, j: int, p: spec_fn(u8) -> bool) -> bool {
    j == s.len() || (0 <= j < s.len() && !p(s[j]))
}

proof fn lemma_agree_within(s: Seq<u8>, t: Seq<u8>, d: int, lo: int, hi: int, lo2: int, hi2: int)
    requires
        agree(s, t, d, lo, hi),
        lo <= lo2 <= hi2 <= hi,
    ensures
        agree(s, t, d, lo2, hi2),
{
}

proof fn lemma_agree_subrange(s: Seq<u8>, t: Seq<u8>, d: int, lo: int, hi: int)
    requires
        agree(s, t, d, lo, hi),
    ensures
        t.subrange(lo + d, hi + d) == s.subrange(lo, hi),
{
    assert forall|k: int| 0 <= k < hi - lo implies t.subrange(lo + d, hi + d)[k] == s.subrange(lo, hi)[k] by {
        assert(s[lo + k] == t[lo + k + d]);
    }
    assert(t.subrange(lo + d, hi + d) =~= s.subrange(lo, hi));
}

proof fn lemma_run_end_agree(s: Seq<u8>, t: Seq<u8>, d: int, i: int, p: spec_fn(u8) -> bool)
    requires
        0 <= i <= s.len(),
        agree(s, t, d, i, run_end(s, i, p)),
        stops_at(t, run_end(s, i, p) + d, p),
    ensures
        run_end(t, i + d, p) == run_end(s, i, p) + d,
    decreases s.len() - i,
{
    lemma_run_end(s, i, p);
    if i < run_end(s, i, p) {
        assert(t[i + d] == s[i]);
        lemma_run_end_agree(s, t, d, i + 1, p);
    }
}

proof fn lemma_hex_run_agree(s: Seq<u8>, t: Seq<u8>, d: int, i: int, count: nat)
    requires
        0 <= i,
        hex_run(s, i, count) == count,
        agree(s, t, d, i, i + count),
    ensures
        hex_run(t, i + d, count) == count,
    decreases count,
{
    if count > 0 {
        lemma_hex_run(s, i, count);
        assert(t[i + d] == s[i]);
        lemma_hex_run_agree(s, t, d, i + 1, (count - 1) as nat);
    }
}

proof fn lemma_read_hex_agree(s: Seq<u8>, t: Seq<u8>, d: int, i: int, count: nat)
    requires
        0 <= i,
        read_hex(s, i, count) is Ok,
        agree(s, t, d, i, i + count),
    ensures
        read_hex(t, i + d, count) == (match read_hex(s, i, count) {
            Ok((v, j)) => Ok::<(u32, int), ErrorModel>((v, j + d)),
            Err(e) => Err(e),
        }),
{
    lemma_hex_run(s, i, count);
    lemma_hex_run_agree(s, t, d, i, count);
    lemma_agree_subrange(s, t, d, i, i + count);
}

proof fn lemma_read_low_surrogate_agree(s: Seq<u8>, t: Seq<u8>, d: int, i: int, high: u32)
    requires
        0 <= i,
        read_low_surrogate(s, i, high) is Ok,
        agree(s, t, d, i, i + 6),
    ensures
        read_low_surrogate(t, i + d, high) == (match read_low_surrogate(s, i, high) {
            Ok((v, j)) => Ok::<(u32, int), ErrorModel>((v, j + d)),
            Err(e) => Err(e),
        }),
{
    assert(t[i + d] == s[i]);
    assert(t[i + 1 + d] == s[i + 1]);
    lemma_agree_within(s, t, d, i, i + 6, i + 2, i + 6);
    lemma_read_hex_agree(s, t, d, i + 2, 4);
}

proof fn lemma_read_escape_agree(s: Seq<u8>, t: Seq<u8>, d: int, start: int, start2: int, i: int)
    requires
        0 <= i,
        read_escape(s, start, i) matches Ok((c, k)) && agree(s, t, d, i, k),
    ensures
        read_escape(t, start2, i + d) == (match read_escape(s, start, i) {
            Ok((c, k)) => Ok::<(char, int), ErrorModel>((c, k + d)),
            Err(e) => Err(e),
        }),
{
    let k = read_escape(s, start, i)->Ok_0.1;
    assert(t[i + d] == s[i]);
    let b = s[i];
    if b == 0x75 {
        lemma_hex_run(s, i + 1, 4);
        lemma_agree_within(s, t, d, i, k, i + 1, i + 5);
        lemma_read_hex_agree(s, t, d, i + 1, 4);
        let (first, j) = read_hex(s, i + 1, 4)->Ok_0;
        if crate::tokenizer::is_high_surrogate_spec(first) {
            lemma_hex_run(s, j + 2, 4);
            lemma_agree_within(s, t, d, i, k, j, j + 6);
            lemma_read_low_surrogate_agree(s, t, d, j, first);
        }
        assert(read_unicode_escape(t, i + d) == (match read_unicode_escape(s, i) {
            Ok((c, k)) => Ok::<(char, int), ErrorModel>((c, k + d)),
            Err(e) => Err(e),
        }));
    } else if b == 0x78 {
        lemma_hex_run(s, i + 1, 2);
        lemma_agree_within(s, t, d, i, k, i + 1, i + 3);
        lemma_read_hex_agree(s, t, d, i + 1, 2);
        assert(read_hex_escape(t, i + d) == (match read_hex_escape(s, i) {
            Ok((c, k)) => Ok::<(char, int), ErrorModel>((c, k + d)),
            Err(e) => Err(e),
        }));
    }
}

proof fn lemma_next_special_agree(s: Seq<u8>, t: Seq<u8>, d: int, i: int)
    requires
        0 <= i,
        next_special(s, i) < s.len(),
        agree(s, t, d, i, next_special(s, i) + 1),
    ensures
        next_special(t, i + d) == next_special(s, i) + d,
    decreases s.len() - i,
{
    lemma_next_special(s, i);
    assert(t[i + d] == s[i]);
    if i < next_special(s, i) {
        lemma_next_special_agree(s, t, d, i + 1);
    }
}

proof fn lemma_string_bytes_agree(
    s: Seq<u8>,
    t: Seq<u8>,
    d: int,
    start: int,
    start2: int,
    i: int,
    acc: Seq<u8>,
)
    requires
        0 <= i,
        string_bytes(s, start, i, acc) matches Ok((b, j)) && agree(s, t, d, i, j),
    ensures
        string_bytes(t, start2, i + d, acc) == (match string_bytes(s, start, i, acc) {
            Ok((b, j)) => Ok::<(Seq<u8>, int), ErrorModel>((b, j + d)),
            Err(e) => Err(e),
        }),
    decreases s.len() - i,
{
    reveal(string_bytes);
    let end = string_bytes(s, start, i, acc)->Ok_0.1;
    lemma_next_special(s, i);
    let j = next_special(s, i);
    if s[j] != 0x22 {
        lemma_read_escape_advances(s, start, j + 1);
        let (c, k) = read_escape(s, start, j + 1)->Ok_0;
        lemma_string_bytes_advances(s, start, k, acc + s.subrange(i, j) + vstd::utf8::encode_scalar(c as u32));
    }
    lemma_agree_within(s, t, d, i, end, i, j + 1);
    lemma_next_special_agree(s, t, d, i);
    assert(t[j + d] == s[j]);
    lemma_agree_subrange(s, t, d, i, j);
    if s[j] != 0x22 {
        let (c, k) = read_escape(s, start, j + 1)->Ok_0;
        let acc2 = acc + s.subrange(i, j) + vstd::utf8::encode_scalar(c as u32);
        lemma_agree_within(s, t, d, i, end, j + 1, k);
        lemma_read_escape_agree(s, t, d, start, start2, j + 1);
        lemma_agree_within(s, t, d, i, end, k, end);
        lemma_string_bytes_agree(s, t, d, start, start2, k, acc2);
    }
}

proof fn lemma_lex_string_agree(s: Seq<u8>, t: Seq<u8>, d: int, i: int)
    requires
        0 <= i,
        lex_string(s, i) matches Ok((v, j)) && agree(s, t, d, i, j),
    ensures
        lex_string(t, i + d) == (match lex_string(s, i) {
            Ok((v, j)) => Ok::<(Seq<char>, int), ErrorModel>((v, j + d)),
            Err(e) => Err(e),
        }),
{
    let j = lex_string(s, i)->Ok_0.1;
    lemma_lex_string_advances(s, i);
    lemma_agree_within(s, t, d, i, j, i + 1, j);
    lemma_string_bytes_agree(s, t, d, i, i + d, i + 1, seq![]);
}

proof fn lemma_whitespace_stops(b: u8)
    requires
        is_whitespace(b),
    ensures
        !is_number_byte(b),
        !is_alpha(b),
{
}

/// Reading the tokens of `s` from `i` on, where `t` holds the same bytes
/// shifted by `d` and then either ends or goes on with whitespace, reads the
/// same tokens from `t` and then whatever `t` holds after them.
pub proof fn lemma_tokens_agree(s: Seq<u8>, t: Seq<u8>, d: int, i: int)
    requires
        0 <= i <= s.len(),
        tokens_from(s, i) is Ok,
        agree(s, t, d, i, s.len() as int),
        s.len() + d == t.len() || (s.len() + d < t.len() && is_whitespace(t[s.len() + d])),
    ensures
        tokens_from(t, i + d) == prefix_result(tokens_from(s, i)->Ok_0, tokens_from(t, s.len() + d)),
    decreases s.len() - i,
{
    reveal(tokens_from);
    let rest_t = tokens_from(t, s.len() + d);
    if i == s.len() {
        assert(tokens_from(s, i)->Ok_0 =~= Seq::<TokenModel>::empty());
        match rest_t {
            Ok(x) => assert(Seq::<TokenModel>::empty() + x =~= x),
            Err(e) => {},
        }
        return;
    }
    let b = s[i];
    assert(t[i + d] == b);
    if s.len() + d < t.len() {
        lemma_whitespace_stops(t[s.len() + d]);
    }
    match char_token(b) {
        Some(tok) => {
            lemma_tokens_agree(s, t, d, i + 1);
            lemma_prefix_compose(seq![tok], tokens_from(s, i + 1)->Ok_0, rest_t);
            assert(seq![tok] + tokens_from(s, i + 1)->Ok_0 == tokens_from(s, i)->Ok_0);
        },
        None => {
            if b == 0x22 {
                lemma_lex_string_advances(s, i);
                let (v, j) = lex_string(s, i)->Ok_0;
                lemma_agree_within(s, t, d, i, s.len() as int, i, j);
                lemma_lex_string_agree(s, t, d, i);
                lemma_tokens_agree(s, t, d, j);
                lemma_prefix_compose(seq![TokenModel::String(v)], tokens_from(s, j)->Ok_0, rest_t);
            } else if is_digit(b) || b == 0x2d {
                lemma_run_end(s, i, number_class());
                let j = run_end(s, i, number_class());
                lemma_agree_within(s, t, d, i, s.len() as int, i, j);
                if j < s.len() {
                    assert(t[j + d] == s[j]);
                }
                lemma_run_end_agree(s, t, d, i, number_class());
                lemma_agree_subrange(s, t, d, i, j);
                let tok = lex_number(s, i)->Ok_0.0;
                lemma_tokens_agree(s, t, d, j);
                lemma_prefix_compose(seq![tok], tokens_from(s, j)->Ok_0, rest_t);
            } else if b == 0x74 || b == 0x66 || b == 0x6e {
                lemma_run_end(s, i, alpha_class());
                let j = run_end(s, i, alpha_class());
                lemma_agree_within(s, t, d, i, s.len() as int, i, j);
                if j < s.len() {
                    assert(t[j + d] == s[j]);
                }
                lemma_run_end_agree(s, t, d, i, alpha_class());
                lemma_agree_subrange(s, t, d, i, j);
                let tok = lex_literal(s, i)->Ok_0.0;
                lemma_tokens_agree(s, t, d, j);
                lemma_prefix_compose(seq![tok], tokens_from(s, j)->Ok_0, rest_t);
            } else if is_whitespace(b) {
                lemma_tokens_agree(s, t, d, i + 1);
            }
        },
    }
}

} // verus!
