//! Why writing a value and reading the text back gives the value again.
//!
//! A value is written as a sequence of tokens (`value_tokens`) spread over
//! text with whitespace between them.  The facts here show that the scanner
//! reads exactly those tokens back from the text that `render` produces, and
//! that the parser rebuilds the value from them, for every value that the
//! parser itself could have produced (`well_formed`).
use crate::error::ErrorModel;
use crate::number::{
    char_bytes, is_canonical_number, is_digit, is_number_byte, lemma_canonical_number_is_canonical,
};
use crate::parser::{
    array_rest, object_rest, parse_array, parse_document, parse_member, parse_object, parse_value,
};
use crate::text::{digit_char, digits, hex4, hex_value, lemma_encode_char, lemma_encode_utf8_concat};
use crate::tokenizer::{
    alpha_class, char_token, hex_number, is_alpha, is_high_surrogate_spec, is_whitespace,
    lemma_hex_run_prefix, lemma_lex_string_advances, lemma_prefix_compose, lemma_run_end,
    lemma_string_bytes_skip, lemma_string_bytes_special, lemma_tokens_end, lemma_tokens_literal,
    lemma_tokens_number, lemma_tokens_other, lemma_tokens_single, lemma_tokens_string,
    lemma_tokens_whitespace, lex_literal, lex_number, lex_string, number_class, prefix_result,
    read_escape, read_hex, read_unicode_escape, run_end, simple_escape, string_bytes, tokenize_spec,
    tokens_from, TokenModel,
};
use crate::value::{
    closing, escape_char, escape_chars, find_key, keys_ordered, lemma_find_key_from,
    lemma_find_key_none, lemma_key_order, lemma_object_insert_ordered, lemma_slot_from, newline,
    object_insert, pad, quoted, render, render_items, render_members, separator, slot, step,
    ValueModel,
};
use vstd::prelude::*;
use vstd::utf8::*;

verus! {

broadcast use vstd::utf8::group_utf8_lib;

// ---------------------------------------------------------------------------
// Well-formed values and their tokens
// ---------------------------------------------------------------------------
/// A value that reading JSON text can produce: its numbers are canonical
/// number texts, and the keys of every object are in increasing order.
pub open spec fn well_formed(v: ValueModel) -> bool
    decreases v, 0int,
{
    match v {
        ValueModel::Number(n) => is_canonical_number(n),
        ValueModel::Array(items) => items_well_formed(items, 0),
        ValueModel::Object(es) => keys_ordered(es) && members_well_formed(es, 0),
        _ => true,
    }
}

/// The elements of an array from index `i` on are well-formed.
pub open spec fn items_well_formed(items: Seq<ValueModel>, i: int) -> bool
    decreases items, items.len() - i,
{
    if i < 0 || i >= items.len() {
        true
    } else {
        well_formed(items[i]) && items_well_formed(items, i + 1)
    }
}

/// The values of the members of an object from index `i` on are well-formed.
pub open spec fn members_well_formed(es: Seq<(Seq<char>, ValueModel)>, i: int) -> bool
    decreases es, es.len() - i,
{
    if i < 0 || i >= es.len() {
        true
    } else {
        well_formed(es[i].1) && members_well_formed(es, i + 1)
    }
}

pub proof fn lemma_items_well_formed(items: Seq<ValueModel>, i: int)
    requires
        0 <= i,
    ensures
        items_well_formed(items, i) <==> forall|j: int| i <= j < items.len() ==> #[trigger] well_formed(items[j]),
    decreases items.len() - i,
{
    if i < items.len() {
        lemma_items_well_formed(items, i + 1);
        if items_well_formed(items, i) {
            assert forall|j: int| i <= j < items.len() implies #[trigger] well_formed(items[j]) by {
                if j > i {
                    assert(i + 1 <= j < items.len());
                }
            }
        }
        if forall|j: int| i <= j < items.len() ==> #[trigger] well_formed(items[j]) {
            assert(well_formed(items[i]));
            assert forall|j: int| i + 1 <= j < items.len() implies #[trigger] well_formed(items[j]) by {
                assert(i <= j < items.len());
            }
        }
    }
}

pub proof fn lemma_members_well_formed(es: Seq<(Seq<char>, ValueModel)>, i: int)
    requires
        0 <= i,
    ensures
        members_well_formed(es, i) <==> forall|j: int| i <= j < es.len() ==> #[trigger] well_formed(es[j].1),
    decreases es.len() - i,
{
    if i < es.len() {
        lemma_members_well_formed(es, i + 1);
        if members_well_formed(es, i) {
            assert forall|j: int| i <= j < es.len() implies #[trigger] well_formed(es[j].1) by {
                if j > i {
                    assert(i + 1 <= j < es.len());
                }
            }
        }
        if forall|j: int| i <= j < es.len() ==> #[trigger] well_formed(es[j].1) {
            assert(well_formed(es[i].1));
            assert forall|j: int| i + 1 <= j < es.len() implies #[trigger] well_formed(es[j].1) by {
                assert(i <= j < es.len());
            }
        }
    }
}

/// A `,` before every element but the first.
pub open spec fn comma_before(i: int) -> Seq<TokenModel> {
    if i > 0 {
        seq![TokenModel::Comma]
    } else {
        seq![]
    }
}

/// The tokens that spell a value.
pub open spec fn value_tokens(v: ValueModel) -> Seq<TokenModel>
    decreases v, 0int,
{
    match v {
        ValueModel::Null => seq![TokenModel::Null],
        ValueModel::Boolean(b) => seq![TokenModel::Boolean(b)],
        ValueModel::Number(n) => seq![TokenModel::Number(n)],
        ValueModel::String(s) => seq![TokenModel::String(s)],
        ValueModel::Array(items) => seq![TokenModel::LeftBracket] + items_tokens(items, 0)
            + seq![TokenModel::RightBracket],
        ValueModel::Object(es) => seq![TokenModel::LeftBrace] + members_tokens(es, 0) + seq![
            TokenModel::RightBrace,
        ],
    }
}

/// The tokens of the elements of an array from index `i` on.
pub open spec fn items_tokens(items: Seq<ValueModel>, i: int) -> Seq<TokenModel>
    decreases items, items.len() - i,
{
    if i < 0 || i >= items.len() {
        seq![]
    } else {
        comma_before(i) + value_tokens(items[i]) + items_tokens(items, i + 1)
    }
}

/// The tokens of the members of an object from index `i` on.
pub open spec fn members_tokens(es: Seq<(Seq<char>, ValueModel)>, i: int) -> Seq<TokenModel>
    decreases es, es.len() - i,
{
    if i < 0 || i >= es.len() {
        seq![]
    } else {
        comma_before(i) + seq![TokenModel::String(es[i].0), TokenModel::Colon] + value_tokens(es[i].1)
            + members_tokens(es, i + 1)
    }
}

/// `ts` holds `part` from index `p` on.
pub open spec fn holds_at<T>(ts: Seq<T>, p: int, part: Seq<T>) -> bool {
    0 <= p && p + part.len() <= ts.len() && ts.subrange(p, p + part.len()) == part
}

proof fn lemma_holds_at_split<T>(ts: Seq<T>, p: int, a: Seq<T>, b: Seq<T>)
    requires
        holds_at(ts, p, a + b),
    ensures
        holds_at(ts, p, a),
        holds_at(ts, p + a.len(), b),
        forall|k: int| 0 <= k < a.len() ==> ts[p + k] == #[trigger] a[k],
        forall|k: int| 0 <= k < b.len() ==> ts[p + a.len() + k] == #[trigger] b[k],
{
    let whole = ts.subrange(p, p + (a + b).len());
    assert forall|k: int| 0 <= k < a.len() implies ts[p + k] == #[trigger] a[k] by {
        assert(whole[k] == (a + b)[k]);
    }
    assert forall|k: int| 0 <= k < b.len() implies ts[p + a.len() + k] == #[trigger] b[k] by {
        assert(whole[a.len() + k] == (a + b)[a.len() + k]);
    }
    assert(ts.subrange(p, p + a.len()) =~= a);
    assert(ts.subrange(p + a.len(), p + a.len() + b.len()) =~= b);
}

// ---------------------------------------------------------------------------
// The parser reads a value back from its tokens
// ---------------------------------------------------------------------------
/// The tokens of a value are never empty and never start with a closing bracket.
proof fn lemma_value_tokens_start(v: ValueModel)
    ensures
        value_tokens(v).len() > 0,
        !(value_tokens(v)[0] is RightBracket),
        !(value_tokens(v)[0] is RightBrace),
{
}

/// Adding the next member of an object whose keys are in order appends it.
proof fn lemma_insert_next(es: Seq<(Seq<char>, ValueModel)>, k: int)
    requires
        keys_ordered(es),
        0 <= k < es.len(),
    ensures
        object_insert(es.take(k), es[k].0, es[k].1) == es.take(k + 1),
{
    let front = es.take(k);
    assert forall|m: int| 0 <= m < front.len() implies #[trigger] front[m].0 != es[k].0 by {
        assert(front[m] == es[m]);
        lemma_key_order(es[m].0, es[k].0, es[k].0);
    }
    lemma_find_key_none(front, es[k].0);
    lemma_slot_from(front, es[k].0, 0);
    if slot(front, es[k].0) < front.len() {
        assert(front[slot(front, es[k].0)] == es[slot(front, es[k].0)]);
    }
    assert(slot(front, es[k].0) == k);
    assert(front.insert(k, (es[k].0, es[k].1)) =~= es.take(k + 1));
}

pub proof fn lemma_parse_value_tokens(ts: Seq<TokenModel>, p: int, v: ValueModel)
    requires
        well_formed(v),
        holds_at(ts, p, value_tokens(v)),
    ensures
        parse_value(ts, p) == Ok::<(ValueModel, int), ErrorModel>((v, p + value_tokens(v).len())),
    decreases v, 0int,
{
    let vt = value_tokens(v);
    assert(ts[p] == vt[0]);
    match v {
        ValueModel::Array(items) => {
            lemma_parse_array_tokens(ts, p, items);
        },
        ValueModel::Object(es) => {
            lemma_parse_object_tokens(ts, p, es);
        },
        ValueModel::Null => {
            assert(vt =~= seq![TokenModel::Null]);
        },
        ValueModel::Boolean(b) => {
            assert(vt =~= seq![TokenModel::Boolean(b)]);
        },
        ValueModel::Number(n) => {
            assert(vt =~= seq![TokenModel::Number(n)]);
        },
        ValueModel::String(t) => {
            assert(vt =~= seq![TokenModel::String(t)]);
        },
    }
}

proof fn lemma_parse_array_tokens(ts: Seq<TokenModel>, p: int, items: Seq<ValueModel>)
    requires
        items_well_formed(items, 0),
        holds_at(ts, p, value_tokens(ValueModel::Array(items))),
    ensures
        parse_value(ts, p) == Ok::<(ValueModel, int), ErrorModel>(
            (ValueModel::Array(items), p + value_tokens(ValueModel::Array(items)).len()),
        ),
    decreases items, items.len(),
{
    let vt = value_tokens(ValueModel::Array(items));
    let it = items_tokens(items, 0);
    assert(vt =~= seq![TokenModel::LeftBracket] + (it + seq![TokenModel::RightBracket]));
    lemma_holds_at_split(ts, p, seq![TokenModel::LeftBracket], it + seq![TokenModel::RightBracket]);
    assert(ts[p] == vt[0]);
    if items.len() == 0 {
        assert(it =~= Seq::<TokenModel>::empty());
        assert(ts[p + 1] == (it + seq![TokenModel::RightBracket])[0]);
        assert(items =~= Seq::<ValueModel>::empty());
        assert(parse_array(ts, p + 1) == Ok::<(ValueModel, int), ErrorModel>(
            (ValueModel::Array(seq![]), p + 2),
        ));
    } else {
        let first = value_tokens(items[0]);
        let rest = items_tokens(items, 1);
        assert(comma_before(0) =~= Seq::<TokenModel>::empty());
        assert(it =~= first + rest);
        assert(it + seq![TokenModel::RightBracket] =~= first + (rest + seq![TokenModel::RightBracket]));
        lemma_holds_at_split(ts, p + 1, first, rest + seq![TokenModel::RightBracket]);
        lemma_items_well_formed(items, 0);
        lemma_parse_value_tokens(ts, p + 1, items[0]);
        lemma_value_tokens_start(items[0]);
        assert(items.take(1) =~= seq![items[0]]);
        lemma_array_rest_tokens(ts, p + 1 + first.len(), items, 1);
        assert(parse_array(ts, p + 1) == array_rest(ts, p + 1 + first.len(), seq![items[0]]));
    }
}

proof fn lemma_parse_object_tokens(ts: Seq<TokenModel>, p: int, es: Seq<(Seq<char>, ValueModel)>)
    requires
        keys_ordered(es),
        members_well_formed(es, 0),
        holds_at(ts, p, value_tokens(ValueModel::Object(es))),
    ensures
        parse_value(ts, p) == Ok::<(ValueModel, int), ErrorModel>(
            (ValueModel::Object(es), p + value_tokens(ValueModel::Object(es)).len()),
        ),
    decreases es, es.len() + 1,
{
    let vt = value_tokens(ValueModel::Object(es));
    let mt = members_tokens(es, 0);
    assert(vt =~= seq![TokenModel::LeftBrace] + (mt + seq![TokenModel::RightBrace]));
    lemma_holds_at_split(ts, p, seq![TokenModel::LeftBrace], mt + seq![TokenModel::RightBrace]);
    assert(ts[p] == vt[0]);
    if es.len() == 0 {
        assert(mt =~= Seq::<TokenModel>::empty());
        assert(ts[p + 1] == (mt + seq![TokenModel::RightBrace])[0]);
        assert(es =~= Seq::<(Seq<char>, ValueModel)>::empty());
        assert(parse_object(ts, p + 1) == Ok::<(ValueModel, int), ErrorModel>(
            (ValueModel::Object(seq![]), p + 2),
        ));
    } else {
        lemma_parse_members_tokens(ts, p + 1, es);
    }
}

/// The members of a non-empty object, after its `{` at `q - 1`.
proof fn lemma_parse_members_tokens(ts: Seq<TokenModel>, q: int, es: Seq<(Seq<char>, ValueModel)>)
    requires
        es.len() > 0,
        keys_ordered(es),
        members_well_formed(es, 0),
        holds_at(ts, q, members_tokens(es, 0) + seq![TokenModel::RightBrace]),
    ensures
        parse_object(ts, q) == Ok::<(ValueModel, int), ErrorModel>(
            (ValueModel::Object(es), q + members_tokens(es, 0).len() + 1),
        ),
    decreases es, es.len(),
{
    let mt = members_tokens(es, 0);
    let head = seq![TokenModel::String(es[0].0), TokenModel::Colon];
    let first = value_tokens(es[0].1);
    let rest = members_tokens(es, 1);
    assert(comma_before(0) =~= Seq::<TokenModel>::empty());
    assert(mt =~= head + first + rest);
    assert(mt + seq![TokenModel::RightBrace] =~= head + (first + (rest + seq![TokenModel::RightBrace])));
    lemma_holds_at_split(ts, q, head, first + (rest + seq![TokenModel::RightBrace]));
    lemma_holds_at_split(ts, q + 2, first, rest + seq![TokenModel::RightBrace]);
    assert(ts[q] == head[0]);
    assert(ts[q + 1] == head[1]);
    lemma_members_well_formed(es, 0);
    lemma_parse_value_tokens(ts, q + 2, es[0].1);
    lemma_insert_next(es, 0);
    assert(es.take(0) =~= Seq::<(Seq<char>, ValueModel)>::empty());
    lemma_object_rest_tokens(ts, q + 2 + first.len(), es, 1);
    assert(parse_member(ts, q + 1, es[0].0, seq![]) == object_rest(ts, q + 2 + first.len(), es.take(1)));
}

proof fn lemma_array_rest_tokens(ts: Seq<TokenModel>, q: int, items: Seq<ValueModel>, k: int)
    requires
        1 <= k <= items.len(),
        forall|i: int| 0 <= i < items.len() ==> #[trigger] well_formed(items[i]),
        holds_at(ts, q, items_tokens(items, k) + seq![TokenModel::RightBracket]),
    ensures
        array_rest(ts, q, items.take(k)) == Ok::<(ValueModel, int), ErrorModel>(
            (ValueModel::Array(items), q + items_tokens(items, k).len() + 1),
        ),
    decreases items, items.len() - k,
{
    let it = items_tokens(items, k);
    lemma_holds_at_split(ts, q, it, seq![TokenModel::RightBracket]);
    if k == items.len() {
        assert(it =~= Seq::<TokenModel>::empty());
        assert(ts[q + it.len() + 0] == seq![TokenModel::RightBracket][0]);
        assert(items.take(k) =~= items);
    } else {
        let one = value_tokens(items[k]);
        let rest = items_tokens(items, k + 1);
        assert(it =~= seq![TokenModel::Comma] + one + rest);
        assert(it + seq![TokenModel::RightBracket] =~= seq![TokenModel::Comma] + (one + (rest + seq![
            TokenModel::RightBracket,
        ])));
        lemma_holds_at_split(ts, q, seq![TokenModel::Comma], one + (rest + seq![TokenModel::RightBracket]));
        lemma_holds_at_split(ts, q + 1, one, rest + seq![TokenModel::RightBracket]);
        assert(ts[q + 0] == seq![TokenModel::Comma][0]);
        assert(well_formed(items[k]));
        lemma_parse_value_tokens(ts, q + 1, items[k]);
        assert(items.take(k).push(items[k]) =~= items.take(k + 1));
        lemma_array_rest_tokens(ts, q + 1 + one.len(), items, k + 1);
    }
}

proof fn lemma_object_rest_tokens(ts: Seq<TokenModel>, r: int, es: Seq<(Seq<char>, ValueModel)>, k: int)
    requires
        1 <= k <= es.len(),
        keys_ordered(es),
        forall|i: int| 0 <= i < es.len() ==> #[trigger] well_formed(es[i].1),
        holds_at(ts, r, members_tokens(es, k) + seq![TokenModel::RightBrace]),
    ensures
        object_rest(ts, r, es.take(k)) == Ok::<(ValueModel, int), ErrorModel>(
            (ValueModel::Object(es), r + members_tokens(es, k).len() + 1),
        ),
    decreases es, es.len() - k,
{
    let mt = members_tokens(es, k);
    lemma_holds_at_split(ts, r, mt, seq![TokenModel::RightBrace]);
    if k == es.len() {
        assert(mt =~= Seq::<TokenModel>::empty());
        assert(ts[r + mt.len() + 0] == seq![TokenModel::RightBrace][0]);
        assert(es.take(k) =~= es);
    } else {
        let head = seq![TokenModel::Comma, TokenModel::String(es[k].0), TokenModel::Colon];
        let one = value_tokens(es[k].1);
        let rest = members_tokens(es, k + 1);
        assert(mt =~= head + one + rest);
        assert(mt + seq![TokenModel::RightBrace] =~= head + (one + (rest + seq![TokenModel::RightBrace])));
        lemma_holds_at_split(ts, r, head, one + (rest + seq![TokenModel::RightBrace]));
        lemma_holds_at_split(ts, r + 3, one, rest + seq![TokenModel::RightBrace]);
        assert(ts[r] == head[0]);
        assert(ts[r + 1] == head[1]);
        assert(ts[r + 2] == head[2]);
        lemma_parse_value_tokens(ts, r + 3, es[k].1);
        lemma_insert_next(es, k);
        lemma_object_rest_tokens(ts, r + 3 + one.len(), es, k + 1);
    }
}

/// The tokens of a well-formed value parse back to the value.
pub proof fn lemma_parse_document_tokens(v: ValueModel)
    requires
        well_formed(v),
    ensures
        parse_document(value_tokens(v), 0) == Ok::<ValueModel, ErrorModel>(v),
{
    let ts = value_tokens(v);
    assert(ts.subrange(0, ts.len() as int) =~= ts);
    lemma_parse_value_tokens(ts, 0, v);
}

// ---------------------------------------------------------------------------
// The scanner reads the tokens of a value back from its text
// ---------------------------------------------------------------------------
/// A value's text may end at `j`: the byte there, if any, can neither go on
/// with a number nor with a keyword.
pub open spec fn value_may_end(s: Seq<u8>, j: int) -> bool {
    j >= s.len() || (!is_number_byte(s[j]) && !is_alpha(s[j]))
}

/// An ASCII text is encoded byte for byte.
pub proof fn lemma_ascii_encode(t: Seq<char>)
    requires
        is_ascii_chars(t),
    ensures
        encode_utf8(t) == char_bytes(t),
{
    is_ascii_chars_encode_utf8(t);
    assert(encode_utf8(t) =~= char_bytes(t));
}

/// The run of bytes satisfying `p` from `i` ends at `j`.
pub(crate) proof fn lemma_run_end_exact(s: Seq<u8>, i: int, j: int, p: spec_fn(u8) -> bool)
    requires
        0 <= i <= j <= s.len(),
        forall|k: int| i <= k < j ==> p(#[trigger] s[k]),
        j == s.len() || !p(s[j]),
    ensures
        run_end(s, i, p) == j,
    decreases j - i,
{
    if i < j {
        lemma_run_end_exact(s, i + 1, j, p);
    }
}

/// Whitespace between tokens yields no token.
proof fn lemma_tokens_skip_whitespace(s: Seq<u8>, i: int, w: Seq<u8>)
    requires
        holds_at(s, i, w),
        forall|k: int| 0 <= k < w.len() ==> is_whitespace(#[trigger] w[k]),
    ensures
        tokens_from(s, i) == tokens_from(s, i + w.len()),
    decreases w.len(),
{
    if w.len() > 0 {
        assert(seq![w[0]] + w.drop_first() =~= w);
        lemma_holds_at_split(s, i, seq![w[0]], w.drop_first());
        assert(s[i + 0] == seq![w[0]][0]);
        lemma_tokens_whitespace(s, i);
        lemma_tokens_skip_whitespace(s, i + 1, w.drop_first());
    }
}

/// A one-byte token.
proof fn lemma_tokens_one(s: Seq<u8>, i: int, b: u8, t: TokenModel)
    requires
        holds_at(s, i, seq![b]),
        char_token(b) == Some(t),
    ensures
        tokens_from(s, i) == prefix_result(seq![t], tokens_from(s, i + 1)),
{
    assert(s.subrange(i, i + 1)[0] == s[i]);
    lemma_tokens_single(s, i);
}

/// A keyword: `true`, `false` or `null`.
proof fn lemma_tokens_keyword(s: Seq<u8>, i: int, w: Seq<u8>)
    requires
        holds_at(s, i, w),
        w.len() > 0,
        w[0] == 0x74 || w[0] == 0x66 || w[0] == 0x6e,
        forall|k: int| 0 <= k < w.len() ==> is_alpha(#[trigger] w[k]),
        value_may_end(s, i + w.len()),
    ensures
        tokens_from(s, i) == match lex_literal(s, i) {
            Ok((t, j)) => prefix_result(seq![t], tokens_from(s, j)),
            Err(e) => Err(e),
        },
        run_end(s, i, alpha_class()) == i + w.len(),
        s.subrange(i, i + w.len()) == w,
{
    assert forall|k: int| i <= k < i + w.len() implies alpha_class()(#[trigger] s[k]) by {
        assert(s.subrange(i, i + w.len())[k - i] == s[k]);
    }
    lemma_run_end_exact(s, i, i + w.len(), alpha_class());
    assert(s.subrange(i, i + w.len())[0] == s[i]);
    lemma_tokens_literal(s, i);
}

/// A canonical number text.
proof fn lemma_tokens_number_text(s: Seq<u8>, i: int, n: Seq<char>)
    requires
        is_canonical_number(n),
        holds_at(s, i, encode_utf8(n)),
        value_may_end(s, i + encode_utf8(n).len()),
    ensures
        tokens_from(s, i) == prefix_result(seq![TokenModel::Number(n)], tokens_from(s, i + encode_utf8(n).len())),
{
    lemma_canonical_number_is_canonical(char_bytes(n));
    lemma_ascii_encode(n);
    let b = char_bytes(n);
    assert(b.len() == n.len());
    assert forall|k: int| i <= k < i + b.len() implies number_class()(#[trigger] s[k]) by {
        assert(s.subrange(i, i + b.len())[k - i] == s[k]);
        assert(b[k - i] == n[k - i] as u8);
    }
    lemma_run_end_exact(s, i, i + b.len(), number_class());
    assert(s.subrange(i, i + b.len())[0] == s[i]);
    assert(b[0] == n[0] as u8);
    lemma_tokens_number(s, i);
    assert(lex_number(s, i) == Ok::<(TokenModel, int), ErrorModel>((TokenModel::Number(n), i + b.len())));
}

/// Escaping a text escapes its parts one after the other.
pub proof fn lemma_escape_chars_concat(a: Seq<char>, b: Seq<char>)
    ensures
        escape_chars(a + b) == escape_chars(a) + escape_chars(b),
    decreases b.len(),
{
    if b.len() == 0 {
        assert(a + b =~= a);
        assert(escape_chars(a) + escape_chars(b) =~= escape_chars(a));
    } else {
        assert((a + b).drop_last() =~= a + b.drop_last());
        assert((a + b).last() == b.last());
        lemma_escape_chars_concat(a, b.drop_last());
        assert(escape_chars(a + b) =~= escape_chars(a) + escape_chars(b));
    }
}

/// The escaped text of a text is the escape of its first character followed
/// by the escaped text of the rest.
proof fn lemma_escape_chars_first(t: Seq<char>)
    requires
        t.len() > 0,
    ensures
        escape_chars(t) == escape_char(t[0]) + escape_chars(t.drop_first()),
{
    assert(seq![t[0]] + t.drop_first() =~= t);
    lemma_escape_chars_concat(seq![t[0]], t.drop_first());
    assert(seq![t[0]].drop_last() =~= Seq::<char>::empty());
    assert(seq![t[0]].last() == t[0]);
    assert(escape_chars(Seq::<char>::empty()) =~= Seq::<char>::empty());
    assert(escape_chars(seq![t[0]]) =~= escape_char(t[0]));
}

/// The hexadecimal text of a value below 32, padded to four digits.
proof fn lemma_hex4_small(n: nat)
    requires
        n < 32,
    ensures
        hex4(n, false) == seq!['0', '0', digit_char(n / 16, false), digit_char(n % 16, false)],
{
    if n < 16 {
        assert(digits(n, 16, false) == seq![digit_char(n, false)]);
        assert(digit_char(0, false) == '0');
        assert(hex4(n, false) =~= seq!['0', '0', digit_char(n / 16, false), digit_char(n % 16, false)]);
    } else {
        assert(n / 16 == 1);
        assert(digits(1, 16, false) == seq![digit_char(1, false)]);
        assert(digits(n, 16, false) == digits(n / 16, 16, false).push(digit_char(n % 16, false)));
        assert(hex4(n, false) =~= seq!['0', '0', digit_char(n / 16, false), digit_char(n % 16, false)]);
    }
}

/// A lower-case hexadecimal digit character is ASCII and reads back as its value.
/// A written character is never a control character.
pub proof fn lemma_escape_char_printable(c: char)
    ensures
        forall|k: int| 0 <= k < escape_char(c).len() ==> (#[trigger] escape_char(c)[k] as u32) >= 0x20,
{
    if (c as u32) < 0x20 && c != '"' && c != '\\' && c != '\n' && c != '\r' && c != '\t' && c != '\u{8}' && c != '\u{c}' {
        let n = c as u32;
        lemma_hex4_small(n as nat);
        lemma_digit_char_hex((n / 16) as nat);
        lemma_digit_char_hex((n % 16) as nat);
        assert(escape_char(c) =~= seq!['\\', 'u', '0', '0', digit_char((n / 16) as nat, false), digit_char((n % 16) as nat, false)]);
    }
}

/// The escaped text of a string holds no control character.
pub proof fn lemma_escape_chars_printable(s: Seq<char>)
    ensures
        forall|k: int| 0 <= k < escape_chars(s).len() ==> (#[trigger] escape_chars(s)[k] as u32) >= 0x20,
    decreases s.len(),
{
    if s.len() > 0 {
        lemma_escape_chars_printable(s.drop_last());
        lemma_escape_char_printable(s.last());
        let a = escape_chars(s.drop_last());
        let b = escape_char(s.last());
        assert forall|k: int| 0 <= k < escape_chars(s).len() implies (#[trigger] escape_chars(s)[k] as u32) >= 0x20 by {
            if k < a.len() {
                assert(escape_chars(s)[k] == a[k]);
            } else {
                assert(escape_chars(s)[k] == b[k - a.len()]);
            }
        }
    }
}

proof fn lemma_digit_char_hex(d: nat)
    requires
        d < 16,
    ensures
        (digit_char(d, false) as u32) < 0x80,
        hex_value(digit_char(d, false) as u8) == Some(d as u32),
{
}

/// The bytes of a character written as itself hold no quote and no backslash.
proof fn lemma_plain_char_bytes(c: char)
    requires
        c != '"',
        c != '\\',
    ensures
        forall|k: int|
            0 <= k < encode_scalar(c as u32).len() ==> #[trigger] encode_scalar(c as u32)[k] != 0x22
                && encode_scalar(c as u32)[k] != 0x5c,
{
    let v = c as u32;
    if v <= 0x7f {
        assert(leading_byte_width_1(v) == v) by (bit_vector)
            requires
                v <= 0x7f,
        ;
    } else {
        assert(leading_byte_width_2(v) >= 0x80) by (bit_vector);
        assert(leading_byte_width_3(v) >= 0x80) by (bit_vector);
        assert(leading_byte_width_4(v) >= 0x80) by (bit_vector);
        assert(last_continuation_byte(v) >= 0x80) by (bit_vector);
        assert(second_last_continuation_byte(v) >= 0x80) by (bit_vector);
        assert(third_last_continuation_byte(v) >= 0x80) by (bit_vector);
    }
}

/// A two-character escape `\x`.
proof fn lemma_short_escape_step(s: Seq<u8>, start: int, p: int, acc: Seq<u8>, c: char, x: char)
    requires
        escape_char(c) == seq!['\\', x],
        (x as u32) < 0x80,
        simple_escape(x as u8) == Some(c),
        holds_at(s, p, encode_utf8(escape_char(c))),
    ensures
        encode_utf8(escape_char(c)).len() == 2,
        string_bytes(s, start, p, acc) == string_bytes(s, start, p + 2, acc + encode_scalar(c as u32)),
{
    let e = escape_char(c);
    assert(is_ascii_chars(e));
    lemma_ascii_encode(e);
    let b = encode_utf8(e);
    assert(b =~= seq![0x5cu8, x as u8]);
    assert(s.subrange(p, p + 2)[0] == s[p]);
    assert(s.subrange(p, p + 2)[1] == s[p + 1]);
    lemma_string_bytes_special(s, start, p, acc);
}

/// A `\u00XX` escape of a control character.
#[verifier::rlimit(60)]
#[verifier::spinoff_prover]
proof fn lemma_unicode_escape_step(s: Seq<u8>, start: int, p: int, acc: Seq<u8>, c: char)
    requires
        (c as u32) < 0x20,
        escape_char(c) == seq!['\\', 'u'] + hex4(c as nat, false),
        holds_at(s, p, encode_utf8(escape_char(c))),
    ensures
        encode_utf8(escape_char(c)).len() == 6,
        string_bytes(s, start, p, acc) == string_bytes(s, start, p + 6, acc + encode_scalar(c as u32)),
{
    let n = c as u32;
    lemma_hex4_small(n as nat);
    let d1 = digit_char((n / 16) as nat, false);
    let d2 = digit_char((n % 16) as nat, false);
    lemma_digit_char_hex((n / 16) as nat);
    lemma_digit_char_hex((n % 16) as nat);
    let e = escape_char(c);
    assert(e =~= seq!['\\', 'u', '0', '0', d1, d2]);
    assert(is_ascii_chars(e));
    lemma_ascii_encode(e);
    let b = encode_utf8(e);
    assert(b =~= seq![0x5cu8, 0x75, 0x30, 0x30, d1 as u8, d2 as u8]);
    assert forall|k: int| 0 <= k < 6 implies s[p + k] == #[trigger] b[k] by {
        assert(s.subrange(p, p + 6)[k] == s[p + k]);
    }
    assert forall|k: int| p + 2 <= k < p + 2 + 4 implies (#[trigger] hex_value(s[k])) is Some by {
        assert(s[p + (k - p)] == b[k - p]);
    }
    lemma_hex_run_prefix(s, p + 2, 4, 4);
    let digits4 = s.subrange(p + 2, p + 6);
    assert(digits4 =~= seq![0x30u8, 0x30, d1 as u8, d2 as u8]);
    reveal_with_fuel(hex_number, 5);
    assert(digits4.drop_last() =~= seq![0x30u8, 0x30, d1 as u8]);
    assert(digits4.drop_last().drop_last() =~= seq![0x30u8, 0x30]);
    assert(digits4.drop_last().drop_last().drop_last() =~= seq![0x30u8]);
    assert(digits4.drop_last().drop_last().drop_last().drop_last() =~= Seq::<u8>::empty());
    assert(hex_number(digits4) == n);
    assert(read_hex(s, p + 2, 4) == Ok::<(u32, int), ErrorModel>((n, p + 6)));
    assert(!is_high_surrogate_spec(n));
    assert(read_unicode_escape(s, p + 1) == Ok::<(char, int), ErrorModel>((c, p + 6)));
    assert(read_escape(s, start, p + 1) == Ok::<(char, int), ErrorModel>((c, p + 6)));
    lemma_string_bytes_special(s, start, p, acc);
}

/// One character of a string's content, as the serializer writes it.
proof fn lemma_escape_step(s: Seq<u8>, start: int, p: int, acc: Seq<u8>, c: char)
    requires
        holds_at(s, p, encode_utf8(escape_char(c))),
    ensures
        string_bytes(s, start, p, acc) == string_bytes(
            s,
            start,
            p + encode_utf8(escape_char(c)).len(),
            acc + encode_scalar(c as u32),
        ),
{
    if c == '"' {
        lemma_short_escape_step(s, start, p, acc, c, '"');
    } else if c == '\\' {
        lemma_short_escape_step(s, start, p, acc, c, '\\');
    } else if c == '\n' {
        lemma_short_escape_step(s, start, p, acc, c, 'n');
    } else if c == '\r' {
        lemma_short_escape_step(s, start, p, acc, c, 'r');
    } else if c == '\t' {
        lemma_short_escape_step(s, start, p, acc, c, 't');
    } else if c == '\u{8}' {
        lemma_short_escape_step(s, start, p, acc, c, 'b');
    } else if c == '\u{c}' {
        lemma_short_escape_step(s, start, p, acc, c, 'f');
    } else if (c as u32) < 0x20 {
        lemma_unicode_escape_step(s, start, p, acc, c);
    } else {
        lemma_encode_char(c);
        let b = encode_scalar(c as u32);
        assert(escape_char(c) == seq![c]);
        lemma_plain_char_bytes(c);
        assert forall|m: int| p <= m < p + b.len() implies #[trigger] s[m] != 0x22 && s[m] != 0x5c by {
            assert(s.subrange(p, p + b.len())[m - p] == s[m]);
        }
        lemma_string_bytes_skip(s, start, p, p + b.len(), acc);
    }
}

/// The escaped content of a string, followed by the closing quote.
proof fn lemma_string_bytes_escaped(s: Seq<u8>, start: int, p: int, t: Seq<char>, acc: Seq<u8>)
    requires
        holds_at(s, p, encode_utf8(escape_chars(t)) + seq![0x22u8]),
    ensures
        string_bytes(s, start, p, acc) == Ok::<(Seq<u8>, int), ErrorModel>(
            (acc + encode_utf8(t), p + encode_utf8(escape_chars(t)).len() + 1),
        ),
    decreases t.len(),
{
    if t.len() == 0 {
        assert(escape_chars(t) =~= Seq::<char>::empty());
        assert(encode_utf8(escape_chars(t)) =~= Seq::<u8>::empty());
        lemma_holds_at_split(s, p, encode_utf8(escape_chars(t)), seq![0x22u8]);
        assert(s[p + 0 + 0] == seq![0x22u8][0]);
        lemma_string_bytes_special(s, start, p, acc);
        assert(acc + encode_utf8(t) =~= acc);
    } else {
        let c = t[0];
        let r = t.drop_first();
        lemma_escape_chars_first(t);
        lemma_encode_utf8_concat(escape_char(c), escape_chars(r));
        let e1 = encode_utf8(escape_char(c));
        let er = encode_utf8(escape_chars(r));
        assert(encode_utf8(escape_chars(t)) + seq![0x22u8] =~= e1 + (er + seq![0x22u8]));
        lemma_holds_at_split(s, p, e1, er + seq![0x22u8]);
        lemma_escape_step(s, start, p, acc, c);
        lemma_string_bytes_escaped(s, start, p + e1.len(), r, acc + encode_scalar(c as u32));
        assert(encode_utf8(t) == encode_scalar(c as u32) + encode_utf8(r));
        assert(acc + encode_scalar(c as u32) + encode_utf8(r) =~= acc + encode_utf8(t));
    }
}

/// A string literal as the serializer writes it.
proof fn lemma_tokens_string_text(s: Seq<u8>, i: int, t: Seq<char>)
    requires
        holds_at(s, i, encode_utf8(quoted(t))),
    ensures
        tokens_from(s, i) == prefix_result(
            seq![TokenModel::String(t)],
            tokens_from(s, i + encode_utf8(quoted(t)).len()),
        ),
{
    let body = encode_utf8(escape_chars(t));
    lemma_encode_utf8_concat(seq!['"'], escape_chars(t));
    lemma_encode_utf8_concat(seq!['"'] + escape_chars(t), seq!['"']);
    lemma_ascii_encode(seq!['"']);
    assert(encode_utf8(seq!['"']) =~= seq![0x22u8]);
    assert(encode_utf8(quoted(t)) =~= seq![0x22u8] + (body + seq![0x22u8]));
    lemma_holds_at_split(s, i, seq![0x22u8], body + seq![0x22u8]);
    assert(s[i + 0] == seq![0x22u8][0]);
    lemma_string_bytes_escaped(s, i, i + 1, t, seq![]);
    assert(Seq::<u8>::empty() + encode_utf8(t) =~= encode_utf8(t));
    lemma_tokens_string(s, i);
    assert(lex_string(s, i) == Ok::<(Seq<char>, int), ErrorModel>((t, i + 1 + body.len() + 1)));
}

proof fn lemma_prefix_empty(r: Result<Seq<TokenModel>, ErrorModel>)
    ensures
        prefix_result(seq![], r) == r,
{
    if let Ok(ts) = r {
        assert(Seq::<TokenModel>::empty() + ts =~= ts);
    }
}

/// Line breaks and indentation are whitespace.
proof fn lemma_layout_bytes(w: Seq<char>)
    requires
        forall|k: int| 0 <= k < w.len() ==> #[trigger] w[k] == '\n' || w[k] == ' ',
    ensures
        forall|k: int| 0 <= k < encode_utf8(w).len() ==> is_whitespace(#[trigger] encode_utf8(w)[k]),
{
    assert(is_ascii_chars(w));
    lemma_ascii_encode(w);
    assert forall|k: int| 0 <= k < encode_utf8(w).len() implies is_whitespace(#[trigger] encode_utf8(w)[k]) by {
        assert(encode_utf8(w)[k] == w[k] as u8);
    }
}

proof fn lemma_line_layout(indent: Option<nat>, n: nat)
    ensures
        forall|k: int|
            0 <= k < encode_utf8(newline(indent) + pad(indent, n)).len() ==> is_whitespace(
                #[trigger] encode_utf8(newline(indent) + pad(indent, n))[k],
            ),
        forall|k: int|
            0 <= k < encode_utf8(closing(n, indent, n)).len() ==> is_whitespace(
                #[trigger] encode_utf8(closing(n, indent, n))[k],
            ),
{
    let w = newline(indent) + pad(indent, n);
    assert forall|k: int| 0 <= k < w.len() implies #[trigger] w[k] == '\n' || w[k] == ' ' by {
        if indent is Some && k > 0 {
            assert(w[k] == pad(indent, n)[k - 1]);
        }
    }
    lemma_layout_bytes(w);
    if n == 0 {
        assert(closing(n, indent, n) =~= Seq::<char>::empty());
    }
}

/// What closes a container: nothing, or a line break and the indentation.
proof fn lemma_closing_layout(len: nat, indent: Option<nat>, cur: nat)
    ensures
        forall|k: int|
            0 <= k < encode_utf8(closing(len, indent, cur)).len() ==> is_whitespace(
                #[trigger] encode_utf8(closing(len, indent, cur))[k],
            ),
{
    lemma_line_layout(indent, cur);
    if len == 0 {
        assert(closing(len, indent, cur) =~= Seq::<char>::empty());
    }
}

/// A one-character ASCII text is one byte.
proof fn lemma_encode_ascii_char(c: char)
    requires
        (c as u32) < 0x80,
    ensures
        encode_utf8(seq![c]) == seq![c as u8],
{
    assert(is_ascii_chars(seq![c]));
    lemma_ascii_encode(seq![c]);
    assert(char_bytes(seq![c]) =~= seq![c as u8]);
}

/// The bytes of a text that starts with a comma start with a comma.
proof fn lemma_starts_with_comma(t: Seq<char>)
    requires
        t.len() > 0,
        t[0] == ',',
    ensures
        encode_utf8(t).len() > 0,
        encode_utf8(t)[0] == 0x2c,
{
    assert(seq![','] + t.drop_first() =~= t);
    lemma_encode_utf8_concat(seq![','], t.drop_first());
    lemma_encode_ascii_char(',');
}

/// The separator before element `k`, as bytes.
proof fn lemma_separator_bytes(k: int)
    ensures
        k > 0 ==> encode_utf8(separator(k)) == seq![0x2cu8],
        k <= 0 ==> encode_utf8(separator(k)) == Seq::<u8>::empty(),
{
    lemma_encode_ascii_char(',');
}

/// The elements of an array from index `k` on.
proof fn lemma_tokens_items(
    s: Seq<u8>,
    p: int,
    items: Seq<ValueModel>,
    indent: Option<nat>,
    inner: nat,
    k: int,
)
    requires
        0 <= k,
        items_well_formed(items, k),
        holds_at(s, p, encode_utf8(render_items(items, indent, inner, k))),
        value_may_end(s, p + encode_utf8(render_items(items, indent, inner, k)).len()),
    ensures
        tokens_from(s, p) == prefix_result(
            items_tokens(items, k),
            tokens_from(s, p + encode_utf8(render_items(items, indent, inner, k)).len()),
        ),
    decreases items, items.len() - k,
{
    if k >= items.len() {
        assert(render_items(items, indent, inner, k) =~= Seq::<char>::empty());
        assert(items_tokens(items, k) =~= Seq::<TokenModel>::empty());
        lemma_prefix_empty(tokens_from(s, p));
    } else {
        let sep = separator(k);
        let lay = newline(indent) + pad(indent, inner);
        let item = render(items[k], indent, inner);
        let rest = render_items(items, indent, inner, k + 1);
        assert(render_items(items, indent, inner, k) =~= sep + (lay + (item + rest)));
        lemma_encode_utf8_concat(item, rest);
        lemma_encode_utf8_concat(lay, item + rest);
        lemma_encode_utf8_concat(sep, lay + (item + rest));
        let es = encode_utf8(sep);
        let el = encode_utf8(lay);
        let ei = encode_utf8(item);
        let er = encode_utf8(rest);
        assert(encode_utf8(render_items(items, indent, inner, k)) =~= es + (el + (ei + er)));
        lemma_holds_at_split(s, p, es, el + (ei + er));
        lemma_holds_at_split(s, p + es.len(), el, ei + er);
        lemma_holds_at_split(s, p + es.len() + el.len(), ei, er);
        let p1 = p + es.len();
        let p2 = p1 + el.len();
        let p3 = p2 + ei.len();
        let p4 = p3 + er.len();
        lemma_separator_bytes(k);
        lemma_line_layout(indent, inner);
        lemma_tokens_skip_whitespace(s, p1, el);
        if k + 1 < items.len() {
            assert(rest[0] == ',');
            lemma_starts_with_comma(rest);
            assert(s[p3 + 0] == er[0]);
        } else {
            assert(rest =~= Seq::<char>::empty());
            assert(er =~= Seq::<u8>::empty());
        }
        lemma_tokens_rendered(s, p2, items[k], indent, inner);
        lemma_tokens_items(s, p3, items, indent, inner, k + 1);
        let vt = value_tokens(items[k]);
        let rt = items_tokens(items, k + 1);
        lemma_prefix_compose(vt, rt, tokens_from(s, p4));
        if k > 0 {
            lemma_tokens_one(s, p, 0x2c, TokenModel::Comma);
            lemma_prefix_compose(seq![TokenModel::Comma], vt + rt, tokens_from(s, p4));
            assert(items_tokens(items, k) =~= seq![TokenModel::Comma] + (vt + rt));
        } else {
            assert(items_tokens(items, k) =~= vt + rt);
        }
    }
}

/// An array as the serializer writes it.
proof fn lemma_tokens_array(s: Seq<u8>, i: int, items: Seq<ValueModel>, indent: Option<nat>, cur: nat)
    requires
        items_well_formed(items, 0),
        holds_at(s, i, encode_utf8(render(ValueModel::Array(items), indent, cur))),
    ensures
        tokens_from(s, i) == prefix_result(
            value_tokens(ValueModel::Array(items)),
            tokens_from(s, i + encode_utf8(render(ValueModel::Array(items), indent, cur)).len()),
        ),
    decreases items, items.len() + 1,
{
    let inner = cur + step(indent);
    let ri = render_items(items, indent, inner, 0);
    let cl = closing(items.len(), indent, cur);
    assert(render(ValueModel::Array(items), indent, cur) =~= seq!['['] + (ri + (cl + seq![']'])));
    lemma_encode_utf8_concat(cl, seq![']']);
    lemma_encode_utf8_concat(ri, cl + seq![']']);
    lemma_encode_utf8_concat(seq!['['], ri + (cl + seq![']']));
    lemma_encode_ascii_char('[');
    lemma_encode_ascii_char(']');
    let eri = encode_utf8(ri);
    let ecl = encode_utf8(cl);
    assert(encode_utf8(render(ValueModel::Array(items), indent, cur)) =~= seq![0x5bu8] + (eri + (ecl
        + seq![0x5du8])));
    lemma_holds_at_split(s, i, seq![0x5bu8], eri + (ecl + seq![0x5du8]));
    lemma_holds_at_split(s, i + 1, eri, ecl + seq![0x5du8]);
    lemma_holds_at_split(s, i + 1 + eri.len(), ecl, seq![0x5du8]);
    let q = i + 1 + eri.len();
    let e = q + ecl.len();
    lemma_closing_layout(items.len(), indent, cur);
    assert(s[e + 0] == seq![0x5du8][0]);
    if ecl.len() > 0 {
        assert(s[q + 0] == ecl[0]);
    }
    lemma_tokens_one(s, i, 0x5b, TokenModel::LeftBracket);
    lemma_tokens_items(s, i + 1, items, indent, inner, 0);
    lemma_tokens_skip_whitespace(s, q, ecl);
    lemma_tokens_one(s, e, 0x5d, TokenModel::RightBracket);
    let it = items_tokens(items, 0);
    lemma_prefix_compose(it, seq![TokenModel::RightBracket], tokens_from(s, e + 1));
    lemma_prefix_compose(seq![TokenModel::LeftBracket], it + seq![TokenModel::RightBracket], tokens_from(s, e + 1));
    assert(value_tokens(ValueModel::Array(items)) =~= seq![TokenModel::LeftBracket] + (it + seq![
        TokenModel::RightBracket,
    ]));
}

/// The members of an object from index `k` on.
#[verifier::rlimit(30)]
proof fn lemma_tokens_members(
    s: Seq<u8>,
    p: int,
    es: Seq<(Seq<char>, ValueModel)>,
    indent: Option<nat>,
    inner: nat,
    k: int,
)
    requires
        0 <= k,
        members_well_formed(es, k),
        holds_at(s, p, encode_utf8(render_members(es, indent, inner, k))),
        value_may_end(s, p + encode_utf8(render_members(es, indent, inner, k)).len()),
    ensures
        tokens_from(s, p) == prefix_result(
            members_tokens(es, k),
            tokens_from(s, p + encode_utf8(render_members(es, indent, inner, k)).len()),
        ),
    decreases es, es.len() - k,
{
    if k >= es.len() {
        assert(render_members(es, indent, inner, k) =~= Seq::<char>::empty());
        assert(members_tokens(es, k) =~= Seq::<TokenModel>::empty());
        lemma_prefix_empty(tokens_from(s, p));
    } else {
        let sep = separator(k);
        let lay = newline(indent) + pad(indent, inner);
        let key = quoted(es[k].0);
        let item = render(es[k].1, indent, inner);
        let rest = render_members(es, indent, inner, k + 1);
        assert(render_members(es, indent, inner, k) =~= sep + (lay + (key + (seq![':'] + (item + rest)))));
        lemma_encode_utf8_concat(item, rest);
        lemma_encode_utf8_concat(seq![':'], item + rest);
        lemma_encode_utf8_concat(key, seq![':'] + (item + rest));
        lemma_encode_utf8_concat(lay, key + (seq![':'] + (item + rest)));
        lemma_encode_utf8_concat(sep, lay + (key + (seq![':'] + (item + rest))));
        lemma_encode_ascii_char(':');
        let e_sep = encode_utf8(sep);
        let el = encode_utf8(lay);
        let ek = encode_utf8(key);
        let ei = encode_utf8(item);
        let er = encode_utf8(rest);
        assert(encode_utf8(render_members(es, indent, inner, k)) =~= e_sep + (el + (ek + (seq![0x3au8] + (
        ei + er)))));
        lemma_holds_at_split(s, p, e_sep, el + (ek + (seq![0x3au8] + (ei + er))));
        let p1 = p + e_sep.len();
        lemma_holds_at_split(s, p1, el, ek + (seq![0x3au8] + (ei + er)));
        let p2 = p1 + el.len();
        lemma_holds_at_split(s, p2, ek, seq![0x3au8] + (ei + er));
        let p3 = p2 + ek.len();
        lemma_holds_at_split(s, p3, seq![0x3au8], ei + er);
        let p4 = p3 + 1;
        lemma_holds_at_split(s, p4, ei, er);
        let p5 = p4 + ei.len();
        let p6 = p5 + er.len();
        lemma_separator_bytes(k);
        lemma_line_layout(indent, inner);
        lemma_tokens_skip_whitespace(s, p1, el);
        lemma_tokens_string_text(s, p2, es[k].0);
        lemma_tokens_one(s, p3, 0x3a, TokenModel::Colon);
        if k + 1 < es.len() {
            assert(rest[0] == ',');
            lemma_starts_with_comma(rest);
            assert(s[p5 + 0] == er[0]);
        } else {
            assert(rest =~= Seq::<char>::empty());
            assert(er =~= Seq::<u8>::empty());
        }
        lemma_tokens_rendered(s, p4, es[k].1, indent, inner);
        lemma_tokens_members(s, p5, es, indent, inner, k + 1);
        let vt = value_tokens(es[k].1);
        let rt = members_tokens(es, k + 1);
        let head = seq![TokenModel::String(es[k].0), TokenModel::Colon];
        lemma_prefix_compose(vt, rt, tokens_from(s, p6));
        lemma_prefix_compose(seq![TokenModel::Colon], vt + rt, tokens_from(s, p6));
        lemma_prefix_compose(seq![TokenModel::String(es[k].0)], seq![TokenModel::Colon] + (vt + rt), tokens_from(s, p6));
        assert(seq![TokenModel::String(es[k].0)] + (seq![TokenModel::Colon] + (vt + rt)) =~= head + (vt + rt));
        if k > 0 {
            lemma_tokens_one(s, p, 0x2c, TokenModel::Comma);
            lemma_prefix_compose(seq![TokenModel::Comma], head + (vt + rt), tokens_from(s, p6));
            assert(members_tokens(es, k) =~= seq![TokenModel::Comma] + (head + (vt + rt)));
        } else {
            assert(members_tokens(es, k) =~= head + (vt + rt));
        }
    }
}

/// An object as the serializer writes it.
proof fn lemma_tokens_object(
    s: Seq<u8>,
    i: int,
    es: Seq<(Seq<char>, ValueModel)>,
    indent: Option<nat>,
    cur: nat,
)
    requires
        members_well_formed(es, 0),
        holds_at(s, i, encode_utf8(render(ValueModel::Object(es), indent, cur))),
    ensures
        tokens_from(s, i) == prefix_result(
            value_tokens(ValueModel::Object(es)),
            tokens_from(s, i + encode_utf8(render(ValueModel::Object(es), indent, cur)).len()),
        ),
    decreases es, es.len() + 1,
{
    let inner = cur + step(indent);
    let rm = render_members(es, indent, inner, 0);
    let cl = closing(es.len(), indent, cur);
    assert(render(ValueModel::Object(es), indent, cur) =~= seq!['{'] + (rm + (cl + seq!['}'])));
    lemma_encode_utf8_concat(cl, seq!['}']);
    lemma_encode_utf8_concat(rm, cl + seq!['}']);
    lemma_encode_utf8_concat(seq!['{'], rm + (cl + seq!['}']));
    lemma_encode_ascii_char('{');
    lemma_encode_ascii_char('}');
    let erm = encode_utf8(rm);
    let ecl = encode_utf8(cl);
    assert(encode_utf8(render(ValueModel::Object(es), indent, cur)) =~= seq![0x7bu8] + (erm + (ecl
        + seq![0x7du8])));
    lemma_holds_at_split(s, i, seq![0x7bu8], erm + (ecl + seq![0x7du8]));
    lemma_holds_at_split(s, i + 1, erm, ecl + seq![0x7du8]);
    lemma_holds_at_split(s, i + 1 + erm.len(), ecl, seq![0x7du8]);
    let q = i + 1 + erm.len();
    let e = q + ecl.len();
    lemma_closing_layout(es.len(), indent, cur);
    assert(s[e + 0] == seq![0x7du8][0]);
    if ecl.len() > 0 {
        assert(s[q + 0] == ecl[0]);
    }
    lemma_tokens_one(s, i, 0x7b, TokenModel::LeftBrace);
    lemma_tokens_members(s, i + 1, es, indent, inner, 0);
    lemma_tokens_skip_whitespace(s, q, ecl);
    lemma_tokens_one(s, e, 0x7d, TokenModel::RightBrace);
    let mt = members_tokens(es, 0);
    lemma_prefix_compose(mt, seq![TokenModel::RightBrace], tokens_from(s, e + 1));
    lemma_prefix_compose(seq![TokenModel::LeftBrace], mt + seq![TokenModel::RightBrace], tokens_from(s, e + 1));
    assert(value_tokens(ValueModel::Object(es)) =~= seq![TokenModel::LeftBrace] + (mt + seq![
        TokenModel::RightBrace,
    ]));
}

/// The scanner reads the tokens of a well-formed value back from the text
/// that the serializer writes for it, whatever follows the text, provided
/// that what follows cannot run on into the value's last token.
pub proof fn lemma_tokens_rendered(s: Seq<u8>, i: int, v: ValueModel, indent: Option<nat>, cur: nat)
    requires
        well_formed(v),
        holds_at(s, i, encode_utf8(render(v, indent, cur))),
        value_may_end(s, i + encode_utf8(render(v, indent, cur)).len()),
    ensures
        tokens_from(s, i) == prefix_result(
            value_tokens(v),
            tokens_from(s, i + encode_utf8(render(v, indent, cur)).len()),
        ),
    decreases v, 0int,
{
    match v {
        ValueModel::Null => {
            reveal_strlit("null");
            let w = encode_utf8("null"@);
            lemma_ascii_encode("null"@);
            assert(w =~= seq![0x6eu8, 0x75, 0x6c, 0x6c]);
            lemma_tokens_keyword(s, i, w);
            assert(value_tokens(v) =~= seq![TokenModel::Null]);
        },
        ValueModel::Boolean(b) => {
            if b {
                reveal_strlit("true");
                let w = encode_utf8("true"@);
                lemma_ascii_encode("true"@);
                assert(w =~= seq![0x74u8, 0x72, 0x75, 0x65]);
                lemma_tokens_keyword(s, i, w);
            } else {
                reveal_strlit("false");
                let w = encode_utf8("false"@);
                lemma_ascii_encode("false"@);
                assert(w =~= seq![0x66u8, 0x61, 0x6c, 0x73, 0x65]);
                lemma_tokens_keyword(s, i, w);
            }
            assert(value_tokens(v) =~= seq![TokenModel::Boolean(b)]);
        },
        ValueModel::Number(n) => {
            lemma_tokens_number_text(s, i, n);
            assert(value_tokens(v) =~= seq![TokenModel::Number(n)]);
        },
        ValueModel::String(t) => {
            lemma_tokens_string_text(s, i, t);
            assert(value_tokens(v) =~= seq![TokenModel::String(t)]);
        },
        ValueModel::Array(items) => {
            lemma_tokens_array(s, i, items, indent, cur);
        },
        ValueModel::Object(es) => {
            lemma_tokens_object(s, i, es, indent, cur);
        },
    }
}

/// The whole text of a well-formed value scans to the value's tokens.
pub proof fn lemma_tokenize_rendered(v: ValueModel, indent: Option<nat>)
    requires
        well_formed(v),
    ensures
        tokenize_spec(encode_utf8(render(v, indent, 0))) == Ok::<Seq<TokenModel>, ErrorModel>(value_tokens(v)),
{
    let s = encode_utf8(render(v, indent, 0));
    assert(s.subrange(0, s.len() as int) =~= s);
    lemma_tokens_rendered(s, 0, v, indent, 0);
    lemma_tokens_end(s, s.len() as int);
    assert(value_tokens(v) + Seq::<TokenModel>::empty() =~= value_tokens(v));
}

// ---------------------------------------------------------------------------
// What the scanner and the parser produce is well-formed
// ---------------------------------------------------------------------------
/// Every number token holds a canonical number text.
pub open spec fn numbers_canonical(ts: Seq<TokenModel>) -> bool {
    forall|k: int| 0 <= k < ts.len() && (#[trigger] ts[k]) is Number ==> is_canonical_number(ts[k]->Number_0)
}

proof fn lemma_numbers_canonical_prefix(t: TokenModel, r: Result<Seq<TokenModel>, ErrorModel>)
    requires
        !(t is Number) || is_canonical_number(t->Number_0),
        r matches Ok(ts) ==> numbers_canonical(ts),
    ensures
        prefix_result(seq![t], r) matches Ok(ts) ==> numbers_canonical(ts),
{
    if let Ok(ts) = r {
        let all = seq![t] + ts;
        assert forall|k: int| 0 <= k < all.len() && (#[trigger] all[k]) is Number implies is_canonical_number(
            all[k]->Number_0,
        ) by {
            if k > 0 {
                assert(all[k] == ts[k - 1]);
            }
        }
    }
}

/// The scanner only produces number tokens that hold canonical texts.
pub proof fn lemma_scanned_numbers_canonical(s: Seq<u8>, i: int)
    requires
        0 <= i,
    ensures
        tokens_from(s, i) matches Ok(ts) ==> numbers_canonical(ts),
    decreases s.len() - i,
{
    if i >= s.len() {
        lemma_tokens_end(s, s.len() as int);
        if i > s.len() {
            reveal(tokens_from);
        }
        assert(Seq::<TokenModel>::empty().len() == 0);
    } else {
        let b = s[i];
        if char_token(b) is Some {
            lemma_tokens_single(s, i);
            lemma_scanned_numbers_canonical(s, i + 1);
            lemma_numbers_canonical_prefix(char_token(b)->0, tokens_from(s, i + 1));
        } else if b == 0x22 {
            lemma_tokens_string(s, i);
            lemma_lex_string_advances(s, i);
            if let Ok((v, j)) = lex_string(s, i) {
                lemma_scanned_numbers_canonical(s, j);
                lemma_numbers_canonical_prefix(TokenModel::String(v), tokens_from(s, j));
            }
        } else if is_digit(b) || b == 0x2d {
            lemma_tokens_number(s, i);
            lemma_run_end(s, i, number_class());
            if let Ok((t, j)) = lex_number(s, i) {
                lemma_canonical_number_is_canonical(s.subrange(i, j));
                lemma_scanned_numbers_canonical(s, j);
                lemma_numbers_canonical_prefix(t, tokens_from(s, j));
            }
        } else if b == 0x74 || b == 0x66 || b == 0x6e {
            lemma_tokens_literal(s, i);
            lemma_run_end(s, i, alpha_class());
            if let Ok((t, j)) = lex_literal(s, i) {
                lemma_scanned_numbers_canonical(s, j);
                lemma_numbers_canonical_prefix(t, tokens_from(s, j));
            }
        } else if is_whitespace(b) {
            lemma_tokens_whitespace(s, i);
            lemma_scanned_numbers_canonical(s, i + 1);
        } else {
            lemma_tokens_other(s, i);
        }
    }
}

/// Inserting a member keeps the keys in order and the values well-formed.
pub proof fn lemma_object_insert_well_formed(es: Seq<(Seq<char>, ValueModel)>, k: Seq<char>, v: ValueModel)
    ensures
        keys_ordered(es) ==> keys_ordered(object_insert(es, k, v)),
        (forall|i: int| 0 <= i < es.len() ==> #[trigger] well_formed(es[i].1)) && well_formed(v) ==> forall|
            i: int,
        |
            0 <= i < object_insert(es, k, v).len() ==> #[trigger] well_formed(object_insert(es, k, v)[i].1),
{
    lemma_find_key_from(es, k, 0);
    let r = object_insert(es, k, v);
    if keys_ordered(es) {
        lemma_object_insert_ordered(es, k, v);
    }
    if (forall|i: int| 0 <= i < es.len() ==> #[trigger] well_formed(es[i].1)) && well_formed(v) {
        lemma_slot_from(es, k, 0);
        assert forall|i: int| 0 <= i < r.len() implies #[trigger] well_formed(r[i].1) by {
            match find_key(es, k) {
                Some(x) => {
                    if i != x {
                        assert(r[i] == es[i]);
                    }
                },
                None => {
                    let s = slot(es, k);
                    if i < s {
                        assert(r[i] == es[i]);
                    } else if i > s {
                        assert(r[i] == es[i - 1]);
                    }
                },
            }
        }
    }
}

pub proof fn lemma_parsed_value_well_formed(ts: Seq<TokenModel>, p: int)
    requires
        numbers_canonical(ts),
    ensures
        parse_value(ts, p) matches Ok((v, q)) ==> well_formed(v),
    decreases ts.len() - p, 0int,
{
    if 0 <= p < ts.len() {
        match ts[p] {
            TokenModel::LeftBracket => lemma_parsed_array_well_formed(ts, p + 1),
            TokenModel::LeftBrace => lemma_parsed_object_well_formed(ts, p + 1),
            TokenModel::Number(n) => {
                assert(is_canonical_number(ts[p]->Number_0));
            },
            _ => {},
        }
    }
}

proof fn lemma_parsed_array_well_formed(ts: Seq<TokenModel>, p: int)
    requires
        numbers_canonical(ts),
    ensures
        parse_array(ts, p) matches Ok((v, q)) ==> well_formed(v),
    decreases ts.len() - p, 1int,
{
    if 0 <= p < ts.len() {
        if ts[p] is RightBracket {
            lemma_items_well_formed(Seq::<ValueModel>::empty(), 0);
        } else {
            lemma_parsed_value_well_formed(ts, p);
            if let Ok((v, q)) = parse_value(ts, p) {
                if p < q <= ts.len() {
                    assert(seq![v][0] == v);
                    lemma_array_rest_well_formed(ts, q, seq![v]);
                }
            }
        }
    }
}

proof fn lemma_array_rest_well_formed(ts: Seq<TokenModel>, q: int, items: Seq<ValueModel>)
    requires
        numbers_canonical(ts),
        forall|i: int| 0 <= i < items.len() ==> #[trigger] well_formed(items[i]),
    ensures
        array_rest(ts, q, items) matches Ok((v, r)) ==> well_formed(v),
    decreases ts.len() - q, 2int,
{
    if 0 <= q < ts.len() {
        match ts[q] {
            TokenModel::RightBracket => {
                lemma_items_well_formed(items, 0);
            },
            TokenModel::Comma => {
                lemma_parsed_value_well_formed(ts, q + 1);
                if let Ok((v, r)) = parse_value(ts, q + 1) {
                    if q < r <= ts.len() {
                        assert forall|i: int| 0 <= i < items.push(v).len() implies #[trigger] well_formed(
                            items.push(v)[i],
                        ) by {
                            if i < items.len() {
                                assert(items.push(v)[i] == items[i]);
                            }
                        }
                        lemma_array_rest_well_formed(ts, r, items.push(v));
                    }
                }
            },
            _ => {},
        }
    }
}

proof fn lemma_parsed_object_well_formed(ts: Seq<TokenModel>, p: int)
    requires
        numbers_canonical(ts),
    ensures
        parse_object(ts, p) matches Ok((v, q)) ==> well_formed(v),
    decreases ts.len() - p, 1int,
{
    if 0 <= p < ts.len() {
        match ts[p] {
            TokenModel::RightBrace => {
                lemma_members_well_formed(Seq::<(Seq<char>, ValueModel)>::empty(), 0);
            },
            TokenModel::String(k) => {
                lemma_parsed_member_well_formed(ts, p + 1, k, seq![]);
            },
            _ => {},
        }
    }
}

proof fn lemma_parsed_member_well_formed(
    ts: Seq<TokenModel>,
    q: int,
    key: Seq<char>,
    es: Seq<(Seq<char>, ValueModel)>,
)
    requires
        numbers_canonical(ts),
        keys_ordered(es),
        forall|i: int| 0 <= i < es.len() ==> #[trigger] well_formed(es[i].1),
    ensures
        parse_member(ts, q, key, es) matches Ok((v, r)) ==> well_formed(v),
    decreases ts.len() - q, 1int,
{
    if 0 <= q < ts.len() && ts[q] is Colon {
        lemma_parsed_value_well_formed(ts, q + 1);
        if let Ok((v, r)) = parse_value(ts, q + 1) {
            if q < r <= ts.len() {
                lemma_object_insert_well_formed(es, key, v);
                lemma_object_rest_well_formed(ts, r, object_insert(es, key, v));
            }
        }
    }
}

proof fn lemma_object_rest_well_formed(ts: Seq<TokenModel>, r: int, es: Seq<(Seq<char>, ValueModel)>)
    requires
        numbers_canonical(ts),
        keys_ordered(es),
        forall|i: int| 0 <= i < es.len() ==> #[trigger] well_formed(es[i].1),
    ensures
        object_rest(ts, r, es) matches Ok((v, q)) ==> well_formed(v),
    decreases ts.len() - r, 2int,
{
    if 0 <= r < ts.len() {
        match ts[r] {
            TokenModel::RightBrace => {
                lemma_members_well_formed(es, 0);
            },
            TokenModel::Comma => {
                if r + 1 < ts.len() {
                    if let TokenModel::String(k) = ts[r + 1] {
                        lemma_parsed_member_well_formed(ts, r + 2, k, es);
                    }
                }
            },
            _ => {},
        }
    }
}

} // verus!
