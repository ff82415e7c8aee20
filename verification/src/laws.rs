//! Properties of the library as a whole.
use crate::error::{error_position, ErrorModel};
use crate::number::{
    digits_value, exponent_value, fraction_length, is_negative, literal_digits,
    exponent_digits, exponent_part, is_digit, is_exp_marker, is_number_byte, lemma_exp_index,
    significand, unsigned_part, valid_exponent, valid_significand,
    canonical_number, char_bytes, is_canonical_number, lemma_canonical_number_is_canonical,
    lemma_canonical_same_number, same_number, valid_number,
};
use crate::positions::{lemma_scanner_within, lemma_token_starts_within};
use crate::parser::{
    lemma_parse_member_inserts, located, members_from, object_members, parse_document, parse_object,
    parse_text, token_offset,
};
use crate::roundtrip::{
    lemma_parse_document_tokens, lemma_parsed_value_well_formed, lemma_scanned_numbers_canonical,
    lemma_escape_chars_printable, lemma_run_end_exact, lemma_tokenize_rendered, well_formed,
};
use crate::locality::lemma_tokens_agree;
use crate::surrogates::{lemma_pair_reads, pair_literal};
use crate::values::{lemma_literal_pieces, lemma_unique_scientific, scaled_magnitude};
use crate::float_text::{long_exponent, significant_digits};
use vstd::arithmetic::power::{lemma_pow_adds, lemma_pow_positive, pow};
use crate::tokenizer::{
    lemma_tokens_number, lemma_tokens_string, lex_string, number_class,
    lemma_tokens_end, lemma_tokens_whitespace, prefix_result, token_starts, tokenize_spec, tokens_from,
    TokenModel,
};
use crate::value::{
    distinct_keys, find_key, keys_ordered, lemma_find_key_at, lemma_find_key_from,
    insert_all, last_value, lemma_find_key_none, lemma_object_insert_ordered, lemma_ordered_distinct,
    escape_chars, is_number_literal, lemma_slot_from, same_value, lookup, object_insert, quoted, render, render_items, render_members,
    slot, ValueModel,
};
use crate::text::spaces;
use vstd::prelude::*;
use vstd::utf8::encode_utf8;

verus! {

/// Writing a well-formed value as JSON text, compact (`indent` is `None`) or
/// pretty-printed (`indent` is `Some`), and reading the text back gives the
/// value again.
pub proof fn law_written_text_reads_back(v: ValueModel, indent: Option<nat>)
    requires
        well_formed(v),
    ensures
        parse_text(encode_utf8(render(v, indent, 0))) == Ok::<ValueModel, ErrorModel>(v),
{
    lemma_tokenize_rendered(v, indent);
    lemma_parse_document_tokens(v);
}

/// Every value read from JSON text is well-formed: its numbers are canonical
/// number texts and the keys of every object in it are in increasing order.
pub proof fn law_parsed_values_are_well_formed(s: Seq<u8>)
    ensures
        parse_text(s) matches Ok(v) ==> well_formed(v),
{
    lemma_scanned_numbers_canonical(s, 0);
    if let Ok(ts) = tokenize_spec(s) {
        lemma_parsed_value_well_formed(ts, 0);
    }
}

/// Reading JSON text, writing the value back out (compact or pretty-printed)
/// and reading that text gives the same value as the first reading.
pub proof fn law_reparse(s: Seq<u8>, indent: Option<nat>)
    ensures
        parse_text(s) matches Ok(v) ==> parse_text(encode_utf8(render(v, indent, 0))) == Ok::<
            ValueModel,
            ErrorModel,
        >(v),
{
    law_parsed_values_are_well_formed(s);
    if let Ok(v) = parse_text(s) {
        law_written_text_reads_back(v, indent);
    }
}

/// The text kept for an accepted number literal denotes the same number as
/// the literal (the same sign and the same decimal value), and read as a
/// literal again it is kept unchanged.
pub proof fn law_canonical_number(l: Seq<u8>)
    requires
        valid_number(l),
    ensures
        same_number(l, char_bytes(canonical_number(l))),
        is_canonical_number(canonical_number(l)),
{
    lemma_canonical_same_number(l);
    lemma_canonical_number_is_canonical(l);
}

/// An error always points at a byte offset inside the input: a scanner
/// error where the scanner found the fault, a parser error where the
/// offending token starts, or at the end of the input when it ended too early.
pub proof fn law_error_position_within_input(s: Seq<u8>)
    ensures
        parse_text(s) matches Err(e) ==> 0 <= error_position(e) <= s.len(),
        tokenize_spec(s) is Ok ==> (parse_text(s) matches Err(e) ==> (error_position(e) == s.len()
            || exists|k: int|
            0 <= k < token_starts(s, 0).len() && error_position(e) == #[trigger] token_starts(s, 0)[k])),
{
    lemma_scanner_within(s, 0);
    lemma_token_starts_within(s, 0);
    if let Ok(ts) = tokenize_spec(s) {
        if let Err(e) = parse_document(ts, 0) {
            let st = token_starts(s, 0);
            let p = error_position(e);
            assert(error_position(located(e, st, s.len() as int)) == token_offset(st, s.len() as int, p));
            if 0 <= p < st.len() {
                assert(st[p] == error_position(located(e, st, s.len() as int)));
            }
        }
    }
}

/// The compact and the pretty-printed text of a well-formed value differ
/// only in whitespace: they scan to the same tokens.
pub proof fn law_layout_keeps_tokens(v: ValueModel, indent: nat)
    requires
        well_formed(v),
    ensures
        tokenize_spec(encode_utf8(render(v, None, 0))) == tokenize_spec(encode_utf8(render(v, Some(indent), 0))),
        tokenize_spec(encode_utf8(render(v, None, 0))) is Ok,
{
    lemma_tokenize_rendered(v, None);
    lemma_tokenize_rendered(v, Some(indent));
}

/// After inserting `k` with value `v`, looking up `k` gives `v`.
pub proof fn law_get_after_insert(es: Seq<(Seq<char>, ValueModel)>, k: Seq<char>, v: ValueModel)
    ensures
        lookup(object_insert(es, k, v), k) == Some(v),
{
    lemma_find_key_from(es, k, 0);
    let r = object_insert(es, k, v);
    match find_key(es, k) {
        Some(i) => {
            assert forall|m: int| 0 <= m < i implies #[trigger] r[m].0 != k by {
                assert(r[m] == es[m]);
            }
            lemma_find_key_at(r, k, i);
        },
        None => {
            let s = slot(es, k);
            lemma_slot_from(es, k, 0);
            assert forall|m: int| 0 <= m < s implies #[trigger] r[m].0 != k by {
                assert(r[m] == es[m]);
            }
            lemma_find_key_at(r, k, s);
        },
    }
}

/// Inserting `k` leaves the value of every other key as it was.
pub proof fn law_insert_keeps_other_keys(
    es: Seq<(Seq<char>, ValueModel)>,
    k: Seq<char>,
    v: ValueModel,
    other: Seq<char>,
)
    requires
        other != k,
    ensures
        lookup(object_insert(es, k, v), other) == lookup(es, other),
{
    lemma_find_key_from(es, k, 0);
    lemma_find_key_from(es, other, 0);
    let r = object_insert(es, k, v);
    match find_key(es, k) {
        Some(x) => {
            assert forall|m: int| 0 <= m < r.len() implies (#[trigger] r[m]).0 == es[m].0 && (r[m].0
                == other ==> r[m] == es[m]) by {
                if m == x {
                    assert(r[m].0 == k);
                }
            }
            match find_key(es, other) {
                Some(i) => {
                    assert forall|m: int| 0 <= m < i implies #[trigger] r[m].0 != other by {
                        assert(r[m].0 == es[m].0);
                    }
                    lemma_find_key_at(r, other, i);
                },
                None => {
                    assert forall|m: int| 0 <= m < r.len() implies #[trigger] r[m].0 != other by {
                        assert(r[m].0 == es[m].0);
                    }
                    lemma_find_key_none(r, other);
                },
            }
        },
        None => {
            let s = slot(es, k);
            lemma_slot_from(es, k, 0);
            assert(r[s].0 == k);
            match find_key(es, other) {
                Some(i) => {
                    if i < s {
                        assert forall|m: int| 0 <= m < i implies #[trigger] r[m].0 != other by {
                            assert(r[m] == es[m]);
                        }
                        assert(r[i] == es[i]);
                        lemma_find_key_at(r, other, i);
                    } else {
                        assert forall|m: int| 0 <= m < i + 1 implies #[trigger] r[m].0 != other by {
                            if m < s {
                                assert(r[m] == es[m]);
                            } else if m > s {
                                assert(r[m] == es[m - 1]);
                            }
                        }
                        assert(r[i + 1] == es[i]);
                        lemma_find_key_at(r, other, i + 1);
                    }
                },
                None => {
                    assert forall|m: int| 0 <= m < r.len() implies #[trigger] r[m].0 != other by {
                        if m < s {
                            assert(r[m] == es[m]);
                        } else if m > s {
                            assert(r[m] == es[m - 1]);
                        }
                    }
                    lemma_find_key_none(r, other);
                },
            }
        },
    }
}

/// Inserting a new key adds one member; inserting a present key adds none.
/// Inserting keeps the keys of an object in order, so no key ever occurs
/// twice in an object built by inserting.
pub proof fn law_insert_size(es: Seq<(Seq<char>, ValueModel)>, k: Seq<char>, v: ValueModel)
    ensures
        object_insert(es, k, v).len() == es.len() + (if find_key(es, k) is Some {
            0int
        } else {
            1int
        }),
        keys_ordered(es) ==> keys_ordered(object_insert(es, k, v)),
        keys_ordered(es) ==> distinct_keys(object_insert(es, k, v)),
{
    lemma_find_key_from(es, k, 0);
    lemma_slot_from(es, k, 0);
    if keys_ordered(es) {
        lemma_object_insert_ordered(es, k, v);
        lemma_ordered_distinct(object_insert(es, k, v));
    }
}

/// Whitespace only separates tokens: the tokens of two texts joined by a
/// space are the tokens of the first followed by the tokens of the second.
pub proof fn law_tokens_of_joined_texts(a: Seq<u8>, b: Seq<u8>)
    ensures
        (tokenize_spec(a) is Ok && tokenize_spec(b) is Ok) ==> tokenize_spec(a + seq![0x20u8] + b)
            == Ok::<Seq<TokenModel>, ErrorModel>(tokenize_spec(a)->Ok_0 + tokenize_spec(b)->Ok_0),
{
    if tokenize_spec(a) is Ok && tokenize_spec(b) is Ok {
        let ta = tokenize_spec(a)->Ok_0;
        let tb = tokenize_spec(b)->Ok_0;
        let s = a + seq![0x20u8] + b;
        assert forall|k: int| 0 <= k < a.len() implies s[k + 0] == #[trigger] a[k] by {}
        lemma_tokens_agree(a, s, 0, 0);
        lemma_tokens_whitespace(s, a.len() as int);
        assert forall|k: int| 0 <= k < b.len() implies s[k + (a.len() + 1)] == #[trigger] b[k] by {}
        lemma_tokens_agree(b, s, a.len() + 1int, 0);
        lemma_tokens_end(s, s.len() as int);
        assert(b.len() + (a.len() + 1int) == s.len());
        assert(tb + Seq::<TokenModel>::empty() =~= tb);
        assert(tokenize_spec(b)->Ok_0 == tb);
        assert(tokens_from(s, a.len() + 1int) == Ok::<Seq<TokenModel>, ErrorModel>(tb));
        assert(tokens_from(s, a.len() as int) == Ok::<Seq<TokenModel>, ErrorModel>(tb));
        assert(tokens_from(s, 0) == prefix_result(ta, tokens_from(s, a.len() as int)));
        assert(tokenize_spec(s) == Ok::<Seq<TokenModel>, ErrorModel>(ta + tb));
    }
}

/// Looking up a key after inserting members one after another gives the
/// value of the last of them with that key, or, when none has it, what it
/// gave before.
pub proof fn law_insert_all_last_wins(
    es: Seq<(Seq<char>, ValueModel)>,
    ms: Seq<(Seq<char>, ValueModel)>,
    k: Seq<char>,
)
    ensures
        lookup(insert_all(es, ms), k) == match last_value(ms, k) {
            Some(v) => Some(v),
            None => lookup(es, k),
        },
    decreases ms.len(),
{
    if ms.len() > 0 {
        let es2 = object_insert(es, ms[0].0, ms[0].1);
        law_insert_all_last_wins(es2, ms.drop_first(), k);
        if ms[0].0 == k {
            law_get_after_insert(es, k, ms[0].1);
        } else {
            law_insert_keeps_other_keys(es, ms[0].0, ms[0].1, k);
        }
    }
}

/// The value of the last member with a key is that of a member with the key,
/// and no later member has the key; there is such a value exactly when some
/// member has the key.
pub proof fn law_last_value(ms: Seq<(Seq<char>, ValueModel)>, k: Seq<char>)
    ensures
        last_value(ms, k) matches Some(v) ==> exists|i: int|
            0 <= i < ms.len() && #[trigger] ms[i] == (k, v) && forall|j: int| i < j < ms.len() ==> (#[trigger] ms[j]).0 != k,
        last_value(ms, k) is None <==> forall|i: int| 0 <= i < ms.len() ==> (#[trigger] ms[i]).0 != k,
    decreases ms.len(),
{
    if ms.len() > 0 {
        let rest = ms.drop_first();
        law_last_value(rest, k);
        match last_value(rest, k) {
            Some(v) => {
                let i = choose|i: int|
                    0 <= i < rest.len() && #[trigger] rest[i] == (k, v) && forall|j: int| i < j < rest.len() ==> (#[trigger] rest[j]).0 != k;
                assert(ms[i + 1] == (k, v));
                assert forall|j: int| i + 1 < j < ms.len() implies (#[trigger] ms[j]).0 != k by {
                    assert(ms[j] == rest[j - 1]);
                }
            },
            None => {
                assert forall|j: int| 0 < j < ms.len() implies (#[trigger] ms[j]).0 != k by {
                    assert(ms[j] == rest[j - 1]);
                }
                if ms[0].0 == k {
                    assert(ms[0] == (k, ms[0].1));
                }
            },
        }
        if last_value(ms, k) is None {
            assert forall|i: int| 0 <= i < ms.len() implies (#[trigger] ms[i]).0 != k by {
                if i > 0 {
                    assert(ms[i] == rest[i - 1]);
                }
            }
        } else {
            if forall|i: int| 0 <= i < ms.len() ==> (#[trigger] ms[i]).0 != k {
                assert(ms[0].0 != k);
                assert forall|i: int| 0 <= i < rest.len() implies (#[trigger] rest[i]).0 != k by {
                    assert(rest[i] == ms[i + 1]);
                }
            }
        }
    }
}

/// In a parsed object, a key is present exactly when some member of the
/// text has it, and its value is that of the last such member: a later
/// duplicate key replaces the value of an earlier one.
pub proof fn law_object_last_duplicate_wins(ts: Seq<TokenModel>, p: int, k: Seq<char>)
    ensures
        parse_object(ts, p) matches Ok((ValueModel::Object(es), r)) ==> lookup(es, k) == last_value(
            object_members(ts, p),
            k,
        ),
{
    if 0 <= p < ts.len() {
        match ts[p] {
            TokenModel::String(key) => {
                lemma_parse_member_inserts(ts, p + 1, key, seq![]);
                law_insert_all_last_wins(seq![], members_from(ts, p + 1, key), k);
                assert(lookup(seq![], k) is None) by {
                    lemma_find_key_from(seq![], k, 0);
                }
            },
            _ => {
                assert(lookup(seq![], k) is None) by {
                    lemma_find_key_from(seq![], k, 0);
                }
            },
        }
    }
}

/// A string is written as one string literal that scans back to exactly that
/// string, and the literal holds no character below U+0020.
pub proof fn law_string_literal_reads_back(s: Seq<char>)
    ensures
        tokenize_spec(encode_utf8(quoted(s))) == Ok::<Seq<TokenModel>, ErrorModel>(seq![TokenModel::String(s)]),
        forall|k: int| 0 <= k < quoted(s).len() ==> (#[trigger] quoted(s)[k] as u32) >= 0x20,
{
    lemma_tokenize_rendered(ValueModel::String(s), None);
    lemma_escape_chars_printable(s);
    let e = escape_chars(s);
    assert forall|k: int| 0 <= k < quoted(s).len() implies (#[trigger] quoted(s)[k] as u32) >= 0x20 by {
        if 0 < k < quoted(s).len() - 1 {
            assert(quoted(s)[k] == e[k - 1]);
        }
    }
}

/// Space, line feed, carriage return and tab all separate tokens alike: the
/// tokens of two texts joined by any one of them are the tokens of the first
/// followed by the tokens of the second.
pub proof fn law_whitespace_separates(a: Seq<u8>, b: Seq<u8>, w: u8)
    requires
        w == 0x20 || w == 0x0a || w == 0x0d || w == 0x09,
    ensures
        (tokenize_spec(a) is Ok && tokenize_spec(b) is Ok) ==> tokenize_spec(a + seq![w] + b)
            == Ok::<Seq<TokenModel>, ErrorModel>(tokenize_spec(a)->Ok_0 + tokenize_spec(b)->Ok_0),
{
    if tokenize_spec(a) is Ok && tokenize_spec(b) is Ok {
        let ta = tokenize_spec(a)->Ok_0;
        let tb = tokenize_spec(b)->Ok_0;
        let s = a + seq![w] + b;
        assert forall|k: int| 0 <= k < a.len() implies s[k + 0] == #[trigger] a[k] by {}
        lemma_tokens_agree(a, s, 0, 0);
        lemma_tokens_whitespace(s, a.len() as int);
        assert forall|k: int| 0 <= k < b.len() implies s[k + (a.len() + 1)] == #[trigger] b[k] by {}
        lemma_tokens_agree(b, s, a.len() + 1int, 0);
        lemma_tokens_end(s, s.len() as int);
        assert(b.len() + (a.len() + 1int) == s.len());
        assert(tb + Seq::<TokenModel>::empty() =~= tb);
        assert(tokens_from(s, a.len() + 1int) == Ok::<Seq<TokenModel>, ErrorModel>(tb));
        assert(tokens_from(s, a.len() as int) == Ok::<Seq<TokenModel>, ErrorModel>(tb));
        assert(tokens_from(s, 0) == prefix_result(ta, tokens_from(s, a.len() as int)));
    }
}

/// A text with a space, line feed, carriage return or tab put in front of it
/// scans exactly when the text does, to the same tokens.
pub proof fn law_leading_whitespace(s: Seq<u8>, w: u8)
    requires
        w == 0x20 || w == 0x0a || w == 0x0d || w == 0x09,
    ensures
        tokenize_spec(seq![w] + s) is Ok <==> tokenize_spec(s) is Ok,
        tokenize_spec(s) is Ok ==> tokenize_spec(seq![w] + s) == tokenize_spec(s),
{
    let t = seq![w] + s;
    lemma_tokens_whitespace(t, 0);
    lemma_tokens_end(s, s.len() as int);
    lemma_tokens_end(t, t.len() as int);
    if tokenize_spec(s) is Ok {
        assert forall|k: int| 0 <= k < s.len() implies t[k + 1] == #[trigger] s[k] by {}
        lemma_tokens_agree(s, t, 1, 0);
        assert(tokenize_spec(s)->Ok_0 + Seq::<TokenModel>::empty() =~= tokenize_spec(s)->Ok_0);
    }
    if tokens_from(t, 1) is Ok {
        assert forall|k: int| 1 <= k < t.len() implies s[k + -1] == #[trigger] t[k] by {}
        lemma_tokens_agree(t, s, -1, 1);
        assert(tokens_from(t, 1)->Ok_0 + Seq::<TokenModel>::empty() =~= tokens_from(t, 1)->Ok_0);
    }
}

/// Pretty-printing puts each member of a container on a line of its own,
/// indented by `k` more spaces than the container, and the closing bracket on
/// a line indented as the container: shown here for a one-element array and a
/// one-member object at indentation `c`.
pub proof fn law_pretty_layout(x: ValueModel, key: Seq<char>, k: nat, c: nat)
    ensures
        render(ValueModel::Array(seq![x]), Some(k), c) == seq!['[', '\n'] + Seq::new(c + k, |i: int| ' ')
            + render(x, Some(k), c + k) + seq!['\n'] + Seq::new(c, |i: int| ' ') + seq![']'],
        render(ValueModel::Object(seq![(key, x)]), Some(k), c) == seq!['{', '\n'] + Seq::new(
            c + k,
            |i: int| ' ',
        ) + quoted(key) + seq![':'] + render(x, Some(k), c + k) + seq!['\n'] + Seq::new(c, |i: int| ' ')
            + seq!['}'],
{
    let items = seq![x];
    assert(render_items(items, Some(k), c + k, 1) == Seq::<char>::empty());
    assert(render_items(items, Some(k), c + k, 0) =~= seq!['\n'] + Seq::new(c + k, |i: int| ' ') + render(x, Some(k), c + k));
    assert(spaces(c) =~= Seq::new(c, |i: int| ' '));
    assert(render(ValueModel::Array(items), Some(k), c) =~= seq!['[', '\n'] + Seq::new(c + k, |i: int| ' ')
            + render(x, Some(k), c + k) + seq!['\n'] + Seq::new(c, |i: int| ' ') + seq![']']);
    let es = seq![(key, x)];
    assert(render_members(es, Some(k), c + k, 1) == Seq::<char>::empty());
    assert(render_members(es, Some(k), c + k, 0) =~= seq!['\n'] + Seq::new(c + k, |i: int| ' ') + quoted(key) + seq![':'] + render(x, Some(k), c + k));
    assert(render(ValueModel::Object(es), Some(k), c) =~= seq!['{', '\n'] + Seq::new(
            c + k,
            |i: int| ' ',
        ) + quoted(key) + seq![':'] + render(x, Some(k), c + k) + seq!['\n'] + Seq::new(c, |i: int| ' ')
            + seq!['}']);
}

/// A number literal built from an optional minus sign, one or more digits,
/// optionally `.` and one or more digits, then `e` or `E`, an optional `+`
/// or `-` and one or more digits.
pub open spec fn exponent_literal(neg: bool, i: Seq<u8>, f: Seq<u8>, m: u8, sg: Seq<u8>, x: Seq<u8>) -> Seq<u8> {
    (if neg { seq![0x2du8] } else { seq![] }) + i + (if f.len() > 0 { seq![0x2eu8] + f } else { seq![] })
        + seq![m] + sg + x
}

/// Every literal with an exponent, whether its marker is `e` or `E` and
/// whether the exponent has a sign or not, is a number literal
/// (`JsonNumber::from_literal` accepts it).
#[verifier::rlimit(40)]
#[verifier::spinoff_prover]
pub proof fn law_exponent_literals_accepted(neg: bool, i: Seq<u8>, f: Seq<u8>, m: u8, sg: Seq<u8>, x: Seq<u8>)
    requires
        i.len() > 0,
        x.len() > 0,
        forall|k: int| 0 <= k < i.len() ==> is_digit(#[trigger] i[k]),
        forall|k: int| 0 <= k < f.len() ==> is_digit(#[trigger] f[k]),
        forall|k: int| 0 <= k < x.len() ==> is_digit(#[trigger] x[k]),
        m == 0x65 || m == 0x45,
        sg == Seq::<u8>::empty() || sg == seq![0x2bu8] || sg == seq![0x2du8],
    ensures
        is_number_literal(exponent_literal(neg, i, f, m, sg, x)),
{
    let sign: Seq<u8> = if neg { seq![0x2du8] } else { seq![] };
    let frac: Seq<u8> = if f.len() > 0 { seq![0x2eu8] + f } else { seq![] };
    let body = i + frac;
    let sig = sign + body;
    let tail = sg + x;
    let lit = exponent_literal(neg, i, f, m, sg, x);
    assert(lit =~= sig + seq![m] + tail);
    assert forall|k: int| 0 <= k < body.len() implies is_digit(#[trigger] body[k]) || body[k] == 0x2e by {
        if k >= i.len() && f.len() > 0 && k > i.len() {
            assert(body[k] == f[k - i.len() - 1]);
        } else if k < i.len() {
            assert(body[k] == i[k]);
        }
    }
    assert forall|k: int| 0 <= k < sig.len() implies !is_exp_marker(#[trigger] lit[k]) by {
        assert(lit[k] == sig[k]);
        if k >= sign.len() {
            assert(sig[k] == body[k - sign.len()]);
        }
    }
    lemma_exp_index(lit, sig.len() as int);
    assert(significand(lit) =~= sig);
    assert(unsigned_part(sig) =~= body);
    assert forall|p: int, q: int| 0 <= p < q < body.len() && #[trigger] body[p] == 0x2e implies #[trigger] body[q] != 0x2e by {
        assert(p == i.len()) by {
            if p < i.len() {
                assert(body[p] == i[p]);
            }
        }
        assert(body[q] == f[q - i.len() - 1]);
    }
    assert(is_digit(body[0]));
    assert(valid_significand(sig));
    assert(exponent_part(lit) =~= tail);
    assert(exponent_digits(tail) =~= x);
    assert(valid_exponent(tail));
    assert forall|k: int| 0 <= k < lit.len() implies is_number_byte(#[trigger] lit[k]) by {
        if k < sign.len() {
        } else if k < sig.len() {
            assert(lit[k] == body[k - sign.len()]);
        } else if k == sig.len() {
        } else if k < sig.len() + 1 + sg.len() {
            assert(lit[k] == sg[k - sig.len() - 1]);
        } else {
            assert(lit[k] == x[k - sig.len() - 1 - sg.len()]);
        }
    }
}

/// A text made only of number bytes and starting with a digit or `-` is a
/// number literal exactly when the scanner reads it; it then reads it as one
/// number token holding the literal's canonical text.
pub proof fn law_number_literal_is_scanned(b: Seq<u8>)
    requires
        b.len() > 0,
        is_digit(b[0]) || b[0] == 0x2d,
        forall|k: int| 0 <= k < b.len() ==> is_number_byte(#[trigger] b[k]),
    ensures
        is_number_literal(b) <==> tokenize_spec(b) is Ok,
        is_number_literal(b) ==> tokenize_spec(b) == Ok::<Seq<TokenModel>, ErrorModel>(
            seq![TokenModel::Number(canonical_number(b))],
        ),
{
    assert forall|k: int| 0 <= k < b.len() implies (number_class())(#[trigger] b[k]) by {}
    lemma_run_end_exact(b, 0, b.len() as int, number_class());
    assert(b.subrange(0, b.len() as int) =~= b);
    lemma_tokens_number(b, 0);
    lemma_tokens_end(b, b.len() as int);
    assert(seq![TokenModel::Number(canonical_number(b))] + Seq::<TokenModel>::empty() =~= seq![
        TokenModel::Number(canonical_number(b)),
    ]);
}

/// Every character above U+FFFF, written as its escaped surrogate pair
/// (`\uD83C\uDF89` for U+1F389, digits in either case), reads back as that
/// character: the pair literal scans to one string token holding it.
pub proof fn law_surrogate_pairs_read_back(c: char, upper: bool)
    requires
        (c as u32) >= 0x10000,
    ensures
        lex_string(pair_literal(c, upper), 0) == Ok::<(Seq<char>, int), ErrorModel>((seq![c], 14)),
        tokenize_spec(pair_literal(c, upper)) == Ok::<Seq<TokenModel>, ErrorModel>(
            seq![TokenModel::String(seq![c])],
        ),
{
    let s = pair_literal(c, upper);
    lemma_pair_reads(c, upper);
    lemma_tokens_string(s, 0);
    lemma_tokens_end(s, 14);
    assert(seq![TokenModel::String(seq![c])] + Seq::<TokenModel>::empty() =~= seq![TokenModel::String(seq![c])]);
}

/// Two accepted literals (whose exponents have at most eighteen digits) are
/// the same number exactly when they denote the same value: both are zero,
/// whatever their signs, or they have the same sign and the same magnitude,
/// compared at any common scale `10^k` that makes both powers of ten whole.
/// So `1.5` and `1.55` differ, while `-0` and `0`, or `1e5` and `100000`, agree.
pub proof fn law_same_value_is_equal_value(a: Seq<u8>, b: Seq<u8>, k: int)
    requires
        valid_number(a),
        valid_number(b),
        !long_exponent(a),
        !long_exponent(b),
        exponent_value(a) - fraction_length(significand(a)) + k >= 0,
        exponent_value(b) - fraction_length(significand(b)) + k >= 0,
    ensures
        same_value(a, b) <==> ((digits_value(literal_digits(significand(a))) == 0 && digits_value(
            literal_digits(significand(b)),
        ) == 0) || (is_negative(significand(a)) == is_negative(significand(b)) && scaled_magnitude(a, k)
            == scaled_magnitude(b, k))),
{
    let ta = lemma_literal_pieces(a);
    let tb = lemma_literal_pieces(b);
    let da = significant_digits(a);
    let db = significant_digits(b);
    let ea = (exponent_value(a) - fraction_length(significand(a)) + k) as nat;
    let eb = (exponent_value(b) - fraction_length(significand(b)) + k) as nat;
    lemma_pow_adds(10, ta, ea);
    lemma_pow_adds(10, tb, eb);
    lemma_pow_positive(10, ta + ea);
    lemma_pow_positive(10, tb + eb);
    let xa = digits_value(da);
    let xb = digits_value(db);
    assert(scaled_magnitude(a, k) == xa * pow(10, ta + ea)) by {
        let p = pow(10, ta);
        let q = pow(10, ea);
        assert((xa * p) * q == xa * (p * q)) by (nonlinear_arith);
    }
    assert(scaled_magnitude(b, k) == xb * pow(10, tb + eb)) by {
        let p = pow(10, tb);
        let q = pow(10, eb);
        assert((xb * p) * q == xb * (p * q)) by (nonlinear_arith);
    }
    if da.len() > 0 && db.len() > 0 {
        if scaled_magnitude(a, k) == scaled_magnitude(b, k) {
            lemma_unique_scientific(da, ta + ea, db, tb + eb);
        }
        assert(digits_value(literal_digits(significand(a))) != 0);
    } else if da.len() > 0 {
        assert(xa * pow(10, ta + ea) != 0) by (nonlinear_arith)
            requires
                xa != 0,
                pow(10, ta + ea) > 0,
        ;
        assert(xb == 0);
    } else if db.len() > 0 {
        assert(xb * pow(10, tb + eb) != 0) by (nonlinear_arith)
            requires
                xb != 0,
                pow(10, tb + eb) > 0,
        ;
        assert(xa == 0);
    }
}

} // verus!
