//! Escaped surrogate pairs: how a character above U+FFFF is written as two
//! `\uXXXX` escapes, and the facts that show the scanner reads it back.
use crate::error::ErrorModel;
use crate::text::{digit_char, hex_value, lemma_encode_char};
use crate::tokenizer::{
    combine_surrogates_spec, hex_number, hex_run, is_high_surrogate_spec, is_low_surrogate_spec,
    lemma_hex_run_prefix, lemma_string_bytes_special, lex_string, read_escape, read_hex,
    read_low_surrogate, read_unicode_escape, string_bytes,
};
use vstd::prelude::*;
use vstd::utf8::{encode_scalar, is_scalar};

verus! {

/// The bytes of the escape `\uXXXX` of a value below `0x10000`, its four
/// hexadecimal digits in upper or lower case.
pub open spec fn unicode_escape_bytes(v: nat, upper: bool) -> Seq<u8> {
    seq![
        0x5cu8,
        0x75u8,
        digit_char((v / 4096) % 16, upper) as u8,
        digit_char((v / 256) % 16, upper) as u8,
        digit_char((v / 16) % 16, upper) as u8,
        digit_char(v % 16, upper) as u8,
    ]
}

/// The high surrogate of a code point above U+FFFF.
pub open spec fn high_surrogate(c: nat) -> nat {
    0xD800 + ((c - 0x10000) as nat) / 1024
}

/// The low surrogate of a code point above U+FFFF.
pub open spec fn low_surrogate(c: nat) -> nat {
    0xDC00 + ((c - 0x10000) as nat) % 1024
}

/// The string literal that writes `c` as its escaped surrogate pair.
pub open spec fn pair_literal(c: char, upper: bool) -> Seq<u8> {
    seq![0x22u8] + unicode_escape_bytes(high_surrogate(c as nat), upper) + unicode_escape_bytes(
        low_surrogate(c as nat),
        upper,
    ) + seq![0x22u8]
}

proof fn lemma_digit_byte(d: nat, upper: bool)
    requires
        d < 16,
    ensures
        hex_value(digit_char(d, upper) as u8) == Some(d as u32),
{
}

/// Reading the four digits of an escape at `i` gives the value written.
proof fn lemma_read_escape_digits(s: Seq<u8>, i: int, v: nat, upper: bool)
    requires
        0 <= i,
        i + 4 <= s.len(),
        v < 0x10000,
        s.subrange(i - 2, i + 4) == unicode_escape_bytes(v, upper),
        i >= 2,
    ensures
        read_hex(s, i, 4) == Ok::<(u32, int), ErrorModel>((v as u32, i + 4)),
{
    let e = unicode_escape_bytes(v, upper);
    let a = (v / 4096) % 16;
    let b = (v / 256) % 16;
    let c = (v / 16) % 16;
    let d = v % 16;
    lemma_digit_byte(a, upper);
    lemma_digit_byte(b, upper);
    lemma_digit_byte(c, upper);
    lemma_digit_byte(d, upper);
    assert(s[i] == e[2]);
    assert(s[i + 1] == e[3]);
    assert(s[i + 2] == e[4]);
    assert(s[i + 3] == e[5]);
    assert forall|k: int| i <= k < i + 4 implies (#[trigger] hex_value(s[k])) is Some by {
        assert(s[k] == e[k - i + 2]);
    }
    lemma_hex_run_prefix(s, i, 4, 4);
    let digits = s.subrange(i, i + 4);
    assert(digits.drop_last().drop_last().drop_last().drop_last() =~= Seq::<u8>::empty());
    reveal_with_fuel(hex_number, 5);
    assert(hex_number(digits) == ((a * 16 + b) * 16 + c) * 16 + d) by {
        assert(digits.last() == s[i + 3]);
        assert(digits.drop_last().last() == s[i + 2]);
        assert(digits.drop_last().drop_last().last() == s[i + 1]);
        assert(digits.drop_last().drop_last().drop_last().last() == s[i]);
    }
    let w = v as u32;
    assert(((((w / 4096) % 16) * 16 + (w / 256) % 16) * 16 + (w / 16) % 16) * 16 + w % 16 == w)
        by (bit_vector)
        requires
            w < 0x10000,
    ;
}

/// The scanner reads the escaped surrogate pair of any character above
/// U+FFFF back as that character.
pub proof fn lemma_pair_reads(c: char, upper: bool)
    requires
        (c as u32) >= 0x10000,
    ensures
        lex_string(pair_literal(c, upper), 0) == Ok::<(Seq<char>, int), ErrorModel>((seq![c], 14)),
{
    let s = pair_literal(c, upper);
    let n = c as nat;
    let hi = high_surrogate(n);
    let lo = low_surrogate(n);
    assert(n <= 0x10FFFF);
    assert(0xD800 <= hi <= 0xDBFF);
    assert(0xDC00 <= lo <= 0xDFFF);
    let eh = unicode_escape_bytes(hi, upper);
    let el = unicode_escape_bytes(lo, upper);
    assert(s.len() == 14);
    assert(s.subrange(1, 7) =~= eh);
    assert(s.subrange(7, 13) =~= el);
    assert(s[1] == 0x5c && s[2] == 0x75 && s[7] == 0x5c && s[8] == 0x75 && s[13] == 0x22);
    lemma_read_escape_digits(s, 3, hi, upper);
    lemma_read_escape_digits(s, 9, lo, upper);
    assert(is_high_surrogate_spec(hi as u32));
    assert(is_low_surrogate_spec(lo as u32));
    assert(read_low_surrogate(s, 7, hi as u32) == Ok::<(u32, int), ErrorModel>((lo as u32, 13)));
    let m = (n - 0x10000) as nat;
    assert(m == 1024 * (m / 1024) + m % 1024);
    assert(combine_surrogates_spec(hi as u32, lo as u32) == c as u32);
    assert(is_scalar(c as u32));
    vstd::utf8::char_u32_cast(c, c as u32);
    assert(read_unicode_escape(s, 2) == Ok::<(char, int), ErrorModel>((c, 13)));
    assert(read_escape(s, 0, 2) == Ok::<(char, int), ErrorModel>((c, 13)));
    lemma_string_bytes_special(s, 0, 1, seq![]);
    lemma_string_bytes_special(s, 0, 13, Seq::<u8>::empty() + encode_scalar(c as u32));
    lemma_encode_char(c);
    assert(Seq::<u8>::empty() + encode_scalar(c as u32) =~= encode_scalar(c as u32));
}

} // verus!
