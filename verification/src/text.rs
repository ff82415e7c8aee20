//! Character and string building blocks shared by the scanner, the error
//! messages and the serializer.
use vstd::prelude::*;
use vstd::string::StringExecFns;
use vstd::utf8::*;

verus! {

broadcast use vstd::utf8::group_utf8_lib;

// ---------------------------------------------------------------------------
// Trusted std calls
// ---------------------------------------------------------------------------
/// `String::from_utf8_lossy` followed by `into_owned`.  The documentation of
/// `from_utf8_lossy` says that a valid UTF-8 slice is converted without any
/// replacement, so on valid input the result is exactly the decoded text.  What
/// it produces for invalid input (replacement characters) is left unsaid.
#[verifier::external_body]
pub(crate) fn slice_to_string(bytes: &[u8]) -> (s: String)
    ensures
        valid_utf8(bytes@) ==> s@ == decode_utf8(bytes@),
{
    String::from_utf8_lossy(bytes).into_owned()
}

/// `String::push`: appends one character at the end of the string.
#[verifier::external_body]
pub(crate) fn push_char(s: &mut String, c: char)
    ensures
        final(s)@ == old(s)@.push(c),
{
    s.push(c);
}

/// `char::from_u32`: documented to return the character with that code point,
/// or `None` for a surrogate or a value above `0x10FFFF`.
#[verifier::external_body]
pub(crate) fn char_from_u32(v: u32) -> (r: Option<char>)
    ensures
        match r {
            Some(c) => is_scalar(v) && c as u32 == v,
            None => !is_scalar(v),
        },
{
    std::char::from_u32(v)
}

/// The text that `{:?}` (the `Debug` format of `str`) produces for a string:
/// the string between double quotes, each character escaped much as
/// `char::escape_debug` does, except that `'` is kept as it is and `"` is
/// escaped.
pub uninterp spec fn debug_text(s: Seq<char>) -> Seq<char>;

/// `format!("{:?}", s)` for a string slice; its result is named by
/// `debug_text`, a function of the characters alone.
#[verifier::external_body]
pub(crate) fn debug_quoted(s: &str) -> (r: String)
    ensures
        r@ == debug_text(s@),
{
    format!("{s:?}")
}

// ---------------------------------------------------------------------------
// Appending to a String
// ---------------------------------------------------------------------------
/// Appends a string slice.
pub(crate) fn push_str(out: &mut String, s: &str)
    ensures
        final(out)@ == old(out)@ + s@,
{
    out.append(s);
}

/// Appends `n` copies of a space.
pub(crate) fn push_spaces(out: &mut String, n: usize)
    ensures
        final(out)@ == old(out)@ + spaces(n as nat),
{
    let mut i: usize = 0;
    while i < n
        invariant
            i <= n,
            out@ == old(out)@ + spaces(i as nat),
        decreases n - i,
    {
        push_char(out, ' ');
        i = i + 1;
        assert(spaces(i as nat) =~= spaces((i - 1) as nat).push(' '));
    }
}

/// `n` spaces.
pub open spec fn spaces(n: nat) -> Seq<char> {
    Seq::new(n, |i: int| ' ')
}

/// The characters of an ASCII byte sequence.
pub open spec fn ascii_chars(bytes: Seq<u8>) -> Seq<char> {
    bytes.map_values(|b: u8| b as char)
}

/// Appends the characters of an ASCII byte slice.
pub(crate) fn push_ascii(out: &mut String, bytes: &[u8])
    ensures
        final(out)@ == old(out)@ + ascii_chars(bytes@),
{
    let mut i: usize = 0;
    while i < bytes.len()
        invariant
            i <= bytes@.len(),
            out@ == old(out)@ + ascii_chars(bytes@.take(i as int)),
        decreases bytes.len() - i,
    {
        let b = bytes[i];
        push_char(out, b as char);
        i = i + 1;
        assert(ascii_chars(bytes@.take(i as int)) =~= ascii_chars(bytes@.take((i - 1) as int)).push(
            b as char,
        ));
    }
    assert(bytes@.take(i as int) =~= bytes@);
}

// ---------------------------------------------------------------------------
// Numbers as text
// ---------------------------------------------------------------------------
/// The character of a digit value below 16, with lower- or upper-case letters.
pub open spec fn digit_char(d: nat, upper: bool) -> char {
    if d < 10 {
        (48 + d) as char
    } else if upper {
        (55 + d) as char
    } else {
        (87 + d) as char
    }
}

/// Digits of `n` in the given base, most significant first, without padding.
pub open spec fn digits(n: nat, base: nat, upper: bool) -> Seq<char>
    recommends
        2 <= base <= 16,
    decreases n,
{
    if base < 2 || n < base {
        seq![digit_char(n, upper)]
    } else {
        proof {
            assert(n / base < n) by (nonlinear_arith)
                requires
                    base >= 2,
                    n >= base,
            ;
        }
        digits(n / base, base, upper).push(digit_char(n % base, upper))
    }
}

/// Decimal text of `n`.
pub open spec fn decimal(n: nat) -> Seq<char> {
    digits(n, 10, false)
}

/// Hexadecimal text of `n`, left-padded with zeros to at least four digits (`{:04x}` / `{:04X}`).
pub open spec fn hex4(n: nat, upper: bool) -> Seq<char> {
    let d = digits(n, 16, upper);
    if d.len() < 4 {
        Seq::new((4 - d.len()) as nat, |i: int| '0') + d
    } else {
        d
    }
}

fn digit_to_char(d: u32, upper: bool) -> (c: char)
    requires
        d < 16,
    ensures
        c == digit_char(d as nat, upper),
{
    if d < 10 {
        ((48 + d) as u8) as char
    } else if upper {
        ((55 + d) as u8) as char
    } else {
        ((87 + d) as u8) as char
    }
}

/// Appends the digits of `n` in base 10 or 16.
pub(crate) fn push_digits(out: &mut String, n: u32, base: u32, upper: bool)
    requires
        base == 10 || base == 16,
    ensures
        final(out)@ == old(out)@ + digits(n as nat, base as nat, upper),
    decreases n,
{
    if n >= base {
        push_digits(out, n / base, base, upper);
    }
    push_char(out, digit_to_char(n % base, upper));
}

/// Appends the decimal digits of a `usize`.
pub(crate) fn push_decimal(out: &mut String, n: usize)
    ensures
        final(out)@ == old(out)@ + decimal(n as nat),
    decreases n,
{
    if n >= 10 {
        push_decimal(out, n / 10);
    }
    push_char(out, digit_to_char((n % 10) as u32, false));
}

/// Appends the decimal digits of a `u128`.
pub(crate) fn push_decimal_wide(out: &mut String, n: u128)
    ensures
        final(out)@ == old(out)@ + decimal(n as nat),
    decreases n,
{
    if n >= 10 {
        push_decimal_wide(out, n / 10);
    }
    push_char(out, digit_to_char((n % 10) as u32, false));
}

/// How many hexadecimal digits a value has, for the values that need padding.
proof fn lemma_hex_len(n: nat, upper: bool)
    ensures
        n < 16 ==> digits(n, 16, upper).len() == 1,
        16 <= n < 256 ==> digits(n, 16, upper).len() == 2,
        256 <= n < 4096 ==> digits(n, 16, upper).len() == 3,
        4096 <= n ==> digits(n, 16, upper).len() >= 4,
    decreases n,
{
    if n >= 16 {
        lemma_hex_len(n / 16, upper);
    }
}

/// Appends `n` in hexadecimal, zero-padded to at least four digits.
pub(crate) fn push_hex4(out: &mut String, n: u32, upper: bool)
    ensures
        final(out)@ == old(out)@ + hex4(n as nat, upper),
{
    let len: usize = if n < 16 {
        1
    } else if n < 256 {
        2
    } else if n < 4096 {
        3
    } else {
        4
    };
    proof {
        lemma_hex_len(n as nat, upper);
    }
    let ghost start = out@;
    let mut pad: usize = 0;
    if len < 4 {
        while pad < 4 - len
            invariant
                len < 4,
                pad <= 4 - len,
                out@ == start + Seq::new(pad as nat, |i: int| '0'),
            decreases 4 - len - pad,
        {
            push_char(out, '0');
            pad = pad + 1;
            assert(Seq::new(pad as nat, |i: int| '0') =~= Seq::new((pad - 1) as nat, |i: int| '0').push('0'));
        }
    }
    let ghost padded = out@;
    push_digits(out, n, 16, upper);
    proof {
        let d = digits(n as nat, 16, upper);
        if len < 4 {
            assert(d.len() == len);
            assert(padded == start + Seq::new((4 - d.len()) as nat, |i: int| '0'));
        } else {
            assert(Seq::new(0nat, |i: int| '0') =~= Seq::<char>::empty());
            assert(padded =~= start);
        }
        assert(out@ =~= start + hex4(n as nat, upper));
    }
}

/// The value of an ASCII hexadecimal digit (`char::to_digit(16)` on the byte read as a `char`).
pub open spec fn hex_value(b: u8) -> Option<u32> {
    if 0x30 <= b <= 0x39 {
        Some((b - 0x30) as u32)
    } else if 0x61 <= b <= 0x66 {
        Some((b - 0x61 + 10) as u32)
    } else if 0x41 <= b <= 0x46 {
        Some((b - 0x41 + 10) as u32)
    } else {
        None
    }
}

pub(crate) fn hex_digit(b: u8) -> (r: Option<u32>)
    ensures
        r == hex_value(b),
        r matches Some(d) ==> d < 16,
{
    if 0x30 <= b && b <= 0x39 {
        Some((b - 0x30) as u32)
    } else if 0x61 <= b && b <= 0x66 {
        Some((b - 0x61 + 10) as u32)
    } else if 0x41 <= b && b <= 0x46 {
        Some((b - 0x41 + 10) as u32)
    } else {
        None
    }
}

// ---------------------------------------------------------------------------
// UTF-8
// ---------------------------------------------------------------------------
/// The UTF-8 encoding of one character (`char::encode_utf8`).
pub(crate) fn encode_char(c: char) -> (r: Vec<u8>)
    ensures
        r@ == encode_scalar(c as u32),
{
    let v = c as u32;
    proof {
        char_is_scalar(c);
    }
    if v <= 0x7F {
        vec![(v & 0x7F) as u8]
    } else if v <= 0x7FF {
        vec![0xC0 | ((v >> 6) & 0x1F) as u8, 0x80 | (v & 0x3F) as u8]
    } else if v <= 0xFFFF {
        vec![
            0xE0 | ((v >> 12) & 0x0F) as u8,
            0x80 | ((v >> 6) & 0x3F) as u8,
            0x80 | (v & 0x3F) as u8,
        ]
    } else {
        vec![
            0xF0 | ((v >> 18) & 0x7) as u8,
            0x80 | ((v >> 12) & 0x3F) as u8,
            0x80 | ((v >> 6) & 0x3F) as u8,
            0x80 | (v & 0x3F) as u8,
        ]
    }
}

/// The UTF-8 encoding of a sequence is the concatenation of the encodings of its parts.
pub proof fn lemma_encode_utf8_concat(a: Seq<char>, b: Seq<char>)
    ensures
        encode_utf8(a + b) == encode_utf8(a) + encode_utf8(b),
    decreases a.len(),
{
    if a.len() == 0 {
        assert(a + b =~= b);
        assert(encode_utf8(a) + encode_utf8(b) =~= encode_utf8(b));
    } else {
        assert((a + b).drop_first() =~= a.drop_first() + b);
        lemma_encode_utf8_concat(a.drop_first(), b);
        assert(encode_utf8(a + b) =~= encode_utf8(a) + encode_utf8(b));
    }
}

/// ASCII bytes are valid UTF-8 and decode to the same characters.
pub proof fn lemma_ascii_decode(b: Seq<u8>)
    requires
        forall|i: int| 0 <= i < b.len() ==> #[trigger] b[i] <= 0x7f,
    ensures
        valid_utf8(b),
        decode_utf8(b) == ascii_chars(b),
    decreases b.len(),
{
    if b.len() > 0 {
        let b0 = b[0];
        assert(b0 <= 0x7f ==> (b0 & 0x7f) == b0) by (bit_vector);
        let rest = b.subrange(1, b.len() as int);
        assert(pop_first_scalar(b) =~= rest);
        lemma_ascii_decode(rest);
        assert(decode_utf8(b) =~= ascii_chars(b));
    }
}

/// The position right after an ASCII byte is a character boundary.
pub proof fn lemma_boundary_after_ascii(s: Seq<u8>, k: int)
    requires
        valid_utf8(s),
        0 < k <= s.len(),
        s[k - 1] <= 0x7f,
    ensures
        is_char_boundary(s, k),
{
    if k == s.len() {
        is_char_boundary_start_end_of_seq(s);
    } else {
        is_char_boundary_iff_not_is_continuation_byte(s, k - 1);
        valid_utf8_split(s, k - 1);
        let t = s.subrange(k - 1, s.len() as int);
        assert(t[0] == s[k - 1]);
        assert(pop_first_scalar(t) =~= s.subrange(k, s.len() as int));
        let u = s.subrange(k, s.len() as int);
        assert(valid_utf8(u));
        assert(u[0] == s[k]);
        is_char_boundary_iff_not_is_continuation_byte(s, k);
    }
}

/// The bytes between a character boundary and an ASCII byte (or the end) are valid UTF-8.
pub proof fn lemma_segment_valid(s: Seq<u8>, a: int, b: int)
    requires
        valid_utf8(s),
        0 <= a <= b <= s.len(),
        is_char_boundary(s, a),
        b == s.len() || s[b] <= 0x7f,
    ensures
        valid_utf8(s.subrange(a, b)),
{
    valid_utf8_split(s, a);
    let t = s.subrange(a, s.len() as int);
    if b == s.len() {
        assert(t =~= s.subrange(a, b));
    } else {
        assert(t[b - a] == s[b]);
        is_char_boundary_iff_not_is_continuation_byte(t, b - a);
        valid_utf8_split(t, b - a);
        assert(t.subrange(0, b - a) =~= s.subrange(a, b));
    }
}

/// The encoding of the first character of valid UTF-8 is valid on its own and decodes to that character.
pub proof fn lemma_first_scalar_window(t: Seq<u8>)
    requires
        valid_utf8(t),
        t.len() > 0,
    ensures
        length_of_first_scalar(t) <= t.len(),
        valid_utf8(t.take(length_of_first_scalar(t))),
        decode_utf8(t.take(length_of_first_scalar(t))) == seq![decode_first_scalar(t) as char],
{
    let w = length_of_first_scalar(t);
    let u = t.take(w);
    assert(valid_first_scalar(t));
    assert(w <= t.len());
    assert(u.len() == w);
    assert(u[0] == t[0]);
    if w >= 2 {
        assert(u[1] == t[1]);
    }
    if w >= 3 {
        assert(u[2] == t[2]);
    }
    if w >= 4 {
        assert(u[3] == t[3]);
    }
    assert(valid_first_scalar(u));
    assert(pop_first_scalar(u) =~= Seq::<u8>::empty());
    reveal_with_fuel(valid_utf8, 2);
    reveal_with_fuel(decode_utf8, 2);
    assert(decode_utf8(u) =~= seq![decode_first_scalar(t) as char]);
}

/// The encoding of a character is valid UTF-8 that decodes to that character.
pub proof fn lemma_encode_char(c: char)
    ensures
        encode_scalar(c as u32) == encode_utf8(seq![c]),
        valid_utf8(encode_scalar(c as u32)),
        decode_utf8(encode_scalar(c as u32)) == seq![c],
{
    reveal_with_fuel(encode_utf8, 2);
    assert(seq![c][0] == c);
    assert(seq![c].drop_first() =~= Seq::<char>::empty());
    assert(encode_utf8(seq![c]) =~= encode_scalar(c as u32));
}

} // verus!
