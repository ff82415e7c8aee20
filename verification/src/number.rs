//! Number literals.
//!
//! The scanner takes the longest run of digits, `.`, `-`, `+`, `e` and `E`
//! that starts a number.  The run is accepted exactly when the standard
//! library's float parser accepts it: an optional leading minus sign, a
//! significand `Digit+`, `Digit+ '.' Digit*` or `Digit* '.' Digit+`, and an
//! optional exponent: `e` or `E`, an optional sign and `Digit+`.  An accepted
//! literal is kept as its canonical text: the sign, the integer digits without
//! leading zeros (at least one digit), the fractional digits without trailing
//! zeros (and no `.` when none are left), and, when the exponent is not zero,
//! `e`, a minus sign if it is negative, and its digits without leading zeros.
//! This text denotes exactly the number that the literal denotes; turning it
//! into a binary float is left to the caller.
use crate::text::{ascii_chars, push_ascii, push_char};
use vstd::prelude::*;
use vstd::arithmetic::power::{lemma_pow_adds, pow};
use vstd::utf8::is_ascii_chars;

verus! {

pub open spec fn is_digit(b: u8) -> bool {
    0x30 <= b <= 0x39
}

/// The bytes that a number literal is made of.
pub open spec fn is_number_byte(b: u8) -> bool {
    is_digit(b) || b == 0x2e || b == 0x2d || b == 0x2b || is_exp_marker(b)
}

/// The bytes of a canonical significand: digits, `.` and `-`.
pub open spec fn is_plain_number_byte(b: u8) -> bool {
    is_digit(b) || b == 0x2e || b == 0x2d
}

/// `e` or `E`, which starts the exponent of a literal.
pub open spec fn is_exp_marker(b: u8) -> bool {
    b == 0x65 || b == 0x45
}

/// The literal without its leading minus sign, if it has one.
pub open spec fn unsigned_part(s: Seq<u8>) -> Seq<u8> {
    if s.len() > 0 && s[0] == 0x2d {
        s.drop_first()
    } else {
        s
    }
}

pub open spec fn is_negative(s: Seq<u8>) -> bool {
    s.len() > 0 && s[0] == 0x2d
}

/// Whether the float parser accepts a run of number bytes: an optional minus
/// sign, then digits with at most one `.`, and at least one digit.
pub open spec fn valid_significand(s: Seq<u8>) -> bool {
    let body = unsigned_part(s);
    &&& forall|i: int| 0 <= i < body.len() ==> is_digit(#[trigger] body[i]) || body[i] == 0x2e
    &&& forall|i: int, j: int|
        0 <= i < j < body.len() && #[trigger] body[i] == 0x2e ==> #[trigger] body[j] != 0x2e
    &&& exists|i: int| 0 <= i < body.len() && is_digit(#[trigger] body[i])
}

/// Index of the first `.` in `s`, or its length when there is none.
pub open spec fn dot_index(s: Seq<u8>) -> nat
    decreases s.len(),
{
    if s.len() == 0 {
        0
    } else if s[0] == 0x2e {
        0
    } else {
        1 + dot_index(s.drop_first())
    }
}

pub open spec fn trim_leading_zeros(s: Seq<u8>) -> Seq<u8>
    decreases s.len(),
{
    if s.len() > 0 && s[0] == 0x30 {
        trim_leading_zeros(s.drop_first())
    } else {
        s
    }
}

pub open spec fn trim_trailing_zeros(s: Seq<u8>) -> Seq<u8>
    decreases s.len(),
{
    if s.len() > 0 && s.last() == 0x30 {
        trim_trailing_zeros(s.drop_last())
    } else {
        s
    }
}

/// Integer digits of a literal, without leading zeros; `0` when none remain.
pub open spec fn integer_digits(s: Seq<u8>) -> Seq<u8> {
    let body = unsigned_part(s);
    let t = trim_leading_zeros(body.take(dot_index(body) as int));
    if t.len() == 0 {
        seq![0x30u8]
    } else {
        t
    }
}

/// Fractional digits of a literal, without trailing zeros.
pub open spec fn fraction_digits(s: Seq<u8>) -> Seq<u8> {
    let body = unsigned_part(s);
    let d = dot_index(body);
    if d < body.len() {
        trim_trailing_zeros(body.skip(d + 1int))
    } else {
        seq![]
    }
}

/// Canonical decimal text of a number literal.
#[verifier::opaque]
pub open spec fn canonical_significand(s: Seq<u8>) -> Seq<char> {
    let sign: Seq<u8> = if is_negative(s) {
        seq![0x2du8]
    } else {
        seq![]
    };
    let frac = fraction_digits(s);
    let tail: Seq<u8> = if frac.len() > 0 {
        seq![0x2eu8] + frac
    } else {
        seq![]
    };
    ascii_chars(sign + integer_digits(s) + tail)
}

proof fn lemma_dot_index(s: Seq<u8>, k: int)
    requires
        0 <= k <= s.len(),
        forall|i: int| 0 <= i < k ==> #[trigger] s[i] != 0x2e,
        k == s.len() || s[k] == 0x2e,
    ensures
        dot_index(s) == k,
    decreases k,
{
    if k > 0 {
        lemma_dot_index(s.drop_first(), k - 1);
    }
}

proof fn lemma_trim_leading(s: Seq<u8>, k: int)
    requires
        0 <= k <= s.len(),
        forall|i: int| 0 <= i < k ==> #[trigger] s[i] == 0x30,
        k == s.len() || s[k] != 0x30,
    ensures
        trim_leading_zeros(s) == s.skip(k),
    decreases k,
{
    if k > 0 {
        lemma_trim_leading(s.drop_first(), k - 1);
        assert(s.drop_first().skip(k - 1) =~= s.skip(k));
    } else {
        assert(s.skip(0) =~= s);
    }
}

proof fn lemma_trim_trailing(s: Seq<u8>, k: int)
    requires
        0 <= k <= s.len(),
        forall|i: int| k <= i < s.len() ==> #[trigger] s[i] == 0x30,
        k == 0 || s[k - 1] != 0x30,
    ensures
        trim_trailing_zeros(s) == s.take(k),
    decreases s.len() - k,
{
    if k < s.len() {
        lemma_trim_trailing(s.drop_last(), k);
        assert(s.drop_last().take(k) =~= s.take(k));
    } else {
        assert(s.take(k) =~= s);
    }
}

proof fn lemma_invalid_byte(s: Seq<u8>, i: int)
    requires
        0 <= i < unsigned_part(s).len(),
        !(is_digit(unsigned_part(s)[i]) || unsigned_part(s)[i] == 0x2e),
    ensures
        !valid_significand(s),
{
}

proof fn lemma_two_dots(s: Seq<u8>, i: int, j: int)
    requires
        0 <= i < j < unsigned_part(s).len(),
        unsigned_part(s)[i] == 0x2e,
        unsigned_part(s)[j] == 0x2e,
    ensures
        !valid_significand(s),
{
}

/// Whether the part of a literal before its exponent is accepted.
fn significand_is_valid(s: &[u8]) -> (r: bool)
    requires
        forall|i: int| 0 <= i < s@.len() ==> is_number_byte(#[trigger] s@[i]) && !is_exp_marker(s@[i]),
    ensures
        r == valid_significand(s@),
{
    let start: usize = if s.len() > 0 && s[0] == 0x2d {
        1
    } else {
        0
    };
    let ghost body = unsigned_part(s@);
    assert(body =~= s@.skip(start as int));
    let mut i = start;
    let mut seen_dot = false;
    let mut seen_digit = false;
    while i < s.len()
        invariant
            start <= i <= s@.len(),
            body =~= s@.skip(start as int),
            body == unsigned_part(s@),
            forall|k: int| 0 <= k < s@.len() ==> is_number_byte(#[trigger] s@[k]) && !is_exp_marker(s@[k]),
            forall|k: int| 0 <= k < i - start ==> is_digit(#[trigger] body[k]) || body[k] == 0x2e,
            seen_dot <==> exists|k: int| 0 <= k < i - start && #[trigger] body[k] == 0x2e,
            forall|k: int, l: int|
                0 <= k < l < i - start && #[trigger] body[k] == 0x2e ==> #[trigger] body[l] != 0x2e,
            seen_digit <==> exists|k: int| 0 <= k < i - start && is_digit(#[trigger] body[k]),
        decreases s.len() - i,
    {
        let b = s[i];
        assert(b == body[i - start]);
        if b == 0x2d || b == 0x2b {
            proof {
                lemma_invalid_byte(s@, i - start);
            }
            return false;
        }
        if b == 0x2e {
            if seen_dot {
                let ghost k = choose|k: int| 0 <= k < i - start && #[trigger] body[k] == 0x2e;
                proof {
                    lemma_two_dots(s@, k, i - start);
                }
                return false;
            }
            seen_dot = true;
        } else {
            seen_digit = true;
        }
        i = i + 1;
    }
    assert(i - start == body.len());
    seen_digit
}

/// Index of the first `.` at or after `start`, or the length of `s`.
pub(crate) fn find_dot(s: &[u8], start: usize) -> (d: usize)
    requires
        start <= s@.len(),
    ensures
        d == start + dot_index(s@.skip(start as int)),
        d <= s@.len(),
        d < s@.len() ==> s@[d as int] == 0x2e,
{
    let ghost rest = s@.skip(start as int);
    let mut d = start;
    while d < s.len() && s[d] != 0x2e
        invariant
            start <= d <= s@.len(),
            forall|k: int| start <= k < d ==> #[trigger] s@[k] != 0x2e,
        decreases s.len() - d,
    {
        d = d + 1;
    }
    proof {
        assert forall|k: int| 0 <= k < d - start implies #[trigger] rest[k] != 0x2e by {
            assert(rest[k] == s@[k + start]);
        }
        lemma_dot_index(rest, d - start);
    }
    d
}

/// First index in `from..to` that is not a `0`, or `to`.
pub(crate) fn skip_leading_zeros(s: &[u8], from: usize, to: usize) -> (k: usize)
    requires
        from <= to <= s@.len(),
    ensures
        from <= k <= to,
        trim_leading_zeros(s@.subrange(from as int, to as int)) == s@.subrange(k as int, to as int),
        forall|m: int| from <= m < k ==> #[trigger] s@[m] == 0x30,
{
    let ghost part = s@.subrange(from as int, to as int);
    let mut k = from;
    while k < to && s[k] == 0x30
        invariant
            from <= k <= to,
            to <= s@.len(),
            forall|m: int| from <= m < k ==> #[trigger] s@[m] == 0x30,
        decreases to - k,
    {
        k = k + 1;
    }
    proof {
        assert forall|m: int| 0 <= m < k - from implies #[trigger] part[m] == 0x30 by {
            assert(part[m] == s@[m + from]);
        }
        lemma_trim_leading(part, k - from);
        assert(part.skip(k - from) =~= s@.subrange(k as int, to as int));
    }
    k
}

/// End of `from..to` once its trailing `0`s are dropped.
pub(crate) fn drop_trailing_zeros(s: &[u8], from: usize, to: usize) -> (e: usize)
    requires
        from <= to <= s@.len(),
    ensures
        from <= e <= to,
        trim_trailing_zeros(s@.subrange(from as int, to as int)) == s@.subrange(from as int, e as int),
{
    let ghost part = s@.subrange(from as int, to as int);
    let mut e = to;
    while e > from && s[e - 1] == 0x30
        invariant
            from <= e <= to,
            to <= s@.len(),
            forall|m: int| e <= m < to ==> #[trigger] s@[m] == 0x30,
        decreases e,
    {
        e = e - 1;
    }
    proof {
        assert forall|m: int| e - from <= m < part.len() implies #[trigger] part[m] == 0x30 by {
            assert(part[m] == s@[m + from]);
        }
        lemma_trim_trailing(part, e - from);
        assert(part.take(e - from) =~= s@.subrange(from as int, e as int));
    }
    e
}

proof fn lemma_canonical_shape(s: Seq<u8>, start: int, d: int, k: int, e: int)
    requires
        start == (if is_negative(s) {
            1int
        } else {
            0int
        }),
        d == start + dot_index(s.skip(start)),
        d <= s.len(),
        start <= k <= d,
        trim_leading_zeros(s.subrange(start, d)) == s.subrange(k, d),
        d < s.len() ==> d + 1 <= e <= s.len() && trim_trailing_zeros(s.subrange(d + 1, s.len() as int))
            == s.subrange(d + 1, e),
        d == s.len() ==> e == d,
    ensures
        canonical_significand(s) == (if is_negative(s) {
            seq!['-']
        } else {
            Seq::<char>::empty()
        }) + (if k == d {
            seq!['0']
        } else {
            ascii_chars(s.subrange(k, d))
        }) + (if d < s.len() && e > d + 1 {
            seq!['.'] + ascii_chars(s.subrange(d + 1, e))
        } else {
            Seq::<char>::empty()
        }),
{
    reveal(canonical_significand);
    let body = unsigned_part(s);
    assert(body =~= s.skip(start));
    assert(body.take(d - start) =~= s.subrange(start, d));
    if d < s.len() {
        assert(body.skip(d - start + 1) =~= s.subrange(d + 1, s.len() as int));
    }
    let sign: Seq<u8> = if is_negative(s) {
        seq![0x2du8]
    } else {
        seq![]
    };
    let frac = fraction_digits(s);
    let tail: Seq<u8> = if frac.len() > 0 {
        seq![0x2eu8] + frac
    } else {
        seq![]
    };
    let ints = integer_digits(s);
    if k == d {
        assert(ints =~= seq![0x30u8]);
        assert(ascii_chars(ints) =~= seq!['0']);
    } else {
        assert(ints =~= s.subrange(k, d));
    }
    if d < s.len() {
        assert(frac =~= s.subrange(d + 1, e));
    } else {
        assert(frac.len() == 0);
    }
    assert(ascii_chars(sign + ints + tail) =~= ascii_chars(sign) + ascii_chars(ints) + ascii_chars(
        tail,
    ));
    if frac.len() > 0 {
        assert(ascii_chars(tail) =~= seq!['.'] + ascii_chars(frac));
    } else {
        assert(ascii_chars(tail) =~= Seq::<char>::empty());
    }
    if is_negative(s) {
        assert(ascii_chars(sign) =~= seq!['-']);
    } else {
        assert(ascii_chars(sign) =~= Seq::<char>::empty());
    }
}

// ---------------------------------------------------------------------------
// Canonical texts
// ---------------------------------------------------------------------------
/// The characters of a text read back as bytes.
pub open spec fn char_bytes(n: Seq<char>) -> Seq<u8> {
    n.map_values(|c: char| c as u8)
}

/// Whether a text is a canonical number text: read back as bytes it is an
/// accepted literal whose canonical text is the text itself.
pub open spec fn is_canonical_significand(n: Seq<char>) -> bool {
    valid_significand(char_bytes(n)) && canonical_significand(char_bytes(n)) == n
}

pub(crate) proof fn lemma_dot_index_props(s: Seq<u8>)
    ensures
        dot_index(s) <= s.len(),
        forall|k: int| 0 <= k < dot_index(s) ==> #[trigger] s[k] != 0x2e,
        dot_index(s) < s.len() ==> s[dot_index(s) as int] == 0x2e,
    decreases s.len(),
{
    if s.len() > 0 && s[0] != 0x2e {
        lemma_dot_index_props(s.drop_first());
        assert forall|k: int| 0 <= k < dot_index(s) implies #[trigger] s[k] != 0x2e by {
            if k > 0 {
                assert(s[k] == s.drop_first()[k - 1]);
            }
        }
    }
}

pub(crate) proof fn lemma_trim_leading_index(s: Seq<u8>) -> (k: int)
    ensures
        0 <= k <= s.len(),
        trim_leading_zeros(s) == s.skip(k),
        forall|m: int| 0 <= m < k ==> #[trigger] s[m] == 0x30,
        k == s.len() || s[k] != 0x30,
    decreases s.len(),
{
    if s.len() > 0 && s[0] == 0x30 {
        let k1 = lemma_trim_leading_index(s.drop_first());
        assert(s.drop_first().skip(k1) =~= s.skip(k1 + 1));
        assert forall|m: int| 0 <= m < k1 + 1 implies #[trigger] s[m] == 0x30 by {
            if m > 0 {
                assert(s[m] == s.drop_first()[m - 1]);
            }
        }
        k1 + 1
    } else {
        assert(s.skip(0) =~= s);
        0
    }
}

pub(crate) proof fn lemma_trim_trailing_index(s: Seq<u8>) -> (k: int)
    ensures
        0 <= k <= s.len(),
        trim_trailing_zeros(s) == s.take(k),
        forall|m: int| k <= m < s.len() ==> #[trigger] s[m] == 0x30,
        k == 0 || s[k - 1] != 0x30,
    decreases s.len(),
{
    if s.len() > 0 && s.last() == 0x30 {
        let k1 = lemma_trim_trailing_index(s.drop_last());
        assert(s.drop_last().take(k1) =~= s.take(k1));
        assert forall|m: int| k1 <= m < s.len() implies #[trigger] s[m] == 0x30 by {
            if m < s.len() - 1 {
                assert(s[m] == s.drop_last()[m]);
            }
        }
        k1
    } else {
        assert(s.take(s.len() as int) =~= s);
        s.len() as int
    }
}

/// The pieces of a canonical text: an optional sign, integer digits without
/// leading zeros (or a single `0`), and an optional `.` followed by digits
/// that do not end in `0`.
proof fn lemma_canonical_pieces(l: Seq<u8>)
    requires
        valid_significand(l),
    ensures
        integer_digits(l).len() > 0,
        forall|k: int| 0 <= k < integer_digits(l).len() ==> is_digit(#[trigger] integer_digits(l)[k]),
        integer_digits(l).len() == 1 || integer_digits(l)[0] != 0x30,
        forall|k: int| 0 <= k < fraction_digits(l).len() ==> is_digit(#[trigger] fraction_digits(l)[k]),
        fraction_digits(l).len() > 0 ==> fraction_digits(l).last() != 0x30,
{
    let body = unsigned_part(l);
    lemma_dot_index_props(body);
    let d = dot_index(body);
    let ip = body.take(d as int);
    let k = lemma_trim_leading_index(ip);
    assert forall|m: int| 0 <= m < ip.len() implies is_digit(#[trigger] ip[m]) by {
        assert(ip[m] == body[m]);
    }
    let t = ip.skip(k);
    if t.len() > 0 {
        assert(t[0] == ip[k]);
        assert forall|m: int| 0 <= m < t.len() implies is_digit(#[trigger] t[m]) by {
            assert(t[m] == ip[m + k]);
        }
    }
    if d < body.len() {
        let fp = body.skip(d + 1int);
        assert forall|m: int| 0 <= m < fp.len() implies is_digit(#[trigger] fp[m]) by {
            assert(fp[m] == body[m + d + 1]);
            assert(body[d as int] == 0x2e);
        }
        let e = lemma_trim_trailing_index(fp);
        let f = fp.take(e);
        assert forall|m: int| 0 <= m < f.len() implies is_digit(#[trigger] f[m]) by {
            assert(f[m] == fp[m]);
        }
    }
}

/// The canonical text of an accepted literal is an ASCII text of number
/// characters that starts with `-` or a digit, and it is itself canonical.
pub proof fn lemma_canonical_significand_is_canonical(l: Seq<u8>)
    requires
        valid_significand(l),
    ensures
        canonical_significand(l).len() > 0,
        canonical_significand(l)[0] == '-' || is_digit(canonical_significand(l)[0] as u8),
        forall|k: int|
            0 <= k < canonical_significand(l).len() ==> is_plain_number_byte(#[trigger] canonical_significand(l)[k] as u8),
        is_ascii_chars(canonical_significand(l)),
        is_canonical_significand(canonical_significand(l)),
{
    reveal(canonical_significand);
    lemma_canonical_pieces(l);
    let sign: Seq<u8> = if is_negative(l) {
        seq![0x2du8]
    } else {
        seq![]
    };
    let ints = integer_digits(l);
    let frac = fraction_digits(l);
    let tail: Seq<u8> = if frac.len() > 0 {
        seq![0x2eu8] + frac
    } else {
        seq![]
    };
    let b = sign + ints + tail;
    let c = canonical_significand(l);
    assert(c == ascii_chars(b));
    assert forall|k: int| 0 <= k < b.len() implies is_plain_number_byte(#[trigger] b[k]) by {
        if k < sign.len() {
        } else if k < sign.len() + ints.len() {
            assert(b[k] == ints[k - sign.len()]);
        } else {
            if frac.len() > 0 && k > sign.len() + ints.len() {
                assert(b[k] == frac[k - sign.len() - ints.len() - 1]);
            }
        }
    }
    assert forall|k: int| 0 <= k < b.len() implies (#[trigger] b[k] as char) as u8 == b[k] by {
        assert(b[k] <= 0x39);
    }
    assert(char_bytes(c) =~= b);
    assert forall|k: int| 0 <= k < c.len() implies is_plain_number_byte(#[trigger] c[k] as u8) by {
        assert(c[k] as u8 == b[k]);
    }
    assert(is_ascii_chars(c)) by {
        assert forall|k: int| 0 <= k < c.len() implies '\0' <= #[trigger] c[k] <= '\u{7f}' by {
            assert(c[k] == b[k] as char);
            assert(b[k] <= 0x39);
        }
    }
    // Read back as bytes, the text is accepted and has the same pieces.
    let body = ints + tail;
    assert(unsigned_part(b) =~= body) by {
        if sign.len() == 0 {
            assert(b =~= body);
            assert(b[0] == ints[0]);
        } else {
            assert(b.drop_first() =~= body);
        }
    }
    assert(is_negative(b) == is_negative(l)) by {
        if sign.len() == 0 {
            assert(b[0] == ints[0]);
        }
    }
    assert forall|i: int| 0 <= i < body.len() implies is_digit(#[trigger] body[i]) || body[i] == 0x2e by {
        assert(is_plain_number_byte(b[i + sign.len()]));
        assert(b[i + sign.len()] == body[i]);
        if i < ints.len() {
            assert(body[i] == ints[i]);
        }
    }
    assert forall|i: int, j: int|
        0 <= i < j < body.len() && #[trigger] body[i] == 0x2e implies #[trigger] body[j] != 0x2e by {
        if i < ints.len() {
            assert(body[i] == ints[i]);
        }
        assert(i == ints.len());
        assert(body[j] == frac[j - ints.len() - 1]);
    }
    assert(is_digit(body[0]));
    assert(valid_significand(b));
    lemma_dot_index(body, ints.len() as int);
    assert(body.take(ints.len() as int) =~= ints);
    if ints.len() == 1 && ints[0] == 0x30 {
        lemma_trim_leading(ints, 1);
        assert(ints.skip(1).len() == 0);
    } else {
        lemma_trim_leading(ints, 0);
        assert(ints.skip(0) =~= ints);
    }
    assert(integer_digits(b) =~= ints);
    if frac.len() > 0 {
        assert(body.skip(ints.len() + 1int) =~= frac);
        lemma_trim_trailing(frac, frac.len() as int);
        assert(frac.take(frac.len() as int) =~= frac);
    }
    assert(fraction_digits(b) =~= frac);
}

// ---------------------------------------------------------------------------
// The number a literal denotes
// ---------------------------------------------------------------------------
/// The value of a sequence of decimal digits, most significant first.
pub open spec fn digits_value(d: Seq<u8>) -> int
    decreases d.len(),
{
    if d.len() == 0 {
        0
    } else {
        digits_value(d.drop_last()) * 10 + (d.last() - 0x30)
    }
}

/// The digits of a literal with its `.` left out.  The literal denotes the
/// value of these digits divided by `10` to the power `fraction_length`,
/// negated when it has a minus sign.
pub open spec fn literal_digits(s: Seq<u8>) -> Seq<u8> {
    let body = unsigned_part(s);
    let d = dot_index(body);
    if d < body.len() {
        body.take(d as int) + body.skip(d + 1int)
    } else {
        body
    }
}

/// How many digits a literal has after its `.`.
pub open spec fn fraction_length(s: Seq<u8>) -> nat {
    let body = unsigned_part(s);
    let d = dot_index(body);
    if d < body.len() {
        (body.len() - d - 1) as nat
    } else {
        0
    }
}

/// Two literals denote the same number: the same sign, and the same value
/// `literal_digits / 10^fraction_length`.
pub open spec fn same_significand(a: Seq<u8>, b: Seq<u8>) -> bool {
    &&& is_negative(a) == is_negative(b)
    &&& digits_value(literal_digits(a)) * pow(10, fraction_length(b)) == digits_value(literal_digits(b))
        * pow(10, fraction_length(a))
}

pub(crate) proof fn lemma_digits_value_concat(a: Seq<u8>, b: Seq<u8>)
    ensures
        digits_value(a + b) == digits_value(a) * pow(10, b.len()) + digits_value(b),
    decreases b.len(),
{
    if b.len() == 0 {
        assert(a + b =~= a);
        assert(pow(10, 0) == 1) by {
            reveal(pow);
        }
    } else {
        assert((a + b).drop_last() =~= a + b.drop_last());
        assert((a + b).last() == b.last());
        lemma_digits_value_concat(a, b.drop_last());
        let x = digits_value(a);
        let p = pow(10, b.drop_last().len());
        let y = digits_value(b.drop_last());
        assert(pow(10, b.len()) == 10 * p) by {
            reveal(pow);
        }
        assert((x * p + y) * 10 == x * (10 * p) + y * 10) by (nonlinear_arith);
    }
}

pub(crate) proof fn lemma_zeros_value(z: Seq<u8>)
    requires
        forall|i: int| 0 <= i < z.len() ==> #[trigger] z[i] == 0x30,
    ensures
        digits_value(z) == 0,
    decreases z.len(),
{
    if z.len() > 0 {
        lemma_zeros_value(z.drop_last());
    }
}

/// Read back as bytes, the canonical text has the integer digits and the
/// fractional digits of the literal's canonical pieces.
proof fn lemma_canonical_digits(l: Seq<u8>)
    requires
        valid_significand(l),
    ensures
        is_negative(char_bytes(canonical_significand(l))) == is_negative(l),
        literal_digits(char_bytes(canonical_significand(l))) == integer_digits(l) + fraction_digits(l),
        fraction_length(char_bytes(canonical_significand(l))) == fraction_digits(l).len(),
{
    lemma_canonical_pieces(l);
    reveal(canonical_significand);
    let sign: Seq<u8> = if is_negative(l) {
        seq![0x2du8]
    } else {
        seq![]
    };
    let ints = integer_digits(l);
    let frac = fraction_digits(l);
    let tail: Seq<u8> = if frac.len() > 0 {
        seq![0x2eu8] + frac
    } else {
        seq![]
    };
    let b = sign + ints + tail;
    assert forall|i: int| 0 <= i < b.len() implies (#[trigger] b[i] as char) as u8 == b[i] by {
        if i < sign.len() {
        } else if i < sign.len() + ints.len() {
            assert(b[i] == ints[i - sign.len()]);
        } else if frac.len() > 0 && i > sign.len() + ints.len() {
            assert(b[i] == frac[i - sign.len() - ints.len() - 1]);
        }
    }
    assert(char_bytes(canonical_significand(l)) =~= b);
    let cbody = ints + tail;
    assert(unsigned_part(b) =~= cbody) by {
        if sign.len() == 0 {
            assert(b =~= cbody);
            assert(b[0] == ints[0]);
        } else {
            assert(b.drop_first() =~= cbody);
        }
    }
    assert(is_negative(b) == is_negative(l)) by {
        if sign.len() == 0 {
            assert(b[0] == ints[0]);
        }
    }
    assert forall|i: int| 0 <= i < ints.len() implies #[trigger] cbody[i] != 0x2e by {
        assert(cbody[i] == ints[i]);
    }
    if frac.len() > 0 {
        assert(cbody[ints.len() as int] == 0x2e);
    }
    lemma_dot_index(cbody, ints.len() as int);
    if frac.len() > 0 {
        assert(cbody.take(ints.len() as int) =~= ints);
        assert(cbody.skip(ints.len() + 1int) =~= frac);
    } else {
        assert(cbody =~= ints);
        assert(ints + frac =~= ints);
    }
}

/// The integer digits keep their value without their leading zeros.
proof fn lemma_integer_digits_value(l: Seq<u8>)
    requires
        valid_significand(l),
    ensures
        digits_value(unsigned_part(l).take(dot_index(unsigned_part(l)) as int)) == digits_value(
            integer_digits(l),
        ),
{
    let body = unsigned_part(l);
    lemma_dot_index_props(body);
    let ip = body.take(dot_index(body) as int);
    let k = lemma_trim_leading_index(ip);
    let zs = ip.take(k);
    let rest = ip.skip(k);
    assert(zs + rest =~= ip);
    assert forall|i: int| 0 <= i < zs.len() implies #[trigger] zs[i] == 0x30 by {
        assert(zs[i] == ip[i]);
    }
    lemma_zeros_value(zs);
    lemma_digits_value_concat(zs, rest);
    if rest.len() == 0 {
        assert(integer_digits(l) =~= seq![0x30u8]);
        assert(seq![0x30u8].drop_last() =~= Seq::<u8>::empty());
        assert(digits_value(Seq::<u8>::empty()) == 0);
        assert(seq![0x30u8].last() == 0x30);
        assert(digits_value(seq![0x30u8]) == 0);
    }
}

/// The fractional digits are those of the canonical text followed by zeros.
proof fn lemma_fraction_digits_value(l: Seq<u8>)
    requires
        valid_significand(l),
        dot_index(unsigned_part(l)) < unsigned_part(l).len(),
    ensures
        ({
            let fp = unsigned_part(l).skip(dot_index(unsigned_part(l)) + 1int);
            &&& fraction_digits(l).len() <= fp.len()
            &&& digits_value(fp) == digits_value(fraction_digits(l)) * pow(
                10,
                (fp.len() - fraction_digits(l).len()) as nat,
            )
        }),
{
    let body = unsigned_part(l);
    let fp = body.skip(dot_index(body) + 1int);
    let e = lemma_trim_trailing_index(fp);
    let zs = fp.skip(e);
    assert(fp.take(e) + zs =~= fp);
    assert forall|i: int| 0 <= i < zs.len() implies #[trigger] zs[i] == 0x30 by {
        assert(zs[i] == fp[i + e]);
    }
    lemma_zeros_value(zs);
    lemma_digits_value_concat(fp.take(e), zs);
}

/// A valid literal and its canonical text denote the same number.
pub proof fn lemma_canonical_significand_same(l: Seq<u8>)
    requires
        valid_significand(l),
    ensures
        same_significand(l, char_bytes(canonical_significand(l))),
{
    lemma_canonical_digits(l);
    lemma_integer_digits_value(l);
    let body = unsigned_part(l);
    lemma_dot_index_props(body);
    let d = dot_index(body);
    let ip = body.take(d as int);
    let ints = integer_digits(l);
    let frac = fraction_digits(l);
    lemma_digits_value_concat(ints, frac);
    let vi = digits_value(ints);
    let vf = digits_value(frac);
    if d < body.len() {
        let fp = body.skip(d + 1int);
        lemma_fraction_digits_value(l);
        let z = (fp.len() - frac.len()) as nat;
        lemma_digits_value_concat(ip, fp);
        lemma_pow_adds(10, z, frac.len());
        let pz = pow(10, z);
        let pf = pow(10, frac.len());
        assert(fp.len() == z + frac.len());
        assert(digits_value(ip + fp) == vi * (pz * pf) + vf * pz);
        assert((vi * pf + vf) * (pz * pf) == (vi * (pz * pf) + vf * pz) * pf) by (nonlinear_arith);
    } else {
        assert(body.take(d as int) =~= body);
        assert(frac.len() == 0);
        assert(ints + frac =~= ints);
        assert(pow(10, 0) == 1) by {
            reveal(pow);
        }
    }
}

/// The canonical decimal text of a number literal.
#[verifier::rlimit(30)]
fn canonical_significand_text(s: &[u8]) -> (r: String)
    ensures
        r@ == canonical_significand(s@),
{
    let negative = s.len() > 0 && s[0] == 0x2d;
    let start: usize = if negative {
        1
    } else {
        0
    };
    let ghost body = unsigned_part(s@);
    assert(body =~= s@.skip(start as int));
    let d = find_dot(s, start);
    let k = skip_leading_zeros(s, start, d);
    assert(body.take(d - start) =~= s@.subrange(start as int, d as int));
    let e = if d < s.len() {
        let e = drop_trailing_zeros(s, d + 1, s.len());
        assert(body.skip(d - start + 1) =~= s@.subrange(d + 1, s@.len() as int));
        e
    } else {
        d
    };
    let mut out = String::new();
    if negative {
        push_char(&mut out, '-');
    }
    if k == d {
        push_char(&mut out, '0');
    } else {
        push_ascii(&mut out, &s[k..d]);
    }
    if d < s.len() && e > d + 1 {
        push_char(&mut out, '.');
        push_ascii(&mut out, &s[d + 1..e]);
    }
    proof {
        lemma_canonical_shape(s@, start as int, d as int, k as int, e as int);
        if negative {
                    }
        assert(out@ =~= canonical_significand(s@));
    }
    out
}

// ---------------------------------------------------------------------------
// Whole literals: a significand and an optional exponent
// ---------------------------------------------------------------------------
/// Index of the first `e` or `E` in `s`, or its length when there is none.
pub open spec fn exp_index(s: Seq<u8>) -> nat
    decreases s.len(),
{
    if s.len() == 0 {
        0
    } else if is_exp_marker(s[0]) {
        0
    } else {
        1 + exp_index(s.drop_first())
    }
}

/// The literal before its exponent.
pub open spec fn significand(s: Seq<u8>) -> Seq<u8> {
    s.take(exp_index(s) as int)
}

pub open spec fn has_exponent(s: Seq<u8>) -> bool {
    exp_index(s) < s.len()
}

/// What follows the `e` or `E` of a literal; empty when there is none.
pub open spec fn exponent_part(s: Seq<u8>) -> Seq<u8> {
    if has_exponent(s) {
        s.skip(exp_index(s) + 1int)
    } else {
        seq![]
    }
}

pub open spec fn exponent_negative(x: Seq<u8>) -> bool {
    x.len() > 0 && x[0] == 0x2d
}

/// The digits of an exponent, without its sign.
pub open spec fn exponent_digits(x: Seq<u8>) -> Seq<u8> {
    if x.len() > 0 && (x[0] == 0x2b || x[0] == 0x2d) {
        x.drop_first()
    } else {
        x
    }
}

/// An exponent is an optional sign followed by at least one digit.
pub open spec fn valid_exponent(x: Seq<u8>) -> bool {
    &&& exponent_digits(x).len() > 0
    &&& forall|i: int| 0 <= i < exponent_digits(x).len() ==> is_digit(#[trigger] exponent_digits(x)[i])
}

/// Whether the float parser accepts a run of number bytes: an accepted
/// significand, and, after an `e` or `E`, an accepted exponent.
pub open spec fn valid_number(s: Seq<u8>) -> bool {
    &&& valid_significand(significand(s))
    &&& has_exponent(s) ==> valid_exponent(exponent_part(s))
}

/// Canonical text of an exponent: nothing when its value is zero, else `e`,
/// a minus sign when it is negative, and its digits without leading zeros.
pub open spec fn exponent_text(x: Seq<u8>) -> Seq<char> {
    let t = trim_leading_zeros(exponent_digits(x));
    if t.len() == 0 {
        seq![]
    } else {
        seq!['e'] + (if exponent_negative(x) {
            seq!['-']
        } else {
            Seq::<char>::empty()
        }) + ascii_chars(t)
    }
}

/// Canonical text of a number literal.
pub open spec fn canonical_number(s: Seq<u8>) -> Seq<char> {
    canonical_significand(significand(s)) + exponent_text(exponent_part(s))
}

/// Whether a text is a canonical number text: read back as bytes it is an
/// accepted literal whose canonical text is the text itself.
pub open spec fn is_canonical_number(n: Seq<char>) -> bool {
    valid_number(char_bytes(n)) && canonical_number(char_bytes(n)) == n
}

/// The value of a literal's exponent (zero when it has none).
pub open spec fn exponent_value(s: Seq<u8>) -> int {
    (if exponent_negative(exponent_part(s)) {
        -1int
    } else {
        1int
    }) * digits_value(exponent_digits(exponent_part(s)))
}

/// Two literals denote the same number: the same sign and significand value,
/// and the same exponent value.
pub open spec fn same_number(a: Seq<u8>, b: Seq<u8>) -> bool {
    &&& same_significand(significand(a), significand(b))
    &&& exponent_value(a) == exponent_value(b)
}

pub(crate) proof fn lemma_exp_index_props(s: Seq<u8>)
    ensures
        exp_index(s) <= s.len(),
        forall|k: int| 0 <= k < exp_index(s) ==> !is_exp_marker(#[trigger] s[k]),
        exp_index(s) < s.len() ==> is_exp_marker(s[exp_index(s) as int]),
    decreases s.len(),
{
    if s.len() > 0 && !is_exp_marker(s[0]) {
        lemma_exp_index_props(s.drop_first());
        assert forall|k: int| 0 <= k < exp_index(s) implies !is_exp_marker(#[trigger] s[k]) by {
            if k > 0 {
                assert(s[k] == s.drop_first()[k - 1]);
            }
        }
    }
}

pub(crate) proof fn lemma_exp_index(s: Seq<u8>, k: int)
    requires
        0 <= k <= s.len(),
        forall|i: int| 0 <= i < k ==> !is_exp_marker(#[trigger] s[i]),
        k == s.len() || is_exp_marker(s[k]),
    ensures
        exp_index(s) == k,
    decreases k,
{
    if k > 0 {
        assert forall|i: int| 0 <= i < k - 1 implies !is_exp_marker(#[trigger] s.drop_first()[i]) by {
            assert(s.drop_first()[i] == s[i + 1]);
        }
        lemma_exp_index(s.drop_first(), k - 1);
    }
}

/// The canonical text of an accepted literal, read back as bytes: its
/// significand is the canonical significand, and it keeps the exponent value.
proof fn lemma_canonical_layout(l: Seq<u8>)
    requires
        valid_number(l),
    ensures
        canonical_number(l).len() > 0,
        canonical_number(l)[0] == '-' || is_digit(canonical_number(l)[0] as u8),
        forall|k: int| 0 <= k < canonical_number(l).len() ==> is_number_byte(#[trigger] canonical_number(l)[k] as u8),
        is_ascii_chars(canonical_number(l)),
        valid_number(char_bytes(canonical_number(l))),
        canonical_number(char_bytes(canonical_number(l))) == canonical_number(l),
        significand(char_bytes(canonical_number(l))) == char_bytes(canonical_significand(significand(l))),
        exponent_value(char_bytes(canonical_number(l))) == exponent_value(l),
{
    let sig = significand(l);
    lemma_exp_index_props(l);
    lemma_canonical_significand_is_canonical(sig);
    let cs = canonical_significand(sig);
    let x = exponent_part(l);
    let d = exponent_digits(x);
    let k = lemma_trim_leading_index(d);
    let t = d.skip(k);
    let et = exponent_text(x);
    let c = canonical_number(l);
    let cb = char_bytes(cs);
    let eb = char_bytes(et);
    assert(char_bytes(c) =~= cb + eb);
    let bytes = cb + eb;
    assert forall|i: int| 0 <= i < cb.len() implies !is_exp_marker(#[trigger] bytes[i]) by {
        assert(bytes[i] == cs[i] as u8);
        assert(is_plain_number_byte(cs[i] as u8));
    }
    assert(d.take(k) + t =~= d);
    assert forall|i: int| 0 <= i < d.take(k).len() implies #[trigger] d.take(k)[i] == 0x30 by {
        assert(d.take(k)[i] == d[i]);
    }
    lemma_zeros_value(d.take(k));
    lemma_digits_value_concat(d.take(k), t);
    if t.len() == 0 {
        assert(et =~= Seq::<char>::empty());
        assert(bytes =~= cb);
        lemma_exp_index(bytes, cb.len() as int);
        assert(significand(bytes) =~= cb);
        assert(exponent_part(bytes) =~= Seq::<u8>::empty());
        assert(exponent_text(Seq::<u8>::empty()) =~= Seq::<char>::empty());
        assert(c =~= cs);
        assert(digits_value(Seq::<u8>::empty()) == 0);
    } else {
        assert(valid_exponent(x));
        assert forall|i: int| 0 <= i < t.len() implies is_digit(#[trigger] t[i]) by {
            assert(t[i] == d[i + k]);
        }
        let sg: Seq<u8> = if exponent_negative(x) {
            seq![0x2du8]
        } else {
            seq![]
        };
        assert(eb =~= seq![0x65u8] + sg + t) by {
            assert forall|i: int| 0 <= i < t.len() implies (#[trigger] t[i] as char) as u8 == t[i] by {
                assert(t[i] <= 0x39);
            }
        }
        assert(bytes[cb.len() as int] == 0x65);
        lemma_exp_index(bytes, cb.len() as int);
        assert(significand(bytes) =~= cb);
        let x2 = sg + t;
        assert(exponent_part(bytes) =~= x2);
        assert(t[0] != 0x2d && t[0] != 0x2b);
        if sg.len() > 0 {
            assert(x2.drop_first() =~= t);
        } else {
            assert(x2 =~= t);
        }
        assert(exponent_digits(x2) == t);
        assert(exponent_negative(x2) == exponent_negative(x));
        lemma_trim_leading(t, 0);
        assert(t.skip(0) =~= t);
        assert(exponent_text(x2) == et);
    }
    assert(c[0] == cs[0]);
    assert forall|i: int| 0 <= i < c.len() implies is_number_byte(#[trigger] c[i] as u8) by {
        if i < cs.len() {
            assert(c[i] == cs[i]);
        } else {
            assert(c[i] == et[i - cs.len()]);
            if t.len() > 0 {
                assert(is_digit(t[0]));
            }
        }
    }
    assert(is_ascii_chars(c)) by {
        assert forall|i: int| 0 <= i < c.len() implies '\0' <= #[trigger] c[i] <= '\u{7f}' by {
            if i < cs.len() {
                assert(c[i] == cs[i]);
            } else {
                assert(is_number_byte(c[i] as u8));
            }
        }
    }
}

/// The canonical text of an accepted literal is an ASCII text of number
/// characters that starts with `-` or a digit, and it is itself canonical.
pub proof fn lemma_canonical_number_is_canonical(l: Seq<u8>)
    requires
        valid_number(l),
    ensures
        canonical_number(l).len() > 0,
        canonical_number(l)[0] == '-' || is_digit(canonical_number(l)[0] as u8),
        forall|k: int| 0 <= k < canonical_number(l).len() ==> is_number_byte(#[trigger] canonical_number(l)[k] as u8),
        is_ascii_chars(canonical_number(l)),
        is_canonical_number(canonical_number(l)),
{
    lemma_canonical_layout(l);
}

/// A valid literal and its canonical text denote the same number.
pub proof fn lemma_canonical_same_number(l: Seq<u8>)
    requires
        valid_number(l),
    ensures
        same_number(l, char_bytes(canonical_number(l))),
{
    lemma_canonical_layout(l);
    lemma_canonical_significand_same(significand(l));
}

/// Index of the first `e` or `E` in `s`, or its length.
pub(crate) fn find_exp(s: &[u8]) -> (e: usize)
    ensures
        e == exp_index(s@),
        e <= s@.len(),
{
    let mut e: usize = 0;
    while e < s.len() && s[e] != 0x65 && s[e] != 0x45
        invariant
            e <= s@.len(),
            forall|i: int| 0 <= i < e ==> !is_exp_marker(#[trigger] s@[i]),
        decreases s.len() - e,
    {
        e = e + 1;
    }
    proof {
        lemma_exp_index(s@, e as int);
    }
    e
}

/// Whether the part after an `e` is an accepted exponent.
fn exponent_is_valid(x: &[u8]) -> (r: bool)
    ensures
        r == valid_exponent(x@),
{
    let start: usize = if x.len() > 0 && (x[0] == 0x2b || x[0] == 0x2d) {
        1
    } else {
        0
    };
    let ghost d = exponent_digits(x@);
    assert(d =~= x@.skip(start as int));
    if start == x.len() {
        return false;
    }
    let mut i = start;
    while i < x.len()
        invariant
            start <= i <= x@.len(),
            d == exponent_digits(x@),
            d =~= x@.skip(start as int),
            forall|k: int| 0 <= k < i - start ==> is_digit(#[trigger] d[k]),
        decreases x.len() - i,
    {
        if !(0x30 <= x[i] && x[i] <= 0x39) {
            assert(d[i - start] == x@[i as int]);
            assert(!is_digit(exponent_digits(x@)[i - start]));
            return false;
        }
        i = i + 1;
    }
    true
}

/// Whether a run of number bytes is a literal that the float parser accepts.
pub(crate) fn number_is_valid(s: &[u8]) -> (r: bool)
    requires
        forall|i: int| 0 <= i < s@.len() ==> is_number_byte(#[trigger] s@[i]),
    ensures
        r == valid_number(s@),
{
    let e = find_exp(s);
    proof {
        lemma_exp_index_props(s@);
    }
    let sig = &s[0..e];
    assert(sig@ =~= significand(s@));
    if !significand_is_valid(sig) {
        return false;
    }
    if e == s.len() {
        return true;
    }
    let x = &s[e + 1..s.len()];
    assert(x@ =~= exponent_part(s@));
    exponent_is_valid(x)
}

/// Appends the canonical text of the exponent `x`.
fn push_exponent_text(out: &mut String, x: &[u8])
    ensures
        final(out)@ == old(out)@ + exponent_text(x@),
{
    let neg = x.len() > 0 && x[0] == 0x2d;
    let start: usize = if x.len() > 0 && (x[0] == 0x2b || x[0] == 0x2d) {
        1
    } else {
        0
    };
    assert(exponent_digits(x@) =~= x@.subrange(start as int, x@.len() as int));
    let k = skip_leading_zeros(x, start, x.len());
    if k < x.len() {
        push_char(out, 'e');
        if neg {
            push_char(out, '-');
        }
        push_ascii(out, &x[k..x.len()]);
        assert(out@ =~= old(out)@ + exponent_text(x@));
    } else {
        assert(out@ =~= old(out)@ + exponent_text(x@));
    }
}

/// The canonical text of a number literal.
pub(crate) fn canonical_number_text(s: &[u8]) -> (r: String)
    ensures
        r@ == canonical_number(s@),
{
    let e = find_exp(s);
    let sig = &s[0..e];
    assert(sig@ =~= significand(s@));
    let mut out = canonical_significand_text(sig);
    if e < s.len() {
        let x = &s[e + 1..s.len()];
        assert(x@ =~= exponent_part(s@));
        push_exponent_text(&mut out, x);
    } else {
        assert(exponent_part(s@) =~= Seq::<u8>::empty());
        assert(exponent_text(Seq::<u8>::empty()) =~= Seq::<char>::empty());
        assert(out@ =~= canonical_number(s@));
    }
    out
}

} // verus!
