//! The text that `{:?}` gives for the float a number literal denotes.
//!
//! A float is shown with its shortest round-tripping digits: in positional
//! form (`100000.0`, `0.25`, `-3.0`) when its first significant digit has a
//! power of ten from `-4` up to `15`, else in exponent form (`1e16`,
//! `1.5e-7`).  For a literal with at most fifteen significant digits whose
//! value lies in the normal range of `f64`, those digits are the literal's own
//! significant digits, so the text below is the one that `{:?}` prints for it.
//! A literal whose exponent has more than eighteen digits is shown as its
//! canonical text.
use crate::number::{
    canonical_number, canonical_number_text, digits_value, exponent_digits, exponent_negative, exponent_part,
    exponent_value, find_dot, find_exp, fraction_length, is_digit, is_negative,
    lemma_digits_value_concat, lemma_exp_index_props, lemma_zeros_value, literal_digits,
    significand, skip_leading_zeros, drop_trailing_zeros, trim_leading_zeros, trim_trailing_zeros,
    unsigned_part, valid_number, dot_index,
};
use crate::text::{ascii_chars, decimal, push_ascii, push_char, push_decimal_wide};
use vstd::arithmetic::power::pow;
use vstd::prelude::*;

verus! {

/// The significant digits of a literal: its digits without leading and trailing zeros.
pub open spec fn significant_digits(s: Seq<u8>) -> Seq<u8> {
    trim_trailing_zeros(trim_leading_zeros(literal_digits(significand(s))))
}

/// The power of ten of a literal's first significant digit.
pub open spec fn decimal_exponent(s: Seq<u8>) -> int {
    let lit = literal_digits(significand(s));
    let lead = lit.len() - trim_leading_zeros(lit).len();
    lit.len() - fraction_length(significand(s)) - lead - 1 + exponent_value(s)
}

/// `n` zero digits.
pub open spec fn zeros(n: nat) -> Seq<u8> {
    Seq::new(n, |i: int| 0x30u8)
}

/// The unsigned text of the float whose significant digits are `d` and whose
/// first digit has the power of ten `e`.
pub open spec fn float_digits_text(d: Seq<u8>, e: int) -> Seq<char> {
    if e < -4 || e >= 16 {
        let mantissa: Seq<u8> = if d.len() > 1 {
            d.take(1) + seq![0x2eu8] + d.skip(1)
        } else {
            d
        };
        let sign: Seq<char> = if e < 0 {
            seq!['-']
        } else {
            seq![]
        };
        ascii_chars(mantissa) + seq!['e'] + sign + decimal((if e < 0 { -e } else { e }) as nat)
    } else if e < 0 {
        ascii_chars(seq![0x30u8, 0x2eu8] + zeros((-e - 1) as nat) + d)
    } else if d.len() <= e + 1 {
        ascii_chars(d + zeros((e + 1 - d.len()) as nat) + seq![0x2eu8, 0x30u8])
    } else {
        ascii_chars(d.take(e + 1) + seq![0x2eu8] + d.skip(e + 1))
    }
}

/// Whether a literal's exponent has more than eighteen digits once its
/// leading zeros are dropped.
pub open spec fn long_exponent(s: Seq<u8>) -> bool {
    trim_leading_zeros(exponent_digits(exponent_part(s))).len() > 18
}

/// The literal's number written as `{:?}` writes a float: its significant
/// digits in positional or exponent form.  This is the `{:?}` text of the
/// float nearest the literal when the literal has at most fifteen significant
/// digits and lies in the normal range of `f64`; otherwise that float's digits
/// may differ (rounding, overflow to infinity, underflow to zero).  A literal
/// whose exponent has more than eighteen digits is shown as its canonical text.
pub open spec fn float_debug(s: Seq<u8>) -> Seq<char> {
    let sign: Seq<char> = if is_negative(significand(s)) {
        seq!['-']
    } else {
        seq![]
    };
    let d = significant_digits(s);
    if d.len() == 0 {
        sign + seq!['0', '.', '0']
    } else if long_exponent(s) {
        canonical_number(s)
    } else {
        sign + float_digits_text(d, decimal_exponent(s))
    }
}

/// The value of at most eighteen decimal digits.
fn digits_u64(x: &[u8], from: usize, to: usize) -> (v: u64)
    requires
        from <= to <= x@.len(),
        to - from <= 18,
        forall|i: int| from <= i < to ==> is_digit(#[trigger] x@[i]),
    ensures
        v == digits_value(x@.subrange(from as int, to as int)),
{
    let mut v: u64 = 0;
    let mut i = from;
    proof {
        assert(pow(10, 0) == 1) by {
            reveal(pow);
        }
        vstd::arithmetic::power::lemma_pow_increases(10, 0, 18);
    }
    while i < to
        invariant
            from <= i <= to <= x@.len(),
            to - from <= 18,
            forall|k: int| from <= k < to ==> is_digit(#[trigger] x@[k]),
            v == digits_value(x@.subrange(from as int, i as int)),
            v < pow(10, (i - from) as nat),
            pow(10, (i - from) as nat) <= pow(10, 18),
        decreases to - i,
    {
        let ghost n = (i - from) as nat;
        assert(pow(10, n + 1) == 10 * pow(10, n)) by {
            reveal(pow);
        }
        assert(pow(10, 18) == 1_000_000_000_000_000_000) by {
            reveal_with_fuel(pow, 19);
        }
        assert(is_digit(x@[i as int]));
        let dgt = (x[i] - 0x30) as u64;
        assert(v * 10 + dgt < 10 * pow(10, n)) by (nonlinear_arith)
            requires
                v < pow(10, n),
                dgt < 10,
        ;
        assert(x@.subrange(from as int, i + 1).drop_last() =~= x@.subrange(from as int, i as int));
        v = v * 10 + dgt;
        i = i + 1;
        if i - from < 18 {
            assert(pow(10, (i - from) as nat) <= pow(10, 18)) by {
                vstd::arithmetic::power::lemma_pow_increases(10, (i - from) as nat, 18);
            }
        }
    }
    v
}

/// The digits of a significand without its sign and `.`, and how many of
/// them follow the `.`.
fn split_significand(sig: &[u8]) -> (r: (Vec<u8>, usize))
    ensures
        r.0@ == literal_digits(sig@),
        r.1 == fraction_length(sig@),
        r.1 <= r.0@.len(),
{
    let neg = sig.len() > 0 && sig[0] == 0x2d;
    let start: usize = if neg {
        1
    } else {
        0
    };
    assert(unsigned_part(sig@) =~= sig@.skip(start as int));
    let d = find_dot(sig, start);
    let mut lit: Vec<u8> = Vec::new();
    let mut i = start;
    while i < d
        invariant
            start <= i <= d <= sig@.len(),
            lit@ =~= sig@.subrange(start as int, i as int),
        decreases d - i,
    {
        lit.push(sig[i]);
        i = i + 1;
    }
    let mut flen: usize = 0;
    if d < sig.len() {
        let mut j = d + 1;
        while j < sig.len()
            invariant
                d + 1 <= j <= sig@.len(),
                lit@ =~= sig@.subrange(start as int, d as int) + sig@.subrange(d + 1, j as int),
            decreases sig.len() - j,
        {
            lit.push(sig[j]);
            j = j + 1;
        }
        flen = sig.len() - d - 1;
        assert(sig@.skip(start as int).take(dot_index(sig@.skip(start as int)) as int) =~= sig@.subrange(start as int, d as int));
        assert(sig@.skip(start as int).skip(dot_index(sig@.skip(start as int)) + 1int) =~= sig@.subrange(d + 1, sig@.len() as int));
    } else {
        assert(sig@.skip(start as int) =~= sig@.subrange(start as int, d as int));
    }
    (lit, flen)
}

/// The sign and value of an exponent, when its digits without leading zeros
/// are at most eighteen.
fn exponent_of(x: &[u8]) -> (r: Option<(bool, u64)>)
    requires
        forall|i: int| 0 <= i < exponent_digits(x@).len() ==> is_digit(#[trigger] exponent_digits(x@)[i]),
    ensures
        match r {
            Some((neg, v)) => trim_leading_zeros(exponent_digits(x@)).len() <= 18 && neg == (x@.len() > 0 && x@[0] == 0x2d)
                && v == digits_value(exponent_digits(x@)),
            None => trim_leading_zeros(exponent_digits(x@)).len() > 18,
        },
{
    let x_neg = x.len() > 0 && x[0] == 0x2d;
    let xs: usize = if x.len() > 0 && (x[0] == 0x2b || x[0] == 0x2d) {
        1
    } else {
        0
    };
    assert(exponent_digits(x@) =~= x@.subrange(xs as int, x@.len() as int));
    let k = skip_leading_zeros(x, xs, x.len());
    if x.len() - k > 18 {
        return None;
    }
    proof {
        assert forall|m: int| k <= m < x@.len() implies is_digit(#[trigger] x@[m]) by {
            assert(x@[m] == exponent_digits(x@)[m - xs]);
        }
    }
    let v = digits_u64(x, k, x.len());
    proof {
        let ed = exponent_digits(x@);
        let z = x@.subrange(xs as int, k as int);
        assert(ed =~= z + x@.subrange(k as int, x@.len() as int));
        assert forall|m: int| 0 <= m < z.len() implies #[trigger] z[m] == 0x30 by {
            assert(z[m] == x@[xs + m]);
        }
        lemma_zeros_value(z);
        lemma_digits_value_concat(z, x@.subrange(k as int, x@.len() as int));
    }
    Some((x_neg, v))
}

/// Appends `n` zero characters.
fn push_zeros(out: &mut String, n: usize)
    ensures
        final(out)@ == old(out)@ + ascii_chars(zeros(n as nat)),
{
    let mut k: usize = 0;
    while k < n
        invariant
            k <= n,
            out@ == old(out)@ + ascii_chars(zeros(k as nat)),
        decreases n - k,
    {
        push_char(out, '0');
        k = k + 1;
        assert(ascii_chars(zeros(k as nat)) =~= ascii_chars(zeros((k - 1) as nat)).push('0'));
    }
}

/// Appends the unsigned text of the float with significant digits `d`
/// whose first digit has the power of ten `e`.
fn push_float_digits(out: &mut String, d: &[u8], e: i128)
    requires
        d@.len() > 0,
        -0x1_0000_0000_0000_0000_0000 < e < 0x1_0000_0000_0000_0000_0000,
    ensures
        final(out)@ == old(out)@ + float_digits_text(d@, e as int),
{
    if e < -4 || e >= 16 {
        push_char(out, d[0] as char);
        if d.len() > 1 {
            push_char(out, '.');
            push_ascii(out, &d[1..d.len()]);
        }
        push_char(out, 'e');
        if e < 0 {
            push_char(out, '-');
            push_decimal_wide(out, (-e) as u128);
        } else {
            push_decimal_wide(out, e as u128);
        }
        proof {
            let mantissa: Seq<u8> = if d@.len() > 1 {
                d@.take(1) + seq![0x2eu8] + d@.skip(1)
            } else {
                d@
            };
            assert(ascii_chars(mantissa) =~= if d@.len() > 1 {
                seq![d@[0] as char, '.'] + ascii_chars(d@.subrange(1, d@.len() as int))
            } else {
                seq![d@[0] as char]
            });
        }
        assert(out@ =~= old(out)@ + float_digits_text(d@, e as int));
    } else if e < 0 {
        push_char(out, '0');
        push_char(out, '.');
        push_zeros(out, (-e - 1) as usize);
        push_ascii(out, d);
        assert(out@ =~= old(out)@ + float_digits_text(d@, e as int));
    } else if (d.len() as i128) <= e + 1 {
        push_ascii(out, d);
        push_zeros(out, (e + 1 - (d.len() as i128)) as usize);
        push_char(out, '.');
        push_char(out, '0');
        assert(out@ =~= old(out)@ + float_digits_text(d@, e as int));
    } else {
        let cut = (e as usize) + 1;
        push_ascii(out, &d[0..cut]);
        push_char(out, '.');
        push_ascii(out, &d[cut..d.len()]);
        assert(d@.subrange(0, cut as int) =~= d@.take(e + 1));
        assert(d@.subrange(cut as int, d@.len() as int) =~= d@.skip(e + 1));
        assert(out@ =~= old(out)@ + float_digits_text(d@, e as int));
    }
}

proof fn lemma_decimal_exponent(s: Seq<u8>, n: int, flen: int, lead: int, neg: bool, x: int)
    requires
        n == literal_digits(significand(s)).len(),
        flen == fraction_length(significand(s)),
        n - lead == trim_leading_zeros(literal_digits(significand(s))).len(),
        neg == exponent_negative(exponent_part(s)),
        x == digits_value(exponent_digits(exponent_part(s))),
    ensures
        decimal_exponent(s) == n - flen - lead - 1 + (if neg { -x } else { x }),
{
    if neg {
        assert(exponent_value(s) == -1 * x);
    } else {
        assert(exponent_value(s) == 1 * x);
    }
}

/// The sign of an accepted literal, its digits (the significant ones from
/// `lead` up to `stop`), and its decimal exponent unless the exponent is long.
pub(crate) fn number_shape(s: &[u8]) -> (r: (bool, Vec<u8>, usize, usize, Option<i128>))
    requires
        valid_number(s@),
    ensures
        r.0 == is_negative(significand(s@)),
        r.2 <= r.3 <= r.1@.len(),
        r.1@.subrange(r.2 as int, r.3 as int) == significant_digits(s@),
        r.4 matches Some(e) ==> !long_exponent(s@) && e == decimal_exponent(s@)
            && -0x1_0000_0000_0000_0000_0000 < e < 0x1_0000_0000_0000_0000_0000,
        r.4 is None ==> long_exponent(s@),
{
    let e_at = find_exp(s);
    proof {
        lemma_exp_index_props(s@);
    }
    let sig = &s[0..e_at];
    assert(sig@ =~= significand(s@));
    let neg = sig.len() > 0 && sig[0] == 0x2d;
    let (lit, flen) = split_significand(sig);
    let lead = skip_leading_zeros(lit.as_slice(), 0, lit.len());
    let stop = drop_trailing_zeros(lit.as_slice(), lead, lit.len());
    assert(lit@.subrange(0, lit@.len() as int) =~= lit@);
    assert(significant_digits(s@) == lit@.subrange(lead as int, stop as int));
    let (x_neg, xv) = if e_at < s.len() {
        let x = &s[e_at + 1..s.len()];
        assert(x@ =~= exponent_part(s@));
        match exponent_of(x) {
            Some(p) => {
                assert(p.0 == exponent_negative(exponent_part(s@)));
                assert(p.1 == digits_value(exponent_digits(exponent_part(s@))));
                p
            },
            None => {
                return (neg, lit, lead, stop, None);
            },
        }
    } else {
        assert(exponent_part(s@) =~= Seq::<u8>::empty());
        assert(trim_leading_zeros(Seq::<u8>::empty()) =~= Seq::<u8>::empty());
        assert(exponent_digits(Seq::<u8>::empty()) =~= Seq::<u8>::empty());
        assert(digits_value(exponent_digits(exponent_part(s@))) == 0);
        (false, 0u64)
    };
    let mag = xv as i128;
    let e: i128 = (lit.len() as i128) - (flen as i128) - (lead as i128) - 1 + (if x_neg {
        -mag
    } else {
        mag
    });
    proof {
        assert(trim_leading_zeros(lit@) == lit@.subrange(lead as int, lit@.len() as int));
        assert(x_neg == exponent_negative(exponent_part(s@)));
        assert(xv == digits_value(exponent_digits(exponent_part(s@))));
        lemma_decimal_exponent(s@, lit@.len() as int, flen as int, lead as int, x_neg, xv as int);
    }
    assert(e == decimal_exponent(s@));
    (neg, lit, lead, stop, Some(e))
}

/// The text `float_debug` gives for an accepted literal.
pub(crate) fn float_debug_text(s: &[u8]) -> (r: String)
    requires
        valid_number(s@),
    ensures
        r@ == float_debug(s@),
{
    let (neg, lit, lead, stop, e) = number_shape(s);
    let mut out = String::new();
    if lead == stop {
        if neg {
            push_char(&mut out, '-');
        }
        push_char(&mut out, '0');
        push_char(&mut out, '.');
        push_char(&mut out, '0');
        assert(out@ =~= float_debug(s@));
        return out;
    }
    match e {
        None => canonical_number_text(s),
        Some(e) => {
            if neg {
                push_char(&mut out, '-');
            }
            push_float_digits(&mut out, &lit.as_slice()[lead..stop], e);
            assert(out@ =~= float_debug(s@));
            out
        },
    }
}

} // verus!
