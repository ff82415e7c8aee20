//! What a number literal denotes, and why significant digits and a decimal
//! exponent determine it.
//!
//! A literal denotes `±V × 10^(X − f)`, where `V` is the value of its digits
//! (the `.` left out), `f` how many of them follow the `.`, and `X` its
//! exponent.  Written with its significant digits `D` (no leading or trailing
//! zero), a nonzero value is `±value(D) × 10^P` for exactly one `D` and `P`.
use crate::float_text::{decimal_exponent, significant_digits};
use crate::number::{
    digits_value, dot_index, exponent_value, fraction_length, is_digit, lemma_digits_value_concat,
    lemma_trim_leading_index, lemma_trim_trailing_index, lemma_zeros_value, literal_digits,
    significand, trim_leading_zeros, unsigned_part, valid_number, valid_significand,
};
use vstd::arithmetic::power::{lemma_pow_adds, lemma_pow_positive, pow};
use vstd::prelude::*;

verus! {

/// All bytes are decimal digits.
pub open spec fn all_digits(d: Seq<u8>) -> bool {
    forall|k: int| 0 <= k < d.len() ==> is_digit(#[trigger] d[k])
}

/// The digits neither start nor end with `0`.
pub open spec fn trimmed(d: Seq<u8>) -> bool {
    d.len() > 0 && d[0] != 0x30 && d.last() != 0x30
}

/// The value of a literal's digits scaled by `10^(X − f + k)`: the magnitude
/// the literal denotes, times `10^k`.
pub open spec fn scaled_magnitude(a: Seq<u8>, k: int) -> int {
    digits_value(literal_digits(significand(a))) * pow(
        10,
        (exponent_value(a) - fraction_length(significand(a)) + k) as nat,
    )
}

proof fn lemma_mod_ten(q: int, r: int)
    requires
        0 <= r < 10,
    ensures
        (q * 10 + r) % 10 == r,
        (q * 10 + r) / 10 == q,
{
}

proof fn lemma_split_ten(q1: int, r1: int, q2: int, r2: int)
    requires
        0 <= r1 < 10,
        0 <= r2 < 10,
        q1 * 10 + r1 == q2 * 10 + r2,
    ensures
        q1 == q2,
        r1 == r2,
{
    lemma_mod_ten(q1, r1);
    lemma_mod_ten(q2, r2);
}

proof fn lemma_digits_nonneg(d: Seq<u8>)
    requires
        all_digits(d),
    ensures
        digits_value(d) >= 0,
    decreases d.len(),
{
    if d.len() > 0 {
        lemma_digits_nonneg(d.drop_last());
    }
}

/// Digits that do not start with `0` have a positive value.
proof fn lemma_digits_positive(d: Seq<u8>)
    requires
        all_digits(d),
        d.len() > 0,
        d[0] != 0x30,
    ensures
        digits_value(d) >= 1,
    decreases d.len(),
{
    assert(is_digit(d.last()));
    if d.len() > 1 {
        let e = d.drop_last();
        assert(e[0] == d[0]);
        assert forall|k: int| 0 <= k < e.len() implies is_digit(#[trigger] e[k]) by {
            assert(e[k] == d[k]);
        }
        lemma_digits_positive(e);
    } else {
        assert(d.last() == d[0]);
        assert(digits_value(d.drop_last()) == 0);
    }
}

/// Digits without a leading `0` are fixed by their value.
proof fn lemma_digits_injective(d1: Seq<u8>, d2: Seq<u8>)
    requires
        all_digits(d1),
        all_digits(d2),
        d1.len() == 0 || d1[0] != 0x30,
        d2.len() == 0 || d2[0] != 0x30,
        digits_value(d1) == digits_value(d2),
    ensures
        d1 == d2,
    decreases d1.len(),
{
    if d1.len() == 0 && d2.len() > 0 {
        lemma_digits_positive(d2);
    } else if d1.len() > 0 && d2.len() == 0 {
        lemma_digits_positive(d1);
    } else if d1.len() > 0 {
        lemma_split_ten(
            digits_value(d1.drop_last()),
            (d1.last() - 0x30) as int,
            digits_value(d2.drop_last()),
            (d2.last() - 0x30) as int,
        );
        lemma_digits_injective(d1.drop_last(), d2.drop_last());
        assert(d1 =~= d1.drop_last().push(d1.last()));
        assert(d2 =~= d2.drop_last().push(d2.last()));
    }
}

/// A value written with significant digits and a power of ten determines
/// both.
pub proof fn lemma_unique_scientific(d1: Seq<u8>, p1: nat, d2: Seq<u8>, p2: nat)
    requires
        all_digits(d1),
        all_digits(d2),
        trimmed(d1),
        trimmed(d2),
        digits_value(d1) * pow(10, p1) == digits_value(d2) * pow(10, p2),
    ensures
        p1 == p2,
        d1 == d2,
{
    lemma_pow_positive(10, p1);
    lemma_pow_positive(10, p2);
    lemma_digits_positive(d1);
    lemma_digits_positive(d2);
    if p1 != p2 {
        let (da, pa, db, pb) = if p1 < p2 {
            (d1, p1, d2, p2)
        } else {
            (d2, p2, d1, p1)
        };
        let g = (pb - pa - 1) as nat;
        lemma_pow_adds(10, pa, (pb - pa) as nat);
        lemma_pow_adds(10, 1, g);
        assert(pow(10, 1) == 10) by {
            reveal_with_fuel(pow, 2);
        }
        assert(pow(10, (pb - pa) as nat) == 10 * pow(10, g));
        let va = digits_value(da);
        let vb = digits_value(db);
        let x = pow(10, pa);
        let y = pow(10, g);
        assert(va * x == vb * (x * (10 * y)));
        assert(va == (vb * y) * 10) by (nonlinear_arith)
            requires
                va * x == vb * (x * (10 * y)),
                x > 0,
        ;
        lemma_mod_ten(vb * y, 0);
        lemma_mod_ten(digits_value(da.drop_last()), (da.last() - 0x30) as int);
        assert(false);
    }
    let v1 = digits_value(d1);
    let v2 = digits_value(d2);
    let x = pow(10, p1);
    assert(v1 == v2) by (nonlinear_arith)
        requires
            v1 * x == v2 * x,
            x > 0,
    ;
    lemma_digits_injective(d1, d2);
}

/// The pieces of an accepted literal: its digits are its leading zeros, its
/// significant digits and its trailing zeros, so that its digits' value is
/// that of its significant digits times `10^trail`, and its decimal exponent
/// is the power of ten of its first significant digit.
pub proof fn lemma_literal_pieces(a: Seq<u8>) -> (trail: nat)
    requires
        valid_number(a),
    ensures
        all_digits(literal_digits(significand(a))),
        all_digits(significant_digits(a)),
        significant_digits(a).len() == 0 <==> digits_value(literal_digits(significand(a))) == 0,
        significant_digits(a).len() > 0 ==> trimmed(significant_digits(a)),
        digits_value(literal_digits(significand(a))) == digits_value(significant_digits(a)) * pow(10, trail),
        significant_digits(a).len() > 0 ==> decimal_exponent(a) == significant_digits(a).len() - 1
            + (exponent_value(a) - fraction_length(significand(a)) + trail),
{
    let sig = significand(a);
    let body = unsigned_part(sig);
    let l = literal_digits(sig);
    let dt = dot_index(body);
    assert(all_digits(l)) by {
        assert forall|k: int| 0 <= k < l.len() implies is_digit(#[trigger] l[k]) by {
            crate::number::lemma_dot_index_props(body);
            if dt < body.len() {
                if k < dt {
                    assert(l[k] == body[k]);
                } else {
                    assert(l[k] == body[k + 1]);
                    assert(body[dt as int] == 0x2e);
                    assert(body[k + 1] != 0x2e);
                }
            } else {
                assert(l[k] == body[k]);
            }
        }
    }
    let lead = lemma_trim_leading_index(l);
    let t = trim_leading_zeros(l);
    let kt = lemma_trim_trailing_index(t);
    let d = significant_digits(a);
    assert(d == t.take(kt));
    let trail = (t.len() - kt) as nat;
    let zl = l.take(lead);
    let zt = t.skip(kt);
    assert(l =~= zl + t);
    assert(t =~= d + zt);
    assert forall|m: int| 0 <= m < zl.len() implies #[trigger] zl[m] == 0x30 by {}
    assert forall|m: int| 0 <= m < zt.len() implies #[trigger] zt[m] == 0x30 by {
        assert(zt[m] == t[kt + m]);
    }
    lemma_zeros_value(zl);
    lemma_zeros_value(zt);
    lemma_digits_value_concat(zl, t);
    lemma_digits_value_concat(d, zt);
    assert(all_digits(d)) by {
        assert forall|m: int| 0 <= m < d.len() implies is_digit(#[trigger] d[m]) by {
            assert(d[m] == l[lead + m]);
        }
    }
    lemma_digits_nonneg(d);
    lemma_pow_positive(10, trail);
    if d.len() > 0 {
        assert(d[0] == t[0]);
        assert(d.last() == t[kt - 1]);
        lemma_digits_positive(d);
        assert(digits_value(d) * pow(10, trail) >= 1) by (nonlinear_arith)
            requires
                digits_value(d) >= 1,
                pow(10, trail) >= 1,
        ;
    } else {
        assert(digits_value(d) == 0);
    }
    trail
}

} // verus!
