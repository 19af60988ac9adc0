//! Signs, infinities, and operations without a result.
use vstd::prelude::*;
use vstd::arithmetic::mul::*;
use vstd::arithmetic::power2::*;
use crate::rounding;
use crate::single::Single;

verus! {

/// Whether the sign bit is set.
pub open spec fn negative(x: Single) -> bool {
    x.bits >= 0x8000_0000
}

/// Whether this is one of the two infinities.
pub open spec fn unbounded(x: Single) -> bool {
    !x.is_nan() && !x.is_finite()
}

/// Whether `x` is the infinity with the given sign.
pub open spec fn infinity(x: Single, neg: bool) -> bool {
    unbounded(x) && negative(x) == neg
}

/// There is one infinity of each sign, above or below every finite number.
pub proof fn law_infinities(x: Single, y: Single)
    requires
        unbounded(x),
    ensures
        unbounded(y) && negative(x) == negative(y) ==> x == y,
        y.is_finite() && negative(x) ==> rounding::value(x) < rounding::value(y),
        y.is_finite() && !negative(x) ==> rounding::value(x) > rounding::value(y),
{
    rounding::lemma_rank_sign(x);
    rounding::lemma_rank_sign(y);
    rounding::lemma_finite_sign(x);
    rounding::lemma_finite_sign(y);
    if !y.is_nan() {
        rounding::lemma_bit_order(x, y);
        rounding::lemma_bit_order(y, x);
        rounding::lemma_value_order(x, y);
        rounding::lemma_value_order(y, x);
    }
}

/// Where one of two operands is no number, no operation has a result.
pub proof fn law_no_number(x: Single, y: Single)
    requires
        x.is_nan() || y.is_nan(),
    ensures
        x.sum(y).is_nan(),
        x.difference(y).is_nan(),
        x.product(y).is_nan(),
        x.quotient(y).is_nan(),
        x.remainder(y).is_nan(),
{
    rounding::lemma_rank_sign(y);
}

/// An infinite term is the sum, and two of opposite sign have none.
pub proof fn law_infinite_sum(x: Single, y: Single)
    requires
        unbounded(x),
        !y.is_nan(),
    ensures
        y.is_finite() ==> x.sum(y) == x && y.sum(x) == x,
        unbounded(y) && negative(x) == negative(y) ==> x.sum(y) == x,
        unbounded(y) && negative(x) != negative(y) ==> x.sum(y).is_nan(),
{
    law_infinities(x, Single::infinite(negative(x)));
}

/// An infinite factor makes the product infinite, with the sign of both; times zero there is
/// none.
pub proof fn law_infinite_product(x: Single, y: Single)
    requires
        unbounded(x),
        !y.is_nan(),
    ensures
        rounding::value(y) == 0 as real ==> x.product(y).is_nan() && y.product(x).is_nan(),
        rounding::value(y) != 0 as real ==> infinity(x.product(y), negative(x) != negative(y))
            && infinity(y.product(x), negative(x) != negative(y)),
{
    lemma_zero(y);
}

/// A number is worth zero where its significand is zero.
proof fn lemma_zero(y: Single)
    requires
        !y.is_nan(),
    ensures
        rounding::value(y) == 0 as real <==> y.is_finite() && y.parts()->sig == 0,
{
    rounding::lemma_int_value(0);
    rounding::lemma_int_rank(0);
    let zero = Single::of_int(0);
    rounding::lemma_value_order(y, zero);
    rounding::lemma_value_order(zero, y);
    if y.is_finite() {
        rounding::lemma_finite_rank(y);
        let (neg, sig, exp) = (y.parts()->Finite_neg, y.parts()->sig as int, y.parts()->exp as int);
        rounding::lemma_units_double(exp);
        let u = rounding::units(exp);
        let s = if neg {
            -sig
        } else {
            sig
        };
        assert(s * u == 0 <==> s == 0) by (nonlinear_arith)
            requires
                u > 0,
        ;
    } else {
        law_infinities(y, zero);
    }
}

/// Infinities and zeros in a quotient: an infinite dividend over a finite divisor is
/// infinite, and so is any other than zero over zero; a finite dividend over an infinite
/// divisor is zero; each has the sign of both. Two infinities have no quotient, nor have
/// two zeros.
pub proof fn law_infinite_quotient(x: Single, y: Single)
    requires
        !x.is_nan(),
        !y.is_nan(),
    ensures
        unbounded(x) && unbounded(y) ==> x.quotient(y).is_nan(),
        unbounded(x) && y.is_finite() ==> infinity(x.quotient(y), negative(x) != negative(y)),
        x.is_finite() && unbounded(y) ==> rounding::value(x.quotient(y)) == 0 as real && negative(
            x.quotient(y),
        ) == (negative(x) != negative(y)),
        x.is_finite() && rounding::value(y) == 0 as real ==> if rounding::value(x) == 0 as real {
            x.quotient(y).is_nan()
        } else {
            infinity(x.quotient(y), negative(x) != negative(y))
        },
{
    lemma_zero(x);
    lemma_zero(y);
    let z = Single::zero(negative(x) != negative(y));
    rounding::lemma_finite(negative(x) != negative(y), 0, -149);
    lemma_zero(z);
}

/// There is no remainder of an infinity, nor by zero; by an infinity a number is its own.
pub proof fn law_infinite_remainder(x: Single, y: Single)
    requires
        !x.is_nan(),
        !y.is_nan(),
    ensures
        unbounded(x) ==> x.remainder(y).is_nan(),
        x.is_finite() && unbounded(y) ==> x.remainder(y) == x,
        rounding::value(y) == 0 as real ==> x.remainder(y).is_nan(),
{
    lemma_zero(y);
}

/// A rounded fraction has the sign that it was given.
proof fn lemma_given_sign(neg: bool, n: int, d: int, e: int)
    requires
        n >= 0,
        d > 0,
    ensures
        negative(Single::nearest(neg, n, d, e)) == neg,
{
    if e < -149 {
        rounding::lemma_low_exponent(neg, n, d, e);
        rounding::lemma_nearest_sign(n, d * pow2((-149 - e) as nat), -149);
    } else {
        rounding::lemma_nearest_sign(n, d, e);
    }
}

/// The sign of a product and of a quotient is that of both operands, also where the result
/// is zero.
pub proof fn law_signs_of_products(x: Single, y: Single)
    ensures
        !x.product(y).is_nan() ==> negative(x.product(y)) == (negative(x) != negative(y)),
        !x.quotient(y).is_nan() ==> negative(x.quotient(y)) == (negative(x) != negative(y)),
{
    if x.is_finite() && y.is_finite() {
        let (s1, e1) = (x.parts()->sig as int, x.parts()->exp as int);
        let (s2, e2) = (y.parts()->sig as int, y.parts()->exp as int);
        let neg = negative(x) != negative(y);
        lemma_mul_nonnegative(s1, s2);
        lemma_given_sign(neg, s1 * s2, 1, e1 + e2);
        if s2 > 0 {
            lemma_given_sign(neg, s1, s2, e1 - e2);
        }
    }
}

/// A remainder has the sign of the number that it is left of.
pub proof fn law_sign_of_remainder(x: Single, y: Single)
    ensures
        !x.remainder(y).is_nan() ==> negative(x.remainder(y)) == negative(x),
{
    if x.is_finite() && y.is_finite() && y.parts()->sig > 0 {
        let (s1, e1) = (x.parts()->sig as int, x.parts()->exp as int);
        let (s2, e2) = (y.parts()->sig as int, y.parts()->exp as int);
        let low = Single::low(e1, e2);
        let (a, b) = (Single::aligned(s1, e1, low), Single::aligned(s2, e2, low));
        lemma_pow2_pos((e1 - low) as nat);
        lemma_pow2_pos((e2 - low) as nat);
        lemma_mul_nonnegative(s1, pow2((e1 - low) as nat) as int);
        lemma_mul_strictly_positive(s2, pow2((e2 - low) as nat) as int);
        vstd::arithmetic::div_mod::lemma_mod_bound(a, b);
        lemma_given_sign(negative(x), a % b, 1, low);
    }
}

/// A sum of nothing is negative only where both terms are.
pub proof fn law_sign_of_zero_sum(x: Single, y: Single)
    requires
        x.is_finite(),
        y.is_finite(),
        rounding::value(x) + rounding::value(y) == 0 as real,
    ensures
        rounding::value(x.sum(y)) == 0 as real,
        negative(x.sum(y)) == (negative(x) && negative(y)),
{
    rounding::lemma_units_steps();
    let o = rounding::one() as real;
    let (a, b) = (x.rank() as real, y.rank() as real);
    assert(a + b == 0 as real) by (nonlinear_arith)
        requires
            a / o + b / o == 0 as real,
            o > 0 as real,
    {
        assert((a / o) * o == a && (b / o) * o == b);
    }
    rounding::exact_sum(x, y);
    let neg = negative(x) && negative(y);
    rounding::lemma_finite(neg, 0, -149);
    lemma_zero(Single::zero(neg));
}

/// A change of sign changes the sign bit alone.
pub proof fn law_change_of_sign(x: Single)
    ensures
        negative(x.negated()) != negative(x),
        !negative(x.magnitude()),
        x.magnitude() == x || x.magnitude() == x.negated(),
        x.negated().negated() == x,
        x.negated().is_nan() == x.is_nan(),
        rounding::value(x.negated()) == -rounding::value(x),
{
    rounding::lemma_rank_sign(x);
    rounding::lemma_finite_sign(x);
    rounding::lemma_units_steps();
    let (a, o) = (x.rank() as real, rounding::one() as real);
    assert((-a) / o == -(a / o)) by (nonlinear_arith)
        requires
            o > 0 as real,
    ;
}

/// What is no number counts as zero, and an infinity as the end of the range on its side.
pub proof fn law_whole_part_of_none(x: Single, least: int, most: int)
    ensures
        x.is_nan() ==> x.toward_zero(least, most) == 0 && x.counted(most) == 0,
        unbounded(x) && negative(x) ==> x.toward_zero(least, most) == least && x.counted(most) == 0,
        unbounded(x) && !negative(x) ==> x.toward_zero(least, most) == most && x.counted(most)
            == most,
{
}

/// What is no number is brought between no two others, and an infinity becomes the end on
/// its side.
pub proof fn law_within_of_none(x: Single, least: Single, most: Single)
    requires
        least.is_finite(),
        most.is_finite(),
    ensures
        x.is_nan() ==> x.within(least, most) == x,
        unbounded(x) ==> x.within(least, most) == if negative(x) {
            least
        } else {
            most
        },
{
    if unbounded(x) {
        law_infinities(x, least);
        law_infinities(x, most);
        rounding::lemma_value_order(x, least);
        rounding::lemma_value_order(least, x);
        rounding::lemma_value_order(most, x);
        rounding::lemma_value_order(x, most);
    }
}

/// How what is not finite is written.
pub proof fn law_figures_of_none(x: Single)
    ensures
        x.is_nan() ==> x.whole_figures() == "NaN"@ && x.cent_figures() == "NaN"@,
        infinity(x, false) ==> x.whole_figures() == "inf"@ && x.cent_figures() == "inf"@,
        infinity(x, true) ==> x.whole_figures() == "-inf"@ && x.cent_figures() == "-inf"@,
{
    reveal_strlit("");
    reveal_strlit("-");
    reveal_strlit("inf");
    reveal_strlit("-inf");
    assert(""@ + "inf"@ == "inf"@);
    assert("-"@ + "inf"@ == "-inf"@);
}

} // verus!
