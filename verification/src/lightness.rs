//! How light colours are: bounds and order of their luminance.
use vstd::prelude::*;
use vstd::arithmetic::power2::*;
use crate::color::Rgb;
use crate::contrast;
use crate::hue;
use crate::rounding;
use crate::single::Single;

verus! {

/// Whether a table holds powers of bases between zero and one.
pub open spec fn sound_powers(powers: Seq<Single>) -> bool {
    forall|i: int|
        0 <= i < 256 ==> Single::of_int(0).at_most(#[trigger] powers[i]) && powers[i].at_most(
            Single::of_int(1),
        )
}

/// What is no smaller than its divisor gives at least one.
pub proof fn lemma_quotient_at_least_one(x: Single, y: Single)
    requires
        x.is_finite(),
        y.is_finite(),
        rounding::value(y) > 0 as real,
        rounding::value(y) <= rounding::value(x),
    ensures
        Single::of_int(1).at_most(x.quotient(y)),
{
    rounding::lemma_int_value(1);
    let (a, b) = (rounding::value(x), rounding::value(y));
    assert(a / b >= 1 as real) by (nonlinear_arith)
        requires
            b > 0 as real,
            b <= a,
    ;
    rounding::lemma_quotient_side(x, y, Single::of_int(1));
    rounding::lemma_int_value(0);
    rounding::lemma_int_rank(0);
    rounding::lemma_value_order(Single::of_int(0), y);
    let r = rounding::exact_quotient(x, y);
    rounding::lemma_value_order(Single::of_int(1), x.quotient(y));
}

/// A ratio between two whole numbers.
pub proof fn lemma_ratio_between(n: int, d: int, least: int, most: int)
    requires
        0 <= n,
        0 < d,
        0 <= least < 0x100_0000,
        0 <= most < 0x8000,
        least * d <= n <= most * d,
    ensures
        Single::of_ratio(n, d).is_finite(),
        least as real <= rounding::value(Single::of_ratio(n, d)) <= most as real,
{
    rounding::lemma_int_value(least);
    rounding::lemma_int_value(most);
    rounding::lemma_int_rank(least);
    rounding::lemma_int_rank(most);
    rounding::lemma_exact(least, 0);
    rounding::lemma_exact(most, 0);
    rounding::lemma_units_steps();
    let z = Single::of_ratio(n, d);
    let o = rounding::one();
    rounding::lemma_nearest_bounds(n, d, 0, Single::of_int(least));
    rounding::lemma_nearest_bounds(n, d, 0, Single::of_int(most));
    assert(least * o * d <= n * o && n * o <= most * o * d) by (nonlinear_arith)
        requires
            least * d <= n <= most * d,
            o > 0,
    ;
    rounding::lemma_value_order(Single::of_int(least), z);
    rounding::lemma_value_order(z, Single::of_int(most));
    rounding::lemma_nearest_sign(n, d, 0);
    rounding::lemma_rank_sign(z);
    rounding::lemma_nearest_bounds(n, d, 0, Single { bits: 0 });
    assert(z.rank() < rounding::units(32)) by (nonlinear_arith)
        requires
            z.rank() <= most * o,
            most < 0x8000,
            o > 0,
            rounding::units(32) == 0x100_0000 * (256 * o),
    ;
    vstd::arithmetic::mul::lemma_mul_basics(pow2(0) as int);
    assert((Single { bits: 0 }).rank() == 0);
    if z.bits > 0 {
        rounding::lemma_magnitude_order(0, z.bits);
    }
    rounding::lemma_small_is_finite(z);
}

/// The light of a level lies between zero and one.
pub proof fn lemma_light(level: u8, powers: Seq<Single>)
    requires
        sound_powers(powers),
    ensures
        contrast::light(level, powers).is_finite(),
        0 as real <= rounding::value(contrast::light(level, powers)) <= 1 as real,
{
    let share = Rgb::share(level);
    let x = contrast::light(level, powers);
    rounding::lemma_int_value(0);
    rounding::lemma_int_rank(0);
    rounding::lemma_int_value(1);
    rounding::lemma_int_rank(1);
    rounding::lemma_tiny_values();
    if share.at_most(Single::of_ratio(3928, 100000)) {
        hue::lemma_share(level);
        let y = Single::of_ratio(1292, 100);
        lemma_ratio_between(1292, 100, 12, 13);
        let (a, b) = (rounding::value(share), rounding::value(y));
        assert(0 as real <= a / b <= 1 as real) by (nonlinear_arith)
            requires
                0 as real <= a <= 1 as real,
                b >= 12 as real,
        ;
        rounding::lemma_quotient_value(share, y, -23);
        rounding::lemma_quotient_side(share, y, Single::of_int(0));
        rounding::lemma_quotient_side(share, y, Single::of_int(1));
    } else {
        assert(x == powers[level as int]);
        rounding::lemma_value_order(Single::of_int(0), x);
        rounding::lemma_value_order(x, Single::of_int(1));
        rounding::lemma_units_steps();
        rounding::lemma_small_is_finite(x);
    }
}

/// The exact product of a weight, in ten-thousandths, and the light of a level.
pub open spec fn weighted(weight: int, level: u8, powers: Seq<Single>) -> real {
    rounding::value(Single::of_ratio(weight, 10000)) * rounding::value(
        contrast::light(level, powers),
    )
}

/// The luminance of a colour is close to the exact weighted sum, and lies between zero and
/// little more than one.
pub proof fn lemma_brightness(c: Rgb, powers: Seq<Single>)
    requires
        sound_powers(powers),
    ensures
        c.brightness(powers).is_finite(),
        0 as real <= rounding::value(c.brightness(powers)) <= 1 as real
            + 1 as real / 0x80000 as real,
        hue::within(
            rounding::value(c.brightness(powers)),
            weighted(2126, c.r, powers) + weighted(7152, c.g, powers) + weighted(722, c.b, powers),
            9 as real * rounding::tiny(-23),
        ),
{
    rounding::lemma_int_value(0);
    rounding::lemma_int_value(1);
    rounding::lemma_int_value(2);
    rounding::lemma_int_value(3);
    rounding::lemma_tiny_values();
    let x = lemma_weighted(2126, c.r, powers);
    let y = lemma_weighted(7152, c.g, powers);
    let z = lemma_weighted(722, c.b, powers);
    let xy = x.sum(y);
    rounding::lemma_sum_value(x, y, -22);
    rounding::lemma_sum_side(x, y, Single::of_int(0));
    rounding::lemma_sum_side(x, y, Single::of_int(2));
    rounding::lemma_sum_value(xy, z, -21);
    rounding::lemma_sum_side(xy, z, Single::of_int(0));
    rounding::lemma_sum_side(xy, z, Single::of_int(3));
    lemma_weights();
    lemma_light(c.r, powers);
    lemma_light(c.g, powers);
    lemma_light(c.b, powers);
    lemma_share_of_weight(2126, c.r, powers);
    lemma_share_of_weight(7152, c.g, powers);
    lemma_share_of_weight(722, c.b, powers);
}

/// A level's light, weighted.
pub proof fn lemma_weighted(weight: int, level: u8, powers: Seq<Single>) -> (p: Single)
    requires
        sound_powers(powers),
        0 <= weight <= 10000,
    ensures
        p == Single::of_ratio(weight, 10000).product(contrast::light(level, powers)),
        p.is_finite(),
        0 as real <= rounding::value(p) <= 1 as real,
        hue::within(
            rounding::value(p),
            rounding::value(Single::of_ratio(weight, 10000)) * rounding::value(
                contrast::light(level, powers),
            ),
            rounding::tiny(-23),
        ),
{
    let w = Single::of_ratio(weight, 10000);
    let x = contrast::light(level, powers);
    lemma_ratio_between(weight, 10000, 0, 1);
    lemma_light(level, powers);
    rounding::lemma_int_value(0);
    rounding::lemma_int_value(1);
    rounding::lemma_tiny_values();
    let (a, b) = (rounding::value(w), rounding::value(x));
    assert(0 as real <= a * b <= 1 as real) by (nonlinear_arith)
        requires
            0 as real <= a <= 1 as real,
            0 as real <= b <= 1 as real,
    ;
    rounding::lemma_product_value(w, x, -23);
    rounding::lemma_product_side(w, x, Single::of_int(0));
    rounding::lemma_product_side(w, x, Single::of_int(1));
    w.product(x)
}

/// A ratio lies on the same side of every number `j * 2^-k` as the exact one.
pub proof fn lemma_ratio_side(n: int, d: int, j: int, k: nat)
    requires
        0 <= n,
        0 < d,
        0 < j < 0x100_0000,
        k <= 32,
    ensures
        j * d <= n * pow2(k) ==> j * rounding::one() <= Single::of_ratio(n, d).rank() * pow2(k),
        n * pow2(k) <= j * d ==> Single::of_ratio(n, d).rank() * pow2(k) <= j * rounding::one(),
        j * d <= n * pow2(k) ==> j as real <= rounding::value(Single::of_ratio(n, d))
            * pow2(k) as real,
        n * pow2(k) <= j * d ==> rounding::value(Single::of_ratio(n, d)) * pow2(k) as real
            <= j as real,
{
    let b = rounding::dyadic(j, k);
    let z = Single::of_ratio(n, d);
    let o = rounding::one();
    let p = pow2(k) as int;
    lemma_pow2_pos(k);
    rounding::lemma_units_steps();
    let (w, oo, pp, jj) = (b.rank() as real, o as real, p as real, j as real);
    assert(w * pp == jj * oo) by (nonlinear_arith)
        requires
            (w / oo) * pp == jj,
            oo > 0 as real,
    ;
    let r = b.rank();
    assert(r * p == j * o) by (nonlinear_arith)
        requires
            (r as real) * (p as real) == (j as real) * (o as real),
    ;
    assert(r > 0) by (nonlinear_arith)
        requires
            r * p == j * o,
            p > 0,
            j > 0,
            o > 0,
    ;
    rounding::lemma_rank_sign(b);
    rounding::lemma_finite_sign(b);
    vstd::arithmetic::mul::lemma_mul_basics(pow2(0) as int);
    assert((Single { bits: 0 }).rank() == 0);
    assert(b.bits < 0x8000_0000) by {
        if b.bits >= 0x8000_0000 && b.magnitude().bits > 0 {
            rounding::lemma_magnitude_order(0, b.magnitude().bits);
        }
    }
    rounding::lemma_nearest_bounds(n, d, 0, b);
    let s = z.rank();
    let v = rounding::value(z);
    assert(v * pp * oo == s as real * pp) by (nonlinear_arith)
        requires
            v == (s as real) / oo,
            oo > 0 as real,
    ;
    if j * d <= n * p {
        assert(r * d <= n * o) by (nonlinear_arith)
            requires
                j * d <= n * p,
                r * p == j * o,
                p > 0,
                o > 0,
        {
            assert((r * d) * p == (j * d) * o);
            assert((j * d) * o <= (n * p) * o);
            assert((r * d) * p <= (n * o) * p);
        }
        vstd::arithmetic::mul::lemma_mul_inequality(r, s, p);
        assert(jj <= v * pp) by (nonlinear_arith)
            requires
                v * pp * oo == (s as real) * pp,
                (j * o) as real <= (s * p) as real,
                jj == j as real,
                oo == o as real,
                pp == p as real,
                oo > 0 as real,
        {
            assert((j * o) as real == jj * oo);
            assert((s * p) as real == (s as real) * pp);
        }
    }
    if n * p <= j * d {
        assert(n * o <= r * d) by (nonlinear_arith)
            requires
                n * p <= j * d,
                r * p == j * o,
                p > 0,
                o > 0,
        {
            assert((r * d) * p == (j * d) * o);
            assert((n * p) * o <= (j * d) * o);
            assert((n * o) * p <= (r * d) * p);
        }
        vstd::arithmetic::mul::lemma_mul_inequality(s, r, p);
        assert(v * pp <= jj) by (nonlinear_arith)
            requires
                v * pp * oo == (s as real) * pp,
                (s * p) as real <= (j * o) as real,
                jj == j as real,
                oo == o as real,
                pp == p as real,
                oo > 0 as real,
        {
            assert((j * o) as real == jj * oo);
            assert((s * p) as real == (s as real) * pp);
        }
    }
}

/// A twentieth, as a value.
pub proof fn lemma_twentieth()
    ensures
        rounding::value(Single::of_ratio(5, 100)) >= 1 as real / 32 as real,
        rounding::value(Single::of_ratio(5, 100)) >= 13421772 as real / 0x1000_0000 as real,
        rounding::value(Single::of_ratio(5, 100)) <= 13421773 as real / 0x1000_0000 as real,
{
    lemma2_to64();
    lemma_ratio_side(5, 100, 1, 5);
    lemma_ratio_side(5, 100, 13421772, 28);
    lemma_ratio_side(5, 100, 13421773, 28);
}

/// A thousandth is more than `2^-10`.
pub proof fn lemma_thousandth()
    ensures
        !Single::of_ratio(1, 1000).is_nan(),
        rounding::value(Single::of_ratio(1, 1000)) >= 1 as real / 1024 as real,
{
    lemma2_to64();
    lemma_ratio_side(1, 1000, 1, 10);
    lemma_ratio_between(1, 1000, 0, 1);
}

/// The levels up to ten are the lowest ones, whose light is proportional.
pub proof fn lemma_lowest(level: u8)
    ensures
        Rgb::share(level).at_most(Single::of_ratio(3928, 100000)) == (level <= 10),
{
    let z = Single::of_ratio(3928, 100000);
    let share = Rgb::share(level);
    lemma2_to64();
    hue::lemma_share(level);
    rounding::lemma_tiny_values();
    lemma_ratio_between(3928, 100000, 0, 1);
    lemma_ratio_side(3928, 100000, 643, 14);
    lemma_ratio_side(3928, 100000, 41, 10);
    rounding::lemma_value_order(share, z);
    assert(rounding::value(z) * 16384 as real >= 643 as real);
    assert(rounding::value(z) * 1024 as real <= 41 as real);
    let x = level as real;
    if level <= 10 {
        assert(x <= 10 as real);
        assert(rounding::value(share) <= 10 as real / 255 as real + rounding::tiny(-23));
    } else {
        assert(x >= 11 as real);
        assert(rounding::value(share) >= 11 as real / 255 as real - rounding::tiny(-23));
    }
}

/// Whether a table holds powers that do not fall, from the light of the last level with
/// proportional light on.
pub open spec fn ordered_powers(powers: Seq<Single>) -> bool {
    &&& sound_powers(powers)
    &&& contrast::light(10, powers).at_most(powers[11])
    &&& forall|i: int, j: int|
        11 <= i < j < 256 ==> (#[trigger] powers[i]).at_most(#[trigger] powers[j])
}

/// Whether a table holds powers that rise, by `2^-14` at least with each level, from the
/// light of the last level with proportional light on.
pub open spec fn rising_powers(powers: Seq<Single>) -> bool {
    &&& sound_powers(powers)
    &&& rounding::value(contrast::light(10, powers)) + rounding::tiny(-14) <= rounding::value(
        powers[11],
    )
    &&& forall|i: int, j: int|
        11 <= i < j < 256 ==> rounding::value(#[trigger] powers[i]) + rounding::tiny(-14)
            <= rounding::value(#[trigger] powers[j])
}

/// Proportional light rises.
proof fn lemma_low_light_rises(a: u8, b: u8, powers: Seq<Single>)
    requires
        a < b <= 10,
    ensures
        rounding::value(contrast::light(a, powers)) + rounding::tiny(-14) <= rounding::value(
            contrast::light(b, powers),
        ),
{
    lemma_lowest(a);
    lemma_lowest(b);
    hue::lemma_share(a);
    hue::lemma_share(b);
    hue::lemma_shares_apart(a, b);
    rounding::lemma_tiny_values();
    let y = Single::of_ratio(1292, 100);
    lemma_ratio_between(1292, 100, 12, 13);
    let (p, q, d) = (
        rounding::value(Rgb::share(a)),
        rounding::value(Rgb::share(b)),
        rounding::value(y),
    );
    assert(0 as real <= p / d <= 1 as real && 0 as real <= q / d <= 1 as real) by (nonlinear_arith)
        requires
            0 as real <= p <= 1 as real,
            0 as real <= q <= 1 as real,
            d >= 12 as real,
    ;
    assert(q / d - p / d >= (q - p) / 13 as real) by (nonlinear_arith)
        requires
            p <= q,
            12 as real <= d <= 13 as real,
    {
        assert(q / d - p / d == (q - p) / d);
    }
    rounding::lemma_quotient_value(Rgb::share(a), y, -23);
    rounding::lemma_quotient_value(Rgb::share(b), y, -23);
}

/// The light of the levels rises.
pub proof fn lemma_light_rises(a: u8, b: u8, powers: Seq<Single>)
    requires
        rising_powers(powers),
        a < b,
    ensures
        rounding::value(contrast::light(a, powers)) + rounding::tiny(-14) <= rounding::value(
            contrast::light(b, powers),
        ),
{
    lemma_lowest(a);
    lemma_lowest(b);
    rounding::lemma_tiny_values();
    if b <= 10 {
        lemma_low_light_rises(a, b, powers);
    } else if a <= 10 && a < 10 {
        lemma_low_light_rises(a, 10, powers);
    }
}

/// The light of the levels does not fall.
pub proof fn lemma_light_order(a: u8, b: u8, powers: Seq<Single>)
    requires
        ordered_powers(powers),
        a <= b,
    ensures
        contrast::light(a, powers).rank() <= contrast::light(b, powers).rank(),
{
    lemma_lowest(a);
    lemma_lowest(b);
    rounding::lemma_tiny_values();
    if a < b && b <= 10 {
        lemma_low_light_rises(a, b, powers);
        rounding::lemma_value_order(contrast::light(a, powers), contrast::light(b, powers));
    } else if a < 10 && b > 10 {
        lemma_low_light_rises(a, 10, powers);
        rounding::lemma_value_order(contrast::light(a, powers), contrast::light(10, powers));
    }
}

/// More light counts for no less under the same weight.
proof fn lemma_weighted_order(weight: int, a: u8, b: u8, powers: Seq<Single>)
    requires
        ordered_powers(powers),
        0 <= weight <= 10000,
        a <= b,
    ensures
        Single::of_ratio(weight, 10000).product(contrast::light(a, powers)).rank()
            <= Single::of_ratio(weight, 10000).product(contrast::light(b, powers)).rank(),
{
    let w = Single::of_ratio(weight, 10000);
    let (x, y) = (contrast::light(a, powers), contrast::light(b, powers));
    lemma_ratio_between(weight, 10000, 0, 1);
    lemma_light(a, powers);
    lemma_light(b, powers);
    lemma_light_order(a, b, powers);
    rounding::lemma_int_value(0);
    rounding::lemma_int_rank(0);
    rounding::lemma_value_order(Single::of_int(0), w);
    rounding::lemma_value_order(Single::of_int(0), x);
    let o = rounding::one();
    rounding::lemma_units_steps();
    let (r, s) = (rounding::exact_product(w, x), rounding::exact_product(w, y));
    let (i, j, k) = (w.rank(), x.rank(), y.rank());
    assert(0 <= i * j && (i * j) * o <= (i * k) * o) by (nonlinear_arith)
        requires
            0 <= i,
            0 <= j <= k,
            o > 0,
    {
        assert(i * j <= i * k);
    }
    rounding::lemma_ordered(r, w.product(x), i * j, o, s, w.product(y), i * k, o);
}

/// No colour is darker than one whose levels are all at most as high.
pub proof fn lemma_brightness_order(a: Rgb, b: Rgb, powers: Seq<Single>)
    requires
        ordered_powers(powers),
        a.r <= b.r,
        a.g <= b.g,
        a.b <= b.b,
    ensures
        a.brightness(powers).at_most(b.brightness(powers)),
{
    lemma_brightness(a, powers);
    lemma_brightness(b, powers);
    lemma_weighted_order(2126, a.r, b.r, powers);
    lemma_weighted_order(7152, a.g, b.g, powers);
    lemma_weighted_order(722, a.b, b.b, powers);
    let (x, p) = (lemma_weighted(2126, a.r, powers), lemma_weighted(2126, b.r, powers));
    let (y, q) = (lemma_weighted(7152, a.g, powers), lemma_weighted(7152, b.g, powers));
    let (z, s) = (lemma_weighted(722, a.b, powers), lemma_weighted(722, b.b, powers));
    rounding::lemma_tiny_values();
    rounding::lemma_sum_value(x, y, -22);
    rounding::lemma_sum_value(p, q, -22);
    rounding::lemma_sum_monotone(x, y, p, q);
    rounding::lemma_sum_monotone(x.sum(y), z, p.sum(q), s);
}

/// Under a weight light counts for no more than the weight.
proof fn lemma_share_of_weight(weight: int, level: u8, powers: Seq<Single>)
    requires
        sound_powers(powers),
        rounding::value(Single::of_ratio(weight, 10000)) >= 0 as real,
    ensures
        weighted(weight, level, powers) <= rounding::value(Single::of_ratio(weight, 10000)),
{
    lemma_light(level, powers);
    let (w, x) = (
        rounding::value(Single::of_ratio(weight, 10000)),
        rounding::value(contrast::light(level, powers)),
    );
    assert(w * x <= w) by (nonlinear_arith)
        requires
            w >= 0 as real,
            x <= 1 as real,
    ;
}

/// Each weight, as a value, and what they come to.
pub proof fn lemma_weights()
    ensures
        rounding::value(Single::of_ratio(2126, 10000)) + rounding::value(
            Single::of_ratio(7152, 10000),
        ) + rounding::value(Single::of_ratio(722, 10000)) <= 1 as real + 1 as real
            / 0x100_0000 as real,
        rounding::value(Single::of_ratio(2126, 10000)) >= 1 as real / 16 as real,
        rounding::value(Single::of_ratio(7152, 10000)) >= 1 as real / 16 as real,
        rounding::value(Single::of_ratio(722, 10000)) >= 1 as real / 16 as real,
{
    lemma2_to64();
    lemma_ratio_side(2126, 10000, 1, 4);
    lemma_ratio_side(7152, 10000, 1, 4);
    lemma_ratio_side(722, 10000, 1, 4);
    lemma_ratio_side(2126, 10000, 3566837, 24);
    lemma_ratio_side(7152, 10000, 11999065, 24);
    lemma_ratio_side(722, 10000, 1211315, 24);
}

/// What a higher level adds under a weight.
pub proof fn lemma_weighted_rises(weight: int, a: u8, b: u8, powers: Seq<Single>)
    requires
        rising_powers(powers),
        a <= b,
        rounding::value(Single::of_ratio(weight, 10000)) >= 1 as real / 16 as real,
    ensures
        weighted(weight, a, powers) <= weighted(weight, b, powers),
        a < b ==> weighted(weight, a, powers) + 1 as real / 16 as real * rounding::tiny(-14)
            <= weighted(weight, b, powers),
{
    if a < b {
        lemma_light_rises(a, b, powers);
        rounding::lemma_tiny_values();
        let w = rounding::value(Single::of_ratio(weight, 10000));
        let (x, y) = (
            rounding::value(contrast::light(a, powers)),
            rounding::value(contrast::light(b, powers)),
        );
        let e = rounding::tiny(-14);
        assert(w * x + 1 as real / 16 as real * e <= w * y) by (nonlinear_arith)
            requires
                w >= 1 as real / 16 as real,
                x + e <= y,
                e > 0 as real,
        {
            assert(w * (x + e) <= w * y);
            assert(w * e >= 1 as real / 16 as real * e);
        }
    }
}

/// A colour with a higher level, and none lower, is brighter.
pub proof fn lemma_brightness_rises(a: Rgb, b: Rgb, powers: Seq<Single>)
    requires
        rising_powers(powers),
        a.r <= b.r,
        a.g <= b.g,
        a.b <= b.b,
        a != b,
    ensures
        a.brightness(powers).below(b.brightness(powers)),
{
    lemma_brightness(a, powers);
    lemma_brightness(b, powers);
    lemma_weights();
    lemma_weighted_rises(2126, a.r, b.r, powers);
    lemma_weighted_rises(7152, a.g, b.g, powers);
    lemma_weighted_rises(722, a.b, b.b, powers);
    rounding::lemma_tiny_values();
    rounding::lemma_value_order(a.brightness(powers), b.brightness(powers));
}

/// Level zero gives no light.
proof fn lemma_no_light(powers: Seq<Single>)
    ensures
        contrast::light(0, powers).is_finite(),
        rounding::value(contrast::light(0, powers)) == 0 as real,
{
    lemma_lowest(0);
    hue::lemma_share(0);
    rounding::lemma_int_value(0);
    rounding::lemma_tiny_values();
    let y = Single::of_ratio(1292, 100);
    lemma_ratio_between(1292, 100, 12, 13);
    let d = rounding::value(y);
    assert((0 as real) / d == 0 as real) by (nonlinear_arith)
        requires
            d > 0 as real,
    ;
    rounding::lemma_quotient_value(Rgb::share(0), y, -23);
    rounding::lemma_quotient_side(Rgb::share(0), y, Single::of_int(0));
}

/// With rising powers every level above zero gives light.
pub proof fn lemma_some_light(level: u8, powers: Seq<Single>)
    requires
        rising_powers(powers),
        level > 0,
    ensures
        contrast::light(level, powers).at_most(Single::of_int(1)),
        contrast::light(level, powers).rank() >= 16,
{
    let x = contrast::light(level, powers);
    lemma_light(level, powers);
    lemma_no_light(powers);
    lemma_light_rises(0, level, powers);
    rounding::lemma_tiny_values();
    rounding::lemma_int_value(1);
    rounding::lemma_value_order(x, Single::of_int(1));
    // 16 is the rank of 2^-145
    let b = rounding::dyadic(1, 14);
    lemma2_to64();
    rounding::lemma_value_order(b, x);
    rounding::lemma_units_steps();
    let o = rounding::one();
    let r = b.rank();
    assert((r as real) * (0x4000 as real) == o as real) by (nonlinear_arith)
        requires
            ((r as real) / (o as real)) * (0x4000 as real) == 1 as real,
            o > 0,
    ;
    lemma_pow2_adds(18, 131);
    lemma_pow2_pos(131);
    assert(r >= 16) by (nonlinear_arith)
        requires
            (r as real) * (0x4000 as real) == o as real,
            o >= 0x4_0000,
    ;
}

/// One level's light alone: the other two add nothing.
proof fn lemma_alone(level: u8, powers: Seq<Single>)
    requires
        contrast::light(level, powers).is_finite(),
        contrast::light(level, powers).at_most(Single::of_int(1)),
        contrast::light(level, powers).rank() >= 0,
    ensures
        ({
            let x = contrast::light(level, powers);
            let r = (Rgb { r: level, g: 0, b: 0 }).brightness(powers);
            let g = (Rgb { r: 0, g: level, b: 0 }).brightness(powers);
            let b = (Rgb { r: 0, g: 0, b: level }).brightness(powers);
            &&& !r.is_nan() && r.rank() == Single::of_ratio(2126, 10000).product(x).rank()
            &&& !g.is_nan() && g.rank() == Single::of_ratio(7152, 10000).product(x).rank()
            &&& !b.is_nan() && b.rank() == Single::of_ratio(722, 10000).product(x).rank()
        }),
{
    let x = contrast::light(level, powers);
    let none = contrast::light(0, powers);
    lemma_no_light(powers);
    rounding::lemma_int_value(0);
    rounding::lemma_int_value(1);
    rounding::lemma_int_rank(0);
    rounding::lemma_value_order(Single::of_int(0), x);
    rounding::lemma_value_order(x, Single::of_int(1));
    lemma_scaled(2126, x);
    lemma_scaled(7152, x);
    lemma_scaled(722, x);
    lemma_scaled(2126, none);
    lemma_scaled(7152, none);
    lemma_scaled(722, none);
    let (r0, g0, b0) = (
        Single::of_ratio(2126, 10000).product(none),
        Single::of_ratio(7152, 10000).product(none),
        Single::of_ratio(722, 10000).product(none),
    );
    let (r, g, b) = (
        Single::of_ratio(2126, 10000).product(x),
        Single::of_ratio(7152, 10000).product(x),
        Single::of_ratio(722, 10000).product(x),
    );
    lemma_nothing_added(r, g0);
    lemma_nothing_added(r.sum(g0), b0);
    lemma_nothing_added(g, r0);
    lemma_nothing_added(r0.sum(g), b0);
    lemma_nothing_added(r0, g0);
    lemma_nothing_added(b, r0.sum(g0));
}

/// Light between zero and one under a weight.
proof fn lemma_scaled(weight: int, x: Single)
    requires
        0 <= weight <= 10000,
        x.is_finite(),
        0 as real <= rounding::value(x) <= 1 as real,
    ensures
        ({
            let p = Single::of_ratio(weight, 10000).product(x);
            &&& p.is_finite()
            &&& 0 as real <= rounding::value(p) <= 1 as real
            &&& rounding::value(x) == 0 as real ==> rounding::value(p) == 0 as real
        }),
{
    let w = Single::of_ratio(weight, 10000);
    lemma_ratio_between(weight, 10000, 0, 1);
    rounding::lemma_int_value(0);
    rounding::lemma_int_value(1);
    rounding::lemma_tiny_values();
    let (a, b) = (rounding::value(w), rounding::value(x));
    assert(0 as real <= a * b <= 1 as real && (b == 0 as real ==> a * b == 0 as real))
        by (nonlinear_arith)
        requires
            0 as real <= a <= 1 as real,
            0 as real <= b <= 1 as real,
    ;
    rounding::lemma_product_value(w, x, -23);
    rounding::lemma_product_side(w, x, Single::of_int(0));
    rounding::lemma_product_side(w, x, Single::of_int(1));
}

/// Adding nothing, on either side, changes nothing.
proof fn lemma_nothing_added(x: Single, y: Single)
    requires
        x.is_finite(),
        y.is_finite(),
        0 as real <= rounding::value(x) <= 1 as real,
        rounding::value(y) == 0 as real,
    ensures
        x.sum(y).is_finite(),
        x.sum(y).rank() == x.rank(),
        rounding::value(x.sum(y)) == rounding::value(x),
        y.sum(x).is_finite(),
        y.sum(x).rank() == x.rank(),
        rounding::value(y.sum(x)) == rounding::value(x),
{
    rounding::lemma_tiny_values();
    rounding::lemma_sum_value(x, y, -23);
    rounding::lemma_sum_side(x, y, x);
    rounding::lemma_sum_value(y, x, -23);
    rounding::lemma_sum_side(y, x, x);
    rounding::lemma_value_order(x, x.sum(y));
    rounding::lemma_value_order(x.sum(y), x);
    rounding::lemma_value_order(x, y.sum(x));
    rounding::lemma_value_order(y.sum(x), x);
}

/// Under a greater weight the same light counts for more: the weights lie in the order of
/// `a < b`, in parts of `2^9`.
proof fn lemma_heavier(v: Single, w: Single, x: Single, a: int, b: int)
    requires
        v.is_finite(),
        w.is_finite(),
        x.is_finite(),
        16 <= x.rank() <= rounding::one(),
        0 <= v.rank(),
        v.rank() * 512 <= a * rounding::one(),
        b * rounding::one() <= w.rank() * 512,
        w.rank() <= rounding::one(),
        0 <= a <= 256,
        b >= a + 100 || (b >= a + 65 && w.rank() * 2 <= rounding::one()),
    ensures
        v.product(x).rank() < w.product(x).rank(),
{
    let o = rounding::one();
    rounding::lemma_units_steps();
    rounding::lemma_finite_rank(x);
    rounding::lemma_exponent(x, 0);
    let (neg, sig, exp) = (x.parts()->Finite_neg, x.parts()->sig as int, x.parts()->exp as int);
    rounding::lemma_units_double(exp);
    let u = rounding::units(exp);
    let l = x.rank();
    assert(!neg && l == sig * u) by (nonlinear_arith)
        requires
            l == (if neg {
                -sig
            } else {
                sig
            }) * u,
            l >= 16,
            sig >= 0,
            u > 0,
    ;
    assert(sig >= 16) by {
        if exp == -149 {
            lemma2_to64();
            vstd::arithmetic::mul::lemma_mul_basics(sig);
        }
    }
    let (p, q) = (v.rank() * l, w.rank() * l);
    let (r, s) = (rounding::exact_product(v, x), rounding::exact_product(w, x));
    let (i, j) = (v.rank(), w.rank());
    let (y, z) = (v.product(x), w.product(x));
    assert(2 * i <= o) by (nonlinear_arith)
        requires
            i * 512 <= a * o,
            a <= 256,
            o > 0,
    ;
    lemma_half_weight(i, sig, u, o);
    assert(p == i * (sig * u));
    rounding::lemma_near(r, y, p, o, exp);
    let e: int = if 2 * j <= o {
        exp
    } else {
        exp + 1
    };
    let c: int = if 2 * j <= o {
        1
    } else {
        2
    };
    assert(rounding::units(e) == c * u);
    assert(j >= 0) by (nonlinear_arith)
        requires
            b * o <= j * 512,
            b >= 0,
            o > 0,
    ;
    if 2 * j <= o {
        lemma_half_weight(j, sig, u, o);
    } else {
        lemma_whole_weight(j, sig, u, o);
    }
    assert(q == j * (sig * u));
    rounding::lemma_near(s, z, q, o, e);
    // the exact products are further apart than the roundings can bring together
    assert(512 * (q - p) >= (b - a) * o * (sig * u)) by (nonlinear_arith)
        requires
            p == i * (sig * u),
            q == j * (sig * u),
            i * 512 <= a * o,
            b * o <= j * 512,
            sig * u >= 0,
    {
        assert((j * 512) * (sig * u) >= (b * o) * (sig * u));
        assert((i * 512) * (sig * u) <= (a * o) * (sig * u));
        assert((b * o) * (sig * u) - (a * o) * (sig * u) == (b - a) * o * (sig * u));
    }
    assert((b - a) * o * (sig * u) >= 16 * (b - a) * (u * o)) by (nonlinear_arith)
        requires
            sig >= 16,
            b - a >= 0,
            o > 0,
            u > 0,
    {
        assert(((b - a) * (u * o)) * sig >= ((b - a) * (u * o)) * 16);
        assert((b - a) * o * (sig * u) == ((b - a) * (u * o)) * sig);
    }
    let k = u * o;
    assert(k > 0) by (nonlinear_arith)
        requires
            u > 0,
            o > 0,
            k == u * o,
    ;
    assert(16 * (b - a) * k > 512 * (1 + c) * k) by (nonlinear_arith)
        requires
            16 * (b - a) > 512 * (1 + c),
            k > 0,
    ;
    assert((c * u) * o == c * k) by (nonlinear_arith)
        requires
            k == u * o,
    ;
    assert(512 * (1 + c) * k == 512 * (k + c * k)) by (nonlinear_arith);
    assert((-(c * u)) * o == -(c * k)) by (nonlinear_arith)
        requires
            k == u * o,
    ;
    assert((-u) * o == -k) by (nonlinear_arith)
        requires
            k == u * o,
    ;
    assert(y.rank() * o < z.rank() * o);
    let (m, n) = (y.rank(), z.rank());
    assert(m < n) by (nonlinear_arith)
        requires
            m * o < n * o,
            o > 0,
    ;
}

/// Half of a number of 24 bits has 23.
proof fn lemma_half_weight(i: int, sig: int, u: int, o: int)
    requires
        0 <= 2 * i <= o,
        0 <= sig < 0x100_0000,
        u > 0,
        o > 0,
    ensures
        -0x80_0000 * (u * o) <= i * (sig * u) <= 0x80_0000 * (u * o),
{
    assert(0 <= i * (sig * u) <= 0x80_0000 * (u * o)) by (nonlinear_arith)
        requires
            0 <= 2 * i <= o,
            0 <= sig < 0x100_0000,
            u > 0,
            o > 0,
    {
        assert(0 <= i * sig <= i * 0x100_0000);
        assert(i * 0x100_0000 <= 0x80_0000 * o);
        assert((i * sig) * u <= (0x80_0000 * o) * u);
        assert(i * (sig * u) == (i * sig) * u);
        assert((0x80_0000 * o) * u == 0x80_0000 * (u * o));
        assert((i * sig) * u >= 0);
    }
    assert(u * o > 0) by (nonlinear_arith)
        requires
            u > 0,
            o > 0,
    ;
}

/// A number of 24 bits has 23 above the next exponent.
proof fn lemma_whole_weight(j: int, sig: int, u: int, o: int)
    requires
        0 <= j <= o,
        0 <= sig < 0x100_0000,
        u > 0,
        o > 0,
    ensures
        -0x80_0000 * ((2 * u) * o) <= j * (sig * u) <= 0x80_0000 * ((2 * u) * o),
{
    lemma_half_weight(j, sig, u, 2 * o);
    assert(u * (2 * o) == (2 * u) * o) by (nonlinear_arith);
}

/// Green alone is brighter than red alone, and red alone brighter than blue alone.
pub proof fn lemma_weight_order(level: u8, powers: Seq<Single>)
    requires
        contrast::light(level, powers).at_most(Single::of_int(1)),
        contrast::light(level, powers).rank() >= 16,
    ensures
        (Rgb { r: level, g: 0, b: 0 }).brightness(powers).below(
            (Rgb { r: 0, g: level, b: 0 }).brightness(powers),
        ),
        (Rgb { r: 0, g: 0, b: level }).brightness(powers).below(
            (Rgb { r: level, g: 0, b: 0 }).brightness(powers),
        ),
{
    let x = contrast::light(level, powers);
    rounding::lemma_int_rank(1);
    rounding::lemma_units_steps();
    rounding::lemma_small_is_finite(x);
    lemma_alone(level, powers);
    lemma2_to64();
    let (r, g, b) = (
        Single::of_ratio(2126, 10000),
        Single::of_ratio(7152, 10000),
        Single::of_ratio(722, 10000),
    );
    lemma_ratio_between(2126, 10000, 0, 1);
    lemma_ratio_between(7152, 10000, 0, 1);
    lemma_ratio_between(722, 10000, 0, 1);
    lemma_ratio_side(2126, 10000, 108, 9);
    lemma_ratio_side(2126, 10000, 109, 9);
    lemma_ratio_side(2126, 10000, 1, 1);
    lemma_ratio_side(7152, 10000, 366, 9);
    lemma_ratio_side(7152, 10000, 512, 9);
    lemma_ratio_side(722, 10000, 36, 9);
    lemma_ratio_side(722, 10000, 37, 9);
    lemma_heavier(r, g, x, 109, 366);
    lemma_heavier(b, r, x, 37, 108);
}

/// Luminance lies between zero and little more than one.
pub proof fn lemma_luminance_ends(c: Rgb, powers: Seq<Single>)
    requires
        sound_powers(powers),
    ensures
        Single::of_int(0).at_most(c.brightness(powers)),
        c.brightness(powers).at_most(Single::of_ratio(100001, 100000)),
{
    let x = c.brightness(powers);
    let top = Single::of_ratio(100001, 100000);
    lemma_brightness(c, powers);
    rounding::lemma_int_value(0);
    rounding::lemma_value_order(Single::of_int(0), x);
    lemma2_to64();
    lemma_ratio_between(100001, 100000, 1, 2);
    lemma_ratio_side(100001, 100000, 8388691, 23);
    assert(rounding::value(top) * 0x80_0000 as real >= 8388691 as real);
    rounding::lemma_value_order(x, top);
}

/// The luminance of a colour, raised by a twentieth.
pub proof fn lemma_raised(c: Rgb, powers: Seq<Single>)
    requires
        sound_powers(powers),
    ensures
        ({
            let l = c.brightness(powers).sum(Single::of_ratio(5, 100));
            &&& l.is_finite()
            &&& rounding::value(l) >= rounding::value(Single::of_ratio(5, 100))
            &&& rounding::value(l) <= 1 as real + rounding::value(Single::of_ratio(5, 100))
                + 1 as real / 0x40000 as real
        }),
{
    let x = c.brightness(powers);
    let twentieth = Single::of_ratio(5, 100);
    lemma_brightness(c, powers);
    lemma_ratio_between(5, 100, 0, 1);
    lemma_twentieth();
    rounding::lemma_tiny_values();
    rounding::lemma_sum_value(x, twentieth, -22);
    rounding::lemma_sum_side(x, twentieth, twentieth);
}

/// No quotient of two raised luminances is above 21.001.
proof fn lemma_raised_ratio(a: Rgb, b: Rgb, powers: Seq<Single>)
    requires
        sound_powers(powers),
    ensures
        a.brightness(powers).sum(Single::of_ratio(5, 100)).quotient(
            b.brightness(powers).sum(Single::of_ratio(5, 100)),
        ).at_most(Single::of_ratio(21001, 1000)),
{
    let twentieth = Single::of_ratio(5, 100);
    let (x, y) = (a.brightness(powers).sum(twentieth), b.brightness(powers).sum(twentieth));
    let top = Single::of_ratio(21001, 1000);
    lemma_raised(a, powers);
    lemma_raised(b, powers);
    lemma_twentieth();
    lemma2_to64();
    lemma_ratio_between(21001, 1000, 21, 22);
    lemma_ratio_side(21001, 1000, 11010572, 19);
    rounding::lemma_tiny_values();
    rounding::lemma_int_value(0);
    rounding::lemma_int_rank(0);
    rounding::lemma_value_order(Single::of_int(0), y);
    let (p, q, t) = (rounding::value(x), rounding::value(y), rounding::value(top));
    assert(p <= t * q) by (nonlinear_arith)
        requires
            p <= 1 as real + 13421773 as real / 0x1000_0000 as real + 1 as real / 0x40000 as real,
            q >= 13421772 as real / 0x1000_0000 as real,
            t >= 11010572 as real / 0x80000 as real,
    ;
    assert(0 as real <= p / q <= t) by (nonlinear_arith)
        requires
            0 as real <= p <= t * q,
            q > 0 as real,
    ;
    rounding::lemma_quotient_value(x, y, -17);
    rounding::lemma_quotient_side(x, y, top);
    rounding::lemma_value_order(x.quotient(y), top);
}

/// No contrast is above 21.001.
pub proof fn lemma_contrast_end(a: Rgb, b: Rgb, powers: Seq<Single>)
    requires
        sound_powers(powers),
    ensures
        contrast::contrast(a, b, powers).at_most(Single::of_ratio(21001, 1000)),
{
    lemma_raised_ratio(a, b, powers);
    lemma_raised_ratio(b, a, powers);
}

} // verus!
