//! Results that are the nearest numbers to exact ones.
use vstd::prelude::*;
use vstd::arithmetic::power2::*;
use crate::app;
use crate::circle;
use crate::color::{Hsv, Rgb};
use crate::contrast;
use crate::hue;
use crate::laws;
use crate::light_laws;
use crate::lightness;
use crate::render;
use crate::rounding;
use crate::rounding::Exact;
use crate::single::Single;
use crate::text_laws;

verus! {

/// Whether no finite number is nearer to `r` than `z`, and the last bit of `z` is zero where
/// another one is as near.
#[verifier::opaque]
pub open spec fn nearest_to(z: Single, r: real) -> bool {
    &&& z.is_finite()
    &&& forall|b: Single| #[trigger]
        b.is_finite() ==> hue::size(rounding::value(z) - r) <= hue::size(rounding::value(b) - r)
    &&& forall|b: Single| #[trigger]
        b.is_finite() && hue::size(rounding::value(z) - r) == hue::size(rounding::value(b) - r)
            && rounding::value(z) != rounding::value(b) ==> z.bits % 2 == 0
}

/// A rounded result, as a value.
proof fn lemma_nearest(r: Exact, z: Single, p: int, q: int, v: real)
    requires
        r.gives(z, p, q),
        z.is_finite(),
        v * (q as real) * (rounding::one() as real) == p as real,
    ensures
        nearest_to(z, v),
        z.is_finite(),
{
    reveal(nearest_to);
    rounding::lemma_units_steps();
    let o = rounding::one() as real;
    let k = q as real;
    assert forall|b: Single| #[trigger] b.is_finite() implies hue::size(rounding::value(z) - v)
        <= hue::size(rounding::value(b) - v) && (hue::size(rounding::value(z) - v) == hue::size(
        rounding::value(b) - v,
    ) && rounding::value(z) != rounding::value(b) ==> z.bits % 2 == 0) by {
        rounding::lemma_distance(r, z, p, q, b);
        lemma_scaled_value(z, p, q, v);
        lemma_scaled_value(b, p, q, v);
        let (x, y) = (hue::size(rounding::value(z) - v), hue::size(rounding::value(b) - v));
        let (s, t) = (
            rounding::apart(z.rank() * q, p) as real,
            rounding::apart(b.rank() * q, p) as real,
        );
        assert(x <= y) by (nonlinear_arith)
            requires
                x * (k * o) == s,
                y * (k * o) == t,
                s <= t,
                k > 0 as real,
                o > 0 as real,
        {
            assert(k * o > 0 as real);
        }
    }
}

proof fn lemma_scaled_value(z: Single, p: int, q: int, v: real)
    requires
        v * (q as real) * (rounding::one() as real) == p as real,
        q > 0,
    ensures
        hue::size(rounding::value(z) - v) * (q as real * rounding::one() as real)
            == rounding::apart(z.rank() * q, p) as real,
{
    rounding::lemma_units_steps();
    let (o, k, w) = (rounding::one() as real, q as real, z.rank() as real);
    let x = rounding::value(z);
    assert((z.rank() * q) as real == w * k) by (nonlinear_arith)
        requires
            w == z.rank() as real,
            k == q as real,
    ;
    let d = x - v;
    assert(d * (k * o) == w * k - p as real) by (nonlinear_arith)
        requires
            d == x - v,
            x == w / o,
            v * k * o == p as real,
            o > 0 as real,
    {
        assert(x * o == w);
        assert((x * k) * o == w * k);
    }
    assert((-d) * (k * o) == -(w * k - p as real)) by (nonlinear_arith)
        requires
            d * (k * o) == w * k - p as real,
    ;
    assert(d < 0 as real <==> z.rank() * q < p) by (nonlinear_arith)
        requires
            d * (k * o) == (z.rank() * q) as real - p as real,
            k > 0 as real,
            o > 0 as real,
    {
        assert(k * o > 0 as real);
    }
}

/// A sum is the number nearest to the exact sum.
pub proof fn law_sum(x: Single, y: Single)
    requires
        x.is_finite(),
        y.is_finite(),
        x.sum(y).is_finite(),
    ensures
        nearest_to(x.sum(y), rounding::value(x) + rounding::value(y)),
{
    let r = rounding::exact_sum(x, y);
    rounding::lemma_units_steps();
    let o = rounding::one() as real;
    let (a, b) = (x.rank() as real, y.rank() as real);
    assert((a / o + b / o) * (1 as real) * o == a + b) by (nonlinear_arith)
        requires
            o > 0 as real,
    ;
    lemma_nearest(
        r,
        x.sum(y),
        x.rank() + y.rank(),
        1,
        rounding::value(x) + rounding::value(y),
    );
}

/// A difference is the number nearest to the exact difference.
pub proof fn law_difference(x: Single, y: Single)
    requires
        x.is_finite(),
        y.is_finite(),
        x.difference(y).is_finite(),
    ensures
        nearest_to(x.difference(y), rounding::value(x) - rounding::value(y)),
{
    rounding::lemma_finite_sign(y);
    rounding::lemma_value_order(y, y);
    law_sum(x, y.negated());
}

/// A product is the number nearest to the exact product.
pub proof fn law_product(x: Single, y: Single)
    requires
        x.is_finite(),
        y.is_finite(),
        x.product(y).is_finite(),
    ensures
        nearest_to(x.product(y), rounding::value(x) * rounding::value(y)),
{
    let r = rounding::exact_product(x, y);
    rounding::lemma_units_steps();
    let o = rounding::one() as real;
    let (a, b) = (x.rank() as real, y.rank() as real);
    assert((x.rank() * y.rank()) as real == a * b) by (nonlinear_arith)
        requires
            a == x.rank() as real,
            b == y.rank() as real,
    ;
    assert((a / o) * (b / o) * o * o == a * b) by (nonlinear_arith)
        requires
            o > 0 as real,
    ;
    lemma_nearest(
        r,
        x.product(y),
        x.rank() * y.rank(),
        rounding::one(),
        rounding::value(x) * rounding::value(y),
    );
}

/// A quotient by a positive number is the number nearest to the exact quotient.
pub proof fn law_quotient(x: Single, y: Single)
    requires
        x.is_finite(),
        y.is_finite(),
        rounding::value(y) > 0 as real,
        x.quotient(y).is_finite(),
    ensures
        nearest_to(x.quotient(y), rounding::value(x) / rounding::value(y)),
{
    rounding::lemma_units_steps();
    let o = rounding::one() as real;
    let (a, b) = (x.rank() as real, y.rank() as real);
    assert(b > 0 as real) by (nonlinear_arith)
        requires
            b / o > 0 as real,
            o > 0 as real,
    ;
    let r = rounding::exact_quotient(x, y);
    assert((x.rank() * rounding::one()) as real == a * o) by (nonlinear_arith)
        requires
            a == x.rank() as real,
            o == rounding::one() as real,
    ;
    assert(((a / o) / (b / o)) * b * o == a * o) by (nonlinear_arith)
        requires
            o > 0 as real,
            b > 0 as real,
    ;
    lemma_nearest(
        r,
        x.quotient(y),
        x.rank() * rounding::one(),
        y.rank(),
        rounding::value(x) / rounding::value(y),
    );
}

/// A ratio is the number nearest to the exact ratio.
pub proof fn law_ratio(n: int, d: int)
    requires
        0 <= n,
        0 < d,
        Single::of_ratio(n, d).is_finite(),
    ensures
        nearest_to(Single::of_ratio(n, d), n as real / d as real),
{
    rounding::lemma_units_steps();
    let z = Single::of_ratio(n, d);
    let o = rounding::one();
    let r = Exact { t: n, d, e: 0 };
    rounding::lemma_int_rank(0);
    rounding::lemma_rounded_bounds(n, d, 0, Single::of_int(0));
    assert(n * o * d == (n * o) * d);
    assert(r.gives(z, n * o, d));
    let (a, b, k) = (n as real, d as real, o as real);
    assert((a / b) * b * k == (n * o) as real) by (nonlinear_arith)
        requires
            a == n as real,
            b == d as real,
            k == o as real,
            b > 0 as real,
    {
        assert((n * o) as real == a * k);
    }
    lemma_nearest(r, z, n * o, d, a / b);
}

/// An integer of 32 bits is rounded to the nearest number.
pub proof fn law_int(n: i32)
    ensures
        nearest_to(Single::of_int(n as int), n as real),
{
    rounding::lemma_large_int(n);
    rounding::lemma_units_steps();
    rounding::lemma_int_rank(0);
    let z = Single::of_int(n as int);
    let o = rounding::one();
    let r = Exact { t: n as int, d: 1, e: 0 };
    rounding::lemma_rounded_bounds(n as int, 1, 0, Single::of_int(0));
    assert(n * o * 1 == (n * o) * 1);
    assert(r.gives(z, n * o, 1));
    let (a, k) = (n as real, o as real);
    assert(a * (1 as real) * k == (n * o) as real) by (nonlinear_arith)
        requires
            a == n as real,
            k == o as real,
    ;
    lemma_nearest(r, z, n * o, 1, a);
}

/// A remainder is exact: what is left of a number after whole multiples of a positive one
/// are taken away, with the sign of the number.
pub proof fn law_remainder(x: Single, y: Single)
    requires
        x.is_finite(),
        y.is_finite(),
        y.rank() > 0,
    ensures
        x.remainder(y).is_finite(),
        x.rank() >= 0 ==> 0 <= x.remainder(y).rank() < y.rank(),
        x.rank() <= 0 ==> -y.rank() < x.remainder(y).rank() <= 0,
        (x.rank() - x.remainder(y).rank()) % y.rank() == 0,
{
    rounding::lemma_remainder(x, y);
    let (a, b) = (x.rank(), y.rank());
    vstd::arithmetic::div_mod::lemma_mod_bound(a, b);
    vstd::arithmetic::div_mod::lemma_mod_bound(-a, b);
    vstd::arithmetic::div_mod::lemma_fundamental_div_mod(a, b);
    vstd::arithmetic::div_mod::lemma_fundamental_div_mod(-a, b);
    if a >= 0 {
        vstd::arithmetic::div_mod::lemma_mod_multiples_basic(a / b, b);
        assert(a - a % b == (a / b) * b) by (nonlinear_arith)
            requires
                a == b * (a / b) + a % b,
        ;
    } else {
        let k = (-a) / b;
        vstd::arithmetic::div_mod::lemma_mod_multiples_basic(-k, b);
        assert(a + (-a) % b == (-k) * b) by (nonlinear_arith)
            requires
                -a == b * k + (-a) % b,
        ;
    }
}

/// The share of a level is the number nearest to the level over 255.
pub proof fn law_share(level: u8)
    ensures
        nearest_to(Rgb::share(level), level as real / 255 as real),
{
    rounding::lemma_int_value(level as int);
    rounding::lemma_int_value(255);
    hue::lemma_share(level);
    law_quotient(Single::of_int(level as int), Single::of_int(255));
}

/// A saturation or a value is stepped in two roundings: of the step in hundredths, and of
/// the sum, which is then cut to the range from zero to one.
pub proof fn law_share_step_rounds(s: Single, delta: i32)
    requires
        s.is_finite(),
        0 as real <= rounding::value(s) <= 1 as real,
    ensures
        exists|d: Single, q: Single, t: Single| #[trigger]
            nearest_to(d, delta as real) && #[trigger] nearest_to(
                q,
                rounding::value(d) / 100 as real,
            ) && #[trigger] nearest_to(t, rounding::value(s) + rounding::value(q))
                && rounding::value(app::moved_share(s, delta as int)) == hue::unit(
                rounding::value(t),
            ),
{
    let d = Single::of_int(delta as int);
    let hundred = Single::of_int(100);
    let q = d.quotient(hundred);
    let t = s.sum(q);
    let (zero, one) = (Single::of_int(0), Single::of_int(1));
    law_int(delta);
    rounding::lemma_units_steps();
    rounding::lemma_int_value(0);
    rounding::lemma_int_value(1);
    rounding::lemma_int_value(100);
    rounding::lemma_int_rank(0);
    rounding::lemma_int_rank(1);
    laws::lemma_int_share(delta, 100);
    law_quotient(d, hundred);
    assert(rounding::value(d) / rounding::value(hundred) == rounding::value(d) / 100 as real);
    let z = rounding::exact_sum(s, q);
    lemma_small_sum(s, delta);
    law_sum(s, q);
    rounding::lemma_value_order(t, zero);
    rounding::lemma_value_order(zero, t);
    rounding::lemma_value_order(one, t);
    rounding::lemma_value_order(t, one);
}

/// A share moved by any step is finite.
proof fn lemma_small_sum(s: Single, delta: i32)
    requires
        s.is_finite(),
        0 as real <= rounding::value(s) <= 1 as real,
    ensures
        s.sum(Single::of_int(delta as int).quotient(Single::of_int(100))).is_finite(),
{
    let d = Single::of_int(delta as int);
    let hundred = Single::of_int(100);
    let q = d.quotient(hundred);
    laws::lemma_int_share(delta, 100);
    rounding::lemma_large_int(delta);
    rounding::lemma_int_rank(100);
    rounding::lemma_units_steps();
    rounding::lemma_int_rank(1);
    rounding::lemma_int_rank(0);
    rounding::lemma_int_value(0);
    rounding::lemma_int_value(1);
    rounding::lemma_value_order(Single::of_int(0), s);
    rounding::lemma_value_order(s, Single::of_int(1));
    let o = rounding::one();
    let r = rounding::exact_quotient(d, hundred);
    let top = rounding::signed_exact(1, 30);
    let low = rounding::signed_exact(-1, 30);
    lemma2_to64();
    rounding::lemma_units_grow(0, 30);
    let u = rounding::units(30);
    assert(u == 0x4000_0000 * o) by (nonlinear_arith)
        requires
            u == rounding::units(0) * pow2(30),
            rounding::units(0) == o,
            pow2(30) == 0x4000_0000,
    ;
    assert(d.rank() * o <= top.rank() * hundred.rank() && low.rank() * hundred.rank() <= d.rank() * o)
        by (nonlinear_arith)
        requires
            -0x8000_0000 * o <= d.rank() <= 0x8000_0000 * o,
            top.rank() == 0x4000_0000 * o,
            low.rank() == -0x4000_0000 * o,
            hundred.rank() == 100 * o,
            o > 0,
    ;
    rounding::lemma_bounds(r, q, d.rank() * o, hundred.rank(), top);
    rounding::lemma_bounds(r, q, d.rank() * o, hundred.rank(), low);
    let far = rounding::signed_exact(2, 30);
    let back = rounding::signed_exact(-2, 30);
    rounding::lemma_sum_bounds(s, q, far);
    rounding::lemma_sum_bounds(s, q, back);
    rounding::lemma_small_is_finite(s.sum(q));
}

/// The sliders of saturation and value show the whole part of the number nearest to the
/// hundredfold of the share.
pub proof fn law_percent_rounds(s: Single)
    requires
        s.is_finite(),
        0 as real <= rounding::value(s) <= 1 as real,
    ensures
        exists|p: Single| #[trigger]
            nearest_to(p, 100 as real * rounding::value(s)) && render::percent(s) as real
                <= rounding::value(p) && rounding::value(p) < render::percent(s) as real
                + 1 as real,
{
    let hundred = Single::of_int(100);
    rounding::lemma_tiny_values();
    rounding::lemma_int_value(0);
    rounding::lemma_int_rank(0);
    rounding::lemma_int_value(100);
    let v = rounding::value(s);
    let p = s.product(hundred);
    assert(rounding::value(s) * rounding::value(hundred) == 100 as real * v);
    rounding::lemma_product_value(s, hundred, -16);
    rounding::lemma_product_side(s, hundred, Single::of_int(0));
    rounding::lemma_product_side(s, hundred, hundred);
    law_product(s, hundred);
    rounding::lemma_value_order(Single::of_int(0), p);
    rounding::lemma_whole(p);
}

/// The luminance of a colour is the rounded sum of rounded products of the lights of its
/// levels and the numbers nearest to 0.2126, 0.7152 and 0.0722.
pub proof fn law_luminance_rounds(c: Rgb, powers: Seq<Single>)
    requires
        lightness::sound_powers(powers),
    ensures
        exists|x: Single, y: Single, z: Single, xy: Single|
            weighs(x, 2126, c.r, powers) && weighs(y, 7152, c.g, powers) && weighs(
                z,
                722,
                c.b,
                powers,
            ) && #[trigger] nearest_to(xy, rounding::value(x) + rounding::value(y))
                && #[trigger] sums_to(c.brightness(powers), xy, z),
{
    let (w1, w2, w3) = (
        Single::of_ratio(2126, 10000),
        Single::of_ratio(7152, 10000),
        Single::of_ratio(722, 10000),
    );
    let x = w1.product(contrast::light(c.r, powers));
    let y = w2.product(contrast::light(c.g, powers));
    let z = w3.product(contrast::light(c.b, powers));
    lemma_weighs(2126, c.r, powers);
    lemma_weighs(7152, c.g, powers);
    lemma_weighs(722, c.b, powers);
    rounding::lemma_tiny_values();
    lightness::lemma_brightness(c, powers);
    let a = lightness::lemma_weighted(2126, c.r, powers);
    let b = lightness::lemma_weighted(7152, c.g, powers);
    let d = lightness::lemma_weighted(722, c.b, powers);
    rounding::lemma_sum_value(x, y, -22);
    law_sum(x, y);
    law_sum(x.sum(y), z);
    assert(sums_to(c.brightness(powers), x.sum(y), z));
}

/// Whether `s` is the rounded sum of two numbers.
pub open spec fn sums_to(s: Single, x: Single, y: Single) -> bool {
    nearest_to(s, rounding::value(x) + rounding::value(y))
}

/// Whether `l` is the light of a level: of the levels up to ten the rounded quotient of
/// their share and the number nearest to 12.92, above that the power.
pub open spec fn lights(l: Single, level: u8, powers: Seq<Single>) -> bool {
    if level <= 10 {
        exists|share: Single, k: Single| #[trigger]
            nearest_to(share, level as real / 255 as real) && #[trigger] nearest_to(
                k,
                1292 as real / 100 as real,
            ) && nearest_to(l, rounding::value(share) / rounding::value(k))
    } else {
        l == powers[level as int]
    }
}

/// Whether `x` is the light of a level, weighted.
pub open spec fn weighs(x: Single, weight: int, level: u8, powers: Seq<Single>) -> bool {
    exists|w: Single, l: Single| #[trigger]
        nearest_to(w, weight as real / 10000 as real) && #[trigger] lights(l, level, powers)
            && nearest_to(x, rounding::value(w) * rounding::value(l))
}

/// The light of a level is that light.
pub proof fn law_light_rounds(level: u8, powers: Seq<Single>)
    ensures
        lights(contrast::light(level, powers), level, powers),
{
    lightness::lemma_lowest(level);
    if level <= 10 {
        let k = Single::of_ratio(1292, 100);
        let share = Rgb::share(level);
        rounding::lemma_tiny_values();
        law_share(level);
        hue::lemma_share(level);
        lightness::lemma_ratio_between(1292, 100, 12, 13);
        law_ratio(1292, 100);
        let (a, b) = (rounding::value(share), rounding::value(k));
        assert(0 as real <= a / b <= 1 as real) by (nonlinear_arith)
            requires
                0 as real <= a <= 1 as real,
                b >= 12 as real,
        ;
        rounding::lemma_quotient_value(share, k, -23);
        law_quotient(share, k);
    }
}

proof fn lemma_weighs(weight: int, level: u8, powers: Seq<Single>)
    requires
        lightness::sound_powers(powers),
        0 <= weight <= 10000,
    ensures
        weighs(
            Single::of_ratio(weight, 10000).product(contrast::light(level, powers)),
            weight,
            level,
            powers,
        ),
{
    let w = Single::of_ratio(weight, 10000);
    let l = contrast::light(level, powers);
    lightness::lemma_ratio_between(weight, 10000, 0, 1);
    law_ratio(weight, 10000);
    law_light_rounds(level, powers);
    lightness::lemma_light(level, powers);
    let p = lightness::lemma_weighted(weight, level, powers);
    law_product(w, l);
}

/// The number to raise to the power 2.4 is the rounded quotient of the share of a level,
/// raised by the number nearest to 0.055, and the number nearest to 1.055.
pub proof fn law_power_base_rounds(level: u8)
    ensures
        exists|a: Single, b: Single, share: Single, x: Single| #[trigger]
            nearest_to(a, 55 as real / 1000 as real) && #[trigger] nearest_to(
                b,
                1055 as real / 1000 as real,
            ) && #[trigger] nearest_to(share, level as real / 255 as real) && #[trigger] nearest_to(
                x,
                rounding::value(share) + rounding::value(a),
            ) && nearest_to(
                contrast::base_of_power(level),
                rounding::value(x) / rounding::value(b),
            ),
{
    let share = Rgb::share(level);
    let (p, q) = (Single::of_ratio(55, 1000), Single::of_ratio(1055, 1000));
    hue::lemma_share(level);
    rounding::lemma_tiny_values();
    lightness::lemma_ratio_between(55, 1000, 0, 1);
    lightness::lemma_ratio_between(1055, 1000, 1, 2);
    law_ratio(55, 1000);
    law_ratio(1055, 1000);
    law_share(level);
    light_laws::law_power_base(level);
    rounding::lemma_sum_value(share, p, -22);
    law_sum(share, p);
    law_quotient(share.sum(p), q);
}

/// Whether `z` is the rounded quotient of two numbers, each raised by the number nearest to
/// a twentieth and rounded.
#[verifier::opaque]
pub open spec fn raised_quotient(z: Single, hi: real, lo: real) -> bool {
    exists|t: Single, p: Single, q: Single| #[trigger]
        nearest_to(t, 5 as real / 100 as real) && #[trigger] nearest_to(p, hi + rounding::value(t))
            && #[trigger] nearest_to(q, lo + rounding::value(t)) && nearest_to(
            z,
            rounding::value(p) / rounding::value(q),
        )
}

/// The contrast of two colours is the rounded quotient of their luminances, larger over
/// smaller, each raised by the number nearest to a twentieth and rounded.
pub proof fn law_contrast_rounds(a: Rgb, b: Rgb, powers: Seq<Single>)
    requires
        lightness::sound_powers(powers),
    ensures
        ({
            let (x, y) = (
                rounding::value(a.brightness(powers)),
                rounding::value(b.brightness(powers)),
            );
            let (hi, lo) = if x >= y {
                (x, y)
            } else {
                (y, x)
            };
            raised_quotient(contrast::contrast(a, b, powers), hi, lo)
        }),
{
    let (x, y) = (a.brightness(powers), b.brightness(powers));
    rounding::lemma_value_order(x, y);
    rounding::lemma_value_order(y, x);
    if rounding::value(x) >= rounding::value(y) {
        lemma_contrast_rounds(a, b, powers);
    } else {
        laws::law_contrast_is_symmetric(a, b, powers);
        lemma_contrast_rounds(b, a, powers);
    }
}

proof fn lemma_contrast_rounds(a: Rgb, b: Rgb, powers: Seq<Single>)
    requires
        lightness::sound_powers(powers),
        b.brightness(powers).rank() <= a.brightness(powers).rank(),
    ensures
        raised_quotient(
            contrast::contrast(a, b, powers),
            rounding::value(a.brightness(powers)),
            rounding::value(b.brightness(powers)),
        ),
{
    let t = Single::of_ratio(5, 100);
    lightness::lemma_ratio_between(5, 100, 0, 1);
    law_ratio(5, 100);
    light_laws::lemma_raised_value(a, powers);
    light_laws::lemma_raised_value(b, powers);
    light_laws::lemma_contrast_quotient(a, b, powers);
    light_laws::lemma_contrast_value(a, b, powers);
    lightness::lemma_brightness(a, powers);
    lightness::lemma_brightness(b, powers);
    law_sum(a.brightness(powers), t);
    law_sum(b.brightness(powers), t);
    law_quotient(a.brightness(powers).sum(t), b.brightness(powers).sum(t));
    reveal(raised_quotient);
}

/// The larger of two shares, by their levels.
pub open spec fn share_of(level: u8, c: Rgb, r: Single, g: Single, b: Single) -> Single {
    if level == c.r {
        r
    } else if level == c.g {
        g
    } else {
        b
    }
}

/// Whether `q` is the rounded quotient of a rounded difference `x - y` and `d`.
#[verifier::opaque]
pub open spec fn rounded_ratio(q: Single, x: Single, y: Single, d: Single) -> bool {
    exists|w: Single| #[trigger]
        nearest_to(w, rounding::value(x) - rounding::value(y)) && nearest_to(
            q,
            rounding::value(w) / rounding::value(d),
        )
}

/// Whether `h` is the rounded hue of a colour that is no grey, from the shares of its levels
/// and what lies between the outer ones: sixty times the ratio of the weaker two, after two
/// or four sixths where green or blue is the strongest, and a turn further where that is
/// negative.
pub open spec fn rounded_hue(h: Single, c: Rgb, r: Single, g: Single, b: Single, d: Single) -> bool {
    if c.r == circle::largest(c) {
        exists|q: Single, p: Single| #[trigger]
            rounded_ratio(q, g, b, d) && #[trigger] nearest_to(p, 60 as real * rounding::value(q))
                && (if rounding::value(p) < 0 as real {
                nearest_to(h, rounding::value(p) + 360 as real)
            } else {
                h == p
            })
    } else if c.g == circle::largest(c) {
        exists|q: Single, t: Single| #[trigger]
            rounded_ratio(q, b, r, d) && #[trigger] nearest_to(t, rounding::value(q) + 2 as real)
                && nearest_to(h, 60 as real * rounding::value(t))
    } else {
        exists|q: Single, t: Single| #[trigger]
            rounded_ratio(q, r, g, d) && #[trigger] nearest_to(t, rounding::value(q) + 4 as real)
                && nearest_to(h, 60 as real * rounding::value(t))
    }
}

/// Whether hue, saturation and value are those of a colour, correctly rounded at each step
/// from the shares of its levels: the value is the share of the strongest level, the
/// saturation what lies between the outer shares over it, and the hue as said above.
pub open spec fn rounded_hsv(x: Hsv, c: Rgb) -> bool {
    let (r, g, b) = (Rgb::share(c.r), Rgb::share(c.g), Rgb::share(c.b));
    let hi = share_of(circle::largest(c), c, r, g, b);
    let lo = share_of(circle::smallest(c), c, r, g, b);
    &&& x.v == hi
    &&& circle::largest(c) == circle::smallest(c) ==> x.h == Single::of_int(0) && rounding::value(
        x.s,
    ) == 0 as real
    &&& circle::largest(c) != circle::smallest(c) ==> exists|d: Single| #[trigger]
        nearest_to(d, rounding::value(hi) - rounding::value(lo)) && nearest_to(
            x.s,
            rounding::value(d) / rounding::value(hi),
        ) && rounded_hue(x.h, c, r, g, b, d)
}

/// Hue, saturation and value of a colour are correctly rounded at each step.
pub proof fn law_hsv_rounds(c: Rgb)
    ensures
        rounded_hsv(c.hsv(), c),
{
    if circle::largest(c) == circle::smallest(c) {
        crate::color_laws::law_saturation(c);
        lemma_grey_hue(c);
        lemma_grey_rounds(c, c.hsv());
    } else {
        lemma_saturation_rounds(c);
        if c.r == circle::largest(c) {
            lemma_red_rounds(c);
        } else {
            lemma_not_red_rounds(c);
        }
        lemma_all_round(c, c.hsv());
    }
}

proof fn lemma_grey_rounds(c: Rgb, x: Hsv)
    requires
        circle::largest(c) == circle::smallest(c),
        x.h == Single::of_int(0),
        x.v == Rgb::share(c.r),
        rounding::value(x.s) == 0 as real,
    ensures
        rounded_hsv(x, c),
{
}

proof fn lemma_all_round(c: Rgb, x: Hsv)
    requires
        circle::smallest(c) < circle::largest(c),
        ({
            let (hi, lo) = (Rgb::share(circle::largest(c)), Rgb::share(circle::smallest(c)));
            let d = hi.difference(lo);
            &&& nearest_to(d, rounding::value(hi) - rounding::value(lo))
            &&& nearest_to(x.s, rounding::value(d) / rounding::value(hi))
            &&& x.v == hi
            &&& rounded_hue(x.h, c, Rgb::share(c.r), Rgb::share(c.g), Rgb::share(c.b), d)
        }),
    ensures
        rounded_hsv(x, c),
{
    let (hi, lo) = (Rgb::share(circle::largest(c)), Rgb::share(circle::smallest(c)));
    let d = hi.difference(lo);
    let (r, g, b) = (Rgb::share(c.r), Rgb::share(c.g), Rgb::share(c.b));
    assert(share_of(circle::largest(c), c, r, g, b) == hi);
    assert(share_of(circle::smallest(c), c, r, g, b) == lo);
    assert(nearest_to(d, rounding::value(hi) - rounding::value(lo)));
}

proof fn lemma_grey_hue(c: Rgb)
    requires
        circle::largest(c) == circle::smallest(c),
    ensures
        c.hsv().h == Single::of_int(0),
        c.hsv().v == Rgb::share(c.r),
{
    let r = Rgb::share(c.r);
    let d = r.difference(r);
    hue::lemma_share(c.r);
    rounding::lemma_int_rank(0);
    rounding::lemma_difference_odd(r, r);
    rounding::lemma_tiny_values();
    rounding::lemma_finite_sign(r);
    rounding::lemma_value_order(r, r);
    rounding::lemma_sum_value(r, r.negated(), -23);
    assert(d.equals(Single::of_int(0)));
}

proof fn lemma_saturation_rounds(c: Rgb)
    requires
        circle::smallest(c) < circle::largest(c),
    ensures
        ({
            let (hi, lo) = (Rgb::share(circle::largest(c)), Rgb::share(circle::smallest(c)));
            let d = hi.difference(lo);
            &&& nearest_to(d, rounding::value(hi) - rounding::value(lo))
            &&& nearest_to(c.hsv().s, rounding::value(d) / rounding::value(hi))
            &&& c.hsv().v == hi
        }),
{
    crate::color_laws::lemma_outer_shares(c);
    lemma_span(c);
    let (hi, lo) = (Rgb::share(circle::largest(c)), Rgb::share(circle::smallest(c)));
    law_difference(hi, lo);
    law_quotient(hi.difference(lo), hi);
}

proof fn lemma_not_red_rounds(c: Rgb)
    requires
        c.r < circle::largest(c),
    ensures
        ({
            let d = Rgb::share(circle::largest(c)).difference(Rgb::share(circle::smallest(c)));
            rounded_hue(
                c.hsv().h,
                c,
                Rgb::share(c.r),
                Rgb::share(c.g),
                Rgb::share(c.b),
                d,
            )
        }),
{
    crate::color_laws::lemma_outer_shares(c);
    if c.g == circle::largest(c) {
        lemma_other_rounds(c.b, c.r, circle::largest(c), circle::smallest(c), 2);
    } else {
        lemma_other_rounds(c.r, c.g, circle::largest(c), circle::smallest(c), 4);
    }
}

/// What lies between the outer shares of a colour that is no grey.
proof fn lemma_span(c: Rgb)
    requires
        circle::smallest(c) < circle::largest(c),
    ensures
        ({
            let (hi, lo) = (Rgb::share(circle::largest(c)), Rgb::share(circle::smallest(c)));
            let d = hi.difference(lo);
            &&& hi.is_finite() && lo.is_finite() && d.is_finite()
            &&& rounding::value(hi) > 0 as real
            &&& !hi.equals(Single::of_int(0))
            &&& d.quotient(hi).is_finite()
        }),
{
    let (hi, lo) = (Rgb::share(circle::largest(c)), Rgb::share(circle::smallest(c)));
    let d = hi.difference(lo);
    hue::lemma_share(circle::largest(c));
    hue::lemma_share(circle::smallest(c));
    hue::lemma_share_order(circle::smallest(c), circle::largest(c));
    rounding::lemma_tiny_values();
    rounding::lemma_int_value(0);
    rounding::lemma_int_rank(0);
    rounding::lemma_value_order(lo, hi);
    hue::lemma_ratio(lo, lo, hi, lo);
    rounding::lemma_value_order(Single::of_int(0), hi);
    hue::lemma_saturation(d, hi, rounding::value(d));
}

proof fn lemma_ratio_rounds(p: u8, q: u8, hi: u8, lo: u8)
    requires
        lo <= p <= hi,
        lo <= q <= hi,
        lo < hi,
    ensures
        ({
            let d = Rgb::share(hi).difference(Rgb::share(lo));
            let w = Rgb::share(p).difference(Rgb::share(q));
            &&& rounded_ratio(w.quotient(d), Rgb::share(p), Rgb::share(q), d)
            &&& w.quotient(d).is_finite()
            &&& -1 as real <= rounding::value(w.quotient(d)) <= 1 as real
        }),
{
    let (mx, mn) = (Rgb::share(hi), Rgb::share(lo));
    let (x, y) = (Rgb::share(p), Rgb::share(q));
    let d = mx.difference(mn);
    hue::lemma_share(p);
    hue::lemma_share(q);
    hue::lemma_share(hi);
    hue::lemma_share(lo);
    hue::lemma_share_order(lo, hi);
    hue::lemma_share_order(lo, p);
    hue::lemma_share_order(lo, q);
    hue::lemma_share_order(p, hi);
    hue::lemma_share_order(q, hi);
    rounding::lemma_tiny_values();
    hue::lemma_ratio(x, y, mx, mn);
    law_difference(x, y);
    law_quotient(x.difference(y), d);
    reveal(rounded_ratio);
}

proof fn lemma_other_rounds(p: u8, q: u8, hi: u8, lo: u8, base: int)
    requires
        lo <= p <= hi,
        lo <= q <= hi,
        lo < hi,
        base == 2 || base == 4,
    ensures
        ({
            let d = Rgb::share(hi).difference(Rgb::share(lo));
            let r = Rgb::share(p).difference(Rgb::share(q)).quotient(d);
            let t = r.sum(Single::of_int(base));
            let h = Single::of_int(60).product(t);
            &&& rounded_ratio(r, Rgb::share(p), Rgb::share(q), d)
            &&& nearest_to(t, rounding::value(r) + base as real)
            &&& nearest_to(h, 60 as real * rounding::value(t))
            &&& !h.below(Single::of_int(0))
        }),
{
    let d = Rgb::share(hi).difference(Rgb::share(lo));
    let r = Rgb::share(p).difference(Rgb::share(q)).quotient(d);
    let t = r.sum(Single::of_int(base));
    lemma_ratio_rounds(p, q, hi, lo);
    hue::lemma_other_hue(r, base);
    rounding::lemma_tiny_values();
    rounding::lemma_int_value(base);
    rounding::lemma_int_value(60);
    rounding::lemma_sum_value(r, Single::of_int(base), -20);
    law_sum(r, Single::of_int(base));
    law_product(Single::of_int(60), t);
}

proof fn lemma_red_rounds(c: Rgb)
    requires
        circle::smallest(c) < circle::largest(c),
        c.r == circle::largest(c),
    ensures
        ({
            let d = Rgb::share(circle::largest(c)).difference(Rgb::share(circle::smallest(c)));
            rounded_hue(
                c.hsv().h,
                c,
                Rgb::share(c.r),
                Rgb::share(c.g),
                Rgb::share(c.b),
                d,
            )
        }),
{
    let (hi, lo) = (circle::largest(c), circle::smallest(c));
    let d = Rgb::share(hi).difference(Rgb::share(lo));
    let q = Rgb::share(c.g).difference(Rgb::share(c.b)).quotient(d);
    let six = Single::of_int(6);
    let k = q.remainder(six);
    let sixty = Single::of_int(60);
    let p = sixty.product(k);
    let zero = Single::of_int(0);
    crate::color_laws::lemma_outer_shares(c);
    crate::color_laws::lemma_level_ratio(c.g, c.b, hi, lo);
    lemma_ratio_rounds(c.g, c.b, hi, lo);
    hue::lemma_red_hue(q);
    rounding::lemma_tiny_values();
    rounding::lemma_units_steps();
    rounding::lemma_int_value(0);
    rounding::lemma_int_rank(0);
    rounding::lemma_int_value(1);
    rounding::lemma_int_rank(1);
    rounding::lemma_int_value(-1);
    rounding::lemma_int_rank(-1);
    rounding::lemma_int_rank(6);
    rounding::lemma_int_value(60);
    rounding::lemma_int_value(360);
    rounding::lemma_value_order(q, Single::of_int(1));
    rounding::lemma_value_order(Single::of_int(-1), q);
    // nothing is taken away from a ratio of at most one
    rounding::lemma_remainder(q, six);
    if q.rank() >= 0 {
        vstd::arithmetic::div_mod::lemma_small_mod(q.rank() as nat, six.rank() as nat);
    } else {
        vstd::arithmetic::div_mod::lemma_small_mod((-q.rank()) as nat, six.rank() as nat);
    }
    assert(k.rank() == q.rank());
    assert(rounding::value(k) == rounding::value(q));
    law_product(sixty, k);
    assert(nearest_to(p, 60 as real * rounding::value(q)));
    rounding::lemma_value_order(p, zero);
    if p.below(zero) {
        law_sum(p, Single::of_int(360));
    }
    assert(rounded_ratio(q, Rgb::share(c.g), Rgb::share(c.b), d));
}

/// Numbers are ordered by their values; what is no number is in no order.
pub proof fn law_order(x: Single, y: Single)
    ensures
        x.is_nan() || y.is_nan() ==> !x.below(y) && !x.at_most(y) && !x.equals(y),
        !x.is_nan() && !y.is_nan() ==> {
            &&& x.below(y) <==> rounding::value(x) < rounding::value(y)
            &&& x.at_most(y) <==> rounding::value(x) <= rounding::value(y)
            &&& x.equals(y) <==> rounding::value(x) == rounding::value(y)
        },
{
    rounding::lemma_value_order(x, y);
    rounding::lemma_value_order(y, x);
}

/// The larger and the smaller of two numbers are these two, in their order; of a number and
/// what is none it is the number.
pub proof fn law_larger_and_smaller(x: Single, y: Single)
    ensures
        x.is_nan() ==> x.larger(y) == y && x.smaller(y) == y,
        !x.is_nan() && y.is_nan() ==> x.larger(y) == x && x.smaller(y) == x,
        !x.is_nan() && !y.is_nan() ==> {
            &&& x.larger(y) == x || x.larger(y) == y
            &&& x.smaller(y) == x || x.smaller(y) == y
            &&& rounding::value(x) <= rounding::value(x.larger(y))
            &&& rounding::value(y) <= rounding::value(x.larger(y))
            &&& rounding::value(x.smaller(y)) <= rounding::value(x)
            &&& rounding::value(x.smaller(y)) <= rounding::value(y)
        },
{
    rounding::lemma_value_order(x, y);
    rounding::lemma_value_order(y, x);
}

/// A number brought between two others is itself where it lies there, else the end that it
/// lies beyond.
pub proof fn law_within(x: Single, least: Single, most: Single)
    requires
        !x.is_nan(),
        !least.is_nan(),
        !most.is_nan(),
        rounding::value(least) <= rounding::value(most),
    ensures
        rounding::value(x) < rounding::value(least) ==> x.within(least, most) == least,
        rounding::value(x) > rounding::value(most) ==> x.within(least, most) == most,
        rounding::value(least) <= rounding::value(x) <= rounding::value(most) ==> x.within(
            least,
            most,
        ) == x,
{
    rounding::lemma_value_order(x, least);
    rounding::lemma_value_order(least, x);
    rounding::lemma_value_order(most, x);
    rounding::lemma_value_order(x, most);
    rounding::lemma_value_order(least, most);
}

/// The signs: a number with the other sign, and one without its sign.
pub proof fn law_signs(x: Single)
    requires
        x.is_finite(),
    ensures
        x.negated().is_finite(),
        x.magnitude().is_finite(),
        rounding::value(x.negated()) == -rounding::value(x),
        rounding::value(x.magnitude()) == hue::size(rounding::value(x)),
{
    rounding::lemma_finite_sign(x);
    rounding::lemma_value_order(x, x);
    circle::lemma_magnitude_value(x);
}

/// An integer is the whole part of a number, without what lies behind the point, brought
/// into a range around zero.
pub proof fn law_whole_part(x: Single, least: int, most: int)
    requires
        x.is_finite(),
        least <= 0 <= most,
    ensures
        ({
            let n = x.toward_zero(least, most) as real;
            let v = rounding::value(x);
            &&& least <= x.toward_zero(least, most) <= most
            &&& v >= 0 as real ==> 0 as real <= n <= v && (v < n + 1 as real || n == most as real)
            &&& v <= 0 as real ==> v <= n <= 0 as real && (v > n - 1 as real || n == least as real)
        }),
{
    rounding::lemma_finite_sign(x);
    rounding::lemma_rank_sign(x);
    rounding::lemma_negated_parts(x);
    rounding::lemma_value_order(x, x);
    rounding::lemma_int_value(0);
    rounding::lemma_int_rank(0);
    rounding::lemma_value_order(Single::of_int(0), x);
    rounding::lemma_value_order(x, Single::of_int(0));
    if x.rank() >= 0 {
        rounding::lemma_whole(x);
    }
    if x.rank() <= 0 {
        rounding::lemma_whole(x.negated());
    }
}

/// A half is written as the even one of its neighbours.
pub proof fn law_ties(sig: int, exp: int, unit: int)
    requires
        0 <= sig,
        0 < unit,
        exp < 0,
    ensures
        ({
            let p = pow2((-exp) as nat) as int;
            let n = Single::in_units(sig, exp, unit);
            rounding::apart(2 * n * p, 2 * (sig * unit)) == p ==> n % 2 == 0
        }),
{
    let p = pow2((-exp) as nat) as int;
    let m = sig * unit;
    lemma_pow2_pos((-exp) as nat);
    vstd::arithmetic::mul::lemma_mul_nonnegative(sig, unit);
    vstd::arithmetic::div_mod::lemma_fundamental_div_mod(m, p);
    vstd::arithmetic::div_mod::lemma_mod_bound(m, p);
    let (q, r) = (m / p, m % p);
    let n = Single::half_even(m, p);
    assert(2 * q * p == 2 * (p * q)) by (nonlinear_arith);
    assert(2 * (q + 1) * p == 2 * (p * q) + 2 * p) by (nonlinear_arith);
}

/// Whether `t` shows, to the nearest whole number, the number nearest to the hundredfold of
/// a share.
pub open spec fn shows_percent(t: Seq<char>, share: real) -> bool {
    exists|p: Single| #[trigger]
        nearest_to(p, 100 as real * share) && text_laws::shows_whole(
            t,
            rounding::value(p),
            1 as real / 2 as real,
        )
}

proof fn lemma_shows_percent(s: Single)
    requires
        s.is_finite(),
        0 as real <= rounding::value(s) <= 1 as real,
    ensures
        shows_percent(s.product(Single::of_int(100)).whole_figures(), rounding::value(s)),
{
    let hundred = Single::of_int(100);
    rounding::lemma_tiny_values();
    rounding::lemma_int_value(100);
    let v = rounding::value(s);
    assert(rounding::value(s) * rounding::value(hundred) == 100 as real * v);
    rounding::lemma_product_value(s, hundred, -16);
    law_product(s, hundred);
    text_laws::law_whole_figures(s.product(hundred));
}

/// The text of a colour in hue, saturation and value shows the hue and the hundredfolds of
/// the other two, each to the nearest whole number.
pub proof fn law_hsv_text_rounds(c: Rgb)
    ensures
        exists|h: Seq<char>, s: Seq<char>, v: Seq<char>|
            text_laws::shows_whole(h, rounding::value(c.hsv().h), 1 as real / 2 as real)
                && shows_percent(s, rounding::value(c.hsv().s)) && shows_percent(
                v,
                rounding::value(c.hsv().v),
            ) && render::hsv_text(c) == #[trigger] ("hsv("@ + h + ", "@ + s + "%, "@ + v) + "%)"@,
{
    laws::law_hsv_ranges(c);
    let x = c.hsv();
    circle::lemma_in_range(x);
    let hundred = Single::of_int(100);
    text_laws::law_whole_figures(x.h);
    lemma_shows_percent(x.s);
    lemma_shows_percent(x.v);
    let (h, s, v) = (
        x.h.whole_figures(),
        x.s.product(hundred).whole_figures(),
        x.v.product(hundred).whole_figures(),
    );
    assert(render::hsv_text(c) == ("hsv("@ + h + ", "@ + s + "%, "@ + v) + "%)"@);
}

} // verus!
