//! What luminance and contrast come to in exact numbers.
use vstd::prelude::*;
use vstd::arithmetic::power2::*;
use crate::color::Rgb;
use crate::contrast;
use crate::hue;
use crate::laws;
use crate::lightness;
use crate::rounding;
use crate::single::Single;

verus! {

/// The light of a level: up to ten its share of 255 over 12.92, above that its power.
pub open spec fn exact_light(level: u8, powers: Seq<Single>) -> real {
    if level <= 10 {
        level as real / 255 as real / (1292 as real / 100 as real)
    } else {
        rounding::value(powers[level as int])
    }
}

/// The light of a level is the exact one, within `2^-22`.
pub proof fn law_light(level: u8, powers: Seq<Single>)
    requires
        lightness::sound_powers(powers),
    ensures
        hue::within(
            rounding::value(contrast::light(level, powers)),
            exact_light(level, powers),
            1 as real / 0x400000 as real,
        ),
{
    lightness::lemma_lowest(level);
    lightness::lemma_light(level, powers);
    rounding::lemma_tiny_values();
    if level <= 10 {
        let share = Rgb::share(level);
        let z = Single::of_ratio(1292, 100);
        hue::lemma_share(level);
        lemma2_to64();
        lightness::lemma_ratio_between(1292, 100, 12, 13);
        lightness::lemma_ratio_side(1292, 100, 13547601, 20);
        lightness::lemma_ratio_side(1292, 100, 13547602, 20);
        let (a, y) = (rounding::value(share), rounding::value(z));
        let exact = level as real / 255 as real;
        let full = 1292 as real / 100 as real;
        let (q, r) = (a / y, exact / full);
        assert(q * y == a && r * full == exact) by (nonlinear_arith)
            requires
                q == a / y,
                r == exact / full,
                y >= 12 as real,
                full >= 12 as real,
        ;
        assert(0 as real <= r <= 1 as real);
        let g = full - y;
        let e = 1 as real / 0x100000 as real;
        assert(-e <= g <= e);
        assert(-e <= r * g <= e) by (nonlinear_arith)
            requires
                -e <= g <= e,
                0 as real <= r <= 1 as real,
                e > 0 as real,
        ;
        let d = q - r;
        assert(d * y == (a - exact) + r * g) by (nonlinear_arith)
            requires
                d == q - r,
                q * y == a,
                r * full == exact,
                g == full - y,
        ;
        let f = e + rounding::tiny(-23);
        assert(-f <= d * 12 as real <= f) by (nonlinear_arith)
            requires
                -f <= d * y <= f,
                y >= 12 as real,
                f > 0 as real,
        ;
        assert(0 as real <= q <= 1 as real) by (nonlinear_arith)
            requires
                q == a / y,
                0 as real <= a <= 1 as real,
                y >= 12 as real,
        ;
        rounding::lemma_quotient_value(share, z, -23);
    }
}

/// A weight, in ten-thousandths, is the exact one, within `2^-24`.
proof fn lemma_exact_weights()
    ensures
        hue::within(
            rounding::value(Single::of_ratio(2126, 10000)),
            2126 as real / 10000 as real,
            1 as real / 0x1000000 as real,
        ),
        hue::within(
            rounding::value(Single::of_ratio(7152, 10000)),
            7152 as real / 10000 as real,
            1 as real / 0x1000000 as real,
        ),
        hue::within(
            rounding::value(Single::of_ratio(722, 10000)),
            722 as real / 10000 as real,
            1 as real / 0x1000000 as real,
        ),
{
    lemma2_to64();
    lightness::lemma_ratio_side(2126, 10000, 3566836, 24);
    lightness::lemma_ratio_side(2126, 10000, 3566837, 24);
    lightness::lemma_ratio_side(7152, 10000, 11999064, 24);
    lightness::lemma_ratio_side(7152, 10000, 11999065, 24);
    lightness::lemma_ratio_side(722, 10000, 1211314, 24);
    lightness::lemma_ratio_side(722, 10000, 1211315, 24);
}

proof fn lemma_exact_part(weight: int, level: u8, powers: Seq<Single>)
    requires
        lightness::sound_powers(powers),
        0 <= weight <= 10000,
        hue::within(
            rounding::value(Single::of_ratio(weight, 10000)),
            weight as real / 10000 as real,
            1 as real / 0x1000000 as real,
        ),
    ensures
        hue::within(
            lightness::weighted(weight, level, powers),
            weight as real / 10000 as real * exact_light(level, powers),
            5 as real / 0x1000000 as real,
        ),
{
    law_light(level, powers);
    lightness::lemma_light(level, powers);
    let w = rounding::value(Single::of_ratio(weight, 10000));
    let x = rounding::value(contrast::light(level, powers));
    let (v, y) = (weight as real / 10000 as real, exact_light(level, powers));
    let e = 1 as real / 0x1000000 as real;
    let (d, g) = (w - v, x - y);
    assert(0 as real <= v <= 1 as real);
    assert(-e <= d * x <= e) by (nonlinear_arith)
        requires
            -e <= d <= e,
            0 as real <= x <= 1 as real,
            e > 0 as real,
    ;
    assert(-(4 as real) * e <= v * g <= 4 as real * e) by (nonlinear_arith)
        requires
            -(4 as real) * e <= g <= 4 as real * e,
            0 as real <= v <= 1 as real,
            e > 0 as real,
    ;
    assert(w * x - v * y == d * x + v * g) by (nonlinear_arith)
        requires
            d == w - v,
            g == x - y,
    ;
}

/// The luminance of a colour is the sum of the lights of its levels, weighted by 0.2126,
/// 0.7152 and 0.0722, within `2^-18`.
pub proof fn law_luminance(c: Rgb, powers: Seq<Single>)
    requires
        lightness::sound_powers(powers),
    ensures
        hue::within(
            rounding::value(c.brightness(powers)),
            2126 as real / 10000 as real * exact_light(c.r, powers) + 7152 as real / 10000 as real
                * exact_light(c.g, powers) + 722 as real / 10000 as real * exact_light(
                c.b,
                powers,
            ),
            1 as real / 0x40000 as real,
        ),
{
    lightness::lemma_brightness(c, powers);
    lemma_exact_weights();
    lemma_exact_part(2126, c.r, powers);
    lemma_exact_part(7152, c.g, powers);
    lemma_exact_part(722, c.b, powers);
    rounding::lemma_tiny_values();
}

/// The number to raise to the power 2.4 is the share of 255, raised by 0.055, over 1.055,
/// within `2^-20`.
pub proof fn law_power_base(level: u8)
    ensures
        contrast::base_of_power(level).is_finite(),
        hue::within(
            rounding::value(contrast::base_of_power(level)),
            (level as real / 255 as real + 55 as real / 1000 as real) / (1055 as real
                / 1000 as real),
            1 as real / 0x100000 as real,
        ),
{
    let share = Rgb::share(level);
    let (p, q) = (Single::of_ratio(55, 1000), Single::of_ratio(1055, 1000));
    hue::lemma_share(level);
    rounding::lemma_tiny_values();
    lemma2_to64();
    lightness::lemma_ratio_between(55, 1000, 0, 1);
    lightness::lemma_ratio_between(1055, 1000, 1, 2);
    lightness::lemma_ratio_side(55, 1000, 14763950, 28);
    lightness::lemma_ratio_side(55, 1000, 14763951, 28);
    lightness::lemma_ratio_side(1055, 1000, 8849981, 23);
    lightness::lemma_ratio_side(1055, 1000, 8849982, 23);
    assert(rounding::value(p) * 0x1000_0000 as real >= 14763950 as real);
    assert(rounding::value(p) * 0x1000_0000 as real <= 14763951 as real);
    assert(rounding::value(q) * 0x80_0000 as real >= 8849981 as real);
    assert(rounding::value(q) * 0x80_0000 as real <= 8849982 as real);
    let x = share.sum(p);
    rounding::lemma_sum_value(share, p, -22);
    rounding::lemma_sum_side(share, p, share);
    let (a, y) = (rounding::value(x), rounding::value(q));
    let exact = level as real / 255 as real + 55 as real / 1000 as real;
    let full = 1055 as real / 1000 as real;
    let (s, r) = (a / y, exact / full);
    let e = 1 as real / 0x800000 as real;
    assert(s * y == a && r * full == exact) by (nonlinear_arith)
        requires
            s == a / y,
            r == exact / full,
            y >= 1 as real,
            full >= 1 as real,
    ;
    assert(0 as real <= r <= 2 as real);
    let g = full - y;
    assert(-e <= g <= e);
    assert(-(2 as real) * e <= r * g <= 2 as real * e) by (nonlinear_arith)
        requires
            -e <= g <= e,
            0 as real <= r <= 2 as real,
            e > 0 as real,
    ;
    let d = s - r;
    assert(d * y == (a - exact) + r * g) by (nonlinear_arith)
        requires
            d == s - r,
            s * y == a,
            r * full == exact,
            g == full - y,
    ;
    let f = 6 as real * e;
    assert(-f <= d <= f) by (nonlinear_arith)
        requires
            -f <= d * y <= f,
            y >= 1 as real,
            f > 0 as real,
    ;
    assert(0 as real <= s <= 2 as real) by (nonlinear_arith)
        requires
            s == a / y,
            0 as real <= a <= 2 as real,
            y >= 1 as real,
    ;
    rounding::lemma_quotient_value(x, q, -22);
}

/// The label of a contrast ratio goes by the thresholds 7, 4.5 and 3; what is no number has
/// the lowest one.
pub proof fn law_labels(ratio: Single)
    ensures
        ratio.is_nan() ==> contrast::grade(ratio) == ("✗ low"@, "✗"@),
        !ratio.is_nan() && rounding::value(ratio) >= 7 as real ==> contrast::grade(ratio) == (
            "AAA"@,
            "✓"@,
        ),
        !ratio.is_nan() && rounding::value(ratio) < 7 as real && rounding::value(ratio) * 2 as real
            >= 9 as real ==> contrast::grade(ratio) == ("AA"@, "✓"@),
        !ratio.is_nan() && 9 as real > rounding::value(ratio) * (2 as real) && rounding::value(ratio)
            >= 3 as real ==> contrast::grade(ratio) == ("AA·"@, "·"@),
        !ratio.is_nan() && rounding::value(ratio) < 3 as real ==> contrast::grade(ratio) == (
            "✗ low"@,
            "✗"@,
        ),
{
    let half = Single::of_ratio(9, 2);
    lemma2_to64();
    rounding::lemma_int_value(7);
    rounding::lemma_int_value(3);
    lightness::lemma_ratio_between(9, 2, 4, 5);
    lightness::lemma_ratio_side(9, 2, 9, 1);
    rounding::lemma_value_order(Single::of_int(7), ratio);
    rounding::lemma_value_order(half, ratio);
    rounding::lemma_value_order(Single::of_int(3), ratio);
}

/// A quotient of at least one is the exact one, within a share of `2^-22`.
proof fn lemma_quotient_share(x: Single, y: Single)
    requires
        x.is_finite(),
        y.is_finite(),
        rounding::value(y) > 0 as real,
        1 as real <= rounding::value(x) / rounding::value(y) <= 32 as real,
    ensures
        x.quotient(y).is_finite(),
        hue::within(
            rounding::value(x.quotient(y)),
            rounding::value(x) / rounding::value(y),
            rounding::value(x) / rounding::value(y) / 0x400000 as real,
        ),
{
    rounding::lemma_tiny_values();
    let r = rounding::value(x) / rounding::value(y);
    if r <= 2 as real {
        rounding::lemma_quotient_value(x, y, -22);
    } else if r <= 4 as real {
        rounding::lemma_quotient_value(x, y, -21);
    } else if r <= 8 as real {
        rounding::lemma_quotient_value(x, y, -20);
    } else if r <= 16 as real {
        rounding::lemma_quotient_value(x, y, -19);
    } else {
        rounding::lemma_quotient_value(x, y, -18);
    }
}

/// The luminance of a colour, raised by a twentieth, is the exact sum, within `2^-21`.
pub proof fn lemma_raised_value(c: Rgb, powers: Seq<Single>)
    requires
        lightness::sound_powers(powers),
    ensures
        ({
            let l = c.brightness(powers).sum(Single::of_ratio(5, 100));
            let exact = rounding::value(c.brightness(powers)) + 1 as real / 20 as real;
            &&& l.is_finite()
            &&& rounding::value(l) >= 1 as real / 32 as real
            &&& rounding::value(l) <= 11 as real / 10 as real
            &&& rounding::value(c.brightness(powers)) >= 0 as real
            &&& hue::within(rounding::value(l), exact, 1 as real / 0x200000 as real)
        }),
{
    lightness::lemma_raised(c, powers);
    lightness::lemma_twentieth();
    lightness::lemma_brightness(c, powers);
    lightness::lemma_ratio_between(5, 100, 0, 1);
    rounding::lemma_tiny_values();
    rounding::lemma_sum_value(c.brightness(powers), Single::of_ratio(5, 100), -22);
}

/// The contrast of two colours, the first at least as bright: the quotient of their raised
/// luminances, larger over smaller.
pub proof fn lemma_contrast_quotient(a: Rgb, b: Rgb, powers: Seq<Single>)
    requires
        lightness::sound_powers(powers),
        b.brightness(powers).rank() <= a.brightness(powers).rank(),
    ensures
        ({
            let la = a.brightness(powers).sum(Single::of_ratio(5, 100));
            let lb = b.brightness(powers).sum(Single::of_ratio(5, 100));
            &&& rounding::value(lb) <= rounding::value(la)
            &&& contrast::contrast(a, b, powers) == la.quotient(lb)
        }),
{
    let twentieth = Single::of_ratio(5, 100);
    let (x, y) = (a.brightness(powers), b.brightness(powers));
    let (la, lb) = (x.sum(twentieth), y.sum(twentieth));
    lightness::lemma_brightness(a, powers);
    lightness::lemma_brightness(b, powers);
    lightness::lemma_ratio_between(5, 100, 0, 1);
    rounding::lemma_sum_monotone(y, twentieth, x, twentieth);
    rounding::lemma_value_order(lb, la);
    lemma_raised_value(a, powers);
    lemma_raised_value(b, powers);
    rounding::lemma_int_value(0);
    rounding::lemma_int_rank(0);
    rounding::lemma_value_order(Single::of_int(0), lb);
    if !lb.below(la) {
        rounding::lemma_equal_rank(la, lb);
    }
}

/// The contrast of two colours is the larger luminance over the smaller one, both raised by
/// a twentieth, within a share of `2^-14` of it.
pub proof fn law_contrast(a: Rgb, b: Rgb, powers: Seq<Single>)
    requires
        lightness::sound_powers(powers),
    ensures
        ({
            let (x, y) = (
                rounding::value(a.brightness(powers)),
                rounding::value(b.brightness(powers)),
            );
            let twentieth = 1 as real / 20 as real;
            let exact = if x >= y {
                (x + twentieth) / (y + twentieth)
            } else {
                (y + twentieth) / (x + twentieth)
            };
            &&& contrast::contrast(a, b, powers).is_finite()
            &&& hue::within(
                rounding::value(contrast::contrast(a, b, powers)),
                exact,
                exact / 0x4000 as real,
            )
        }),
{
    let (x, y) = (a.brightness(powers), b.brightness(powers));
    rounding::lemma_value_order(x, y);
    rounding::lemma_value_order(y, x);
    if rounding::value(x) >= rounding::value(y) {
        lemma_contrast_value(a, b, powers);
    } else {
        laws::law_contrast_is_symmetric(a, b, powers);
        lemma_contrast_value(b, a, powers);
    }
}

/// The contrast of two colours, the first at least as bright, as a value.
pub proof fn lemma_contrast_value(a: Rgb, b: Rgb, powers: Seq<Single>)
    requires
        lightness::sound_powers(powers),
        b.brightness(powers).rank() <= a.brightness(powers).rank(),
    ensures
        ({
            let (x, y) = (
                rounding::value(a.brightness(powers)),
                rounding::value(b.brightness(powers)),
            );
            let exact = (x + 1 as real / 20 as real) / (y + 1 as real / 20 as real);
            &&& contrast::contrast(a, b, powers).is_finite()
            &&& hue::within(
                rounding::value(contrast::contrast(a, b, powers)),
                exact,
                exact / 0x4000 as real,
            )
        }),
{
    let twentieth = Single::of_ratio(5, 100);
    let (la, lb) = (a.brightness(powers).sum(twentieth), b.brightness(powers).sum(twentieth));
    lemma_raised_value(a, powers);
    lemma_raised_value(b, powers);
    lemma_contrast_quotient(a, b, powers);
    let (p, q) = (rounding::value(la), rounding::value(lb));
    let (x, y) = (
        rounding::value(a.brightness(powers)) + 1 as real / 20 as real,
        rounding::value(b.brightness(powers)) + 1 as real / 20 as real,
    );
    let r = p / q;
    assert(r * q == p && 1 as real <= r && r <= 36 as real) by (nonlinear_arith)
        requires
            r == p / q,
            q >= 1 as real / 32 as real,
            q <= p,
            p <= 11 as real / 10 as real,
    ;
    assert(q >= 1 as real / 21 as real);
    assert(r <= 32 as real) by (nonlinear_arith)
        requires
            r * q == p,
            q >= 1 as real / 21 as real,
            p <= 11 as real / 10 as real,
    ;
    lemma_quotient_share(la, lb);
    let exact = x / y;
    let e = 1 as real / 0x200000 as real;
    assert(exact * y == x && exact >= 0 as real) by (nonlinear_arith)
        requires
            exact == x / y,
            x >= 1 as real / 20 as real,
            y >= 1 as real / 20 as real,
    ;
    // r - exact, over y: (p - x) - r * (q - y)
    let (dp, dq) = (p - x, q - y);
    let d = r - exact;
    assert(d * y == dp - r * dq) by (nonlinear_arith)
        requires
            d == r - exact,
            dp == p - x,
            dq == q - y,
            r * q == p,
            exact * y == x,
    ;
    assert(-(r * e) <= r * dq <= r * e) by (nonlinear_arith)
        requires
            -e <= dq <= e,
            r >= 1 as real,
            e > 0 as real,
    ;
    assert(e <= r * e) by (nonlinear_arith)
        requires
            r >= 1 as real,
            e > 0 as real,
    ;
    assert(-(40 as real * (r * e)) <= d <= 40 as real * (r * e)) by (nonlinear_arith)
        requires
            -(2 as real * (r * e)) <= d * y <= 2 as real * (r * e),
            y >= 1 as real / 20 as real,
            r * e >= 0 as real,
    ;
    let c = rounding::value(la.quotient(lb));
    assert(hue::within(c, r, r / 0x400000 as real));
}

/// For rising powers two colours, one with no level lower and one higher, have a contrast
/// above one.
pub proof fn law_contrast_above_one(a: Rgb, b: Rgb, powers: Seq<Single>)
    requires
        lightness::rising_powers(powers),
        a.r <= b.r,
        a.g <= b.g,
        a.b <= b.b,
        a.r < b.r || a.g < b.g || a.b < b.b,
    ensures
        Single::of_int(1).below(contrast::contrast(a, b, powers)),
{
    lemma_raised_gap(a, b, powers);
    laws::law_contrast_is_symmetric(a, b, powers);
    lemma_raised_value(a, powers);
    lemma_raised_value(b, powers);
    lemma_contrast_quotient(b, a, powers);
    let twentieth = Single::of_ratio(5, 100);
    let (la, lb) = (a.brightness(powers).sum(twentieth), b.brightness(powers).sum(twentieth));
    let (p, q) = (rounding::value(la), rounding::value(lb));
    let r = q / p;
    let g = 1 as real / 0x100000 as real;
    assert(r * p == q && 1 as real + g * 10 as real / 11 as real <= r <= 36 as real)
        by (nonlinear_arith)
        requires
            r == q / p,
            1 as real / 32 as real <= p <= 11 as real / 10 as real,
            p + g <= q,
            q <= 11 as real / 10 as real,
            g > 0 as real,
    {
        assert(r * p == q);
        assert((1 as real + g * 10 as real / 11 as real) * p <= p + g);
    }
    assert(p >= 1 as real / 21 as real);
    assert(r <= 32 as real) by (nonlinear_arith)
        requires
            r * p == q,
            p >= 1 as real / 21 as real,
            q <= 11 as real / 10 as real,
    ;
    lemma_quotient_share(lb, la);
    rounding::lemma_int_value(1);
    rounding::lemma_value_order(Single::of_int(1), lb.quotient(la));
}

/// The raised luminances of two such colours are at least `2^-20` apart.
proof fn lemma_raised_gap(a: Rgb, b: Rgb, powers: Seq<Single>)
    requires
        lightness::rising_powers(powers),
        a.r <= b.r,
        a.g <= b.g,
        a.b <= b.b,
        a.r < b.r || a.g < b.g || a.b < b.b,
    ensures
        a.brightness(powers).rank() <= b.brightness(powers).rank(),
        rounding::value(a.brightness(powers).sum(Single::of_ratio(5, 100))) + 1 as real
            / 0x100000 as real <= rounding::value(
            b.brightness(powers).sum(Single::of_ratio(5, 100)),
        ),
{
    lightness::lemma_brightness_rises(a, b, powers);
    lightness::lemma_brightness(a, powers);
    lightness::lemma_brightness(b, powers);
    lightness::lemma_weights();
    lightness::lemma_weighted_rises(2126, a.r, b.r, powers);
    lightness::lemma_weighted_rises(7152, a.g, b.g, powers);
    lightness::lemma_weighted_rises(722, a.b, b.b, powers);
    lightness::lemma_ratio_between(5, 100, 0, 1);
    lightness::lemma_twentieth();
    rounding::lemma_tiny_values();
    rounding::lemma_sum_value(a.brightness(powers), Single::of_ratio(5, 100), -22);
    rounding::lemma_sum_value(b.brightness(powers), Single::of_ratio(5, 100), -22);
}

/// For rising powers the contrast against a fixed colour rises with a lighter one: `d` has
/// no level above that of `a`, `a` none above that of `b` and one below.
pub proof fn law_contrast_rises(d: Rgb, a: Rgb, b: Rgb, powers: Seq<Single>)
    requires
        lightness::rising_powers(powers),
        d.r <= a.r <= b.r,
        d.g <= a.g <= b.g,
        d.b <= a.b <= b.b,
        a.r < b.r || a.g < b.g || a.b < b.b,
    ensures
        contrast::contrast(d, a, powers).below(contrast::contrast(d, b, powers)),
{
    if d != a {
        lemma_raised_gap(d, a, powers);
    }
    lemma_raised_gap(d, b, powers);
    lemma_raised_gap(a, b, powers);
    laws::law_contrast_is_symmetric(d, a, powers);
    laws::law_contrast_is_symmetric(d, b, powers);
    lemma_raised_value(d, powers);
    lemma_raised_value(a, powers);
    lemma_raised_value(b, powers);
    lemma_contrast_quotient(a, d, powers);
    lemma_contrast_quotient(b, d, powers);
    let twentieth = Single::of_ratio(5, 100);
    lemma_quotients_rise(
        d.brightness(powers).sum(twentieth),
        a.brightness(powers).sum(twentieth),
        b.brightness(powers).sum(twentieth),
    );
}

/// Quotients by one divisor rise where the dividends are far enough apart.
proof fn lemma_quotients_rise(ld: Single, la: Single, lb: Single)
    requires
        ld.is_finite(),
        la.is_finite(),
        lb.is_finite(),
        rounding::value(ld) >= 1 as real / 21 as real,
        rounding::value(ld) <= rounding::value(la),
        rounding::value(la) + 1 as real / 0x100000 as real <= rounding::value(lb),
        rounding::value(lb) <= 11 as real / 10 as real,
    ensures
        la.quotient(ld).below(lb.quotient(ld)),
{
    let (s, p, q) = (rounding::value(ld), rounding::value(la), rounding::value(lb));
    let (x, y) = (p / s, q / s);
    let g = 1 as real / 0x100000 as real;
    lemma_ratio_bounds(p, s);
    lemma_ratio_bounds(q, s);
    let w = g * 10 as real / 11 as real;
    let z = w * q;
    assert(z <= g) by (nonlinear_arith)
        requires
            z == w * q,
            w == g * 10 as real / 11 as real,
            q <= 11 as real / 10 as real,
            g > 0 as real,
    ;
    assert((x + w * y) * s == p + z) by (nonlinear_arith)
        requires
            x * s == p,
            y * s == q,
            z == w * q,
    ;
    let v = x + w * y;
    assert(v <= y) by (nonlinear_arith)
        requires
            v * s <= y * s,
            s > 0 as real,
    ;
    assert(w * y >= y / 0x200000 as real) by (nonlinear_arith)
        requires
            w >= 1 as real / 0x200000 as real,
            y >= 0 as real,
    ;
    lemma_quotient_share(la, ld);
    lemma_quotient_share(lb, ld);
    rounding::lemma_value_order(la.quotient(ld), lb.quotient(ld));
}

proof fn lemma_ratio_bounds(p: real, s: real)
    requires
        s >= 1 as real / 21 as real,
        s <= p,
        p <= 11 as real / 10 as real,
    ensures
        (p / s) * s == p,
        1 as real <= p / s <= 32 as real,
{
    let r = p / s;
    assert(r * s == p) by (nonlinear_arith)
        requires
            r == p / s,
            s > 0 as real,
    ;
    assert(1 as real <= r <= 32 as real) by (nonlinear_arith)
        requires
            r * s == p,
            s >= 1 as real / 21 as real,
            s <= p,
            p <= 11 as real / 10 as real,
    ;
}

} // verus!
