//! What steps and conversions of colours come to in exact numbers.
use vstd::prelude::*;
use vstd::arithmetic::power2::*;
use crate::app;
use crate::app::Channel;
use crate::circle;
use crate::color::{Hsv, Rgb};
use crate::hue;
use crate::laws;
use crate::rounding;
use crate::single::Single;

verus! {

/// A saturation or a value moved by `delta` hundredths is the exact sum, cut to the range
/// from zero to one, within `2^-20`.
pub proof fn law_share_step(s: Single, delta: i32)
    requires
        s.is_finite(),
        0 as real <= rounding::value(s) <= 1 as real,
    ensures
        app::moved_share(s, delta as int).is_finite(),
        hue::within(
            rounding::value(app::moved_share(s, delta as int)),
            hue::unit(rounding::value(s) + delta as real / 100 as real),
            1 as real / 0x100000 as real,
        ),
        0 as real <= rounding::value(app::moved_share(s, delta as int)) <= 1 as real,
{
    let d = Single::of_int(delta as int);
    let hundred = Single::of_int(100);
    let q = d.quotient(hundred);
    let t = s.sum(q);
    let (zero, one) = (Single::of_int(0), Single::of_int(1));
    rounding::lemma_tiny_values();
    rounding::lemma_int_value(0);
    rounding::lemma_int_value(1);
    rounding::lemma_int_value(2);
    rounding::lemma_int_value(-1);
    rounding::lemma_int_value(-2);
    rounding::lemma_int_value(100);
    laws::lemma_int_share(delta, 100);
    let z = rounding::exact_sum(s, q);
    rounding::lemma_large_int(delta);
    if -200 <= delta <= 200 {
        rounding::lemma_int_value(delta as int);
        assert(-2 as real <= delta as real / 100 as real <= 2 as real);
        rounding::lemma_quotient_value(d, hundred, -22);
        rounding::lemma_sum_value(s, q, -21);
    } else {
        // far beyond an end
        rounding::lemma_int_value(200);
        rounding::lemma_int_value(-200);
        if delta > 200 {
            rounding::lemma_int_order(200, delta as int);
            rounding::lemma_value_order(Single::of_int(200), d);
            rounding::lemma_quotient_side(d, hundred, Single::of_int(2));
            rounding::lemma_sum_side(s, q, Single::of_int(2));
            assert(delta as real >= 200 as real);
        } else {
            rounding::lemma_int_order(delta as int, -200);
            rounding::lemma_value_order(d, Single::of_int(-200));
            rounding::lemma_quotient_side(d, hundred, Single::of_int(-2));
            rounding::lemma_sum_side(s, q, Single::of_int(-1));
            assert(delta as real <= -200 as real);
        }
    }
    rounding::lemma_value_order(t, zero);
    rounding::lemma_value_order(zero, t);
    rounding::lemma_value_order(one, t);
    rounding::lemma_value_order(t, one);
    rounding::lemma_int_rank(0);
    rounding::lemma_int_rank(1);
    rounding::lemma_units_steps();
    if zero.rank() <= t.rank() <= one.rank() {
        rounding::lemma_small_is_finite(t);
    }
}

/// A colour's levels follow from its hue, saturation and value by the hexagon of hues: each
/// lies within little more than a half of the exact level.
pub proof fn law_levels(x: Hsv)
    requires
        circle::in_range(x),
    ensures
        circle::levels_of(
            x.rgb(),
            rounding::value(x.h),
            rounding::value(x.s),
            rounding::value(x.v),
        ),
{
    circle::lemma_levels_of(x);
}

/// A step in saturation moves the saturation alone, by the whole step: the new levels are
/// those of the old hue, the old value, and a saturation that is the sum, cut to its range.
pub proof fn law_saturation_step(c: Rgb, delta: i32)
    ensures
        exists|s: real|
            hue::within(
                s,
                hue::unit(rounding::value(c.hsv().s) + delta as real / 100 as real),
                1 as real / 0x100000 as real,
            ) && #[trigger] circle::levels_of(
                app::moved(c, Channel::S, delta as int),
                rounding::value(c.hsv().h),
                s,
                rounding::value(c.hsv().v),
            ),
{
    laws::law_hsv_ranges(c);
    laws::law_stepped_ranges(c, delta);
    let x = c.hsv();
    circle::lemma_in_range(x);
    law_share_step(x.s, delta);
    let y = Hsv { s: app::moved_share(x.s, delta as int), ..x };
    circle::lemma_levels_of(y);
    assert(circle::levels_of(
        app::moved(c, Channel::S, delta as int),
        rounding::value(x.h),
        rounding::value(y.s),
        rounding::value(x.v),
    ));
}

/// A step in value moves the value alone, by the whole step.
pub proof fn law_value_step(c: Rgb, delta: i32)
    ensures
        exists|v: real|
            hue::within(
                v,
                hue::unit(rounding::value(c.hsv().v) + delta as real / 100 as real),
                1 as real / 0x100000 as real,
            ) && #[trigger] circle::levels_of(
                app::moved(c, Channel::V, delta as int),
                rounding::value(c.hsv().h),
                rounding::value(c.hsv().s),
                v,
            ),
{
    laws::law_hsv_ranges(c);
    laws::law_stepped_ranges(c, delta);
    let x = c.hsv();
    circle::lemma_in_range(x);
    law_share_step(x.v, delta);
    let y = Hsv { v: app::moved_share(x.v, delta as int), ..x };
    circle::lemma_levels_of(y);
    assert(circle::levels_of(
        app::moved(c, Channel::V, delta as int),
        rounding::value(x.h),
        rounding::value(x.s),
        rounding::value(y.v),
    ));
}

/// `n` cut to the range of a level.
pub open spec fn cut_level(n: real) -> real {
    if n < 0 as real {
        0 as real
    } else if n > 255 as real {
        255 as real
    } else {
        n
    }
}

/// A step in value moves a grey of level `n` to a grey within one of `n + 2.55 * delta`, cut
/// to the range of a level.
pub proof fn law_grey_value_step(n: u8, delta: i32)
    ensures
        ({
            let d = app::moved(Rgb { r: n, g: n, b: n }, Channel::V, delta as int);
            &&& d.r == d.g && d.g == d.b
            &&& hue::within(
                d.r as real,
                cut_level(n as real + 255 as real * delta as real / 100 as real),
                1 as real,
            )
        }),
{
    let c = Rgb { r: n, g: n, b: n };
    let x = c.hsv();
    law_saturation(c);
    law_value(c);
    laws::law_hsv_ranges(c);
    laws::law_stepped_ranges(c, delta);
    circle::lemma_in_range(x);
    law_share_step(x.v, delta);
    let y = Hsv { v: app::moved_share(x.v, delta as int), ..x };
    circle::lemma_levels_of(y);
    circle::lemma_grey(y);
    let (s, v) = (rounding::value(y.s), rounding::value(y.v));
    let part = hue::red_part(rounding::value(y.h) / 60 as real);
    assert(v * (1 as real - s + s * part) == v) by (nonlinear_arith)
        requires
            s == 0 as real,
    ;
    let (a, b) = (rounding::value(x.v), n as real / 255 as real);
    let step = delta as real / 100 as real;
    assert(255 as real * (b + step) == n as real + 255 as real * delta as real / 100 as real);
    assert(hue::within(
        255 as real * hue::unit(a + step),
        cut_level(n as real + 255 as real * delta as real / 100 as real),
        1 as real / 1000 as real,
    ));
}

/// The value of a colour is its strongest level as a share of 255, within `2^-23`.
pub proof fn law_value(c: Rgb)
    ensures
        hue::within(
            rounding::value(c.hsv().v),
            circle::largest(c) as real / 255 as real,
            1 as real / 0x800000 as real,
        ),
{
    let (r, g, b) = (Rgb::share(c.r), Rgb::share(c.g), Rgb::share(c.b));
    hue::lemma_share(c.r);
    hue::lemma_share(c.g);
    hue::lemma_share(c.b);
    hue::lemma_share_order(c.r, c.g);
    hue::lemma_share_order(c.g, c.b);
    hue::lemma_share_order(c.r, c.b);
    rounding::lemma_tiny_values();
}

/// The saturation of a colour is what lies between its strongest and its weakest level, as a
/// share of the strongest, within `2^-12`; exactly nothing for a grey.
#[verifier::rlimit(40)]
pub proof fn law_saturation(c: Rgb)
    ensures
        circle::largest(c) == circle::smallest(c) ==> rounding::value(c.hsv().s) == 0 as real,
        circle::largest(c) > 0 ==> hue::within(
            rounding::value(c.hsv().s),
            (circle::largest(c) - circle::smallest(c)) as real / circle::largest(c) as real,
            1 as real / 0x1000 as real,
        ),
{
    let (r, g, b) = (Rgb::share(c.r), Rgb::share(c.g), Rgb::share(c.b));
    hue::lemma_share(c.r);
    hue::lemma_share(c.g);
    hue::lemma_share(c.b);
    hue::lemma_share_order(c.r, c.g);
    hue::lemma_share_order(c.g, c.b);
    hue::lemma_share_order(c.r, c.b);
    rounding::lemma_tiny_values();
    rounding::lemma_int_value(0);
    rounding::lemma_int_rank(0);
    let zero = Single::of_int(0);
    let mx = r.larger(g).larger(b);
    let mn = r.smaller(g).smaller(b);
    let d = mx.difference(mn);
    let (hi, lo) = (circle::largest(c) as int, circle::smallest(c) as int);
    assert(mx == Rgb::share(hi as u8));
    assert(mn == Rgb::share(lo as u8));
    hue::lemma_share(hi as u8);
    hue::lemma_share(lo as u8);
    rounding::lemma_value_order(mx, zero);
    rounding::lemma_value_order(zero, mx);
    rounding::lemma_finite_sign(mn);
    rounding::lemma_value_order(mn, mx);
    rounding::lemma_value_order(mn, mn);
    let (p, q) = (rounding::value(mx), rounding::value(mn));
    rounding::lemma_sum_value(mx, mn.negated(), -23);
    rounding::lemma_sum_side(mx, mn.negated(), zero);
    rounding::lemma_sum_side(mx, mn.negated(), mx);
    if hi == lo {
        rounding::lemma_difference_odd(mx, mn);
        rounding::lemma_value_order(d, zero);
        rounding::lemma_value_order(zero, d);
        if p > 0 as real {
            assert((0 as real) / p == 0 as real) by (nonlinear_arith)
                requires
                    p > 0 as real,
            ;
            rounding::lemma_quotient_side(d, mx, zero);
        }
    }
    if hi > 0 {
        hue::lemma_share_order(0, hi as u8);
        hue::lemma_share(0);
        hue::lemma_saturation(d, mx, p - q);
        let s = rounding::value(d.quotient(mx));
        let (x, y) = (hi as real, lo as real);
        let e = rounding::tiny(-23);
        let w = x / 255 as real;
        // s * p is close to (x - y) / 255, and p to x / 255
        assert(-(e) <= s * (w - p) <= e) by (nonlinear_arith)
            requires
                -e <= w - p <= e,
                0 as real <= s <= 1 as real,
                e > 0 as real,
        ;
        assert(s * (w - p) == s * w - s * p) by (nonlinear_arith);
        let ratio = (hi - lo) as real / x;
        assert(ratio * w == (x - y) / 255 as real) by (nonlinear_arith)
            requires
                ratio == (x - y) / x,
                w == x / 255 as real,
                x >= 1 as real,
        ;
        let f = 5 as real * e;
        assert(hue::within(s * w, ratio * w, f));
        let diff = s - ratio;
        assert(s * w - ratio * w == diff * w) by (nonlinear_arith)
            requires
                diff == s - ratio,
        ;
        assert(-(255 as real * f) <= diff <= 255 as real * f) by (nonlinear_arith)
            requires
                -f <= diff * w <= f,
                w >= 1 as real / 255 as real,
                f > 0 as real,
        ;
    }
}

/// The hue of a colour on the hexagon of hues, in degrees: red at 0, green at 120, blue at
/// 240, and each other colour as far from the strongest of these towards the second as its
/// middle level lies above its weakest; nothing for a grey.
pub open spec fn hexagon_hue(c: Rgb) -> real {
    let span = (circle::largest(c) - circle::smallest(c)) as real;
    let (r, g, b) = (c.r as real, c.g as real, c.b as real);
    if circle::largest(c) == circle::smallest(c) {
        0 as real
    } else if c.r == circle::largest(c) {
        if c.g >= c.b {
            60 as real * ((g - b) / span)
        } else {
            360 as real - 60 as real * ((b - g) / span)
        }
    } else if c.g == circle::largest(c) {
        120 as real + 60 as real * ((b - r) / span)
    } else {
        240 as real + 60 as real * ((r - g) / span)
    }
}

/// The ratio of two differences of levels.
pub proof fn lemma_level_ratio(p: u8, q: u8, hi: u8, lo: u8)
    requires
        lo <= p <= hi,
        lo <= q <= hi,
        lo < hi,
    ensures
        ({
            let d = Rgb::share(hi).difference(Rgb::share(lo));
            let r = Rgb::share(p).difference(Rgb::share(q)).quotient(d);
            &&& r.is_finite()
            &&& -1 as real <= rounding::value(r) <= 1 as real
            &&& q <= p ==> rounding::value(r) >= 0 as real
            &&& p < q ==> rounding::value(r) <= -rounding::tiny(-9)
            &&& hue::within(
                rounding::value(r),
                (p as real - q as real) / (hi as real - lo as real),
                1 as real / 4096 as real,
            )
        }),
{
    let (mx, mn) = (Rgb::share(hi), Rgb::share(lo));
    let (x, y) = (Rgb::share(p), Rgb::share(q));
    hue::lemma_share(p);
    hue::lemma_share(q);
    hue::lemma_share(hi);
    hue::lemma_share(lo);
    hue::lemma_share_order(p, q);
    hue::lemma_share_order(lo, hi);
    hue::lemma_share_order(lo, p);
    hue::lemma_share_order(lo, q);
    hue::lemma_share_order(p, hi);
    hue::lemma_share_order(q, hi);
    rounding::lemma_tiny_values();
    hue::lemma_ratio(x, y, mx, mn);
    let d = mx.difference(mn);
    let r = rounding::value(x.difference(y).quotient(d));
    let e = rounding::tiny(-23);
    let span = rounding::value(mx) - rounding::value(mn);
    let (pp, qq, hh, ll) = (p as real, q as real, hi as real, lo as real);
    let exact_span = (hh - ll) / 255 as real;
    assert(hh - ll >= 1 as real);
    let g = span - exact_span;
    assert(-(2 as real) * e <= g <= 2 as real * e);
    assert(-(2 as real) * e <= r * g <= 2 as real * e) by (nonlinear_arith)
        requires
            -(2 as real) * e <= g <= 2 as real * e,
            -1 as real <= r <= 1 as real,
            e > 0 as real,
    ;
    assert(r * g == r * span - r * exact_span) by (nonlinear_arith)
        requires
            g == span - exact_span,
    ;
    let ratio = (pp - qq) / (hh - ll);
    assert(ratio * exact_span == (pp - qq) / 255 as real) by (nonlinear_arith)
        requires
            ratio == (pp - qq) / (hh - ll),
            exact_span == (hh - ll) / 255 as real,
            hh - ll >= 1 as real,
    ;
    let f = 7 as real * e;
    assert(hue::within(r * exact_span, ratio * exact_span, f));
    let diff = r - ratio;
    assert(r * exact_span - ratio * exact_span == diff * exact_span) by (nonlinear_arith)
        requires
            diff == r - ratio,
    ;
    assert(-(255 as real * f) <= diff <= 255 as real * f) by (nonlinear_arith)
        requires
            -f <= diff * exact_span <= f,
            exact_span >= 1 as real / 255 as real,
            f > 0 as real,
    ;
}

/// The outer shares of a colour that is no grey.
pub proof fn lemma_outer_shares(c: Rgb)
    requires
        circle::smallest(c) < circle::largest(c),
    ensures
        ({
            let (r, g, b) = (Rgb::share(c.r), Rgb::share(c.g), Rgb::share(c.b));
            let mx = r.larger(g).larger(b);
            let mn = r.smaller(g).smaller(b);
            &&& mx == Rgb::share(circle::largest(c))
            &&& mn == Rgb::share(circle::smallest(c))
            &&& mx.equals(r) == (c.r == circle::largest(c))
            &&& mx.equals(g) == (c.g == circle::largest(c))
            &&& !mx.difference(mn).equals(Single::of_int(0))
        }),
{
    let (r, g, b) = (Rgb::share(c.r), Rgb::share(c.g), Rgb::share(c.b));
    hue::lemma_share(c.r);
    hue::lemma_share(c.g);
    hue::lemma_share(c.b);
    hue::lemma_share_order(c.r, c.g);
    hue::lemma_share_order(c.g, c.b);
    hue::lemma_share_order(c.r, c.b);
    rounding::lemma_tiny_values();
    rounding::lemma_int_value(0);
    rounding::lemma_int_rank(0);
    let zero = Single::of_int(0);
    let mx = r.larger(g).larger(b);
    let mn = r.smaller(g).smaller(b);
    let d = mx.difference(mn);
    assert(mx == Rgb::share(circle::largest(c)));
    assert(mn == Rgb::share(circle::smallest(c)));
    rounding::lemma_value_order(mn, mx);
    hue::lemma_ratio(mn, mn, mx, mn);
    rounding::lemma_value_order(d, zero);
    rounding::lemma_value_order(zero, d);
}

#[verifier::rlimit(40)]
proof fn lemma_hue_of_red(c: Rgb)
    requires
        circle::smallest(c) < circle::largest(c),
        c.r == circle::largest(c),
    ensures
        hue::within(rounding::value(c.hsv().h), hexagon_hue(c), 1 as real / 64 as real),
{
    let (hi, lo) = (circle::largest(c), circle::smallest(c));
    lemma_outer_shares(c);
    rounding::lemma_tiny_values();
    let d = Rgb::share(hi).difference(Rgb::share(lo));
    lemma_level_ratio(c.g, c.b, hi, lo);
    hue::lemma_red_hue(Rgb::share(c.g).difference(Rgb::share(c.b)).quotient(d));
    let span = hi as real - lo as real;
    assert((hi - lo) as real == span);
    let (x, y) = (c.g as real, c.b as real);
    assert((x - y) / span == -((y - x) / span)) by (nonlinear_arith)
        requires
            span > 0 as real,
    ;
}

proof fn lemma_hue_of_green(c: Rgb)
    requires
        c.r < circle::largest(c),
        c.g == circle::largest(c),
    ensures
        hue::within(rounding::value(c.hsv().h), hexagon_hue(c), 1 as real / 64 as real),
{
    let (hi, lo) = (circle::largest(c), circle::smallest(c));
    lemma_outer_shares(c);
    rounding::lemma_tiny_values();
    let d = Rgb::share(hi).difference(Rgb::share(lo));
    lemma_level_ratio(c.b, c.r, hi, lo);
    hue::lemma_other_hue(Rgb::share(c.b).difference(Rgb::share(c.r)).quotient(d), 2);
    assert((hi - lo) as real == hi as real - lo as real);
}

proof fn lemma_hue_of_blue(c: Rgb)
    requires
        c.r < circle::largest(c),
        c.g < circle::largest(c),
    ensures
        hue::within(rounding::value(c.hsv().h), hexagon_hue(c), 1 as real / 64 as real),
{
    let (hi, lo) = (circle::largest(c), circle::smallest(c));
    lemma_outer_shares(c);
    rounding::lemma_tiny_values();
    let d = Rgb::share(hi).difference(Rgb::share(lo));
    lemma_level_ratio(c.r, c.g, hi, lo);
    hue::lemma_other_hue(Rgb::share(c.r).difference(Rgb::share(c.g)).quotient(d), 4);
    assert((hi - lo) as real == hi as real - lo as real);
}

/// The hue of a colour is that of the hexagon, within a sixty-fourth of a degree; exactly
/// zero where green and blue are equal and red is not weaker, so for every grey.
pub proof fn law_hue(c: Rgb)
    ensures
        hue::within(rounding::value(c.hsv().h), hexagon_hue(c), 1 as real / 64 as real),
        c.r >= c.g && c.g == c.b ==> rounding::value(c.hsv().h) == 0 as real,
{
    rounding::lemma_tiny_values();
    if circle::largest(c) == circle::smallest(c) {
        let mx = Rgb::share(c.r);
        let d = mx.difference(mx);
        hue::lemma_share(c.r);
        rounding::lemma_int_value(0);
        rounding::lemma_int_rank(0);
        rounding::lemma_difference_odd(mx, mx);
        rounding::lemma_finite_sign(mx);
        rounding::lemma_value_order(mx, mx);
        rounding::lemma_sum_value(mx, mx.negated(), -23);
        assert(d.equals(Single::of_int(0)));
    } else if c.r == circle::largest(c) {
        lemma_hue_of_red(c);
        if c.g == c.b {
            hue::lemma_even_hue(c);
            let span = (circle::largest(c) - circle::smallest(c)) as real;
            assert((0 as real) / span == 0 as real) by (nonlinear_arith)
                requires
                    span > 0 as real,
            ;
        }
    } else if c.g == circle::largest(c) {
        lemma_hue_of_green(c);
    } else {
        lemma_hue_of_blue(c);
    }
}

/// A hue moved by `delta` degrees is the exact sum, less a number of full turns, within a
/// unit `2^k` of the sum and `2^-14`: so a step of one degree turns the hue by one degree.
pub proof fn law_hue_move(h: Single, delta: i32, k: int)
    requires
        h.is_finite(),
        0 as real <= rounding::value(h) <= 360 as real,
        -14 <= k <= 0,
        -(0x80_0000 as real) * rounding::tiny(k) <= rounding::value(h) + delta as real
            <= (0x80_0000 as real) * rounding::tiny(k),
    ensures
        exists|turns: int|
            #[trigger] turned_within(
                rounding::value(app::moved_hue(h, delta as int)),
                rounding::value(h) + delta as real,
                turns,
                rounding::tiny(k) + 1 as real / 0x4000 as real,
            ),
{
    let s = h.sum(Single::of_int(delta as int));
    rounding::lemma_units_grow(k, 0);
    rounding::lemma_units_steps();
    let (u, o) = (rounding::units(k) as real, rounding::one() as real);
    assert(u / o <= 1 as real) by (nonlinear_arith)
        requires
            0 as real <= u <= o,
            o > 0 as real,
    ;
    rounding::lemma_tiny_values();
    rounding::lemma_int_value(0x80_0000);
    rounding::lemma_int_value(-0x80_0000);
    rounding::lemma_int_rank(0x80_0000);
    rounding::lemma_int_rank(-0x80_0000);
    assert(-0x80_0200 < delta < 0x80_0200);
    rounding::lemma_int_value(delta as int);
    rounding::lemma_sum_value(h, Single::of_int(delta as int), k);
    rounding::lemma_sum_side(h, Single::of_int(delta as int), Single::of_int(0x80_0000));
    rounding::lemma_sum_side(h, Single::of_int(delta as int), Single::of_int(-0x80_0000));
    rounding::lemma_value_order(s, Single::of_int(0x80_0000));
    rounding::lemma_value_order(Single::of_int(-0x80_0000), s);
    let n = lemma_up_value(s);
    let m = lemma_down_value(s.turned_up());
    assert(turned_within(
        rounding::value(app::moved_hue(h, delta as int)),
        rounding::value(h) + delta as real,
        m - n,
        rounding::tiny(k) + 1 as real / 0x4000 as real,
    ));
}

/// Whether `a` is `b` less so many full turns, within `e`.
pub open spec fn turned_within(a: real, b: real, turns: int, e: real) -> bool {
    hue::within(a, b - 360 as real * turns as real, e)
}

/// Taking a full turn from a number of at least one turn is exact.
proof fn lemma_exact_turn(h: Single)
    requires
        h.is_finite(),
        360 * rounding::one() <= h.rank() <= 0x80_0000 * rounding::one(),
    ensures
        h.difference(Single::of_int(360)).rank() == h.rank() - 360 * rounding::one(),
        h.negated().sum(Single::of_int(360)).rank() == -h.rank() + 360 * rounding::one(),
{
    let turn = Single::of_int(360);
    let o = rounding::one();
    rounding::lemma_units_steps();
    rounding::lemma_int_rank(360);
    rounding::lemma_finite_rank(h);
    rounding::lemma_exponent(h, 0);
    let (neg, sig, exp) = (h.parts()->Finite_neg, h.parts()->sig as int, h.parts()->exp as int);
    let u = rounding::units(exp);
    rounding::lemma_units_grow(exp, 0);
    let p = pow2((-exp) as nat) as int;
    lemma_pow2_pos((-exp) as nat);
    assert(!neg && h.rank() == sig * u) by (nonlinear_arith)
        requires
            h.rank() == (if neg {
                -sig
            } else {
                sig
            }) * u,
            h.rank() > 0,
            sig >= 0,
            u > 0,
    ;
    let j = sig - 360 * p;
    assert(j * u == h.rank() - 360 * o) by (nonlinear_arith)
        requires
            j == sig - 360 * p,
            h.rank() == sig * u,
            o == u * p,
    ;
    assert(j >= 0) by (nonlinear_arith)
        requires
            j * u >= 0,
            u > 0,
    ;
    let b = rounding::signed_exact(j, exp);
    let a = rounding::signed_exact(-j, exp);
    assert((-j) * u == -(j * u)) by (nonlinear_arith);
    rounding::lemma_finite_sign(turn);
    rounding::lemma_rank_sign(turn);
    rounding::lemma_finite_sign(h);
    rounding::lemma_rank_sign(h);
    rounding::lemma_sum_bounds(h, turn.negated(), b);
    rounding::lemma_sum_bounds(h.negated(), turn, a);
}

/// Ranks apart by full turns are values apart by full turns.
proof fn lemma_turn_value(x: Single, y: Single, n: int)
    requires
        x.rank() == y.rank() + 360 * n * rounding::one(),
    ensures
        rounding::value(x) == rounding::value(y) + 360 as real * n as real,
{
    rounding::lemma_units_steps();
    let o = rounding::one() as real;
    let (a, b, k) = (x.rank() as real, y.rank() as real, n as real);
    assert((360 * n * rounding::one()) as real == 360 as real * k * o) by (nonlinear_arith)
        requires
            k == n as real,
            o == rounding::one() as real,
    ;
    assert(a / o == b / o + 360 as real * k) by (nonlinear_arith)
        requires
            a == b + 360 as real * k * o,
            o > 0 as real,
    ;
}

/// An angle turned down loses full turns and nothing else.
proof fn lemma_down_value(h: Single) -> (n: int)
    requires
        h.is_finite(),
        0 <= h.rank() <= 0x80_0000 * rounding::one(),
    ensures
        rounding::value(h.turned_down()) == rounding::value(h) - 360 as real * n as real,
    decreases h.rank(),
{
    rounding::lemma_units_steps();
    rounding::lemma_int_rank(360);
    if Single::of_int(360).at_most(h) {
        let d = h.difference(Single::of_int(360));
        lemma_exact_turn(h);
        rounding::lemma_turn_down(h);
        let n = lemma_down_value(d);
        lemma_turn_value(h, d, 1);
        n + 1
    } else {
        0
    }
}

/// An angle turned up gains full turns, and in the last of them what rounding adds.
proof fn lemma_up_value(h: Single) -> (n: int)
    requires
        h.is_finite(),
        -0x80_0000 * rounding::one() <= h.rank() <= 0x80_0000 * rounding::one(),
    ensures
        h.turned_up().is_finite(),
        0 <= h.turned_up().rank() <= 0x80_0000 * rounding::one(),
        hue::within(
            rounding::value(h.turned_up()),
            rounding::value(h) + 360 as real * n as real,
            1 as real / 0x4000 as real,
        ),
    decreases
            (if h.rank() < 0 {
                -h.rank()
            } else {
                0
            }),
{
    rounding::lemma_units_steps();
    rounding::lemma_int_rank(0);
    rounding::lemma_int_rank(360);
    rounding::lemma_tiny_values();
    let zero = Single::of_int(0);
    let turn = Single::of_int(360);
    if h.below(zero) {
        let d = h.sum(turn);
        rounding::lemma_turn_up(h);
        if h.rank() <= -360 * rounding::one() {
            rounding::lemma_rank_sign(h);
            rounding::lemma_finite_sign(h);
            lemma_exact_turn(h.negated());
            let n = lemma_up_value(d);
            lemma_turn_value(d, h, 1);
            n + 1
        } else {
            rounding::lemma_int_value(0);
            rounding::lemma_int_value(360);
            rounding::lemma_int_value(-360);
            rounding::lemma_int_rank(-360);
            rounding::lemma_value_order(h, zero);
            rounding::lemma_value_order(Single::of_int(-360), h);
            rounding::lemma_sum_value(h, turn, -14);
            rounding::lemma_sum_side(h, turn, zero);
            rounding::lemma_value_order(zero, d);
            assert(d.turned_up() == d);
            1
        }
    } else {
        0
    }
}

/// A step in hue turns the hue alone: the new levels are those of the old saturation, the
/// old value, and a hue that is the sum less full turns, within a thirty-second of a degree
/// for steps of up to a hundred thousand degrees.
pub proof fn law_hue_step(c: Rgb, delta: i32)
    requires
        -100000 <= delta <= 100000,
    ensures
        exists|h: real, turns: int|
            0 as real <= h && h < 360 as real && #[trigger] turned_within(
                h,
                rounding::value(c.hsv().h) + delta as real,
                turns,
                1 as real / 32 as real,
            ) && #[trigger] circle::levels_of(
                app::moved(c, Channel::H, delta as int),
                h,
                rounding::value(c.hsv().s),
                rounding::value(c.hsv().v),
            ),
{
    laws::law_hsv_ranges(c);
    laws::law_stepped_ranges(c, delta);
    let x = c.hsv();
    circle::lemma_in_range(x);
    rounding::lemma_tiny_values();
    lemma2_to64();
    rounding::lemma_tiny(6);
    let e = rounding::tiny(-6);
    assert(e * 64 as real == 1 as real);
    law_hue_move(x.h, delta, -6);
    let y = Hsv { h: app::moved_hue(x.h, delta as int), ..x };
    circle::lemma_in_range(y);
    circle::lemma_levels_of(y);
    let h = rounding::value(y.h);
    let turns = choose|turns: int|
        #[trigger] turned_within(
            h,
            rounding::value(x.h) + delta as real,
            turns,
            rounding::tiny(-6) + 1 as real / 0x4000 as real,
        );
    assert(turned_within(
        h,
        rounding::value(x.h) + delta as real,
        turns,
        1 as real / 32 as real,
    ));
    assert(circle::levels_of(
        app::moved(c, Channel::H, delta as int),
        h,
        rounding::value(x.s),
        rounding::value(x.v),
    ));
}

} // verus!
