//! From hue, saturation and value back to levels, and along the colour circle, each step
//! correctly rounded.
use vstd::prelude::*;
use vstd::arithmetic::power2::*;
use crate::app;
use crate::app::Channel;
use crate::circle;
use crate::color::{Hsv, Rgb};
use crate::color_laws;
use crate::hue;
use crate::laws;
use crate::nearest_laws;
use crate::rounding;
use crate::single::Single;

verus! {

/// Whether `n` is the level of a share above the share that all have: their rounded sum,
/// times 255 and raised by a half, both rounded, cut to the range of a level and to a whole
/// number.
pub open spec fn rounded_level(n: u8, share: Single, m: Single) -> bool {
    exists|a: Single, b: Single, c: Single| #[trigger]
        nearest_laws::nearest_to(a, rounding::value(share) + rounding::value(m))
            && #[trigger] nearest_laws::nearest_to(b, rounding::value(a) * 255 as real)
            && #[trigger] nearest_laws::nearest_to(c, rounding::value(b) + 1 as real / 2 as real)
            && n as real <= color_laws::cut_level(rounding::value(c)) && color_laws::cut_level(
            rounding::value(c),
        ) < n as real + 1 as real
}

/// A level is rounded so.
pub proof fn law_level_rounds(share: Single, m: Single)
    requires
        share.is_finite(),
        m.is_finite(),
        -(4 as real) <= rounding::value(share) <= 4 as real,
        -(4 as real) <= rounding::value(m) <= 4 as real,
    ensures
        rounded_level(Hsv::level(share, m), share, m),
{
    rounding::lemma_tiny_values();
    rounding::lemma_int_value(0);
    rounding::lemma_int_value(255);
    rounding::lemma_int_rank(0);
    let full = Single::of_int(255);
    let zero = Single::of_int(0);
    let half = Single::of_ratio(1, 2);
    circle::lemma_half();
    let a = share.sum(m);
    rounding::lemma_sum_value(share, m, -9);
    nearest_laws::law_sum(share, m);
    let b = a.product(full);
    assert(rounding::value(a) * rounding::value(full) == rounding::value(a) * 255 as real);
    rounding::lemma_product_value(a, full, -9);
    nearest_laws::law_product(a, full);
    let c = b.sum(half);
    rounding::lemma_sum_value(b, half, -9);
    nearest_laws::law_sum(b, half);
    let v = c.within(zero, full);
    nearest_laws::law_within(c, zero, full);
    assert(rounding::value(v) == color_laws::cut_level(rounding::value(c)));
    nearest_laws::law_whole_part(v, 0, 255);
}

/// Whether `r` is what is left of `q` when whole twos are taken away towards zero.
pub open spec fn left_of_twos(q: real, r: real, twos: int) -> bool {
    &&& q - r == 2 as real * twos as real
    &&& q >= 0 as real ==> 0 as real <= r && r < 2 as real
    &&& q <= 0 as real ==> -(2 as real) < r && r <= 0 as real
}

proof fn lemma_left_of_twos(q: Single) -> (twos: int)
    requires
        q.is_finite(),
    ensures
        q.remainder(Single::of_int(2)).is_finite(),
        left_of_twos(
            rounding::value(q),
            rounding::value(q.remainder(Single::of_int(2))),
            twos,
        ),
{
    let two = Single::of_int(2);
    rounding::lemma_int_value(2);
    rounding::lemma_int_rank(2);
    rounding::lemma_units_steps();
    nearest_laws::law_remainder(q, two);
    let r = q.remainder(two);
    let (x, y, o) = (q.rank(), r.rank(), rounding::one());
    let k = (x - y) / (2 * o);
    vstd::arithmetic::div_mod::lemma_fundamental_div_mod(x - y, 2 * o);
    let (xr, yr, or, kr) = (x as real, y as real, o as real, k as real);
    assert(x - y == 2 * o * k);
    assert(xr - yr == 2 as real * or * kr) by (nonlinear_arith)
        requires
            x - y == 2 * o * k,
            xr == x as real,
            yr == y as real,
            or == o as real,
            kr == k as real,
    ;
    let (a, b) = (rounding::value(q), rounding::value(r));
    assert(a * or == xr && b * or == yr) by (nonlinear_arith)
        requires
            a == xr / or,
            b == yr / or,
            or > 0 as real,
    ;
    assert(a - b == 2 as real * kr) by (nonlinear_arith)
        requires
            a * or == xr,
            b * or == yr,
            xr - yr == 2 as real * or * kr,
            or > 0 as real,
    {
        assert((a - b - 2 as real * kr) * or == 0 as real);
    }
    assert(a >= 0 as real ==> 0 as real <= b && b < 2 as real) by (nonlinear_arith)
        requires
            a * or == xr,
            b * or == yr,
            or > 0 as real,
            xr >= 0 as real ==> 0 as real <= yr && yr < 2 as real * or,
    ;
    assert(a <= 0 as real ==> -(2 as real) < b && b <= 0 as real) by (nonlinear_arith)
        requires
            a * or == xr,
            b * or == yr,
            or > 0 as real,
            xr <= 0 as real ==> -(2 as real * or) < yr && yr <= 0 as real,
    ;
    k
}

/// Whether `x` is the second strongest share: the strongest one `c` times one less the
/// distance from one of what is left of the sixths `h6` by two.
pub open spec fn rounded_middle(x: Single, h6: Single, c: Single) -> bool {
    exists|r: Single, w: Single, t: Single, twos: int| #[trigger]
        left_of_twos(rounding::value(h6), rounding::value(r), twos)
            && #[trigger] nearest_laws::nearest_to(w, rounding::value(r) - 1 as real)
            && #[trigger] nearest_laws::nearest_to(t, 1 as real - hue::size(rounding::value(w)))
            && nearest_laws::nearest_to(x, rounding::value(c) * rounding::value(t))
}

proof fn lemma_middle(h6: Single, c: Single)
    requires
        h6.is_finite(),
        c.is_finite(),
        0 as real <= rounding::value(c) <= 3 as real / 2 as real,
    ensures
        ({
            let one = Single::of_int(1);
            let x = c.product(
                one.difference(h6.remainder(Single::of_int(2)).difference(one).magnitude()),
            );
            &&& rounded_middle(x, h6, c)
            &&& x.is_finite()
            &&& -(4 as real) <= rounding::value(x) <= 4 as real
        }),
{
    rounding::lemma_tiny_values();
    rounding::lemma_int_value(1);
    let one = Single::of_int(1);
    let twos = lemma_left_of_twos(h6);
    let r = h6.remainder(Single::of_int(2));
    let w = r.difference(one);
    rounding::lemma_finite_sign(one);
    nearest_laws::law_signs(one);
    rounding::lemma_sum_value(r, one.negated(), -20);
    nearest_laws::law_difference(r, one);
    let a = w.magnitude();
    nearest_laws::law_signs(w);
    nearest_laws::law_signs(a);
    rounding::lemma_sum_value(one, a.negated(), -20);
    nearest_laws::law_difference(one, a);
    let t = one.difference(a);
    let (cv, tv) = (rounding::value(c), rounding::value(t));
    assert(-(5 as real / 2 as real) <= tv <= 3 as real / 2 as real);
    assert(-(15 as real / 4 as real) <= cv * tv <= 3 as real) by (nonlinear_arith)
        requires
            0 as real <= cv <= 3 as real / 2 as real,
            -(5 as real / 2 as real) <= tv <= 3 as real / 2 as real,
    ;
    rounding::lemma_product_value(c, t, -9);
    nearest_laws::law_product(c, t);
}

/// The shares of red, green and blue above that of all, by the sixth of the circle that the
/// hue, counted in sixths, lies in: the strongest is `c`, the next `x`, and one is missing.
/// Beyond the fifth sixth on either side the shares are those of the last one.
pub open spec fn shares_at(q: real, c: Single, x: Single) -> (Single, Single, Single) {
    let none = Single::of_int(0);
    if -(1 as real) < q && q < 1 as real {
        (c, x, none)
    } else if 1 as real <= q && q < 2 as real {
        (x, c, none)
    } else if 2 as real <= q && q < 3 as real {
        (none, c, x)
    } else if 3 as real <= q && q < 4 as real {
        (none, x, c)
    } else if 4 as real <= q && q < 5 as real {
        (x, none, c)
    } else {
        (c, none, x)
    }
}

/// Whether a colour is that of a hue, a saturation and a value, correctly rounded at each
/// step: the chroma is their product, the hue is counted in sixths of the circle, and the
/// share that all levels have is what the chroma leaves of the value.
pub open spec fn rounded_rgb(c: Rgb, x: Hsv) -> bool {
    exists|chroma: Single, h6: Single, mid: Single, m: Single| #[trigger]
        nearest_laws::nearest_to(chroma, rounding::value(x.v) * rounding::value(x.s))
            && #[trigger] nearest_laws::nearest_to(h6, rounding::value(x.h) / 60 as real)
            && #[trigger] rounded_middle(mid, h6, chroma) && #[trigger] nearest_laws::nearest_to(
            m,
            rounding::value(x.v) - rounding::value(chroma),
        ) && rounded_levels(c, shares_at(rounding::value(h6), chroma, mid), m)
}

/// Whether the levels of a colour are those of three shares above the share of all.
pub open spec fn rounded_levels(c: Rgb, shares: (Single, Single, Single), m: Single) -> bool {
    &&& rounded_level(c.r, shares.0, m)
    &&& rounded_level(c.g, shares.1, m)
    &&& rounded_level(c.b, shares.2, m)
}

/// The colour of a hue, a saturation and a value is correctly rounded at each step, for hues
/// beyond one turn too.
pub proof fn law_rgb_rounds(x: Hsv)
    requires
        x.h.is_finite(),
        x.s.is_finite(),
        x.v.is_finite(),
        -(0x1000000 as real) <= rounding::value(x.h) <= 0x1000000 as real,
        0 as real <= rounding::value(x.s) <= 1 as real,
        0 as real <= rounding::value(x.v) <= 1 as real,
    ensures
        rounded_rgb(x.rgb(), x),
{
    rounding::lemma_tiny_values();
    rounding::lemma_int_value(0);
    rounding::lemma_int_value(60);
    let (hv, sv, vv) = (rounding::value(x.h), rounding::value(x.s), rounding::value(x.v));
    assert(0 as real <= vv * sv <= 1 as real) by (nonlinear_arith)
        requires
            0 as real <= vv <= 1 as real,
            0 as real <= sv <= 1 as real,
    ;
    let zero = Single::of_int(0);
    let chroma = x.v.product(x.s);
    rounding::lemma_product_value(x.v, x.s, -23);
    rounding::lemma_product_side(x.v, x.s, zero);
    nearest_laws::law_product(x.v, x.s);
    let sixty = Single::of_int(60);
    let h6 = x.h.quotient(sixty);
    assert(hv / rounding::value(sixty) == hv / 60 as real);
    rounding::lemma_quotient_value(x.h, sixty, -4);
    nearest_laws::law_quotient(x.h, sixty);
    lemma_middle(h6, chroma);
    let one = Single::of_int(1);
    let mid = chroma.product(
        one.difference(h6.remainder(Single::of_int(2)).difference(one).magnitude()),
    );
    let m = x.v.difference(chroma);
    nearest_laws::law_signs(chroma);
    rounding::lemma_sum_value(x.v, chroma.negated(), -20);
    nearest_laws::law_difference(x.v, chroma);
    let s = Hsv::arranged(h6.toward_zero(i32::MIN as int, i32::MAX as int), chroma, mid);
    lemma_arranged_at(h6, chroma, mid);
    law_level_rounds(s.0, m);
    law_level_rounds(s.1, m);
    law_level_rounds(s.2, m);
}

proof fn lemma_arranged_at(h6: Single, c: Single, x: Single)
    requires
        h6.is_finite(),
    ensures
        Hsv::arranged(h6.toward_zero(i32::MIN as int, i32::MAX as int), c, x) == shares_at(
            rounding::value(h6),
            c,
            x,
        ),
{
    nearest_laws::law_whole_part(h6, i32::MIN as int, i32::MAX as int);
}

/// To bring an angle to zero or above changes nothing where it is there; below, it is the
/// same as to bring up what is nearest to the angle a turn further.
pub proof fn law_turn_up(h: Single)
    requires
        h.is_finite(),
        -rounding::units(32) < h.rank() < rounding::units(32),
    ensures
        rounding::value(h) >= 0 as real ==> h.turned_up() == h,
        rounding::value(h) < 0 as real ==> exists|y: Single| #[trigger]
            nearest_laws::nearest_to(y, rounding::value(h) + 360 as real) && h.turned_up()
                == y.turned_up(),
{
    lemma_zero_order(h);
    rounding::lemma_int_rank(0);
    if rounding::value(h) < 0 as real {
        rounding::lemma_int_value(360);
        rounding::lemma_turn_up(h);
        let turn = Single::of_int(360);
        nearest_laws::law_sum(h, turn);
    }
}

/// To bring an angle below one turn changes nothing where it is there; else it is the same
/// as to bring down what is nearest to the angle a turn back.
pub proof fn law_turn_down(h: Single)
    requires
        h.is_finite(),
        0 <= h.rank() < rounding::units(32),
    ensures
        rounding::value(h) < 360 as real ==> h.turned_down() == h,
        rounding::value(h) >= 360 as real ==> exists|y: Single| #[trigger]
            nearest_laws::nearest_to(y, rounding::value(h) - 360 as real) && h.turned_down()
                == y.turned_down(),
{
    rounding::lemma_int_value(360);
    rounding::lemma_int_rank(360);
    let turn = Single::of_int(360);
    rounding::lemma_value_order(turn, h);
    rounding::lemma_value_order(h, turn);
    if rounding::value(h) >= 360 as real {
        rounding::lemma_turn_down(h);
        nearest_laws::law_difference(h, turn);
    }
}

proof fn lemma_zero_order(h: Single)
    requires
        h.is_finite(),
    ensures
        h.below(Single::of_int(0)) <==> rounding::value(h) < 0 as real,
{
    rounding::lemma_int_value(0);
    rounding::lemma_value_order(h, Single::of_int(0));
}

/// A hue is moved by bringing into one turn what is nearest to its sum with the number
/// nearest to the step.
pub proof fn law_hue_move_rounds(h: Single, delta: i32)
    requires
        h.is_finite(),
        0 as real <= rounding::value(h) <= 360 as real,
    ensures
        exists|d: Single, y: Single| #[trigger]
            nearest_laws::nearest_to(d, delta as real) && #[trigger] nearest_laws::nearest_to(
                y,
                rounding::value(h) + rounding::value(d),
            ) && app::moved_hue(h, delta as int) == y.turned_up().turned_down(),
{
    nearest_laws::law_int(delta);
    let d = Single::of_int(delta as int);
    rounding::lemma_int_value(0);
    rounding::lemma_int_rank(0);
    rounding::lemma_int_value(360);
    rounding::lemma_int_rank(360);
    rounding::lemma_value_order(Single::of_int(0), h);
    rounding::lemma_value_order(h, Single::of_int(360));
    rounding::lemma_large_int(delta);
    rounding::lemma_moved_angle(h, delta);
    rounding::lemma_small_is_finite(h.sum(d));
    nearest_laws::law_sum(h, d);
}

/// A step in hue, saturation or value moves that one of the three, keeps the other two, and
/// gives the colour that they are correctly rounded to.
pub proof fn law_steps_round(c: Rgb, delta: i32)
    ensures
        ({
            let x = c.hsv();
            let d = delta as int;
            &&& rounded_rgb(
                app::moved(c, Channel::H, d),
                Hsv { h: app::moved_hue(x.h, d), s: x.s, v: x.v },
            )
            &&& rounded_rgb(
                app::moved(c, Channel::S, d),
                Hsv { h: x.h, s: app::moved_share(x.s, d), v: x.v },
            )
            &&& rounded_rgb(
                app::moved(c, Channel::V, d),
                Hsv { h: x.h, s: x.s, v: app::moved_share(x.v, d) },
            )
        }),
{
    let x = c.hsv();
    laws::law_hsv_ranges(c);
    circle::lemma_in_range(x);
    color_laws::law_share_step(x.s, delta);
    color_laws::law_share_step(x.v, delta);
    lemma_moved_hue_range(x.h, delta);
    law_rgb_rounds(Hsv { h: app::moved_hue(x.h, delta as int), s: x.s, v: x.v });
    law_rgb_rounds(Hsv { h: x.h, s: app::moved_share(x.s, delta as int), v: x.v });
    law_rgb_rounds(Hsv { h: x.h, s: x.s, v: app::moved_share(x.v, delta as int) });
}

proof fn lemma_moved_hue_range(h: Single, delta: i32)
    requires
        h.is_finite(),
        0 as real <= rounding::value(h) <= 360 as real,
    ensures
        app::moved_hue(h, delta as int).is_finite(),
        0 as real <= rounding::value(app::moved_hue(h, delta as int)) <= 360 as real,
{
    rounding::lemma_int_value(0);
    rounding::lemma_int_rank(0);
    rounding::lemma_int_value(360);
    rounding::lemma_int_rank(360);
    rounding::lemma_units_steps();
    rounding::lemma_value_order(Single::of_int(0), h);
    rounding::lemma_value_order(h, Single::of_int(360));
    rounding::lemma_moved_angle(h, delta);
    let y = h.sum(Single::of_int(delta as int));
    circle::lemma_turned_up(y);
    circle::lemma_turned_down(y.turned_up());
    let z = y.turned_up().turned_down();
    rounding::lemma_small_is_finite(z);
    rounding::lemma_value_order(Single::of_int(0), z);
    rounding::lemma_value_order(z, Single::of_int(360));
}

} // verus!
