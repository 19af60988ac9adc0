//! The way from a colour to hue, saturation and value and back.
use vstd::prelude::*;
use vstd::arithmetic::power2::*;
use crate::single::Single;
use crate::rounding;
use crate::hue;
use crate::color::{Hsv, Rgb};

verus! {

/// A share that lies close to a level's gives that level.
proof fn lemma_level(share: Single, m: Single, level: u8)
    requires
        share.is_finite(),
        m.is_finite(),
        0 as real <= rounding::value(share) <= 1 as real,
        0 as real <= rounding::value(m) <= 1 as real,
        hue::within(
            rounding::value(share) + rounding::value(m),
            level as real / 255 as real,
            rounding::tiny(-16),
        ),
    ensures
        Hsv::level(share, m) == level,
{
    rounding::lemma_tiny_values();
    rounding::lemma_int_value(0);
    rounding::lemma_int_value(255);
    rounding::lemma_int_value(256);
    let full = Single::of_int(255);
    let zero = Single::of_int(0);
    let half = Single::of_ratio(1, 2);
    lemma_half();
    let n = level as real;
    let y = share.sum(m);
    rounding::lemma_sum_value(share, m, -22);
    let yv = rounding::value(y);
    assert(n / 255 as real * 255 as real == n);
    assert(hue::within(yv * 255 as real, n, 1 as real / 100 as real));
    let z = y.product(full);
    assert(rounding::value(y) * rounding::value(full) == yv * 255 as real);
    rounding::lemma_product_value(y, full, -14);
    let w = z.sum(half);
    rounding::lemma_sum_value(z, half, -14);
    let wv = rounding::value(w);
    assert(hue::within(wv, n + 1 as real / 2 as real, 1 as real / 50 as real));
    rounding::lemma_value_order(w, zero);
    rounding::lemma_value_order(full, w);
    rounding::lemma_value_order(w, full);
    rounding::lemma_value_order(zero, w);
    let v = w.within(zero, full);
    rounding::lemma_value_order(v, zero);
    rounding::lemma_value_order(zero, v);
    rounding::lemma_int_rank(0);
    rounding::lemma_whole(v);
    let p = v.parts();
    let k = Single::whole(p->Finite_sig as int, p->Finite_exp as int);
    assert(k == level as int);
}

/// One half is a number.
pub proof fn lemma_half()
    ensures
        Single::of_ratio(1, 2).is_finite(),
        rounding::value(Single::of_ratio(1, 2)) == 1 as real / 2 as real,
{
    let h = rounding::dyadic(1, 1);
    lemma2_to64();
    let z = Single::of_ratio(1, 2);
    let zero = Single { bits: 0 };
    rounding::lemma_units_steps();
    let o = rounding::one() as real;
    let hv = rounding::value(h);
    assert(hv == 1 as real / 2 as real) by (nonlinear_arith)
        requires
            hv * 2 as real == 1 as real,
    ;
    let hr = h.rank() as real;
    assert(hr / o * o == hr) by (nonlinear_arith)
        requires
            o > 0 as real,
    ;
    assert(2 as real * hr == o) by (nonlinear_arith)
        requires
            hr / o == 1 as real / 2 as real,
            o > 0 as real,
    ;
    assert(2 * h.rank() == rounding::one());
    rounding::lemma_rank_sign(h);
    rounding::lemma_finite_sign(h);
    rounding::lemma_finite_sign(z);
    assert(h.bits < 0x8000_0000) by {
        if h.bits >= 0x8000_0000 {
            rounding::lemma_magnitude_order(0, h.magnitude().bits);
            vstd::arithmetic::mul::lemma_mul_basics(pow2(0) as int);
        }
    }
    rounding::lemma_nearest_bounds(1, 2, 0, h);
    rounding::lemma_bit_order(z, h);
    assert(z == h);
}

/// The triangle that the second strongest share follows along the circle.
proof fn lemma_triangle(h6: Single) -> (k: int)
    requires
        h6.is_finite(),
        0 as real <= rounding::value(h6),
    ensures
        ({
            let one = Single::of_int(1);
            let u = rounding::value(h6) - 2 as real * k as real;
            let t = one.difference(
                h6.remainder(Single::of_int(2)).difference(one).magnitude(),
            );
            &&& k >= 0
            &&& 0 as real <= u
            &&& u < 2 as real
            &&& t.is_finite()
            &&& 0 as real <= rounding::value(t) <= 1 as real
            &&& hue::within(
                rounding::value(t),
                1 as real - hue::size(u - 1 as real),
                2 as real * rounding::tiny(-23),
            )
        }),
{
    rounding::lemma_tiny_values();
    rounding::lemma_int_value(0);
    rounding::lemma_int_rank(0);
    rounding::lemma_int_value(1);
    let one = Single::of_int(1);
    let zero = Single::of_int(0);
    rounding::lemma_value_order(zero, h6);
    let k = rounding::lemma_modulo_two(h6);
    let u = h6.remainder(Single::of_int(2));
    rounding::lemma_finite_sign(one);
    rounding::lemma_value_order(one, one);
    rounding::lemma_sum_value(u, one.negated(), -23);
    rounding::lemma_sum_side(u, one.negated(), one);
    rounding::lemma_sum_side(u, one.negated(), one.negated());
    let a = u.difference(one);
    rounding::lemma_finite_sign(a);
    rounding::lemma_rank_sign(a);
    rounding::lemma_rank_sign(a.magnitude());
    rounding::lemma_value_order(a, zero);
    rounding::lemma_value_order(a.magnitude(), a);
    let m = a.magnitude();
    lemma_magnitude_value(a);
    rounding::lemma_finite_sign(m);
    rounding::lemma_value_order(m, m);
    rounding::lemma_sum_value(one, m.negated(), -23);
    rounding::lemma_sum_side(one, m.negated(), one);
    rounding::lemma_sum_side(one, m.negated(), zero);
    k
}

/// The value of a number without its sign.
pub proof fn lemma_magnitude_value(a: Single)
    requires
        a.is_finite(),
    ensures
        rounding::value(a.magnitude()) == hue::size(rounding::value(a)),
{
    rounding::lemma_rank_sign(a);
    rounding::lemma_value_order(a, Single::of_int(0));
    rounding::lemma_int_value(0);
    rounding::lemma_int_rank(0);
    let m = a.magnitude();
    rounding::lemma_finite_sign(a);
    let zero = Single { bits: 0 };
    assert(zero.rank() == 0) by {
        vstd::arithmetic::mul::lemma_mul_basics(pow2(0) as int);
    }
    if m.bits > 0 {
        rounding::lemma_magnitude_order(0, m.bits);
    }
    rounding::lemma_value_order(Single::of_int(0), a);
    if a.bits >= 0x8000_0000 {
        assert(m == a.negated());
    }
}

/// The part of a colour that one share of the arrangement stands for: `part` is what the
/// hue holds of it.
proof fn lemma_channel(
    a: Single,
    m: Single,
    level: u8,
    part: real,
    exact_part: real,
    chroma: real,
    span: real,
    least: real,
)
    requires
        a.is_finite(),
        m.is_finite(),
        0 as real <= rounding::value(a) <= 1 as real,
        0 as real <= rounding::value(m) <= 1 as real,
        0 as real <= part <= 1 as real,
        0 as real <= span <= 1 as real,
        hue::within(rounding::value(a), chroma * part, 4 as real * rounding::tiny(-23)),
        hue::within(rounding::value(m), least + span - chroma, rounding::tiny(-23)),
        hue::within(chroma, span, 5 as real * rounding::tiny(-23)),
        hue::within(part, exact_part, rounding::tiny(-17)),
        hue::within(
            rounding::value(Rgb::share(level)),
            least + span * exact_part,
            4 as real * rounding::tiny(-23),
        ),
    ensures
        Hsv::level(a, m) == level,
{
    rounding::lemma_tiny_values();
    hue::lemma_share(level);
    let e = rounding::tiny(-23);
    let f = rounding::tiny(-17);
    assert(-(5 as real) * e <= (span - chroma) - (span * part - chroma * part) <= 5 as real * e)
        by (nonlinear_arith)
        requires
            -(5 as real) * e <= chroma - span <= 5 as real * e,
            0 as real <= part <= 1 as real,
            e > 0 as real,
    {
        let g = span - chroma;
        assert(g - g * part == g * (1 as real - part));
        assert(span * part - chroma * part == g * part);
    }
    assert(-f <= span * part - span * exact_part <= f) by (nonlinear_arith)
        requires
            -f <= part - exact_part <= f,
            0 as real <= span <= 1 as real,
            f > 0 as real,
    ;
    lemma_level(a, m, level);
}

/// Each share of an arrangement is the chroma times what the hue holds of that colour.
proof fn lemma_arranged(h6: Single, c: Single, x: Single, k: int)
    requires
        h6.is_finite(),
        c.is_finite(),
        x.is_finite(),
        0 as real <= rounding::value(h6) <= 6 as real,
        0 as real <= rounding::value(c) <= 1 as real,
        0 as real <= rounding::value(x) <= 1 as real,
        k >= 0,
        0 as real <= rounding::value(h6) - 2 as real * k as real,
        (rounding::value(h6) - 2 as real * (k as real)) < 2 as real,
        hue::within(
            rounding::value(x),
            rounding::value(c) * (1 as real - hue::size(
                rounding::value(h6) - 2 as real * k as real - 1 as real,
            )),
            4 as real * rounding::tiny(-23),
        ),
    ensures
        ({
            let h = rounding::value(h6);
            let e = 4 as real * rounding::tiny(-23);
            let s = Hsv::arranged(
                h6.toward_zero(i32::MIN as int, i32::MAX as int),
                c,
                x,
            );
            &&& s.0.is_finite() && s.1.is_finite() && s.2.is_finite()
            &&& 0 as real <= rounding::value(s.0) <= 1 as real
            &&& 0 as real <= rounding::value(s.1) <= 1 as real
            &&& 0 as real <= rounding::value(s.2) <= 1 as real
            &&& hue::within(rounding::value(s.0), rounding::value(c) * hue::red_part(h), e)
            &&& hue::within(rounding::value(s.1), rounding::value(c) * hue::green_part(h), e)
            &&& hue::within(rounding::value(s.2), rounding::value(c) * hue::blue_part(h), e)
        }),
{
    rounding::lemma_tiny_values();
    rounding::lemma_int_value(0);
    rounding::lemma_int_rank(0);
    rounding::lemma_value_order(Single::of_int(0), h6);
    rounding::lemma_whole(h6);
    let p = h6.parts();
    let n = Single::whole(p->Finite_sig as int, p->Finite_exp as int);
    assert(0 <= n <= 6);
    assert(h6.toward_zero(i32::MIN as int, i32::MAX as int) == n);
    let h = rounding::value(h6);
    let cv = rounding::value(c);
    let t = 1 as real - hue::size(h - 2 as real * k as real - 1 as real);
    assert(2 * k <= n <= 2 * k + 1);
    let (r, g, b) = (hue::red_part(h), hue::green_part(h), hue::blue_part(h));
    assert(r == 0 as real ==> cv * r == 0 as real) by (nonlinear_arith);
    assert(g == 0 as real ==> cv * g == 0 as real) by (nonlinear_arith);
    assert(b == 0 as real ==> cv * b == 0 as real) by (nonlinear_arith);
    assert(r == 1 as real ==> cv * r == cv) by (nonlinear_arith);
    assert(g == 1 as real ==> cv * g == cv) by (nonlinear_arith);
    assert(b == 1 as real ==> cv * b == cv) by (nonlinear_arith);
    assert(t == 0 as real ==> cv * t == 0 as real) by (nonlinear_arith);
    if n == 0 {
        assert(k == 0 && r == 1 as real && g == t && b == 0 as real);
    } else if n == 1 {
        assert(k == 0 && g == 1 as real && r == t && b == 0 as real);
    } else if n == 2 {
        assert(k == 1 && g == 1 as real && b == t && r == 0 as real);
    } else if n == 3 {
        assert(k == 1 && b == 1 as real && g == t && r == 0 as real);
    } else if n == 4 {
        assert(k == 2 && b == 1 as real && r == t && g == 0 as real);
    } else if n == 5 {
        assert(k == 2 && r == 1 as real && b == t && g == 0 as real);
    } else {
        assert(k == 3 && r == 1 as real && t == 0 as real && b == 0 as real && g == 0 as real);
    }
}

/// A hue close to that of a colour, with its saturation and value, stands for that colour.
#[verifier::rlimit(40)]
pub proof fn lemma_close_hue(c: Rgb, hsv: Hsv)
    requires
        hsv.h.is_finite(),
        hsv.s.is_finite(),
        hsv.v.is_finite(),
        0 as real <= rounding::value(hsv.h) <= 360 as real,
        hue::within(
            rounding::value(hsv.h),
            rounding::value(c.hsv().h),
            2 as real * rounding::tiny(-13),
        ),
        rounding::value(hsv.s) == rounding::value(c.hsv().s),
        rounding::value(hsv.v) == rounding::value(c.hsv().v),
    ensures
        hsv.rgb() == c,
{
    rounding::lemma_tiny_values();
    rounding::lemma_int_value(0);
    rounding::lemma_int_value(1);
    rounding::lemma_int_value(6);
    rounding::lemma_int_value(60);
    let (h, least) = hue::lemma_hsv(c);
    let (hv, sv, vv) = (
        rounding::value(hsv.h),
        rounding::value(hsv.s),
        rounding::value(hsv.v),
    );
    let span = vv - least;
    let zero = Single::of_int(0);
    let one = Single::of_int(1);
    assert(0 as real <= vv * sv <= vv) by (nonlinear_arith)
        requires
            0 as real <= vv,
            0 as real <= sv <= 1 as real,
    ;
    assert(vv * sv == sv * vv) by (nonlinear_arith);
    let chroma = hsv.v.product(hsv.s);
    rounding::lemma_product_value(hsv.v, hsv.s, -23);
    rounding::lemma_product_side(hsv.v, hsv.s, zero);
    rounding::lemma_product_side(hsv.v, hsv.s, hsv.v);
    let cv = rounding::value(chroma);
    let sixty = Single::of_int(60);
    let h6 = hsv.h.quotient(sixty);
    assert(hv / rounding::value(sixty) == hv / 60 as real);
    rounding::lemma_quotient_value(hsv.h, sixty, -20);
    rounding::lemma_quotient_side(hsv.h, sixty, zero);
    rounding::lemma_quotient_side(hsv.h, sixty, Single::of_int(6));
    let h6v = rounding::value(h6);
    let k = lemma_triangle(h6);
    let t = one.difference(h6.remainder(Single::of_int(2)).difference(one).magnitude());
    let tv = rounding::value(t);
    let exact = 1 as real - hue::size(h6v - 2 as real * k as real - 1 as real);
    let e = rounding::tiny(-23);
    assert(0 as real <= cv * tv <= 1 as real && -(2 as real) * e <= cv * tv - cv * exact
        <= 2 as real * e) by (nonlinear_arith)
        requires
            0 as real <= cv <= 1 as real,
            0 as real <= tv <= 1 as real,
            -(2 as real) * e <= tv - exact <= 2 as real * e,
            e > 0 as real,
    ;
    let x = chroma.product(t);
    rounding::lemma_product_value(chroma, t, -23);
    rounding::lemma_product_side(chroma, t, zero);
    rounding::lemma_product_side(chroma, t, one);
    lemma_arranged(h6, chroma, x, k);
    let m = hsv.v.difference(chroma);
    rounding::lemma_finite_sign(chroma);
    rounding::lemma_value_order(chroma, chroma);
    rounding::lemma_sum_value(hsv.v, chroma.negated(), -23);
    rounding::lemma_sum_side(hsv.v, chroma.negated(), zero);
    rounding::lemma_sum_side(hsv.v, chroma.negated(), one);
    let s = Hsv::arranged(h6.toward_zero(i32::MIN as int, i32::MAX as int), chroma, x);
    assert(hue::within(h6v, h, rounding::tiny(-17)));
    lemma_channel(s.0, m, c.r, hue::red_part(h6v), hue::red_part(h), cv, span, least);
    lemma_channel(s.1, m, c.g, hue::green_part(h6v), hue::green_part(h), cv, span, least);
    lemma_channel(s.2, m, c.b, hue::blue_part(h6v), hue::blue_part(h), cv, span, least);
}

/// A colour's hue, saturation and value stand for that colour.
pub proof fn lemma_there_and_back(c: Rgb)
    ensures
        c.hsv().rgb() == c,
{
    let p = hue::lemma_hsv(c);
    rounding::lemma_tiny_values();
    lemma_close_hue(c, c.hsv());
}

/// Whether hue, saturation and value lie where they should.
pub open spec fn in_range(x: Hsv) -> bool {
    &&& Single::of_int(0).at_most(x.h)
    &&& x.h.below(Single::of_int(360))
    &&& Single::of_int(0).at_most(x.s)
    &&& x.s.at_most(Single::of_int(1))
    &&& Single::of_int(0).at_most(x.v)
    &&& x.v.at_most(Single::of_int(1))
}

/// The same, as values.
pub proof fn lemma_in_range(x: Hsv)
    requires
        in_range(x),
    ensures
        x.h.is_finite(),
        x.s.is_finite(),
        x.v.is_finite(),
        0 as real <= rounding::value(x.h),
        rounding::value(x.h) < 360 as real,
        0 as real <= rounding::value(x.s) <= 1 as real,
        0 as real <= rounding::value(x.v) <= 1 as real,
{
    rounding::lemma_int_value(0);
    rounding::lemma_int_value(1);
    rounding::lemma_int_value(360);
    rounding::lemma_int_rank(0);
    rounding::lemma_int_rank(1);
    rounding::lemma_int_rank(360);
    rounding::lemma_units_steps();
    rounding::lemma_small_is_finite(x.h);
    rounding::lemma_small_is_finite(x.s);
    rounding::lemma_small_is_finite(x.v);
    rounding::lemma_value_order(Single::of_int(0), x.h);
    rounding::lemma_value_order(x.h, Single::of_int(360));
    rounding::lemma_value_order(Single::of_int(0), x.s);
    rounding::lemma_value_order(x.s, Single::of_int(1));
    rounding::lemma_value_order(Single::of_int(0), x.v);
    rounding::lemma_value_order(x.v, Single::of_int(1));
}

/// What the way back from hue, saturation and value goes through: the chroma, the second
/// strongest share and the share that all have, each between zero and one.
pub proof fn lemma_shares(x: Hsv)
    requires
        in_range(x),
    ensures
        ({
            let one = Single::of_int(1);
            let c = x.v.product(x.s);
            let h6 = x.h.quotient(Single::of_int(60));
            let t = one.difference(h6.remainder(Single::of_int(2)).difference(one).magnitude());
            let m = x.v.difference(c);
            &&& c.is_finite() && 0 as real <= rounding::value(c) <= rounding::value(x.v)
            &&& t.is_finite() && 0 as real <= rounding::value(t) <= 1 as real
            &&& c.product(t).is_finite() && 0 as real <= rounding::value(c.product(t)) <= 1 as real
            &&& m.is_finite() && 0 as real <= rounding::value(m) <= 1 as real
            &&& hue::within(
                rounding::value(m),
                rounding::value(x.v) - rounding::value(c),
                rounding::tiny(-23),
            )
            &&& rounding::value(x.s) == 0 as real ==> rounding::value(c) == 0 as real
            &&& rounding::value(x.s) == 1 as real ==> rounding::value(c) == rounding::value(x.v)
            &&& rounding::value(c) == rounding::value(x.v) ==> rounding::value(m) == 0 as real
            &&& rounding::value(c) == 0 as real ==> rounding::value(c.product(t)) == 0 as real
        }),
{
    lemma_in_range(x);
    rounding::lemma_tiny_values();
    rounding::lemma_int_value(0);
    rounding::lemma_int_value(1);
    rounding::lemma_int_value(6);
    rounding::lemma_int_value(60);
    let one = Single::of_int(1);
    let zero = Single::of_int(0);
    let (hv, sv, vv) = (rounding::value(x.h), rounding::value(x.s), rounding::value(x.v));
    assert(0 as real <= vv * sv <= vv) by (nonlinear_arith)
        requires
            0 as real <= vv,
            0 as real <= sv <= 1 as real,
    ;
    assert(sv == 0 as real ==> vv * sv == 0 as real) by (nonlinear_arith);
    assert(sv == 1 as real ==> vv * sv == vv) by (nonlinear_arith);
    let c = x.v.product(x.s);
    rounding::lemma_product_value(x.v, x.s, -23);
    rounding::lemma_product_side(x.v, x.s, zero);
    rounding::lemma_product_side(x.v, x.s, x.v);
    let sixty = Single::of_int(60);
    let h6 = x.h.quotient(sixty);
    assert(hv / rounding::value(sixty) == hv / 60 as real);
    rounding::lemma_quotient_value(x.h, sixty, -20);
    rounding::lemma_quotient_side(x.h, sixty, zero);
    let k = lemma_triangle(h6);
    let t = one.difference(h6.remainder(Single::of_int(2)).difference(one).magnitude());
    let (cv, tv) = (rounding::value(c), rounding::value(t));
    assert(0 as real <= cv * tv <= 1 as real) by (nonlinear_arith)
        requires
            0 as real <= cv <= 1 as real,
            0 as real <= tv <= 1 as real,
    ;
    assert(cv == 0 as real ==> cv * tv == 0 as real) by (nonlinear_arith);
    rounding::lemma_product_value(c, t, -23);
    rounding::lemma_product_side(c, t, zero);
    rounding::lemma_product_side(c, t, one);
    rounding::lemma_finite_sign(c);
    rounding::lemma_value_order(c, c);
    rounding::lemma_sum_value(x.v, c.negated(), -23);
    rounding::lemma_sum_side(x.v, c.negated(), zero);
    rounding::lemma_sum_side(x.v, c.negated(), one);
}

/// Without chroma all levels are the same, whatever the hue.
pub proof fn lemma_grey(x: Hsv)
    requires
        in_range(x),
        rounding::value(x.s) == 0 as real,
    ensures
        x.rgb().r == Hsv::level(Single::of_int(0), x.v.difference(x.v.product(x.s))),
        x.rgb().g == x.rgb().r,
        x.rgb().b == x.rgb().r,
{
    lemma_shares(x);
    rounding::lemma_int_value(0);
    let c = x.v.product(x.s);
    let h6 = x.h.quotient(Single::of_int(60));
    let one = Single::of_int(1);
    let t = one.difference(h6.remainder(Single::of_int(2)).difference(one).magnitude());
    let m = x.v.difference(c);
    lemma_no_share(c, m);
    lemma_no_share(c.product(t), m);
    lemma_no_share(Single::of_int(0), m);
}

/// A share of nothing leaves the level to the share that all have.
proof fn lemma_no_share(a: Single, m: Single)
    requires
        a.is_finite(),
        m.is_finite(),
        rounding::value(a) == 0 as real,
        0 as real <= rounding::value(m) <= 1 as real,
    ensures
        Hsv::level(a, m) == Hsv::level(Single::of_int(0), m),
        rounding::value(m) == 0 as real ==> Hsv::level(a, m) == 0,
{
    let zero = Single::of_int(0);
    rounding::lemma_int_value(0);
    rounding::lemma_tiny_values();
    rounding::lemma_sum_side(a, m, m);
    rounding::lemma_sum_side(zero, m, m);
    rounding::lemma_sum_value(a, m, -23);
    rounding::lemma_sum_value(zero, m, -23);
    if rounding::value(m) == 0 as real {
        assert((0 as real) / 255 as real == 0 as real);
        lemma_level(a, m, 0);
        lemma_level(zero, m, 0);
    } else {
        rounding::lemma_value_order(a.sum(m), m);
        rounding::lemma_value_order(m, a.sum(m));
        rounding::lemma_value_order(zero.sum(m), m);
        rounding::lemma_value_order(m, zero.sum(m));
        rounding::lemma_value_order(zero, m);
        rounding::lemma_int_rank(0);
        rounding::lemma_bit_order(a.sum(m), m);
        rounding::lemma_bit_order(zero.sum(m), m);
    }
}

/// Full saturation leaves one colour out; full value brings one to its full level; without
/// value there is only black.
pub proof fn lemma_ends(x: Hsv)
    requires
        in_range(x),
    ensures
        rounding::value(x.s) == 1 as real ==> x.rgb().r == 0 || x.rgb().g == 0 || x.rgb().b == 0,
        rounding::value(x.v) == 1 as real ==> x.rgb().r == 255 || x.rgb().g == 255 || x.rgb().b
            == 255,
        rounding::value(x.v) == 0 as real ==> x.rgb() == (Rgb { r: 0, g: 0, b: 0 }),
{
    lemma_shares(x);
    lemma_in_range(x);
    rounding::lemma_int_value(0);
    rounding::lemma_tiny_values();
    let zero = Single::of_int(0);
    let c = x.v.product(x.s);
    let h6 = x.h.quotient(Single::of_int(60));
    let one = Single::of_int(1);
    let t = one.difference(h6.remainder(Single::of_int(2)).difference(one).magnitude());
    let m = x.v.difference(c);
    if rounding::value(x.s) == 1 as real {
        lemma_no_share(zero, m);
    }
    if rounding::value(x.v) == 1 as real {
        assert((255 as real) / 255 as real == 1 as real);
        lemma_level(c, m, 255);
    }
    if rounding::value(x.v) == 0 as real {
        lemma_no_share(zero, m);
        lemma_no_share(c, m);
        lemma_no_share(c.product(t), m);
    }
}

/// An angle turned up is not negative, and is within a turn where it had to be turned.
pub proof fn lemma_turned_up(h: Single)
    requires
        -rounding::units(32) < h.rank() < rounding::units(32),
        !h.is_nan(),
    ensures
        0 <= h.turned_up().rank() < rounding::units(32),
        !h.turned_up().is_nan(),
    decreases
            (if h.rank() < 0 {
                -h.rank()
            } else {
                0
            }),
{
    rounding::lemma_int_rank(0);
    rounding::lemma_int_rank(360);
    rounding::lemma_units_steps();
    if h.rank() < 0 {
        rounding::lemma_turn_up(h);
        lemma_turned_up(h.sum(Single::of_int(360)));
    }
}

/// An angle turned down is within one turn.
pub proof fn lemma_turned_down(h: Single)
    requires
        0 <= h.rank() < rounding::units(32),
        !h.is_nan(),
    ensures
        0 <= h.turned_down().rank() < 360 * rounding::one(),
        !h.turned_down().is_nan(),
    decreases h.rank(),
{
    rounding::lemma_int_rank(360);
    if 360 * rounding::one() <= h.rank() {
        rounding::lemma_turn_down(h);
        lemma_turned_down(h.difference(Single::of_int(360)));
    }
}

/// Levels lie in the order of their shares.
proof fn lemma_level_order(a: Single, b: Single, m: Single)
    requires
        a.is_finite(),
        b.is_finite(),
        m.is_finite(),
        0 as real <= rounding::value(a) <= rounding::value(b),
        rounding::value(b) <= 1 as real,
        0 as real <= rounding::value(m) <= 1 as real,
    ensures
        Hsv::level(a, m) <= Hsv::level(b, m),
{
    let full = Single::of_int(255);
    let half = Single::of_ratio(1, 2);
    let zero = Single::of_int(0);
    rounding::lemma_tiny_values();
    rounding::lemma_int_value(0);
    rounding::lemma_int_rank(0);
    rounding::lemma_int_value(255);
    rounding::lemma_int_rank(255);
    lemma_half();
    let (x, y) = (a.sum(m), b.sum(m));
    rounding::lemma_value_order(a, b);
    rounding::lemma_sum_value(a, m, -22);
    rounding::lemma_sum_value(b, m, -22);
    rounding::lemma_sum_side(a, m, zero);
    rounding::lemma_sum_side(b, m, zero);
    rounding::lemma_sum_monotone(a, m, b, m);
    rounding::lemma_value_order(zero, x);
    rounding::lemma_value_order(zero, y);
    let (p, q) = (x.product(full), y.product(full));
    rounding::lemma_product_value(x, full, -13);
    rounding::lemma_product_value(y, full, -13);
    rounding::lemma_product_side(x, full, zero);
    rounding::lemma_product_side(y, full, zero);
    let o = rounding::one();
    rounding::lemma_units_steps();
    let (r, s) = (rounding::exact_product(x, full), rounding::exact_product(y, full));
    let (i, j, k) = (x.rank(), y.rank(), full.rank());
    assert(0 <= i * k && (i * k) * o <= (j * k) * o) by (nonlinear_arith)
        requires
            0 <= i <= j,
            k == 255 * o,
            o > 0,
    {
        assert(i * k <= j * k);
    }
    rounding::lemma_ordered(r, p, i * k, o, s, q, j * k, o);
    let (u, v) = (p.sum(half), q.sum(half));
    rounding::lemma_sum_value(p, half, -13);
    rounding::lemma_sum_value(q, half, -13);
    rounding::lemma_sum_side(p, half, zero);
    rounding::lemma_sum_side(q, half, zero);
    rounding::lemma_sum_monotone(p, half, q, half);
    rounding::lemma_value_order(zero, u);
    rounding::lemma_value_order(zero, v);
    let (e, f) = (u.within(zero, full), v.within(zero, full));
    rounding::lemma_whole(e);
    rounding::lemma_whole(f);
    rounding::lemma_value_order(e, f);
    rounding::lemma_value_order(e, full);
    rounding::lemma_value_order(f, full);
}

/// The largest of three levels.
pub open spec fn largest(c: Rgb) -> u8 {
    if c.r >= c.g && c.r >= c.b {
        c.r
    } else if c.g >= c.b {
        c.g
    } else {
        c.b
    }
}

/// The smallest of three levels.
pub open spec fn smallest(c: Rgb) -> u8 {
    if c.r <= c.g && c.r <= c.b {
        c.r
    } else if c.g <= c.b {
        c.g
    } else {
        c.b
    }
}

/// The largest and the smallest level do not depend on the hue.
#[verifier::rlimit(40)]
pub proof fn lemma_outer_levels(x: Hsv)
    requires
        in_range(x),
    ensures
        ({
            let c = x.v.product(x.s);
            let m = x.v.difference(c);
            &&& largest(x.rgb()) == Hsv::level(c, m)
            &&& smallest(x.rgb()) == Hsv::level(Single::of_int(0), m)
        }),
{
    lemma_shares(x);
    lemma_in_range(x);
    let one = Single::of_int(1);
    let zero = Single::of_int(0);
    let c = x.v.product(x.s);
    let h6 = x.h.quotient(Single::of_int(60));
    let t = one.difference(h6.remainder(Single::of_int(2)).difference(one).magnitude());
    let m = x.v.difference(c);
    let y = c.product(t);
    rounding::lemma_int_value(0);
    let (p, q) = (rounding::value(c), rounding::value(t));
    assert(p * q <= p) by (nonlinear_arith)
        requires
            0 as real <= p,
            q <= 1 as real,
    ;
    rounding::lemma_product_side(c, t, c);
    lemma_level_order(zero, y, m);
    lemma_level_order(y, c, m);
}

/// A full turn leaves a hue where it was, but for what rounding moves.
pub proof fn lemma_full_turn(h: Single)
    requires
        h.is_finite(),
        0 as real <= rounding::value(h) <= 360 as real - 1 as real / 16 as real,
    ensures
        ({
            let up = h.sum(Single::of_int(360)).turned_up().turned_down();
            let down = h.sum(Single::of_int(-360)).turned_up().turned_down();
            let e = 2 as real * rounding::tiny(-13);
            &&& up.is_finite() && 0 as real <= rounding::value(up) <= 360 as real
            &&& down.is_finite() && 0 as real <= rounding::value(down) <= 360 as real
            &&& hue::within(rounding::value(up), rounding::value(h), e)
            &&& hue::within(rounding::value(down), rounding::value(h), e)
        }),
{
    let zero = Single::of_int(0);
    let turn = Single::of_int(360);
    let back = Single::of_int(-360);
    rounding::lemma_tiny_values();
    rounding::lemma_units_steps();
    rounding::lemma_int_value(0);
    rounding::lemma_int_rank(0);
    rounding::lemma_int_value(360);
    rounding::lemma_int_rank(360);
    rounding::lemma_int_value(-360);
    rounding::lemma_int_rank(-360);
    rounding::lemma_value_order(turn, turn);
    rounding::lemma_finite_sign(turn);
    rounding::lemma_value_order(zero, h);
    rounding::lemma_value_order(h, turn);
    rounding::lemma_moved_angle(h, 360);
    rounding::lemma_moved_angle(h, -360i32);
    reveal_with_fuel(Single::turned_up, 2);
    reveal_with_fuel(Single::turned_down, 2);
    // up and back again
    let a = h.sum(turn);
    rounding::lemma_sum_value(h, turn, -13);
    rounding::lemma_sum_side(h, turn, turn);
    rounding::lemma_value_order(turn, a);
    rounding::lemma_value_order(zero, a);
    let b = a.difference(turn);
    rounding::lemma_sum_value(a, turn.negated(), -14);
    rounding::lemma_sum_side(a, turn.negated(), zero);
    rounding::lemma_value_order(turn, b);
    rounding::lemma_value_order(zero, b);
    assert(a.turned_up() == a);
    assert(b.turned_down() == b);
    // down and up again
    let d = h.sum(back);
    rounding::lemma_sum_value(h, back, -14);
    rounding::lemma_sum_side(h, back, back);
    rounding::lemma_value_order(d, zero);
    rounding::lemma_value_order(back, d);
    let f = d.sum(turn);
    rounding::lemma_sum_value(d, turn, -14);
    rounding::lemma_sum_side(d, turn, zero);
    rounding::lemma_value_order(zero, f);
    rounding::lemma_value_order(turn, f);
    assert(f.turned_up() == f);
    assert(f.turned_down() == f);
}

/// A level lies within little more than a half of the share that it stands for.
proof fn lemma_level_near(share: Single, m: Single)
    requires
        share.is_finite(),
        m.is_finite(),
        0 as real <= rounding::value(share) <= 1 as real,
        0 as real <= rounding::value(m) <= 1 as real,
        rounding::value(share) + rounding::value(m) <= 1 as real + rounding::tiny(-16),
    ensures
        hue::within(
            Hsv::level(share, m) as real,
            255 as real * (rounding::value(share) + rounding::value(m)),
            1 as real / 2 as real + 1 as real / 2048 as real,
        ),
{
    rounding::lemma_tiny_values();
    rounding::lemma_int_value(0);
    rounding::lemma_int_value(255);
    let full = Single::of_int(255);
    let zero = Single::of_int(0);
    let half = Single::of_ratio(1, 2);
    lemma_half();
    let y = share.sum(m);
    rounding::lemma_sum_value(share, m, -22);
    rounding::lemma_sum_side(share, m, zero);
    let yv = rounding::value(y);
    let z = y.product(full);
    assert(rounding::value(y) * rounding::value(full) == yv * 255 as real);
    rounding::lemma_product_value(y, full, -14);
    rounding::lemma_product_side(y, full, zero);
    let w = z.sum(half);
    rounding::lemma_sum_value(z, half, -14);
    rounding::lemma_sum_side(z, half, zero);
    rounding::lemma_value_order(w, zero);
    rounding::lemma_value_order(full, w);
    rounding::lemma_value_order(w, full);
    rounding::lemma_value_order(zero, w);
    let v = w.within(zero, full);
    rounding::lemma_value_order(v, zero);
    rounding::lemma_value_order(zero, v);
    rounding::lemma_value_order(v, full);
    rounding::lemma_int_rank(0);
    rounding::lemma_whole(v);
    let p = v.parts();
    let k = Single::whole(p->Finite_sig as int, p->Finite_exp as int);
    assert(0 <= k <= 255);
    assert(Hsv::level(share, m) as int == k);
    assert(Hsv::level(share, m) as real == k as real);
}

/// The level, not rounded, of a colour of which the hue holds the given part.
pub open spec fn ideal_level(s: real, v: real, part: real) -> real {
    255 as real * (v * (1 as real - s + s * part))
}

/// How far a level may lie from the ideal one.
pub open spec fn level_slack() -> real {
    1 as real / 2 as real + 1 as real / 1000 as real
}

/// Whether the levels of a colour are those of a hue, in degrees, a saturation and a value.
pub open spec fn levels_of(c: Rgb, h: real, s: real, v: real) -> bool {
    let sixths = h / 60 as real;
    &&& hue::within(c.r as real, ideal_level(s, v, hue::red_part(sixths)), level_slack())
    &&& hue::within(c.g as real, ideal_level(s, v, hue::green_part(sixths)), level_slack())
    &&& hue::within(c.b as real, ideal_level(s, v, hue::blue_part(sixths)), level_slack())
}

/// One level of the way back.
proof fn lemma_ideal_level(a: Single, m: Single, cv: real, s: real, v: real, part: real, exact: real)
    requires
        a.is_finite(),
        m.is_finite(),
        0 as real <= rounding::value(a) <= 1 as real,
        0 as real <= rounding::value(m) <= 1 as real,
        0 as real <= s <= 1 as real,
        0 as real <= v <= 1 as real,
        0 as real <= part <= 1 as real,
        0 as real <= exact <= 1 as real,
        hue::within(part, exact, rounding::tiny(-20)),
        hue::within(cv, v * s, rounding::tiny(-23)),
        hue::within(rounding::value(m), v - cv, rounding::tiny(-23)),
        hue::within(rounding::value(a), cv * part, 4 as real * rounding::tiny(-23)),
    ensures
        hue::within(Hsv::level(a, m) as real, ideal_level(s, v, exact), level_slack()),
{
    rounding::lemma_tiny_values();
    let e = rounding::tiny(-23);
    let f = rounding::tiny(-20);
    let vs = v * s;
    assert(0 as real <= vs <= 1 as real && vs <= v) by (nonlinear_arith)
        requires
            vs == v * s,
            0 as real <= s <= 1 as real,
            0 as real <= v <= 1 as real,
    ;
    // (cv - vs) * (part - 1) + vs * (part - exact)
    let d = cv - vs;
    assert(-e <= d * (part - 1 as real) <= e) by (nonlinear_arith)
        requires
            -e <= d <= e,
            0 as real <= part <= 1 as real,
            e > 0 as real,
    ;
    let g = part - exact;
    assert(-f <= vs * g <= f) by (nonlinear_arith)
        requires
            -f <= g <= f,
            0 as real <= vs <= 1 as real,
            f > 0 as real,
    ;
    assert(cv * part - cv == d * (part - 1 as real) + vs * g + vs * exact - vs) by (nonlinear_arith)
        requires
            d == cv - vs,
            g == part - exact,
    ;
    let ideal = v * (1 as real - s + s * exact);
    assert(ideal == v - vs + vs * exact) by (nonlinear_arith)
        requires
            vs == v * s,
            ideal == v * (1 as real - s + s * exact),
    ;
    assert(vs * exact <= vs) by (nonlinear_arith)
        requires
            0 as real <= vs,
            exact <= 1 as real,
    ;
    lemma_level_near(a, m);
}

/// The colour that a hue, a saturation and a value stand for has the levels of them.
pub proof fn lemma_levels_of(x: Hsv)
    requires
        in_range(x),
    ensures
        levels_of(
            x.rgb(),
            rounding::value(x.h),
            rounding::value(x.s),
            rounding::value(x.v),
        ),
{
    lemma_in_range(x);
    lemma_shares(x);
    rounding::lemma_tiny_values();
    rounding::lemma_int_value(0);
    rounding::lemma_int_value(1);
    rounding::lemma_int_value(6);
    rounding::lemma_int_value(60);
    let (hv, sv, vv) = (rounding::value(x.h), rounding::value(x.s), rounding::value(x.v));
    let zero = Single::of_int(0);
    let one = Single::of_int(1);
    assert(0 as real <= vv * sv <= 1 as real) by (nonlinear_arith)
        requires
            0 as real <= vv <= 1 as real,
            0 as real <= sv <= 1 as real,
    ;
    let c = x.v.product(x.s);
    rounding::lemma_product_value(x.v, x.s, -23);
    let cv = rounding::value(c);
    let sixty = Single::of_int(60);
    let h6 = x.h.quotient(sixty);
    assert(hv / rounding::value(sixty) == hv / 60 as real);
    rounding::lemma_quotient_value(x.h, sixty, -20);
    rounding::lemma_quotient_side(x.h, sixty, zero);
    rounding::lemma_quotient_side(x.h, sixty, Single::of_int(6));
    let h6v = rounding::value(h6);
    let k = lemma_triangle(h6);
    let t = one.difference(h6.remainder(Single::of_int(2)).difference(one).magnitude());
    let tv = rounding::value(t);
    let exact = 1 as real - hue::size(h6v - 2 as real * k as real - 1 as real);
    let e = rounding::tiny(-23);
    assert(0 as real <= cv * tv <= 1 as real && -(2 as real) * e <= cv * tv - cv * exact
        <= 2 as real * e) by (nonlinear_arith)
        requires
            0 as real <= cv <= 1 as real,
            0 as real <= tv <= 1 as real,
            -(2 as real) * e <= tv - exact <= 2 as real * e,
            e > 0 as real,
    ;
    let y = c.product(t);
    rounding::lemma_product_value(c, t, -23);
    lemma_arranged(h6, c, y, k);
    let m = x.v.difference(c);
    let s = Hsv::arranged(h6.toward_zero(i32::MIN as int, i32::MAX as int), c, y);
    let q = hv / 60 as real;
    lemma_ideal_level(s.0, m, cv, sv, vv, hue::red_part(h6v), hue::red_part(q));
    lemma_ideal_level(s.1, m, cv, sv, vv, hue::green_part(h6v), hue::green_part(q));
    lemma_ideal_level(s.2, m, cv, sv, vv, hue::blue_part(h6v), hue::blue_part(q));
}

} // verus!
