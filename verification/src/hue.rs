//! Where hue, saturation and value lie.
use vstd::prelude::*;
use vstd::arithmetic::power2::*;
use crate::single::Single;
use crate::rounding;
use crate::color::Rgb;

verus! {

/// The value of a level's share, between zero and one and within `2^-23` of the exact one.
pub proof fn lemma_share(level: u8)
    ensures
        Rgb::share(level).is_finite(),
        0 as real <= rounding::value(Rgb::share(level)) <= 1 as real,
        level as real / 255 as real - rounding::tiny(-23) <= rounding::value(Rgb::share(level))
            <= level as real / 255 as real + rounding::tiny(-23),
        level == 0 ==> rounding::value(Rgb::share(level)) == 0 as real,
        level == 255 ==> rounding::value(Rgb::share(level)) == 1 as real,
{
    let x = Single::of_int(level as int);
    let y = Single::of_int(255);
    rounding::lemma_int_value(level as int);
    rounding::lemma_int_value(255);
    rounding::lemma_int_value(0);
    rounding::lemma_int_value(1);
    rounding::lemma_tiny(23);
    lemma2_to64();
    let v = level as real;
    assert(0 as real <= v / 255 as real <= 1 as real) by (nonlinear_arith)
        requires
            0 as real <= v <= 255 as real,
    ;
    rounding::lemma_quotient_value(x, y, -23);
    rounding::lemma_quotient_side(x, y, Single::of_int(0));
    rounding::lemma_quotient_side(x, y, Single::of_int(1));
}

/// Shares of different levels are at least `2^-9` apart.
pub proof fn lemma_shares_apart(a: u8, b: u8)
    requires
        a < b,
    ensures
        rounding::value(Rgb::share(a)) + rounding::tiny(-9) <= rounding::value(Rgb::share(b)),
{
    lemma_share(a);
    lemma_share(b);
    rounding::lemma_tiny(23);
    rounding::lemma_tiny(9);
    lemma2_to64();
    let (u, v) = (a as real, b as real);
    let (s, t) = (rounding::tiny(-23), rounding::tiny(-9));
    assert(t == 0x4000 as real * s) by (nonlinear_arith)
        requires
            s * 0x80_0000 as real == 1 as real,
            t * 0x200 as real == 1 as real,
    ;
    assert(v / 255 as real - u / 255 as real >= 1 as real / 255 as real) by (nonlinear_arith)
        requires
            v >= u + 1 as real,
    ;
}

/// What the weaker two levels come to, in parts of the range that all three span.
pub proof fn lemma_ratio(p: Single, q: Single, mx: Single, mn: Single)
    requires
        p.is_finite(),
        q.is_finite(),
        mx.is_finite(),
        mn.is_finite(),
        mn.rank() <= p.rank() <= mx.rank(),
        mn.rank() <= q.rank() <= mx.rank(),
        0 as real <= rounding::value(mn),
        rounding::value(mx) <= 1 as real,
        rounding::value(mn) + rounding::tiny(-9) <= rounding::value(mx),
    ensures
        ({
            let d = mx.difference(mn);
            let w = p.difference(q);
            let r = w.quotient(d);
            &&& d.is_finite()
            &&& w.is_finite()
            &&& r.is_finite()
            &&& rounding::tiny(-9) <= rounding::value(d) <= rounding::value(mx)
            &&& -rounding::value(d) <= rounding::value(w) <= rounding::value(d)
            &&& -1 as real <= rounding::value(r) <= 1 as real
            &&& q.rank() <= p.rank() ==> rounding::value(r) >= 0 as real
            &&& rounding::value(p) + rounding::tiny(-9) <= rounding::value(q) ==> rounding::value(
                r,
            ) <= -rounding::tiny(-9)
            &&& within(
                rounding::value(r) * (rounding::value(mx) - rounding::value(mn)),
                rounding::value(p) - rounding::value(q),
                3 as real * rounding::tiny(-23),
            )
            &&& within(
                rounding::value(d),
                rounding::value(mx) - rounding::value(mn),
                rounding::tiny(-23),
            )
        }),
{
    let d = mx.difference(mn);
    let w = p.difference(q);
    let r = w.quotient(d);
    lemma2_to64();
    rounding::lemma_tiny(9);
    rounding::lemma_tiny(23);
    rounding::lemma_finite_sign(mn);
    rounding::lemma_finite_sign(q);
    rounding::lemma_value_order(mn, mx);
    rounding::lemma_value_order(q, p);
    rounding::lemma_value_order(p, mx);
    rounding::lemma_value_order(mn, p);
    rounding::lemma_value_order(q, mx);
    rounding::lemma_value_order(mn, q);
    rounding::lemma_value_order(p, q);
    let s = rounding::tiny(-23);
    let n = 0x80_0000 as real;
    assert(n * s == 1 as real) by (nonlinear_arith)
        requires
            s * n == 1 as real,
    ;
    rounding::lemma_sum_value(mx, mn.negated(), -23);
    rounding::lemma_sum_value(p, q.negated(), -23);
    let least = rounding::dyadic(1, 9);
    let t = rounding::tiny(-9);
    assert(rounding::value(least) == t) by (nonlinear_arith)
        requires
            rounding::value(least) * 0x200 as real == 1 as real,
            t * 0x200 as real == 1 as real,
    ;
    rounding::lemma_sum_side(mx, mn.negated(), least);
    rounding::lemma_sum_side(mx, mn.negated(), mx);
    rounding::lemma_difference_monotone(p, q, mx, mn);
    rounding::lemma_difference_monotone(q, p, mx, mn);
    rounding::lemma_difference_odd(p, q);
    rounding::lemma_value_order(w, d);
    rounding::lemma_value_order(d.negated(), w);
    rounding::lemma_rank_sign(d);
    rounding::lemma_value_order(d, d);
    let (wv, dv) = (rounding::value(w), rounding::value(d));
    assert(-1 as real <= wv / dv <= 1 as real) by (nonlinear_arith)
        requires
            -dv <= wv <= dv,
            dv > 0 as real,
    ;
    rounding::lemma_int_value(1);
    rounding::lemma_int_value(-1);
    rounding::lemma_int_value(0);
    rounding::lemma_quotient_value(w, d, -23);
    rounding::lemma_quotient_side(w, d, Single::of_int(1));
    rounding::lemma_quotient_side(w, d, Single::of_int(-1));
    let zero = Single::of_int(0);
    if q.rank() <= p.rank() {
        rounding::lemma_sum_side(p, q.negated(), zero);
        assert(wv / dv >= 0 as real) by (nonlinear_arith)
            requires
                wv >= 0 as real,
                dv > 0 as real,
        ;
        rounding::lemma_quotient_side(w, d, zero);
    }
    let most = rounding::dyadic(-1, 9);
    assert(rounding::value(most) == -t) by (nonlinear_arith)
        requires
            rounding::value(most) * 0x200 as real == -1 as real,
            t * 0x200 as real == 1 as real,
    ;
    if rounding::value(p) + t <= rounding::value(q) {
        rounding::lemma_sum_side(p, q.negated(), most);
        assert(wv / dv <= -t) by (nonlinear_arith)
            requires
                wv <= -t,
                dv > 0 as real,
                dv <= 1 as real,
                t > 0 as real,
        ;
        rounding::lemma_quotient_side(w, d, most);
    }
    let rv = rounding::value(r);
    let span = rounding::value(mx) - rounding::value(mn);
    let gap = rounding::value(p) - rounding::value(q);
    assert(-s <= rv * dv - wv <= s) by (nonlinear_arith)
        requires
            wv / dv - s <= rv <= wv / dv + s,
            dv > 0 as real,
                dv <= 1 as real,
            s > 0 as real,
    {
        let y = wv / dv;
        assert(y * dv == wv);
        assert(rv * dv - wv == (rv - y) * dv);
        assert(-s * dv <= (rv - y) * dv <= s * dv);
        assert(s * dv <= s);
    }
    assert(-s <= rv * span - rv * dv <= s) by (nonlinear_arith)
        requires
            -s <= span - dv <= s,
            -1 as real <= rv <= 1 as real,
            s > 0 as real,
    ;
}

/// Whether two values are at most `e` apart.
pub open spec fn within(a: real, b: real, e: real) -> bool {
    -e <= a - b <= e
}

/// A share of one between zero and one.
pub open spec fn unit(x: real) -> real {
    if x < 0 as real {
        0 as real
    } else if x > 1 as real {
        1 as real
    } else {
        x
    }
}

/// A value without its sign.
pub open spec fn size(x: real) -> real {
    if x < 0 as real {
        -x
    } else {
        x
    }
}

/// How much red a hue holds, in sixths of the circle.
pub open spec fn red_part(h: real) -> real {
    unit(size(h - 3 as real) - 1 as real)
}

/// How much green a hue holds, in sixths of the circle.
pub open spec fn green_part(h: real) -> real {
    unit(2 as real - size(h - 2 as real))
}

/// How much blue a hue holds, in sixths of the circle.
pub open spec fn blue_part(h: real) -> real {
    unit(2 as real - size(h - 4 as real))
}

/// The hue, in degrees, where red is the strongest level.
pub proof fn lemma_red_hue(ratio: Single)
    requires
        ratio.is_finite(),
        -1 as real <= rounding::value(ratio) <= 1 as real,
        rounding::value(ratio) >= 0 as real || rounding::value(ratio) <= -rounding::tiny(-9),
    ensures
        ({
            let q = rounding::value(ratio);
            let p = Single::of_int(60).product(ratio.remainder(Single::of_int(6)));
            let h = p.sum(Single::of_int(360));
            &&& p.is_finite()
            &&& q >= 0 as real ==> !p.below(Single::of_int(0)) && 0 as real <= rounding::value(p)
                <= 60 as real && within(
                rounding::value(p),
                60 as real * q,
                rounding::tiny(-13),
            )
            &&& q < 0 as real ==> p.below(Single::of_int(0)) && h.is_finite() && 300 as real
                <= rounding::value(h) && rounding::value(h) <= 360 as real - 1 as real / 16 as real && within(
                rounding::value(h),
                60 as real * (q + 6 as real),
                rounding::tiny(-13),
            )
        }),
{
    let q = rounding::value(ratio);
    let six = Single::of_int(6);
    let sixty = Single::of_int(60);
    let zero = Single::of_int(0);
    let turn = Single::of_int(360);
    rounding::lemma_int_value(6);
    rounding::lemma_int_value(60);
    rounding::lemma_int_value(-60);
    rounding::lemma_int_value(0);
    rounding::lemma_int_value(300);
    rounding::lemma_int_value(360);
    rounding::lemma_int_rank(0);
    lemma2_to64();
    rounding::lemma_tiny_values();
    rounding::lemma_value_order(ratio, six);
    rounding::lemma_value_order(six.negated(), ratio);
    rounding::lemma_value_order(six, six);
    rounding::lemma_rank_sign(six);
    rounding::lemma_value_order(zero, six);
    rounding::lemma_remainder(ratio, six);
    let rest = ratio.remainder(six);
    if ratio.rank() >= 0 {
        vstd::arithmetic::div_mod::lemma_small_mod(ratio.rank() as nat, six.rank() as nat);
    } else {
        vstd::arithmetic::div_mod::lemma_small_mod((-ratio.rank()) as nat, six.rank() as nat);
    }
    assert(rest.rank() == ratio.rank());
    assert(rounding::value(rest) == q);
    let p = sixty.product(rest);
    assert(rounding::value(sixty) * rounding::value(rest) == 60 as real * q);
    rounding::lemma_product_value(sixty, rest, -17);
    rounding::lemma_product_side(sixty, rest, sixty);
    rounding::lemma_product_side(sixty, rest, zero);
    rounding::lemma_product_side(sixty, rest, Single::of_int(-60));
    rounding::lemma_value_order(p, zero);
    if q < 0 as real {
        let edge = rounding::dyadic(360 * 16 - 1, 4);
        rounding::lemma_sum_side(p, turn, edge);
        rounding::lemma_sum_side(p, turn, Single::of_int(300));
        rounding::lemma_sum_value(p, turn, -14);
    }
}

/// The hue, in degrees, where green or blue is the strongest level.
pub proof fn lemma_other_hue(ratio: Single, base: int)
    requires
        ratio.is_finite(),
        -1 as real <= rounding::value(ratio) <= 1 as real,
        base == 2 || base == 4,
    ensures
        ({
            let q = rounding::value(ratio);
            let h = Single::of_int(60).product(ratio.sum(Single::of_int(base)));
            &&& h.is_finite()
            &&& !h.below(Single::of_int(0))
            &&& 0 as real <= rounding::value(h) <= 300 as real
            &&& within(rounding::value(h), 60 as real * (q + base as real), rounding::tiny(-13))
        }),
{
    let q = rounding::value(ratio);
    let sixty = Single::of_int(60);
    let zero = Single::of_int(0);
    rounding::lemma_int_value(base);
    rounding::lemma_int_value(60);
    rounding::lemma_int_value(0);
    rounding::lemma_int_value(1);
    rounding::lemma_int_value(5);
    rounding::lemma_int_value(300);
    lemma2_to64();
    rounding::lemma_tiny_values();
    let y = ratio.sum(Single::of_int(base));
    rounding::lemma_sum_side(ratio, Single::of_int(base), Single::of_int(1));
    rounding::lemma_sum_side(ratio, Single::of_int(base), Single::of_int(5));
    rounding::lemma_sum_value(ratio, Single::of_int(base), -20);
    let h = sixty.product(y);
    assert(rounding::value(sixty) * rounding::value(y) == 60 as real * rounding::value(y));
    rounding::lemma_product_value(sixty, y, -14);
    rounding::lemma_product_side(sixty, y, zero);
    rounding::lemma_product_side(sixty, y, Single::of_int(300));
    rounding::lemma_value_order(h, zero);
}

/// Shares of levels lie in the order of the levels.
pub proof fn lemma_share_order(a: u8, b: u8)
    ensures
        a < b ==> rounding::value(Rgb::share(a)) + rounding::tiny(-9) <= rounding::value(
            Rgb::share(b),
        ),
        b < a ==> rounding::value(Rgb::share(b)) + rounding::tiny(-9) <= rounding::value(
            Rgb::share(a),
        ),
        a <= b <==> Rgb::share(a).rank() <= Rgb::share(b).rank(),
        b <= a <==> Rgb::share(b).rank() <= Rgb::share(a).rank(),
{
    rounding::lemma_tiny_values();
    rounding::lemma_value_order(Rgb::share(a), Rgb::share(b));
    rounding::lemma_value_order(Rgb::share(b), Rgb::share(a));
    if a < b {
        lemma_shares_apart(a, b);
    } else if b < a {
        lemma_shares_apart(b, a);
    }
}

/// What hue, saturation and value say of the levels: `h` is the exact hue in sixths of the
/// circle, `least` the weakest share.
pub open spec fn describes(c: Rgb, h: real, least: real) -> bool {
    let x = c.hsv();
    let span = rounding::value(x.v) - least;
    let e = 4 as real * rounding::tiny(-23);
    &&& x.h.is_finite()
    &&& x.s.is_finite()
    &&& x.v.is_finite()
    &&& 0 as real <= h <= 6 as real
    &&& 0 as real <= least <= rounding::value(x.v)
    &&& rounding::value(x.v) <= 1 as real
    &&& 0 as real <= rounding::value(x.s) <= 1 as real
    &&& 0 as real <= rounding::value(x.h)
    &&& rounding::value(x.h) <= 360 as real - 1 as real / 16 as real
    &&& within(rounding::value(x.h), 60 as real * h, rounding::tiny(-13))
    &&& within(rounding::value(x.s) * rounding::value(x.v), span, e)
    &&& within(rounding::value(Rgb::share(c.r)), least + span * red_part(h), e)
    &&& within(rounding::value(Rgb::share(c.g)), least + span * green_part(h), e)
    &&& within(rounding::value(Rgb::share(c.b)), least + span * blue_part(h), e)
}

/// Saturation times value gives back the span of the levels.
pub proof fn lemma_saturation(d: Single, mx: Single, span: real)
    requires
        d.is_finite(),
        mx.is_finite(),
        0 as real <= rounding::value(d) <= rounding::value(mx),
        rounding::value(mx) > 0 as real,
        rounding::value(mx) <= 1 as real,
        within(rounding::value(d), span, rounding::tiny(-23)),
    ensures
        d.quotient(mx).is_finite(),
        0 as real <= rounding::value(d.quotient(mx)) <= 1 as real,
        within(
            rounding::value(d.quotient(mx)) * rounding::value(mx),
            span,
            2 as real * rounding::tiny(-23),
        ),
{
    rounding::lemma_tiny_values();
    rounding::lemma_int_value(0);
    rounding::lemma_int_value(1);
    let (a, b) = (rounding::value(d), rounding::value(mx));
    assert(0 as real <= a / b <= 1 as real) by (nonlinear_arith)
        requires
            0 as real <= a <= b,
            b > 0 as real,
    ;
    rounding::lemma_quotient_value(d, mx, -23);
    rounding::lemma_quotient_side(d, mx, Single::of_int(0));
    rounding::lemma_quotient_side(d, mx, Single::of_int(1));
    let s = rounding::value(d.quotient(mx));
    let e = rounding::tiny(-23);
    assert(-e <= s * b - a <= e) by (nonlinear_arith)
        requires
            a / b - e <= s <= a / b + e,
            b > 0 as real,
            b <= 1 as real,
            e > 0 as real,
    {
        let y = a / b;
        assert(y * b == a);
        assert(s * b - a == (s - y) * b);
        assert(-e * b <= (s - y) * b <= e * b);
        assert(e * b <= e);
    }
}

/// Every colour's hue, saturation and value describe it.
#[verifier::rlimit(40)]
pub proof fn lemma_hsv(c: Rgb) -> (p: (real, real))
    ensures
        describes(c, p.0, p.1),
{
    let (r, g, b) = (Rgb::share(c.r), Rgb::share(c.g), Rgb::share(c.b));
    lemma_share(c.r);
    lemma_share(c.g);
    lemma_share(c.b);
    lemma_share_order(c.r, c.g);
    lemma_share_order(c.g, c.b);
    lemma_share_order(c.r, c.b);
    rounding::lemma_tiny_values();
    rounding::lemma_int_value(0);
    rounding::lemma_int_rank(0);
    let zero = Single::of_int(0);
    let mx = r.larger(g).larger(b);
    let mn = r.smaller(g).smaller(b);
    let d = mx.difference(mn);
    rounding::lemma_value_order(mx, zero);
    rounding::lemma_value_order(zero, mx);
    rounding::lemma_value_order(mn, mx);
    let (high, low) = (rounding::value(mx), rounding::value(mn));
    let span = high - low;
    let x = c.hsv();
    if c.r == c.g && c.g == c.b {
        rounding::lemma_value_order(mn, mn);
        rounding::lemma_finite_sign(mn);
        rounding::lemma_sum_side(mx, mn.negated(), zero);
        rounding::lemma_value_order(d, zero);
        rounding::lemma_value_order(zero, d);
        rounding::lemma_sum_value(mx, mn.negated(), -23);
        assert(d.equals(zero));
        assert(span == 0 as real);
        if high > 0 as real {
            lemma_saturation(d, mx, span);
        }
        assert(span * red_part(0 as real) == 0 as real) by (nonlinear_arith)
            requires
                span == 0 as real,
        ;
        assert(span * green_part(0 as real) == 0 as real) by (nonlinear_arith)
            requires
                span == 0 as real,
        ;
        assert(span * blue_part(0 as real) == 0 as real) by (nonlinear_arith)
            requires
                span == 0 as real,
        ;
        assert(rounding::value(zero) * high == 0 as real);
        (0 as real, low)
    } else {
        lemma_ratio(mn, mn, mx, mn);
        rounding::lemma_value_order(d, zero);
        rounding::lemma_value_order(zero, d);
        assert(!d.equals(zero));
        lemma_saturation(d, mx, span);
        let e = 3 as real * rounding::tiny(-23);
        let h = if mx.equals(r) {
            lemma_ratio(g, b, mx, mn);
            let ratio = g.difference(b).quotient(d);
            let q = rounding::value(ratio);
            lemma_red_hue(ratio);
            if c.g >= c.b {
                lemma_parts_of_hue(q, 0 as real, span);
                q
            } else {
                lemma_parts_of_hue(q, 6 as real, span);
                q + 6 as real
            }
        } else if mx.equals(g) {
            lemma_ratio(b, r, mx, mn);
            let ratio = b.difference(r).quotient(d);
            lemma_other_hue(ratio, 2);
            lemma_parts_of_hue(rounding::value(ratio), 2 as real, span);
            if c.b < c.r {
                assert(rounding::value(ratio) <= 0 as real);
            }
            rounding::value(ratio) + 2 as real
        } else {
            lemma_ratio(r, g, mx, mn);
            let ratio = r.difference(g).quotient(d);
            lemma_other_hue(ratio, 4);
            lemma_parts_of_hue(rounding::value(ratio), 4 as real, span);
            rounding::value(ratio) + 4 as real
        };
        (h, low)
    }
}

/// What a hue holds of each colour, in the part of the circle where one is the strongest.
proof fn lemma_parts_of_hue(q: real, base: real, span: real)
    requires
        -1 as real <= q <= 1 as real,
        base == 0 as real && q >= 0 as real || base == 6 as real && q <= 0 as real || base
            == 2 as real || base == 4 as real,
    ensures
        ({
            let h = q + base;
            let up = if q >= 0 as real {
                q * span
            } else {
                0 as real
            };
            let down = if q >= 0 as real {
                0 as real
            } else {
                -(q * span)
            };
            if base == 2 as real {
                span * green_part(h) == span && span * blue_part(h) == up && span * red_part(h)
                    == down
            } else if base == 4 as real {
                span * blue_part(h) == span && span * red_part(h) == up && span * green_part(h)
                    == down
            } else {
                span * red_part(h) == span && span * green_part(h) == up && span * blue_part(h)
                    == down
            }
        }),
{
    let h = q + base;
    let (x, y, z) = (red_part(h), green_part(h), blue_part(h));
    assert(x == 0 as real ==> span * x == 0 as real) by (nonlinear_arith);
    assert(y == 0 as real ==> span * y == 0 as real) by (nonlinear_arith);
    assert(z == 0 as real ==> span * z == 0 as real) by (nonlinear_arith);
    assert(x == 1 as real ==> span * x == span) by (nonlinear_arith);
    assert(y == 1 as real ==> span * y == span) by (nonlinear_arith);
    assert(z == 1 as real ==> span * z == span) by (nonlinear_arith);
    assert(x == q ==> span * x == q * span) by (nonlinear_arith);
    assert(y == q ==> span * y == q * span) by (nonlinear_arith);
    assert(z == q ==> span * z == q * span) by (nonlinear_arith);
    assert(x == -q ==> span * x == -(q * span)) by (nonlinear_arith);
    assert(y == -q ==> span * y == -(q * span)) by (nonlinear_arith);
    assert(z == -q ==> span * z == -(q * span)) by (nonlinear_arith);
}

/// A ratio changes its sign when the levels that it compares change places.
proof fn lemma_ratio_odd(p: Single, q: Single, d: Single)
    requires
        p.is_finite(),
        q.is_finite(),
        d.is_finite(),
        p.difference(q).is_finite(),
        q.difference(p).is_finite(),
        rounding::value(d) > 0 as real,
    ensures
        rounding::value(p.difference(q).quotient(d)) == -rounding::value(
            q.difference(p).quotient(d),
        ),
{
    let (w, u) = (p.difference(q), q.difference(p));
    let zero = Single::of_int(0);
    rounding::lemma_int_value(0);
    rounding::lemma_int_rank(0);
    rounding::lemma_value_order(zero, d);
    rounding::lemma_difference_odd(p, q);
    rounding::lemma_rank_sign(u);
    rounding::lemma_finite_sign(u);
    if u.rank() != 0 {
        rounding::lemma_equal_rank(w, u.negated());
        rounding::lemma_quotient_odd(u, d);
        let v = u.quotient(d);
        rounding::lemma_rank_sign(v);
        rounding::lemma_value_order(v.negated(), w.quotient(d));
        rounding::lemma_value_order(w.quotient(d), v.negated());
        rounding::lemma_value_order(v, v);
    } else {
        rounding::lemma_value_order(w, zero);
        rounding::lemma_value_order(zero, w);
        rounding::lemma_value_order(u, zero);
        rounding::lemma_value_order(zero, u);
        let v = rounding::value(d);
        assert((0 as real) / v == 0 as real) by (nonlinear_arith)
            requires
                v > 0 as real,
        ;
        rounding::lemma_quotient_side(w, d, zero);
        rounding::lemma_quotient_side(u, d, zero);
    }
}

/// The colour with green and blue exchanged.
pub open spec fn mirrored(c: Rgb) -> Rgb {
    Rgb { r: c.r, g: c.b, b: c.g }
}

/// Exchanging green and blue keeps the strongest and the weakest share.
proof fn lemma_mirrored_ends(c: Rgb)
    ensures
        ({
            let (r, g, b) = (Rgb::share(c.r), Rgb::share(c.g), Rgb::share(c.b));
            &&& r.larger(g).larger(b) == r.larger(b).larger(g)
            &&& r.smaller(g).smaller(b) == r.smaller(b).smaller(g)
        }),
{
    lemma_share(c.r);
    lemma_share(c.g);
    lemma_share(c.b);
    lemma_share_order(c.r, c.g);
    lemma_share_order(c.g, c.b);
    lemma_share_order(c.r, c.b);
}

/// Exchanging green and blue, where there is more green, mirrors the hue.
pub proof fn lemma_mirrored_hue(c: Rgb)
    requires
        c.g > c.b,
    ensures
        ({
            let (x, y) = (c.hsv(), mirrored(c).hsv());
            &&& x.s == y.s
            &&& x.v == y.v
            &&& rounding::value(x.h) > 0 as real
            &&& rounding::value(y.h) > 0 as real
            &&& within(
                rounding::value(x.h) + rounding::value(y.h),
                360 as real,
                2 as real * rounding::tiny(-13),
            )
        }),
{
    let (r, g, b) = (Rgb::share(c.r), Rgb::share(c.g), Rgb::share(c.b));
    lemma_mirrored_ends(c);
    lemma_share(c.r);
    lemma_share(c.g);
    lemma_share(c.b);
    lemma_share_order(c.r, c.g);
    lemma_share_order(c.g, c.b);
    lemma_share_order(c.r, c.b);
    rounding::lemma_tiny_values();
    rounding::lemma_int_value(0);
    rounding::lemma_int_rank(0);
    let zero = Single::of_int(0);
    let mx = r.larger(g).larger(b);
    let mn = r.smaller(g).smaller(b);
    let d = mx.difference(mn);
    rounding::lemma_value_order(mn, mx);
    lemma_ratio(mn, mn, mx, mn);
    rounding::lemma_value_order(d, zero);
    rounding::lemma_value_order(zero, d);
    if c.r >= c.g {
        lemma_ratio(g, b, mx, mn);
        lemma_ratio(b, g, mx, mn);
        lemma_ratio_odd(g, b, d);
        lemma_red_hue(g.difference(b).quotient(d));
        lemma_red_hue(b.difference(g).quotient(d));
    } else {
        lemma_ratio(b, r, mx, mn);
        lemma_ratio(r, b, mx, mn);
        lemma_ratio_odd(b, r, d);
        lemma_other_hue(b.difference(r).quotient(d), 2);
        lemma_other_hue(r.difference(b).quotient(d), 4);
    }
}

/// With as much green as blue the hue is that of red or of its opposite.
pub proof fn lemma_even_hue(c: Rgb)
    requires
        c.g == c.b,
    ensures
        ({
            let h = rounding::value(c.hsv().h);
            h == 0 as real || within(h, 180 as real, rounding::tiny(-13))
        }),
{
    let (r, g) = (Rgb::share(c.r), Rgb::share(c.g));
    lemma_share(c.r);
    lemma_share(c.g);
    lemma_share_order(c.r, c.g);
    rounding::lemma_tiny_values();
    rounding::lemma_int_value(0);
    rounding::lemma_int_rank(0);
    rounding::lemma_int_value(1);
    let zero = Single::of_int(0);
    let mx = r.larger(g).larger(g);
    let mn = r.smaller(g).smaller(g);
    let d = mx.difference(mn);
    rounding::lemma_value_order(mn, mx);
    if c.r == c.g {
        rounding::lemma_difference_odd(mx, mn);
        rounding::lemma_value_order(mx, mx);
        rounding::lemma_finite_sign(mx);
        rounding::lemma_sum_value(mx, mx.negated(), -23);
        assert(d.equals(zero));
    } else {
        lemma_ratio(mn, mn, mx, mn);
        rounding::lemma_value_order(d, zero);
        rounding::lemma_value_order(zero, d);
        let v = rounding::value(d);
        if c.r > c.g {
            // no step from green to blue
            let w = g.difference(g);
            lemma_ratio(g, g, mx, mn);
            rounding::lemma_difference_odd(g, g);
            rounding::lemma_value_order(w, zero);
            rounding::lemma_value_order(zero, w);
            assert((0 as real) / v == 0 as real) by (nonlinear_arith)
                requires
                    v > 0 as real,
            ;
            rounding::lemma_quotient_side(w, d, zero);
            let q = w.quotient(d);
            let six = Single::of_int(6);
            rounding::lemma_int_rank(6);
            rounding::lemma_units_steps();
            rounding::lemma_value_order(q, zero);
            rounding::lemma_value_order(zero, q);
            rounding::lemma_remainder(q, six);
            let k = q.remainder(six);
            assert(k.rank() == 0) by {
                vstd::arithmetic::div_mod::lemma_small_mod(0, six.rank() as nat);
            }
            rounding::lemma_value_order(k, zero);
            rounding::lemma_value_order(zero, k);
            let sixty = Single::of_int(60);
            rounding::lemma_int_value(60);
            assert(rounding::value(sixty) * rounding::value(k) == 0 as real);
            rounding::lemma_product_value(sixty, k, -23);
            rounding::lemma_product_side(sixty, k, zero);
            rounding::lemma_value_order(sixty.product(k), zero);
            rounding::lemma_value_order(zero, sixty.product(k));
        } else {
            // green and blue lie as far above red as any two levels
            assert(g.difference(r) == d);
            assert(v / v == 1 as real) by (nonlinear_arith)
                requires
                    v > 0 as real,
            ;
            lemma_ratio(g, r, mx, mn);
            rounding::lemma_quotient_side(d, d, Single::of_int(1));
            lemma_other_hue(d.quotient(d), 2);
        }
    }
}

} // verus!
