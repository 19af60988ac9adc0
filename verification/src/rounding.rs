//! Facts about rounding to single precision.
use vstd::prelude::*;
use vstd::arithmetic::power2::*;
use vstd::arithmetic::mul::*;
use vstd::arithmetic::div_mod::*;
use crate::single::{Parts, Single};

verus! {

/// A number below half of the least positive one rounds to zero.
pub proof fn lemma_vanish(neg: bool, n: int, d: int, e: int)
    requires
        0 < 2 * n < d,
        e <= -149,
    ensures
        Single::lift(neg, n, d, e) == Single::zero(neg),
    decreases -149 - e,
{
    if e < -149 {
        lemma_vanish(neg, n, 2 * d, e + 1);
    } else {
        lemma_fundamental_div_mod_converse(n, d, 0, n);
    }
}

/// Several doublings of the denominator in one.
pub proof fn lemma_lift_steps(neg: bool, n: int, d: int, e: int, k: nat)
    requires
        d > 0,
        e >= -149,
        k > 0 ==> n >= 0x100_0000 * (d * pow2((k - 1) as nat)),
    ensures
        Single::lift(neg, n, d, e) == Single::lift(neg, n, d * pow2(k), e + k),
    decreases k,
{
    lemma2_to64();
    if k > 0 {
        lemma_pow2_pos((k - 1) as nat);
        lemma_pow2_unfold(k);
        let p = pow2((k - 1) as nat) as int;
        assert(d * p >= d) by (nonlinear_arith)
            requires
                p >= 1,
                d > 0,
        ;
        assert((2 * d) * p == d * (2 * p)) by (nonlinear_arith);
        if k > 1 {
            lemma_pow2_unfold((k - 1) as nat);
            let h = pow2((k - 2) as nat) as int;
            assert((2 * d) * h == d * (2 * h)) by (nonlinear_arith);
        }
        lemma_lift_steps(neg, n, 2 * d, e + 1, (k - 1) as nat);
        assert((2 * d) * pow2((k - 1) as nat) == d * pow2(k));
    } else {
        lemma_mul_basics(d);
        assert(d * pow2(0) == d);
    }
}

/// A number too small to reach half of another one's last place leaves it as it is when
/// added or taken away.
pub proof fn lemma_absorb(neg: bool, sig: int, other: int, exp: int, k: nat)
    requires
        0x80_0000 <= sig < 0x100_0000,
        -0x100_0000 < other < 0x100_0000,
        k >= 30,
        -149 <= exp - k,
        exp <= 104,
    ensures
        Single::nearest(neg, sig * pow2(k) + other, 1, exp - k) == Single::finite(neg, sig, exp),
        sig * pow2(k) + other > 0,
{
    lemma2_to64();
    let p = pow2(k) as int;
    let h = pow2((k - 1) as nat) as int;
    let g = pow2((k - 2) as nat) as int;
    lemma_pow2_unfold(k);
    lemma_pow2_unfold((k - 1) as nat);
    if k > 30 {
        lemma_pow2_strictly_increases(30, k);
    }
    let n = sig * p + other;
    assert(n >= 0x80_0000 * p + other && n <= (0x100_0000 - 1) * p + other) by (nonlinear_arith)
        requires
            n == sig * p + other,
            0x80_0000 <= sig <= 0x100_0000 - 1,
            p > 0,
    ;
    lemma_mul_basics(h);
    lemma_mul_basics(g);
    lemma_mul_basics(p);
    if other < 0 && sig == 0x80_0000 {
        assert(n == (0x100_0000 - 1) * h + (h + other));
        lemma_lift_steps(neg, n, 1, exp - k, (k - 1) as nat);
        lemma_fundamental_div_mod_converse(n, h, 0x100_0000 - 1, h + other);
        assert(Single::lift(neg, n, h, exp - 1) == Single::settle(neg, n, h, exp - 1));
        assert(Single::half_even(n, h) == 0x100_0000);
    } else if other < 0 {
        assert(n == (sig - 1) * p + (p + other)) by (nonlinear_arith)
            requires
                n == sig * p + other,
        ;
        assert(n >= (0x80_0000 + 1) * p + other) by (nonlinear_arith)
            requires
                n == sig * p + other,
                0x80_0000 + 1 <= sig,
                p > 0,
        ;
        assert(p >= 0x100_0000);
        assert(n >= 0x100_0000 * h);
        lemma_lift_steps(neg, n, 1, exp - k, k);
        lemma_fundamental_div_mod_converse(n, p, sig - 1, p + other);
        assert(Single::half_even(n, p) == sig);
    } else {
        lemma_lift_steps(neg, n, 1, exp - k, k);
        lemma_fundamental_div_mod_converse(n, p, sig, other);
        assert(Single::half_even(n, p) == sig);
    }
}

/// A finite number in lowest form is made of the parts that it is packed from.
pub proof fn lemma_finite(neg: bool, sig: int, exp: int)
    requires
        0 <= sig < 0x100_0000,
        -149 <= exp <= 104,
        sig >= 0x80_0000 || exp == -149,
    ensures
        Single::finite(neg, sig, exp).parts() == (Parts::Finite {
            neg,
            sig: sig as u32,
            exp: exp as i32,
        }),
{
    let x = Single::finite(neg, sig, exp);
    let sign: int = if neg {
        0x8000_0000
    } else {
        0
    };
    if sig >= 0x80_0000 {
        assert(x.bits == sign + (exp + 149) * 0x80_0000 + sig);
        assert(x.bits as int / 0x80_0000 == sign / 0x80_0000 + (exp + 150));
    }
}

/// The magnitudes of a format number lie in the order of their bits.
pub proof fn lemma_magnitude_order(a: u32, b: u32)
    requires
        a < b <= 0x7f80_0000,
    ensures
        0 <= (Single { bits: a }).rank() < (Single { bits: b }).rank(),
        !(Single { bits: a }).is_nan(),
        !(Single { bits: b }).is_nan(),
{
    let x = Single { bits: a };
    let y = Single { bits: b };
    let fa = a as int / 0x80_0000;
    let fb = b as int / 0x80_0000;
    let ra = a as int % 0x80_0000;
    let rb = b as int % 0x80_0000;
    assert(0 <= fa <= fb <= 255);
    assert(fa == fb ==> ra < rb);
    assert(fa < 255);
    let sa: int = if fa == 0 {
        ra
    } else {
        ra + 0x80_0000
    };
    let ka: nat = (if fa == 0 {
        0int
    } else {
        fa - 1
    }) as nat;
    let pa = pow2(ka) as int;
    lemma_pow2_pos(ka);
    assert(x.rank() == sa * pa);
    lemma_mul_nonnegative(sa, pa);
    if fb == 255 {
        lemma_pow2_adds(24, 253);
        lemma2_to64();
        if ka < 253 {
            lemma_pow2_strictly_increases(ka, 253);
        }
        let top = pow2(253) as int;
        assert(sa * pa < 0x100_0000 * top) by (nonlinear_arith)
            requires
                0 <= sa < 0x100_0000,
                0 < pa <= top,
        ;
    } else {
        let sb: int = if fb == 0 {
            rb
        } else {
            rb + 0x80_0000
        };
        let kb: nat = (if fb == 0 {
            0int
        } else {
            fb - 1
        }) as nat;
        let pb = pow2(kb) as int;
        assert(y.rank() == sb * pb);
        if ka == kb {
            assert(sa < sb);
            lemma_mul_strict_inequality(sa, sb, pa);
        } else {
            lemma_pow2_unfold((ka + 1) as nat);
            if ka + 1 < kb {
                lemma_pow2_strictly_increases((ka + 1) as nat, kb);
            }
            assert(sa * pa < sb * pb) by (nonlinear_arith)
                requires
                    0 <= sa < 0x100_0000,
                    0 < pa,
                    2 * pa <= pb,
                    sb >= 0x80_0000,
            ;
        }
    }
}

/// The rank of a number is that of its magnitude, with its sign.
pub proof fn lemma_rank_sign(x: Single)
    ensures
        x.rank() == Single::signed(x.bits >= 0x8000_0000, x.magnitude().rank()),
        x.magnitude().is_nan() == x.is_nan(),
        x.is_nan() <==> x.magnitude().bits > 0x7f80_0000,
        x.negated().rank() == -x.rank(),
        x.negated().is_nan() == x.is_nan(),
{
    let m = x.magnitude().bits as int;
    let n = x.negated().bits as int;
    assert((m + 0x8000_0000) / 0x80_0000 == m / 0x80_0000 + 256);
    assert((m + 0x8000_0000) % 0x80_0000 == m % 0x80_0000);
    assert(0 <= m / 0x80_0000 < 256);
    assert((m / 0x80_0000 + 256) % 256 == m / 0x80_0000);
    assert(m / 0x80_0000 == 255 && m % 0x80_0000 == 0 ==> m == 0x7f80_0000);
    assert(m > 0x7f80_0000 <==> (m / 0x80_0000 == 255 && m % 0x80_0000 != 0));
}

/// The place of a number among the bit patterns.
pub open spec fn bit_order(x: Single) -> int {
    Single::signed(x.bits >= 0x8000_0000, x.magnitude().bits as int)
}

/// Numbers lie in the order of their bits.
pub proof fn lemma_bit_order(x: Single, y: Single)
    requires
        !x.is_nan(),
        !y.is_nan(),
    ensures
        x.rank() < y.rank() <==> bit_order(x) < bit_order(y),
        x.rank() == y.rank() <==> bit_order(x) == bit_order(y),
{
    lemma_rank_sign(x);
    lemma_rank_sign(y);
    let a = x.magnitude().bits;
    let b = y.magnitude().bits;
    assert((Single { bits: 0 }).rank() == 0) by {
        lemma_mul_basics(pow2(0) as int);
    }
    if a < b {
        lemma_magnitude_order(a, b);
    } else if b < a {
        lemma_magnitude_order(b, a);
    }
    if a > 0 {
        lemma_magnitude_order(0, a);
    }
    if b > 0 {
        lemma_magnitude_order(0, b);
    }
}

/// `2^(e + 149)`: how many of the least units a number with exponent `e` is a multiple of.
pub open spec fn units(e: int) -> int {
    pow2((e + 149) as nat) as int
}

/// The next exponent stands for twice as many units.
pub proof fn lemma_units_double(e: int)
    requires
        e >= -149,
    ensures
        units(e) > 0,
        units(e + 1) == 2 * units(e),
{
    lemma_pow2_pos((e + 149) as nat);
    lemma_pow2_unfold((e + 150) as nat);
}

/// Units of two exponents.
pub proof fn lemma_units_grow(e: int, f: int)
    requires
        -149 <= e <= f,
    ensures
        units(f) == units(e) * pow2((f - e) as nat),
        0 < units(e) <= units(f),
        e < f ==> 2 * units(e) <= units(f),
{
    lemma_pow2_adds((e + 149) as nat, (f - e) as nat);
    lemma_pow2_pos((e + 149) as nat);
    lemma_units_double(e);
    if e < f {
        if e + 1 < f {
            lemma_pow2_strictly_increases((e + 150) as nat, (f + 149) as nat);
        }
    }
}

/// Where rounding stops: the fraction `m / c` and the exponent `x` that it is rounded at.
pub struct Stop {
    pub m: int,
    pub c: int,
    pub x: int,
}

/// Doubling the numerator keeps the value.
proof fn settle_stop(n: int, d: int, e: int) -> (s: Stop)
    requires
        0 < n < 0x100_0000 * d,
        d > 0,
        e >= -149,
    ensures
        s.c == d,
        -149 <= s.x <= e,
        0 < s.m < 0x100_0000 * s.c,
        s.m >= 0x80_0000 * s.c || s.x == -149,
        s.m * units(s.x) == n * units(e),
        Single::settle(false, n, d, e) == Single::pack(false, Single::half_even(s.m, s.c), s.x),
        Single::settle(true, n, d, e) == Single::pack(true, Single::half_even(s.m, s.c), s.x),
    decreases e + 149,
{
    if n < 0x80_0000 * d && e > -149 {
        let s = settle_stop(2 * n, d, e - 1);
        lemma_units_double(e - 1);
        assert((2 * n) * units(e - 1) == n * (2 * units(e - 1))) by (nonlinear_arith);
        s
    } else {
        Stop { m: n, c: d, x: e }
    }
}

/// Doubling the denominator keeps the value.
proof fn lift_stop(n: int, d: int, e: int) -> (s: Stop)
    requires
        n > 0,
        d > 0,
        e >= -149,
    ensures
        s.c > 0,
        -149 <= s.x,
        0 < s.m < 0x100_0000 * s.c,
        s.m >= 0x80_0000 * s.c || s.x == -149,
        s.m * units(s.x) * d == n * units(e) * s.c,
        Single::lift(false, n, d, e) == Single::pack(false, Single::half_even(s.m, s.c), s.x),
        Single::lift(true, n, d, e) == Single::pack(true, Single::half_even(s.m, s.c), s.x),
    decreases n - d,
{
    if n >= 0x100_0000 * d {
        let s = lift_stop(n, 2 * d, e + 1);
        lemma_units_double(e);
        let a = s.m * units(s.x);
        let u = units(e);
        assert(n * (2 * u) * s.c == 2 * (n * u * s.c)) by (nonlinear_arith);
        assert(a * (2 * d) == 2 * (a * d)) by (nonlinear_arith);
        s
    } else {
        settle_stop(n, d, e)
    }
}

/// Rounding a fraction stays on its side of every integer.
pub proof fn lemma_half_even(m: int, c: int)
    requires
        m >= 0,
        c > 0,
    ensures
        0 <= Single::half_even(m, c),
        forall|j: int| #![trigger j * c] j * c <= m ==> j <= Single::half_even(m, c),
        forall|j: int| #![trigger j * c] m <= j * c ==> Single::half_even(m, c) <= j,
        2 * (Single::half_even(m, c) * c - m) <= c,
        2 * (m - Single::half_even(m, c) * c) <= c,
{
    lemma_fundamental_div_mod(m, c);
    lemma_mod_bound(m, c);
    lemma_div_pos_is_pos(m, c);
    let q = m / c;
    let r = m % c;
    lemma_mul_is_commutative(c, q);
    assert((q + 1) * c == q * c + c) by (nonlinear_arith);
    assert forall|j: int| #![trigger j * c] j * c <= m implies j <= Single::half_even(m, c) by {
        if j > q {
            assert(j * c >= (q + 1) * c) by (nonlinear_arith)
                requires
                    j >= q + 1,
                    c > 0,
            ;
        }
    }
    assert forall|j: int| #![trigger j * c] m <= j * c implies Single::half_even(m, c) <= j by {
        if j <= q {
            assert(j * c <= q * c) by (nonlinear_arith)
                requires
                    j <= q,
                    c > 0,
            ;
            if j < q {
                assert(j * c <= q * c - c) by (nonlinear_arith)
                    requires
                        j <= q - 1,
                        c > 0,
                ;
            }
        }
    }
}

/// The rank of a packed number.
proof fn lemma_pack_rank(q: int, x: int)
    requires
        0 <= q <= 0x100_0000,
        x >= -149,
        q >= 0x80_0000 || x == -149,
    ensures
        Single::pack(false, q, x).bits <= 0x7f80_0000,
        Single::pack(true, q, x) == Single::pack(false, q, x).negated(),
        q * units(x) < pow2(277) ==> Single::pack(false, q, x).rank() == q * units(x),
        q * units(x) >= pow2(277) ==> Single::pack(false, q, x).rank() == pow2(277),
{
    lemma2_to64();
    let sig: int = if q == 0x100_0000 {
        0x80_0000
    } else {
        q
    };
    let top: int = if q == 0x100_0000 {
        x + 1
    } else {
        x
    };
    lemma_units_double(x);
    assert(q * units(x) == sig * units(top)) by {
        if q == 0x100_0000 {
            assert(0x100_0000 * units(x) == 0x80_0000 * (2 * units(x)));
        }
    }
    if top > 104 {
        lemma_units_grow(105, top);
        lemma_pow2_adds(23, 254);
        assert(sig * units(top) >= 0x80_0000 * units(105)) by (nonlinear_arith)
            requires
                sig >= 0x80_0000,
                units(top) >= units(105),
                units(105) > 0,
        ;
    } else {
        lemma_finite(false, sig, top);
        lemma_units_grow(top, 104);
        lemma_pow2_adds(24, 253);
        assert(sig * units(top) < 0x100_0000 * units(104)) by (nonlinear_arith)
            requires
                0 <= sig < 0x100_0000,
                0 < units(top) <= units(104),
        ;
    }
}

/// Rounding is odd: it treats both signs alike.
pub proof fn lemma_nearest_sign(n: int, d: int, e: int)
    requires
        n >= 0,
        d > 0,
        e >= -149,
    ensures
        Single::nearest(true, n, d, e) == Single::nearest(false, n, d, e).negated(),
        Single::nearest(false, n, d, e).bits <= 0x7f80_0000,
{
    if n > 0 {
        let s = lift_stop(n, d, e);
        lemma_half_even(s.m, s.c);
        assert(0x80_0000 * s.c <= s.m ==> 0x80_0000 <= Single::half_even(s.m, s.c));
        assert(s.m <= 0x100_0000 * s.c);
        lemma_pack_rank(Single::half_even(s.m, s.c), s.x);
    }
}

/// Rounding stays on its side of every number of the format.
pub proof fn lemma_nearest_bounds(n: int, d: int, e: int, b: Single)
    requires
        n >= 0,
        d > 0,
        e >= -149,
        b.bits < 0x7f80_0000,
    ensures
        Single::nearest(false, n, d, e).bits <= 0x7f80_0000,
        !Single::nearest(false, n, d, e).is_nan(),
        b.rank() * d <= n * units(e) ==> b.rank() <= Single::nearest(false, n, d, e).rank(),
        n * units(e) <= b.rank() * d ==> Single::nearest(false, n, d, e).rank() <= b.rank(),
{
    lemma_nearest_sign(n, d, e);
    let z = Single::nearest(false, n, d, e);
    lemma_rank_sign(z);
    lemma_rank_sign(b);
    crate::single::lemma_parts(b);
    lemma_mul_basics(pow2(0) as int);
    lemma_magnitude_order(b.bits, 0x7f80_0000);
    lemma_units_double(e);
    if n == 0 {
        assert(z.rank() == 0) by {
            lemma_finite(false, 0, -149);
        }
        lemma_mul_basics(units(e));
        assert(n * units(e) == 0);
        let r = b.rank();
        assert(r * d <= 0 ==> r <= 0) by (nonlinear_arith)
            requires
                d > 0,
        ;
    } else {
        let s = lift_stop(n, d, e);
        let q = Single::half_even(s.m, s.c);
        lemma_half_even(s.m, s.c);
        assert(0x80_0000 * s.c <= s.m ==> 0x80_0000 <= q);
        assert(s.m <= 0x100_0000 * s.c);
        lemma_pack_rank(q, s.x);
        let a = s.m * units(s.x);
        let v = n * units(e);
        let r = b.rank();
        assert(a * d == v * s.c);
        assert(r * d <= v ==> r * s.c <= a) by (nonlinear_arith)
            requires
                a * d == v * s.c,
                d > 0,
                s.c > 0,
        ;
        assert(v <= r * d ==> a <= r * s.c) by (nonlinear_arith)
            requires
                a * d == v * s.c,
                d > 0,
                s.c > 0,
        ;
        let sig = b.parts()->sig as int;
        let exp = b.parts()->exp as int;
        lemma_units_double(s.x);
        let u = units(s.x);
        assert(r == sig * units(exp));
        if exp >= s.x {
            lemma_units_grow(s.x, exp);
            let p = pow2((exp - s.x) as nat) as int;
            let j = sig * p;
            assert(r == j * u) by (nonlinear_arith)
                requires
                    r == sig * units(exp),
                    units(exp) == u * p,
                    j == sig * p,
            ;
            assert(r * s.c <= a ==> j * s.c <= s.m) by (nonlinear_arith)
                requires
                    r == j * u,
                    a == s.m * u,
                    u > 0,
            ;
            assert(a <= r * s.c ==> s.m <= j * s.c) by (nonlinear_arith)
                requires
                    r == j * u,
                    a == s.m * u,
                    u > 0,
            ;
            assert(j <= q ==> j * u <= q * u) by (nonlinear_arith)
                requires
                    u > 0,
            ;
            assert(q <= j ==> q * u <= j * u) by (nonlinear_arith)
                requires
                    u > 0,
            ;
        } else {
            lemma_units_grow(exp, s.x);
            assert(r < 0x80_0000 * u) by (nonlinear_arith)
                requires
                    r == sig * units(exp),
                    sig < 0x100_0000,
                    0 < units(exp),
                    2 * units(exp) <= u,
            ;
            assert(q * u >= 0x80_0000 * u) by (nonlinear_arith)
                requires
                    q >= 0x80_0000,
                    u > 0,
            ;
            assert(a > r * s.c) by (nonlinear_arith)
                requires
                    a == s.m * u,
                    s.m >= 0x80_0000 * s.c,
                    r < 0x80_0000 * u,
                    s.c > 0,
                    u > 0,
            ;
        }
    }
}

/// The rank of the number one.
pub open spec fn one() -> int {
    pow2(149) as int
}

/// One is positive.
pub proof fn lemma_pow2_pos_one()
    ensures
        one() > 0,
{
    lemma_pow2_pos(149);
}

/// A signed fraction, rounded.
pub open spec fn rounded(t: int, d: int, e: int) -> Single {
    if t < 0 {
        Single::nearest(true, -t, d, e)
    } else {
        Single::nearest(false, t, d, e)
    }
}

/// Rounding a signed fraction stays on its side of every finite number.
pub proof fn lemma_rounded_bounds(t: int, d: int, e: int, b: Single)
    requires
        d > 0,
        e >= -149,
        b.is_finite(),
    ensures
        !rounded(t, d, e).is_nan(),
        b.rank() * d <= t * units(e) ==> b.rank() <= rounded(t, d, e).rank(),
        t * units(e) <= b.rank() * d ==> rounded(t, d, e).rank() <= b.rank(),
{
    let z = rounded(t, d, e);
    let n = if t < 0 {
        -t
    } else {
        t
    };
    let zero = Single { bits: 0 };
    lemma_units_double(e);
    lemma_nearest_sign(n, d, e);
    lemma_nearest_bounds(n, d, e, zero);
    lemma_nearest_bounds(n, d, e, b.magnitude());
    lemma_rank_sign(b);
    lemma_rank_sign(Single::nearest(false, n, d, e));
    lemma_mul_basics(pow2(0) as int);
    assert(zero.rank() == 0);
    lemma_mul_nonnegative(n, units(e));
    if b.magnitude().bits > 0 {
        lemma_magnitude_order(0, b.magnitude().bits);
    }
    let r = b.rank();
    let u = units(e);
    assert((-n) * u == -(n * u)) by (nonlinear_arith);
    assert((-r) * d == -(r * d)) by (nonlinear_arith);
    assert(r > 0 ==> r * d > 0) by (nonlinear_arith)
        requires
            d > 0,
    ;
    assert(r < 0 ==> r * d < 0) by (nonlinear_arith)
        requires
            d > 0,
    ;
    assert(n > 0 ==> n * u > 0) by (nonlinear_arith)
        requires
            u > 0,
    ;
}

/// A finite number's rank, by its parts.
pub proof fn lemma_finite_rank(x: Single)
    requires
        x.is_finite(),
    ensures
        x.parts() matches Parts::Finite { neg, sig, exp } && x.rank() == Single::signed(
            neg,
            sig as int,
        ) * units(exp as int) && sig < 0x100_0000 && -149 <= exp <= 104 && (sig >= 0x80_0000
            || exp == -149),
{
    crate::single::lemma_parts(x);
    let p = x.parts();
    let sig = p->Finite_sig as int;
    let u = units(p->exp as int);
    assert((-sig) * u == -(sig * u)) by (nonlinear_arith);
}

/// A rounded result: the fraction `t / d * 2^e` that it is the rounding of.
pub struct Exact {
    pub t: int,
    pub d: int,
    pub e: int,
}

impl Exact {
    /// `z` is the rounding of this fraction, which is `p / q` in units of `2^-149`.
    pub open spec fn gives(self, z: Single, p: int, q: int) -> bool {
        &&& self.d > 0
        &&& self.e >= -149
        &&& q > 0
        &&& self.t * units(self.e) * q == p * self.d
        &&& z.rank() == rounded(self.t, self.d, self.e).rank()
        &&& !z.is_nan()
    }
}

/// An exponent below the least one is the same as a larger denominator.
pub proof fn lemma_low_exponent(neg: bool, n: int, d: int, e: int)
    requires
        n >= 0,
        d > 0,
        e <= -149,
    ensures
        Single::nearest(neg, n, d, e) == Single::nearest(
            neg,
            n,
            d * pow2((-149 - e) as nat),
            -149,
        ),
        d * pow2((-149 - e) as nat) > 0,
    decreases -149 - e,
{
    lemma2_to64();
    lemma_mul_basics(d);
    lemma_pow2_pos((-149 - e) as nat);
    lemma_mul_strictly_positive(d, pow2((-149 - e) as nat) as int);
    if e < -149 {
        lemma_low_exponent(neg, n, 2 * d, e + 1);
        lemma_pow2_unfold((-149 - e) as nat);
        let p = pow2((-150 - e) as nat) as int;
        assert((2 * d) * p == d * (2 * p)) by (nonlinear_arith);
    }
}

/// A fraction with a sign, rounded, is that with the sign in its numerator.
proof fn lemma_as_rounded(neg: bool, n: int, d: int, e: int)
    requires
        n >= 0,
        d > 0,
        e >= -149,
    ensures
        Single::nearest(neg, n, d, e).rank() == rounded(Single::signed(neg, n), d, e).rank(),
        !Single::nearest(neg, n, d, e).is_nan(),
{
    lemma_nearest_sign(n, d, e);
    lemma_nearest_bounds(n, d, e, Single { bits: 0 });
    lemma_rank_sign(Single::nearest(false, n, d, e));
    if n == 0 {
        lemma_finite(true, 0, -149);
        lemma_finite(false, 0, -149);
        lemma_mul_basics(pow2(0) as int);
    }
}

/// The exact sum of two finite numbers.
pub proof fn exact_sum(x: Single, y: Single) -> (r: Exact)
    requires
        x.is_finite(),
        y.is_finite(),
    ensures
        r.gives(x.sum(y), x.rank() + y.rank(), 1),
        r.d == 1,
        x.rank() + y.rank() == 0 ==> x.sum(y) == Single::zero(
            x.parts()->Finite_neg && y.parts()->Finite_neg,
        ),
{
    lemma_finite_rank(x);
    lemma_finite_rank(y);
    let (n1, s1, e1) = (x.parts()->Finite_neg, x.parts()->sig as int, x.parts()->exp as int);
    let (n2, s2, e2) = (y.parts()->Finite_neg, y.parts()->sig as int, y.parts()->exp as int);
    let low = Single::low(e1, e2);
    let total = Single::signed(n1, Single::aligned(s1, e1, low)) + Single::signed(
        n2,
        Single::aligned(s2, e2, low),
    );
    lemma_units_grow(low, e1);
    lemma_units_grow(low, e2);
    let u = units(low);
    let (p1, p2) = (pow2((e1 - low) as nat) as int, pow2((e2 - low) as nat) as int);
    let (t1, t2) = (Single::signed(n1, s1), Single::signed(n2, s2));
    assert(Single::signed(n1, s1 * p1) == t1 * p1 && Single::signed(n2, s2 * p2) == t2 * p2)
        by (nonlinear_arith)
        requires
            t1 == (if n1 {
                -s1
            } else {
                s1
            }),
            t2 == (if n2 {
                -s2
            } else {
                s2
            }),
    ;
    assert(total * u == x.rank() + y.rank()) by (nonlinear_arith)
        requires
            total == t1 * p1 + t2 * p2,
            x.rank() == t1 * (u * p1),
            y.rank() == t2 * (u * p2),
    ;
    assert(total * u == 0 ==> total == 0) by (nonlinear_arith)
        requires
            u > 0,
    ;
    if total < 0 {
        lemma_as_rounded(true, -total, 1, low);
    } else {
        lemma_as_rounded(false, total, 1, low);
    }
    if total == 0 {
        lemma_finite(n1 && n2, 0, -149);
        lemma_finite(false, 0, -149);
        lemma_mul_basics(pow2(0) as int);
    }
    lemma_mul_basics(total * u);
    lemma_mul_basics(x.rank() + y.rank());
    Exact { t: total, d: 1, e: low }
}

/// The exact product of two finite numbers.
pub proof fn exact_product(x: Single, y: Single) -> (r: Exact)
    requires
        x.is_finite(),
        y.is_finite(),
    ensures
        r.gives(x.product(y), x.rank() * y.rank(), one()),
{
    lemma_finite_rank(x);
    lemma_finite_rank(y);
    lemma_pow2_pos(149);
    lemma2_to64();
    let (n1, s1, e1) = (x.parts()->Finite_neg, x.parts()->sig as int, x.parts()->exp as int);
    let (n2, s2, e2) = (y.parts()->Finite_neg, y.parts()->sig as int, y.parts()->exp as int);
    let (t1, t2) = (Single::signed(n1, s1), Single::signed(n2, s2));
    let t = Single::signed(n1 != n2, s1 * s2);
    assert(t == t1 * t2) by (nonlinear_arith)
        requires
            t1 == (if n1 {
                -s1
            } else {
                s1
            }),
            t2 == (if n2 {
                -s2
            } else {
                s2
            }),
            t == (if n1 != n2 {
                -(s1 * s2)
            } else {
                s1 * s2
            }),
    ;
    lemma_mul_nonnegative(s1, s2);
    let e = e1 + e2;
    let (u1, u2) = (units(e1), units(e2));
    lemma_pow2_adds((e1 + 149) as nat, (e2 + 149) as nat);
    if e >= -149 {
        lemma_as_rounded(n1 != n2, s1 * s2, 1, e);
        lemma_pow2_adds((e + 149) as nat, 149);
        let u = units(e);
        assert(u1 * u2 == u * one());
        assert(t * u * one() == (t1 * u1) * (t2 * u2)) by (nonlinear_arith)
            requires
                u1 * u2 == u * one(),
                t == t1 * t2,
        ;
        lemma_mul_basics(x.rank() * y.rank());
        Exact { t, d: 1, e }
    } else {
        let k = (-149 - e) as nat;
        let d = pow2(k) as int;
        lemma_low_exponent(n1 != n2, s1 * s2, 1, e);
        lemma_mul_basics(d);
        lemma_as_rounded(n1 != n2, s1 * s2, d, -149);
        lemma_pow2_adds((e + 298) as nat, k);
        assert(u1 * u2 * d == one());
        assert(units(-149) == 1);
        lemma_mul_basics(t);
        assert(t * one() == (t1 * u1) * (t2 * u2) * d) by (nonlinear_arith)
            requires
                u1 * u2 * d == one(),
                t == t1 * t2,
        ;
        Exact { t, d, e: -149 }
    }
}

/// The exact quotient of a finite number and a positive finite number.
pub proof fn exact_quotient(x: Single, y: Single) -> (r: Exact)
    requires
        x.is_finite(),
        y.is_finite(),
        y.rank() > 0,
    ensures
        r.gives(x.quotient(y), x.rank() * one(), y.rank()),
{
    lemma_finite_rank(x);
    lemma_finite_rank(y);
    lemma_pow2_pos(149);
    lemma2_to64();
    let (n1, s1, e1) = (x.parts()->Finite_neg, x.parts()->sig as int, x.parts()->exp as int);
    let (n2, s2, e2) = (y.parts()->Finite_neg, y.parts()->sig as int, y.parts()->exp as int);
    let t = Single::signed(n1, s1);
    lemma_units_double(e1);
    lemma_units_double(e2);
    let (u1, u2) = (units(e1), units(e2));
    assert(!n2 && s2 > 0) by (nonlinear_arith)
        requires
            y.rank() == (if n2 {
                -s2
            } else {
                s2
            }) * u2,
            y.rank() > 0,
            u2 > 0,
            s2 >= 0,
    ;
    let e = e1 - e2;
    if e >= -149 {
        lemma_as_rounded(n1, s1, s2, e);
        lemma_pow2_adds((e + 149) as nat, (e2 + 149) as nat);
        lemma_pow2_adds((e1 + 149) as nat, 149);
        let u = units(e);
        assert(u * u2 == u1 * one());
        assert(t * u * (s2 * u2) == (t * u1) * one() * s2) by (nonlinear_arith)
            requires
                u * u2 == u1 * one(),
        ;
        Exact { t, d: s2, e }
    } else {
        let k = (-149 - e) as nat;
        let p = pow2(k) as int;
        let d = s2 * p;
        lemma_low_exponent(n1, s1, s2, e);
        lemma_as_rounded(n1, s1, d, -149);
        lemma_pow2_adds((e1 + 149) as nat, 149);
        lemma_pow2_adds((e1 + 298) as nat, k);
        assert(u1 * one() * p == u2);
        assert(units(-149) == 1);
        lemma_mul_basics(t);
        assert(t * (s2 * u2) == (t * u1) * one() * (s2 * p)) by (nonlinear_arith)
            requires
                u1 * one() * p == u2,
        ;
        Exact { t, d, e: -149 }
    }
}

/// A rounded result stays on its side of every finite number.
pub proof fn lemma_bounds(r: Exact, z: Single, p: int, q: int, b: Single)
    requires
        r.gives(z, p, q),
        b.is_finite(),
    ensures
        b.rank() * q <= p ==> b.rank() <= z.rank(),
        p <= b.rank() * q ==> z.rank() <= b.rank(),
{
    lemma_rounded_bounds(r.t, r.d, r.e, b);
    let v = r.t * units(r.e);
    let k = b.rank();
    assert(k * q <= p ==> k * r.d <= v) by (nonlinear_arith)
        requires
            v * q == p * r.d,
            q > 0,
            r.d > 0,
    ;
    assert(p <= k * q ==> v <= k * r.d) by (nonlinear_arith)
        requires
            v * q == p * r.d,
            q > 0,
            r.d > 0,
    ;
}

/// A rounded result lies within one unit `2^k` of the exact one.
pub proof fn lemma_near(r: Exact, z: Single, p: int, q: int, k: int)
    requires
        r.gives(z, p, q),
        -149 <= k <= 100,
        -0x80_0000 * (units(k) * q) <= p <= 0x80_0000 * (units(k) * q),
    ensures
        z.is_finite(),
        -units(k) * q <= z.rank() * q - p <= units(k) * q,
{
    let v = r.t * units(r.e);
    let u = units(k);
    let d = r.d;
    assert(-0x80_0000 * (u * d) <= v <= 0x80_0000 * (u * d)) by (nonlinear_arith)
        requires
            v * q == p * d,
            q > 0,
            d > 0,
            -0x80_0000 * (u * q) <= p <= 0x80_0000 * (u * q),
    {
        assert(-0x80_0000 * (u * q) * d <= v * q <= 0x80_0000 * (u * q) * d);
        assert(-0x80_0000 * (u * d) * q <= v * q <= 0x80_0000 * (u * d) * q);
    }
    lemma_rounded_near(r.t, d, r.e, k);
    let w = z.rank();
    assert(-u * q <= w * q - p <= u * q) by (nonlinear_arith)
        requires
            v * q == p * d,
            -u * d <= w * d - v <= u * d,
            q > 0,
            d > 0,
    {
        assert((-u * d) * q <= (w * d - v) * q <= (u * d) * q);
        assert((w * d - v) * q == (w * q - p) * d);
        assert((-u * q) * d <= (w * q - p) * d <= (u * q) * d);
    }
    lemma_rank_finite(z, rounded(r.t, d, r.e));
}

/// Numbers of equal rank are both finite or both not.
proof fn lemma_rank_finite(x: Single, y: Single)
    requires
        !x.is_nan(),
        y.is_finite(),
        x.rank() == y.rank(),
    ensures
        x.is_finite(),
{
    lemma_rank_sign(y);
    lemma_finite_sign(y);
    lemma_magnitude_order(y.magnitude().bits, 0x7f80_0000);
}

/// Sums lie in the order of the exact sums.
pub proof fn lemma_sum_monotone(x1: Single, y1: Single, x2: Single, y2: Single)
    requires
        x1.is_finite(),
        y1.is_finite(),
        x2.is_finite(),
        y2.is_finite(),
        x1.rank() + y1.rank() <= x2.rank() + y2.rank(),
    ensures
        x1.sum(y1).rank() <= x2.sum(y2).rank(),
{
    let r1 = exact_sum(x1, y1);
    let r2 = exact_sum(x2, y2);
    lemma_mul_basics(r1.t * units(r1.e));
    lemma_mul_basics(r2.t * units(r2.e));
    lemma_mul_basics(x1.rank() + y1.rank());
    lemma_mul_basics(x2.rank() + y2.rank());
    lemma_rounded_monotone(r1.t, r1.e, r2.t, r2.e);
}

/// The sum of two finite numbers is their exact sum, rounded.
pub proof fn lemma_sum_bounds(x: Single, y: Single, b: Single)
    requires
        x.is_finite(),
        y.is_finite(),
        b.is_finite(),
    ensures
        !x.sum(y).is_nan(),
        b.rank() <= x.rank() + y.rank() ==> b.rank() <= x.sum(y).rank(),
        x.rank() + y.rank() <= b.rank() ==> x.sum(y).rank() <= b.rank(),
{
    let r = exact_sum(x, y);
    lemma_bounds(r, x.sum(y), x.rank() + y.rank(), 1, b);
    lemma_mul_basics(b.rank());
}

/// An integer below `2^24`, in units of `2^e`, is a number of the format.
pub proof fn lemma_exact(n: int, e: int)
    requires
        0 <= n < 0x100_0000,
        -149 <= e <= 104,
    ensures
        Single::nearest(false, n, 1, e).is_finite(),
        Single::nearest(false, n, 1, e).rank() == n * units(e),
        Single::nearest(false, n, 1, e).bits < 0x7f80_0000,
{
    let z = Single::nearest(false, n, 1, e);
    lemma_units_double(e);
    if n == 0 {
        lemma_finite(false, 0, -149);
        lemma_mul_basics(pow2(0) as int);
        lemma_mul_basics(units(e));
    } else {
        let s = settle_stop(n, 1, e);
        lemma_half_even(s.m, 1);
        lemma_mul_basics(s.m);
        assert(s.m * 1 == s.m);
        assert(Single::half_even(s.m, 1) == s.m);
        lemma_pack_rank(s.m, s.x);
        lemma_units_grow(e, 104);
        lemma_pow2_adds(24, 253);
        lemma2_to64();
        assert(n * units(e) < 0x100_0000 * units(104)) by (nonlinear_arith)
            requires
                0 <= n < 0x100_0000,
                0 < units(e) <= units(104),
        ;
        lemma_rank_sign(z);
        if z.bits == 0x7f80_0000 {
            assert(z.rank() == pow2(277));
        }
    }
}

/// An exponent is found again in the size of the number.
pub proof fn lemma_exponent(x: Single, k: int)
    requires
        x.is_finite(),
        k >= -149,
    ensures
        x.rank() >= 0x80_0000 * units(k) || x.rank() <= -0x80_0000 * units(k)
            ==> x.parts()->exp >= k,
        -0x100_0000 * units(k) < x.rank() < 0x100_0000 * units(k) ==> x.parts()->exp <= k,
{
    lemma_finite_rank(x);
    let sig = x.parts()->sig as int;
    let exp = x.parts()->exp as int;
    let u = units(exp);
    let v = units(k);
    lemma_units_double(exp);
    assert((-sig) * u == -(sig * u)) by (nonlinear_arith);
    if exp < k {
        lemma_units_grow(exp, k);
        assert(sig * u < 0x80_0000 * v) by (nonlinear_arith)
            requires
                0 <= sig < 0x100_0000,
                0 < u,
                2 * u <= v,
        ;
    } else if exp > k {
        lemma_units_grow(k, exp);
        assert(sig * u >= 0x100_0000 * v) by (nonlinear_arith)
            requires
                sig >= 0x80_0000,
                0 < v,
                2 * v <= u,
        ;
    }
}

/// The next number on the side of zero is at most one unit of the last place away.
pub proof fn lemma_neighbour(mag: u32)
    requires
        0 < mag < 0x7f80_0000,
    ensures
        ({
            let x = Single { bits: mag };
            let y = Single { bits: (mag - 1) as u32 };
            &&& x.is_finite()
            &&& y.is_finite()
            &&& x.rank() - units(x.parts()->exp as int) <= y.rank() < x.rank()
        }),
{
    let x = Single { bits: mag };
    let y = Single { bits: (mag - 1) as u32 };
    lemma_magnitude_order((mag - 1) as u32, mag);
    let f = mag as int / 0x80_0000;
    let r = mag as int % 0x80_0000;
    assert((mag - 1) / 0x80_0000 == if r == 0 {
        f - 1
    } else {
        f
    });
    lemma_finite_rank(x);
    lemma_finite_rank(y);
    let u = units(x.parts()->exp as int);
    let s = x.parts()->sig as int;
    let t = y.parts()->sig as int;
    lemma_units_double(x.parts()->exp as int);
    lemma_units_double(y.parts()->exp as int);
    if x.parts()->exp == y.parts()->exp {
        assert(t == s - 1);
        assert(t * u == s * u - u) by (nonlinear_arith)
            requires
                t == s - 1,
        ;
    } else {
        assert(x.parts()->exp == y.parts()->exp + 1);
        assert(s == 0x80_0000 && t == 0xff_ffff);
        assert(x.rank() == 0x80_0000 * u);
        assert(y.rank() == 0xff_ffff * units(y.parts()->exp as int));
    }
}

/// The rank of a full turn, or of any other small whole number.
pub proof fn lemma_int_rank(n: int)
    requires
        -0x100_0000 < n < 0x100_0000,
    ensures
        Single::of_int(n).is_finite(),
        Single::of_int(n).rank() == n * one(),
        Single::of_int(n).negated().is_finite(),
        Single::of_int(n).negated().rank() == -n * one(),
{
    let m = if n < 0 {
        -n
    } else {
        n
    };
    let z = Single::nearest(false, m, 1, 0);
    lemma_exact(m, 0);
    lemma_nearest_sign(m, 1, 0);
    lemma_finite_sign(z);
    lemma_finite_sign(Single::of_int(n));
    lemma_rank_sign(z);
    lemma_rank_sign(Single::of_int(n));
    assert((-m) * one() == -(m * one())) by (nonlinear_arith);
    assert((-n) * one() == -(n * one())) by (nonlinear_arith);
}

/// A change of sign keeps a number finite.
pub proof fn lemma_finite_sign(x: Single)
    ensures
        x.negated().is_finite() == x.is_finite(),
        x.magnitude().is_finite() == x.is_finite(),
        x.is_finite() <==> x.magnitude().bits < 0x7f80_0000,
        x.negated().negated() == x,
{
    let m = x.magnitude().bits as int;
    assert((m + 0x8000_0000) / 0x80_0000 == m / 0x80_0000 + 256);
    assert(0 <= m / 0x80_0000 < 256);
    assert((m / 0x80_0000 + 256) % 256 == m / 0x80_0000);
}

/// Adding a full turn to a negative angle brings it nearer to zero or beyond.
pub proof fn lemma_turn_up(h: Single)
    requires
        -units(32) < h.rank() < 0,
    ensures
        h.sum(Single::of_int(360)).rank() > h.rank(),
        h.sum(Single::of_int(360)).rank() <= 360 * one(),
        h.sum(Single::of_int(360)).is_finite(),
{
    lemma_small_is_finite(h);
    lemma_int_rank(360);
    lemma_rank_sign(h);
    lemma_finite_sign(h);
    lemma_finite_sign(Single { bits: 0 });
    let m = h.magnitude();
    lemma_mul_basics(pow2(0) as int);
    assert((Single { bits: 0 }).rank() == 0);
    lemma_neighbour(m.bits);
    let y = Single { bits: (m.bits - 1) as u32 };
    lemma_rank_sign(y);
    lemma_finite_sign(y);
    let b = y.negated();
    lemma_units_steps();
    lemma_exponent(m, 8);
    lemma_units_grow(m.parts()->exp as int, 8);
    lemma_sum_bounds(h, Single::of_int(360), b);
    lemma_sum_bounds(h, Single::of_int(360), Single::of_int(360));
    lemma_small_is_finite(h.sum(Single::of_int(360)));
}

/// Taking a full turn from an angle of at least one turn leaves a smaller one.
pub proof fn lemma_turn_down(h: Single)
    requires
        360 * one() <= h.rank() < units(32),
    ensures
        0 <= h.difference(Single::of_int(360)).rank() < h.rank(),
        h.difference(Single::of_int(360)).is_finite(),
{
    lemma_pow2_pos(149);
    lemma_small_is_finite(h);
    lemma_int_rank(360);
    lemma_rank_sign(h);
    lemma_finite_sign(h);
    let m = h.magnitude();
    let zero = Single { bits: 0 };
    lemma_mul_basics(pow2(0) as int);
    assert(zero.rank() == 0);
    lemma_pow2_pos(149);
    lemma_neighbour(m.bits);
    let b = Single { bits: (m.bits - 1) as u32 };
    lemma_units_steps();
    lemma_exponent(m, 8);
    lemma_units_grow(m.parts()->exp as int, 8);
    lemma_sum_bounds(h, Single::of_int(360).negated(), b);
    lemma_sum_bounds(h, Single::of_int(360).negated(), zero);
    lemma_small_is_finite(h.difference(Single::of_int(360)));
}

/// A few ratios between units.
pub proof fn lemma_units_steps()
    ensures
        units(0) == one(),
        units(8) == 256 * one(),
        units(32) == 0x100_0000 * units(8),
        one() > 0,
{
    lemma2_to64();
    lemma_pow2_adds(149, 8);
    lemma_pow2_adds(157, 24);
    lemma_pow2_pos(149);
}

/// What has a rank below that of `2^32` is finite or no number; what is not zero in rank
/// is a number.
pub proof fn lemma_small_is_finite(x: Single)
    requires
        -units(32) < x.rank() < units(32),
        x.rank() != 0 || !x.is_nan(),
    ensures
        x.is_finite(),
{
    lemma_pow2_strictly_increases(181, 277);
}

/// Rounding fractions to integers keeps their order.
proof fn lemma_half_even_monotone(m1: int, c1: int, m2: int, c2: int)
    requires
        m1 >= 0,
        m2 >= 0,
        c1 > 0,
        c2 > 0,
        m1 * c2 <= m2 * c1,
    ensures
        Single::half_even(m1, c1) <= Single::half_even(m2, c2),
{
    lemma_fundamental_div_mod(m1, c1);
    lemma_mod_bound(m1, c1);
    lemma_fundamental_div_mod(m2, c2);
    lemma_mod_bound(m2, c2);
    let (q1, r1) = (m1 / c1, m1 % c1);
    let (q2, r2) = (m2 / c2, m2 % c2);
    if q1 > q2 {
        assert(false) by (nonlinear_arith)
            requires
                m1 == c1 * q1 + r1,
                m2 == c2 * q2 + r2,
                0 <= r1,
                r2 < c2,
                c1 > 0,
                c2 > 0,
                q1 >= q2 + 1,
                m1 * c2 <= m2 * c1,
        ;
    } else if q1 == q2 {
        assert(r1 * c2 <= r2 * c1) by (nonlinear_arith)
            requires
                m1 == c1 * q1 + r1,
                m2 == c2 * q2 + r2,
                q1 == q2,
                m1 * c2 <= m2 * c1,
        ;
        assert(2 * r1 >= c1 ==> 2 * r2 >= c2) by (nonlinear_arith)
            requires
                r1 * c2 <= r2 * c1,
                c1 > 0,
                c2 > 0,
        ;
        assert(2 * r1 > c1 ==> 2 * r2 > c2) by (nonlinear_arith)
            requires
                r1 * c2 <= r2 * c1,
                c1 > 0,
                c2 > 0,
        ;
    }
}

/// Rounding keeps the order of fractions.
pub proof fn lemma_nearest_monotone(n1: int, d1: int, e1: int, n2: int, d2: int, e2: int)
    requires
        n1 >= 0,
        n2 >= 0,
        d1 > 0,
        d2 > 0,
        e1 >= -149,
        e2 >= -149,
        n1 * units(e1) * d2 <= n2 * units(e2) * d1,
    ensures
        Single::nearest(false, n1, d1, e1).rank() <= Single::nearest(false, n2, d2, e2).rank(),
{
    let zero = Single { bits: 0 };
    lemma_mul_basics(pow2(0) as int);
    assert(zero.rank() == 0);
    lemma_nearest_bounds(n2, d2, e2, zero);
    lemma_units_double(e1);
    lemma_units_double(e2);
    lemma_mul_nonnegative(n2, units(e2));
    lemma_mul_basics(d2);
    if n1 == 0 {
        lemma_finite(false, 0, -149);
    } else {
        let v1 = n1 * units(e1);
        let v2 = n2 * units(e2);
        assert(n2 > 0) by (nonlinear_arith)
            requires
                n1 > 0,
                units(e1) > 0,
                d2 > 0,
                d1 > 0,
                n2 >= 0,
                n1 * units(e1) * d2 <= n2 * units(e2) * d1,
        ;
        let s = lift_stop(n1, d1, e1);
        let t = lift_stop(n2, d2, e2);
        let a = s.m * units(s.x);
        let b = t.m * units(t.x);
        lemma_mul_strictly_positive(n1, units(e1));
        lemma_mul_strictly_positive(n2, units(e2));
        // a / s.c == v1 / d1 and b / t.c == v2 / d2
        assert(a * t.c <= b * s.c) by (nonlinear_arith)
            requires
                a * d1 == v1 * s.c,
                b * d2 == v2 * t.c,
                v1 * d2 <= v2 * d1,
                d1 > 0,
                d2 > 0,
                s.c > 0,
                t.c > 0,
        {
            assert(a * t.c * (d1 * d2) == v1 * d2 * (s.c * t.c));
            assert(b * s.c * (d1 * d2) == v2 * d1 * (s.c * t.c));
            assert(v1 * d2 * (s.c * t.c) <= v2 * d1 * (s.c * t.c));
        }
        lemma_half_even(s.m, s.c);
        lemma_half_even(t.m, t.c);
        let q = Single::half_even(s.m, s.c);
        let r = Single::half_even(t.m, t.c);
        assert(0x80_0000 * s.c <= s.m ==> 0x80_0000 <= q);
        assert(0x80_0000 * t.c <= t.m ==> 0x80_0000 <= r);
        assert(s.m <= 0x100_0000 * s.c);
        assert(t.m <= 0x100_0000 * t.c);
        lemma_pack_rank(q, s.x);
        lemma_pack_rank(r, t.x);
        let u = units(s.x);
        let w = units(t.x);
        lemma_units_double(s.x);
        lemma_units_double(t.x);
        assert(q * u <= r * w) by {
            if s.x < t.x {
                lemma_units_grow(s.x, t.x);
                assert(q * u <= r * w) by (nonlinear_arith)
                    requires
                        0 <= q <= 0x100_0000,
                        r >= 0x80_0000,
                        0 < u,
                        2 * u <= w,
                ;
            } else if s.x == t.x {
                assert(s.m * t.c <= t.m * s.c) by (nonlinear_arith)
                    requires
                        s.m * u * t.c <= t.m * u * s.c,
                        u > 0,
                ;
                lemma_half_even_monotone(s.m, s.c, t.m, t.c);
                assert(q * u <= r * w) by (nonlinear_arith)
                    requires
                        q <= r,
                        u == w,
                        u > 0,
                ;
            } else {
                lemma_units_grow(t.x, s.x);
                assert(false) by (nonlinear_arith)
                    requires
                        s.m * u * t.c <= t.m * w * s.c,
                        s.m >= 0x80_0000 * s.c,
                        t.m < 0x100_0000 * t.c,
                        2 * w <= u,
                        w > 0,
                        s.c > 0,
                        t.c > 0,
                {
                    assert(s.m * u * t.c >= 0x80_0000 * s.c * u * t.c);
                    assert(t.m * w * s.c < 0x100_0000 * t.c * w * s.c);
                    assert(0x100_0000 * t.c * w * s.c == 0x80_0000 * s.c * (2 * w) * t.c);
                    assert(0x80_0000 * s.c * (2 * w) * t.c <= 0x80_0000 * s.c * u * t.c);
                }
            }
        }
    }
}

/// Rounding keeps the order of signed integers on a common scale.
pub proof fn lemma_rounded_monotone(t1: int, e1: int, t2: int, e2: int)
    requires
        e1 >= -149,
        e2 >= -149,
        t1 * units(e1) <= t2 * units(e2),
    ensures
        rounded(t1, 1, e1).rank() <= rounded(t2, 1, e2).rank(),
{
    let (n1, n2) = (if t1 < 0 {
        -t1
    } else {
        t1
    }, if t2 < 0 {
        -t2
    } else {
        t2
    });
    let zero = Single { bits: 0 };
    lemma_mul_basics(pow2(0) as int);
    assert(zero.rank() == 0);
    lemma_nearest_bounds(n1, 1, e1, zero);
    lemma_nearest_bounds(n2, 1, e2, zero);
    lemma_nearest_sign(n1, 1, e1);
    lemma_nearest_sign(n2, 1, e2);
    lemma_rank_sign(Single::nearest(false, n1, 1, e1));
    lemma_rank_sign(Single::nearest(false, n2, 1, e2));
    lemma_units_double(e1);
    lemma_units_double(e2);
    let (u1, u2) = (units(e1), units(e2));
    lemma_mul_nonnegative(n1, u1);
    lemma_mul_nonnegative(n2, u2);
    assert((-t1) * u1 == -(t1 * u1)) by (nonlinear_arith);
    assert((-t2) * u2 == -(t2 * u2)) by (nonlinear_arith);
    lemma_mul_basics(n1 * u1);
    lemma_mul_basics(n2 * u2);
    if t1 >= 0 && t2 >= 0 {
        lemma_nearest_monotone(n1, 1, e1, n2, 1, e2);
    } else if t1 < 0 && t2 < 0 {
        lemma_nearest_monotone(n2, 1, e2, n1, 1, e1);
    } else if t1 >= 0 && t2 < 0 {
        assert(t2 * u2 < 0) by (nonlinear_arith)
            requires
                t2 < 0,
                u2 > 0,
        ;
        assert(false);
    }
}

/// A rounded fraction lies within one unit `2^k` of the exact one, for every `k` at which
/// that unit is not finer than the format.
pub proof fn lemma_rounded_near(t: int, d: int, e: int, k: int)
    requires
        d > 0,
        e >= -149,
        -149 <= k <= 100,
        -0x80_0000 * (units(k) * d) <= t * units(e) <= 0x80_0000 * (units(k) * d),
    ensures
        rounded(t, d, e).is_finite(),
        -units(k) * d <= rounded(t, d, e).rank() * d - t * units(e) <= units(k) * d,
{
    let z = rounded(t, d, e);
    let v = t * units(e);
    let u = units(k);
    let step = u * d;
    lemma_units_double(k);
    lemma_mul_strictly_positive(u, d);
    let j = v / step;
    lemma_fundamental_div_mod(v, step);
    lemma_mod_bound(v, step);
    assert(-0x80_0000 <= j <= 0x80_0000) by (nonlinear_arith)
        requires
            v == step * j + v % step,
            0 <= v % step < step,
            step > 0,
            -0x80_0000 * step <= v <= 0x80_0000 * step,
    ;
    let b1 = signed_exact(j, k);
    let b2 = signed_exact(j + 1, k);
    lemma_rounded_bounds(t, d, e, b1);
    lemma_rounded_bounds(t, d, e, b2);
    assert(b1.rank() * d == step * j) by (nonlinear_arith)
        requires
            b1.rank() == j * u,
            step == u * d,
    ;
    assert(b2.rank() * d == step * j + step) by (nonlinear_arith)
        requires
            b2.rank() == (j + 1) * u,
            step == u * d,
    ;
    let r = z.rank();
    assert(step * j <= r * d <= step * j + step) by (nonlinear_arith)
        requires
            b1.rank() <= r <= b2.rank(),
            b1.rank() * d == step * j,
            b2.rank() * d == step * j + step,
            d > 0,
    ;
    assert(-u * d == -(u * d)) by (nonlinear_arith);
    // between two finite numbers
    lemma_units_grow(k, 100);
    lemma_pow2_adds(24, 249);
    lemma_pow2_strictly_increases(273, 277);
    lemma2_to64();
    assert(b1.rank() > -0x100_0000 * units(100)) by (nonlinear_arith)
        requires
            b1.rank() == j * u,
            j > -0x100_0000,
            0 < u <= units(100),
    ;
    assert(b2.rank() < 0x100_0000 * units(100)) by (nonlinear_arith)
        requires
            b2.rank() == (j + 1) * u,
            j + 1 < 0x100_0000,
            0 < u <= units(100),
    ;
}

/// The number that is `j` units of `2^k`.
pub proof fn signed_exact(j: int, k: int) -> (b: Single)
    requires
        -0x100_0000 < j < 0x100_0000,
        -149 <= k <= 104,
    ensures
        b.is_finite(),
        b.rank() == j * units(k),
{
    let n = if j < 0 {
        -j
    } else {
        j
    };
    let z = Single::nearest(false, n, 1, k);
    lemma_exact(n, k);
    lemma_rank_sign(z);
    lemma_finite_sign(z);
    assert((-n) * units(k) == -(n * units(k))) by (nonlinear_arith);
    if j < 0 {
        z.negated()
    } else {
        z
    }
}

/// The value of a number.
pub open spec fn value(x: Single) -> real {
    x.rank() as real / one() as real
}

/// `2^k` as a value.
pub open spec fn tiny(k: int) -> real {
    units(k) as real / one() as real
}

/// The value of a whole number.
pub proof fn lemma_int_value(n: int)
    requires
        -0x100_0000 < n < 0x100_0000,
    ensures
        Single::of_int(n).is_finite(),
        value(Single::of_int(n)) == n as real,
{
    lemma_int_rank(n);
    lemma_pow2_pos(149);
    let o = one() as real;
    let m = n as real;
    assert((n * one()) as real == m * o) by (nonlinear_arith)
        requires
            m == n as real,
            o == one() as real,
    ;
    assert(m * o / o == m) by (nonlinear_arith)
        requires
            o > 0 as real,
    ;
}

/// Values lie in the order of ranks.
pub proof fn lemma_value_order(x: Single, y: Single)
    ensures
        value(x) <= value(y) <==> x.rank() <= y.rank(),
        value(x) < value(y) <==> x.rank() < y.rank(),
        value(x.negated()) == -value(x),
{
    lemma_pow2_pos(149);
    lemma_rank_sign(x);
    let o = one() as real;
    let a = x.rank() as real;
    let b = y.rank() as real;
    assert(a <= b <==> a / o <= b / o) by (nonlinear_arith)
        requires
            o > 0 as real,
    ;
    assert(a < b <==> a / o < b / o) by (nonlinear_arith)
        requires
            o > 0 as real,
    ;
    assert((-a) / o == -(a / o)) by (nonlinear_arith)
        requires
            o > 0 as real,
    ;
}

/// `2^-j` as a value.
pub proof fn lemma_tiny(j: nat)
    requires
        j <= 32,
    ensures
        tiny(-j) * pow2(j) as real == 1 as real,
        tiny(-j) > 0 as real,
{
    lemma_pow2_pos(149);
    lemma_pow2_pos(j);
    lemma_pow2_pos((149 - j) as nat);
    lemma_pow2_adds((149 - j) as nat, j);
    let o = one() as real;
    let u = units(-j) as real;
    let p = pow2(j) as real;
    assert((units(-j) * pow2(j)) as real == u * p) by (nonlinear_arith)
        requires
            u == units(-j) as real,
            p == pow2(j) as real,
    ;
    assert((u / o) * p == 1 as real && u / o > 0 as real) by (nonlinear_arith)
        requires
            u * p == o,
            o > 0 as real,
            u > 0 as real,
    ;
}

/// The number `j * 2^-k`.
pub proof fn dyadic(j: int, k: nat) -> (b: Single)
    requires
        -0x100_0000 < j < 0x100_0000,
        k <= 32,
    ensures
        b.is_finite(),
        value(b) * pow2(k) as real == j as real,
{
    let b = signed_exact(j, -k);
    lemma_tiny(k);
    lemma_pow2_pos(149);
    let o = one() as real;
    let u = units(-k) as real;
    let p = pow2(k) as real;
    let m = j as real;
    assert((j * units(-k)) as real == m * u) by (nonlinear_arith)
        requires
            m == j as real,
            u == units(-k) as real,
    ;
    assert((m * u) / o * p == m) by (nonlinear_arith)
        requires
            (u / o) * p == 1 as real,
            o > 0 as real,
    ;
    b
}

/// An exact result and its rounding, as values.
proof fn lemma_value_near(r: Exact, z: Single, p: int, q: int, k: int, v: real)
    requires
        r.gives(z, p, q),
        -149 <= k <= 100,
        v * (q as real) * (one() as real) == p as real,
        -(0x80_0000 as real) * tiny(k) <= v <= (0x80_0000 as real) * tiny(k),
    ensures
        z.is_finite(),
        v - tiny(k) <= value(z) <= v + tiny(k),
{
    lemma_pow2_pos(149);
    lemma_units_double(k);
    let o = one() as real;
    let u = units(k) as real;
    let f = q as real;
    let g = p as real;
    let t = tiny(k);
    let n = 0x80_0000 as real;
    assert(t * o == u) by (nonlinear_arith)
        requires
            t == u / o,
            o > 0 as real,
    ;
    assert((units(k) * q) as real == u * f) by (nonlinear_arith)
        requires
            u == units(k) as real,
            f == q as real,
    ;
    assert(-n * (u * f) <= g <= n * (u * f)) by (nonlinear_arith)
        requires
            -n * t <= v <= n * t,
            t * o == u,
            v * f * o == g,
            f > 0 as real,
            o > 0 as real,
    {
        let fo = f * o;
        assert(fo > 0 as real);
        assert(v * fo == g);
        assert(n * t * fo == n * (u * f));
        assert(-n * t * fo <= v * fo <= n * t * fo);
    }
    lemma_near(r, z, p, q, k);
    let w = z.rank() as real;
    assert((z.rank() * q) as real == w * f) by (nonlinear_arith)
        requires
            w == z.rank() as real,
            f == q as real,
    ;
    let i = units(k);
    assert(-i * q == -(i * q)) by (nonlinear_arith);
    assert(v - t <= w / o <= v + t) by (nonlinear_arith)
        requires
            t * o == u,
            v * f * o == g,
            -(u * f) <= w * f - g <= u * f,
            f > 0 as real,
            o > 0 as real,
    {
        let y = w / o;
        assert(y * o == w);
        assert((y - v) * (f * o) == w * f - g);
        assert(t * (f * o) == u * f);
        let fo = f * o;
        assert(fo > 0 as real);
        assert(-t * fo <= (y - v) * fo <= t * fo);
    }
}

/// A sum, as values.
pub proof fn lemma_sum_value(x: Single, y: Single, k: int)
    requires
        x.is_finite(),
        y.is_finite(),
        -149 <= k <= 100,
        -(0x80_0000 as real) * tiny(k) <= value(x) + value(y) <= (0x80_0000 as real) * tiny(k),
    ensures
        x.sum(y).is_finite(),
        value(x) + value(y) - tiny(k) <= value(x.sum(y)) <= value(x) + value(y) + tiny(k),
{
    let r = exact_sum(x, y);
    lemma_pow2_pos(149);
    let o = one() as real;
    let (a, b) = (x.rank() as real, y.rank() as real);
    let v = value(x) + value(y);
    assert((a / o + b / o) * (1 as real) * o == a + b) by (nonlinear_arith)
        requires
            o > 0 as real,
    ;
    lemma_value_near(r, x.sum(y), x.rank() + y.rank(), 1, k, v);
}

/// A product, as values.
pub proof fn lemma_product_value(x: Single, y: Single, k: int)
    requires
        x.is_finite(),
        y.is_finite(),
        -149 <= k <= 100,
        -(0x80_0000 as real) * tiny(k) <= value(x) * value(y) <= (0x80_0000 as real) * tiny(k),
    ensures
        x.product(y).is_finite(),
        value(x) * value(y) - tiny(k) <= value(x.product(y)) <= value(x) * value(y) + tiny(k),
{
    let r = exact_product(x, y);
    lemma_pow2_pos(149);
    let o = one() as real;
    let (a, b) = (x.rank() as real, y.rank() as real);
    assert((x.rank() * y.rank()) as real == a * b) by (nonlinear_arith)
        requires
            a == x.rank() as real,
            b == y.rank() as real,
    ;
    assert((a / o) * (b / o) * o * o == a * b) by (nonlinear_arith)
        requires
            o > 0 as real,
    ;
    lemma_value_near(r, x.product(y), x.rank() * y.rank(), one(), k, value(x) * value(y));
}

/// A quotient, as values.
pub proof fn lemma_quotient_value(x: Single, y: Single, k: int)
    requires
        x.is_finite(),
        y.is_finite(),
        value(y) > 0 as real,
        -149 <= k <= 100,
        -(0x80_0000 as real) * tiny(k) <= value(x) / value(y) <= (0x80_0000 as real) * tiny(k),
    ensures
        x.quotient(y).is_finite(),
        value(x) / value(y) - tiny(k) <= value(x.quotient(y)) <= value(x) / value(y) + tiny(k),
{
    lemma_pow2_pos(149);
    let o = one() as real;
    let (a, b) = (x.rank() as real, y.rank() as real);
    assert(b > 0 as real) by (nonlinear_arith)
        requires
            b / o > 0 as real,
            o > 0 as real,
    ;
    let r = exact_quotient(x, y);
    assert((x.rank() * one()) as real == a * o) by (nonlinear_arith)
        requires
            a == x.rank() as real,
            o == one() as real,
    ;
    assert(((a / o) / (b / o)) * b * o == a * o) by (nonlinear_arith)
        requires
            o > 0 as real,
            b > 0 as real,
    ;
    lemma_value_near(r, x.quotient(y), x.rank() * one(), y.rank(), k, value(x) / value(y));
}

/// An exact result and its rounding, on one side of a number.
proof fn lemma_value_side(r: Exact, z: Single, p: int, q: int, b: Single, v: real)
    requires
        r.gives(z, p, q),
        b.is_finite(),
        v * (q as real) * (one() as real) == p as real,
    ensures
        value(b) <= v ==> value(b) <= value(z),
        v <= value(b) ==> value(z) <= value(b),
{
    lemma_pow2_pos(149);
    lemma_bounds(r, z, p, q, b);
    lemma_value_order(b, z);
    lemma_value_order(z, b);
    let o = one() as real;
    let f = q as real;
    let g = p as real;
    let c = b.rank() as real;
    assert((b.rank() * q) as real == c * f) by (nonlinear_arith)
        requires
            c == b.rank() as real,
            f == q as real,
    ;
    assert((c / o <= v ==> c * f <= g) && (v <= c / o ==> g <= c * f)) by (nonlinear_arith)
        requires
            v * f * o == g,
            f > 0 as real,
            o > 0 as real,
    {
        let y = c / o;
        let fo = f * o;
        assert(fo > 0 as real);
        assert(y * fo == c * f);
        assert(v * fo == g);
        assert(y <= v ==> y * fo <= v * fo);
        assert(v <= y ==> v * fo <= y * fo);
    }
}

/// A sum lies on the same side of every number as the exact sum.
pub proof fn lemma_sum_side(x: Single, y: Single, b: Single)
    requires
        x.is_finite(),
        y.is_finite(),
        b.is_finite(),
    ensures
        value(b) <= value(x) + value(y) ==> value(b) <= value(x.sum(y)),
        value(x) + value(y) <= value(b) ==> value(x.sum(y)) <= value(b),
{
    let r = exact_sum(x, y);
    lemma_pow2_pos(149);
    let o = one() as real;
    let (c, d) = (x.rank() as real, y.rank() as real);
    assert((c / o + d / o) * (1 as real) * o == c + d) by (nonlinear_arith)
        requires
            o > 0 as real,
    ;
    lemma_value_side(r, x.sum(y), x.rank() + y.rank(), 1, b, value(x) + value(y));
}

/// A product lies on the same side of every number as the exact product.
pub proof fn lemma_product_side(x: Single, y: Single, b: Single)
    requires
        x.is_finite(),
        y.is_finite(),
        b.is_finite(),
    ensures
        value(b) <= value(x) * value(y) ==> value(b) <= value(x.product(y)),
        value(x) * value(y) <= value(b) ==> value(x.product(y)) <= value(b),
{
    let r = exact_product(x, y);
    lemma_pow2_pos(149);
    let o = one() as real;
    let (c, d) = (x.rank() as real, y.rank() as real);
    assert((x.rank() * y.rank()) as real == c * d) by (nonlinear_arith)
        requires
            c == x.rank() as real,
            d == y.rank() as real,
    ;
    assert((c / o) * (d / o) * o * o == c * d) by (nonlinear_arith)
        requires
            o > 0 as real,
    ;
    lemma_value_side(r, x.product(y), x.rank() * y.rank(), one(), b, value(x) * value(y));
}

/// A quotient lies on the same side of every number as the exact quotient.
pub proof fn lemma_quotient_side(x: Single, y: Single, b: Single)
    requires
        x.is_finite(),
        y.is_finite(),
        b.is_finite(),
        value(y) > 0 as real,
    ensures
        value(b) <= value(x) / value(y) ==> value(b) <= value(x.quotient(y)),
        value(x) / value(y) <= value(b) ==> value(x.quotient(y)) <= value(b),
{
    lemma_pow2_pos(149);
    let o = one() as real;
    let (c, d) = (x.rank() as real, y.rank() as real);
    assert(d > 0 as real) by (nonlinear_arith)
        requires
            d / o > 0 as real,
            o > 0 as real,
    ;
    let r = exact_quotient(x, y);
    assert((x.rank() * one()) as real == c * o) by (nonlinear_arith)
        requires
            c == x.rank() as real,
            o == one() as real,
    ;
    assert(((c / o) / (d / o)) * d * o == c * o) by (nonlinear_arith)
        requires
            o > 0 as real,
            d > 0 as real,
    ;
    lemma_value_side(r, x.quotient(y), x.rank() * one(), y.rank(), b, value(x) / value(y));
}

/// A difference changes its sign when its terms change places.
pub proof fn lemma_difference_odd(x: Single, y: Single)
    requires
        x.is_finite(),
        y.is_finite(),
    ensures
        x.difference(y).rank() == -y.difference(x).rank(),
{
    lemma_rank_sign(x);
    lemma_rank_sign(y);
    lemma_finite_sign(x);
    lemma_finite_sign(y);
    let r1 = exact_sum(x, y.negated());
    let r2 = exact_sum(y, x.negated());
    lemma_mul_basics(r1.t * units(r1.e));
    lemma_mul_basics(r2.t * units(r2.e));
    lemma_mul_basics(x.rank() - y.rank());
    lemma_mul_basics(y.rank() - x.rank());
    assert((-r2.t) * units(r2.e) == -(r2.t * units(r2.e))) by (nonlinear_arith);
    lemma_rounded_monotone(r1.t, r1.e, -r2.t, r2.e);
    lemma_rounded_monotone(-r2.t, r2.e, r1.t, r1.e);
    let n = if r2.t < 0 {
        -r2.t
    } else {
        r2.t
    };
    lemma_nearest_sign(n, 1, r2.e);
    lemma_rank_sign(Single::nearest(false, n, 1, r2.e));
    lemma_as_rounded(true, n, 1, r2.e);
    lemma_as_rounded(false, n, 1, r2.e);
}

/// Differences lie in the order of the exact ones.
pub proof fn lemma_difference_monotone(x1: Single, y1: Single, x2: Single, y2: Single)
    requires
        x1.is_finite(),
        y1.is_finite(),
        x2.is_finite(),
        y2.is_finite(),
        x1.rank() - y1.rank() <= x2.rank() - y2.rank(),
    ensures
        x1.difference(y1).rank() <= x2.difference(y2).rank(),
{
    lemma_rank_sign(y1);
    lemma_rank_sign(y2);
    lemma_finite_sign(y1);
    lemma_finite_sign(y2);
    lemma_sum_monotone(x1, y1.negated(), x2, y2.negated());
}

/// The remainder of a division is exact.
pub proof fn lemma_remainder(x: Single, y: Single)
    requires
        x.is_finite(),
        y.is_finite(),
        y.rank() > 0,
    ensures
        x.remainder(y).is_finite(),
        x.rank() >= 0 ==> x.remainder(y).rank() == x.rank() % y.rank(),
        x.rank() < 0 ==> x.remainder(y).rank() == -((-x.rank()) % y.rank()),
{
    lemma_finite_rank(x);
    lemma_finite_rank(y);
    let (n1, s1, e1) = (x.parts()->Finite_neg, x.parts()->sig as int, x.parts()->exp as int);
    let (n2, s2, e2) = (y.parts()->Finite_neg, y.parts()->sig as int, y.parts()->exp as int);
    lemma_units_double(e1);
    lemma_units_double(e2);
    let u2 = units(e2);
    assert(!n2 && s2 > 0) by (nonlinear_arith)
        requires
            y.rank() == (if n2 {
                -s2
            } else {
                s2
            }) * u2,
            y.rank() > 0,
            u2 > 0,
            s2 >= 0,
    ;
    let low = Single::low(e1, e2);
    let a = Single::aligned(s1, e1, low);
    let b = Single::aligned(s2, e2, low);
    lemma_units_grow(low, e1);
    lemma_units_grow(low, e2);
    let u = units(low);
    let (p1, p2) = (pow2((e1 - low) as nat) as int, pow2((e2 - low) as nat) as int);
    lemma_pow2_pos((e1 - low) as nat);
    lemma_pow2_pos((e2 - low) as nat);
    lemma2_to64();
    lemma_mul_nonnegative(s1, p1);
    lemma_mul_strictly_positive(s2, p2);
    lemma_mul_basics(s1);
    lemma_mul_basics(s2);
    lemma_mod_bound(a, b);
    lemma_fundamental_div_mod(a, b);
    let m = a % b;
    assert(0 <= m < 0x100_0000) by {
        if e1 < e2 {
            lemma_mod_decreases(a as nat, b as nat);
        }
    }
    lemma_exact(m, low);
    let z = Single::nearest(false, m, 1, low);
    lemma_nearest_sign(m, 1, low);
    lemma_rank_sign(z);
    lemma_finite_sign(z);
    let xs = s1 * units(e1);
    assert(xs == a * u && y.rank() == b * u) by (nonlinear_arith)
        requires
            xs == s1 * (u * p1),
            y.rank() == s2 * (u * p2),
            a == s1 * p1,
            b == s2 * p2,
    ;
    let q = a / b;
    assert(a * u == q * (b * u) + m * u) by (nonlinear_arith)
        requires
            a == b * q + m,
    ;
    assert(0 <= m * u < b * u) by (nonlinear_arith)
        requires
            0 <= m < b,
            u > 0,
    ;
    lemma_fundamental_div_mod_converse(xs, y.rank(), q, m * u);
    lemma_mul_nonnegative(s1, units(e1));
    assert((-s1) * units(e1) == -xs) by (nonlinear_arith)
        requires
            xs == s1 * units(e1),
    ;
    if xs == 0 {
        lemma_small_mod(0, y.rank() as nat);
    }
}

/// Some powers of two as values.
pub proof fn lemma_tiny_values()
    ensures
        tiny(-4) == 1 as real / 0x10 as real,
        tiny(-9) == 1 as real / 0x200 as real,
        tiny(-13) == 1 as real / 0x2000 as real,
        tiny(-14) == 1 as real / 0x4000 as real,
        tiny(-15) == 1 as real / 0x8000 as real,
        tiny(-16) == 1 as real / 0x10000 as real,
        tiny(-17) == 1 as real / 0x20000 as real,
        tiny(-18) == 1 as real / 0x40000 as real,
        tiny(-19) == 1 as real / 0x80000 as real,
        tiny(-20) == 1 as real / 0x100000 as real,
        tiny(-21) == 1 as real / 0x200000 as real,
        tiny(-22) == 1 as real / 0x400000 as real,
        tiny(-23) == 1 as real / 0x800000 as real,
{
    lemma2_to64();
    lemma_tiny(4);
    tiny_is(tiny(-4), 0x10);
    lemma_tiny(9);
    tiny_is(tiny(-9), 0x200);
    lemma_tiny(13);
    tiny_is(tiny(-13), 0x2000);
    lemma_tiny(14);
    tiny_is(tiny(-14), 0x4000);
    lemma_tiny(15);
    tiny_is(tiny(-15), 0x8000);
    lemma_tiny(16);
    tiny_is(tiny(-16), 0x10000);
    lemma_tiny(17);
    tiny_is(tiny(-17), 0x20000);
    lemma_tiny(18);
    tiny_is(tiny(-18), 0x40000);
    lemma_tiny(19);
    tiny_is(tiny(-19), 0x80000);
    lemma_tiny(20);
    tiny_is(tiny(-20), 0x100000);
    lemma_tiny(21);
    tiny_is(tiny(-21), 0x200000);
    lemma_tiny(22);
    tiny_is(tiny(-22), 0x400000);
    lemma_tiny(23);
    tiny_is(tiny(-23), 0x800000);
}

proof fn tiny_is(t: real, n: int)
    requires
        n > 0,
        t * n as real == 1 as real,
    ensures
        t == 1 as real / n as real,
{
    let m = n as real;
    assert(t == 1 as real / m) by (nonlinear_arith)
        requires
            t * m == 1 as real,
            m > 0 as real,
    ;
}

/// The whole part of a number that is not negative.
pub proof fn lemma_whole(x: Single)
    requires
        x.is_finite(),
        x.rank() >= 0,
    ensures
        x.parts() matches Parts::Finite { neg, sig, exp } && {
            let n = Single::whole(sig as int, exp as int);
            n >= 0 && n as real <= value(x) && value(x) < n as real + 1 as real && (neg ==> n == 0)
        },
{
    lemma_finite_rank(x);
    let (neg, sig, exp) = (x.parts()->Finite_neg, x.parts()->sig as int, x.parts()->exp as int);
    let n = Single::whole(sig, exp);
    lemma_units_double(exp);
    lemma_pow2_pos(149);
    let u = units(exp);
    if neg {
        assert(sig == 0) by (nonlinear_arith)
            requires
                (-sig) * u >= 0,
                sig >= 0,
                u > 0,
        ;
    }
    assert(x.rank() == sig * u) by {
        lemma_mul_basics(u);
    }
    if exp >= 0 {
        lemma_pow2_adds(exp as nat, 149);
        lemma_pow2_pos(exp as nat);
        let p = pow2(exp as nat) as int;
        lemma_mul_nonnegative(sig, p);
        lemma_mul_basics(p);
        assert(sig * u == n * one()) by (nonlinear_arith)
            requires
                u == p * one(),
                n == sig * p,
        ;
    } else {
        let p = pow2((-exp) as nat) as int;
        lemma_pow2_pos((-exp) as nat);
        lemma_pow2_adds((exp + 149) as nat, (-exp) as nat);
        lemma_fundamental_div_mod(sig, p);
        lemma_mod_bound(sig, p);
        lemma_div_pos_is_pos(sig, p);
        lemma_small_div(p);
        assert(n * one() <= sig * u < (n + 1) * one()) by (nonlinear_arith)
            requires
                one() == u * p,
                sig == p * n + sig % p,
                0 <= sig % p < p,
                u > 0,
        ;
    }
    let o = one() as real;
    let w = x.rank() as real;
    let m = n as real;
    assert((n * one()) as real == m * o) by (nonlinear_arith)
        requires
            m == n as real,
            o == one() as real,
    ;
    assert(((n + 1) * one()) as real == (m + 1 as real) * o) by (nonlinear_arith)
        requires
            m == n as real,
            o == one() as real,
    ;
    let k = n * one();
    assert((n + 1) * one() == k + one()) by (nonlinear_arith)
        requires
            k == n * one(),
    ;
    assert(m <= w / o && w / o < m + 1 as real) by (nonlinear_arith)
        requires
            m * o <= w,
            w < (m + 1 as real) * o,
            o > 0 as real,
    ;
}

proof fn lemma_small_div(p: int)
    requires
        p > 0,
    ensures
        0int / p == 0,
{
    lemma_div_basics(p);
    lemma_basic_div(0, p);
}

/// What is left of a number after whole pairs are taken away.
pub proof fn lemma_modulo_two(x: Single) -> (k: int)
    requires
        x.is_finite(),
        x.rank() >= 0,
    ensures
        x.remainder(Single::of_int(2)).is_finite(),
        k >= 0,
        value(x.remainder(Single::of_int(2))) == value(x) - 2 as real * k as real,
        0 as real <= value(x.remainder(Single::of_int(2))),
        value(x.remainder(Single::of_int(2))) < 2 as real,
{
    let two = Single::of_int(2);
    lemma_int_rank(2);
    lemma_int_value(2);
    lemma_pow2_pos(149);
    lemma_remainder(x, two);
    let y = two.rank();
    let k = x.rank() / y;
    lemma_fundamental_div_mod(x.rank(), y);
    lemma_mod_bound(x.rank(), y);
    lemma_div_pos_is_pos(x.rank(), y);
    let z = x.remainder(two);
    let o = one() as real;
    let (a, b, m) = (x.rank() as real, z.rank() as real, k as real);
    assert(y * k == (2 * k) * one()) by (nonlinear_arith)
        requires
            y == 2 * one(),
    ;
    assert(((2 * k) * one()) as real == 2 as real * m * o) by (nonlinear_arith)
        requires
            m == k as real,
            o == one() as real,
    ;
    assert(b / o == a / o - 2 as real * m && 0 as real <= b / o && b / o < 2 as real)
        by (nonlinear_arith)
        requires
            b == a - 2 as real * m * o,
            0 as real <= b,
            b < 2 as real * o,
            o > 0 as real,
    ;
    k
}

/// A 32-bit integer is rounded to a number of at most that size.
pub proof fn lemma_large_int(n: i32)
    ensures
        Single::of_int(n as int).is_finite(),
        -0x8000_0000 * one() <= Single::of_int(n as int).rank() <= 0x8000_0000 * one(),
{
    let m: int = if n < 0 {
        -n
    } else {
        n as int
    };
    lemma2_to64();
    lemma_units_steps();
    lemma_units_grow(0, 31);
    assert(units(31) == 0x8000_0000 * one()) by (nonlinear_arith)
        requires
            units(31) == units(0) * pow2(31),
            units(0) == one(),
            pow2(31) == 0x8000_0000,
    ;
    let top = Single::nearest(false, 1, 1, 31);
    lemma_exact(1, 31);
    lemma_mul_basics(units(31));
    lemma_mul_basics(top.rank());
    lemma_mul_inequality(m, 0x8000_0000, one());
    lemma_nearest_bounds(m, 1, 0, top);
    lemma_nearest_bounds(m, 1, 0, Single { bits: 0 });
    lemma_nearest_sign(m, 1, 0);
    lemma_mul_nonnegative(m, one());
    assert((Single { bits: 0 }).rank() == 0) by {
        lemma_mul_basics(pow2(0) as int);
    }
    let z = Single::nearest(false, m, 1, 0);
    lemma_rank_sign(z);
    lemma_finite_sign(z);
    lemma_small_is_finite(z);
}

/// An angle within one turn, moved by any 32-bit number of degrees, lies within `2^32`
/// degrees.
pub proof fn lemma_moved_angle(h: Single, n: i32)
    requires
        h.is_finite(),
        0 <= h.rank() <= 360 * one(),
    ensures
        !h.sum(Single::of_int(n as int)).is_nan(),
        -units(32) < h.sum(Single::of_int(n as int)).rank() < units(32),
{
    let d = Single::of_int(n as int);
    lemma_large_int(n);
    lemma2_to64();
    lemma_units_steps();
    lemma_units_grow(0, 9);
    assert(units(9) == 512 * one()) by (nonlinear_arith)
        requires
            units(9) == units(0) * pow2(9),
            units(0) == one(),
            pow2(9) == 512,
    ;
    let far = signed_exact(0x40_0001, 9);
    let near = signed_exact(-0x40_0001, 9);
    lemma_sum_bounds(h, d, far);
    lemma_sum_bounds(h, d, near);
}

/// How far two integers are apart.
pub open spec fn apart(a: int, b: int) -> int {
    if a < b {
        b - a
    } else {
        a - b
    }
}

/// No integer is nearer to a fraction than the one that it is rounded to, which is even where
/// another one is as near.
proof fn lemma_half_even_distance(m: int, c: int, j: int)
    requires
        m >= 0,
        c > 0,
    ensures
        apart(Single::half_even(m, c) * c, m) <= apart(j * c, m),
        apart(Single::half_even(m, c) * c, m) == apart(j * c, m) && j != Single::half_even(m, c)
            ==> Single::half_even(m, c) % 2 == 0,
{
    lemma_half_even(m, c);
    let q = Single::half_even(m, c);
    let k = m / c;
    lemma_fundamental_div_mod(m, c);
    assert(k * c == c * k && (k + 1) * c == c * k + c) by (nonlinear_arith);
    if j < q {
        assert(j * c <= q * c - c) by (nonlinear_arith)
            requires
                j <= q - 1,
                c > 0,
        ;
    } else if j > q {
        assert(j * c >= q * c + c) by (nonlinear_arith)
            requires
                j >= q + 1,
                c > 0,
        ;
    }
}

/// No number of the format that is not negative is nearer to a fraction than the one that
/// it is rounded to.
proof fn lemma_nearest_distance(n: int, d: int, e: int, b: Single)
    requires
        n >= 0,
        d > 0,
        e >= -149,
        b.is_finite(),
        b.rank() >= 0,
        Single::nearest(false, n, d, e).is_finite(),
    ensures
        apart(Single::nearest(false, n, d, e).rank() * d, n * units(e)) <= apart(
            b.rank() * d,
            n * units(e),
        ),
        apart(Single::nearest(false, n, d, e).rank() * d, n * units(e)) == apart(
            b.rank() * d,
            n * units(e),
        ) && b.rank() != Single::nearest(false, n, d, e).rank() ==> Single::nearest(
            false,
            n,
            d,
            e,
        ).bits % 2 == 0,
{
    let z = Single::nearest(false, n, d, e);
    let v = n * units(e);
    lemma_units_double(e);
    if n == 0 {
        lemma_finite(false, 0, -149);
        lemma_mul_basics(pow2(0) as int);
        lemma_mul_basics(units(e));
        lemma_mul_basics(d);
    } else {
        let s = lift_stop(n, d, e);
        let q = Single::half_even(s.m, s.c);
        lemma_half_even(s.m, s.c);
        assert(0x80_0000 * s.c <= s.m ==> 0x80_0000 <= q);
        assert(s.m <= 0x100_0000 * s.c);
        lemma_pack_rank(q, s.x);
        lemma_nearest_sign(n, d, e);
        lemma_rank_sign(z);
        lemma_finite_sign(z);
        lemma_magnitude_order(z.bits, 0x7f80_0000);
        lemma_units_double(s.x);
        lemma_finite_rank(b);
        let u = units(s.x);
        let r = b.rank();
        let sig = b.parts()->sig as int;
        let exp = b.parts()->exp as int;
        lemma_units_double(exp);
        assert(r == sig * units(exp)) by (nonlinear_arith)
            requires
                r == (if b.parts()->Finite_neg {
                    -sig
                } else {
                    sig
                }) * units(exp),
                r >= 0,
                sig >= 0,
                units(exp) > 0,
        ;
        let (m, c) = (s.m, s.c);
        // the place on the grid of the result, at or beyond which `b` lies
        let j = if exp >= s.x {
            sig * pow2((exp - s.x) as nat)
        } else {
            0x80_0000
        };
        lemma_half_even_distance(m, c, j);
        if exp >= s.x {
            lemma_units_grow(s.x, exp);
            let p = pow2((exp - s.x) as nat) as int;
            assert(r == j * u) by (nonlinear_arith)
                requires
                    r == sig * units(exp),
                    units(exp) == u * p,
                    j == sig * p,
            ;
        } else {
            lemma_units_grow(exp, s.x);
            assert(r <= j * u) by (nonlinear_arith)
                requires
                    r == sig * units(exp),
                    sig < 0x100_0000,
                    0 < units(exp),
                    2 * units(exp) <= u,
                    j == 0x80_0000,
            ;
            assert(j * c <= m);
        }
        let (x, y) = (apart(q * c, m), apart(j * c, m));
        let (zr, rd) = (z.rank() * d, r * d);
        lemma_mul_is_associative(m, u, d);
        lemma_mul_is_associative(q, u, d);
        lemma_mul_is_associative(j, u, d);
        lemma_mul_strictly_positive(u, d);
        lemma_scaled(q, u * d, v, c, m);
        if exp >= s.x {
            lemma_scaled(j, u * d, v, c, m);
        } else {
            assert(apart(rd, v) * c >= y * (u * d)) by (nonlinear_arith)
                requires
                    rd == r * d,
                    r <= j * u,
                    m * u * d == v * c,
                    c > 0,
                    d > 0,
                    y == m - j * c,
                    apart(rd, v) >= v - rd,
            {
                assert(r * d <= (j * u) * d);
                assert((v - rd) * c >= v * c - (j * u) * d * c);
                assert(v * c - (j * u) * d * c == (m - j * c) * (u * d));
                assert(apart(rd, v) * c >= (v - rd) * c);
            }
        }
        assert(apart(zr, v) <= apart(rd, v)) by (nonlinear_arith)
            requires
                apart(zr, v) * c == x * (u * d),
                apart(rd, v) * c >= y * (u * d),
                x <= y,
                c > 0,
                u > 0,
                d > 0,
        {
            assert(u * d > 0);
            assert(x * (u * d) <= y * (u * d));
        }
        if apart(zr, v) == apart(rd, v) {
            assert(x == y) by (nonlinear_arith)
                requires
                    apart(zr, v) * c == x * (u * d),
                    apart(rd, v) * c >= y * (u * d),
                    apart(zr, v) == apart(rd, v),
                    x <= y,
                    u > 0,
                    d > 0,
            {
                assert(u * d > 0);
                assert(x * (u * d) >= y * (u * d));
            }
            if q % 2 == 0 {
                lemma_even_pack(q, s.x);
            }
        }
    }
}

/// An even significand makes even bits.
proof fn lemma_even_pack(q: int, x: int)
    requires
        0 <= q <= 0x100_0000,
        q % 2 == 0,
        x >= -149,
        Single::pack(false, q, x).is_finite(),
    ensures
        Single::pack(false, q, x).bits % 2 == 0,
{
}

/// No finite number is nearer to a signed fraction than the one that it is rounded to.
proof fn lemma_rounded_distance(t: int, d: int, e: int, b: Single)
    requires
        d > 0,
        e >= -149,
        b.is_finite(),
        rounded(t, d, e).is_finite(),
    ensures
        apart(rounded(t, d, e).rank() * d, t * units(e)) <= apart(b.rank() * d, t * units(e)),
        apart(rounded(t, d, e).rank() * d, t * units(e)) == apart(b.rank() * d, t * units(e))
            && b.rank() != rounded(t, d, e).rank() ==> rounded(t, d, e).bits % 2 == 0,
{
    let n = if t < 0 {
        -t
    } else {
        t
    };
    let z = Single::nearest(false, n, d, e);
    let zero = Single { bits: 0 };
    // the number on the side of the fraction
    let a = if t < 0 {
        b.negated()
    } else {
        b
    };
    lemma_nearest_sign(n, d, e);
    lemma_rank_sign(z);
    lemma_finite_sign(z);
    lemma_rank_sign(b);
    lemma_finite_sign(b);
    lemma_units_double(e);
    lemma_mul_nonnegative(n, units(e));
    lemma_mul_basics(pow2(0) as int);
    assert(zero.rank() == 0);
    assert(zero.is_finite());
    let v = n * units(e);
    lemma_mul_basics(d);
    if a.rank() >= 0 {
        lemma_nearest_distance(n, d, e, a);
    } else {
        lemma_nearest_distance(n, d, e, zero);
        let r = a.rank();
        assert(r * d < 0) by (nonlinear_arith)
            requires
                r < 0,
                d > 0,
        ;
    }
    let (w, r, u) = (z.rank(), b.rank(), units(e));
    assert((-w) * d == -(w * d)) by (nonlinear_arith);
    assert((-r) * d == -(r * d)) by (nonlinear_arith);
    assert((-n) * u == -(n * u)) by (nonlinear_arith);
}

/// No finite number is nearer to an exact result than its rounding, whose bits are even where
/// another one is as near.
pub proof fn lemma_distance(r: Exact, z: Single, p: int, q: int, b: Single)
    requires
        r.gives(z, p, q),
        z.is_finite(),
        b.is_finite(),
    ensures
        apart(z.rank() * q, p) <= apart(b.rank() * q, p),
        apart(z.rank() * q, p) == apart(b.rank() * q, p) && b.rank() != z.rank() ==> z.bits % 2 == 0,
{
    lemma_rounded_bounds(r.t, r.d, r.e, b);
    lemma_rank_finite(rounded(r.t, r.d, r.e), z);
    lemma_rounded_distance(r.t, r.d, r.e, b);
    let v = r.t * units(r.e);
    let d = r.d;
    lemma_scaled(z.rank(), q, p, d, v);
    lemma_scaled(b.rank(), q, p, d, v);
    let (x, y) = (apart(z.rank() * q, p), apart(b.rank() * q, p));
    let (s, t) = (apart(z.rank() * d, v), apart(b.rank() * d, v));
    assert(x <= y) by (nonlinear_arith)
        requires
            x * d == s * q,
            y * d == t * q,
            s <= t,
            q > 0,
            d > 0,
    ;
    if x == y && b.rank() != z.rank() {
        assert(s == t) by (nonlinear_arith)
            requires
                s * q == t * q,
                q > 0,
        ;
        lemma_equal_rank(z, rounded(r.t, r.d, r.e));
        if z.rank() == 0 {
            let zero = Single { bits: 0 };
            lemma_mul_basics(pow2(0) as int);
            assert(zero.rank() == 0);
            lemma_bit_order(z, zero);
            lemma_bit_order(zero, z);
        }
    }
}

/// A distance on two scales.
proof fn lemma_scaled(w: int, q: int, p: int, d: int, v: int)
    requires
        v * q == p * d,
        q > 0,
        d > 0,
    ensures
        apart(w * q, p) * d == apart(w * d, v) * q,
{
    assert((w * q - p) * d == (w * d - v) * q) by (nonlinear_arith)
        requires
            v * q == p * d,
    ;
    assert(apart(w * q, p) * d == apart(w * d, v) * q) by (nonlinear_arith)
        requires
            (w * q - p) * d == (w * d - v) * q,
            q > 0,
            d > 0,
            apart(w * q, p) == (if w * q < p {
                p - w * q
            } else {
                w * q - p
            }),
            apart(w * d, v) == (if w * d < v {
                v - w * d
            } else {
                w * d - v
            }),
    ;
}

/// Rounded results lie in the order of the exact ones.
pub proof fn lemma_ordered(
    r1: Exact,
    z1: Single,
    p1: int,
    q1: int,
    r2: Exact,
    z2: Single,
    p2: int,
    q2: int,
)
    requires
        r1.gives(z1, p1, q1),
        r2.gives(z2, p2, q2),
        0 <= p1,
        p1 * q2 <= p2 * q1,
    ensures
        z1.rank() <= z2.rank(),
{
    let (v1, v2) = (r1.t * units(r1.e), r2.t * units(r2.e));
    lemma_units_double(r1.e);
    lemma_units_double(r2.e);
    assert(p2 >= 0) by (nonlinear_arith)
        requires
            0 <= p1,
            p1 * q2 <= p2 * q1,
            q1 > 0,
            q2 > 0,
    ;
    assert(r1.t >= 0) by (nonlinear_arith)
        requires
            r1.t * units(r1.e) * q1 == p1 * r1.d,
            p1 >= 0,
            q1 > 0,
            r1.d > 0,
            units(r1.e) > 0,
    ;
    assert(r2.t >= 0) by (nonlinear_arith)
        requires
            r2.t * units(r2.e) * q2 == p2 * r2.d,
            p2 >= 0,
            q2 > 0,
            r2.d > 0,
            units(r2.e) > 0,
    ;
    let (d1, d2) = (r1.d, r2.d);
    lemma_mul_strictly_positive(d1, d2);
    lemma_mul_strictly_positive(q1, q2);
    lemma_mul_inequality(p1 * q2, p2 * q1, d1 * d2);
    assert((v1 * d2) * (q1 * q2) == (v1 * q1) * (d2 * q2)) by (nonlinear_arith);
    assert((p1 * d1) * (d2 * q2) == (p1 * q2) * (d1 * d2)) by (nonlinear_arith);
    assert((v2 * d1) * (q1 * q2) == (v2 * q2) * (d1 * q1)) by (nonlinear_arith);
    assert((p2 * d2) * (d1 * q1) == (p2 * q1) * (d1 * d2)) by (nonlinear_arith);
    lemma_mul_inequality_converse(v1 * d2, v2 * d1, q1 * q2);
    lemma_nearest_monotone(r1.t, d1, r1.e, r2.t, d2, r2.e);
}

/// Integers are rounded in their order.
pub proof fn lemma_int_order(a: int, b: int)
    requires
        a <= b,
    ensures
        Single::of_int(a).rank() <= Single::of_int(b).rank(),
{
    lemma_units_double(0);
    lemma_mul_inequality(a, b, units(0));
    lemma_rounded_monotone(a, 0, b, 0);
}

/// The integer nearest to a number, halves going up, by its rank.
pub proof fn lemma_half_up(x: Single)
    requires
        x.is_finite(),
        x.rank() >= 0,
    ensures
        x.parts() matches Parts::Finite { sig, exp, .. } && Single::half_up(
            sig as int,
            exp as int,
        ) == (2 * x.rank() + one()) / (2 * one()),
{
    lemma_finite_rank(x);
    lemma_pow2_pos_one();
    let (sig, exp) = (x.parts()->sig as int, x.parts()->exp as int);
    let u = units(exp);
    let o = one();
    lemma_units_double(exp);
    assert(x.rank() == sig * u) by (nonlinear_arith)
        requires
            x.rank() == (if x.parts()->Finite_neg {
                -sig
            } else {
                sig
            }) * u,
            x.rank() >= 0,
            sig >= 0,
            u > 0,
    ;
    if exp >= 0 {
        lemma_pow2_adds(exp as nat, 149);
        let p = pow2(exp as nat) as int;
        assert(2 * (sig * u) + o == (sig * p) * (2 * o) + o) by (nonlinear_arith)
            requires
                u == p * o,
        ;
        lemma_fundamental_div_mod_converse(2 * (sig * u) + o, 2 * o, sig * p, o);
    } else {
        let p = pow2((-exp) as nat) as int;
        lemma_pow2_pos((-exp) as nat);
        lemma_pow2_adds((exp + 149) as nat, (-exp) as nat);
        assert(2 * (sig * u) + o == u * (2 * sig + p) && 2 * o == u * (2 * p)) by (nonlinear_arith)
            requires
                o == u * p,
        ;
        lemma_div_multiples_vanish_quotient(u, 2 * sig + p, 2 * p);
    }
}

/// Numbers are counted in their order; what is not positive counts as nothing.
pub proof fn lemma_counted(x: Single, y: Single, most: int)
    requires
        !x.is_nan(),
        !y.is_nan(),
        x.rank() <= y.rank(),
        most >= 0,
    ensures
        0 <= x.counted(most) <= y.counted(most) <= most,
        x.rank() <= 0 ==> x.counted(most) == 0,
{
    lemma_counted_sign(x, most);
    lemma_counted_sign(y, most);
    lemma_pow2_pos(277);
    if x.rank() > 0 {
        lemma_pow2_pos_one();
        lemma_rank_sign(x);
        lemma_rank_sign(y);
        if x.is_finite() && y.is_finite() {
            lemma_half_up(x);
            lemma_half_up(y);
            lemma_div_is_ordered(2 * x.rank() + one(), 2 * y.rank() + one(), 2 * one());
        } else if y.is_finite() {
            lemma_finite_sign(y);
            lemma_magnitude_order(y.magnitude().bits, 0x7f80_0000);
        }
    }
}

/// What a number counts as, by its sign.
proof fn lemma_counted_sign(x: Single, most: int)
    requires
        !x.is_nan(),
        most >= 0,
    ensures
        0 <= x.counted(most) <= most,
        x.rank() <= 0 ==> x.counted(most) == 0,
        x.rank() > 0 && x.is_finite() ==> !x.parts()->Finite_neg,
{
    lemma_pow2_pos_one();
    lemma_pow2_pos(277);
    if x.is_finite() {
        lemma_finite_rank(x);
        let (neg, sig, exp) = (x.parts()->Finite_neg, x.parts()->sig as int, x.parts()->exp as int);
        let u = units(exp);
        lemma_units_double(exp);
        assert(neg ==> x.rank() <= 0) by (nonlinear_arith)
            requires
                x.rank() == (if neg {
                    -sig
                } else {
                    sig
                }) * u,
                sig >= 0,
                u > 0,
        ;
        assert(!neg ==> x.rank() >= 0) by (nonlinear_arith)
            requires
                x.rank() == (if neg {
                    -sig
                } else {
                    sig
                }) * u,
                sig >= 0,
                u > 0,
        ;
        if !neg {
            lemma_half_up(x);
            lemma_div_pos_is_pos(2 * x.rank() + one(), 2 * one());
            if x.rank() == 0 {
                lemma_basic_div(one(), 2 * one());
            }
        }
    }
}

/// A change of sign changes nothing else.
pub proof fn lemma_negated_parts(x: Single)
    requires
        x.is_finite(),
    ensures
        x.negated().parts() == (Parts::Finite {
            neg: !x.parts()->Finite_neg,
            sig: x.parts()->sig,
            exp: x.parts()->exp,
        }),
{
}

/// Numbers of equal rank, neither of them a zero, are the same.
pub proof fn lemma_equal_rank(x: Single, y: Single)
    requires
        !x.is_nan(),
        !y.is_nan(),
        x.rank() == y.rank(),
    ensures
        x == y || x.rank() == 0,
{
    lemma_bit_order(x, y);
    lemma_rank_sign(x);
    if x.magnitude().bits > 0 {
    } else {
        lemma_mul_basics(pow2(0) as int);
        assert((Single { bits: 0 }).rank() == 0);
    }
}

/// A quotient changes its sign with the dividend.
pub proof fn lemma_quotient_odd(x: Single, y: Single)
    requires
        x.is_finite(),
        y.is_finite(),
        y.rank() > 0,
    ensures
        x.negated().quotient(y).rank() == -x.quotient(y).rank(),
{
    lemma_finite_rank(x);
    lemma_finite_rank(y);
    lemma_negated_parts(x);
    let (s1, e1) = (x.parts()->sig as int, x.parts()->exp as int);
    let (n2, s2, e2) = (y.parts()->Finite_neg, y.parts()->sig as int, y.parts()->exp as int);
    lemma_units_double(e2);
    assert(!n2 && s2 > 0) by (nonlinear_arith)
        requires
            y.rank() == (if n2 {
                -s2
            } else {
                s2
            }) * units(e2),
            y.rank() > 0,
            units(e2) > 0,
            s2 >= 0,
    ;
    let e = e1 - e2;
    if e >= -149 {
        lemma_nearest_sign(s1, s2, e);
        lemma_rank_sign(Single::nearest(false, s1, s2, e));
    } else {
        let d = s2 * pow2((-149 - e) as nat);
        lemma_low_exponent(false, s1, s2, e);
        lemma_low_exponent(true, s1, s2, e);
        lemma_nearest_sign(s1, d, -149);
        lemma_rank_sign(Single::nearest(false, s1, d, -149));
    }
}

} // verus!
