//! Single-precision numbers, computed with integers.
//!
//! A [`Single`] is a binary number with 24 significant bits, kept in the 32-bit
//! interchange format. Every operation gives the exact mathematical result rounded to
//! the nearest number of that format, ties going to the even one.
use vstd::prelude::*;
use vstd::arithmetic::power2::*;
use vstd::arithmetic::mul::*;
use vstd::arithmetic::div_mod::*;

verus! {

/// A number in the 32-bit interchange format: a sign bit, eight exponent bits and
/// twenty-three fraction bits.
#[derive(Clone, Copy, Debug, PartialEq, Eq, Structural)]
pub struct Single {
    pub bits: u32,
}

/// What the bits of a [`Single`] stand for. A finite number is `sig * 2^exp`, negated
/// where `neg` holds.
#[derive(Clone, Copy, Debug, PartialEq, Eq, Structural)]
pub enum Parts {
    Nan,
    Infinite { neg: bool },
    Finite { neg: bool, sig: u32, exp: i32 },
}

/// What the format means.
impl Single {
    /// What the bits stand for.
    pub open spec fn parts(self) -> Parts {
        let neg = self.bits >= 0x8000_0000;
        let field = (self.bits as int / 0x80_0000) % 256;
        let frac = self.bits as int % 0x80_0000;
        if field == 255 {
            if frac == 0 {
                Parts::Infinite { neg }
            } else {
                Parts::Nan
            }
        } else if field == 0 {
            Parts::Finite { neg, sig: frac as u32, exp: -149i32 }
        } else {
            Parts::Finite { neg, sig: (frac + 0x80_0000) as u32, exp: (field - 150) as i32 }
        }
    }

    /// The bits of a finite number in lowest form: either `sig` has all 24 bits or `exp`
    /// is the least exponent, -149.
    pub open spec fn finite(neg: bool, sig: int, exp: int) -> Single {
        let sign: int = if neg {
            0x8000_0000
        } else {
            0
        };
        let rest = if sig < 0x80_0000 {
            sig
        } else {
            (exp + 149) * 0x80_0000 + sig
        };
        Single { bits: (sign + rest) as u32 }
    }

    /// The zero with the given sign.
    pub open spec fn zero(neg: bool) -> Single {
        Single::finite(neg, 0, -149)
    }

    /// The infinity with the given sign.
    pub open spec fn infinite(neg: bool) -> Single {
        Single {
            bits: if neg {
                0xff80_0000
            } else {
                0x7f80_0000
            },
        }
    }

    /// What an operation without a result gives.
    pub open spec fn nan() -> Single {
        Single { bits: 0x7fc0_0000 }
    }

    /// `n / d` rounded to the nearest integer, ties going to the even one.
    pub open spec fn half_even(n: int, d: int) -> int {
        let q = n / d;
        let r = n % d;
        if 2 * r > d || (2 * r == d && q % 2 == 1) {
            q + 1
        } else {
            q
        }
    }

    /// The number with significand `q`, at most `2^24`, and exponent `exp`; infinite
    /// where that is beyond the format.
    pub open spec fn pack(neg: bool, q: int, exp: int) -> Single {
        let sig = if q == 0x100_0000 {
            0x80_0000
        } else {
            q
        };
        let top = if q == 0x100_0000 {
            exp + 1
        } else {
            exp
        };
        if top > 104 {
            Single::infinite(neg)
        } else {
            Single::finite(neg, sig, top)
        }
    }

    /// Doubles `n` until `n / d` has 24 bits before the point, as far as the least exponent
    /// allows, and rounds it there.
    pub open spec fn settle(neg: bool, n: int, d: int, e: int) -> Single
        decreases e + 149,
    {
        if n < 0x80_0000 * d && e > -149 {
            Single::settle(neg, 2 * n, d, e - 1)
        } else {
            Single::pack(neg, Single::half_even(n, d), e)
        }
    }

    /// Doubles `d` until `n / d` has at most 24 bits before the point and the exponent is
    /// one of the format, then goes on as `settle` does.
    pub open spec fn lift(neg: bool, n: int, d: int, e: int) -> Single
        decreases
            (if e < -149 {
                -149 - e
            } else {
                0
            }),
            n - d,
        when d > 0
    {
        if e < -149 || n >= 0x100_0000 * d {
            Single::lift(neg, n, 2 * d, e + 1)
        } else {
            Single::settle(neg, n, d, e)
        }
    }

    /// The number of the format that is nearest to `n / d * 2^e`, negated where `neg`
    /// holds; of two equally near ones the one with the even significand.
    pub open spec fn nearest(neg: bool, n: int, d: int, e: int) -> Single {
        if n == 0 {
            Single::zero(neg)
        } else {
            Single::lift(neg, n, d, e)
        }
    }

    /// The number nearest to the integer `n`.
    pub open spec fn of_int(n: int) -> Single {
        if n < 0 {
            Single::nearest(true, -n, 1, 0)
        } else {
            Single::nearest(false, n, 1, 0)
        }
    }

    /// The number nearest to `n / d`.
    pub open spec fn of_ratio(n: int, d: int) -> Single {
        Single::nearest(false, n, d, 0)
    }

    /// The number with the other sign.
    pub open spec fn negated(self) -> Single {
        Single {
            bits: if self.bits >= 0x8000_0000 {
                (self.bits - 0x8000_0000) as u32
            } else {
                (self.bits + 0x8000_0000) as u32
            },
        }
    }

    /// The number without its sign.
    pub open spec fn magnitude(self) -> Single {
        Single {
            bits: if self.bits >= 0x8000_0000 {
                (self.bits - 0x8000_0000) as u32
            } else {
                self.bits
            },
        }
    }

    /// `n` with a sign.
    pub open spec fn signed(neg: bool, n: int) -> int {
        if neg {
            -n
        } else {
            n
        }
    }

    /// Two exponents' common scale.
    pub open spec fn low(e1: int, e2: int) -> int {
        if e1 <= e2 {
            e1
        } else {
            e2
        }
    }

    /// `sig * 2^exp` counted in units of `2^low`.
    pub open spec fn aligned(sig: int, exp: int, low: int) -> int {
        sig * pow2((exp - low) as nat) as int
    }

    /// The exact sum, rounded. A sum of nothing is negative only where both terms are.
    pub open spec fn sum(self, other: Single) -> Single {
        match (self.parts(), other.parts()) {
            (Parts::Nan, _) => Single::nan(),
            (_, Parts::Nan) => Single::nan(),
            (Parts::Infinite { neg: n1 }, Parts::Infinite { neg: n2 }) => if n1 == n2 {
                Single::infinite(n1)
            } else {
                Single::nan()
            },
            (Parts::Infinite { neg }, _) => Single::infinite(neg),
            (_, Parts::Infinite { neg }) => Single::infinite(neg),
            (
                Parts::Finite { neg: n1, sig: s1, exp: e1 },
                Parts::Finite { neg: n2, sig: s2, exp: e2 },
            ) => {
                let low = Single::low(e1 as int, e2 as int);
                let total = Single::signed(n1, Single::aligned(s1 as int, e1 as int, low))
                    + Single::signed(n2, Single::aligned(s2 as int, e2 as int, low));
                if total == 0 {
                    Single::zero(n1 && n2)
                } else if total < 0 {
                    Single::nearest(true, -total, 1, low)
                } else {
                    Single::nearest(false, total, 1, low)
                }
            },
        }
    }

    /// The exact difference, rounded.
    pub open spec fn difference(self, other: Single) -> Single {
        self.sum(other.negated())
    }

    /// The exact product, rounded.
    pub open spec fn product(self, other: Single) -> Single {
        match (self.parts(), other.parts()) {
            (Parts::Nan, _) => Single::nan(),
            (_, Parts::Nan) => Single::nan(),
            (Parts::Infinite { neg: n1 }, Parts::Infinite { neg: n2 }) => Single::infinite(
                n1 != n2,
            ),
            (Parts::Infinite { neg: n1 }, Parts::Finite { neg: n2, sig, .. }) => if sig == 0 {
                Single::nan()
            } else {
                Single::infinite(n1 != n2)
            },
            (Parts::Finite { neg: n1, sig, .. }, Parts::Infinite { neg: n2 }) => if sig == 0 {
                Single::nan()
            } else {
                Single::infinite(n1 != n2)
            },
            (
                Parts::Finite { neg: n1, sig: s1, exp: e1 },
                Parts::Finite { neg: n2, sig: s2, exp: e2 },
            ) => Single::nearest(n1 != n2, s1 * s2, 1, e1 + e2),
        }
    }

    /// The exact quotient, rounded; infinite where only the divisor is zero.
    pub open spec fn quotient(self, other: Single) -> Single {
        match (self.parts(), other.parts()) {
            (Parts::Nan, _) => Single::nan(),
            (_, Parts::Nan) => Single::nan(),
            (Parts::Infinite { .. }, Parts::Infinite { .. }) => Single::nan(),
            (Parts::Infinite { neg: n1 }, Parts::Finite { neg: n2, .. }) => Single::infinite(
                n1 != n2,
            ),
            (Parts::Finite { neg: n1, .. }, Parts::Infinite { neg: n2 }) => Single::zero(n1 != n2),
            (
                Parts::Finite { neg: n1, sig: s1, exp: e1 },
                Parts::Finite { neg: n2, sig: s2, exp: e2 },
            ) => if s2 == 0 {
                if s1 == 0 {
                    Single::nan()
                } else {
                    Single::infinite(n1 != n2)
                }
            } else {
                Single::nearest(n1 != n2, s1 as int, s2 as int, e1 - e2)
            },
        }
    }

    /// What is left of `self` when as many whole multiples of `other` as it holds are
    /// taken away; it has the sign of `self`.
    pub open spec fn remainder(self, other: Single) -> Single {
        match (self.parts(), other.parts()) {
            (Parts::Nan, _) => Single::nan(),
            (_, Parts::Nan) => Single::nan(),
            (Parts::Infinite { .. }, _) => Single::nan(),
            (Parts::Finite { .. }, Parts::Infinite { .. }) => self,
            (
                Parts::Finite { neg, sig: s1, exp: e1 },
                Parts::Finite { sig: s2, exp: e2, .. },
            ) => if s2 == 0 {
                Single::nan()
            } else {
                let low = Single::low(e1 as int, e2 as int);
                Single::nearest(
                    neg,
                    Single::aligned(s1 as int, e1 as int, low) % Single::aligned(
                        s2 as int,
                        e2 as int,
                        low,
                    ),
                    1,
                    low,
                )
            },
        }
    }

    /// The place of a number in the order of all numbers: its value in units of `2^-149`,
    /// the infinities lying beyond every finite one.
    pub open spec fn rank(self) -> int {
        match self.parts() {
            Parts::Nan => 0,
            Parts::Infinite { neg } => Single::signed(neg, pow2(277) as int),
            Parts::Finite { neg, sig, exp } => Single::signed(
                neg,
                Single::aligned(sig as int, exp as int, -149),
            ),
        }
    }

    /// Whether this is no number.
    pub open spec fn is_nan(self) -> bool {
        self.parts() is Nan
    }

    /// Whether this is a number and not infinite.
    pub open spec fn is_finite(self) -> bool {
        self.parts() is Finite
    }

    /// Whether the number is less than another one.
    pub open spec fn below(self, other: Single) -> bool {
        !self.is_nan() && !other.is_nan() && self.rank() < other.rank()
    }

    /// Whether the number is less than another one or equal to it.
    pub open spec fn at_most(self, other: Single) -> bool {
        !self.is_nan() && !other.is_nan() && self.rank() <= other.rank()
    }

    /// Whether two numbers are equal; both zeros are.
    pub open spec fn equals(self, other: Single) -> bool {
        !self.is_nan() && !other.is_nan() && self.rank() == other.rank()
    }

    /// The larger of two numbers; the other one where one is no number.
    pub open spec fn larger(self, other: Single) -> Single {
        if self.is_nan() || self.below(other) {
            other
        } else {
            self
        }
    }

    /// The smaller of two numbers; the other one where one is no number.
    pub open spec fn smaller(self, other: Single) -> Single {
        if self.is_nan() || other.below(self) {
            other
        } else {
            self
        }
    }

    /// The number brought between two others.
    pub open spec fn within(self, least: Single, most: Single) -> Single {
        if self.below(least) {
            least
        } else if most.below(self) {
            most
        } else {
            self
        }
    }

    /// The whole part of `sig * 2^exp`.
    pub open spec fn whole(sig: int, exp: int) -> int {
        if exp >= 0 {
            sig * pow2(exp as nat) as int
        } else {
            sig / pow2((-exp) as nat) as int
        }
    }

    /// The integer next to the number on the side of zero, brought into `least..=most`;
    /// zero for what is no number.
    pub open spec fn toward_zero(self, least: int, most: int) -> int {
        match self.parts() {
            Parts::Nan => 0,
            Parts::Infinite { neg } => if neg {
                least
            } else {
                most
            },
            Parts::Finite { neg, sig, exp } => {
                let v = Single::signed(neg, Single::whole(sig as int, exp as int));
                if v < least {
                    least
                } else if v > most {
                    most
                } else {
                    v
                }
            },
        }
    }

    /// The integer nearest to `sig * 2^exp`, halves going up.
    pub open spec fn half_up(sig: int, exp: int) -> int {
        if exp >= 0 {
            sig * pow2(exp as nat) as int
        } else {
            let p = pow2((-exp) as nat) as int;
            (2 * sig + p) / (2 * p)
        }
    }

    /// The integer nearest to the number, halves going away from zero, brought into
    /// `0..=most`; zero for what is no number.
    pub open spec fn counted(self, most: int) -> int {
        match self.parts() {
            Parts::Nan => 0,
            Parts::Infinite { neg } => if neg {
                0
            } else {
                most
            },
            Parts::Finite { neg, sig, exp } => {
                let v = Single::half_up(sig as int, exp as int);
                if neg {
                    0
                } else if v > most {
                    most
                } else {
                    v
                }
            },
        }
    }

    /// `sig * 2^exp * unit` rounded to the nearest integer, ties going to the even one.
    pub open spec fn in_units(sig: int, exp: int, unit: int) -> int {
        if exp >= 0 {
            sig * pow2(exp as nat) as int * unit
        } else {
            Single::half_even(sig * unit, pow2((-exp) as nat) as int)
        }
    }
}

/// Two to the power of `k`.
fn two_to(k: u32) -> (r: u128)
    requires
        k <= 120,
    ensures
        r == pow2(k as nat),
        0 < r <= 0x100_0000_0000_0000_0000_0000_0000_0000,
{
    let mut r: u128 = 1;
    let mut i: u32 = 0;
    proof {
        lemma2_to64();
    }
    while i < k
        invariant
            i <= k <= 120,
            r == pow2(i as nat),
            0 < r,
            i < 120 ==> r <= 0x80_0000_0000_0000_0000_0000_0000_0000,
            r <= 0x100_0000_0000_0000_0000_0000_0000_0000,
        decreases k - i,
    {
        proof {
            lemma_pow2_unfold((i + 1) as nat);
            lemma_power_bound((i + 1) as nat);
        }
        r = 2 * r;
        i = i + 1;
    }
    r
}

/// Powers of two below the hundred and twentieth stay below it.
proof fn lemma_power_bound(k: nat)
    requires
        k <= 120,
    ensures
        pow2(k) <= 0x100_0000_0000_0000_0000_0000_0000_0000,
        k < 120 ==> pow2(k) <= 0x80_0000_0000_0000_0000_0000_0000_0000,
{
    lemma2_to64();
    lemma_pow2_adds(64, 55);
    lemma_pow2_adds(32, 23);
    lemma_pow2_unfold(120);
    if k < 119 {
        lemma_pow2_strictly_increases(k, 119);
    }
}

proof fn lemma_pow2_102()
    ensures
        pow2(102) == 0x40_0000_0000_0000_0000_0000_0000,
{
    lemma2_to64();
    lemma_pow2_adds(64, 38);
    lemma_pow2_adds(32, 6);
}

/// Arithmetic.
impl Single {
    /// What the bits stand for.
    pub fn unpack(self) -> (r: Parts)
        ensures
            r == self.parts(),
    {
        let neg = self.bits >= 0x8000_0000;
        let field: u32 = (self.bits / 0x80_0000) % 256;
        let frac: u32 = self.bits % 0x80_0000;
        if field == 255 {
            if frac == 0 {
                Parts::Infinite { neg }
            } else {
                Parts::Nan
            }
        } else if field == 0 {
            Parts::Finite { neg, sig: frac, exp: -149 }
        } else {
            Parts::Finite { neg, sig: frac + 0x80_0000, exp: field as i32 - 150 }
        }
    }

    fn make_finite(neg: bool, sig: u32, exp: i32) -> (r: Single)
        requires
            sig < 0x100_0000,
            -149 <= exp <= 104,
        ensures
            r == Single::finite(neg, sig as int, exp as int),
    {
        let sign: u32 = if neg {
            0x8000_0000
        } else {
            0
        };
        let rest: u32 = if sig < 0x80_0000 {
            sig
        } else {
            (exp + 149) as u32 * 0x80_0000 + sig
        };
        Single { bits: sign + rest }
    }

    fn make_zero(neg: bool) -> (r: Single)
        ensures
            r == Single::zero(neg),
    {
        Single::make_finite(neg, 0, -149)
    }

    fn make_infinite(neg: bool) -> (r: Single)
        ensures
            r == Single::infinite(neg),
    {
        Single {
            bits: if neg {
                0xff80_0000
            } else {
                0x7f80_0000
            },
        }
    }

    fn make_nan() -> (r: Single)
        ensures
            r == Single::nan(),
    {
        Single { bits: 0x7fc0_0000 }
    }

    /// Rounds `n / d * 2^e`.
    fn round(neg: bool, n: u128, d: u128, e: i32) -> (r: Single)
        requires
            n < 0x10_0000_0000_0000_0000_0000_0000_0000,
            0 < d < 0x100_0000,
            e < -149 ==> n < 0x1_0000_0000_0000,
            -400 <= e <= 400,
        ensures
            r == Single::nearest(neg, n as int, d as int, e as int),
    {
        if n == 0 {
            return Single::make_zero(neg);
        }
        let mut num: u128 = n;
        let mut den: u128 = d;
        let mut exp: i32 = e;
        proof {
            lemma2_to64();
        }
        while exp < -149 || num >= 0x100_0000 * den
            invariant
                0 < num == n < 0x10_0000_0000_0000_0000_0000_0000_0000,
                0 < den <= 0x20_0000_0000_0000_0000_0000_0000,
                exp < -149 ==> num < 0x1_0000_0000_0000,
                d > 0,
                -400 <= e <= 400,
                e <= exp <= e + 101,
                den >= pow2((exp - e) as nat),
                Single::lift(neg, n as int, d as int, e as int) == Single::lift(
                    neg,
                    num as int,
                    den as int,
                    exp as int,
                ),
            decreases
                    (if exp < -149 {
                        -149 - exp
                    } else {
                        0int
                    }),
                    num - den,
        {
            if exp < -149 && den > 0x1_0000_0000_0000_0000_0000 {
                proof {
                    crate::rounding::lemma_vanish(neg, num as int, den as int, exp as int);
                }
                return Single::make_zero(neg);
            }
            den = 2 * den;
            exp = exp + 1;
            proof {
                lemma_pow2_unfold((exp - e) as nat);
                lemma_pow2_102();
            }
        }
        while num < 0x80_0000 * den && exp > -149
            invariant
                0 < num < 0x100_0000 * den,
                0 < den <= 0x20_0000_0000_0000_0000_0000_0000,
                d > 0,
                -149 <= exp <= 600,
                Single::lift(neg, n as int, d as int, e as int) == Single::settle(
                    neg,
                    num as int,
                    den as int,
                    exp as int,
                ),
            decreases exp + 149,
        {
            num = 2 * num;
            exp = exp - 1;
        }
        let q: u128 = num / den;
        let r: u128 = num % den;
        proof {
            lemma_fundamental_div_mod(num as int, den as int);
            lemma_div_is_strictly_ordered(num as int, den as int);
        }
        let up: bool = 2 * r > den || (2 * r == den && q % 2 == 1);
        let rounded: u128 = if up {
            q + 1
        } else {
            q
        };
        let sig: u32 = if rounded == 0x100_0000 {
            0x80_0000
        } else {
            rounded as u32
        };
        let top: i32 = if rounded == 0x100_0000 {
            exp + 1
        } else {
            exp
        };
        if top > 104 {
            Single::make_infinite(neg)
        } else {
            Single::make_finite(neg, sig, top)
        }
    }
}

/// Operations.
impl Single {
    /// The number with the given bits.
    pub fn from_bits(bits: u32) -> (r: Single)
        ensures
            r.bits == bits,
    {
        Single { bits }
    }

    /// The number nearest to the integer `n`.
    pub fn from_int(n: i32) -> (r: Single)
        ensures
            r == Single::of_int(n as int),
    {
        if n < 0 {
            Single::round(true, (-(n as i64)) as u128, 1, 0)
        } else {
            Single::round(false, n as u128, 1, 0)
        }
    }

    /// The number nearest to `n / d`.
    pub fn from_ratio(n: u32, d: u32) -> (r: Single)
        requires
            0 < d < 0x100_0000,
        ensures
            r == Single::of_ratio(n as int, d as int),
    {
        Single::round(false, n as u128, d as u128, 0)
    }

    /// The number with the other sign.
    pub fn minus_sign(self) -> (r: Single)
        ensures
            r == self.negated(),
    {
        if self.bits >= 0x8000_0000 {
            Single { bits: self.bits - 0x8000_0000 }
        } else {
            Single { bits: self.bits + 0x8000_0000 }
        }
    }

    /// The number without its sign.
    pub fn abs(self) -> (r: Single)
        ensures
            r == self.magnitude(),
    {
        if self.bits >= 0x8000_0000 {
            Single { bits: self.bits - 0x8000_0000 }
        } else {
            self
        }
    }

    /// The sum of two finite numbers, the first of which has the larger exponent.
    fn plus_finite(n1: bool, s1: u32, e1: i32, n2: bool, s2: u32, e2: i32) -> (r: Single)
        requires
            s1 < 0x100_0000,
            s2 < 0x100_0000,
            -149 <= e2 <= e1 <= 104,
            s1 >= 0x80_0000 || e1 == -149,
        ensures
            ({
                let total = Single::signed(n1, Single::aligned(s1 as int, e1 as int, e2 as int))
                    + Single::signed(n2, s2 as int);
                r == if total == 0 {
                    Single::zero(n1 && n2)
                } else if total < 0 {
                    Single::nearest(true, -total, 1, e2 as int)
                } else {
                    Single::nearest(false, total, 1, e2 as int)
                }
            }),
    {
        let k: u32 = (e1 - e2) as u32;
        if k > 90 {
            proof {
                let other = if n1 == n2 {
                    s2 as int
                } else {
                    -(s2 as int)
                };
                crate::rounding::lemma_absorb(n1, s1 as int, other, e1 as int, k as nat);
            }
            return Single::make_finite(n1, s1, e1);
        }
        let p: u128 = two_to(k);
        proof {
            lemma_pow2_91(k as nat);
            lemma_mul_upper_bound(s1 as int, 0xff_ffff, p as int, 0x400_0000_0000_0000_0000_0000);
            lemma_mul_nonnegative(s1 as int, p as int);
        }
        let a: u128 = s1 as u128 * p;
        let b: u128 = s2 as u128;
        if n1 == n2 {
            if a + b == 0 {
                Single::make_zero(n1)
            } else {
                Single::round(n1, a + b, 1, e2)
            }
        } else if a == b {
            Single::make_zero(false)
        } else if a > b {
            Single::round(n1, a - b, 1, e2)
        } else {
            Single::round(n2, b - a, 1, e2)
        }
    }

    /// The sum of two numbers.
    pub fn plus(self, other: Single) -> (r: Single)
        ensures
            r == self.sum(other),
    {
        proof {
            lemma_parts(self);
            lemma_parts(other);
            lemma2_to64();
        }
        match self.unpack() {
            Parts::Nan => Single::make_nan(),
            Parts::Infinite { neg: n1 } => match other.unpack() {
                Parts::Nan => Single::make_nan(),
                Parts::Infinite { neg: n2 } => if n1 == n2 {
                    Single::make_infinite(n1)
                } else {
                    Single::make_nan()
                },
                Parts::Finite { .. } => Single::make_infinite(n1),
            },
            Parts::Finite { neg: n1, sig: s1, exp: e1 } => match other.unpack() {
                Parts::Nan => Single::make_nan(),
                Parts::Infinite { neg: n2 } => Single::make_infinite(n2),
                Parts::Finite { neg: n2, sig: s2, exp: e2 } => {
                    proof {
                        lemma_mul_basics(s1 as int);
                        lemma_mul_basics(s2 as int);
                    }
                    if e1 >= e2 {
                        Single::plus_finite(n1, s1, e1, n2, s2, e2)
                    } else {
                        Single::plus_finite(n2, s2, e2, n1, s1, e1)
                    }
                },
            },
        }
    }

    /// The difference of two numbers.
    pub fn minus(self, other: Single) -> (r: Single)
        ensures
            r == self.difference(other),
    {
        self.plus(other.minus_sign())
    }

    /// The product of two numbers.
    pub fn times(self, other: Single) -> (r: Single)
        ensures
            r == self.product(other),
    {
        proof {
            lemma_parts(self);
            lemma_parts(other);
        }
        match self.unpack() {
            Parts::Nan => Single::make_nan(),
            Parts::Infinite { neg: n1 } => match other.unpack() {
                Parts::Nan => Single::make_nan(),
                Parts::Infinite { neg: n2 } => Single::make_infinite(n1 != n2),
                Parts::Finite { neg: n2, sig, .. } => if sig == 0 {
                    Single::make_nan()
                } else {
                    Single::make_infinite(n1 != n2)
                },
            },
            Parts::Finite { neg: n1, sig: s1, exp: e1 } => match other.unpack() {
                Parts::Nan => Single::make_nan(),
                Parts::Infinite { neg: n2 } => if s1 == 0 {
                    Single::make_nan()
                } else {
                    Single::make_infinite(n1 != n2)
                },
                Parts::Finite { neg: n2, sig: s2, exp: e2 } => {
                    proof {
                        lemma_mul_upper_bound(s1 as int, 0xff_ffff, s2 as int, 0xff_ffff);
                        lemma_mul_nonnegative(s1 as int, s2 as int);
                    }
                    Single::round(n1 != n2, s1 as u128 * s2 as u128, 1, e1 + e2)
                },
            },
        }
    }

    /// The quotient of two numbers.
    pub fn over(self, other: Single) -> (r: Single)
        ensures
            r == self.quotient(other),
    {
        proof {
            lemma_parts(self);
            lemma_parts(other);
        }
        match self.unpack() {
            Parts::Nan => Single::make_nan(),
            Parts::Infinite { neg: n1 } => match other.unpack() {
                Parts::Nan => Single::make_nan(),
                Parts::Infinite { .. } => Single::make_nan(),
                Parts::Finite { neg: n2, .. } => Single::make_infinite(n1 != n2),
            },
            Parts::Finite { neg: n1, sig: s1, exp: e1 } => match other.unpack() {
                Parts::Nan => Single::make_nan(),
                Parts::Infinite { neg: n2 } => Single::make_zero(n1 != n2),
                Parts::Finite { neg: n2, sig: s2, exp: e2 } => if s2 == 0 {
                    if s1 == 0 {
                        Single::make_nan()
                    } else {
                        Single::make_infinite(n1 != n2)
                    }
                } else {
                    Single::round(n1 != n2, s1 as u128, s2 as u128, e1 - e2)
                },
            },
        }
    }

    /// `s1 * 2^k` modulo `s2`.
    fn shifted_modulo(s1: u32, k: u32, s2: u32) -> (r: u32)
        requires
            0 < s2 < 0x100_0000,
        ensures
            r == (s1 * pow2(k as nat)) % s2 as int,
            r < s2,
    {
        let mut r: u32 = s1 % s2;
        let mut i: u32 = 0;
        proof {
            lemma2_to64();
            lemma_mul_basics(s1 as int);
        }
        while i < k
            invariant
                0 < s2 < 0x100_0000,
                i <= k,
                r < s2,
                r == (s1 * pow2(i as nat)) % s2 as int,
            decreases k - i,
        {
            proof {
                let x = s1 * pow2(i as nat);
                lemma_pow2_unfold((i + 1) as nat);
                lemma_mul_is_associative(2, s1 as int, pow2(i as nat) as int);
                lemma_mul_is_associative(s1 as int, 2, pow2(i as nat) as int);
                lemma_mul_is_commutative(2, s1 as int);
                lemma_mul_mod_noop_right(2, x, s2 as int);
            }
            r = (2 * r) % s2;
            i = i + 1;
        }
        r
    }

    /// The remainder of a division, with the sign of the dividend.
    pub fn modulo(self, other: Single) -> (r: Single)
        ensures
            r == self.remainder(other),
    {
        proof {
            lemma_parts(self);
            lemma_parts(other);
            lemma2_to64();
        }
        match self.unpack() {
            Parts::Nan => Single::make_nan(),
            Parts::Infinite { .. } => Single::make_nan(),
            Parts::Finite { neg, sig: s1, exp: e1 } => match other.unpack() {
                Parts::Nan => Single::make_nan(),
                Parts::Infinite { .. } => self,
                Parts::Finite { sig: s2, exp: e2, .. } => {
                    if s2 == 0 {
                        return Single::make_nan();
                    }
                    proof {
                        lemma_mul_basics(s1 as int);
                        lemma_mul_basics(s2 as int);
                    }
                    if e1 >= e2 {
                        let m: u32 = Single::shifted_modulo(s1, (e1 - e2) as u32, s2);
                        Single::round(neg, m as u128, 1, e2)
                    } else {
                        let k: u32 = (e2 - e1) as u32;
                        if k >= 24 {
                            proof {
                                if k > 24 {
                                    lemma_pow2_strictly_increases(24, k as nat);
                                }
                                let p = pow2(k as nat) as int;
                                assert(s2 * p >= p) by (nonlinear_arith)
                                    requires
                                        s2 >= 1,
                                        p >= 0,
                                ;
                                lemma_small_mod(s1 as nat, (s2 * p) as nat);
                            }
                            Single::round(neg, s1 as u128, 1, e1)
                        } else {
                            let p: u128 = two_to(k);
                            proof {
                                lemma_pow2_strictly_increases(k as nat, 24);
                                lemma_mul_upper_bound(s2 as int, 0xff_ffff, p as int, 0x100_0000);
                                lemma_mul_strictly_positive(s2 as int, p as int);
                            }
                            let m: u128 = s2 as u128 * p;
                            Single::round(neg, s1 as u128 % m, 1, e1)
                        }
                    }
                },
            },
        }
    }
}

/// Order.
impl Single {
    fn place(self) -> (r: i64)
        ensures
            r == crate::rounding::bit_order(self),
    {
        if self.bits >= 0x8000_0000 {
            -((self.bits - 0x8000_0000) as i64)
        } else {
            self.bits as i64
        }
    }

    fn no_number(self) -> (r: bool)
        ensures
            r == self.is_nan(),
    {
        match self.unpack() {
            Parts::Nan => true,
            _ => false,
        }
    }

    /// Whether the number is less than another one.
    pub fn less(self, other: Single) -> (r: bool)
        ensures
            r == self.below(other),
    {
        if self.no_number() || other.no_number() {
            return false;
        }
        proof {
            crate::rounding::lemma_bit_order(self, other);
        }
        self.place() < other.place()
    }

    /// Whether the number is less than another one or equal to it.
    pub fn less_or_equal(self, other: Single) -> (r: bool)
        ensures
            r == self.at_most(other),
    {
        if self.no_number() || other.no_number() {
            return false;
        }
        proof {
            crate::rounding::lemma_bit_order(self, other);
        }
        self.place() <= other.place()
    }

    /// Whether two numbers are equal.
    pub fn same(self, other: Single) -> (r: bool)
        ensures
            r == self.equals(other),
    {
        if self.no_number() || other.no_number() {
            return false;
        }
        proof {
            crate::rounding::lemma_bit_order(self, other);
        }
        self.place() == other.place()
    }

    /// The larger of two numbers.
    pub fn max(self, other: Single) -> (r: Single)
        ensures
            r == self.larger(other),
    {
        if self.no_number() || self.less(other) {
            other
        } else {
            self
        }
    }

    /// The smaller of two numbers.
    pub fn min(self, other: Single) -> (r: Single)
        ensures
            r == self.smaller(other),
    {
        if self.no_number() || other.less(self) {
            other
        } else {
            self
        }
    }

    /// The number brought between two others.
    pub fn clamp(self, least: Single, most: Single) -> (r: Single)
        ensures
            r == self.within(least, most),
    {
        if self.less(least) {
            least
        } else if most.less(self) {
            most
        } else {
            self
        }
    }
}

/// Integers out of numbers.
impl Single {
    /// The integer next to the number on the side of zero, brought into `least..=most`.
    pub fn truncate(self, least: i64, most: i64) -> (r: i64)
        requires
            -0x1_0000_0000 <= least <= most <= 0x1_0000_0000,
        ensures
            r == self.toward_zero(least as int, most as int),
    {
        proof {
            lemma_parts(self);
            lemma2_to64();
        }
        match self.unpack() {
            Parts::Nan => 0,
            Parts::Infinite { neg } => if neg {
                least
            } else {
                most
            },
            Parts::Finite { neg, sig, exp } => {
                if exp > 40 {
                    proof {
                        lemma_pow2_strictly_increases(40, exp as nat);
                        lemma_pow2_adds(20, 20);
                        let p = pow2(exp as nat) as int;
                        assert(sig * p >= 0x80_0000 * p) by (nonlinear_arith)
                            requires
                                sig >= 0x80_0000,
                                p > 0,
                        ;
                    }
                    return if neg {
                        least
                    } else {
                        most
                    };
                }
                let size: u128 = if exp >= 0 {
                    let p: u128 = two_to(exp as u32);
                    proof {
                        lemma_pow2_adds(20, 20);
                        if exp < 40 {
                            lemma_pow2_strictly_increases(exp as nat, 40);
                        }
                        lemma_mul_upper_bound(sig as int, 0xff_ffff, p as int, 0x100_0000_0000);
                        lemma_mul_nonnegative(sig as int, p as int);
                    }
                    sig as u128 * p
                } else if exp <= -24 {
                    proof {
                        if exp < -24 {
                            lemma_pow2_strictly_increases(24, (-exp) as nat);
                        }
                        lemma_basic_div(sig as int, pow2((-exp) as nat) as int);
                    }
                    0
                } else {
                    let p: u128 = two_to((-exp) as u32);
                    proof {
                        lemma_div_is_ordered_by_denominator(sig as int, 1, p as int);
                        lemma_div_basics(sig as int);
                        lemma_div_pos_is_pos(sig as int, p as int);
                    }
                    sig as u128 / p
                };
                let v: i128 = if neg {
                    -(size as i128)
                } else {
                    size as i128
                };
                if v < least as i128 {
                    least
                } else if v > most as i128 {
                    most
                } else {
                    v as i64
                }
            },
        }
    }

    /// The integer nearest to the number, halves going away from zero, brought into
    /// `0..=most`.
    pub fn round_count(self, most: u32) -> (r: u32)
        ensures
            r == self.counted(most as int),
    {
        proof {
            lemma_parts(self);
            lemma2_to64();
        }
        match self.unpack() {
            Parts::Nan => 0,
            Parts::Infinite { neg } => if neg {
                0
            } else {
                most
            },
            Parts::Finite { neg, sig, exp } => {
                if neg {
                    return 0;
                }
                if exp > 40 {
                    proof {
                        lemma_pow2_strictly_increases(40, exp as nat);
                        lemma_pow2_adds(20, 20);
                        let p = pow2(exp as nat) as int;
                        assert(sig * p >= 0x80_0000 * p) by (nonlinear_arith)
                            requires
                                sig >= 0x80_0000,
                                p > 0,
                        ;
                    }
                    return most;
                }
                let v: u128 = if exp >= 0 {
                    let p: u128 = two_to(exp as u32);
                    proof {
                        lemma_pow2_adds(20, 20);
                        if exp < 40 {
                            lemma_pow2_strictly_increases(exp as nat, 40);
                        }
                        lemma_mul_upper_bound(sig as int, 0xff_ffff, p as int, 0x100_0000_0000);
                        lemma_mul_nonnegative(sig as int, p as int);
                    }
                    sig as u128 * p
                } else if exp <= -26 {
                    proof {
                        if exp < -26 {
                            lemma_pow2_strictly_increases(26, (-exp) as nat);
                        }
                        let p = pow2((-exp) as nat) as int;
                        lemma_basic_div(2 * sig + p, 2 * p);
                    }
                    0
                } else {
                    let p: u128 = two_to((-exp) as u32);
                    (2 * sig as u128 + p) / (2 * p)
                };
                if v > most as u128 {
                    most
                } else {
                    v as u32
                }
            },
        }
    }

    /// `sig * 2^exp` in hundredths or in ones, rounded to the nearest integer, ties going to
    /// the even one.
    pub fn fraction_units(sig: u32, exp: i32, unit: u32) -> (r: u128)
        requires
            sig < 0x100_0000,
            -149 <= exp < 0,
            0 < unit <= 100,
        ensures
            r == Single::in_units(sig as int, exp as int, unit as int),
    {
        let k: u32 = (-exp) as u32;
        proof {
            lemma2_to64();
            lemma_mul_upper_bound(sig as int, 0xff_ffff, unit as int, 100);
            lemma_mul_nonnegative(sig as int, unit as int);
        }
        let n: u128 = sig as u128 * unit as u128;
        if k > 40 {
            proof {
                lemma_pow2_strictly_increases(40, k as nat);
                lemma_pow2_adds(20, 20);
                lemma_fundamental_div_mod_converse(n as int, pow2(k as nat) as int, 0, n as int);
            }
            return 0;
        }
        let d: u128 = two_to(k);
        let q: u128 = n / d;
        let r: u128 = n % d;
        proof {
            lemma_div_is_ordered_by_denominator(n as int, 1, d as int);
            lemma_div_basics(n as int);
            lemma_mod_bound(n as int, d as int);
        }
        if 2 * r > d || (2 * r == d && q % 2 == 1) {
            q + 1
        } else {
            q
        }
    }
}

/// The fields of a number are those of its lowest form.
pub proof fn lemma_parts(x: Single)
    ensures
        x.parts() matches Parts::Finite { neg, sig, exp } ==> {
            &&& sig < 0x100_0000
            &&& -149 <= exp <= 104
            &&& sig >= 0x80_0000 || exp == -149
            &&& neg == (x.bits >= 0x8000_0000)
            &&& x == Single::finite(neg, sig as int, exp as int)
        },
{
}

proof fn lemma_pow2_91(k: nat)
    requires
        k <= 90,
    ensures
        pow2(k) <= 0x400_0000_0000_0000_0000_0000,
{
    lemma2_to64();
    lemma_pow2_adds(64, 26);
    if k < 90 {
        lemma_pow2_strictly_increases(k, 90);
    }
}

/// A quotient is below `2^24` where the numerator is below that many denominators.
proof fn lemma_div_is_strictly_ordered(n: int, d: int)
    requires
        d > 0,
        0 <= n < 0x100_0000 * d,
    ensures
        0 <= n / d < 0x100_0000,
{
    lemma_fundamental_div_mod(n, d);
    lemma_mod_bound(n, d);
    let q = n / d;
    assert(0 <= q < 0x100_0000) by (nonlinear_arith)
        requires
            n == d * q + n % d,
            0 <= n % d < d,
            0 <= n < 0x100_0000 * d,
            d > 0,
    ;
}

} // verus!
