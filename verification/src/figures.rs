//! Numbers in decimal.
use vstd::prelude::*;
use vstd::arithmetic::power2::*;
use crate::single::{Parts, Single};
use crate::text::{decimal_text, digit_text};

verus! {

/// A minus sign, where there is one.
pub open spec fn sign_text(neg: bool) -> Seq<char> {
    if neg {
        "-"@
    } else {
        ""@
    }
}

impl Single {
    /// The number rounded to a whole one, ties going to the even one.
    pub open spec fn whole_figures(self) -> Seq<char> {
        match self.parts() {
            Parts::Nan => "NaN"@,
            Parts::Infinite { neg } => sign_text(neg) + "inf"@,
            Parts::Finite { neg, sig, exp } => sign_text(neg) + crate::text::decimal(
                Single::in_units(sig as int, exp as int, 1),
            ),
        }
    }

    /// The number rounded to hundredths, ties going to the even one.
    pub open spec fn cent_figures(self) -> Seq<char> {
        match self.parts() {
            Parts::Nan => "NaN"@,
            Parts::Infinite { neg } => sign_text(neg) + "inf"@,
            Parts::Finite { neg, sig, exp } => {
                let n = Single::in_units(sig as int, exp as int, 100);
                sign_text(neg) + crate::text::decimal(n / 100) + "."@ + seq![
                    crate::text::digit(n / 10 % 10),
                ] + seq![crate::text::digit(n % 10)]
            },
        }
    }

    /// `sig * 2^exp`, where that is a whole number.
    fn large_whole(sig: u32, exp: i32) -> (r: u128)
        requires
            sig < 0x100_0000,
            0 <= exp <= 104,
        ensures
            r == sig * pow2(exp as nat),
    {
        let mut r: u128 = sig as u128;
        let mut i: i32 = 0;
        proof {
            lemma2_to64();
            vstd::arithmetic::mul::lemma_mul_basics(sig as int);
        }
        while i < exp
            invariant
                0 <= i <= exp <= 104,
                sig < 0x100_0000,
                r == sig * pow2(i as nat),
            decreases exp - i,
        {
            proof {
                lemma2_to64();
                lemma_pow2_unfold((i + 1) as nat);
                let p = pow2(i as nat) as int;
                vstd::arithmetic::mul::lemma_mul_is_associative(2, sig as int, p);
                vstd::arithmetic::mul::lemma_mul_is_associative(sig as int, 2, p);
                if i < 103 {
                    lemma_pow2_strictly_increases(i as nat, 103);
                }
                lemma_pow2_adds(64, 39);
                lemma_pow2_adds(32, 7);
                assert(pow2(103) == 0x80_0000_0000_0000_0000_0000_0000);
                vstd::arithmetic::mul::lemma_mul_upper_bound(
                    sig as int,
                    0xff_ffff,
                    p,
                    pow2(103) as int,
                );
            }
            r = 2 * r;
            i = i + 1;
        }
        r
    }

    /// The number rounded to a whole one, in decimal.
    pub fn to_whole_text(self) -> (r: String)
        ensures
            r@ == self.whole_figures(),
    {
        proof {
            crate::single::lemma_parts(self);
        }
        match self.unpack() {
            Parts::Nan => "NaN".to_owned(),
            Parts::Infinite { neg } => {
                let mut s = sign_string(neg);
                s.append("inf");
                s
            },
            Parts::Finite { neg, sig, exp } => {
                let mut s = sign_string(neg);
                let n: u128 = if exp >= 0 {
                    proof {
                        vstd::arithmetic::mul::lemma_mul_basics(sig * pow2(exp as nat));
                    }
                    Single::large_whole(sig, exp)
                } else {
                    Single::fraction_units(sig, exp, 1)
                };
                s.append(decimal_text(n).as_str());
                s
            },
        }
    }

    /// The number rounded to hundredths, in decimal.
    pub fn to_cent_text(self) -> (r: String)
        ensures
            r@ == self.cent_figures(),
    {
        proof {
            crate::single::lemma_parts(self);
        }
        match self.unpack() {
            Parts::Nan => "NaN".to_owned(),
            Parts::Infinite { neg } => {
                let mut s = sign_string(neg);
                s.append("inf");
                s
            },
            Parts::Finite { neg, sig, exp } => {
                let mut s = sign_string(neg);
                if exp >= 0 {
                    s.append(decimal_text(Single::large_whole(sig, exp)).as_str());
                    s.append(".");
                    s.append(digit_text(0));
                    s.append(digit_text(0));
                } else {
                    let n: u128 = Single::fraction_units(sig, exp, 100);
                    s.append(decimal_text(n / 100).as_str());
                    s.append(".");
                    s.append(digit_text((n / 10 % 10) as u8));
                    s.append(digit_text((n % 10) as u8));
                }
                s
            },
        }
    }
}

fn sign_string(neg: bool) -> (r: String)
    ensures
        r@ == sign_text(neg),
{
    if neg {
        "-".to_owned()
    } else {
        "".to_owned()
    }
}

} // verus!
