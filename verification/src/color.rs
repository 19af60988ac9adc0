//! Colours, by their red, green and blue levels or by hue, saturation and value.
use vstd::prelude::*;
use vstd::utf8::*;
use crate::single::Single;
use crate::text::{digit_text, drop_hashes, trim_text};

verus! {

/// A colour by its red, green and blue levels.
#[derive(Clone, Copy, Debug, PartialEq, Eq, Structural)]
pub struct Rgb {
    pub r: u8,
    pub g: u8,
    pub b: u8,
}

/// A colour by hue, in degrees from 0 up to 360, and by saturation and value, each from 0
/// to 1.
#[derive(Clone, Copy, Debug, PartialEq, Eq, Structural)]
pub struct Hsv {
    pub h: Single,
    pub s: Single,
    pub v: Single,
}

/// The value of a hexadecimal digit, in either case.
pub open spec fn digit_value(b: u8) -> Option<int> {
    if 0x30 <= b <= 0x39 {
        Some(b - 0x30)
    } else if 0x41 <= b <= 0x46 {
        Some(b - 0x37)
    } else if 0x61 <= b <= 0x66 {
        Some(b - 0x57)
    } else {
        None
    }
}

/// The value of two bytes that hold a hexadecimal number: two digits, or a plus sign and
/// a digit.
pub open spec fn pair_value(a: u8, b: u8) -> Option<int> {
    match (digit_value(a), digit_value(b)) {
        (Some(x), Some(y)) => Some(16 * x + y),
        (None, Some(y)) => if a == 0x2b {
            Some(y)
        } else {
            None
        },
        _ => None,
    }
}

/// The bytes that a hex code is read from: those of the text without the white space
/// around it and the hash signs before it.
pub open spec fn code_bytes(s: Seq<char>) -> Seq<u8> {
    encode_utf8(crate::text::without_hashes(crate::text::trimmed(s)))
}

/// A hex code of six bytes is cut after the second byte and, where the first two hold a
/// number, after the fourth: neither cut may go through a character.
pub open spec fn cuts_cleanly(s: Seq<char>) -> bool {
    let t = code_bytes(s);
    t.len() == 6 ==> {
        &&& is_char_boundary(t, 2)
        &&& pair_value(t[0], t[1]) is Some ==> is_char_boundary(t, 4)
    }
}

impl Rgb {
    /// A hash sign and two lower-case hexadecimal digits for each level.
    pub open spec fn hex_code(self) -> Seq<char> {
        seq![
            '#',
            crate::text::digit(self.r as int / 16),
            crate::text::digit(self.r as int % 16),
            crate::text::digit(self.g as int / 16),
            crate::text::digit(self.g as int % 16),
            crate::text::digit(self.b as int / 16),
            crate::text::digit(self.b as int % 16),
        ]
    }

    /// The colour that a hex code stands for.
    pub open spec fn of_hex_code(s: Seq<char>) -> Option<Rgb> {
        let t = code_bytes(s);
        if t.len() != 6 {
            None
        } else {
            match (pair_value(t[0], t[1]), pair_value(t[2], t[3]), pair_value(t[4], t[5])) {
                (Some(r), Some(g), Some(b)) => Some(Rgb { r: r as u8, g: g as u8, b: b as u8 }),
                _ => None,
            }
        }
    }

    /// The hex code of the colour.
    pub fn hex(&self) -> (r: String)
        ensures
            r@ == self.hex_code(),
    {
        let mut s = "#".to_owned();
        proof {
            reveal_strlit("#");
        }
        s.append(digit_text(self.r / 16));
        s.append(digit_text(self.r % 16));
        s.append(digit_text(self.g / 16));
        s.append(digit_text(self.g % 16));
        s.append(digit_text(self.b / 16));
        s.append(digit_text(self.b % 16));
        s
    }

    /// Whether [`Rgb::from_hex`] can cut the code in `s`.
    pub fn can_cut(s: &str) -> (r: bool)
        ensures
            r == cuts_cleanly(s@),
    {
        let t = drop_hashes(trim_text(s));
        let b = t.as_bytes();
        if b.len() != 6 {
            return true;
        }
        if !t.is_char_boundary(2) {
            return false;
        }
        match read_pair(b[0], b[1]) {
            Some(_) => t.is_char_boundary(4),
            None => true,
        }
    }

    /// The colour that a hex code stands for: six hexadecimal digits, in either case, with
    /// any number of hash signs before them and any white space around. A plus sign may
    /// stand in place of the first digit of a pair.
    pub fn from_hex(s: &str) -> (r: Option<Rgb>)
        requires
            cuts_cleanly(s@),
        ensures
            r == Rgb::of_hex_code(s@),
    {
        let t = drop_hashes(trim_text(s));
        let b = t.as_bytes();
        if b.len() != 6 {
            return None;
        }
        match (read_pair(b[0], b[1]), read_pair(b[2], b[3]), read_pair(b[4], b[5])) {
            (Some(r), Some(g), Some(b)) => Some(Rgb { r, g, b }),
            _ => None,
        }
    }
}

/// A colour of one kind as one of the other kind.
impl Rgb {
    /// A level as a share of the full one.
    pub open spec fn share(level: u8) -> Single {
        Single::of_int(level as int).quotient(Single::of_int(255))
    }

    /// Hue, saturation and value of the colour. The hue follows the strongest level, of
    /// equal ones the first; it is zero where all levels are equal.
    pub open spec fn hsv(self) -> Hsv {
        let r = Rgb::share(self.r);
        let g = Rgb::share(self.g);
        let b = Rgb::share(self.b);
        let mx = r.larger(g).larger(b);
        let mn = r.smaller(g).smaller(b);
        let d = mx.difference(mn);
        let sixty = Single::of_int(60);
        let zero = Single::of_int(0);
        let h = if d.equals(zero) {
            zero
        } else if mx.equals(r) {
            sixty.product(g.difference(b).quotient(d).remainder(Single::of_int(6)))
        } else if mx.equals(g) {
            sixty.product(b.difference(r).quotient(d).sum(Single::of_int(2)))
        } else {
            sixty.product(r.difference(g).quotient(d).sum(Single::of_int(4)))
        };
        Hsv {
            h: if h.below(zero) {
                h.sum(Single::of_int(360))
            } else {
                h
            },
            s: if mx.equals(zero) {
                zero
            } else {
                d.quotient(mx)
            },
            v: mx,
        }
    }

    /// A level as a share of the full one.
    pub fn level_share(level: u8) -> (r: Single)
        ensures
            r == Rgb::share(level),
    {
        Single::from_int(level as i32).over(Single::from_int(255))
    }

    /// Hue, saturation and value of the colour.
    pub fn to_hsv(&self) -> (r: Hsv)
        ensures
            r == self.hsv(),
    {
        let r = Rgb::level_share(self.r);
        let g = Rgb::level_share(self.g);
        let b = Rgb::level_share(self.b);
        let mx = r.max(g).max(b);
        let mn = r.min(g).min(b);
        let d = mx.minus(mn);
        let sixty = Single::from_int(60);
        let zero = Single::from_int(0);
        let h = if d.same(zero) {
            zero
        } else if mx.same(r) {
            sixty.times(g.minus(b).over(d).modulo(Single::from_int(6)))
        } else if mx.same(g) {
            sixty.times(b.minus(r).over(d).plus(Single::from_int(2)))
        } else {
            sixty.times(r.minus(g).over(d).plus(Single::from_int(4)))
        };
        let h = if h.less(zero) {
            h.plus(Single::from_int(360))
        } else {
            h
        };
        let s = if mx.same(zero) {
            zero
        } else {
            d.over(mx)
        };
        Hsv { h, s, v: mx }
    }
}

impl Hsv {
    /// The level that a share of full light, above the share `m` that all have, comes to.
    pub open spec fn level(share: Single, m: Single) -> u8 {
        share.sum(m).product(Single::of_int(255)).sum(Single::of_ratio(1, 2)).within(
            Single::of_int(0),
            Single::of_int(255),
        ).toward_zero(0, 255) as u8
    }

    /// The shares of red, green and blue in the sixth of the colour circle with the given
    /// number, for the chroma `c` and the second strongest share `x`.
    pub open spec fn arranged(sixth: int, c: Single, x: Single) -> (Single, Single, Single) {
        let zero = Single::of_int(0);
        if sixth == 0 {
            (c, x, zero)
        } else if sixth == 1 {
            (x, c, zero)
        } else if sixth == 2 {
            (zero, c, x)
        } else if sixth == 3 {
            (zero, x, c)
        } else if sixth == 4 {
            (x, zero, c)
        } else {
            (c, zero, x)
        }
    }

    /// The colour with this hue, saturation and value.
    pub open spec fn rgb(self) -> Rgb {
        let one = Single::of_int(1);
        let c = self.v.product(self.s);
        let h6 = self.h.quotient(Single::of_int(60));
        let x = c.product(
            one.difference(h6.remainder(Single::of_int(2)).difference(one).magnitude()),
        );
        let (r, g, b) = Hsv::arranged(
            h6.toward_zero(i32::MIN as int, i32::MAX as int),
            c,
            x,
        );
        let m = self.v.difference(c);
        Rgb { r: Hsv::level(r, m), g: Hsv::level(g, m), b: Hsv::level(b, m) }
    }

    fn to_level(share: Single, m: Single) -> (r: u8)
        ensures
            r == Hsv::level(share, m),
    {
        let full = Single::from_int(255);
        share.plus(m).times(full).plus(Single::from_ratio(1, 2)).clamp(
            Single::from_int(0),
            full,
        ).truncate(0, 255) as u8
    }

    /// The colour with this hue, saturation and value.
    pub fn to_rgb(&self) -> (r: Rgb)
        ensures
            r == self.rgb(),
    {
        let one = Single::from_int(1);
        let zero = Single::from_int(0);
        let c = self.v.times(self.s);
        let h6 = self.h.over(Single::from_int(60));
        let x = c.times(one.minus(h6.modulo(Single::from_int(2)).minus(one).abs()));
        let sixth: i64 = h6.truncate(i32::MIN as i64, i32::MAX as i64);
        let (r, g, b) = match sixth {
            0 => (c, x, zero),
            1 => (x, c, zero),
            2 => (zero, c, x),
            3 => (zero, x, c),
            4 => (x, zero, c),
            _ => (c, zero, x),
        };
        let m = self.v.minus(c);
        Rgb { r: Hsv::to_level(r, m), g: Hsv::to_level(g, m), b: Hsv::to_level(b, m) }
    }
}

/// Angles.
impl Single {
    /// The angle after as many full turns are added as bring it to zero or above.
    pub open spec fn turned_up(self) -> Single
        decreases
            (if self.rank() < 0 {
                -self.rank()
            } else {
                0
            }),
        when -crate::rounding::units(32) < self.rank()
    {
        if self.below(Single::of_int(0)) {
            proof {
                crate::rounding::lemma_int_rank(0);
                crate::rounding::lemma_turn_up(self);
            }
            self.sum(Single::of_int(360)).turned_up()
        } else {
            self
        }
    }

    /// The angle after as many full turns are taken away as bring it below one turn.
    pub open spec fn turned_down(self) -> Single
        decreases self.rank(),
        when self.rank() < crate::rounding::units(32)
    {
        if Single::of_int(360).at_most(self) {
            proof {
                crate::rounding::lemma_int_rank(360);
                crate::rounding::lemma_turn_down(self);
            }
            self.difference(Single::of_int(360)).turned_down()
        } else {
            self
        }
    }

    /// The angle brought into one turn.
    pub fn into_one_turn(self) -> (r: Single)
        requires
            -crate::rounding::units(32) < self.rank() < crate::rounding::units(32),
            !self.is_nan(),
        ensures
            r == self.turned_up().turned_down(),
    {
        let zero = Single::from_int(0);
        let turn = Single::from_int(360);
        let mut h = self;
        proof {
            crate::rounding::lemma_int_rank(0);
            crate::rounding::lemma_int_rank(360);
            crate::rounding::lemma_units_steps();
        }
        while h.less(zero)
            invariant
                zero == Single::of_int(0),
                zero.rank() == 0,
                turn == Single::of_int(360),
                -crate::rounding::units(32) < h.rank() < crate::rounding::units(32),
                360 * crate::rounding::one() < crate::rounding::units(32),
                !h.is_nan(),
                self.turned_up() == h.turned_up(),
            decreases
                    (if h.rank() < 0 {
                        -h.rank()
                    } else {
                        0
                    }),
        {
            proof {
                crate::rounding::lemma_turn_up(h);
            }
            h = h.plus(turn);
        }
        while turn.less_or_equal(h)
            invariant
                turn == Single::of_int(360),
                turn.rank() == 360 * crate::rounding::one(),
                -crate::rounding::units(32) < h.rank() < crate::rounding::units(32),
                !h.is_nan(),
                self.turned_up().turned_down() == h.turned_down(),
            decreases h.rank(),
        {
            proof {
                crate::rounding::lemma_turn_down(h);
            }
            h = h.minus(turn);
        }
        h
    }
}

fn read_digit(b: u8) -> (r: Option<u8>)
    ensures
        r is Some == digit_value(b) is Some,
        r matches Some(d) ==> d < 16 && digit_value(b) == Some(d as int),
{
    if 0x30 <= b && b <= 0x39 {
        Some(b - 0x30)
    } else if 0x41 <= b && b <= 0x46 {
        Some(b - 0x37)
    } else if 0x61 <= b && b <= 0x66 {
        Some(b - 0x57)
    } else {
        None
    }
}

fn read_pair(a: u8, b: u8) -> (r: Option<u8>)
    ensures
        r is Some == pair_value(a, b) is Some,
        r matches Some(d) ==> pair_value(a, b) == Some(d as int),
{
    match (read_digit(a), read_digit(b)) {
        (Some(x), Some(y)) => Some(16 * x + y),
        (None, Some(y)) => if a == 0x2b {
            Some(y)
        } else {
            None
        },
        _ => None,
    }
}

/// Plain text can be cut anywhere.
pub proof fn lemma_ascii_cuts(s: Seq<char>)
    requires
        is_ascii_chars(s),
    ensures
        encode_utf8(s).len() == 6 ==> is_char_boundary(encode_utf8(s), 2),
        encode_utf8(s).len() == 6 ==> is_char_boundary(encode_utf8(s), 4),
{
    is_ascii_chars_encode_utf8(s);
    encode_utf8_valid_utf8(s);
    let t = encode_utf8(s);
    if t.len() == 6 {
        let (a, b) = (t[2], t[4]);
        assert(s[2] as u32 <= 127 && s[4] as u32 <= 127);
        assert(a < 128 ==> a & 0xc0 != 0x80) by (bit_vector);
        assert(b < 128 ==> b & 0xc0 != 0x80) by (bit_vector);
        is_char_boundary_iff_not_is_continuation_byte(t, 2);
        is_char_boundary_iff_not_is_continuation_byte(t, 4);
    }
}

} // verus!
