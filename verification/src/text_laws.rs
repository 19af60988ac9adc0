//! What the texts of the library say: hex codes, numbers, colours and sliders.
use vstd::prelude::*;
use vstd::utf8::*;
use vstd::arithmetic::power2::*;
use crate::ansi;
use crate::circle;
use crate::color;
use crate::color::Rgb;
use crate::hue;
use crate::keys;
use crate::laws;
use crate::render;
use crate::rounding;
use crate::single::{Parts, Single};
use crate::text;

verus! {

/// The hexadecimal digits in their order.
pub open spec fn hex_alphabet() -> Seq<char> {
    "0123456789abcdef"@
}

/// The hex code of a colour is a hash sign and, for each level, the digits of its sixteens
/// and of its ones.
pub proof fn law_hex_code(c: Rgb)
    ensures
        c.hex_code().len() == 7,
        c.hex_code()[0] == '#',
        c.hex_code()[1] == hex_alphabet()[c.r as int / 16],
        c.hex_code()[2] == hex_alphabet()[c.r as int % 16],
        c.hex_code()[3] == hex_alphabet()[c.g as int / 16],
        c.hex_code()[4] == hex_alphabet()[c.g as int % 16],
        c.hex_code()[5] == hex_alphabet()[c.b as int / 16],
        c.hex_code()[6] == hex_alphabet()[c.b as int % 16],
{
    lemma_alphabet(c.r as int / 16);
    lemma_alphabet(c.r as int % 16);
    lemma_alphabet(c.g as int / 16);
    lemma_alphabet(c.g as int % 16);
    lemma_alphabet(c.b as int / 16);
    lemma_alphabet(c.b as int % 16);
}

proof fn lemma_alphabet(d: int)
    requires
        0 <= d < 16,
    ensures
        hex_alphabet()[d] == text::digit(d),
{
    reveal_strlit("0123456789abcdef");
    assert(d == 0 || d == 1 || d == 2 || d == 3 || d == 4 || d == 5 || d == 6 || d == 7 || d == 8
        || d == 9 || d == 10 || d == 11 || d == 12 || d == 13 || d == 14 || d == 15);
}

/// A letter of a hex code in lower case; any other character as it is.
pub open spec fn lower(c: char) -> char {
    if 'A' <= c <= 'Z' {
        (c as u32 + 32) as char
    } else {
        c
    }
}

/// Six characters in lower case, with a zero in place of a plus sign that begins a pair.
pub open spec fn plain_code(t: Seq<char>) -> Seq<char> {
    Seq::new(
        t.len(),
        |i: int|
            if t[i] == '+' && i % 2 == 0 {
                '0'
            } else {
                lower(t[i])
            },
    )
}

/// Every character that is white space.
pub open spec fn spaces() -> Seq<char> {
    seq![
        '\t',
        '\n',
        '\x0b',
        '\x0c',
        '\r',
        ' ',
        '\u{85}',
        '\u{a0}',
        '\u{1680}',
        '\u{2000}',
        '\u{2001}',
        '\u{2002}',
        '\u{2003}',
        '\u{2004}',
        '\u{2005}',
        '\u{2006}',
        '\u{2007}',
        '\u{2008}',
        '\u{2009}',
        '\u{200a}',
        '\u{2028}',
        '\u{2029}',
        '\u{202f}',
        '\u{205f}',
        '\u{3000}',
    ]
}

/// A character is white space where it is one of those, and only there.
pub proof fn law_white_space(c: char)
    ensures
        text::white(c) <==> spaces().contains(c),
{
    let all = spaces();
    if text::white(c) {
        let n = c as int;
        let i: int = if n <= 0x0d {
            n - 9
        } else if n == 0x20 {
            5
        } else if n == 0x85 {
            6
        } else if n == 0xa0 {
            7
        } else if n == 0x1680 {
            8
        } else if n <= 0x200a {
            n - 0x2000 + 9
        } else if n == 0x2028 {
            20
        } else if n == 0x2029 {
            21
        } else if n == 0x202f {
            22
        } else if n == 0x205f {
            23
        } else {
            24
        };
        assert(all[i] == c);
    }
    if all.contains(c) {
        let i = choose|i: int| 0 <= i < all.len() && all[i] == c;
        assert(text::white(all[i]));
    }
}

/// Only white space.
pub open spec fn blank(t: Seq<char>) -> bool {
    forall|i: int| 0 <= i < t.len() ==> text::white(#[trigger] t[i])
}

/// Only hash signs.
pub open spec fn hashes(t: Seq<char>) -> bool {
    forall|i: int| 0 <= i < t.len() ==> #[trigger] t[i] == '#'
}

/// Reading does not depend on letter case: every text that is the code of a colour but for
/// its case, with any hash signs before it and any white space around, is read as that
/// colour; so is one with a plus sign in place of a zero that begins a pair.
pub proof fn law_code_is_read(
    c: Rgb,
    front: Seq<char>,
    signs: Seq<char>,
    body: Seq<char>,
    back: Seq<char>,
)
    requires
        blank(front),
        hashes(signs),
        blank(back),
        plain_code(body) == c.hex_code().drop_first(),
    ensures
        color::cuts_cleanly(front + signs + body + back),
        Rgb::of_hex_code(front + signs + body + back) == Some(c),
{
    let s = front + signs + body + back;
    lemma_body(c, body);
    let inner = signs + body;
    assert(inner.len() > 0);
    assert(!text::white(inner[0])) by {
        if signs.len() > 0 {
            assert(inner[0] == signs[0]);
        } else {
            assert(inner[0] == body[0]);
        }
    }
    assert(s == front + (inner + back));
    assert((inner + back)[0] == inner[0]);
    lemma_front(front, inner + back);
    assert(inner.last() == body[5]);
    lemma_back(inner, back);
    lemma_signs(signs, body);
    assert(text::without_hashes(text::trimmed(s)) == body);
    is_ascii_chars_encode_utf8(body);
    color::lemma_ascii_cuts(body);
    let t = color::code_bytes(s);
    assert(t.len() == 6);
    lemma_pair(c.r, body[0], body[1]);
    lemma_pair(c.g, body[2], body[3]);
    lemma_pair(c.b, body[4], body[5]);
}

/// What the characters of a plain code can be.
proof fn lemma_body(c: Rgb, body: Seq<char>)
    requires
        plain_code(body) == c.hex_code().drop_first(),
    ensures
        body.len() == 6,
        is_ascii_chars(body),
        forall|i: int| 0 <= i < 6 ==> !text::white(#[trigger] body[i]) && body[i] != '#',
        body[0] == '+' && text::digit(c.r as int / 16) == '0' || lower(body[0]) == text::digit(
            c.r as int / 16,
        ) && body[0] != '+',
        lower(body[1]) == text::digit(c.r as int % 16),
        body[2] == '+' && text::digit(c.g as int / 16) == '0' || lower(body[2]) == text::digit(
            c.g as int / 16,
        ) && body[2] != '+',
        lower(body[3]) == text::digit(c.g as int % 16),
        body[4] == '+' && text::digit(c.b as int / 16) == '0' || lower(body[4]) == text::digit(
            c.b as int / 16,
        ) && body[4] != '+',
        lower(body[5]) == text::digit(c.b as int % 16),
{
    let p = plain_code(body);
    let h = c.hex_code().drop_first();
    assert(p.len() == 6);
    assert(p[0] == h[0] && p[1] == h[1] && p[2] == h[2] && p[3] == h[3] && p[4] == h[4] && p[5]
        == h[5]);
    assert forall|i: int| 0 <= i < 6 implies !text::white(#[trigger] body[i]) && body[i] != '#'
        && body[i] as u32 <= 127 by {
        assert(i == 0 || i == 1 || i == 2 || i == 3 || i == 4 || i == 5);
    }
}

/// A pair of characters that stand for a level.
proof fn lemma_pair(level: u8, a: char, b: char)
    requires
        a == '+' && text::digit(level as int / 16) == '0' || lower(a) == text::digit(
            level as int / 16,
        ) && a != '+',
        lower(b) == text::digit(level as int % 16),
    ensures
        color::pair_value(a as u8, b as u8) == Some(level as int),
{
    lemma_digit_read(level as int % 16, b);
    if a != '+' {
        lemma_digit_read(level as int / 16, a);
    }
}

/// A digit in either case.
proof fn lemma_digit_read(d: int, c: char)
    requires
        0 <= d < 16,
        lower(c) == text::digit(d),
    ensures
        color::digit_value(c as u8) == Some(d),
        (c as u32) < 128,
{
}

proof fn lemma_front(front: Seq<char>, rest: Seq<char>)
    requires
        blank(front),
        rest.len() > 0,
        !text::white(rest[0]),
    ensures
        text::front_trimmed(front + rest) == rest,
    decreases front.len(),
{
    let s = front + rest;
    if front.len() > 0 {
        assert(s[0] == front[0]);
        assert(s.drop_first() == front.drop_first() + rest);
        lemma_front(front.drop_first(), rest);
    } else {
        assert(s == rest);
    }
}

proof fn lemma_back(rest: Seq<char>, back: Seq<char>)
    requires
        blank(back),
        rest.len() > 0,
        !text::white(rest.last()),
    ensures
        text::back_trimmed(rest + back) == rest,
    decreases back.len(),
{
    let s = rest + back;
    if back.len() > 0 {
        assert(s.last() == back.last());
        assert(s.drop_last() == rest + back.drop_last());
        lemma_back(rest, back.drop_last());
    } else {
        assert(s == rest);
    }
}

proof fn lemma_signs(signs: Seq<char>, rest: Seq<char>)
    requires
        hashes(signs),
        rest.len() > 0,
        rest[0] != '#',
    ensures
        text::without_hashes(signs + rest) == rest,
    decreases signs.len(),
{
    let s = signs + rest;
    if signs.len() > 0 {
        assert(s[0] == signs[0]);
        assert(s.drop_first() == signs.drop_first() + rest);
        lemma_signs(signs.drop_first(), rest);
    } else {
        assert(s == rest);
    }
}

/// White space around a text is what trimming takes away, and all that it takes away.
pub proof fn law_trimmed(s: Seq<char>) -> (p: (Seq<char>, Seq<char>))
    ensures
        s == p.0 + text::trimmed(s) + p.1,
        blank(p.0),
        blank(p.1),
        text::trimmed(s).len() > 0 ==> !text::white(text::trimmed(s)[0]),
        text::trimmed(s).len() > 0 ==> !text::white(text::trimmed(s).last()),
{
    let front = lemma_front_taken(s);
    let t = text::front_trimmed(s);
    let back = lemma_back_taken(t);
    assert(s == front + text::trimmed(s) + back);
    if text::trimmed(s).len() > 0 {
        assert(text::trimmed(s)[0] == t[0]);
    }
    (front, back)
}

proof fn lemma_front_taken(s: Seq<char>) -> (front: Seq<char>)
    ensures
        s == front + text::front_trimmed(s),
        blank(front),
        text::front_trimmed(s).len() > 0 ==> !text::white(text::front_trimmed(s)[0]),
    decreases s.len(),
{
    if s.len() > 0 && text::white(s[0]) {
        let f = lemma_front_taken(s.drop_first());
        let front = seq![s[0]] + f;
        assert(s == seq![s[0]] + s.drop_first());
        assert(s == front + text::front_trimmed(s));
        front
    } else {
        assert(s == Seq::<char>::empty() + s);
        Seq::empty()
    }
}

proof fn lemma_back_taken(s: Seq<char>) -> (back: Seq<char>)
    ensures
        s == text::back_trimmed(s) + back,
        blank(back),
        text::back_trimmed(s).len() > 0 ==> !text::white(text::back_trimmed(s).last()),
    decreases s.len(),
{
    if s.len() > 0 && text::white(s.last()) {
        let b = lemma_back_taken(s.drop_last());
        let back = b + seq![s.last()];
        assert(s == s.drop_last() + seq![s.last()]);
        assert(s == text::back_trimmed(s) + back);
        back
    } else {
        assert(s == s + Seq::<char>::empty());
        Seq::empty()
    }
}

proof fn lemma_signs_taken(s: Seq<char>) -> (signs: Seq<char>)
    ensures
        s == signs + text::without_hashes(s),
        hashes(signs),
    decreases s.len(),
{
    if s.len() > 0 && s[0] == '#' {
        let f = lemma_signs_taken(s.drop_first());
        let signs = seq![s[0]] + f;
        assert(s == seq![s[0]] + s.drop_first());
        assert(s == signs + text::without_hashes(s));
        signs
    } else {
        assert(s == Seq::<char>::empty() + s);
        Seq::empty()
    }
}

/// Nothing else is read: a text that is read as a colour is its code but for case and plus
/// signs, with hash signs before it and white space around.
#[verifier::rlimit(40)]
pub proof fn law_only_codes_are_read(s: Seq<char>, c: Rgb) -> (p: (
    Seq<char>,
    Seq<char>,
    Seq<char>,
    Seq<char>,
))
    requires
        Rgb::of_hex_code(s) == Some(c),
    ensures
        s == p.0 + p.1 + p.2 + p.3,
        blank(p.0),
        hashes(p.1),
        plain_code(p.2) == c.hex_code().drop_first(),
        blank(p.3),
{
    let (front, back) = law_trimmed(s);
    let inner = text::trimmed(s);
    let signs = lemma_signs_taken(inner);
    let body = text::without_hashes(inner);
    assert(s == front + signs + body + back);
    let t = encode_utf8(body);
    assert(t == color::code_bytes(s));
    assert forall|i: int| 0 <= i < t.len() implies #[trigger] t[i] < 128 by {
        assert(i == 0 || i == 1 || i == 2 || i == 3 || i == 4 || i == 5);
    }
    lemma_ascii(body);
    is_ascii_chars_encode_utf8(body);
    assert(t[0] == body[0] as u8 && t[1] == body[1] as u8 && t[2] == body[2] as u8 && t[3]
        == body[3] as u8 && t[4] == body[4] as u8 && t[5] == body[5] as u8);
    lemma_pair_back(body[0], body[1], c.r);
    lemma_pair_back(body[2], body[3], c.g);
    lemma_pair_back(body[4], body[5], c.b);
    assert(plain_code(body) == c.hex_code().drop_first());
    (front, signs, body, back)
}

/// Bytes below 128 are characters below 128.
proof fn lemma_ascii(chars: Seq<char>)
    requires
        forall|i: int| 0 <= i < encode_utf8(chars).len() ==> #[trigger] encode_utf8(chars)[i] < 128,
    ensures
        is_ascii_chars(chars),
    decreases chars.len(),
{
    if chars.len() > 0 {
        let n = chars[0] as u32;
        let head = encode_scalar(n);
        let rest = encode_utf8(chars.drop_first());
        let t = encode_utf8(chars);
        assert(t == head + rest);
        assert(t[0] == head[0]);
        let (a, b, c) = (
            ((n >> 6) & 0x1F) as u8,
            ((n >> 12) & 0x0F) as u8,
            ((n >> 18) & 0x07) as u8,
        );
        assert(0xC0u8 | a >= 0x80) by (bit_vector);
        assert(0xE0u8 | b >= 0x80) by (bit_vector);
        assert(0xF0u8 | c >= 0x80) by (bit_vector);
        assert(n < 128);
        assert forall|i: int| 0 <= i < rest.len() implies #[trigger] rest[i] < 128 by {
            assert(t[i + head.len()] == rest[i]);
        }
        lemma_ascii(chars.drop_first());
        assert forall|i: int| 0 <= i < chars.len() implies '\0' <= #[trigger] chars[i] <= '\u{7f}' by {
            if i > 0 {
                assert(chars.drop_first()[i - 1] == chars[i]);
            } else {
                lemma_small_char(chars[i]);
            }
        }
    }
}

proof fn lemma_small_char(c: char)
    requires
        (c as u32) < 128,
    ensures
        '\0' <= c <= '\u{7f}',
{
}

proof fn lemma_pair_back(a: char, b: char, level: u8)
    requires
        a as u32 <= 127,
        b as u32 <= 127,
        color::pair_value(a as u8, b as u8) == Some(level as int),
    ensures
        (if a == '+' {
            '0'
        } else {
            lower(a)
        }) == text::digit(level as int / 16),
        lower(b) == text::digit(level as int % 16),
        b != '+',
{
    let y = color::digit_value(b as u8)->0;
    assert(0 <= y < 16);
    match color::digit_value(a as u8) {
        Some(x) => {
            assert(0 <= x < 16);
            assert(level as int / 16 == x && level as int % 16 == y);
        },
        None => {
            assert(level as int / 16 == 0 && level as int % 16 == y);
        },
    }
}

/// The number that a text of decimal digits stands for.
pub open spec fn number(t: Seq<char>) -> int
    decreases t.len(),
{
    if t.len() == 0 {
        0
    } else {
        10 * number(t.drop_last()) + (t.last() as int - '0' as int)
    }
}

/// Whether `t` is `n` in decimal: digits, without a zero before another one.
pub open spec fn is_decimal(t: Seq<char>, n: int) -> bool {
    &&& t.len() > 0
    &&& forall|i: int| 0 <= i < t.len() ==> '0' <= #[trigger] t[i] <= '9'
    &&& t.len() > 1 ==> t[0] != '0'
    &&& number(t) == n
}

/// The decimal digits of a number are read back as that number.
pub proof fn law_decimal(n: int)
    requires
        0 <= n,
    ensures
        is_decimal(text::decimal(n), n),
    decreases n,
{
    reveal_with_fuel(number, 2);
    let t = text::decimal(n);
    if n < 10 {
        assert(t.drop_last().len() == 0);
    } else {
        law_decimal(n / 10);
        let d = text::decimal(n / 10);
        assert(t.drop_last() == d);
        if d.len() == 1 {
            assert(number(d) == d[0] as int - '0' as int) by {
                assert(d.drop_last().len() == 0);
            }
        }
        assert(t[0] == d[0]);
    }
}

/// Two decimal texts of one number are the same.
pub proof fn law_decimal_is_unique(a: Seq<char>, b: Seq<char>, n: int)
    requires
        is_decimal(a, n),
        is_decimal(b, n),
    ensures
        a == b,
{
    lemma_is_decimal(a);
    lemma_is_decimal(b);
}

proof fn lemma_is_decimal(t: Seq<char>)
    requires
        t.len() > 0,
        forall|i: int| 0 <= i < t.len() ==> '0' <= #[trigger] t[i] <= '9',
        t.len() > 1 ==> t[0] != '0',
    ensures
        number(t) >= 0,
        text::decimal(number(t)) == t,
        t[0] != '0' ==> number(t) > 0,
    decreases t.len(),
{
    reveal_with_fuel(number, 2);
    let d = t.drop_last();
    let last = t.last() as int - '0' as int;
    assert(0 <= last <= 9);
    if d.len() == 0 {
        assert(number(t) == last);
        assert(text::decimal(last) == t) by {
            assert(text::digit(last) == t[0]);
        }
    } else {
        assert(d[0] == t[0]);
        assert forall|i: int| 0 <= i < d.len() implies '0' <= #[trigger] d[i] <= '9' by {
            assert(d[i] == t[i]);
        }
        lemma_is_decimal(d);
        let n = number(t);
        assert(n >= 10);
        assert(n / 10 == number(d) && n % 10 == last);
        assert(text::digit(last) == t.last());
        assert(text::decimal(n) == t);
    }
}

/// Whether `t` is a number in decimal, with a minus sign only where it is not positive, that
/// lies within `slack` of `x`.
pub open spec fn shows_whole(t: Seq<char>, x: real, slack: real) -> bool {
    exists|a: Seq<char>, n: int| #[trigger]
        is_decimal(a, n) && hue::within(n as real, hue::size(x), slack) && (t == a && x
            >= 0 as real || t == "-"@ + a && x <= 0 as real)
}

/// Whether `t` is a number in decimal with two places after the point, with a minus sign
/// only where it is not positive, that lies within half a hundredth of `x`.
pub open spec fn shows_cents(t: Seq<char>, x: real) -> bool {
    exists|a: Seq<char>, b: Seq<char>, n: int, m: int| #[trigger]
        is_decimal(a, n) && #[trigger] two_digits(b, m) && hue::within(
            n as real + m as real / 100 as real,
            hue::size(x),
            1 as real / 200 as real,
        ) && (t == a + "."@ + b && x >= 0 as real || t == "-"@ + a + "."@ + b && x <= 0 as real)
}

/// Whether `t` is two decimal digits that stand for `m`.
pub open spec fn two_digits(t: Seq<char>, m: int) -> bool {
    &&& t.len() == 2
    &&& '0' <= t[0] <= '9'
    &&& '0' <= t[1] <= '9'
    &&& number(t) == m
}

/// The integer nearest to a multiple of a number.
proof fn lemma_in_units_near(x: Single, unit: int)
    requires
        x.is_finite(),
        0 < unit,
    ensures
        x.parts() matches Parts::Finite { neg, sig, exp } && {
            let n = Single::in_units(sig as int, exp as int, unit);
            &&& 0 <= n
            &&& neg ==> rounding::value(x) <= 0 as real
            &&& !neg ==> rounding::value(x) >= 0 as real
            &&& hue::within(
                n as real,
                unit as real * hue::size(rounding::value(x)),
                1 as real / 2 as real,
            )
        },
{
    rounding::lemma_finite_rank(x);
    rounding::lemma_units_steps();
    let (neg, sig, exp) = (x.parts()->Finite_neg, x.parts()->sig as int, x.parts()->exp as int);
    let u = rounding::units(exp);
    let o = rounding::one();
    rounding::lemma_units_double(exp);
    let n = Single::in_units(sig, exp, unit);
    let size = sig * u;
    assert(size >= 0 && x.rank() == (if neg {
        -size
    } else {
        size
    })) by (nonlinear_arith)
        requires
            x.rank() == (if neg {
                -sig
            } else {
                sig
            }) * u,
            size == sig * u,
            sig >= 0,
            u > 0,
    ;
    vstd::arithmetic::mul::lemma_mul_nonnegative(sig, unit);
    if exp >= 0 {
        lemma_pow2_adds(exp as nat, 149);
        let p = pow2(exp as nat) as int;
        lemma_pow2_pos(exp as nat);
        assert(n * o == size * unit && n >= 0) by (nonlinear_arith)
            requires
                n == sig * p * unit,
                size == sig * u,
                u == p * o,
                sig >= 0,
                p > 0,
                unit > 0,
        ;
    } else {
        let p = pow2((-exp) as nat) as int;
        lemma_pow2_pos((-exp) as nat);
        lemma_pow2_adds((exp + 149) as nat, (-exp) as nat);
        let m = sig * unit;
        rounding::lemma_half_even(m, p);
        assert(2 * (n * o - size * unit) <= o && 2 * (size * unit - n * o) <= o)
            by (nonlinear_arith)
            requires
                2 * (n * p - m) <= p,
                2 * (m - n * p) <= p,
                m == sig * unit,
                size == sig * u,
                o == u * p,
                u > 0,
        {
            assert((2 * (n * p - m)) * u <= p * u);
            assert((2 * (m - n * p)) * u <= p * u);
            assert((n * p) * u == n * o);
            assert(m * u == size * unit);
        }
    }
    let (nn, oo, ss, k) = (n as real, o as real, size as real, unit as real);
    let v = ss / oo;
    assert(-(1 as real / 2 as real) <= nn - k * v <= 1 as real / 2 as real) by (nonlinear_arith)
        requires
            (2 * (n * o - size * unit)) as real <= oo,
            (2 * (size * unit - n * o)) as real <= oo,
            nn == n as real,
            oo == o as real,
            ss == size as real,
            k == unit as real,
            v == ss / oo,
            oo > 0 as real,
    {
        assert((n * o) as real == nn * oo);
        assert((size * unit) as real == ss * k);
        assert(v * oo == ss);
        assert((k * v) * oo == ss * k);
        assert(2 as real * ((nn - k * v) * oo) <= oo);
        assert(2 as real * ((k * v - nn) * oo) <= oo);
    }
    assert(v >= 0 as real) by (nonlinear_arith)
        requires
            v == ss / oo,
            ss >= 0 as real,
            oo > 0 as real,
    ;
    if neg {
        assert((-ss) / oo == -v) by (nonlinear_arith)
            requires
                v == ss / oo,
                oo > 0 as real,
        ;
    }
}

/// A number written without places after the point is within a half of what is written.
pub proof fn law_whole_figures(x: Single)
    requires
        x.is_finite(),
    ensures
        shows_whole(x.whole_figures(), rounding::value(x), 1 as real / 2 as real),
{
    lemma_in_units_near(x, 1);
    let (neg, sig, exp) = (x.parts()->Finite_neg, x.parts()->sig as int, x.parts()->exp as int);
    let n = Single::in_units(sig, exp, 1);
    law_decimal(n);
    reveal_strlit("");
    let a = text::decimal(n);
    assert(""@ + a == a);
    assert(is_decimal(a, n));
}

/// A number written with two places after the point is within half a hundredth of what is
/// written.
pub proof fn law_cent_figures(x: Single)
    requires
        x.is_finite(),
    ensures
        shows_cents(x.cent_figures(), rounding::value(x)),
{
    lemma_in_units_near(x, 100);
    let (neg, sig, exp) = (x.parts()->Finite_neg, x.parts()->sig as int, x.parts()->exp as int);
    let n = Single::in_units(sig, exp, 100);
    law_decimal(n / 100);
    reveal_strlit("");
    let a = text::decimal(n / 100);
    let b = seq![text::digit(n / 10 % 10)] + seq![text::digit(n % 10)];
    reveal_with_fuel(number, 3);
    assert(b.drop_last() == seq![text::digit(n / 10 % 10)]);
    assert(b.drop_last().drop_last().len() == 0);
    assert(n % 100 == 10 * (n / 10 % 10) + n % 10);
    assert(two_digits(b, n % 100));
    assert(is_decimal(a, n / 100));
    assert((n / 100) as real + (n % 100) as real / 100 as real == n as real / 100 as real) by {
        assert(n == 100 * (n / 100) + n % 100);
    }
    let t = x.cent_figures();
    if neg {
        assert(t == "-"@ + a + "."@ + b);
    } else {
        assert(t == a + "."@ + b);
    }
}

/// The escape sequence that puts the cursor at a row and a column names both.
pub proof fn law_cursor(row: int, col: int)
    requires
        0 <= row,
        0 <= col,
    ensures
        exists|a: Seq<char>, b: Seq<char>|
            is_decimal(a, row) && is_decimal(b, col) && ansi::cursor(row, col) == #[trigger] (
            "\x1b["@ + a + ";"@ + b) + "H"@,
{
    law_decimal(row);
    law_decimal(col);
    let (a, b) = (text::decimal(row), text::decimal(col));
    assert(ansi::cursor(row, col) == ("\x1b["@ + a + ";"@ + b) + "H"@);
}

/// Whether `t` is `before`, the three levels of a colour with `between` between them, and
/// `after`.
pub open spec fn lists_levels(
    t: Seq<char>,
    c: Rgb,
    before: Seq<char>,
    between: Seq<char>,
    after: Seq<char>,
) -> bool {
    exists|r: Seq<char>, g: Seq<char>, b: Seq<char>|
        is_decimal(r, c.r as int) && is_decimal(g, c.g as int) && is_decimal(b, c.b as int) && t
            == #[trigger] (before + r + between + g + between + b) + after
}

/// The escape sequences for a colour, and its text, name red, green and blue in this order.
pub proof fn law_levels_are_listed(c: Rgb)
    ensures
        lists_levels(ansi::fg_code(c), c, "\x1b[38;2;"@, ";"@, "m"@),
        lists_levels(ansi::bg_code(c), c, "\x1b[48;2;"@, ";"@, "m"@),
        lists_levels(render::rgb_text(c), c, "rgb("@, ", "@, ")"@),
{
    law_decimal(c.r as int);
    law_decimal(c.g as int);
    law_decimal(c.b as int);
    let (r, g, b) = (
        text::decimal(c.r as int),
        text::decimal(c.g as int),
        text::decimal(c.b as int),
    );
    assert(ansi::fg_code(c) == ("\x1b[38;2;"@ + r + ";"@ + g + ";"@ + b) + "m"@);
    assert(ansi::bg_code(c) == ("\x1b[48;2;"@ + r + ";"@ + g + ";"@ + b) + "m"@);
    assert(render::rgb_text(c) == ("rgb("@ + r + ", "@ + g + ", "@ + b) + ")"@);
}

/// The text of a colour in hue, saturation and value names each to the nearest whole number,
/// the latter two in hundredths.
pub proof fn law_hsv_text(c: Rgb)
    ensures
        exists|h: Seq<char>, s: Seq<char>, v: Seq<char>|
            shows_whole(h, rounding::value(c.hsv().h), 1 as real / 2 as real) && shows_whole(
                s,
                100 as real * rounding::value(c.hsv().s),
                1 as real / 2 as real + 1 as real / 0x10000 as real,
            ) && shows_whole(
                v,
                100 as real * rounding::value(c.hsv().v),
                1 as real / 2 as real + 1 as real / 0x10000 as real,
            ) && render::hsv_text(c) == #[trigger] ("hsv("@ + h + ", "@ + s + "%, "@ + v) + "%)"@,
{
    laws::law_hsv_ranges(c);
    let x = c.hsv();
    circle::lemma_in_range(x);
    let hundred = Single::of_int(100);
    law_whole_figures(x.h);
    lemma_percent_figures(x.s);
    lemma_percent_figures(x.v);
    let (h, s, v) = (
        x.h.whole_figures(),
        x.s.product(hundred).whole_figures(),
        x.v.product(hundred).whole_figures(),
    );
    assert(render::hsv_text(c) == ("hsv("@ + h + ", "@ + s + "%, "@ + v) + "%)"@);
}

/// A share in hundredths.
proof fn lemma_hundredths(s: Single)
    requires
        s.is_finite(),
        0 as real <= rounding::value(s) <= 1 as real,
    ensures
        ({
            let p = s.product(Single::of_int(100));
            &&& p.is_finite()
            &&& 0 as real <= rounding::value(p) <= 100 as real
            &&& hue::within(
                rounding::value(p),
                100 as real * rounding::value(s),
                1 as real / 0x10000 as real,
            )
        }),
{
    let hundred = Single::of_int(100);
    rounding::lemma_tiny_values();
    rounding::lemma_int_value(0);
    rounding::lemma_int_value(100);
    let v = rounding::value(s);
    assert(rounding::value(s) * rounding::value(hundred) == 100 as real * v);
    rounding::lemma_product_value(s, hundred, -16);
    rounding::lemma_product_side(s, hundred, Single::of_int(0));
    rounding::lemma_product_side(s, hundred, hundred);
}

proof fn lemma_percent_figures(s: Single)
    requires
        s.is_finite(),
        0 as real <= rounding::value(s) <= 1 as real,
    ensures
        shows_whole(
            s.product(Single::of_int(100)).whole_figures(),
            100 as real * rounding::value(s),
            1 as real / 2 as real + 1 as real / 0x10000 as real,
        ),
{
    let p = s.product(Single::of_int(100));
    lemma_hundredths(s);
    law_whole_figures(p);
    let t = p.whole_figures();
    let (a, n) = choose|a: Seq<char>, n: int| #[trigger]
        is_decimal(a, n) && hue::within(
            n as real,
            hue::size(rounding::value(p)),
            1 as real / 2 as real,
        ) && (t == a && rounding::value(p) >= 0 as real || t == "-"@ + a && rounding::value(p)
            <= 0 as real);
    assert(is_decimal(a, n));
    if t == "-"@ + a && t != a {
        lemma_zero_share(s);
    }
}

/// A share whose hundredfold is nothing is nothing.
proof fn lemma_zero_share(s: Single)
    requires
        s.is_finite(),
        0 as real <= rounding::value(s) <= 1 as real,
        rounding::value(s.product(Single::of_int(100))) <= 0 as real,
    ensures
        rounding::value(s) == 0 as real,
{
    let hundred = Single::of_int(100);
    rounding::lemma_int_value(100);
    let v = rounding::value(s);
    assert(rounding::value(s) * rounding::value(hundred) == 100 as real * v);
    rounding::lemma_product_side(s, hundred, s);
}

/// What the saturation and value sliders show: the whole hundredths of a share.
pub proof fn law_percent(s: Single)
    requires
        s.is_finite(),
        0 as real <= rounding::value(s) <= 1 as real,
    ensures
        0 <= render::percent(s) <= 100,
        render::percent(s) as real <= 100 as real * rounding::value(s) + 1 as real / 0x10000 as real,
        100 as real * rounding::value(s) - 1 as real / 0x10000 as real <= render::percent(s) as real
            + 1 as real,
{
    lemma_hundredths(s);
    let p = s.product(Single::of_int(100));
    rounding::lemma_int_value(0);
    rounding::lemma_int_rank(0);
    rounding::lemma_value_order(Single::of_int(0), p);
    rounding::lemma_whole(p);
}

/// What the hue slider shows: the whole degrees of a hue.
pub proof fn law_whole_degrees(c: Rgb)
    ensures
        ({
            let n = c.hsv().h.toward_zero(i32::MIN as int, i32::MAX as int);
            &&& 0 <= n < 360
            &&& n as real <= rounding::value(c.hsv().h)
            &&& rounding::value(c.hsv().h) < n as real + 1 as real
        }),
{
    laws::law_hsv_ranges(c);
    let x = c.hsv();
    circle::lemma_in_range(x);
    rounding::lemma_int_value(0);
    rounding::lemma_int_rank(0);
    rounding::lemma_value_order(Single::of_int(0), x.h);
    rounding::lemma_whole(x.h);
}

/// A text that is read as a colour can be cut: what is left out because it cannot be cut is
/// read as no colour.
pub proof fn law_read_texts_can_be_cut(s: Seq<char>)
    requires
        Rgb::of_hex_code(s) is Some,
    ensures
        color::cuts_cleanly(s),
{
    let c = Rgb::of_hex_code(s)->0;
    let p = law_only_codes_are_read(s, c);
    law_code_is_read(c, p.0, p.1, p.2, p.3);
}

/// A text of six bytes that cannot be cut has a character of more than one byte across a
/// cut; any text of another length can be cut.
pub proof fn law_cuts(s: Seq<char>)
    ensures
        ({
            let t = encode_utf8(text::without_hashes(text::trimmed(s)));
            &&& t.len() != 6 ==> color::cuts_cleanly(s)
            &&& t.len() == 6 && is_continuation_byte(t[2]) ==> !color::cuts_cleanly(s)
            &&& t.len() == 6 && !is_continuation_byte(t[2]) && !is_continuation_byte(t[4])
                ==> color::cuts_cleanly(s)
            &&& t.len() == 6 && !is_continuation_byte(t[2]) && is_continuation_byte(t[4])
                ==> color::cuts_cleanly(s) == !(t[0] < 128 && t[1] < 128 && keys::hex_digit(t[1] as char)
                && (keys::hex_digit(t[0] as char) || t[0] as char == '+'))
        }),
{
    let body = text::without_hashes(text::trimmed(s));
    let t = encode_utf8(body);
    encode_utf8_valid_utf8(body);
    if t.len() == 6 {
        is_char_boundary_iff_not_is_continuation_byte(t, 2);
        is_char_boundary_iff_not_is_continuation_byte(t, 4);
    }
}

/// A text repeated: so many times as long, and the same again and again.
pub proof fn law_repeated(unit: Seq<char>, n: nat, i: int)
    requires
        unit.len() > 0,
        0 <= i < n * unit.len(),
    ensures
        text::repeated(unit, n).len() == n * unit.len(),
        text::repeated(unit, n)[i] == unit[i % (unit.len() as int)],
    decreases n,
{
    let k = unit.len() as int;
    assert(n > 0) by (nonlinear_arith)
        requires
            0 <= i < n * k,
            k > 0,
    ;
    let m = (n - 1) as nat;
    lemma_repeated_len(unit, m);
    assert(n * k == m * k + k) by (nonlinear_arith)
        requires
            n == m + 1,
    ;
    if i < m * k {
        law_repeated(unit, m, i);
    } else {
        let j = i - m * k;
        assert(i == m * k + j);
        vstd::arithmetic::div_mod::lemma_fundamental_div_mod_converse(i, k, m as int, j);
        assert(text::repeated(unit, n)[i] == unit[j]);
    }
}

proof fn lemma_repeated_len(unit: Seq<char>, n: nat)
    ensures
        text::repeated(unit, n).len() == n * unit.len(),
    decreases n,
{
    let k = unit.len() as int;
    if n > 0 {
        lemma_repeated_len(unit, (n - 1) as nat);
        assert(n * k == (n - 1) * k + k) by (nonlinear_arith);
    } else {
        assert(0 * k == 0) by (nonlinear_arith);
    }
}

/// A text set to the right: at least so wide, itself at the end, and blanks before it.
pub proof fn law_right_aligned(s: Seq<char>, w: int)
    ensures
        ({
            let t = text::right_aligned(s, w);
            &&& t.len() == if s.len() < w {
                w
            } else {
                s.len() as int
            }
            &&& t.subrange(t.len() - s.len(), t.len() as int) == s
            &&& forall|i: int| 0 <= i < t.len() - s.len() ==> #[trigger] t[i] == ' '
        }),
{
    reveal_strlit(" ");
    let k = text::shortfall(s.len() as int, w);
    lemma_repeated_len(" "@, k);
    let t = text::right_aligned(s, w);
    assert(t.subrange(t.len() - s.len(), t.len() as int) == s);
    assert forall|i: int| 0 <= i < t.len() - s.len() implies #[trigger] t[i] == ' ' by {
        assert(i < k * 1) by (nonlinear_arith)
            requires
                i < k,
        ;
        law_repeated(" "@, k, i);
        assert(t[i] == text::repeated(" "@, k)[i]);
    }
}

/// A negative number is written as a minus sign and its size.
pub proof fn law_signed_decimal(n: int)
    ensures
        n >= 0 ==> is_decimal(text::signed_decimal(n), n),
        n < 0 ==> exists|a: Seq<char>|
            #[trigger] is_decimal(a, -n) && text::signed_decimal(n) == "-"@ + a,
{
    if n >= 0 {
        law_decimal(n);
    } else {
        law_decimal(-n);
        assert(is_decimal(text::decimal(-n), -n));
    }
}

} // verus!
