//! What holds of the picker as a whole.
use vstd::prelude::*;
use vstd::utf8::*;
use vstd::arithmetic::power2::*;
use crate::app::{Channel, Slot, State};
use crate::args;
use crate::circle;
use crate::color;
use crate::color::{Hsv, Rgb};
use crate::contrast;
use crate::highlight;
use crate::hue;
use crate::keys;
use crate::lightness;
use crate::render;
use crate::rounding;
use crate::single::{Parts, Single};
use crate::text;

verus! {

/// The code of a colour stands for that colour, with its hash sign and without.
pub proof fn law_hex_there_and_back(c: Rgb)
    ensures
        color::cuts_cleanly(c.hex_code()),
        Rgb::of_hex_code(c.hex_code()) == Some(c),
        color::cuts_cleanly(c.hex_code().drop_first()),
        Rgb::of_hex_code(c.hex_code().drop_first()) == Some(c),
{
    let s = c.hex_code();
    let t = s.drop_first();
    assert forall|d: int| 0 <= d < 16 implies keys::hex_digit(#[trigger] text::digit(d)) by {}
    assert(keys::typed(t));
    keys::lemma_typed_bytes(t);
    assert(text::front_trimmed(s) == s);
    assert(keys::hex_digit(s.last()));
    assert(text::back_trimmed(s) == s);
    assert(keys::hex_digit(t[0]));
    assert(text::without_hashes(t) == t);
    assert(text::without_hashes(s) == t);
    assert(keys::hex_digit(t.last()));
    assert(text::front_trimmed(t) == t);
    assert(text::back_trimmed(t) == t);
    assert(color::code_bytes(s) == color::code_bytes(t));
}

/// A text without characters beyond the ASCII ones is read as a code or refused, never cut
/// inside a character.
pub proof fn law_plain_text_is_read(s: Seq<char>)
    requires
        is_ascii_chars(s),
    ensures
        color::cuts_cleanly(s),
{
    lemma_plain_front(s);
    lemma_plain_back(text::front_trimmed(s));
    lemma_plain_code(text::trimmed(s));
    color::lemma_ascii_cuts(text::without_hashes(text::trimmed(s)));
}

proof fn lemma_plain_front(s: Seq<char>)
    requires
        is_ascii_chars(s),
    ensures
        is_ascii_chars(text::front_trimmed(s)),
    decreases s.len(),
{
    if s.len() > 0 && text::white(s[0]) {
        assert(is_ascii_chars(s.drop_first()));
        lemma_plain_front(s.drop_first());
    }
}

proof fn lemma_plain_back(s: Seq<char>)
    requires
        is_ascii_chars(s),
    ensures
        is_ascii_chars(text::back_trimmed(s)),
    decreases s.len(),
{
    if s.len() > 0 && text::white(s.last()) {
        assert(is_ascii_chars(s.drop_last()));
        lemma_plain_back(s.drop_last());
    }
}

proof fn lemma_plain_code(s: Seq<char>)
    requires
        is_ascii_chars(s),
    ensures
        is_ascii_chars(text::without_hashes(s)),
    decreases s.len(),
{
    if s.len() > 0 && s[0] == '#' {
        assert(is_ascii_chars(s.drop_first()));
        lemma_plain_code(s.drop_first());
    }
}

/// A code of six hexadecimal digits, typed at the prompt, stands for a colour, and that
/// colour takes the place of the one that is edited.
pub proof fn law_typed_code_is_taken(s: State, code: Seq<char>)
    requires
        keys::typed(code),
        code.len() == 6,
    ensures
        Rgb::of_hex_code(code) is Some,
        s.after_code(code).current() == Rgb::of_hex_code(code)->0,
        s.after_code(code).editing == s.editing,
        s.editing == Slot::Fg ==> s.after_code(code).bg == s.bg,
        s.editing == Slot::Bg ==> s.after_code(code).fg == s.fg,
{
    keys::lemma_typed_bytes(code);
    assert(keys::hex_digit(code[0]) && keys::hex_digit(code[1]) && keys::hex_digit(code[2])
        && keys::hex_digit(code[3]) && keys::hex_digit(code[4]) && keys::hex_digit(code[5]));
}

/// A shorter code is refused: no colour changes.
pub proof fn law_short_code_is_refused(s: State, code: Seq<char>)
    requires
        keys::typed(code),
        code.len() < 6,
    ensures
        Rgb::of_hex_code(code) is None,
        s.after_code(code).fg == s.fg,
        s.after_code(code).bg == s.bg,
{
    keys::lemma_typed_bytes(code);
}

/// Leaving the prompt by the escape key changes nothing.
pub proof fn law_escape_changes_nothing(s: State, code: Seq<char>)
    ensures
        s.after_code(keys::after_press(code, "ESC"@)) == s,
        keys::ends_typing("ESC"@),
{
    reveal_strlit("ESC");
    reveal_strlit("ENTER");
    let none = Seq::<char>::empty();
    keys::lemma_typed_bytes(none);
    assert("ESC"@.len() != "ENTER"@.len());
    assert(keys::after_press(code, "ESC"@) == none);
    assert(color::code_bytes(none).len() == 0);
}

/// What is typed stays a code of at most six hexadecimal digits.
pub proof fn law_prompt_holds_digits(code: Seq<char>, key: Seq<char>)
    requires
        keys::typed(code),
    ensures
        keys::typed(keys::after_press(code, key)),
{
}

/// Pressing the tabulator twice leads back to the slot, with the colours as they were and
/// the status cleared.
pub proof fn law_tab_twice(s: State)
    ensures
        s.after_key("TAB"@).editing == keys::other_slot(s.editing),
        s.after_key("TAB"@).after_key("TAB"@) == (State { status: Seq::empty(), ..s }),
{
    keys::lemma_other_keys();
}

/// Four presses of the output key lead back to the output format.
pub proof fn law_output_goes_round(s: State)
    ensures
        s.after_key("o"@).after_key("o"@).after_key("o"@).after_key("o"@) == s,
{
    lemma_output_key(s);
    lemma_output_key(s.after_key("o"@));
    lemma_output_key(s.after_key("o"@).after_key("o"@));
    lemma_output_key(s.after_key("o"@).after_key("o"@).after_key("o"@));
}

/// What the output key does.
proof fn lemma_output_key(s: State)
    ensures
        s.after_key("o"@) == (State { out_fmt: keys::next_format(s.out_fmt), ..s }),
{
    keys::lemma_other_keys();
}

/// No key changes the colour that is not edited.
pub proof fn law_other_colour_is_kept(s: State, key: Seq<char>)
    ensures
        s.editing == Slot::Fg ==> s.after_key(key).bg == s.bg,
        s.editing == Slot::Bg ==> s.after_key(key).fg == s.fg,
{
}

/// Only the step keys change a colour.
pub proof fn law_only_steps_change_colours(s: State, key: Seq<char>)
    requires
        keys::step_key(key) is None,
    ensures
        s.after_key(key).fg == s.fg,
        s.after_key(key).bg == s.bg,
{
}

/// A step in one of the channels red, green and blue moves that level alone: by the whole
/// step, or to the end that the step would go beyond.
pub proof fn law_level_step(c: Rgb, channel: Channel, delta: int)
    requires
        channel is R || channel is G || channel is B,
    ensures
        ({
            let d = crate::app::moved(c, channel, delta);
            let n = crate::app::level_of(c, channel) + delta;
            &&& 0 <= n <= 255 ==> crate::app::level_of(d, channel) == n
            &&& n < 0 ==> crate::app::level_of(d, channel) == 0
            &&& n > 255 ==> crate::app::level_of(d, channel) == 255
            &&& channel is R || d.r == c.r
            &&& channel is G || d.g == c.g
            &&& channel is B || d.b == c.b
        }),
{
}

/// A step in one of those channels that meets no end is undone by the opposite step.
pub proof fn law_level_step_back(c: Rgb, channel: Channel, delta: int)
    requires
        channel is R || channel is G || channel is B,
        0 <= crate::app::level_of(c, channel) + delta <= 255,
    ensures
        crate::app::moved(crate::app::moved(c, channel, delta), channel, -delta) == c,
{
}

/// Hue, saturation and value of a colour stand for that colour.
pub proof fn law_hsv_there_and_back(c: Rgb)
    ensures
        c.hsv().rgb() == c,
{
    crate::circle::lemma_there_and_back(c);
}

/// The hue of a colour lies from 0 up to 360, its saturation and its value lie between 0
/// and 1.
pub proof fn law_hsv_ranges(c: Rgb)
    ensures
        circle::in_range(c.hsv()),
{
    let p = hue::lemma_hsv(c);
    let x = c.hsv();
    rounding::lemma_int_value(0);
    rounding::lemma_int_value(1);
    rounding::lemma_int_value(360);
    rounding::lemma_value_order(Single::of_int(0), x.h);
    rounding::lemma_value_order(x.h, Single::of_int(360));
    rounding::lemma_value_order(Single::of_int(0), x.s);
    rounding::lemma_value_order(x.s, Single::of_int(1));
    rounding::lemma_value_order(Single::of_int(0), x.v);
    rounding::lemma_value_order(x.v, Single::of_int(1));
}

/// Hue, saturation and value stay in their ranges when one of them is stepped.
pub proof fn law_stepped_ranges(c: Rgb, delta: i32)
    ensures
        circle::in_range(Hsv { h: crate::app::moved_hue(c.hsv().h, delta as int), ..c.hsv() }),
        circle::in_range(Hsv { s: crate::app::moved_share(c.hsv().s, delta as int), ..c.hsv() }),
        circle::in_range(Hsv { v: crate::app::moved_share(c.hsv().v, delta as int), ..c.hsv() }),
{
    law_hsv_ranges(c);
    circle::lemma_in_range(c.hsv());
    let x = c.hsv();
    rounding::lemma_int_value(0);
    rounding::lemma_int_value(1);
    rounding::lemma_int_rank(0);
    rounding::lemma_int_rank(1);
    rounding::lemma_int_rank(360);
    rounding::lemma_units_steps();
    rounding::lemma_moved_angle(x.h, delta);
    circle::lemma_turned_up(x.h.sum(Single::of_int(delta as int)));
    circle::lemma_turned_down(x.h.sum(Single::of_int(delta as int)).turned_up());
    lemma_share_step(x.s, delta);
    lemma_share_step(x.v, delta);
}

/// A share can be moved by any number of hundredths.
proof fn lemma_share_step(s: Single, delta: i32)
    requires
        s.is_finite(),
    ensures
        !s.sum(Single::of_int(delta as int).quotient(Single::of_int(100))).is_nan(),
{
    lemma_int_share(delta, 100);
    let z = rounding::exact_sum(s, Single::of_int(delta as int).quotient(Single::of_int(100)));
}

/// A saturation of nothing gives a grey; a full one leaves one of the three colours out.
pub proof fn law_saturation_ends(x: Hsv)
    requires
        circle::in_range(x),
    ensures
        x.s.equals(Single::of_int(0)) ==> x.rgb().r == x.rgb().g && x.rgb().g == x.rgb().b,
        x.s.equals(Single::of_int(1)) ==> x.rgb().r == 0 || x.rgb().g == 0 || x.rgb().b == 0,
{
    rounding::lemma_int_value(0);
    rounding::lemma_int_value(1);
    circle::lemma_ends(x);
    if x.s.equals(Single::of_int(0)) {
        circle::lemma_grey(x);
    }
}

/// A value of nothing gives black; a full one brings one of the three colours to its full
/// level.
pub proof fn law_value_ends(x: Hsv)
    requires
        circle::in_range(x),
    ensures
        x.v.equals(Single::of_int(0)) ==> x.rgb() == (Rgb { r: 0, g: 0, b: 0 }),
        x.v.equals(Single::of_int(1)) ==> x.rgb().r == 255 || x.rgb().g == 255 || x.rgb().b == 255,
{
    rounding::lemma_int_value(0);
    rounding::lemma_int_value(1);
    circle::lemma_ends(x);
}

/// The contrast of two colours does not depend on which comes first.
pub proof fn law_contrast_is_symmetric(a: Rgb, b: Rgb, powers: Seq<Single>)
    ensures
        contrast::contrast(a, b, powers) == contrast::contrast(b, a, powers),
{
    lemma_ratio_symmetric(
        a.brightness(powers).sum(Single::of_ratio(5, 100)),
        b.brightness(powers).sum(Single::of_ratio(5, 100)),
    );
}

/// The larger of two numbers over the smaller one.
proof fn lemma_ratio_symmetric(x: Single, y: Single)
    ensures
        (if y.below(x) {
            x.quotient(y)
        } else {
            y.quotient(x)
        }) == (if x.below(y) {
            y.quotient(x)
        } else {
            x.quotient(y)
        }),
{
    if !x.below(y) && !y.below(x) {
        if x.is_nan() || y.is_nan() {
            assert(x.quotient(y) == Single::nan());
            assert(y.quotient(x) == Single::nan());
        } else {
            rounding::lemma_equal_rank(x, y);
            if x.rank() == 0 {
                lemma_zero_rank(x);
                lemma_zero_rank(y);
            }
        }
    }
}

/// A number of rank zero is a zero.
proof fn lemma_zero_rank(x: Single)
    requires
        !x.is_nan(),
        x.rank() == 0,
    ensures
        x.parts() matches Parts::Finite { sig, .. } && sig == 0,
{
    lemma_pow2_pos(277);
    assert(x.is_finite());
    rounding::lemma_finite_rank(x);
    let (neg, sig, exp) = (x.parts()->Finite_neg, x.parts()->sig as int, x.parts()->exp as int);
    rounding::lemma_units_double(exp);
    let u = rounding::units(exp);
    assert(sig == 0) by (nonlinear_arith)
        requires
            (if neg {
                -sig
            } else {
                sig
            }) * u == 0,
            u > 0,
    ;
}

/// No contrast is below one.
pub proof fn law_contrast_is_at_least_one(a: Rgb, b: Rgb, powers: Seq<Single>)
    requires
        lightness::sound_powers(powers),
    ensures
        Single::of_int(1).at_most(contrast::contrast(a, b, powers)),
{
    let twentieth = Single::of_ratio(5, 100);
    lightness::lemma_ratio_between(5, 100, 0, 1);
    lightness::lemma_brightness(a, powers);
    lightness::lemma_brightness(b, powers);
    let (x, y) = (a.brightness(powers), b.brightness(powers));
    let (la, lb) = (x.sum(twentieth), y.sum(twentieth));
    rounding::lemma_tiny_values();
    lightness::lemma_twentieth();
    rounding::lemma_sum_value(x, twentieth, -20);
    rounding::lemma_sum_value(y, twentieth, -20);
    rounding::lemma_value_order(la, lb);
    rounding::lemma_value_order(lb, la);
    if lb.below(la) {
        lightness::lemma_quotient_at_least_one(la, lb);
    } else {
        lightness::lemma_quotient_at_least_one(lb, la);
    }
}

/// For powers between zero and one luminance lies between zero, that of black, and one,
/// that of white, but for what rounding adds; so does the contrast between one and 21.
pub proof fn law_luminance_and_contrast_ends(a: Rgb, b: Rgb, powers: Seq<Single>)
    requires
        lightness::sound_powers(powers),
    ensures
        Single::of_int(0).at_most(a.brightness(powers)),
        a.brightness(powers).at_most(Single::of_ratio(100001, 100000)),
        Single::of_int(1).at_most(contrast::contrast(a, b, powers)),
        contrast::contrast(a, b, powers).at_most(Single::of_ratio(21001, 1000)),
{
    lightness::lemma_luminance_ends(a, powers);
    law_contrast_is_at_least_one(a, b, powers);
    lightness::lemma_contrast_end(a, b, powers);
}

/// The picker begins where its options leave it: they have no part in the colours.
pub proof fn law_options_keep_colours(
    s: State,
    t: State,
    list: Seq<String>,
    i: int,
    before: nat,
)
    requires
        s.fg == t.fg,
        s.bg == t.bg,
    ensures
        args::after_args(s, list, i, before) is Some == args::after_args(
            t,
            list,
            i,
            before,
        ) is Some,
        args::after_args(s, list, i, before) is Some ==> args::after_args(s, list, i, before)->0.fg
            == args::after_args(t, list, i, before)->0.fg && args::after_args(
            s,
            list,
            i,
            before,
        )->0.bg == args::after_args(t, list, i, before)->0.bg,
    decreases list.len() - i,
{
    if i < list.len() && !args::asks_help(list[i]@) {
        match args::after_option(s, list[i]@) {
            Some(u) => {
                law_options_keep_colours(
                    u,
                    args::after_option(t, list[i]@)->0,
                    list,
                    i + 1,
                    before,
                );
            },
            None => {
                law_options_keep_colours(
                    args::after_colour(s, list[i]@, before),
                    args::after_colour(t, list[i]@, before),
                    list,
                    i + 1,
                    before + 1,
                );
            },
        }
    }
}

/// Help is given where any argument asks for it, and only there.
pub proof fn law_help(s: State, list: Seq<String>, i: int, before: nat)
    requires
        0 <= i,
    ensures
        args::after_args(s, list, i, before) is None <==> exists|j: int|
            i <= j < list.len() && args::asks_help(#[trigger] list[j]@),
    decreases list.len() - i,
{
    if i < list.len() && !args::asks_help(list[i]@) {
        match args::after_option(s, list[i]@) {
            Some(t) => law_help(t, list, i + 1, before),
            None => law_help(
                args::after_colour(s, list[i]@, before),
                list,
                i + 1,
                before + 1,
            ),
        }
    }
}

/// A slider is empty at zero and below, and full at its end and above; between them a
/// larger value never fills fewer cells.
pub proof fn law_slider(a: i32, b: i32, max: i32)
    requires
        0 < max,
        a <= b,
    ensures
        0 <= render::full_cells(a as int, max as int) <= render::full_cells(b as int, max as int)
            <= 22,
        a <= 0 ==> render::full_cells(a as int, max as int) == 0,
        b >= max ==> render::full_cells(b as int, max as int) == 22,
{
    lemma_cells_order(a, b, max);
    lemma_full_slider(max);
    if b >= max {
        lemma_cells_order(max, b, max);
    }
}

/// The share that one integer is of another.
pub proof fn lemma_int_share(a: i32, max: i32)
    requires
        0 < max,
    ensures
        Single::of_int(max as int).is_finite(),
        Single::of_int(max as int).rank() >= rounding::one(),
        Single::of_int(a as int).is_finite(),
        a >= 0 ==> Single::of_int(a as int).rank() >= 0,
        a <= 0 ==> Single::of_int(a as int).rank() <= 0,
        Single::of_int(a as int).quotient(Single::of_int(max as int)).is_finite(),
        a >= 0 ==> Single::of_int(a as int).quotient(Single::of_int(max as int)).rank() >= 0,
        a <= 0 ==> Single::of_int(a as int).quotient(Single::of_int(max as int)).rank() <= 0,
{
    let (x, m) = (Single::of_int(a as int), Single::of_int(max as int));
    let o = rounding::one();
    rounding::lemma_units_steps();
    rounding::lemma_int_rank(0);
    rounding::lemma_int_rank(1);
    rounding::lemma_large_int(a);
    rounding::lemma_large_int(max);
    rounding::lemma_int_order(1, max as int);
    if a >= 0 {
        rounding::lemma_int_order(0, a as int);
    }
    if a <= 0 {
        rounding::lemma_int_order(a as int, 0);
    }
    let q = x.quotient(m);
    let r = rounding::exact_quotient(x, m);
    let top = rounding::signed_exact(1, 31);
    let low = rounding::signed_exact(-1, 31);
    let zero = Single::of_int(0);
    lemma2_to64();
    rounding::lemma_units_grow(0, 31);
    assert(rounding::units(31) == 0x8000_0000 * o) by (nonlinear_arith)
        requires
            rounding::units(31) == rounding::units(0) * pow2(31),
            rounding::units(0) == o,
            pow2(31) == 0x8000_0000,
    ;
    assert(x.rank() * o <= top.rank() * m.rank()) by (nonlinear_arith)
        requires
            x.rank() <= top.rank(),
            top.rank() > 0,
            m.rank() >= o,
            o > 0,
    {
        assert(x.rank() * o <= top.rank() * o);
        assert(top.rank() * o <= top.rank() * m.rank());
    }
    assert(low.rank() * m.rank() <= x.rank() * o) by (nonlinear_arith)
        requires
            low.rank() <= x.rank(),
            low.rank() < 0,
            m.rank() >= o,
            o > 0,
    {
        assert(low.rank() * o <= x.rank() * o);
        assert(low.rank() * m.rank() <= low.rank() * o);
    }
    rounding::lemma_bounds(r, q, x.rank() * o, m.rank(), top);
    rounding::lemma_bounds(r, q, x.rank() * o, m.rank(), low);
    rounding::lemma_bounds(r, q, x.rank() * o, m.rank(), zero);
    assert(x.rank() >= 0 ==> x.rank() * o >= 0) by (nonlinear_arith)
        requires
            o > 0,
    ;
    assert(x.rank() <= 0 ==> x.rank() * o <= 0) by (nonlinear_arith)
        requires
            o > 0,
    ;
    assert(zero.rank() * m.rank() == 0) by (nonlinear_arith)
        requires
            zero.rank() == 0,
    ;
    rounding::lemma_small_is_finite(q);
}

/// Sliders are filled in the order of their values.
proof fn lemma_cells_order(a: i32, b: i32, max: i32)
    requires
        0 < max,
        a <= b,
    ensures
        0 <= render::full_cells(a as int, max as int) <= render::full_cells(b as int, max as int)
            <= 22,
        a <= 0 ==> render::full_cells(a as int, max as int) == 0,
{
    lemma_int_share(a, max);
    lemma_int_share(b, max);
    rounding::lemma_int_order(a as int, b as int);
    rounding::lemma_units_steps();
    rounding::lemma_int_rank(0);
    rounding::lemma_int_rank(22);
    let o = rounding::one();
    let (x, y, m) = (
        Single::of_int(a as int),
        Single::of_int(b as int),
        Single::of_int(max as int),
    );
    let zero = Single::of_int(0);
    let width = Single::of_int(22);
    let (p, q) = (x.quotient(m), y.quotient(m));
    let (rp, rq) = (rounding::exact_quotient(x, m), rounding::exact_quotient(y, m));
    let (s, t) = (p.product(width), q.product(width));
    let (rs, rt) = (rounding::exact_product(p, width), rounding::exact_product(q, width));
    let w = width.rank();
    rounding::lemma_counted(s, s, 22);
    rounding::lemma_counted(t, t, 22);
    if a <= 0 {
        assert(p.rank() * w <= 0) by (nonlinear_arith)
            requires
                p.rank() <= 0,
                w == 22 * o,
                o > 0,
        ;
        assert(zero.rank() * o == 0) by (nonlinear_arith)
            requires
                zero.rank() == 0,
        ;
        rounding::lemma_bounds(rs, s, p.rank() * w, o, zero);
    } else {
        assert(0 <= x.rank() * o && (x.rank() * o) * m.rank() <= (y.rank() * o) * m.rank())
            by (nonlinear_arith)
            requires
                0 <= x.rank() <= y.rank(),
                o > 0,
                m.rank() > 0,
        {
            assert(x.rank() * o <= y.rank() * o);
        }
        rounding::lemma_ordered(rp, p, x.rank() * o, m.rank(), rq, q, y.rank() * o, m.rank());
        assert(0 <= p.rank() * w && (p.rank() * w) * o <= (q.rank() * w) * o) by (nonlinear_arith)
            requires
                0 <= p.rank() <= q.rank(),
                o > 0,
                w == 22 * o,
        {
            assert(p.rank() * w <= q.rank() * w);
        }
        rounding::lemma_ordered(rs, s, p.rank() * w, o, rt, t, q.rank() * w, o);
        rounding::lemma_counted(s, t, 22);
    }
}

/// A slider is full at its end.
proof fn lemma_full_slider(max: i32)
    requires
        0 < max,
    ensures
        render::full_cells(max as int, max as int) == 22,
{
    lemma_int_share(max, max);
    rounding::lemma_int_value(0);
    rounding::lemma_int_rank(0);
    rounding::lemma_int_value(1);
    rounding::lemma_int_value(22);
    rounding::lemma_int_rank(22);
    rounding::lemma_tiny_values();
    rounding::lemma_units_steps();
    let m = Single::of_int(max as int);
    rounding::lemma_value_order(Single::of_int(0), m);
    let v = rounding::value(m);
    assert(v / v == 1 as real) by (nonlinear_arith)
        requires
            v > 0 as real,
    ;
    let width = Single::of_int(22);
    let q = m.quotient(m);
    rounding::lemma_quotient_side(m, m, Single::of_int(1));
    assert(rounding::value(q) * rounding::value(width) == 22 as real);
    rounding::lemma_product_value(q, width, -17);
    rounding::lemma_product_side(q, width, width);
    let x = q.product(width);
    rounding::lemma_value_order(x, width);
    rounding::lemma_value_order(width, x);
    rounding::lemma_half_up(x);
    rounding::lemma_counted(x, x, 22);
    let o = rounding::one();
    vstd::arithmetic::div_mod::lemma_fundamental_div_mod_converse(2 * x.rank() + o, 2 * o, 22, o);
    lemma_positive_sign(x);
}

/// A positive number has no minus sign.
pub proof fn lemma_positive_sign(x: Single)
    requires
        x.is_finite(),
        x.rank() > 0,
    ensures
        x.parts() matches Parts::Finite { neg, .. } && !neg,
{
    rounding::lemma_finite_rank(x);
    let (neg, sig, exp) = (x.parts()->Finite_neg, x.parts()->sig as int, x.parts()->exp as int);
    rounding::lemma_units_double(exp);
    let u = rounding::units(exp);
    assert(!neg) by (nonlinear_arith)
        requires
            (if neg {
                -sig
            } else {
                sig
            }) * u > 0,
            sig >= 0,
            u > 0,
    ;
}

/// A sum is as near to the exact one as any number can be.
pub proof fn law_sum_is_nearest(x: Single, y: Single, b: Single)
    requires
        x.is_finite(),
        y.is_finite(),
        b.is_finite(),
        x.sum(y).is_finite(),
    ensures
        rounding::apart(x.sum(y).rank(), x.rank() + y.rank()) <= rounding::apart(
            b.rank(),
            x.rank() + y.rank(),
        ),
{
    let r = rounding::exact_sum(x, y);
    rounding::lemma_distance(r, x.sum(y), x.rank() + y.rank(), 1, b);
}

/// A product is as near to the exact one as any number can be; ranks count in units of the
/// rank of one.
pub proof fn law_product_is_nearest(x: Single, y: Single, b: Single)
    requires
        x.is_finite(),
        y.is_finite(),
        b.is_finite(),
        x.product(y).is_finite(),
    ensures
        rounding::apart(x.product(y).rank() * rounding::one(), x.rank() * y.rank())
            <= rounding::apart(b.rank() * rounding::one(), x.rank() * y.rank()),
{
    let r = rounding::exact_product(x, y);
    rounding::lemma_distance(r, x.product(y), x.rank() * y.rank(), rounding::one(), b);
}

/// A quotient is as near to the exact one as any number can be: times the divisor it
/// comes as near to the dividend.
pub proof fn law_quotient_is_nearest(x: Single, y: Single, b: Single)
    requires
        x.is_finite(),
        y.is_finite(),
        y.rank() != 0,
        b.is_finite(),
        x.quotient(y).is_finite(),
    ensures
        rounding::apart(x.quotient(y).rank() * y.rank(), x.rank() * rounding::one())
            <= rounding::apart(b.rank() * y.rank(), x.rank() * rounding::one()),
{
    let o = rounding::one();
    let z = x.quotient(y);
    if y.rank() > 0 {
        let r = rounding::exact_quotient(x, y);
        rounding::lemma_distance(r, z, x.rank() * o, y.rank(), b);
    } else {
        let (p, q) = (x.negated(), y.negated());
        rounding::lemma_rank_sign(x);
        rounding::lemma_rank_sign(y);
        rounding::lemma_finite_sign(x);
        rounding::lemma_finite_sign(y);
        rounding::lemma_negated_parts(x);
        rounding::lemma_negated_parts(y);
        assert(p.quotient(q) == z);
        let r = rounding::exact_quotient(p, q);
        rounding::lemma_distance(r, z, p.rank() * o, q.rank(), b);
        let (w, k, n, d) = (z.rank(), b.rank(), x.rank(), y.rank());
        assert(w * -d == -(w * d) && k * -d == -(k * d) && -n * o == -(n * o))
            by (nonlinear_arith);
    }
}

/// The contrast of a colour with itself is one where its luminance, raised by a twentieth,
/// is finite and not zero, whatever the powers; elsewhere it is no number.
pub proof fn law_contrast_with_itself(c: Rgb, powers: Seq<Single>)
    ensures
        ({
            let l = c.brightness(powers).sum(Single::of_ratio(5, 100));
            if l.is_finite() && l.rank() != 0 {
                contrast::contrast(c, c, powers) == Single::of_int(1)
            } else {
                contrast::contrast(c, c, powers).is_nan()
            }
        }),
{
    let l = c.brightness(powers).sum(Single::of_ratio(5, 100));
    if l.is_finite() {
        rounding::lemma_finite_rank(l);
        let (neg, sig, exp) = (l.parts()->Finite_neg, l.parts()->sig as int, l.parts()->exp as int);
        if l.rank() == 0 {
            lemma_zero_rank(l);
        } else {
            if sig == 0 {
                vstd::arithmetic::mul::lemma_mul_basics(rounding::units(exp));
            }
            let one = Single::of_int(1);
            rounding::lemma_int_rank(1);
            rounding::lemma_units_steps();
            rounding::lemma_exact(1, 0);
            rounding::lemma_nearest_bounds(sig, sig, 0, one);
            vstd::arithmetic::mul::lemma_mul_is_commutative(sig, rounding::one());
            rounding::lemma_equal_rank(Single::nearest(false, sig, sig, 0), one);
        }
    }
}

/// For powers between zero and one the contrast of every colour with itself is one.
pub proof fn law_contrast_with_itself_is_one(c: Rgb, powers: Seq<Single>)
    requires
        lightness::sound_powers(powers),
    ensures
        contrast::contrast(c, c, powers) == Single::of_int(1),
{
    let x = c.brightness(powers);
    let twentieth = Single::of_ratio(5, 100);
    lightness::lemma_ratio_between(5, 100, 0, 1);
    lightness::lemma_brightness(c, powers);
    lightness::lemma_twentieth();
    rounding::lemma_tiny_values();
    rounding::lemma_sum_value(x, twentieth, -20);
    rounding::lemma_int_value(0);
    rounding::lemma_int_rank(0);
    rounding::lemma_value_order(Single::of_int(0), x.sum(twentieth));
    law_contrast_with_itself(c, powers);
}

/// A step in hue leaves a grey as it is.
pub proof fn law_grey_has_no_hue(c: Rgb, delta: i32)
    requires
        c.r == c.g,
        c.g == c.b,
    ensures
        crate::app::moved(c, Channel::H, delta as int) == c,
{
    law_hsv_ranges(c);
    law_stepped_ranges(c, delta);
    law_hsv_there_and_back(c);
    let x = c.hsv();
    let y = Hsv { h: crate::app::moved_hue(x.h, delta as int), ..x };
    let mx = Rgb::share(c.r);
    let d = mx.difference(mx);
    hue::lemma_share(c.r);
    rounding::lemma_int_value(0);
    rounding::lemma_int_rank(0);
    rounding::lemma_difference_odd(mx, mx);
    rounding::lemma_finite_sign(mx);
    rounding::lemma_tiny_values();
    rounding::lemma_value_order(mx, mx);
    rounding::lemma_sum_value(mx, mx.negated(), -23);
    let zero = Single::of_int(0);
    assert(x.v == mx);
    if mx.equals(zero) {
        assert(x.s == zero);
    } else {
        assert(x.s == d.quotient(mx));
        rounding::lemma_value_order(zero, mx);
        rounding::lemma_value_order(mx, zero);
        rounding::lemma_value_order(zero, d);
        rounding::lemma_value_order(d, zero);
        let v = rounding::value(mx);
        assert((0 as real) / v == 0 as real) by (nonlinear_arith)
            requires
                v > 0 as real,
        ;
        rounding::lemma_quotient_side(d, mx, zero);
    }
    circle::lemma_grey(x);
    circle::lemma_grey(y);
}

/// The codes of two colours, given as the arguments, preload the foreground and the
/// background.
pub proof fn law_codes_preload(a: Rgb, b: Rgb, list: Seq<String>)
    requires
        list.len() == 2,
        list[0]@ == a.hex_code(),
        list[1]@ == b.hex_code(),
    ensures
        args::codes_cut(list, 0),
        args::after_args(args::defaults(), list, 0, 0) == Some(
            State { fg: a, bg: b, ..args::defaults() },
        ),
{
    lemma_code_is_no_option(a, args::defaults());
    lemma_code_is_no_option(b, State { fg: a, ..args::defaults() });
    lemma_code_is_no_option(b, args::defaults());
    law_hex_there_and_back(a);
    law_hex_there_and_back(b);
    reveal_with_fuel(args::codes_cut, 3);
    reveal_with_fuel(args::after_args, 3);
}

proof fn lemma_code_is_no_option(c: Rgb, s: State)
    ensures
        !args::asks_help(c.hex_code()),
        args::after_option(s, c.hex_code()) is None,
        args::code_shaped(c.hex_code()),
{
    reveal_strlit("-h");
    reveal_strlit("--help");
    reveal_strlit("--pick");
    reveal_strlit("--pair");
    reveal_strlit("--rgb");
    reveal_strlit("--hsv");
    reveal_strlit("--hex");
    reveal_strlit("--all");
    assert(c.hex_code()[0] == '#');
    assert("-h"@[0] == '-');
    assert("--help"@[0] == '-');
    assert("--pick"@[0] == '-');
    assert("--pair"@[0] == '-');
    assert("--rgb"@[0] == '-');
    assert("--hsv"@[0] == '-');
    assert("--hex"@[0] == '-');
    assert("--all"@[0] == '-');
}

/// On every screen whose status line has no escape character, exactly one name is written
/// in the style of a slider with the focus: that of the slider of the channel.
pub proof fn law_one_bright_slider(s: State, cols: u16, rows: u16, powers: Seq<Single>)
    requires
        s.status.len() == 0 || rows >= 3,
        forall|i: int| 0 <= i < s.status.len() ==> #[trigger] s.status[i] != '\x1b',
    ensures
        highlight::occurrences(
            render::screen(s, cols, rows, powers),
            highlight::bright(),
        ) == 1,
        exists|i: int|
            highlight::occurs_at(
                render::screen(s, cols, rows, powers),
                i,
                highlight::bright() + highlight::slider_head(highlight::letter(s.channel)),
            ),
{
    assert(highlight::calm(s.status)) by {
        reveal(highlight::calm);
    }
    highlight::lemma_screen(s, cols, rows, powers);
    highlight::lemma_lit_once(
        render::screen(s, cols, rows, powers),
        highlight::letter(s.channel),
    );
}

/// Exchanging green and blue keeps saturation and value and mirrors the hue: a hue of zero
/// stays zero, and two others add up to a full turn, within a thousandth of a degree.
pub proof fn law_mirrored_hue(c: Rgb)
    ensures
        ({
            let (x, y) = (c.hsv(), (Rgb { r: c.r, g: c.b, b: c.g }).hsv());
            let zero = Single::of_int(0);
            &&& x.s == y.s
            &&& x.v == y.v
            &&& x.h.equals(zero) ==> y.h.equals(zero)
            &&& zero.below(x.h) ==> zero.below(y.h)
            &&& zero.below(x.h) ==> x.h.sum(y.h).difference(
                Single::of_int(360),
            ).magnitude().below(Single::of_ratio(1, 1000))
        }),
{
    let m = hue::mirrored(c);
    let (x, y) = (c.hsv(), m.hsv());
    let zero = Single::of_int(0);
    law_hsv_ranges(c);
    law_hsv_ranges(m);
    circle::lemma_in_range(x);
    circle::lemma_in_range(y);
    rounding::lemma_int_value(0);
    rounding::lemma_tiny_values();
    rounding::lemma_value_order(x.h, zero);
    rounding::lemma_value_order(zero, x.h);
    rounding::lemma_value_order(y.h, zero);
    rounding::lemma_value_order(zero, y.h);
    if c.g > c.b {
        hue::lemma_mirrored_hue(c);
    } else if c.g < c.b {
        hue::lemma_mirrored_hue(m);
        assert(hue::mirrored(m) == c);
    } else {
        hue::lemma_even_hue(c);
        assert(m == c);
    }
    if zero.below(x.h) {
        let turn = Single::of_int(360);
        rounding::lemma_int_value(360);
        rounding::lemma_sum_value(x.h, y.h, -14);
        let t = x.h.sum(y.h);
        rounding::lemma_finite_sign(turn);
        rounding::lemma_value_order(turn, turn);
        rounding::lemma_sum_value(t, turn.negated(), -23);
        let d = t.difference(turn);
        circle::lemma_magnitude_value(d);
        rounding::lemma_finite_sign(d);
        lightness::lemma_thousandth();
        rounding::lemma_value_order(d.magnitude(), Single::of_ratio(1, 1000));
    }
}

/// A colour is brighter than every other one whose levels are all at most as high, for
/// powers that rise by `2^-14` at least with each level.
pub proof fn law_luminance_rises(a: Rgb, b: Rgb, powers: Seq<Single>)
    requires
        lightness::rising_powers(powers),
        a.r <= b.r,
        a.g <= b.g,
        a.b <= b.b,
        a.r < b.r || a.g < b.g || a.b < b.b,
    ensures
        a.brightness(powers).below(b.brightness(powers)),
{
    lightness::lemma_brightness_rises(a, b, powers);
}

/// A colour is at least as bright as every one whose levels are all at most as high, for
/// powers that do not fall. Where they rise by less than the last place of a luminance,
/// the two can be equal.
pub proof fn law_luminance_keeps_order(a: Rgb, b: Rgb, powers: Seq<Single>)
    requires
        lightness::ordered_powers(powers),
        a.r <= b.r,
        a.g <= b.g,
        a.b <= b.b,
    ensures
        a.brightness(powers).at_most(b.brightness(powers)),
{
    lightness::lemma_brightness_order(a, b, powers);
}

/// At one level green alone is brighter than red alone, and red alone brighter than blue
/// alone, where the light of the level lies between `2^-145` and one.
pub proof fn law_weights(level: u8, powers: Seq<Single>)
    requires
        contrast::light(level, powers).at_most(Single::of_int(1)),
        contrast::light(level, powers).rank() >= 16,
    ensures
        (Rgb { r: level, g: 0, b: 0 }).brightness(powers).below(
            (Rgb { r: 0, g: level, b: 0 }).brightness(powers),
        ),
        (Rgb { r: 0, g: 0, b: level }).brightness(powers).below(
            (Rgb { r: level, g: 0, b: 0 }).brightness(powers),
        ),
{
    lightness::lemma_weight_order(level, powers);
}

/// The same of every level above zero, for powers that rise.
pub proof fn law_weights_of_rising_powers(level: u8, powers: Seq<Single>)
    requires
        lightness::rising_powers(powers),
        level > 0,
    ensures
        (Rgb { r: level, g: 0, b: 0 }).brightness(powers).below(
            (Rgb { r: 0, g: level, b: 0 }).brightness(powers),
        ),
        (Rgb { r: 0, g: 0, b: level }).brightness(powers).below(
            (Rgb { r: level, g: 0, b: 0 }).brightness(powers),
        ),
{
    lightness::lemma_some_light(level, powers);
    law_weights(level, powers);
}

/// A step of nothing changes nothing, in any channel.
pub proof fn law_no_step(c: Rgb, channel: Channel)
    ensures
        crate::app::moved(c, channel, 0) == c,
{
    let p = hue::lemma_hsv(c);
    let x = c.hsv();
    let zero = Single::of_int(0);
    let one = Single::of_int(1);
    rounding::lemma_tiny_values();
    rounding::lemma_int_value(0);
    rounding::lemma_int_rank(0);
    rounding::lemma_int_value(1);
    rounding::lemma_int_rank(1);
    rounding::lemma_int_value(100);
    rounding::lemma_int_value(360);
    rounding::lemma_int_rank(360);
    rounding::lemma_units_steps();
    if channel is H {
        let h = x.h.sum(zero);
        rounding::lemma_sum_side(x.h, zero, x.h);
        rounding::lemma_sum_value(x.h, zero, -14);
        rounding::lemma_value_order(zero, h);
        rounding::lemma_value_order(Single::of_int(360), h);
        rounding::lemma_value_order(h, Single::of_int(360));
        assert(h.turned_up() == h);
        assert(h.turned_down() == h);
        circle::lemma_close_hue(c, Hsv { h, ..x });
    } else if channel is S || channel is V {
        let q = zero.quotient(Single::of_int(100));
        assert((0 as real) / 100 as real == 0 as real);
        rounding::lemma_quotient_value(zero, Single::of_int(100), -23);
        rounding::lemma_quotient_side(zero, Single::of_int(100), zero);
        lemma_share_kept(x.s, q);
        lemma_share_kept(x.v, q);
        if channel is S {
            circle::lemma_close_hue(c, Hsv { s: crate::app::moved_share(x.s, 0), ..x });
        } else {
            circle::lemma_close_hue(c, Hsv { v: crate::app::moved_share(x.v, 0), ..x });
        }
    }
}

/// A share moved by nothing.
proof fn lemma_share_kept(s: Single, nothing: Single)
    requires
        s.is_finite(),
        0 as real <= rounding::value(s) <= 1 as real,
        nothing.is_finite(),
        rounding::value(nothing) == 0 as real,
    ensures
        ({
            let t = s.sum(nothing).within(Single::of_int(0), Single::of_int(1));
            t.is_finite() && rounding::value(t) == rounding::value(s)
        }),
{
    let t = s.sum(nothing);
    rounding::lemma_tiny_values();
    rounding::lemma_int_value(0);
    rounding::lemma_int_value(1);
    rounding::lemma_sum_side(s, nothing, s);
    rounding::lemma_sum_value(s, nothing, -23);
    rounding::lemma_value_order(t, Single::of_int(0));
    rounding::lemma_value_order(Single::of_int(1), t);
}

/// A full turn of the hue, in either direction, leads back to the colour.
pub proof fn law_full_turn(c: Rgb)
    ensures
        crate::app::moved(c, Channel::H, 360) == c,
        crate::app::moved(c, Channel::H, -360) == c,
{
    let p = hue::lemma_hsv(c);
    let x = c.hsv();
    circle::lemma_full_turn(x.h);
    circle::lemma_close_hue(c, Hsv { h: crate::app::moved_hue(x.h, 360), ..x });
    circle::lemma_close_hue(c, Hsv { h: crate::app::moved_hue(x.h, -360), ..x });
}

/// A step in hue keeps the largest and the smallest level.
pub proof fn law_hue_step_keeps_outer_levels(c: Rgb, delta: i32)
    ensures
        circle::largest(crate::app::moved(c, Channel::H, delta as int)) == circle::largest(c),
        circle::smallest(crate::app::moved(c, Channel::H, delta as int)) == circle::smallest(c),
{
    let x = c.hsv();
    law_hsv_ranges(c);
    law_stepped_ranges(c, delta);
    law_hsv_there_and_back(c);
    circle::lemma_outer_levels(x);
    circle::lemma_outer_levels(Hsv { h: crate::app::moved_hue(x.h, delta as int), ..x });
}

} // verus!
