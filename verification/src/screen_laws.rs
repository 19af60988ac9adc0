//! What stands on the screen.
use vstd::prelude::*;
use vstd::arithmetic::power2::*;
use crate::ansi;
use crate::ansi::RESET;
use crate::app::{Channel, OutputFmt, Slot, State};
use crate::color::Rgb;
use crate::contrast;
use crate::highlight;
use crate::hue;
use crate::laws;
use crate::nearest_laws;
use crate::render;
use crate::rounding;
use crate::single::Single;
use crate::text;
use crate::text_laws;

verus! {

/// The full cells of a slider are its share of 22, to the nearest whole one.
pub proof fn law_cells(value: int, max: int)
    requires
        0 <= value <= max,
        0 < max < 0x100_0000,
    ensures
        hue::within(
            render::full_cells(value, max) as real,
            22 as real * (value as real / max as real),
            1 as real / 2 as real + 1 as real / 1024 as real,
        ),
{
    let (x, m, width) = (Single::of_int(value), Single::of_int(max), Single::of_int(22));
    rounding::lemma_tiny_values();
    rounding::lemma_units_steps();
    rounding::lemma_int_value(0);
    rounding::lemma_int_rank(0);
    rounding::lemma_int_value(1);
    rounding::lemma_int_value(22);
    rounding::lemma_int_rank(22);
    rounding::lemma_int_value(value);
    rounding::lemma_int_value(max);
    let (a, b) = (value as real, max as real);
    let r = a / b;
    assert(0 as real <= r <= 1 as real) by (nonlinear_arith)
        requires
            r == a / b,
            0 as real <= a <= b,
            b > 0 as real,
    ;
    let q = x.quotient(m);
    rounding::lemma_quotient_value(x, m, -23);
    rounding::lemma_quotient_side(x, m, Single::of_int(0));
    rounding::lemma_quotient_side(x, m, Single::of_int(1));
    let v = rounding::value(q);
    assert(rounding::value(q) * rounding::value(width) == 22 as real * v);
    let p = q.product(width);
    rounding::lemma_product_value(q, width, -18);
    rounding::lemma_product_side(q, width, Single::of_int(0));
    rounding::lemma_product_side(q, width, width);
    rounding::lemma_value_order(Single::of_int(0), p);
    rounding::lemma_value_order(p, width);
    rounding::lemma_counted(p, width, 22);
    lemma_counted_near(p);
}

/// A number up to 22 counts as the nearest integer.
proof fn lemma_counted_near(p: Single)
    requires
        p.is_finite(),
        0 <= p.rank() <= 22 * rounding::one(),
    ensures
        hue::within(p.counted(22) as real, rounding::value(p), 1 as real / 2 as real),
{
    rounding::lemma_units_steps();
    let o = rounding::one();
    let k = p.rank();
    rounding::lemma_counted(p, p, 22);
    if k == 0 {
        assert((0 as real) / (o as real) == 0 as real) by (nonlinear_arith)
            requires
                o > 0,
        ;
    } else {
        laws::lemma_positive_sign(p);
        rounding::lemma_half_up(p);
        let n = (2 * k + o) / (2 * o);
        vstd::arithmetic::div_mod::lemma_fundamental_div_mod(2 * k + o, 2 * o);
        vstd::arithmetic::div_mod::lemma_mod_bound(2 * k + o, 2 * o);
        let rest = (2 * k + o) % (2 * o);
        assert(n <= 22) by (nonlinear_arith)
            requires
                2 * k + o == (2 * o) * n + rest,
                rest >= 0,
                k <= 22 * o,
                o > 0,
        ;
        assert(p.counted(22) == n);
        let (nn, kk, oo) = (n as real, k as real, o as real);
        let v = kk / oo;
        assert(-(1 as real / 2 as real) <= nn - v <= 1 as real / 2 as real) by (nonlinear_arith)
            requires
                2 * k + o == (2 * o) * n + rest,
                0 <= rest < 2 * o,
                nn == n as real,
                kk == k as real,
                oo == o as real,
                v == kk / oo,
                o > 0,
        {
            assert(v * oo == kk);
            assert((o * n) as real == oo * nn);
            assert(2 as real * (oo * nn) <= 2 as real * kk + oo);
            assert(2 as real * kk + oo <= 2 as real * (oo * nn) + 2 as real * oo);
            assert((nn - v) * oo == oo * nn - kk);
        }
    }
}

/// A bar of 22 cells, so many of them full.
pub open spec fn bar(t: Seq<char>, full: int) -> bool {
    &&& t.len() == 22
    &&& forall|i: int|
        0 <= i < 22 ==> #[trigger] t[i] == if i < full {
            '█'
        } else {
            '░'
        }
}

/// Whether `t` is `n` in decimal behind as many blanks as it is short of three characters.
pub open spec fn aligned_decimal(t: Seq<char>, n: int) -> bool {
    exists|a: Seq<char>| #[trigger]
        text_laws::is_decimal(a, n) && t.len() == (if a.len() < 3 {
            3
        } else {
            a.len()
        }) && t.subrange(t.len() - a.len(), t.len() as int) == a && forall|i: int|
            0 <= i < t.len() - a.len() ==> #[trigger] t[i] == ' '
}

/// Whether `t` is a slider: its name, bright where it has the focus, a bar in the colour of
/// the hint with so many full cells, and the value.
pub open spec fn is_slider(
    t: Seq<char>,
    label: Seq<char>,
    value: int,
    full: int,
    focused: bool,
    hint: Rgb,
) -> bool {
    let style = if focused {
        "\x1b[1;33m"@
    } else {
        "\x1b[2m"@
    };
    exists|b: Seq<char>, n: Seq<char>| #[trigger]
        bar(b, full) && #[trigger] aligned_decimal(n, value) && t == style + label + "\x1b[0m ["@
            + ansi::fg_code(hint) + b + "\x1b[0m] "@ + n
}

/// One character, repeated.
proof fn lemma_repeated_char(unit: Seq<char>, c: char, n: nat)
    requires
        unit == seq![c],
    ensures
        text::repeated(unit, n).len() == n,
        forall|i: int| 0 <= i < n ==> #[trigger] text::repeated(unit, n)[i] == c,
    decreases n,
{
    if n > 0 {
        lemma_repeated_char(unit, c, (n - 1) as nat);
    }
}

proof fn lemma_aligned(n: int)
    requires
        0 <= n,
    ensures
        aligned_decimal(text::right_aligned(text::signed_decimal(n), 3), n),
{
    text_laws::law_decimal(n);
    let a = text::decimal(n);
    reveal_strlit(" ");
    assert(" "@ == seq![' ']);
    let k = text::shortfall(a.len() as int, 3);
    lemma_repeated_char(" "@, ' ', k);
    let t = text::right_aligned(a, 3);
    assert(t.subrange(t.len() - a.len(), t.len() as int) == a);
    assert(text_laws::is_decimal(a, n));
}

/// A slider for a value that is not negative is written with its full cells and its value.
pub proof fn law_slider_text(label: Seq<char>, value: int, max: int, focused: bool, hint: Rgb)
    requires
        0 <= value <= 0x7fff_ffff,
        0 < max <= 0x7fff_ffff,
    ensures
        is_slider(
            render::slider_text(label, value, max, focused, hint),
            label,
            value,
            render::full_cells(value, max),
            focused,
            hint,
        ),
{
    reveal(render::slider_text);
    let full = render::full_cells(value, max);
    laws::law_slider(value as i32, value as i32, max as i32);
    reveal_strlit("█");
    reveal_strlit("░");
    reveal_strlit("\x1b[0m");
    reveal_strlit("\x1b[0m [");
    reveal_strlit("\x1b[0m] ");
    reveal_strlit(" [");
    reveal_strlit("] ");
    assert("█"@ == seq!['█']);
    assert("░"@ == seq!['░']);
    lemma_repeated_char("█"@, '█', full as nat);
    lemma_repeated_char("░"@, '░', (22 - full) as nat);
    lemma_aligned(value);
    let b = text::repeated("█"@, full as nat) + text::repeated("░"@, (22 - full) as nat);
    let n = text::right_aligned(text::signed_decimal(value), 3);
    let style = if focused {
        "\x1b[1;33m"@
    } else {
        "\x1b[2m"@
    };
    assert(bar(b, full));
    assert(RESET@ + " ["@ == "\x1b[0m ["@);
    assert(RESET@ + "] "@ == "\x1b[0m] "@);
    let t = render::slider_text(label, value, max, focused, hint);
    assert(t == style + label + (RESET@ + " ["@) + ansi::fg_code(hint) + b + (RESET@ + "] "@) + n);
}

/// Whether `part` stands somewhere in `t`.
#[verifier::opaque]
pub open spec fn holds(t: Seq<char>, part: Seq<char>) -> bool {
    exists|i: int| highlight::occurs_at(t, i, part)
}

broadcast proof fn lemma_holds_left(a: Seq<char>, b: Seq<char>, part: Seq<char>)
    requires
        holds(a, part),
    ensures
        #[trigger] holds(a + b, part),
{
    reveal(holds);
    let i = choose|i: int| highlight::occurs_at(a, i, part);
    let t = a + b;
    assert(t.subrange(i, i + part.len()) == a.subrange(i, i + part.len()));
    assert(highlight::occurs_at(t, i, part));
}

broadcast proof fn lemma_holds_right(a: Seq<char>, b: Seq<char>, part: Seq<char>)
    requires
        holds(b, part),
    ensures
        #[trigger] holds(a + b, part),
{
    reveal(holds);
    let i = choose|i: int| highlight::occurs_at(b, i, part);
    let t = a + b;
    let j = a.len() + i;
    assert(t.subrange(j, j + part.len()) == b.subrange(i, i + part.len()));
    assert(highlight::occurs_at(t, j, part));
}

broadcast group group_holds {
    lemma_holds_left,
    lemma_holds_right,
}

/// A text stands between any two others.
proof fn lemma_between(a: Seq<char>, part: Seq<char>, b: Seq<char>)
    ensures
        holds(a + part + b, part),
{
    reveal(holds);
    let t = a + part + b;
    assert(t.subrange(a.len() as int, (a.len() + part.len()) as int) == part);
    assert(highlight::occurs_at(t, a.len() as int, part));
}

proof fn lemma_itself(t: Seq<char>)
    ensures
        holds(t, t),
{
    lemma_between(Seq::empty(), t, Seq::empty());
    assert(Seq::empty() + t + Seq::empty() == t);
}

/// Whether a screen shows a line of sample text in the two colours, on its row, filled with
/// blanks up to the width `w`.
pub open spec fn shows_sample(
    screen: Seq<char>,
    row: int,
    line: Seq<char>,
    w: int,
    fg: Rgb,
    bg: Rgb,
) -> bool {
    exists|blanks: Seq<char>|
        blanks.len() == (if line.len() < w {
            w - line.len()
        } else {
            0
        }) && (forall|i: int| 0 <= i < blanks.len() ==> #[trigger] blanks[i] == ' ') && #[trigger]
        holds(
            screen,
            ansi::cursor(row, 3) + ansi::bg_code(bg) + ansi::fg_code(fg) + line + blanks
                + "\x1b[0m"@,
        )
}

/// The width of the sample text: six columns less than the screen, and eighty at most.
pub open spec fn width(cols: u16) -> int {
    if cols < 6 {
        0
    } else if cols > 86 {
        80
    } else {
        cols - 6
    }
}

/// The screen shows five lines of sample text in the foreground on the background.
pub proof fn law_screen_shows_samples(s: State, cols: u16, rows: u16, powers: Seq<Single>)
    ensures
        ({
            let t = render::screen(s, cols, rows, powers);
            let w = width(cols);
            &&& shows_sample(t, 12, "# The quick brown fox jumps over the lazy dog"@, w, s.fg, s.bg)
            &&& shows_sample(
                t,
                13,
                "fn main() { println!(\"Hello, world!\"); }    // body comment"@,
                w,
                s.fg,
                s.bg,
            )
            &&& shows_sample(t, 14, "*bold* /italic/ _underline_   →   link text"@, w, s.fg, s.bg)
            &&& shows_sample(
                t,
                15,
                "Plain prose on the chosen background — sample, sample, sample."@,
                w,
                s.fg,
                s.bg,
            )
            &&& shows_sample(t, 16, "1234567890   !@#$%^&*()   abc DEF ghi JKL"@, w, s.fg, s.bg)
        }),
{
    let t = render::screen(s, cols, rows, powers);
    let w = width(cols);
    let (fg, bg) = (s.fg, s.bg);
    lemma_sample_on_screen(s, cols, rows, powers);
    lemma_sample_line(t, 12, "# The quick brown fox jumps over the lazy dog"@, w, fg, bg);
    lemma_sample_line(
        t,
        13,
        "fn main() { println!(\"Hello, world!\"); }    // body comment"@,
        w,
        fg,
        bg,
    );
    lemma_sample_line(t, 14, "*bold* /italic/ _underline_   →   link text"@, w, fg, bg);
    lemma_sample_line(
        t,
        15,
        "Plain prose on the chosen background — sample, sample, sample."@,
        w,
        fg,
        bg,
    );
    lemma_sample_line(t, 16, "1234567890   !@#$%^&*()   abc DEF ghi JKL"@, w, fg, bg);
}

proof fn lemma_sample_on_screen(s: State, cols: u16, rows: u16, powers: Seq<Single>)
    ensures
        ({
            let t = render::screen(s, cols, rows, powers);
            let w = width(cols);
            let (fg, bg) = (s.fg, s.bg);
            &&& holds(
                t,
                render::sample_line(12, "# The quick brown fox jumps over the lazy dog"@, w, fg, bg),
            )
            &&& holds(
                t,
                render::sample_line(
                    13,
                    "fn main() { println!(\"Hello, world!\"); }    // body comment"@,
                    w,
                    fg,
                    bg,
                ),
            )
            &&& holds(
                t,
                render::sample_line(14, "*bold* /italic/ _underline_   →   link text"@, w, fg, bg),
            )
            &&& holds(
                t,
                render::sample_line(
                    15,
                    "Plain prose on the chosen background — sample, sample, sample."@,
                    w,
                    fg,
                    bg,
                ),
            )
            &&& holds(
                t,
                render::sample_line(16, "1234567890   !@#$%^&*()   abc DEF ghi JKL"@, w, fg, bg),
            )
        }),
{
    broadcast use group_holds;

    let w = width(cols);
    let (fg, bg) = (s.fg, s.bg);
    lemma_itself(
        render::sample_line(12, "# The quick brown fox jumps over the lazy dog"@, w, fg, bg),
    );
    lemma_itself(
        render::sample_line(
            13,
            "fn main() { println!(\"Hello, world!\"); }    // body comment"@,
            w,
            fg,
            bg,
        ),
    );
    lemma_itself(
        render::sample_line(14, "*bold* /italic/ _underline_   →   link text"@, w, fg, bg),
    );
    lemma_itself(
        render::sample_line(
            15,
            "Plain prose on the chosen background — sample, sample, sample."@,
            w,
            fg,
            bg,
        ),
    );
    lemma_itself(
        render::sample_line(16, "1234567890   !@#$%^&*()   abc DEF ghi JKL"@, w, fg, bg),
    );
    reveal(render::sample_text);
}

proof fn lemma_sample_line(t: Seq<char>, row: int, line: Seq<char>, w: int, fg: Rgb, bg: Rgb)
    requires
        holds(t, render::sample_line(row, line, w, fg, bg)),
    ensures
        shows_sample(t, row, line, w, fg, bg),
{
    reveal_strlit(" ");
    assert(" "@ == seq![' ']);
    let blanks = text::repeated(" "@, text::shortfall(line.len() as int, w));
    lemma_repeated_char(" "@, ' ', text::shortfall(line.len() as int, w));
    assert(render::sample_line(row, line, w, fg, bg) == ansi::cursor(row, 3) + ansi::bg_code(bg)
        + ansi::fg_code(fg) + line + blanks + "\x1b[0m"@);
}

/// The screen shows the contrast of the two colours with its label.
pub proof fn law_screen_shows_contrast(s: State, cols: u16, rows: u16, powers: Seq<Single>)
    ensures
        ({
            let ratio = contrast::contrast(s.fg, s.bg, powers);
            let label = contrast::grade(ratio);
            holds(
                render::screen(s, cols, rows, powers),
                "\x1b[1mContrast:\x1b[0m "@ + ratio.cent_figures() + ":1  "@ + label.0 + " "@
                    + label.1,
            )
        }),
{
    broadcast use group_holds;

    let ratio = contrast::contrast(s.fg, s.bg, powers);
    lemma_contrast_part(ratio);
}

proof fn lemma_contrast_part(ratio: Single)
    ensures
        holds(
            render::contrast_text(ratio),
            "\x1b[1mContrast:\x1b[0m "@ + ratio.cent_figures() + ":1  "@ + contrast::grade(ratio).0
                + " "@ + contrast::grade(ratio).1,
        ),
{
    reveal(render::contrast_text);
    lemma_six_between(
        ansi::cursor(5, 42),
        "\x1b[1mContrast:\x1b[0m "@,
        ratio.cent_figures(),
        ":1  "@,
        contrast::grade(ratio).0,
        " "@,
        contrast::grade(ratio).1,
        ansi::cursor(7, 42),
        "\x1b[2mWCAG: AAA ≥ 7   AA ≥ 4.5   AA· ≥ 3\x1b[0m"@,
    );
}

/// Six texts in a row, between others.
proof fn lemma_six_between(
    a: Seq<char>,
    p: Seq<char>,
    q: Seq<char>,
    r: Seq<char>,
    s: Seq<char>,
    t: Seq<char>,
    u: Seq<char>,
    b: Seq<char>,
    c: Seq<char>,
)
    ensures
        holds(a + p + q + r + s + t + u + b + c, p + q + r + s + t + u),
{
    let part = p + q + r + s + t + u;
    lemma_between(a, part, b + c);
    assert(a + p + q + r + s + t + u == a + part);
    assert(a + p + q + r + s + t + u + b + c == a + part + (b + c));
}

/// The screen shows six sliders for the colour that is edited: its levels, and its hue,
/// saturation and value.
pub proof fn law_screen_shows_sliders(s: State, cols: u16, rows: u16, powers: Seq<Single>)
    ensures
        ({
            let t = render::screen(s, cols, rows, powers);
            let c = if s.editing == Slot::Fg {
                s.fg
            } else {
                s.bg
            };
            let x = c.hsv();
            let degrees = x.h.toward_zero(i32::MIN as int, i32::MAX as int);
            &&& shows_slider(
                t,
                19,
                3,
                "R"@,
                c.r as int,
                255,
                s.channel is R,
                Rgb { r: 255, g: 80, b: 80 },
            )
            &&& shows_slider(
                t,
                20,
                3,
                "G"@,
                c.g as int,
                255,
                s.channel is G,
                Rgb { r: 80, g: 220, b: 100 },
            )
            &&& shows_slider(
                t,
                21,
                3,
                "B"@,
                c.b as int,
                255,
                s.channel is B,
                Rgb { r: 90, g: 140, b: 255 },
            )
            &&& shows_slider(t, 19, 45, "H"@, degrees, 359, s.channel is H, c)
            &&& shows_slider(t, 20, 45, "S"@, render::percent(x.s), 100, s.channel is S, c)
            &&& shows_slider(t, 21, 45, "V"@, render::percent(x.v), 100, s.channel is V, c)
        }),
{
    let t = render::screen(s, cols, rows, powers);
    let c = s.current();
    let x = c.hsv();
    let degrees = x.h.toward_zero(i32::MIN as int, i32::MAX as int);
    laws::law_hsv_ranges(c);
    crate::circle::lemma_in_range(x);
    text_laws::law_percent(x.s);
    text_laws::law_percent(x.v);
    text_laws::law_whole_degrees(c);
    lemma_sliders_on_screen(s, cols, rows, powers);
    lemma_slider_on_screen(
        t,
        19,
        3,
        "R"@,
        c.r as int,
        255,
        s.channel == Channel::R,
        Rgb { r: 255, g: 80, b: 80 },
    );
    lemma_slider_on_screen(
        t,
        20,
        3,
        "G"@,
        c.g as int,
        255,
        s.channel == Channel::G,
        Rgb { r: 80, g: 220, b: 100 },
    );
    lemma_slider_on_screen(
        t,
        21,
        3,
        "B"@,
        c.b as int,
        255,
        s.channel == Channel::B,
        Rgb { r: 90, g: 140, b: 255 },
    );
    lemma_slider_on_screen(t, 19, 45, "H"@, degrees, 359, s.channel == Channel::H, c);
    lemma_slider_on_screen(t, 20, 45, "S"@, render::percent(x.s), 100, s.channel == Channel::S, c);
    lemma_slider_on_screen(t, 21, 45, "V"@, render::percent(x.v), 100, s.channel == Channel::V, c);
}

/// Whether a screen shows a slider at a row and a column.
pub open spec fn shows_slider(
    screen: Seq<char>,
    row: int,
    col: int,
    label: Seq<char>,
    value: int,
    max: int,
    focused: bool,
    hint: Rgb,
) -> bool {
    exists|t: Seq<char>|
        is_slider(t, label, value, render::full_cells(value, max), focused, hint)
            && #[trigger] holds(screen, ansi::cursor(row, col) + t)
}

proof fn lemma_slider_on_screen(
    screen: Seq<char>,
    row: int,
    col: int,
    label: Seq<char>,
    value: int,
    max: int,
    focused: bool,
    hint: Rgb,
)
    requires
        0 <= value <= 0x7fff_ffff,
        0 < max <= 0x7fff_ffff,
        holds(
            screen,
            ansi::cursor(row, col) + render::slider_text(label, value, max, focused, hint),
        ),
    ensures
        shows_slider(screen, row, col, label, value, max, focused, hint),
{
    law_slider_text(label, value, max, focused, hint);
}

/// Each of six texts stands in what they make together.
proof fn lemma_six(a: Seq<char>, b: Seq<char>, c: Seq<char>, d: Seq<char>, e: Seq<char>, f: Seq<char>)
    ensures
        holds(a + b + c + d + e + f, a),
        holds(a + b + c + d + e + f, b),
        holds(a + b + c + d + e + f, c),
        holds(a + b + c + d + e + f, d),
        holds(a + b + c + d + e + f, e),
        holds(a + b + c + d + e + f, f),
{
    broadcast use group_holds;

    lemma_itself(a);
    lemma_itself(b);
    lemma_itself(c);
    lemma_itself(d);
    lemma_itself(e);
    lemma_itself(f);
}

/// What stands in a part of a text stands in the text.
proof fn lemma_holds_within(t: Seq<char>, part: Seq<char>, inner: Seq<char>)
    requires
        holds(t, part),
        holds(part, inner),
    ensures
        holds(t, inner),
{
    reveal(holds);
    let i = choose|i: int| highlight::occurs_at(t, i, part);
    let j = choose|j: int| highlight::occurs_at(part, j, inner);
    assert(t.subrange(i + j, i + j + inner.len()) == part.subrange(j, j + inner.len()));
    assert(highlight::occurs_at(t, i + j, inner));
}

proof fn lemma_screen_holds_sliders(s: State, cols: u16, rows: u16, powers: Seq<Single>)
    ensures
        holds(
            render::screen(s, cols, rows, powers),
            render::sliders_text(s.current(), s.channel),
        ),
{
    broadcast use group_holds;

    lemma_itself(render::sliders_text(s.current(), s.channel));
}

#[verifier::rlimit(40)]
proof fn lemma_sliders_on_screen(s: State, cols: u16, rows: u16, powers: Seq<Single>)
    ensures
        ({
            let t = render::screen(s, cols, rows, powers);
            let c = s.current();
            let x = c.hsv();
            let degrees = x.h.toward_zero(i32::MIN as int, i32::MAX as int);
            let ch = s.channel;
            &&& holds(
                t,
                ansi::cursor(19, 3) + render::slider_text(
                    "R"@,
                    c.r as int,
                    255,
                    ch == Channel::R,
                    Rgb { r: 255, g: 80, b: 80 },
                ),
            )
            &&& holds(
                t,
                ansi::cursor(20, 3) + render::slider_text(
                    "G"@,
                    c.g as int,
                    255,
                    ch == Channel::G,
                    Rgb { r: 80, g: 220, b: 100 },
                ),
            )
            &&& holds(
                t,
                ansi::cursor(21, 3) + render::slider_text(
                    "B"@,
                    c.b as int,
                    255,
                    ch == Channel::B,
                    Rgb { r: 90, g: 140, b: 255 },
                ),
            )
            &&& holds(
                t,
                ansi::cursor(19, 45) + render::slider_text("H"@, degrees, 359, ch == Channel::H, c),
            )
            &&& holds(
                t,
                ansi::cursor(20, 45) + render::slider_text(
                    "S"@,
                    render::percent(x.s),
                    100,
                    ch == Channel::S,
                    c,
                ),
            )
            &&& holds(
                t,
                ansi::cursor(21, 45) + render::slider_text(
                    "V"@,
                    render::percent(x.v),
                    100,
                    ch == Channel::V,
                    c,
                ),
            )
        }),
{
    let c = s.current();
    let x = c.hsv();
    let ch = s.channel;
    let degrees = x.h.toward_zero(i32::MIN as int, i32::MAX as int);
    let r = ansi::cursor(19, 3) + render::slider_text(
        "R"@,
        c.r as int,
        255,
        ch == Channel::R,
        Rgb { r: 255, g: 80, b: 80 },
    );
    let g = ansi::cursor(20, 3) + render::slider_text(
        "G"@,
        c.g as int,
        255,
        ch == Channel::G,
        Rgb { r: 80, g: 220, b: 100 },
    );
    let b = ansi::cursor(21, 3) + render::slider_text(
        "B"@,
        c.b as int,
        255,
        ch == Channel::B,
        Rgb { r: 90, g: 140, b: 255 },
    );
    let h = ansi::cursor(19, 45) + render::slider_text("H"@, degrees, 359, ch == Channel::H, c);
    let sa = ansi::cursor(20, 45) + render::slider_text(
        "S"@,
        render::percent(x.s),
        100,
        ch == Channel::S,
        c,
    );
    let v = ansi::cursor(21, 45) + render::slider_text(
        "V"@,
        render::percent(x.v),
        100,
        ch == Channel::V,
        c,
    );
    reveal(render::sliders_text);
    let t = render::sliders_text(c, ch);
    assert(t == r + h + g + sa + b + v);
    lemma_six(r, h, g, sa, b, v);
    lemma_screen_holds_sliders(s, cols, rows, powers);
    let whole = render::screen(s, cols, rows, powers);
    lemma_holds_within(whole, t, r);
    lemma_holds_within(whole, t, h);
    lemma_holds_within(whole, t, g);
    lemma_holds_within(whole, t, sa);
    lemma_holds_within(whole, t, b);
    lemma_holds_within(whole, t, v);
}

/// The name of a slot.
pub open spec fn name(slot: Slot) -> Seq<char> {
    match slot {
        Slot::Fg => "FG"@,
        Slot::Bg => "BG"@,
    }
}

/// The screen shows, in its title, which slot is edited.
pub proof fn law_screen_shows_slot(s: State, cols: u16, rows: u16, powers: Seq<Single>)
    ensures
        holds(
            render::screen(s, cols, rows, powers),
            "(editing: "@ + name(s.editing) + ")\x1b[0m"@,
        ),
{
    broadcast use group_holds;

    reveal(render::title_text);
    reveal_strlit("\x1b[1;38;2;247;76;0mprism\x1b[0m  TUI color picker  \x1b[2m(editing: ");
    reveal_strlit("\x1b[1;38;2;247;76;0mprism\x1b[0m  TUI color picker  \x1b[2m");
    reveal_strlit("(editing: ");
    let front = "\x1b[1;38;2;247;76;0mprism\x1b[0m  TUI color picker  \x1b[2m"@;
    assert("\x1b[1;38;2;247;76;0mprism\x1b[0m  TUI color picker  \x1b[2m(editing: "@ == front
        + "(editing: "@);
    let part = "(editing: "@ + name(s.editing) + ")\x1b[0m"@;
    lemma_between(ansi::cursor(2, 3) + front, part, Seq::empty());
    assert(render::title_text(s.editing) == ansi::cursor(2, 3) + front + part + Seq::empty());
}

/// The text of a colour in an output format.
pub open spec fn in_format(c: Rgb, f: OutputFmt) -> Seq<char> {
    match f {
        OutputFmt::Hex => c.hex_code(),
        OutputFmt::Rgb => render::rgb_text(c),
        OutputFmt::Hsv => render::hsv_text(c),
        OutputFmt::All => c.hex_code() + "  "@ + render::rgb_text(c) + "  "@ + render::hsv_text(c),
    }
}

/// The screen shows the colour that is edited by its hex code, and in the output format.
pub proof fn law_screen_shows_output(s: State, cols: u16, rows: u16, powers: Seq<Single>)
    ensures
        ({
            let c = if s.editing == Slot::Fg {
                s.fg
            } else {
                s.bg
            };
            let f = match s.out_fmt {
                OutputFmt::Hex => "hex"@,
                OutputFmt::Rgb => "rgb"@,
                OutputFmt::Hsv => "hsv"@,
                OutputFmt::All => "all"@,
            };
            holds(
                render::screen(s, cols, rows, powers),
                "\x1b[1mHex:\x1b[0m "@ + c.hex_code() + "    \x1b[2mout("@ + f + "):\x1b[0m "@
                    + in_format(c, s.out_fmt),
            )
        }),
{
    broadcast use group_holds;

    reveal(render::output_text);
    let c = s.current();
    let f = render::format_name(s.out_fmt);
    let part = "\x1b[1mHex:\x1b[0m "@ + c.hex_code() + "    \x1b[2mout("@ + f + "):\x1b[0m "@
        + in_format(c, s.out_fmt);
    lemma_between(ansi::cursor(31, 3), part, Seq::empty());
    assert(render::output_text(c, s.out_fmt) == ansi::cursor(31, 3) + part + Seq::empty());
}

/// The screen shows the status, where there is one, on the third row from below, and the
/// keys on the second.
pub proof fn law_screen_shows_status(s: State, cols: u16, rows: u16, powers: Seq<Single>)
    requires
        rows >= 3,
    ensures
        s.status.len() > 0 ==> holds(
            render::screen(s, cols, rows, powers),
            ansi::cursor(rows - 3, 3) + "\x1b[1;38;2;90;200;255m"@ + s.status + "\x1b[0m"@,
        ),
        holds(
            render::screen(s, cols, rows, powers),
            ansi::cursor(rows - 2, 3)
                + "\x1b[2mTab swap FG/BG · r/g/b/h/s/v focus · j/k ±1 · J/K ±10 · # type hex · c copy · o output · q quit\x1b[0m"@,
        ),
{
    broadcast use group_holds;

    reveal(render::footer_text);
    let help = ansi::cursor(rows - 2, 3)
        + "\x1b[2mTab swap FG/BG · r/g/b/h/s/v focus · j/k ±1 · J/K ±10 · # type hex · c copy · o output · q quit\x1b[0m"@;
    lemma_itself(help);
    let t = render::footer_text(rows, s.status);
    if s.status.len() > 0 {
        let part = ansi::cursor(rows - 3, 3) + "\x1b[1;38;2;90;200;255m"@ + s.status + "\x1b[0m"@;
        lemma_between(help, part, Seq::empty());
        assert(t == help + part + Seq::empty());
        lemma_between(Seq::empty(), help, part);
        assert(t == Seq::empty() + help + part);
    } else {
        assert(t == help);
    }
    assert(holds(t, help));
}

/// Whether a screen shows a frame of four rows filled with a colour, between its name and
/// its hex code, from the given column on.
pub open spec fn shows_frame(screen: Seq<char>, col: int, label: Seq<char>, fill: Rgb, focused: bool) -> bool {
    let edge = if focused {
        "\x1b[38;2;255;122;58m"@
    } else {
        "\x1b[2m"@
    };
    &&& holds(screen, ansi::cursor(4, col) + edge + "┌───── "@ + label + " ─────┐"@)
    &&& forall|row: int|
        5 <= row <= 8 ==> holds(
            screen,
            #[trigger] ansi::cursor(row, col) + "│\x1b[0m"@ + ansi::bg_code(fill)
                + "              \x1b[0m"@ + edge + "│"@,
        )
    &&& holds(screen, ansi::cursor(9, col) + "└───── "@ + fill.hex_code() + " ┘\x1b[0m"@)
}

/// The screen shows each colour in the frame of its slot; the frame of the slot that is
/// edited is bright.
pub proof fn law_screen_shows_frames(s: State, cols: u16, rows: u16, powers: Seq<Single>)
    ensures
        shows_frame(
            render::screen(s, cols, rows, powers),
            3,
            "FG"@,
            s.fg,
            s.editing == Slot::Fg,
        ),
        shows_frame(
            render::screen(s, cols, rows, powers),
            23,
            "BG"@,
            s.bg,
            s.editing == Slot::Bg,
        ),
{
    broadcast use group_holds;

    let t = render::screen(s, cols, rows, powers);
    lemma_frame(3, s.fg, Slot::Fg, s.editing == Slot::Fg);
    lemma_frame(23, s.bg, Slot::Bg, s.editing == Slot::Bg);
    let a = render::frame_text(3, 4, 16, 6, s.fg, Slot::Fg, s.editing == Slot::Fg);
    let b = render::frame_text(23, 4, 16, 6, s.bg, Slot::Bg, s.editing == Slot::Bg);
    lemma_frame_inside(t, a, 3, "FG"@, s.fg, s.editing == Slot::Fg);
    lemma_frame_inside(t, b, 23, "BG"@, s.bg, s.editing == Slot::Bg);
}

proof fn lemma_frame_inside(
    t: Seq<char>,
    a: Seq<char>,
    col: int,
    label: Seq<char>,
    fill: Rgb,
    focused: bool,
)
    requires
        shows_frame(a, col, label, fill, focused),
        forall|part: Seq<char>| holds(a, part) ==> #[trigger] holds(t, part),
    ensures
        shows_frame(t, col, label, fill, focused),
{
}

proof fn lemma_frame(col: int, fill: Rgb, slot: Slot, focused: bool)
    ensures
        shows_frame(
            render::frame_text(col, 4, 16, 6, fill, slot, focused),
            col,
            name(slot),
            fill,
            focused,
        ),
{
    broadcast use group_holds;

    reveal(render::frame_text);
    let t = render::frame_text(col, 4, 16, 6, fill, slot, focused);
    let edge = render::border(focused);
    reveal_strlit("─");
    reveal_strlit(" ");
    reveal_strlit("┌");
    reveal_strlit("┐");
    reveal_strlit("└");
    reveal_strlit("┘");
    reveal_strlit("│");
    reveal_strlit("\x1b[0m");
    reveal_strlit("┌───── ");
    reveal_strlit(" ─────┐");
    reveal_strlit("│\x1b[0m");
    reveal_strlit("              \x1b[0m");
    reveal_strlit("└───── ");
    reveal_strlit(" ┘\x1b[0m");
    assert("─"@ == seq!['─'] && " "@ == seq![' ']);
    lemma_repeated_char("─"@, '─', 5);
    lemma_repeated_char(" "@, ' ', 14);
    let rule = text::repeated("─"@, 5);
    assert("┌"@ + rule + " "@ == "┌───── "@);
    assert(" "@ + rule + "┐"@ == " ─────┐"@);
    assert("└"@ + rule + " "@ == "└───── "@);
    assert(" "@ + "┘"@ + RESET@ == " ┘\x1b[0m"@);
    assert("│"@ + RESET@ == "│\x1b[0m"@);
    assert(text::repeated(" "@, 14) + RESET@ == "              \x1b[0m"@);
    let top = ansi::cursor(4, col) + edge + "┌───── "@ + name(slot) + " ─────┐"@;
    let rows = render::frame_rows(col, 4, 16, 4, fill, focused);
    let bottom = ansi::cursor(9, col) + "└───── "@ + fill.hex_code() + " ┘\x1b[0m"@;
    assert(t == top + rows + bottom);
    lemma_itself(top);
    lemma_itself(bottom);
    assert forall|row: int| 5 <= row <= 8 implies holds(
        t,
        #[trigger] ansi::cursor(row, col) + "│\x1b[0m"@ + ansi::bg_code(fill)
            + "              \x1b[0m"@ + edge + "│"@,
    ) by {
        let part = ansi::cursor(row, col) + "│\x1b[0m"@ + ansi::bg_code(fill)
            + "              \x1b[0m"@ + edge + "│"@;
        assert(render::frame_row(col, row, 16, fill, focused) == part);
        lemma_row_held(col, 4, fill, focused, row);
    }
}

proof fn lemma_row_held(col: int, n: int, fill: Rgb, focused: bool, row: int)
    requires
        5 <= row <= 4 + n,
    ensures
        holds(
            render::frame_rows(col, 4, 16, n, fill, focused),
            render::frame_row(col, row, 16, fill, focused),
        ),
    decreases n,
{
    broadcast use group_holds;

    if row < 4 + n {
        lemma_row_held(col, n - 1, fill, focused, row);
    } else {
        lemma_itself(render::frame_row(col, row, 16, fill, focused));
    }
}

/// The screen does not depend on whether one colour is picked or both.
pub proof fn law_screen_of_any_mode(s: State, t: State, cols: u16, rows: u16, powers: Seq<Single>)
    requires
        s == (State { mode: s.mode, ..t }),
    ensures
        render::screen(s, cols, rows, powers) == render::screen(t, cols, rows, powers),
{
}

/// One character, so many times.
pub open spec fn row_of(c: char, n: int) -> Seq<char> {
    Seq::new(
        (if n < 0 {
            0
        } else {
            n
        }) as nat,
        |i: int| c,
    )
}

proof fn lemma_row_of(unit: Seq<char>, c: char, n: int)
    requires
        unit == seq![c],
        0 <= n,
    ensures
        text::repeated(unit, n as nat) == row_of(c, n),
{
    lemma_repeated_char(unit, c, n as nat);
    assert(text::repeated(unit, n as nat) =~= row_of(c, n));
}

/// The colour of the edge of a frame.
pub open spec fn edge(focused: bool) -> Seq<char> {
    if focused {
        "\x1b[38;2;255;122;58m"@
    } else {
        "\x1b[2m"@
    }
}

/// A row of a frame.
pub open spec fn frame_line(row: int, col: int, fill: Rgb, focused: bool) -> Seq<char> {
    ansi::cursor(row, col) + "│"@ + "\x1b[0m"@ + ansi::bg_code(fill) + row_of(' ', 14) + "\x1b[0m"@
        + edge(focused) + "│"@
}

/// A frame of sixteen columns and six rows around a colour.
pub open spec fn frame_part(col: int, label: Seq<char>, fill: Rgb, focused: bool) -> Seq<char> {
    ansi::cursor(4, col) + edge(focused) + "┌"@ + row_of('─', 5) + " "@ + label + " "@ + row_of(
        '─',
        5,
    ) + "┐"@ + (frame_line(5, col, fill, focused) + frame_line(6, col, fill, focused) + frame_line(
        7,
        col,
        fill,
        focused,
    ) + frame_line(8, col, fill, focused)) + ansi::cursor(9, col) + "└"@ + row_of('─', 5) + " "@
        + fill.hex_code() + " "@ + "┘"@ + "\x1b[0m"@
}

proof fn lemma_frame_part(col: int, fill: Rgb, slot: Slot, focused: bool)
    ensures
        render::frame_text(col, 4, 16, 6, fill, slot, focused) == frame_part(
            col,
            name(slot),
            fill,
            focused,
        ),
{
    reveal(render::frame_text);
    reveal_strlit("─");
    reveal_strlit(" ");
    assert("─"@ == seq!['─'] && " "@ == seq![' ']);
    lemma_row_of("─"@, '─', 5);
    lemma_row_of(" "@, ' ', 14);
    reveal_with_fuel(render::frame_rows, 5);
    let rows = render::frame_rows(col, 4, 16, 4, fill, focused);
    let lines = frame_line(5, col, fill, focused) + frame_line(6, col, fill, focused) + frame_line(
        7,
        col,
        fill,
        focused,
    ) + frame_line(8, col, fill, focused);
    assert(Seq::<char>::empty() + frame_line(5, col, fill, focused) == frame_line(
        5,
        col,
        fill,
        focused,
    ));
    assert(rows == lines);
}

/// A line of sample text.
pub open spec fn sample_part(row: int, line: Seq<char>, w: int, fg: Rgb, bg: Rgb) -> Seq<char> {
    ansi::cursor(row, 3) + ansi::bg_code(bg) + ansi::fg_code(fg) + line + row_of(
        ' ',
        w - line.len(),
    ) + "\x1b[0m"@
}

/// The sample text, between two rules.
pub open spec fn samples_part(cols: u16, fg: Rgb, bg: Rgb) -> Seq<char> {
    let w = width(cols);
    ansi::cursor(11, 3) + "\x1b[2m── Sample "@ + row_of('─', w - 11) + "\x1b[0m"@ + sample_part(
        12,
        "# The quick brown fox jumps over the lazy dog"@,
        w,
        fg,
        bg,
    ) + sample_part(
        13,
        "fn main() { println!(\"Hello, world!\"); }    // body comment"@,
        w,
        fg,
        bg,
    ) + sample_part(14, "*bold* /italic/ _underline_   →   link text"@, w, fg, bg) + sample_part(
        15,
        "Plain prose on the chosen background — sample, sample, sample."@,
        w,
        fg,
        bg,
    ) + sample_part(16, "1234567890   !@#$%^&*()   abc DEF ghi JKL"@, w, fg, bg) + ansi::cursor(
        17,
        3,
    ) + "\x1b[2m"@ + row_of('─', w) + "\x1b[0m"@
}

proof fn lemma_sample_part(row: int, line: Seq<char>, w: int, fg: Rgb, bg: Rgb)
    ensures
        render::sample_line(row, line, w, fg, bg) == sample_part(row, line, w, fg, bg),
{
    reveal_strlit(" ");
    assert(" "@ == seq![' ']);
    let n = text::shortfall(line.len() as int, w);
    lemma_row_of(" "@, ' ', n as int);
    assert(row_of(' ', n as int) == row_of(' ', w - line.len()));
}

proof fn lemma_samples_part(cols: u16, fg: Rgb, bg: Rgb)
    ensures
        render::sample_text(cols, fg, bg) == samples_part(cols, fg, bg),
{
    reveal(render::sample_text);
    let w = width(cols);
    reveal_strlit("─");
    assert("─"@ == seq!['─']);
    let n = text::shortfall(11, w);
    lemma_row_of("─"@, '─', n as int);
    assert(row_of('─', n as int) == row_of('─', w - 11));
    lemma_row_of("─"@, '─', w);
    lemma_sample_part(12, "# The quick brown fox jumps over the lazy dog"@, w, fg, bg);
    lemma_sample_part(
        13,
        "fn main() { println!(\"Hello, world!\"); }    // body comment"@,
        w,
        fg,
        bg,
    );
    lemma_sample_part(14, "*bold* /italic/ _underline_   →   link text"@, w, fg, bg);
    lemma_sample_part(
        15,
        "Plain prose on the chosen background — sample, sample, sample."@,
        w,
        fg,
        bg,
    );
    lemma_sample_part(16, "1234567890   !@#$%^&*()   abc DEF ghi JKL"@, w, fg, bg);
}

/// A number with its sign.
pub open spec fn signed_number(n: int) -> Seq<char> {
    if n < 0 {
        "-"@ + text::decimal(-n)
    } else {
        text::decimal(n)
    }
}

/// A slider.
pub open spec fn slider_part(
    label: Seq<char>,
    value: int,
    max: int,
    focused: bool,
    hint: Rgb,
) -> Seq<char> {
    let full = render::full_cells(value, max);
    let number = signed_number(value);
    (if focused {
        "\x1b[1;33m"@
    } else {
        "\x1b[2m"@
    }) + label + "\x1b[0m"@ + " ["@ + ansi::fg_code(hint) + row_of('█', full) + row_of(
        '░',
        22 - full,
    ) + "\x1b[0m"@ + "] "@ + (row_of(' ', 3 - number.len()) + number)
}

/// Every slider is written so, with 22 cells of which none or more are full.
pub proof fn law_any_slider(label: Seq<char>, value: int, max: int, focused: bool, hint: Rgb)
    ensures
        0 <= render::full_cells(value, max) <= 22,
        render::slider_text(label, value, max, focused, hint) == slider_part(
            label,
            value,
            max,
            focused,
            hint,
        ),
{
    reveal(render::slider_text);
    let full = render::full_cells(value, max);
    let x = Single::of_int(value).quotient(Single::of_int(max)).product(Single::of_int(22));
    if !x.is_nan() {
        rounding::lemma_counted(x, x, 22);
    }
    reveal_strlit("█");
    reveal_strlit("░");
    reveal_strlit(" ");
    assert("█"@ == seq!['█'] && "░"@ == seq!['░'] && " "@ == seq![' ']);
    lemma_row_of("█"@, '█', full);
    lemma_row_of("░"@, '░', 22 - full);
    let number = signed_number(value);
    let n = text::shortfall(number.len() as int, 3);
    lemma_row_of(" "@, ' ', n as int);
    assert(row_of(' ', n as int) == row_of(' ', 3 - number.len()));
}

/// The six sliders of a colour.
pub open spec fn sliders_part(c: Rgb, channel: Channel) -> Seq<char> {
    let x = c.hsv();
    let degrees = x.h.toward_zero(i32::MIN as int, i32::MAX as int);
    let red = Rgb { r: 255, g: 80, b: 80 };
    let green = Rgb { r: 80, g: 220, b: 100 };
    let blue = Rgb { r: 90, g: 140, b: 255 };
    ansi::cursor(19, 3) + slider_part("R"@, c.r as int, 255, channel is R, red) + ansi::cursor(
        19,
        45,
    ) + slider_part("H"@, degrees, 359, channel is H, c) + ansi::cursor(20, 3) + slider_part(
        "G"@,
        c.g as int,
        255,
        channel is G,
        green,
    ) + ansi::cursor(20, 45) + slider_part("S"@, render::percent(x.s), 100, channel is S, c)
        + ansi::cursor(21, 3) + slider_part("B"@, c.b as int, 255, channel is B, blue)
        + ansi::cursor(21, 45) + slider_part("V"@, render::percent(x.v), 100, channel is V, c)
}

proof fn lemma_sliders_part(c: Rgb, channel: Channel)
    ensures
        render::sliders_text(c, channel) == sliders_part(c, channel),
{
    reveal(render::sliders_text);
    let x = c.hsv();
    let degrees = x.h.toward_zero(i32::MIN as int, i32::MAX as int);
    laws::law_hsv_ranges(c);
    crate::circle::lemma_in_range(x);
    text_laws::law_percent(x.s);
    text_laws::law_percent(x.v);
    text_laws::law_whole_degrees(c);
    let red = Rgb { r: 255, g: 80, b: 80 };
    let green = Rgb { r: 80, g: 220, b: 100 };
    let blue = Rgb { r: 90, g: 140, b: 255 };
    law_any_slider("R"@, c.r as int, 255, channel is R, red);
    law_any_slider("H"@, degrees, 359, channel is H, c);
    law_any_slider("G"@, c.g as int, 255, channel is G, green);
    law_any_slider("S"@, render::percent(x.s), 100, channel is S, c);
    law_any_slider("B"@, c.b as int, 255, channel is B, blue);
    law_any_slider("V"@, render::percent(x.v), 100, channel is V, c);
}

/// What stands on the screen besides the colours, whatever the state.
pub open spec fn notes_part() -> Seq<char> {
    ansi::cursor(23, 3)
        + "\x1b[2mRGB — additive light. Each channel 0–255; mix the three primaries.\x1b[0m"@
        + ansi::cursor(24, 3)
        + "\x1b[2m  R = red     G = green     B = blue       (0,0,0)=black · (255,255,255)=white\x1b[0m"@
        + ansi::cursor(26, 3)
        + "\x1b[2mHSV — perceptual model, what humans intuitively reach for.\x1b[0m"@
        + ansi::cursor(27, 3)
        + "\x1b[2m  H = hue          0–360°   which color (0=red, 120=green, 240=blue)\x1b[0m"@
        + ansi::cursor(28, 3)
        + "\x1b[2m  S = saturation   0–100    vividness   (0 = grayscale, 100 = pure)\x1b[0m"@
        + ansi::cursor(29, 3)
        + "\x1b[2m  V = value        0–100    brightness  (0 = black, 100 = full)\x1b[0m"@
}

/// The keys and, above them, the status where there is one.
pub open spec fn footer_part(rows: u16, status: Seq<char>) -> Seq<char> {
    let y: int = if rows >= 2 {
        rows - 2
    } else {
        0
    };
    let keys = ansi::cursor(y, 3)
        + "\x1b[2mTab swap FG/BG · r/g/b/h/s/v focus · j/k ±1 · J/K ±10 · # type hex · c copy · o output · q quit\x1b[0m"@;
    if status.len() == 0 {
        keys
    } else {
        keys + ansi::cursor(y - 1, 3) + "\x1b[1;38;2;90;200;255m"@ + status + "\x1b[0m"@
    }
}

/// The whole screen: what is on it, where, in which order, and nothing else.
pub proof fn law_screen(s: State, cols: u16, rows: u16, powers: Seq<Single>)
    ensures
        ({
            let c = if s.editing == Slot::Fg {
                s.fg
            } else {
                s.bg
            };
            let ratio = contrast::contrast(s.fg, s.bg, powers);
            let f = match s.out_fmt {
                OutputFmt::Hex => "hex"@,
                OutputFmt::Rgb => "rgb"@,
                OutputFmt::Hsv => "hsv"@,
                OutputFmt::All => "all"@,
            };
            render::screen(s, cols, rows, powers) == "\x1b[H"@ + "\x1b[J"@ + (ansi::cursor(2, 3)
                + "\x1b[1;38;2;247;76;0mprism\x1b[0m  TUI color picker  \x1b[2m(editing: "@ + name(
                s.editing,
            ) + ")\x1b[0m"@) + frame_part(3, "FG"@, s.fg, s.editing is Fg) + frame_part(
                23,
                "BG"@,
                s.bg,
                s.editing is Bg,
            ) + (ansi::cursor(5, 42) + "\x1b[1mContrast:\x1b[0m "@ + ratio.cent_figures() + ":1  "@
                + contrast::grade(ratio).0 + " "@ + contrast::grade(ratio).1 + ansi::cursor(7, 42)
                + "\x1b[2mWCAG: AAA ≥ 7   AA ≥ 4.5   AA· ≥ 3\x1b[0m"@) + samples_part(
                cols,
                s.fg,
                s.bg,
            ) + sliders_part(c, s.channel) + notes_part() + (ansi::cursor(31, 3)
                + "\x1b[1mHex:\x1b[0m "@ + c.hex_code() + "    \x1b[2mout("@ + f + "):\x1b[0m "@
                + in_format(c, s.out_fmt)) + footer_part(rows, s.status) + "\x1b[?25l"@
        }),
{
    reveal(render::title_text);
    reveal(render::contrast_text);
    reveal(render::notes_text);
    reveal(render::output_text);
    reveal(render::footer_text);
    lemma_frame_part(3, s.fg, Slot::Fg, s.editing == Slot::Fg);
    lemma_frame_part(23, s.bg, Slot::Bg, s.editing == Slot::Bg);
    lemma_samples_part(cols, s.fg, s.bg);
    lemma_sliders_part(s.current(), s.channel);
}

/// The size to draw for: each measure as it is, or a fair one where it is too small.
pub proof fn law_drawing_size(cols: u16, rows: u16)
    ensures
        render::drawn(cols, rows).0 >= 80,
        render::drawn(cols, rows).1 >= 24,
        cols >= 80 ==> render::drawn(cols, rows).0 == cols,
        rows >= 24 ==> render::drawn(cols, rows).1 == rows,
        cols < 80 ==> render::drawn(cols, rows).0 == 100,
        rows < 24 ==> render::drawn(cols, rows).1 == 28,
{
}

/// The rows of a frame between its edges.
pub open spec fn frame_lines(x: int, y: int, w: int, n: int, fill: Rgb, focused: bool) -> Seq<char>
    decreases n,
{
    if n <= 0 {
        Seq::empty()
    } else {
        frame_lines(x, y, w, n - 1, fill, focused) + (ansi::cursor(y + n, x) + "│"@ + "\x1b[0m"@
            + ansi::bg_code(fill) + row_of(' ', w - 2) + "\x1b[0m"@ + edge(focused) + "│"@)
    }
}

proof fn lemma_frame_lines(x: int, y: int, w: int, n: int, fill: Rgb, focused: bool)
    requires
        w >= 2 || n <= 0,
    ensures
        render::frame_rows(x, y, w, n, fill, focused) == frame_lines(x, y, w, n, fill, focused),
    decreases n,
{
    if n > 0 {
        lemma_frame_lines(x, y, w, n - 1, fill, focused);
        reveal_strlit(" ");
        assert(" "@ == seq![' ']);
        lemma_row_of(" "@, ' ', w - 2);
    }
}

/// A frame of any size: the name in the middle of the upper edge, the hex code at the end of
/// the lower one, and the colour between them.
pub proof fn law_frame(x: int, y: int, w: int, h: int, fill: Rgb, slot: Slot, focused: bool)
    requires
        0 <= w,
        h > 2 ==> w >= 2,
    ensures
        ({
            let pad = if w > 6 {
                w - 6
            } else {
                0
            };
            render::frame_text(x, y, w, h, fill, slot, focused) == ansi::cursor(y, x) + edge(
                focused,
            ) + "┌"@ + row_of('─', pad / 2) + " "@ + name(slot) + " "@ + row_of(
                '─',
                pad - pad / 2,
            ) + "┐"@ + frame_lines(x, y, w, h - 2, fill, focused) + ansi::cursor(y + h - 1, x)
                + "└"@ + row_of('─', w - 11) + " "@ + fill.hex_code() + " "@ + "┘"@ + "\x1b[0m"@
        }),
{
    reveal(render::frame_text);
    reveal_strlit("─");
    assert("─"@ == seq!['─']);
    let pad = text::shortfall(6, w) as int;
    lemma_row_of("─"@, '─', pad / 2);
    lemma_row_of("─"@, '─', pad - pad / 2);
    let k = text::shortfall(11, w) as int;
    lemma_row_of("─"@, '─', k);
    assert(row_of('─', k) == row_of('─', w - 11));
    lemma_frame_lines(x, y, w, h - 2, fill, focused);
}

/// Whether `n` cells of 22 are full for the rounded share `q`: as many as the number nearest
/// to 22 times the share comes to, a half counting as one.
pub open spec fn counted_cells(n: int, q: Single) -> bool {
    exists|p: Single| #[trigger]
        nearest_laws::nearest_to(p, rounding::value(q) * 22 as real) && n as real - 1 as real / 2 as real
            <= rounding::value(p) && rounding::value(p) < n as real + 1 as real / 2 as real
}

/// The full cells are counted so, from the rounded share of the value in the greatest one.
pub proof fn law_cells_round(value: int, max: int)
    requires
        0 <= value <= max,
        0 < max < 0x100_0000,
    ensures
        exists|q: Single| #[trigger]
            nearest_laws::nearest_to(q, value as real / max as real) && counted_cells(
                render::full_cells(value, max),
                q,
            ),
{
    let (x, m, width) = (Single::of_int(value), Single::of_int(max), Single::of_int(22));
    rounding::lemma_tiny_values();
    rounding::lemma_units_steps();
    rounding::lemma_int_value(0);
    rounding::lemma_int_rank(0);
    rounding::lemma_int_value(1);
    rounding::lemma_int_value(22);
    rounding::lemma_int_rank(22);
    rounding::lemma_int_value(value);
    rounding::lemma_int_value(max);
    let (a, b) = (value as real, max as real);
    let r = a / b;
    assert(0 as real <= r <= 1 as real) by (nonlinear_arith)
        requires
            r == a / b,
            0 as real <= a <= b,
            b > 0 as real,
    ;
    let zero = Single::of_int(0);
    let q = x.quotient(m);
    rounding::lemma_quotient_value(x, m, -23);
    rounding::lemma_quotient_side(x, m, zero);
    rounding::lemma_quotient_side(x, m, Single::of_int(1));
    nearest_laws::law_quotient(x, m);
    let p = q.product(width);
    let qv = rounding::value(q);
    assert(0 as real <= qv * (22 as real) <= 22 as real);
    rounding::lemma_product_value(q, width, -16);
    rounding::lemma_product_side(q, width, zero);
    rounding::lemma_product_side(q, width, width);
    nearest_laws::law_product(q, width);
    lemma_counted_value(p);
}

proof fn lemma_counted_value(p: Single)
    requires
        p.is_finite(),
        0 as real <= rounding::value(p) <= 22 as real,
    ensures
        p.counted(22) as real - 1 as real / 2 as real <= rounding::value(p),
        rounding::value(p) < p.counted(22) as real + 1 as real / 2 as real,
{
    rounding::lemma_int_value(0);
    rounding::lemma_int_rank(0);
    rounding::lemma_int_value(22);
    rounding::lemma_int_rank(22);
    rounding::lemma_units_steps();
    rounding::lemma_value_order(Single::of_int(0), p);
    rounding::lemma_value_order(p, Single::of_int(22));
    rounding::lemma_half_up(p);
    let (k, o) = (p.rank(), rounding::one());
    let n = (2 * k + o) / (2 * o);
    vstd::arithmetic::div_mod::lemma_fundamental_div_mod(2 * k + o, 2 * o);
    vstd::arithmetic::div_mod::lemma_mod_bound(2 * k + o, 2 * o);
    let rest = (2 * k + o) % (2 * o);
    let (kr, or, nr, v) = (k as real, o as real, n as real, rounding::value(p));
    assert(2 * k + o == 2 * o * n + rest);
    assert(2 as real * or * nr <= 2 as real * kr + or && 2 as real * kr + or < 2 as real * or * nr
        + 2 as real * or) by (nonlinear_arith)
        requires
            2 * k + o == 2 * o * n + rest,
            0 <= rest < 2 * o,
            kr == k as real,
            or == o as real,
            nr == n as real,
    ;
    assert(nr - 1 as real / 2 as real <= v && v < nr + 1 as real / 2 as real) by (nonlinear_arith)
        requires
            v == kr / or,
            or > 0 as real,
            2 as real * or * nr <= 2 as real * kr + or,
            2 as real * kr + or < 2 as real * or * nr + 2 as real * or,
    {
        assert(v * or == kr);
        assert((nr - 1 as real / 2 as real) * or <= v * or);
        assert(v * or < (nr + 1 as real / 2 as real) * or);
    }
    assert(n <= 22) by (nonlinear_arith)
        requires
            2 * k + o == 2 * o * n + rest,
            0 <= rest,
            k <= 22 * o,
            o > 0,
    ;
    assert(n >= 0) by (nonlinear_arith)
        requires
            2 * k + o == 2 * o * n + rest,
            rest < 2 * o,
            k >= 0,
            o > 0,
    ;
    if p.parts()->Finite_neg {
        rounding::lemma_counted(p, p, 22);
        rounding::lemma_finite_rank(p);
        let (sig, exp) = (p.parts()->sig as int, p.parts()->exp as int);
        rounding::lemma_units_double(exp);
        let u = rounding::units(exp);
        assert(k == 0) by (nonlinear_arith)
            requires
                k == (-sig) * u,
                k >= 0,
                sig >= 0,
                u > 0,
        ;
        assert(v == 0 as real) by (nonlinear_arith)
            requires
                v == kr / or,
                kr == 0 as real,
                or > 0 as real,
        ;
    }
}

} // verus!
