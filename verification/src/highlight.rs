//! Where the bright style of a slider with the focus stands on the screen.
use vstd::prelude::*;
use crate::ansi;
use crate::ansi::RESET;
use crate::app::{Channel, OutputFmt, Slot, State};
use crate::color::Rgb;
use crate::contrast;
use crate::keys;
use crate::render;
use crate::single::{Parts, Single};
use crate::text;

verus! {

/// Whether `part` stands in `text` from the place `i` on.
pub open spec fn occurs_at(text: Seq<char>, i: int, part: Seq<char>) -> bool {
    &&& 0 <= i
    &&& i + part.len() <= text.len()
    &&& text.subrange(i, i + part.len()) == part
}

/// At how many of the first `n` places of `text` there is `part`.
pub open spec fn occurrences_before(text: Seq<char>, part: Seq<char>, n: int) -> nat
    decreases n,
{
    if n <= 0 {
        0
    } else {
        occurrences_before(text, part, n - 1) + if occurs_at(text, n - 1, part) {
            1nat
        } else {
            0nat
        }
    }
}

/// How often `part` stands in `text`.
pub open spec fn occurrences(text: Seq<char>, part: Seq<char>) -> nat {
    occurrences_before(text, part, text.len() as int)
}

/// The style of the name of a slider with the focus.
pub open spec fn bright() -> Seq<char> {
    "\x1b[1;33m"@
}

/// The letter of a channel.
pub open spec fn letter(channel: Channel) -> Seq<char> {
    match channel {
        Channel::R => "R"@,
        Channel::G => "G"@,
        Channel::B => "B"@,
        Channel::H => "H"@,
        Channel::S => "S"@,
        Channel::V => "V"@,
    }
}

/// How a slider begins after its style.
pub open spec fn slider_head(label: Seq<char>) -> Seq<char> {
    label + RESET@ + " ["@
}

/// No escape character.
#[verifier::opaque]
pub open spec fn calm(t: Seq<char>) -> bool {
    forall|i: int| 0 <= i < t.len() ==> #[trigger] t[i] != '\x1b'
}

/// What begins at `i` is seen within `t` not to be the bright style.
pub open spec fn other_style(t: Seq<char>, i: int) -> bool {
    ||| i + 1 < t.len() && t[i + 1] != '['
    ||| i + 2 < t.len() && t[i + 2] != '1'
    ||| i + 3 < t.len() && t[i + 3] != ';'
    ||| i + 4 < t.len() && t[i + 4] != '3'
    ||| i + 5 < t.len() && t[i + 5] != '3'
    ||| i + 6 < t.len() && t[i + 6] != 'm'
}

/// No escape sequence is the bright style or the beginning of it.
#[verifier::opaque]
pub open spec fn quiet(t: Seq<char>) -> bool {
    forall|i: int| 0 <= i < t.len() && #[trigger] t[i] == '\x1b' ==> other_style(t, i)
}

/// The bright style stands at `p`, before the slider `label`, and nowhere else.
pub open spec fn lit_at(t: Seq<char>, p: int, label: Seq<char>) -> bool {
    &&& occurs_at(t, p, bright() + slider_head(label))
    &&& quiet(t.subrange(0, p))
    &&& quiet(t.subrange(p + bright().len(), t.len() as int))
}

/// The bright style stands once, before the slider `label`.
#[verifier::opaque]
pub open spec fn lit(t: Seq<char>, label: Seq<char>) -> bool {
    exists|p: int| #[trigger] lit_at(t, p, label)
}

broadcast proof fn lemma_calm_is_quiet(t: Seq<char>)
    requires
        #[trigger] calm(t),
    ensures
        quiet(t),
{
    reveal(calm);
    reveal(quiet);
}

broadcast proof fn lemma_calm_add(a: Seq<char>, b: Seq<char>)
    requires
        calm(a),
        calm(b),
    ensures
        #[trigger] calm(a + b),
{
    reveal(calm);
}

broadcast proof fn lemma_quiet_add(a: Seq<char>, b: Seq<char>)
    requires
        quiet(a),
        quiet(b),
    ensures
        #[trigger] quiet(a + b),
{
    reveal(quiet);
    let t = a + b;
    assert forall|i: int| 0 <= i < t.len() && #[trigger] t[i] == '\x1b' implies other_style(t, i) by {
        if i < a.len() {
            assert(a[i] == '\x1b');
        } else {
            assert(b[i - a.len()] == '\x1b');
        }
    }
}

broadcast proof fn lemma_lit_before(a: Seq<char>, b: Seq<char>, label: Seq<char>)
    requires
        lit(a, label),
        quiet(b),
    ensures
        #[trigger] lit(a + b, label),
{
    reveal(lit);
    let p = choose|p: int| #[trigger] lit_at(a, p, label);
    let t = a + b;
    let part = bright() + slider_head(label);
    let n = bright().len() as int;
    assert(t.subrange(p, p + part.len()) == a.subrange(p, p + part.len()));
    assert(t.subrange(0, p) == a.subrange(0, p));
    let rest = a.subrange(p + n, a.len() as int);
    assert(t.subrange(p + n, t.len() as int) == rest + b);
    lemma_quiet_add(rest, b);
    assert(lit_at(t, p, label));
}

broadcast proof fn lemma_lit_after(a: Seq<char>, b: Seq<char>, label: Seq<char>)
    requires
        quiet(a),
        lit(b, label),
    ensures
        #[trigger] lit(a + b, label),
{
    reveal(lit);
    let p = choose|p: int| #[trigger] lit_at(b, p, label);
    let t = a + b;
    let q = a.len() + p;
    let part = bright() + slider_head(label);
    let n = bright().len() as int;
    assert(t.subrange(q, q + part.len()) == b.subrange(p, p + part.len()));
    let head = b.subrange(0, p);
    assert(t.subrange(0, q) == a + head);
    lemma_quiet_add(a, head);
    assert(t.subrange(q + n, t.len() as int) == b.subrange(p + n, b.len() as int));
    assert(lit_at(t, q, label));
}

broadcast group group_quiet {
    lemma_calm_is_quiet,
    lemma_calm_add,
    lemma_quiet_add,
    lemma_lit_before,
    lemma_lit_after,
}

/// The bright style stands exactly once where it is lit.
pub proof fn lemma_lit_once(t: Seq<char>, label: Seq<char>)
    requires
        lit(t, label),
    ensures
        occurrences(t, bright()) == 1,
        exists|i: int| occurs_at(t, i, bright() + slider_head(label)),
{
    reveal(lit);
    reveal_strlit("\x1b[1;33m");
    let p = choose|p: int| #[trigger] lit_at(t, p, label);
    let part = bright() + slider_head(label);
    assert(part.subrange(0, 7) == bright());
    assert(t.subrange(p, p + 7) == t.subrange(p, p + part.len()).subrange(0, 7));
    assert(occurs_at(t, p, bright()));
    assert forall|i: int| #[trigger] occurs_at(t, i, bright()) implies i == p by {
        lemma_only_place(t, p, label, i);
    }
    lemma_counted_once(t, bright(), p, t.len() as int);
}

/// There is no second place.
proof fn lemma_only_place(t: Seq<char>, p: int, label: Seq<char>, i: int)
    requires
        lit_at(t, p, label),
        occurs_at(t, p, bright()),
        occurs_at(t, i, bright()),
    ensures
        i == p,
{
    reveal(quiet);
    reveal_strlit("\x1b[1;33m");
    let (at, here) = (t.subrange(i, i + 7), t.subrange(p, p + 7));
    assert(at[0] == t[i] && at[1] == t[i + 1] && at[2] == t[i + 2] && at[3] == t[i + 3] && at[4]
        == t[i + 4] && at[5] == t[i + 5] && at[6] == t[i + 6]);
    assert(here[1] == t[p + 1] && here[2] == t[p + 2] && here[3] == t[p + 3] && here[4] == t[p + 4]
        && here[5] == t[p + 5] && here[6] == t[p + 6]);
    if i < p {
        let before = t.subrange(0, p);
        assert(before[i] == '\x1b');
        assert(other_style(before, i));
    } else if i >= p + 7 {
        let after = t.subrange(p + 7, t.len() as int);
        assert(after[i - p - 7] == '\x1b');
        assert(other_style(after, i - p - 7));
    }
}

/// A text with one place counts as one from there on.
proof fn lemma_counted_once(t: Seq<char>, part: Seq<char>, p: int, n: int)
    requires
        occurs_at(t, p, part),
        forall|i: int| #[trigger] occurs_at(t, i, part) ==> i == p,
        part.len() > 0,
        0 <= n,
    ensures
        occurrences_before(t, part, n) == if p < n {
            1nat
        } else {
            0nat
        },
    decreases n,
{
    if n > 0 {
        lemma_counted_once(t, part, p, n - 1);
    }
}

/// Decimal digits are digits.
proof fn lemma_decimal(n: int)
    requires
        0 <= n,
    ensures
        text::decimal(n).len() > 0,
        forall|i: int|
            0 <= i < text::decimal(n).len() ==> '0' <= #[trigger] text::decimal(n)[i] <= '9',
        calm(text::decimal(n)),
    decreases n,
{
    reveal(calm);
    if n >= 10 {
        lemma_decimal(n / 10);
    }
}

proof fn lemma_signed_decimal(n: int)
    ensures
        calm(text::signed_decimal(n)),
{
    broadcast use group_quiet;

    if n < 0 {
        lemma_decimal(-n);
        reveal_strlit("-");
        reveal(calm);
    } else {
        lemma_decimal(n);
    }
}

proof fn lemma_repeated(unit: Seq<char>, n: nat)
    requires
        calm(unit),
    ensures
        calm(text::repeated(unit, n)),
    decreases n,
{
    if n == 0 {
        reveal(calm);
    } else {
        lemma_repeated(unit, (n - 1) as nat);
        lemma_calm_add(text::repeated(unit, (n - 1) as nat), unit);
    }
}

/// A move of the cursor is no style.
proof fn lemma_cursor(row: int, col: int)
    requires
        0 <= row,
        0 <= col,
    ensures
        quiet(ansi::cursor(row, col)),
{
    reveal(quiet);
    reveal_strlit("\x1b[");
    reveal_strlit(";");
    reveal_strlit("H");
    lemma_decimal(row);
    lemma_decimal(col);
    let t = ansi::cursor(row, col);
    let (a, b) = (text::decimal(row), text::decimal(col));
    let n = a.len() as int;
    assert(t.len() == 4 + n + b.len());
    assert forall|i: int| 0 < i < t.len() implies #[trigger] t[i] != '\x1b' && t[i] != 'm' by {
        if i == 1 {
        } else if i < 2 + n {
            assert(t[i] == a[i - 2]);
        } else if i == 2 + n {
        } else if i < t.len() - 1 {
            assert(t[i] == b[i - 3 - n]);
        }
    }
    assert(t[t.len() - 1] == 'H');
    assert(other_style(t, 0));
}

proof fn lemma_levels(c: Rgb)
    ensures
        calm(ansi::levels(c)),
        quiet(ansi::fg_code(c)),
        quiet(ansi::bg_code(c)),
{
    broadcast use group_quiet;

    lemma_decimal(c.r as int);
    lemma_decimal(c.g as int);
    lemma_decimal(c.b as int);
    reveal_strlit(";");
    reveal_strlit("m");
    reveal_strlit("\x1b[38;2;");
    reveal_strlit("\x1b[48;2;");
    assert(calm(";"@) && calm("m"@)) by {
        reveal(calm);
    }
    assert(quiet("\x1b[38;2;"@) && quiet("\x1b[48;2;"@)) by {
        reveal(quiet);
    }
}

proof fn lemma_hex_code(c: Rgb)
    ensures
        calm(c.hex_code()),
{
    reveal(calm);
    let t = c.hex_code();
    assert forall|i: int| 0 <= i < t.len() implies #[trigger] t[i] != '\x1b' by {
        assert(i == 0 || i == 1 || i == 2 || i == 3 || i == 4 || i == 5 || i == 6);
    }
}

/// Marks that stand alone.
proof fn lemma_marks()
    ensures
        calm(" "@),
        calm("─"@),
        calm("│"@),
        calm("┌"@),
        calm("┐"@),
        calm("└"@),
        calm("┘"@),
        calm("█"@),
        calm("░"@),
        calm(" ["@),
        calm("] "@),
        calm("  "@),
        calm(", "@),
        calm(")"@),
        quiet(RESET@),
        quiet("\x1b[0m"@),
        quiet("\x1b[2m"@),
        RESET@ == "\x1b[0m"@,
{
    reveal_strlit(" ");
    reveal_strlit("─");
    reveal_strlit("│");
    reveal_strlit("┌");
    reveal_strlit("┐");
    reveal_strlit("└");
    reveal_strlit("┘");
    reveal_strlit("█");
    reveal_strlit("░");
    reveal_strlit(" [");
    reveal_strlit("] ");
    reveal_strlit("  ");
    reveal_strlit(", ");
    reveal_strlit(")");
    reveal_strlit("\x1b[0m");
    reveal_strlit("\x1b[2m");
    reveal(calm);
    reveal(quiet);
}

/// A slider is lit where it has the focus, and quiet elsewhere.
proof fn lemma_slider(label: Seq<char>, value: int, max: int, focused: bool, hint: Rgb)
    requires
        calm(label),
    ensures
        focused ==> lit(render::slider_text(label, value, max, focused, hint), label),
        !focused ==> quiet(render::slider_text(label, value, max, focused, hint)),
{
    broadcast use group_quiet;

    reveal(render::slider_text);
    lemma_marks();
    lemma_levels(hint);
    lemma_signed_decimal(value);
    let full = render::full_cells(value, max);
    lemma_repeated("█"@, full as nat);
    lemma_repeated("░"@, (22 - full) as nat);
    let number = text::signed_decimal(value);
    lemma_repeated(" "@, text::shortfall(number.len() as int, 3));
    let t = render::slider_text(label, value, max, focused, hint);
    if focused {
        let bar = ansi::fg_code(hint) + text::repeated("█"@, full as nat) + text::repeated(
            "░"@,
            (22 - full) as nat,
        ) + RESET@ + "] "@ + text::right_aligned(number, 3);
        let head = slider_head(label);
        assert(t == bright() + head + bar);
        let n = bright().len() as int;
        let part = bright() + head;
        assert(t.subrange(0, part.len() as int) == part);
        assert(t.subrange(n, t.len() as int) == head + bar);
        assert(quiet(head + bar));
        assert(quiet(t.subrange(0, 0))) by {
            reveal(quiet);
        }
        assert(lit_at(t, 0, label));
        reveal(lit);
    }
}

/// The six sliders: that of the channel is lit.
#[verifier::rlimit(40)]
proof fn lemma_sliders(cur: Rgb, channel: Channel)
    ensures
        lit(render::sliders_text(cur, channel), letter(channel)),
{
    broadcast use group_quiet;

    reveal(render::sliders_text);
    let hsv = cur.hsv();
    let red = Rgb { r: 255, g: 80, b: 80 };
    let green = Rgb { r: 80, g: 220, b: 100 };
    let blue = Rgb { r: 90, g: 140, b: 255 };
    let hue = hsv.h.toward_zero(i32::MIN as int, i32::MAX as int);
    reveal_strlit("R");
    reveal_strlit("G");
    reveal_strlit("B");
    reveal_strlit("H");
    reveal_strlit("S");
    reveal_strlit("V");
    assert(calm("R"@) && calm("G"@) && calm("B"@) && calm("H"@) && calm("S"@) && calm("V"@)) by {
        reveal(calm);
    }
    lemma_cursor(19, 3);
    lemma_cursor(19, 45);
    lemma_cursor(20, 3);
    lemma_cursor(20, 45);
    lemma_cursor(21, 3);
    lemma_cursor(21, 45);
    lemma_slider("R"@, cur.r as int, 255, channel == Channel::R, red);
    lemma_slider("H"@, hue, 359, channel == Channel::H, cur);
    lemma_slider("G"@, cur.g as int, 255, channel == Channel::G, green);
    lemma_slider("S"@, render::percent(hsv.s), 100, channel == Channel::S, cur);
    lemma_slider("B"@, cur.b as int, 255, channel == Channel::B, blue);
    lemma_slider("V"@, render::percent(hsv.v), 100, channel == Channel::V, cur);
}

proof fn lemma_title(slot: Slot)
    ensures
        quiet(render::title_text(slot)),
{
    broadcast use group_quiet;

    reveal(render::title_text);
    lemma_cursor(2, 3);
    lemma_slot_name(slot);
    reveal_strlit("\x1b[1;38;2;247;76;0mprism\x1b[0m  TUI color picker  \x1b[2m(editing: ");
    reveal_strlit(")\x1b[0m");
    assert(quiet("\x1b[1;38;2;247;76;0mprism\x1b[0m  TUI color picker  \x1b[2m(editing: "@)
        && quiet(")\x1b[0m"@)) by {
        reveal(quiet);
    }
}

proof fn lemma_slot_name(slot: Slot)
    ensures
        calm(keys::slot_name(slot)),
{
    reveal_strlit("FG");
    reveal_strlit("BG");
    reveal(calm);
}

proof fn lemma_border(focused: bool)
    ensures
        quiet(render::border(focused)),
{
    reveal_strlit("\x1b[38;2;255;122;58m");
    reveal_strlit("\x1b[2m");
    reveal(quiet);
}

proof fn lemma_frame_rows(x: int, y: int, w: int, n: int, fill: Rgb, focused: bool)
    requires
        0 <= x,
        0 <= y,
        2 <= w,
    ensures
        quiet(render::frame_rows(x, y, w, n, fill, focused)),
    decreases n,
{
    broadcast use group_quiet;

    if n <= 0 {
        reveal(quiet);
    } else {
        lemma_frame_rows(x, y, w, n - 1, fill, focused);
        lemma_marks();
        lemma_cursor(y + n, x);
        lemma_levels(fill);
        lemma_repeated(" "@, (w - 2) as nat);
        lemma_border(focused);
    }
}

proof fn lemma_frame(x: int, y: int, w: int, h: int, fill: Rgb, slot: Slot, focused: bool)
    requires
        0 <= x,
        0 <= y,
        2 <= w,
        1 <= h,
    ensures
        quiet(render::frame_text(x, y, w, h, fill, slot, focused)),
{
    broadcast use group_quiet;

    reveal(render::frame_text);
    let pad = text::shortfall(6, w);
    lemma_marks();
    lemma_cursor(y, x);
    lemma_cursor(y + h - 1, x);
    lemma_border(focused);
    lemma_slot_name(slot);
    lemma_hex_code(fill);
    lemma_repeated("─"@, pad / 2);
    lemma_repeated("─"@, (pad - pad / 2) as nat);
    lemma_repeated("─"@, text::shortfall(11, w));
    lemma_frame_rows(x, y, w, h - 2, fill, focused);
}

proof fn lemma_in_units(sig: int, exp: int, unit: int)
    requires
        0 <= sig,
        0 <= unit,
    ensures
        0 <= Single::in_units(sig, exp, unit),
{
    vstd::arithmetic::mul::lemma_mul_nonnegative(sig, unit);
    if exp >= 0 {
        let p = vstd::arithmetic::power2::pow2(exp as nat) as int;
        vstd::arithmetic::mul::lemma_mul_nonnegative(sig, p);
        vstd::arithmetic::mul::lemma_mul_nonnegative(sig * p, unit);
    } else {
        vstd::arithmetic::power2::lemma_pow2_pos((-exp) as nat);
        crate::rounding::lemma_half_even(
            sig * unit,
            vstd::arithmetic::power2::pow2((-exp) as nat) as int,
        );
    }
}

proof fn lemma_figures(x: Single)
    ensures
        calm(x.whole_figures()),
        calm(x.cent_figures()),
{
    broadcast use group_quiet;

    reveal_strlit("NaN");
    reveal_strlit("inf");
    reveal_strlit("-");
    reveal_strlit("");
    reveal_strlit(".");
    assert(calm("NaN"@) && calm("inf"@) && calm("-"@) && calm(""@) && calm("."@)) by {
        reveal(calm);
    }
    match x.parts() {
        Parts::Finite { neg, sig, exp } => {
            lemma_in_units(sig as int, exp as int, 1);
            lemma_in_units(sig as int, exp as int, 100);
            lemma_decimal(Single::in_units(sig as int, exp as int, 1));
            let n = Single::in_units(sig as int, exp as int, 100);
            lemma_decimal(n / 100);
            assert(calm(seq![text::digit(n / 10 % 10)]) && calm(seq![text::digit(n % 10)])) by {
                reveal(calm);
            }
        },
        _ => {},
    }
}

proof fn lemma_contrast(ratio: Single)
    ensures
        quiet(render::contrast_text(ratio)),
{
    broadcast use group_quiet;

    reveal(render::contrast_text);
    lemma_marks();
    lemma_cursor(5, 42);
    lemma_cursor(7, 42);
    lemma_figures(ratio);
    reveal_strlit("\x1b[1mContrast:\x1b[0m ");
    reveal_strlit(":1  ");
    reveal_strlit("\x1b[2mWCAG: AAA ≥ 7   AA ≥ 4.5   AA· ≥ 3\x1b[0m");
    assert(quiet("\x1b[1mContrast:\x1b[0m "@) && quiet(":1  "@) && quiet(
        "\x1b[2mWCAG: AAA ≥ 7   AA ≥ 4.5   AA· ≥ 3\x1b[0m"@,
    )) by {
        reveal(quiet);
    }
    reveal_strlit("AAA");
    reveal_strlit("AA");
    reveal_strlit("AA·");
    reveal_strlit("✗ low");
    reveal_strlit("✓");
    reveal_strlit("·");
    reveal_strlit("✗");
    assert(calm("AAA"@) && calm("AA"@) && calm("AA·"@) && calm("✗ low"@) && calm("✓"@) && calm(
        "·"@,
    ) && calm("✗"@)) by {
        reveal(calm);
    }
}

proof fn lemma_sample_line(row: int, line: Seq<char>, w: int, fg: Rgb, bg: Rgb)
    requires
        0 <= row,
        calm(line),
    ensures
        quiet(render::sample_line(row, line, w, fg, bg)),
{
    broadcast use group_quiet;

    lemma_marks();
    lemma_cursor(row, 3);
    lemma_levels(fg);
    lemma_levels(bg);
    lemma_repeated(" "@, text::shortfall(line.len() as int, w));
}

proof fn lemma_sample_lines()
    ensures
        calm("# The quick brown fox jumps over the lazy dog"@),
        calm("fn main() { println!(\"Hello, world!\"); }    // body comment"@),
        calm("*bold* /italic/ _underline_   →   link text"@),
        calm("Plain prose on the chosen background — sample, sample, sample."@),
        calm("1234567890   !@#$%^&*()   abc DEF ghi JKL"@),
        quiet("\x1b[2m── Sample "@),
{
    reveal_strlit("# The quick brown fox jumps over the lazy dog");
    reveal_strlit("fn main() { println!(\"Hello, world!\"); }    // body comment");
    reveal_strlit("*bold* /italic/ _underline_   →   link text");
    reveal_strlit("Plain prose on the chosen background — sample, sample, sample.");
    reveal_strlit("1234567890   !@#$%^&*()   abc DEF ghi JKL");
    reveal_strlit("\x1b[2m── Sample ");
    reveal(calm);
    reveal(quiet);
}

proof fn lemma_sample(cols: u16, fg: Rgb, bg: Rgb)
    ensures
        quiet(render::sample_text(cols, fg, bg)),
{
    broadcast use group_quiet;

    reveal(render::sample_text);
    let w = render::sample_width(cols);
    lemma_marks();
    lemma_sample_lines();
    lemma_cursor(11, 3);
    lemma_cursor(17, 3);
    lemma_repeated("─"@, text::shortfall(11, w));
    lemma_repeated("─"@, w as nat);
    lemma_sample_line(12, "# The quick brown fox jumps over the lazy dog"@, w, fg, bg);
    lemma_sample_line(
        13,
        "fn main() { println!(\"Hello, world!\"); }    // body comment"@,
        w,
        fg,
        bg,
    );
    lemma_sample_line(14, "*bold* /italic/ _underline_   →   link text"@, w, fg, bg);
    lemma_sample_line(
        15,
        "Plain prose on the chosen background — sample, sample, sample."@,
        w,
        fg,
        bg,
    );
    lemma_sample_line(16, "1234567890   !@#$%^&*()   abc DEF ghi JKL"@, w, fg, bg);
}

proof fn lemma_notes()
    ensures
        quiet(render::notes_text()),
{
    broadcast use group_quiet;

    reveal(render::notes_text);
    lemma_cursor(23, 3);
    lemma_cursor(24, 3);
    lemma_cursor(26, 3);
    lemma_cursor(27, 3);
    lemma_cursor(28, 3);
    lemma_cursor(29, 3);
    lemma_notes_on_levels();
    lemma_notes_on_hue();
}

proof fn lemma_notes_on_levels()
    ensures
        quiet("\x1b[2mRGB — additive light. Each channel 0–255; mix the three primaries.\x1b[0m"@),
        quiet(
            "\x1b[2m  R = red     G = green     B = blue       (0,0,0)=black · (255,255,255)=white\x1b[0m"@,
        ),
{
    reveal_strlit(
        "\x1b[2mRGB — additive light. Each channel 0–255; mix the three primaries.\x1b[0m",
    );
    reveal_strlit(
        "\x1b[2m  R = red     G = green     B = blue       (0,0,0)=black · (255,255,255)=white\x1b[0m",
    );
    reveal(quiet);
}

proof fn lemma_notes_on_hue()
    ensures
        quiet("\x1b[2mHSV — perceptual model, what humans intuitively reach for.\x1b[0m"@),
        quiet(
            "\x1b[2m  H = hue          0–360°   which color (0=red, 120=green, 240=blue)\x1b[0m"@,
        ),
        quiet("\x1b[2m  S = saturation   0–100    vividness   (0 = grayscale, 100 = pure)\x1b[0m"@),
        quiet("\x1b[2m  V = value        0–100    brightness  (0 = black, 100 = full)\x1b[0m"@),
{
    reveal_strlit("\x1b[2mHSV — perceptual model, what humans intuitively reach for.\x1b[0m");
    reveal_strlit(
        "\x1b[2m  H = hue          0–360°   which color (0=red, 120=green, 240=blue)\x1b[0m",
    );
    reveal_strlit(
        "\x1b[2m  S = saturation   0–100    vividness   (0 = grayscale, 100 = pure)\x1b[0m",
    );
    reveal_strlit("\x1b[2m  V = value        0–100    brightness  (0 = black, 100 = full)\x1b[0m");
    reveal(quiet);
}

proof fn lemma_colour_texts(c: Rgb)
    ensures
        calm(render::rgb_text(c)),
        calm(render::hsv_text(c)),
{
    broadcast use group_quiet;

    lemma_marks();
    lemma_decimal(c.r as int);
    lemma_decimal(c.g as int);
    lemma_decimal(c.b as int);
    let hsv = c.hsv();
    lemma_figures(hsv.h);
    lemma_figures(hsv.s.product(Single::of_int(100)));
    lemma_figures(hsv.v.product(Single::of_int(100)));
    reveal_strlit("rgb(");
    reveal_strlit("hsv(");
    reveal_strlit("%, ");
    reveal_strlit("%)");
    assert(calm("rgb("@) && calm("hsv("@) && calm("%, "@) && calm("%)"@)) by {
        reveal(calm);
    }
}

proof fn lemma_output(cur: Rgb, f: OutputFmt)
    ensures
        quiet(render::output_text(cur, f)),
{
    broadcast use group_quiet;

    reveal(render::output_text);
    lemma_marks();
    lemma_cursor(31, 3);
    lemma_hex_code(cur);
    lemma_colour_texts(cur);
    reveal_strlit("\x1b[1mHex:\x1b[0m ");
    reveal_strlit("    \x1b[2mout(");
    reveal_strlit("):\x1b[0m ");
    reveal_strlit("hex");
    reveal_strlit("rgb");
    reveal_strlit("hsv");
    reveal_strlit("all");
    assert(quiet("\x1b[1mHex:\x1b[0m "@) && quiet("    \x1b[2mout("@) && quiet("):\x1b[0m "@)) by {
        reveal(quiet);
    }
    assert(calm("hex"@) && calm("rgb"@) && calm("hsv"@) && calm("all"@)) by {
        reveal(calm);
    }
}

proof fn lemma_footer(rows: u16, status: Seq<char>)
    requires
        calm(status),
        status.len() == 0 || rows >= 3,
    ensures
        quiet(render::footer_text(rows, status)),
{
    broadcast use group_quiet;

    reveal(render::footer_text);
    lemma_marks();
    let y: int = if rows < 2 {
        0
    } else {
        rows - 2
    };
    lemma_cursor(y, 3);
    reveal_strlit(
        "\x1b[2mTab swap FG/BG · r/g/b/h/s/v focus · j/k ±1 · J/K ±10 · # type hex · c copy · o output · q quit\x1b[0m",
    );
    reveal_strlit("\x1b[1;38;2;90;200;255m");
    assert(quiet(
        "\x1b[2mTab swap FG/BG · r/g/b/h/s/v focus · j/k ±1 · J/K ±10 · # type hex · c copy · o output · q quit\x1b[0m"@,
    ) && quiet("\x1b[1;38;2;90;200;255m"@)) by {
        reveal(quiet);
    }
    if status.len() > 0 {
        lemma_cursor(y - 1, 3);
    }
}

/// On a whole screen the slider of the channel is lit.
pub proof fn lemma_screen(s: State, cols: u16, rows: u16, powers: Seq<Single>)
    requires
        calm(s.status),
        s.status.len() == 0 || rows >= 3,
    ensures
        lit(render::screen(s, cols, rows, powers), letter(s.channel)),
{
    broadcast use group_quiet;

    reveal_strlit("\x1b[H");
    reveal_strlit("\x1b[J");
    reveal_strlit("\x1b[?25l");
    assert(quiet("\x1b[H"@) && quiet("\x1b[J"@) && quiet("\x1b[?25l"@)) by {
        reveal(quiet);
    }
    lemma_title(s.editing);
    lemma_frame(3, 4, 16, 6, s.fg, Slot::Fg, s.editing == Slot::Fg);
    lemma_frame(23, 4, 16, 6, s.bg, Slot::Bg, s.editing == Slot::Bg);
    lemma_contrast(contrast::contrast(s.fg, s.bg, powers));
    lemma_sample(cols, s.fg, s.bg);
    lemma_sliders(s.current(), s.channel);
    lemma_notes();
    lemma_output(s.current(), s.out_fmt);
    lemma_footer(rows, s.status);
}

} // verus!
