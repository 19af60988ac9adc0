//! The screen, as one text.
use vstd::prelude::*;
use crate::ansi::{bg_esc, fg_esc, move_to, RESET};
use crate::app::{App, Channel, OutputFmt, Slot, State};
use crate::color::{Hsv, Rgb};
use crate::contrast::{contrast_ratio, wcag_label, PowerTable};
use crate::keys::slot_label;
use crate::single::Single;
use crate::text::{align_right, decimal_text, repeat_text, signed_decimal_text};

verus! {

/// How many of a slider's 22 cells are full.
pub open spec fn full_cells(value: int, max: int) -> int {
    Single::of_int(value).quotient(Single::of_int(max)).product(Single::of_int(22)).counted(22)
}

/// A slider: its name, bright where it has the focus, a bar of 22 cells in the colour
/// `hint`, and the value.
#[verifier::opaque]
pub open spec fn slider_text(
    label: Seq<char>,
    value: int,
    max: int,
    focused: bool,
    hint: Rgb,
) -> Seq<char> {
    let full = full_cells(value, max);
    let style = if focused {
        "\x1b[1;33m"@
    } else {
        "\x1b[2m"@
    };
    style + label + RESET@ + " ["@ + crate::ansi::fg_code(hint) + crate::text::repeated(
        "█"@,
        full as nat,
    ) + crate::text::repeated("░"@, (22 - full) as nat) + RESET@ + "] "@
        + crate::text::right_aligned(crate::text::signed_decimal(value), 3)
}

/// A slider for `value` out of `max`.
pub fn slider(label: &str, value: i32, max: i32, focused: bool, color_hint: &Rgb) -> (r: String)
    ensures
        r@ == slider_text(label@, value as int, max as int, focused, *color_hint),
{
    proof {
        reveal(slider_text);
    }
    let full: u32 = Single::from_int(value).over(Single::from_int(max)).times(
        Single::from_int(22),
    ).round_count(22);
    let mut s = (if focused {
        "\x1b[1;33m"
    } else {
        "\x1b[2m"
    }).to_owned();
    s.append(label);
    s.append(RESET);
    s.append(" [");
    s.append(fg_esc(color_hint).as_str());
    s.append(repeat_text("█", full as usize).as_str());
    s.append(repeat_text("░", (22 - full) as usize).as_str());
    s.append(RESET);
    s.append("] ");
    s.append(align_right(signed_decimal_text(value).as_str(), 3).as_str());
    s
}

/// The colour of a frame: bright where it has the focus.
pub open spec fn border(focused: bool) -> Seq<char> {
    if focused {
        "\x1b[38;2;255;122;58m"@
    } else {
        "\x1b[2m"@
    }
}

/// A row of a frame, filled with a colour.
pub open spec fn frame_row(x: int, y: int, w: int, fill: Rgb, focused: bool) -> Seq<char> {
    crate::ansi::cursor(y, x) + "│"@ + RESET@ + crate::ansi::bg_code(fill) + crate::text::repeated(
        " "@,
        (w - 2) as nat,
    ) + RESET@ + border(focused) + "│"@
}

/// The first `n` rows of a frame.
pub open spec fn frame_rows(
    x: int,
    y: int,
    w: int,
    n: int,
    fill: Rgb,
    focused: bool,
) -> Seq<char>
    decreases n,
{
    if n <= 0 {
        Seq::empty()
    } else {
        frame_rows(x, y, w, n - 1, fill, focused) + frame_row(x, y + n, w, fill, focused)
    }
}

/// A frame of `w` columns and `h` rows around a colour: the slot's name above, the hex code
/// below.
#[verifier::opaque]
pub open spec fn frame_text(
    x: int,
    y: int,
    w: int,
    h: int,
    fill: Rgb,
    slot: Slot,
    focused: bool,
) -> Seq<char> {
    let pad = crate::text::shortfall(6, w);
    let rule = "─"@;
    crate::ansi::cursor(y, x) + border(focused) + "┌"@ + crate::text::repeated(rule, pad / 2) + " "@
        + crate::keys::slot_name(slot) + " "@ + crate::text::repeated(rule, (pad - pad / 2) as nat)
        + "┐"@ + frame_rows(x, y, w, h - 2, fill, focused) + crate::ansi::cursor(y + h - 1, x)
        + "└"@ + crate::text::repeated(rule, crate::text::shortfall(11, w)) + " "@
        + fill.hex_code() + " "@ + "┘"@ + RESET@
}

/// A frame around a colour.
pub fn frame(x: u16, y: u16, w: u16, h: u16, fill: &Rgb, slot: Slot, focused: bool) -> (r: String)
    requires
        h >= 1,
        h > 2 ==> w >= 2,
        y + h <= u16::MAX,
    ensures
        r@ == frame_text(x as int, y as int, w as int, h as int, *fill, slot, focused),
{
    proof {
        reveal(frame_text);
    }
    let colour = if focused {
        "\x1b[38;2;255;122;58m"
    } else {
        "\x1b[2m"
    };
    let mut s = move_to(y, x);
    s.append(colour);
    s.append("┌");
    // two corners and a name of two letters between blanks
    let pad: usize = (w as usize).saturating_sub(6);
    s.append(repeat_text("─", pad / 2).as_str());
    s.append(" ");
    s.append(slot_label(slot));
    s.append(" ");
    s.append(repeat_text("─", pad - pad / 2).as_str());
    s.append("┐");
    let ghost top = s@;
    let mut i: u16 = 1;
    assert(s@ == top + frame_rows(x as int, y as int, w as int, 0, *fill, focused));
    while i < h - 1
        invariant
            1 <= i,
            h >= 1,
            h >= 2 ==> i <= h - 1,
            h < 2 ==> i == 1,
            h > 2 ==> w >= 2,
            y + h <= u16::MAX,
            colour@ == border(focused),
            s@ == top + frame_rows(x as int, y as int, w as int, i - 1, *fill, focused),
        decreases h - i,
    {
        let ghost above = s@;
        let mut row = move_to(y + i, x);
        row.append("│");
        row.append(RESET);
        row.append(bg_esc(fill).as_str());
        row.append(repeat_text(" ", w as usize - 2).as_str());
        row.append(RESET);
        row.append(colour);
        row.append("│");
        s.append(row.as_str());
        assert(s@ == top + (frame_rows(x as int, y as int, w as int, i - 1, *fill, focused)
            + frame_row(x as int, y + i, w as int, *fill, focused)));
        i = i + 1;
    }
    assert(frame_rows(x as int, y as int, w as int, i - 1, *fill, focused) == frame_rows(
        x as int,
        y as int,
        w as int,
        h - 2,
        *fill,
        focused,
    ));
    s.append(move_to(y + h - 1, x).as_str());
    s.append("└");
    // two corners and a code of seven letters between blanks
    s.append(repeat_text("─", (w as usize).saturating_sub(11)).as_str());
    s.append(" ");
    s.append(fill.hex().as_str());
    s.append(" ");
    s.append("┘");
    s.append(RESET);
    s
}

/// The title row.
#[verifier::opaque]
pub open spec fn title_text(slot: Slot) -> Seq<char> {
    crate::ansi::cursor(2, 3)
        + "\x1b[1;38;2;247;76;0mprism\x1b[0m  TUI color picker  \x1b[2m(editing: "@
        + crate::keys::slot_name(slot) + ")\x1b[0m"@
}

fn title(slot: Slot) -> (r: String)
    ensures
        r@ == title_text(slot),
{
    proof {
        reveal(title_text);
    }
    let mut s = move_to(2, 3);
    s.append("\x1b[1;38;2;247;76;0mprism\x1b[0m  TUI color picker  \x1b[2m(editing: ");
    s.append(slot_label(slot));
    s.append(")\x1b[0m");
    s
}

/// The contrast of the two colours, with its grade.
#[verifier::opaque]
pub open spec fn contrast_text(ratio: Single) -> Seq<char> {
    crate::ansi::cursor(5, 42) + "\x1b[1mContrast:\x1b[0m "@ + ratio.cent_figures() + ":1  "@
        + crate::contrast::grade(ratio).0 + " "@ + crate::contrast::grade(ratio).1
        + crate::ansi::cursor(7, 42) + "\x1b[2mWCAG: AAA ≥ 7   AA ≥ 4.5   AA· ≥ 3\x1b[0m"@
}

fn contrast_lines(ratio: Single) -> (r: String)
    ensures
        r@ == contrast_text(ratio),
{
    proof {
        reveal(contrast_text);
    }
    let (level, mark) = wcag_label(ratio);
    let mut s = move_to(5, 42);
    s.append("\x1b[1mContrast:\x1b[0m ");
    s.append(ratio.to_cent_text().as_str());
    s.append(":1  ");
    s.append(level);
    s.append(" ");
    s.append(mark);
    s.append(move_to(7, 42).as_str());
    s.append("\x1b[2mWCAG: AAA ≥ 7   AA ≥ 4.5   AA· ≥ 3\x1b[0m");
    s
}

/// A line of sample text in both colours, filled up to the width `w`.
pub open spec fn sample_line(row: int, text: Seq<char>, w: int, fg: Rgb, bg: Rgb) -> Seq<char> {
    crate::ansi::cursor(row, 3) + crate::ansi::bg_code(bg) + crate::ansi::fg_code(fg) + text
        + crate::text::repeated(" "@, crate::text::shortfall(text.len() as int, w)) + RESET@
}

fn sample(row: u16, text: &str, w: usize, fg: &Rgb, bg: &Rgb) -> (r: String)
    ensures
        r@ == sample_line(row as int, text@, w as int, *fg, *bg),
{
    let mut s = move_to(row, 3);
    s.append(bg_esc(bg).as_str());
    s.append(fg_esc(fg).as_str());
    s.append(text);
    s.append(repeat_text(" ", w.saturating_sub(text.unicode_len())).as_str());
    s.append(RESET);
    s
}

/// The width of the sample text on a screen of `cols` columns.
pub open spec fn sample_width(cols: u16) -> int {
    if cols < 6 {
        0
    } else if cols - 6 > 80 {
        80
    } else {
        cols - 6
    }
}

/// The sample text, between two rules.
#[verifier::opaque]
pub open spec fn sample_text(cols: u16, fg: Rgb, bg: Rgb) -> Seq<char> {
    let w = sample_width(cols);
    crate::ansi::cursor(11, 3) + "\x1b[2m── Sample "@ + crate::text::repeated(
        "─"@,
        crate::text::shortfall(11, w),
    ) + "\x1b[0m"@ + sample_line(12, "# The quick brown fox jumps over the lazy dog"@, w, fg, bg)
        + sample_line(
        13,
        "fn main() { println!(\"Hello, world!\"); }    // body comment"@,
        w,
        fg,
        bg,
    ) + sample_line(14, "*bold* /italic/ _underline_   →   link text"@, w, fg, bg)
        + sample_line(
        15,
        "Plain prose on the chosen background — sample, sample, sample."@,
        w,
        fg,
        bg,
    ) + sample_line(16, "1234567890   !@#$%^&*()   abc DEF ghi JKL"@, w, fg, bg)
        + crate::ansi::cursor(17, 3) + "\x1b[2m"@ + crate::text::repeated("─"@, w as nat)
        + "\x1b[0m"@
}

fn samples(cols: u16, fg: &Rgb, bg: &Rgb) -> (r: String)
    ensures
        r@ == sample_text(cols, *fg, *bg),
{
    proof {
        reveal(sample_text);
    }
    let room: u16 = cols.saturating_sub(6);
    let w: usize = if room > 80 {
        80
    } else {
        room as usize
    };
    let mut s = move_to(11, 3);
    s.append("\x1b[2m── Sample ");
    s.append(repeat_text("─", w.saturating_sub(11)).as_str());
    s.append("\x1b[0m");
    s.append(sample(12, "# The quick brown fox jumps over the lazy dog", w, fg, bg).as_str());
    s.append(
        sample(
            13,
            "fn main() { println!(\"Hello, world!\"); }    // body comment",
            w,
            fg,
            bg,
        ).as_str(),
    );
    s.append(sample(14, "*bold* /italic/ _underline_   →   link text", w, fg, bg).as_str());
    s.append(
        sample(
            15,
            "Plain prose on the chosen background — sample, sample, sample.",
            w,
            fg,
            bg,
        ).as_str(),
    );
    s.append(sample(16, "1234567890   !@#$%^&*()   abc DEF ghi JKL", w, fg, bg).as_str());
    s.append(move_to(17, 3).as_str());
    s.append("\x1b[2m");
    s.append(repeat_text("─", w).as_str());
    s.append("\x1b[0m");
    s
}

/// A share in whole hundredths, the rest cut off.
pub open spec fn percent(share: Single) -> int {
    share.product(Single::of_int(100)).toward_zero(i32::MIN as int, i32::MAX as int)
}

fn to_percent(share: Single) -> (r: i32)
    ensures
        r == percent(share),
        i32::MIN <= percent(share) <= i32::MAX,
{
    share.times(Single::from_int(100)).truncate(i32::MIN as i64, i32::MAX as i64) as i32
}

/// The six sliders for the colour that is edited.
#[verifier::opaque]
pub open spec fn sliders_text(cur: Rgb, channel: Channel) -> Seq<char> {
    let hsv = cur.hsv();
    let red = Rgb { r: 255, g: 80, b: 80 };
    let green = Rgb { r: 80, g: 220, b: 100 };
    let blue = Rgb { r: 90, g: 140, b: 255 };
    let hue = hsv.h.toward_zero(i32::MIN as int, i32::MAX as int);
    crate::ansi::cursor(19, 3) + slider_text("R"@, cur.r as int, 255, channel == Channel::R, red)
        + crate::ansi::cursor(19, 45) + slider_text("H"@, hue, 359, channel == Channel::H, cur)
        + crate::ansi::cursor(20, 3) + slider_text(
        "G"@,
        cur.g as int,
        255,
        channel == Channel::G,
        green,
    ) + crate::ansi::cursor(20, 45) + slider_text(
        "S"@,
        percent(hsv.s),
        100,
        channel == Channel::S,
        cur,
    ) + crate::ansi::cursor(21, 3) + slider_text(
        "B"@,
        cur.b as int,
        255,
        channel == Channel::B,
        blue,
    ) + crate::ansi::cursor(21, 45) + slider_text(
        "V"@,
        percent(hsv.v),
        100,
        channel == Channel::V,
        cur,
    )
}

fn sliders(cur: &Rgb, channel: Channel) -> (r: String)
    ensures
        r@ == sliders_text(*cur, channel),
{
    proof {
        reveal(sliders_text);
    }
    let hsv = cur.to_hsv();
    let red = Rgb { r: 255, g: 80, b: 80 };
    let green = Rgb { r: 80, g: 220, b: 100 };
    let blue = Rgb { r: 90, g: 140, b: 255 };
    let hue: i32 = hsv.h.truncate(i32::MIN as i64, i32::MAX as i64) as i32;
    let mut s = move_to(19, 3);
    s.append(slider("R", cur.r as i32, 255, channel == Channel::R, &red).as_str());
    s.append(move_to(19, 45).as_str());
    s.append(slider("H", hue, 359, channel == Channel::H, cur).as_str());
    s.append(move_to(20, 3).as_str());
    s.append(slider("G", cur.g as i32, 255, channel == Channel::G, &green).as_str());
    s.append(move_to(20, 45).as_str());
    s.append(slider("S", to_percent(hsv.s), 100, channel == Channel::S, cur).as_str());
    s.append(move_to(21, 3).as_str());
    s.append(slider("B", cur.b as i32, 255, channel == Channel::B, &blue).as_str());
    s.append(move_to(21, 45).as_str());
    s.append(slider("V", to_percent(hsv.v), 100, channel == Channel::V, cur).as_str());
    s
}

/// What the channels mean.
#[verifier::opaque]
pub open spec fn notes_text() -> Seq<char> {
    crate::ansi::cursor(23, 3)
        + "\x1b[2mRGB — additive light. Each channel 0–255; mix the three primaries.\x1b[0m"@
        + crate::ansi::cursor(24, 3)
        + "\x1b[2m  R = red     G = green     B = blue       (0,0,0)=black · (255,255,255)=white\x1b[0m"@
        + crate::ansi::cursor(26, 3)
        + "\x1b[2mHSV — perceptual model, what humans intuitively reach for.\x1b[0m"@
        + crate::ansi::cursor(27, 3)
        + "\x1b[2m  H = hue          0–360°   which color (0=red, 120=green, 240=blue)\x1b[0m"@
        + crate::ansi::cursor(28, 3)
        + "\x1b[2m  S = saturation   0–100    vividness   (0 = grayscale, 100 = pure)\x1b[0m"@
        + crate::ansi::cursor(29, 3)
        + "\x1b[2m  V = value        0–100    brightness  (0 = black, 100 = full)\x1b[0m"@
}

fn notes() -> (r: String)
    ensures
        r@ == notes_text(),
{
    proof {
        reveal(notes_text);
    }
    let mut s = move_to(23, 3);
    s.append("\x1b[2mRGB — additive light. Each channel 0–255; mix the three primaries.\x1b[0m");
    s.append(move_to(24, 3).as_str());
    s.append(
        "\x1b[2m  R = red     G = green     B = blue       (0,0,0)=black · (255,255,255)=white\x1b[0m",
    );
    s.append(move_to(26, 3).as_str());
    s.append("\x1b[2mHSV — perceptual model, what humans intuitively reach for.\x1b[0m");
    s.append(move_to(27, 3).as_str());
    s.append("\x1b[2m  H = hue          0–360°   which color (0=red, 120=green, 240=blue)\x1b[0m");
    s.append(move_to(28, 3).as_str());
    s.append("\x1b[2m  S = saturation   0–100    vividness   (0 = grayscale, 100 = pure)\x1b[0m");
    s.append(move_to(29, 3).as_str());
    s.append("\x1b[2m  V = value        0–100    brightness  (0 = black, 100 = full)\x1b[0m");
    s
}

/// A colour as `rgb(R, G, B)`.
pub open spec fn rgb_text(c: Rgb) -> Seq<char> {
    "rgb("@ + crate::text::decimal(c.r as int) + ", "@ + crate::text::decimal(c.g as int) + ", "@
        + crate::text::decimal(c.b as int) + ")"@
}

/// A colour as `hsv(H, S%, V%)`, each rounded to a whole number.
pub open spec fn hsv_text(c: Rgb) -> Seq<char> {
    let hsv = c.hsv();
    "hsv("@ + hsv.h.whole_figures() + ", "@ + hsv.s.product(Single::of_int(100)).whole_figures()
        + "%, "@ + hsv.v.product(Single::of_int(100)).whole_figures() + "%)"@
}

/// A colour as `rgb(R, G, B)`.
pub fn rgb_string(c: &Rgb) -> (r: String)
    ensures
        r@ == rgb_text(*c),
{
    let mut s = "rgb(".to_owned();
    s.append(decimal_text(c.r as u128).as_str());
    s.append(", ");
    s.append(decimal_text(c.g as u128).as_str());
    s.append(", ");
    s.append(decimal_text(c.b as u128).as_str());
    s.append(")");
    s
}

/// A colour as `hsv(H, S%, V%)`.
pub fn hsv_string(c: &Rgb) -> (r: String)
    ensures
        r@ == hsv_text(*c),
{
    let hsv = c.to_hsv();
    let hundred = Single::from_int(100);
    let mut s = "hsv(".to_owned();
    s.append(hsv.h.to_whole_text().as_str());
    s.append(", ");
    s.append(hsv.s.times(hundred).to_whole_text().as_str());
    s.append("%, ");
    s.append(hsv.v.times(hundred).to_whole_text().as_str());
    s.append("%)");
    s
}

/// The name of an output format.
pub open spec fn format_name(f: OutputFmt) -> Seq<char> {
    match f {
        OutputFmt::Hex => "hex"@,
        OutputFmt::Rgb => "rgb"@,
        OutputFmt::Hsv => "hsv"@,
        OutputFmt::All => "all"@,
    }
}

/// A colour in an output format.
pub open spec fn formatted(c: Rgb, f: OutputFmt) -> Seq<char> {
    match f {
        OutputFmt::Hex => c.hex_code(),
        OutputFmt::Rgb => rgb_text(c),
        OutputFmt::Hsv => hsv_text(c),
        OutputFmt::All => c.hex_code() + "  "@ + rgb_text(c) + "  "@ + hsv_text(c),
    }
}

fn format_label(f: OutputFmt) -> (r: &'static str)
    ensures
        r@ == format_name(f),
{
    match f {
        OutputFmt::Hex => "hex",
        OutputFmt::Rgb => "rgb",
        OutputFmt::Hsv => "hsv",
        OutputFmt::All => "all",
    }
}

fn in_format(c: &Rgb, f: OutputFmt) -> (r: String)
    ensures
        r@ == formatted(*c, f),
{
    match f {
        OutputFmt::Hex => c.hex(),
        OutputFmt::Rgb => rgb_string(c),
        OutputFmt::Hsv => hsv_string(c),
        OutputFmt::All => {
            let mut s = c.hex();
            s.append("  ");
            s.append(rgb_string(c).as_str());
            s.append("  ");
            s.append(hsv_string(c).as_str());
            s
        },
    }
}

/// The colour that is edited, by its hex code and in the output format.
#[verifier::opaque]
pub open spec fn output_text(cur: Rgb, f: OutputFmt) -> Seq<char> {
    crate::ansi::cursor(31, 3) + "\x1b[1mHex:\x1b[0m "@ + cur.hex_code() + "    \x1b[2mout("@
        + format_name(f) + "):\x1b[0m "@ + formatted(cur, f)
}

fn output(cur: &Rgb, f: OutputFmt) -> (r: String)
    ensures
        r@ == output_text(*cur, f),
{
    proof {
        reveal(output_text);
    }
    let mut s = move_to(31, 3);
    s.append("\x1b[1mHex:\x1b[0m ");
    s.append(cur.hex().as_str());
    s.append("    \x1b[2mout(");
    s.append(format_label(f));
    s.append("):\x1b[0m ");
    s.append(in_format(cur, f).as_str());
    s
}

/// The keys, and above them the status where there is one.
#[verifier::opaque]
pub open spec fn footer_text(rows: u16, status: Seq<char>) -> Seq<char> {
    let y: int = if rows < 2 {
        0
    } else {
        rows - 2
    };
    let help = crate::ansi::cursor(y, 3)
        + "\x1b[2mTab swap FG/BG · r/g/b/h/s/v focus · j/k ±1 · J/K ±10 · # type hex · c copy · o output · q quit\x1b[0m"@;
    if status.len() == 0 {
        help
    } else {
        help + crate::ansi::cursor(y - 1, 3) + "\x1b[1;38;2;90;200;255m"@ + status + "\x1b[0m"@
    }
}

fn footer(rows: u16, status: &str) -> (r: String)
    requires
        status@.len() == 0 || rows >= 3,
    ensures
        r@ == footer_text(rows, status@),
{
    proof {
        reveal(footer_text);
    }
    let y: u16 = rows.saturating_sub(2);
    let mut s = move_to(y, 3);
    s.append(
        "\x1b[2mTab swap FG/BG · r/g/b/h/s/v focus · j/k ±1 · J/K ±10 · # type hex · c copy · o output · q quit\x1b[0m",
    );
    if !status.is_empty() {
        s.append(move_to(y - 1, 3).as_str());
        s.append("\x1b[1;38;2;90;200;255m");
        s.append(status);
        s.append("\x1b[0m");
    }
    s
}

/// The whole screen.
pub open spec fn screen(s: State, cols: u16, rows: u16, powers: Seq<Single>) -> Seq<char> {
    "\x1b[H"@ + "\x1b[J"@ + title_text(s.editing) + frame_text(
        3,
        4,
        16,
        6,
        s.fg,
        Slot::Fg,
        s.editing == Slot::Fg,
    ) + frame_text(23, 4, 16, 6, s.bg, Slot::Bg, s.editing == Slot::Bg) + contrast_text(
        crate::contrast::contrast(s.fg, s.bg, powers),
    ) + sample_text(cols, s.fg, s.bg) + sliders_text(s.current(), s.channel) + notes_text()
        + output_text(s.current(), s.out_fmt) + footer_text(rows, s.status) + "\x1b[?25l"@
}

/// Draws the whole screen.
pub fn render(app: &App, cols: u16, rows: u16, table: &PowerTable) -> (r: String)
    requires
        app.status@.len() == 0 || rows >= 3,
    ensures
        r@ == screen(app@, cols, rows, table.powers@),
{
    let cur = app.current();
    let mut s = "\x1b[H".to_owned();
    s.append("\x1b[J");
    s.append(title(app.editing).as_str());
    s.append(frame(3, 4, 16, 6, &app.fg, Slot::Fg, app.editing == Slot::Fg).as_str());
    s.append(frame(23, 4, 16, 6, &app.bg, Slot::Bg, app.editing == Slot::Bg).as_str());
    s.append(contrast_lines(contrast_ratio(&app.fg, &app.bg, table)).as_str());
    s.append(samples(cols, &app.fg, &app.bg).as_str());
    s.append(sliders(&cur, app.channel).as_str());
    s.append(notes().as_str());
    s.append(output(&cur, app.out_fmt).as_str());
    s.append(footer(rows, app.status.as_str()).as_str());
    s.append("\x1b[?25l");
    s
}

/// The size to draw for: that of the terminal, or a fair one in place of each measure that
/// is too small to be true.
pub open spec fn drawn(cols: u16, rows: u16) -> (u16, u16) {
    (
        if cols < 80 {
            100
        } else {
            cols
        },
        if rows < 24 {
            28
        } else {
            rows
        },
    )
}

/// The size to draw for.
pub fn drawing_size(cols: u16, rows: u16) -> (r: (u16, u16))
    ensures
        r == drawn(cols, rows),
        r.0 == if cols < 80 {
            100
        } else {
            cols
        },
        r.1 == if rows < 24 {
            28
        } else {
            rows
        },
{
    (
        if cols < 80 {
            100
        } else {
            cols
        },
        if rows < 24 {
            28
        } else {
            rows
        },
    )
}

} // verus!
