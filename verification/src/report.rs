//! What is written when the picker is left.
use vstd::prelude::*;
use crate::app::{App, Mode, OutputFmt, State};
use crate::color::Rgb;
use crate::render::{hsv_string, rgb_string};

verus! {

/// A line `name=text`.
pub open spec fn line(name: Seq<char>, text: Seq<char>) -> Seq<char> {
    name + "="@ + text + "\n"@
}

/// The lines that an output format adds for a colour.
pub open spec fn extra_lines(name: Seq<char>, c: Rgb, f: OutputFmt) -> Seq<char> {
    match f {
        OutputFmt::Hex => Seq::empty(),
        OutputFmt::Rgb => line(name, crate::render::rgb_text(c)),
        OutputFmt::Hsv => line(name, crate::render::hsv_text(c)),
        OutputFmt::All => line(name, crate::render::rgb_text(c)) + line(
            name,
            crate::render::hsv_text(c),
        ),
    }
}

/// Whether both colours are written: always where both are picked, and where every format
/// is asked for.
pub open spec fn writes_both(s: State) -> bool {
    s.mode == Mode::Pair || s.out_fmt == OutputFmt::All
}

/// The hex codes of the colours that are written, then what the output format adds. A
/// single colour is the foreground.
pub open spec fn report_text(s: State) -> Seq<char> {
    if writes_both(s) {
        line("fg"@, s.fg.hex_code()) + line("bg"@, s.bg.hex_code()) + extra_lines(
            "fg"@,
            s.fg,
            s.out_fmt,
        ) + extra_lines("bg"@, s.bg, s.out_fmt)
    } else {
        line("fg"@, s.fg.hex_code()) + extra_lines("fg"@, s.fg, s.out_fmt)
    }
}

fn line_string(name: &str, text: &str) -> (r: String)
    ensures
        r@ == line(name@, text@),
{
    let mut s = name.to_owned();
    s.append("=");
    s.append(text);
    s.append("\n");
    s
}

fn extras(name: &str, c: &Rgb, f: OutputFmt) -> (r: String)
    ensures
        r@ == extra_lines(name@, *c, f),
{
    match f {
        OutputFmt::Hex => String::new(),
        OutputFmt::Rgb => line_string(name, rgb_string(c).as_str()),
        OutputFmt::Hsv => line_string(name, hsv_string(c).as_str()),
        OutputFmt::All => {
            let mut s = line_string(name, rgb_string(c).as_str());
            s.append(line_string(name, hsv_string(c).as_str()).as_str());
            s
        },
    }
}

/// The lines to write when the picker is left.
pub fn report(app: &App) -> (r: String)
    ensures
        r@ == report_text(app@),
{
    let both = app.mode == Mode::Pair || app.out_fmt == OutputFmt::All;
    let mut s = line_string("fg", app.fg.hex().as_str());
    if both {
        s.append(line_string("bg", app.bg.hex().as_str()).as_str());
    }
    s.append(extras("fg", &app.fg, app.out_fmt).as_str());
    if both {
        s.append(extras("bg", &app.bg, app.out_fmt).as_str());
    }
    s
}

} // verus!
