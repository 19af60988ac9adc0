//! Escape sequences of the terminal.
use vstd::prelude::*;
use crate::color::Rgb;
use crate::text::decimal_text;

verus! {

/// Ends every colour and style.
pub const RESET: &'static str = "\x1b[0m";

/// Three levels, with semicolons between them.
pub open spec fn levels(c: Rgb) -> Seq<char> {
    crate::text::decimal(c.r as int) + ";"@ + crate::text::decimal(c.g as int) + ";"@
        + crate::text::decimal(c.b as int)
}

/// Makes `c` the colour of what is written next.
pub open spec fn fg_code(c: Rgb) -> Seq<char> {
    "\x1b[38;2;"@ + levels(c) + "m"@
}

/// Makes `c` the colour behind what is written next.
pub open spec fn bg_code(c: Rgb) -> Seq<char> {
    "\x1b[48;2;"@ + levels(c) + "m"@
}

/// Puts the cursor at a row and a column.
pub open spec fn cursor(row: int, col: int) -> Seq<char> {
    "\x1b["@ + crate::text::decimal(row) + ";"@ + crate::text::decimal(col) + "H"@
}

fn levels_text(c: &Rgb) -> (r: String)
    ensures
        r@ == levels(*c),
{
    let mut s = decimal_text(c.r as u128);
    s.append(";");
    s.append(decimal_text(c.g as u128).as_str());
    s.append(";");
    s.append(decimal_text(c.b as u128).as_str());
    s
}

/// The sequence that makes `c` the colour of what is written next.
pub fn fg_esc(c: &Rgb) -> (r: String)
    ensures
        r@ == fg_code(*c),
{
    let mut s = "\x1b[38;2;".to_owned();
    s.append(levels_text(c).as_str());
    s.append("m");
    s
}

/// The sequence that makes `c` the colour behind what is written next.
pub fn bg_esc(c: &Rgb) -> (r: String)
    ensures
        r@ == bg_code(*c),
{
    let mut s = "\x1b[48;2;".to_owned();
    s.append(levels_text(c).as_str());
    s.append("m");
    s
}

/// The sequence that puts the cursor at a row and a column.
pub fn move_to(row: u16, col: u16) -> (r: String)
    ensures
        r@ == cursor(row as int, col as int),
{
    let mut s = "\x1b[".to_owned();
    s.append(decimal_text(row as u128).as_str());
    s.append(";");
    s.append(decimal_text(col as u128).as_str());
    s.append("H");
    s
}

} // verus!
