//! What keys do: to the picker, and to a hex code that is typed.
use vstd::prelude::*;
use vstd::utf8::*;
use crate::ansi::move_to;
use crate::app::{App, Channel, OutputFmt, Slot, State};
use crate::color::Rgb;
use crate::text::same_text;

verus! {

/// What is to be done outside of the picker after a key.
#[derive(Debug)]
pub enum Action {
    /// Nothing: draw the screen again.
    Stay,
    /// Leave the picker.
    Quit,
    /// Let a hex code be typed.
    Prompt,
    /// Put a text on the clipboard.
    Copy(String),
}

/// An [`Action`], with its text as a sequence of characters.
pub enum Asked {
    Stay,
    Quit,
    Prompt,
    Copy(Seq<char>),
}

impl View for Action {
    type V = Asked;

    open spec fn view(&self) -> Asked {
        match self {
            Action::Stay => Asked::Stay,
            Action::Quit => Asked::Quit,
            Action::Prompt => Asked::Prompt,
            Action::Copy(s) => Asked::Copy(s@),
        }
    }
}

/// The slot that is not `slot`.
pub open spec fn other_slot(slot: Slot) -> Slot {
    match slot {
        Slot::Fg => Slot::Bg,
        Slot::Bg => Slot::Fg,
    }
}

/// The output format after `f`.
pub open spec fn next_format(f: OutputFmt) -> OutputFmt {
    match f {
        OutputFmt::Hex => OutputFmt::Rgb,
        OutputFmt::Rgb => OutputFmt::Hsv,
        OutputFmt::Hsv => OutputFmt::All,
        OutputFmt::All => OutputFmt::Hex,
    }
}

/// The name of a slot.
pub open spec fn slot_name(slot: Slot) -> Seq<char> {
    match slot {
        Slot::Fg => "FG"@,
        Slot::Bg => "BG"@,
    }
}

/// The channel that a key chooses.
pub open spec fn channel_key(key: Seq<char>) -> Option<Channel> {
    if key == "r"@ {
        Some(Channel::R)
    } else if key == "g"@ {
        Some(Channel::G)
    } else if key == "b"@ {
        Some(Channel::B)
    } else if key == "h"@ {
        Some(Channel::H)
    } else if key == "s"@ {
        Some(Channel::S)
    } else if key == "v"@ {
        Some(Channel::V)
    } else {
        None
    }
}

/// The step that a key makes.
pub open spec fn step_key(key: Seq<char>) -> Option<int> {
    if key == "j"@ || key == "DOWN"@ || key == "LEFT"@ {
        Some(-1)
    } else if key == "k"@ || key == "UP"@ || key == "RIGHT"@ {
        Some(1)
    } else if key == "J"@ || key == "S-DOWN"@ || key == "S-LEFT"@ {
        Some(-10)
    } else if key == "K"@ || key == "S-UP"@ || key == "S-RIGHT"@ {
        Some(10)
    } else {
        None
    }
}

/// Whether a key leaves the picker.
pub open spec fn quits(key: Seq<char>) -> bool {
    key == "q"@ || key == "ESC"@
}

impl State {
    /// The picker after a key.
    pub open spec fn after_key(self, key: Seq<char>) -> State {
        if quits(key) {
            self
        } else if key == "TAB"@ {
            State { editing: other_slot(self.editing), status: Seq::empty(), ..self }
        } else if channel_key(key) is Some {
            State { channel: channel_key(key)->0, ..self }
        } else if step_key(key) is Some {
            self.stepped(step_key(key)->0)
        } else if key == "c"@ {
            State {
                status: "copied "@ + self.current().hex_code() + " to clipboard"@,
                ..self
            }
        } else if key == "o"@ {
            State { out_fmt: next_format(self.out_fmt), ..self }
        } else {
            self
        }
    }

    /// What a key asks for.
    pub open spec fn asked(self, key: Seq<char>) -> Asked {
        if quits(key) {
            Asked::Quit
        } else if key == "#"@ {
            Asked::Prompt
        } else if key == "c"@ {
            Asked::Copy(self.current().hex_code())
        } else {
            Asked::Stay
        }
    }

    /// The picker after a hex code was typed.
    pub open spec fn after_code(self, code: Seq<char>) -> State {
        match Rgb::of_hex_code(code) {
            Some(c) => State {
                status: "set "@ + slot_name(self.editing) + " = "@ + c.hex_code(),
                ..self.with_current(c)
            },
            None => if code.len() > 0 {
                State { status: "invalid hex: "@ + code, ..self }
            } else {
                self
            },
        }
    }
}

/// The name of a slot.
pub fn slot_label(slot: Slot) -> (r: &'static str)
    ensures
        r@ == slot_name(slot),
{
    match slot {
        Slot::Fg => "FG",
        Slot::Bg => "BG",
    }
}

fn channel_of_key(key: &str) -> (r: Option<Channel>)
    ensures
        r == channel_key(key@),
{
    if same_text(key, "r") {
        Some(Channel::R)
    } else if same_text(key, "g") {
        Some(Channel::G)
    } else if same_text(key, "b") {
        Some(Channel::B)
    } else if same_text(key, "h") {
        Some(Channel::H)
    } else if same_text(key, "s") {
        Some(Channel::S)
    } else if same_text(key, "v") {
        Some(Channel::V)
    } else {
        None
    }
}

fn step_of_key(key: &str) -> (r: Option<i32>)
    ensures
        r is Some == step_key(key@) is Some,
        r matches Some(d) ==> step_key(key@) == Some(d as int) && -10 <= d <= 10,
{
    if same_text(key, "j") || same_text(key, "DOWN") || same_text(key, "LEFT") {
        Some(-1)
    } else if same_text(key, "k") || same_text(key, "UP") || same_text(key, "RIGHT") {
        Some(1)
    } else if same_text(key, "J") || same_text(key, "S-DOWN") || same_text(key, "S-LEFT") {
        Some(-10)
    } else if same_text(key, "K") || same_text(key, "S-UP") || same_text(key, "S-RIGHT") {
        Some(10)
    } else {
        None
    }
}

/// Distinct keys have distinct meanings: the hash sign, `c`, `o` and the tabulator are taken
/// for no other key.
pub proof fn lemma_other_keys()
    ensures
        !quits("#"@),
        "#"@ != "TAB"@,
        channel_key("#"@) is None,
        step_key("#"@) is None,
        "#"@ != "c"@,
        "#"@ != "o"@,
        !quits("c"@),
        "c"@ != "TAB"@,
        channel_key("c"@) is None,
        step_key("c"@) is None,
        !quits("o"@),
        "o"@ != "TAB"@,
        channel_key("o"@) is None,
        step_key("o"@) is None,
        "o"@ != "c"@,
        !quits("TAB"@),
{
    reveal_strlit("#");
    reveal_strlit("c");
    reveal_strlit("o");
    reveal_strlit("q");
    reveal_strlit("ESC");
    reveal_strlit("TAB");
    reveal_strlit("r");
    reveal_strlit("g");
    reveal_strlit("b");
    reveal_strlit("h");
    reveal_strlit("s");
    reveal_strlit("v");
    reveal_strlit("j");
    reveal_strlit("DOWN");
    reveal_strlit("LEFT");
    reveal_strlit("k");
    reveal_strlit("UP");
    reveal_strlit("RIGHT");
    reveal_strlit("J");
    reveal_strlit("S-DOWN");
    reveal_strlit("S-LEFT");
    reveal_strlit("K");
    reveal_strlit("S-UP");
    reveal_strlit("S-RIGHT");
    assert("#"@[0] == '#');
    assert("c"@[0] == 'c');
    assert("o"@[0] == 'o');
    assert("TAB"@[0] == 'T' && "ESC"@[0] == 'E');
}

impl App {
    /// Takes a key, and says what is to be done outside.
    pub fn handle_key(&mut self, key: &str) -> (r: Action)
        ensures
            final(self)@ == old(self)@.after_key(key@),
            r@ == old(self)@.asked(key@),
    {
        proof {
            lemma_other_keys();
        }
        if same_text(key, "q") || same_text(key, "ESC") {
            return Action::Quit;
        }
        if same_text(key, "#") {
            return Action::Prompt;
        }
        if same_text(key, "c") {
            let hex = self.current().hex();
            let mut text = "copied ".to_owned();
            text.append(hex.as_str());
            text.append(" to clipboard");
            self.status = text;
            return Action::Copy(hex);
        }
        if same_text(key, "TAB") {
            self.editing = match self.editing {
                Slot::Fg => Slot::Bg,
                Slot::Bg => Slot::Fg,
            };
            self.status = String::new();
            return Action::Stay;
        }
        match channel_of_key(key) {
            Some(channel) => {
                self.channel = channel;
                return Action::Stay;
            },
            None => {},
        }
        match step_of_key(key) {
            Some(delta) => {
                self.step(delta);
                return Action::Stay;
            },
            None => {},
        }
        if same_text(key, "o") {
            self.out_fmt = match self.out_fmt {
                OutputFmt::Hex => OutputFmt::Rgb,
                OutputFmt::Rgb => OutputFmt::Hsv,
                OutputFmt::Hsv => OutputFmt::All,
                OutputFmt::All => OutputFmt::Hex,
            };
        }
        Action::Stay
    }
}

/// A hex code that is being typed: at most six hexadecimal digits.
#[derive(Debug)]
pub struct HexPrompt {
    pub buf: String,
}

/// Whether a character is a hexadecimal digit, in either case.
pub open spec fn hex_digit(c: char) -> bool {
    ||| '0' <= c <= '9'
    ||| 'a' <= c <= 'f'
    ||| 'A' <= c <= 'F'
}

/// Whether a text can have been typed: at most six hexadecimal digits.
pub open spec fn typed(buf: Seq<char>) -> bool {
    &&& buf.len() <= 6
    &&& forall|i: int| 0 <= i < buf.len() ==> hex_digit(#[trigger] buf[i])
}

/// The code after a key.
pub open spec fn after_press(buf: Seq<char>, key: Seq<char>) -> Seq<char> {
    if key == "ENTER"@ {
        buf
    } else if key == "ESC"@ {
        Seq::empty()
    } else if key == "BACK"@ {
        if buf.len() > 0 {
            buf.drop_last()
        } else {
            buf
        }
    } else if key.len() == 1 && hex_digit(key[0]) && buf.len() < 6 {
        buf + key
    } else {
        buf
    }
}

/// Whether a key ends the typing.
pub open spec fn ends_typing(key: Seq<char>) -> bool {
    key == "ENTER"@ || key == "ESC"@
}

fn is_hex_digit(c: char) -> (r: bool)
    ensures
        r == hex_digit(c),
{
    ('0' <= c && c <= '9') || ('a' <= c && c <= 'f') || ('A' <= c && c <= 'F')
}

impl HexPrompt {
    /// What every key keeps.
    pub open spec fn wf(self) -> bool {
        typed(self.buf@)
    }

    /// Nothing typed yet.
    pub fn new() -> (r: HexPrompt)
        ensures
            r.wf(),
            r.buf@ == Seq::<char>::empty(),
    {
        HexPrompt { buf: String::new() }
    }

    /// Takes a key, and says whether it ends the typing.
    pub fn press(&mut self, key: &str) -> (r: bool)
        requires
            old(self).wf(),
        ensures
            final(self).wf(),
            final(self).buf@ == after_press(old(self).buf@, key@),
            r == ends_typing(key@),
    {
        if same_text(key, "ENTER") {
            return true;
        }
        if same_text(key, "ESC") {
            self.buf = String::new();
            return true;
        }
        let n: usize = self.buf.as_str().unicode_len();
        if same_text(key, "BACK") {
            if n > 0 {
                let shorter = self.buf.as_str().substring_char(0, n - 1).to_owned();
                self.buf = shorter;
                assert(self.buf@ == old(self).buf@.drop_last());
            }
        } else if key.unicode_len() == 1 && is_hex_digit(key.get_char(0)) && n < 6 {
            self.buf.append(key);
        }
        false
    }
}

/// A typed code is its own text, in bytes of one character each.
pub proof fn lemma_typed_bytes(buf: Seq<char>)
    requires
        typed(buf),
    ensures
        crate::color::code_bytes(buf) == Seq::new(buf.len(), |i: int| buf[i] as u8),
        crate::color::cuts_cleanly(buf),
{
    if buf.len() > 0 {
        assert(hex_digit(buf[0]));
        assert(hex_digit(buf.last()));
    }
    assert(crate::text::front_trimmed(buf) == buf);
    assert(crate::text::back_trimmed(buf) == buf);
    assert(crate::text::without_hashes(buf) == buf);
    assert(is_ascii_chars(buf)) by {
        assert forall|i: int| 0 <= i < buf.len() implies buf[i] as u32 <= 127 by {
            assert(hex_digit(buf[i]));
        }
    }
    is_ascii_chars_encode_utf8(buf);
    crate::color::lemma_ascii_cuts(buf);
}

impl App {
    /// Takes the code that was typed for the colour that is edited.
    pub fn take_code(&mut self, prompt: &HexPrompt)
        requires
            prompt.wf(),
        ensures
            final(self)@ == old(self)@.after_code(prompt.buf@),
    {
        proof {
            lemma_typed_bytes(prompt.buf@);
        }
        let code = prompt.buf.as_str();
        match Rgb::from_hex(code) {
            Some(c) => {
                self.set_current(c);
                let mut text = "set ".to_owned();
                text.append(slot_label(self.editing));
                text.append(" = ");
                text.append(c.hex().as_str());
                self.status = text;
            },
            None => {
                if !code.is_empty() {
                    let mut text = "invalid hex: ".to_owned();
                    text.append(code);
                    self.status = text;
                }
            },
        }
    }
}

/// The row that a hex code is typed in.
pub open spec fn prompt_row(rows: u16) -> int {
    if rows < 3 {
        0
    } else {
        rows - 3
    }
}

/// Clears the row for a hex code and shows the cursor there.
pub open spec fn prompt_start(rows: u16) -> Seq<char> {
    crate::ansi::cursor(prompt_row(rows), 3) + "\x1b[2K\x1b[1mhex:\x1b[0m \x1b[?25h"@
}

/// The row with what has been typed of a hex code.
pub open spec fn prompt_text(rows: u16, buf: Seq<char>) -> Seq<char> {
    crate::ansi::cursor(prompt_row(rows), 3) + "\x1b[2K\x1b[1mhex:\x1b[0m "@ + buf
}

/// What to write before a hex code is typed.
pub fn open_prompt(rows: u16) -> (r: String)
    ensures
        r@ == prompt_start(rows),
{
    let mut s = move_to(rows.saturating_sub(3), 3);
    s.append("\x1b[2K\x1b[1mhex:\x1b[0m \x1b[?25h");
    s
}

/// What to write after each key of a hex code.
pub fn prompt_line(rows: u16, prompt: &HexPrompt) -> (r: String)
    ensures
        r@ == prompt_text(rows, prompt.buf@),
{
    let mut s = move_to(rows.saturating_sub(3), 3);
    s.append("\x1b[2K\x1b[1mhex:\x1b[0m ");
    s.append(prompt.buf.as_str());
    s
}

} // verus!
