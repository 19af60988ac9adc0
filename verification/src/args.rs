//! The command line.
use vstd::prelude::*;
use vstd::utf8::*;
use crate::app::{App, Channel, Mode, OutputFmt, Slot, State};
use crate::color::Rgb;
use crate::text::same_text;

verus! {

/// What the command line asks for.
#[derive(Debug)]
pub enum Startup {
    /// Say how the program is used.
    Help,
    /// Pick colours, beginning with this picker.
    Run(App),
}

/// The picker before any argument: orange on black.
pub open spec fn defaults() -> State {
    State {
        fg: Rgb { r: 247, g: 76, b: 0 },
        bg: Rgb { r: 0, g: 0, b: 0 },
        editing: Slot::Fg,
        channel: Channel::R,
        out_fmt: OutputFmt::Hex,
        mode: Mode::Pair,
        status: Seq::empty(),
    }
}

/// Whether an argument asks for help.
pub open spec fn asks_help(arg: Seq<char>) -> bool {
    arg == "-h"@ || arg == "--help"@
}

/// The picker after an option, where the argument is one.
pub open spec fn after_option(s: State, arg: Seq<char>) -> Option<State> {
    if arg == "--pick"@ {
        Some(State { mode: Mode::Pick, ..s })
    } else if arg == "--pair"@ {
        Some(State { mode: Mode::Pair, ..s })
    } else if arg == "--rgb"@ {
        Some(State { out_fmt: OutputFmt::Rgb, ..s })
    } else if arg == "--hsv"@ {
        Some(State { out_fmt: OutputFmt::Hsv, ..s })
    } else if arg == "--hex"@ {
        Some(State { out_fmt: OutputFmt::Hex, ..s })
    } else if arg == "--all"@ {
        Some(State { out_fmt: OutputFmt::All, ..s })
    } else {
        None
    }
}

/// Whether an argument is read as a hex code: it begins with a hash sign or has six bytes.
pub open spec fn code_shaped(arg: Seq<char>) -> bool {
    (arg.len() > 0 && arg[0] == '#') || encode_utf8(arg).len() == 6
}

/// The picker after an argument that is no option, with `before` such arguments before it:
/// the first one is for the foreground, any later one for the background.
pub open spec fn after_colour(s: State, arg: Seq<char>, before: nat) -> State {
    if code_shaped(arg) && Rgb::of_hex_code(arg) is Some {
        let c = Rgb::of_hex_code(arg)->0;
        if before == 0 {
            State { fg: c, ..s }
        } else {
            State { bg: c, ..s }
        }
    } else {
        s
    }
}

/// The picker after the arguments from the `i`-th on, with `before` arguments that are no
/// options before them; nothing where one of them asks for help.
pub open spec fn after_args(s: State, args: Seq<String>, i: int, before: nat) -> Option<State>
    decreases args.len() - i,
{
    if i >= args.len() {
        Some(s)
    } else if asks_help(args[i]@) {
        None
    } else {
        match after_option(s, args[i]@) {
            Some(t) => after_args(t, args, i + 1, before),
            None => after_args(after_colour(s, args[i]@, before), args, i + 1, before + 1),
        }
    }
}

/// Whether every hex code from the `i`-th argument on, up to one that asks for help, can be
/// cut into its three parts.
pub open spec fn codes_cut(args: Seq<String>, i: int) -> bool
    decreases args.len() - i,
{
    if i >= args.len() || asks_help(args[i]@) {
        true
    } else {
        &&& after_option(defaults(), args[i]@) is None && code_shaped(args[i]@)
            ==> crate::color::cuts_cleanly(args[i]@)
        &&& codes_cut(args, i + 1)
    }
}

fn is_help(arg: &str) -> (r: bool)
    ensures
        r == asks_help(arg@),
{
    same_text(arg, "-h") || same_text(arg, "--help")
}

fn is_code_shaped(arg: &str) -> (r: bool)
    ensures
        r == code_shaped(arg@),
{
    (arg.unicode_len() > 0 && arg.get_char(0) == '#') || arg.as_bytes().len() == 6
}

fn is_option(arg: &str) -> (r: bool)
    ensures
        forall|s: State| r == #[trigger] after_option(s, arg@) is Some,
{
    same_text(arg, "--pick") || same_text(arg, "--pair") || same_text(arg, "--rgb") || same_text(
        arg,
        "--hsv",
    ) || same_text(arg, "--hex") || same_text(arg, "--all")
}

/// Whether every hex code among the arguments can be cut into its three parts.
pub fn can_read(args: &Vec<String>) -> (r: bool)
    ensures
        r == codes_cut(args@, 0),
{
    let mut i: usize = 0;
    while i < args.len()
        invariant
            i <= args.len(),
            codes_cut(args@, 0) == codes_cut(args@, i as int),
        decreases args.len() - i,
    {
        let arg = args[i].as_str();
        if is_help(arg) {
            return true;
        }
        if !is_option(arg) && is_code_shaped(arg) && !Rgb::can_cut(arg) {
            return false;
        }
        i = i + 1;
    }
    true
}

impl App {
    /// The picker before any argument.
    pub fn new() -> (r: App)
        ensures
            r@ == defaults(),
    {
        App {
            fg: Rgb { r: 247, g: 76, b: 0 },
            bg: Rgb { r: 0, g: 0, b: 0 },
            editing: Slot::Fg,
            channel: Channel::R,
            out_fmt: OutputFmt::Hex,
            mode: Mode::Pair,
            status: String::new(),
        }
    }

    /// Takes an option, where the argument is one.
    fn take_option(&mut self, arg: &str) -> (r: bool)
        ensures
            r == after_option(old(self)@, arg@) is Some,
            r ==> Some(final(self)@) == after_option(old(self)@, arg@),
            !r ==> final(self)@ == old(self)@,
    {
        if same_text(arg, "--pick") {
            self.mode = Mode::Pick;
        } else if same_text(arg, "--pair") {
            self.mode = Mode::Pair;
        } else if same_text(arg, "--rgb") {
            self.out_fmt = OutputFmt::Rgb;
        } else if same_text(arg, "--hsv") {
            self.out_fmt = OutputFmt::Hsv;
        } else if same_text(arg, "--hex") {
            self.out_fmt = OutputFmt::Hex;
        } else if same_text(arg, "--all") {
            self.out_fmt = OutputFmt::All;
        } else {
            return false;
        }
        true
    }
}

/// Reads the arguments after the program's name.
pub fn read_args(args: &Vec<String>) -> (r: Startup)
    requires
        codes_cut(args@, 0),
    ensures
        match r {
            Startup::Help => after_args(defaults(), args@, 0, 0) is None,
            Startup::Run(app) => after_args(defaults(), args@, 0, 0) == Some(app@),
        },
{
    let mut app = App::new();
    let mut i: usize = 0;
    let mut before: usize = 0;
    while i < args.len()
        invariant
            before <= i <= args.len(),
            codes_cut(args@, i as int),
            after_args(defaults(), args@, 0, 0) == after_args(
                app@,
                args@,
                i as int,
                before as nat,
            ),
        decreases args.len() - i,
    {
        let arg = args[i].as_str();
        if is_help(arg) {
            return Startup::Help;
        }
        if !app.take_option(arg) {
            if is_code_shaped(arg) {
                match Rgb::from_hex(arg) {
                    Some(c) => {
                        if before == 0 {
                            app.fg = c;
                        } else {
                            app.bg = c;
                        }
                    },
                    None => {},
                }
            }
            before = before + 1;
        }
        i = i + 1;
    }
    Startup::Run(app)
}

/// How the program is used.
pub open spec fn usage_lines() -> Seq<char> {
    "prism — TUI RGB color picker\n\n"@
        + "Usage: prism [--pick|--pair] [--hex|--rgb|--hsv|--all] [HEX [HEX]]\n\n"@
        + "  --pick           pick a single color (FG slot)\n"@
        + "  --pair           pick FG + BG (default)\n"@
        + "  --hex/--rgb/--hsv/--all  output format on quit\n"@
        + "  HEX HEX          preload FG and BG with hex codes\n"@
}

/// The lines that say how the program is used.
pub fn usage() -> (r: String)
    ensures
        r@ == usage_lines(),
{
    let mut s = "prism — TUI RGB color picker\n\n".to_owned();
    s.append("Usage: prism [--pick|--pair] [--hex|--rgb|--hsv|--all] [HEX [HEX]]\n\n");
    s.append("  --pick           pick a single color (FG slot)\n");
    s.append("  --pair           pick FG + BG (default)\n");
    s.append("  --hex/--rgb/--hsv/--all  output format on quit\n");
    s.append("  HEX HEX          preload FG and BG with hex codes\n");
    s
}

} // verus!
