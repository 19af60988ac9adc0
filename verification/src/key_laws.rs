//! What keys, arguments and the report do, whatever the state.
use vstd::prelude::*;
use vstd::utf8::*;
use crate::ansi;
use crate::app;
use crate::app::{App, Channel, Mode, OutputFmt, Slot, State};
use crate::args;
use crate::color;
use crate::color::Rgb;
use crate::keys;
use crate::keys::{Action, Asked};
use crate::laws;
use crate::render;
use crate::report;
use crate::screen_laws;
use crate::text_laws;

verus! {

/// The colour in a slot.
pub open spec fn in_slot(s: State, slot: Slot) -> Rgb {
    match slot {
        Slot::Fg => s.fg,
        Slot::Bg => s.bg,
    }
}

/// A state with another colour in a slot.
pub open spec fn put(s: State, slot: Slot, c: Rgb) -> State {
    match slot {
        Slot::Fg => State { fg: c, ..s },
        Slot::Bg => State { bg: c, ..s },
    }
}

/// The edited colour is that of the edited slot; to set it changes that slot and nothing
/// else; to step it changes it alone, in the chosen channel.
pub proof fn law_edited_slot(s: State, c: Rgb, delta: int)
    ensures
        s.current() == in_slot(s, s.editing),
        s.with_current(c) == put(s, s.editing, c),
        s.stepped(delta) == put(
            s,
            s.editing,
            app::moved(in_slot(s, s.editing), s.channel, delta),
        ),
{
}

/// What a key asks for: to leave by `q` and escape, to type a code by the hash sign, to copy
/// by `c`; no other key asks for anything.
pub proof fn law_what_keys_ask(s: State, key: Seq<char>)
    ensures
        s.asked(key) is Quit <==> key == "q"@ || key == "ESC"@,
        s.asked(key) is Prompt <==> key == "#"@,
        s.asked(key) is Copy <==> key == "c"@,
        s.asked(key) is Stay <==> key != "q"@ && key != "ESC"@ && key != "#"@ && key != "c"@,
{
    keys::lemma_other_keys();
}

/// The key `c` asks to copy a text that is read as the edited colour, in either slot; the
/// status line names that text, and nothing else changes.
pub proof fn law_copy_key(s: State)
    ensures
        s.asked("c"@) matches Asked::Copy(copied) && {
            &&& Rgb::of_hex_code(copied) == Some(in_slot(s, s.editing))
            &&& copied == in_slot(s, s.editing).hex_code()
            &&& s.after_key("c"@) == (State {
                status: "copied "@ + copied + " to clipboard"@,
                ..s
            })
        },
{
    keys::lemma_other_keys();
    laws::law_hex_there_and_back(in_slot(s, s.editing));
}

/// The tabulator goes to the other slot and clears the status; nothing else changes.
pub proof fn law_tab_key(s: State)
    ensures
        s.after_key("TAB"@).editing != s.editing,
        s.after_key("TAB"@) == (State {
            editing: s.after_key("TAB"@).editing,
            status: Seq::empty(),
            ..s
        }),
{
    keys::lemma_other_keys();
}

/// The output key goes from hex codes to RGB, to HSV, to everything, and to hex codes again.
pub proof fn law_output_key(s: State)
    ensures
        s.after_key("o"@) == (State {
            out_fmt: match s.out_fmt {
                OutputFmt::Hex => OutputFmt::Rgb,
                OutputFmt::Rgb => OutputFmt::Hsv,
                OutputFmt::Hsv => OutputFmt::All,
                OutputFmt::All => OutputFmt::Hex,
            },
            ..s
        }),
{
    keys::lemma_other_keys();
}

/// All key names that have a meaning to the picker, told apart.
proof fn lemma_names()
    ensures
        forall|key: Seq<char>| #[trigger]
            keys::quits(key) ==> keys::channel_key(key) is None && keys::step_key(key) is None,
        keys::channel_key("TAB"@) is None,
        keys::step_key("TAB"@) is None,
        keys::channel_key("r"@) == Some(Channel::R),
        keys::channel_key("g"@) == Some(Channel::G),
        keys::channel_key("b"@) == Some(Channel::B),
        keys::channel_key("h"@) == Some(Channel::H),
        keys::channel_key("s"@) == Some(Channel::S),
        keys::channel_key("v"@) == Some(Channel::V),
        forall|key: Seq<char>|
            #![trigger keys::channel_key(key)]
            keys::channel_key(key) is Some ==> key != "TAB"@ && keys::step_key(key) is None && key
                != "c"@ && key != "o"@,
        forall|key: Seq<char>|
            #![trigger keys::step_key(key)]
            keys::step_key(key) is Some ==> !keys::quits(key) && key != "TAB"@ && keys::channel_key(
                key,
            ) is None && key != "c"@ && key != "o"@,
        !keys::quits("r"@) && !keys::quits("g"@) && !keys::quits("b"@) && !keys::quits("h"@)
            && !keys::quits("s"@) && !keys::quits("v"@),
        keys::step_key("j"@) == Some(-1int) && keys::step_key("DOWN"@) == Some(-1int)
            && keys::step_key("LEFT"@) == Some(-1int),
        keys::step_key("k"@) == Some(1int) && keys::step_key("UP"@) == Some(1int) && keys::step_key(
            "RIGHT"@,
        ) == Some(1int),
        keys::step_key("J"@) == Some(-10int) && keys::step_key("S-DOWN"@) == Some(-10int)
            && keys::step_key("S-LEFT"@) == Some(-10int),
        keys::step_key("K"@) == Some(10int) && keys::step_key("S-UP"@) == Some(10int)
            && keys::step_key("S-RIGHT"@) == Some(10int),
{
    keys::lemma_other_keys();
    reveal_strlit("q");
    reveal_strlit("ESC");
    reveal_strlit("TAB");
    reveal_strlit("r");
    reveal_strlit("g");
    reveal_strlit("b");
    reveal_strlit("h");
    reveal_strlit("s");
    reveal_strlit("v");
    reveal_strlit("j");
    reveal_strlit("DOWN");
    reveal_strlit("LEFT");
    reveal_strlit("k");
    reveal_strlit("UP");
    reveal_strlit("RIGHT");
    reveal_strlit("J");
    reveal_strlit("S-DOWN");
    reveal_strlit("S-LEFT");
    reveal_strlit("K");
    reveal_strlit("S-UP");
    reveal_strlit("S-RIGHT");
    assert("q"@[0] == 'q' && "r"@[0] == 'r' && "g"@[0] == 'g' && "b"@[0] == 'b' && "h"@[0] == 'h'
        && "s"@[0] == 's' && "v"@[0] == 'v' && "j"@[0] == 'j' && "k"@[0] == 'k' && "J"@[0] == 'J'
        && "K"@[0] == 'K');
    assert("ESC"@[0] == 'E' && "TAB"@[0] == 'T' && "DOWN"@[0] == 'D' && "LEFT"@[0] == 'L'
        && "UP"@[0] == 'U' && "RIGHT"@[0] == 'R' && "S-DOWN"@[0] == 'S' && "S-LEFT"@[0] == 'S'
        && "S-UP"@[0] == 'S' && "S-RIGHT"@[0] == 'S');
    assert("S-DOWN"@[2] == 'D' && "S-LEFT"@[2] == 'L' && "S-UP"@[2] == 'U' && "S-RIGHT"@[2] == 'R');
}

/// Each channel has its letter; to choose it changes nothing else.
pub proof fn law_channel_keys(s: State)
    ensures
        s.after_key("r"@) == (State { channel: Channel::R, ..s }),
        s.after_key("g"@) == (State { channel: Channel::G, ..s }),
        s.after_key("b"@) == (State { channel: Channel::B, ..s }),
        s.after_key("h"@) == (State { channel: Channel::H, ..s }),
        s.after_key("s"@) == (State { channel: Channel::S, ..s }),
        s.after_key("v"@) == (State { channel: Channel::V, ..s }),
{
    lemma_names();
}

/// A state after a step of the edited colour.
pub open spec fn after_step(s: State, delta: int) -> State {
    put(s, s.editing, app::moved(in_slot(s, s.editing), s.channel, delta))
}

/// The step keys: by one up and down, and by ten, each with two other names.
pub proof fn law_step_keys(s: State)
    ensures
        s.after_key("k"@) == after_step(s, 1),
        s.after_key("UP"@) == after_step(s, 1),
        s.after_key("RIGHT"@) == after_step(s, 1),
        s.after_key("j"@) == after_step(s, -1),
        s.after_key("DOWN"@) == after_step(s, -1),
        s.after_key("LEFT"@) == after_step(s, -1),
        s.after_key("K"@) == after_step(s, 10),
        s.after_key("S-UP"@) == after_step(s, 10),
        s.after_key("S-RIGHT"@) == after_step(s, 10),
        s.after_key("J"@) == after_step(s, -10),
        s.after_key("S-DOWN"@) == after_step(s, -10),
        s.after_key("S-LEFT"@) == after_step(s, -10),
{
    lemma_names();
}

/// The names of the keys that change a state.
pub open spec fn changes(key: Seq<char>) -> bool {
    ||| key == "TAB"@ || key == "c"@ || key == "o"@
    ||| key == "r"@ || key == "g"@ || key == "b"@ || key == "h"@ || key == "s"@ || key == "v"@
    ||| key == "k"@ || key == "UP"@ || key == "RIGHT"@ || key == "j"@ || key == "DOWN"@ || key
        == "LEFT"@
    ||| key == "K"@ || key == "S-UP"@ || key == "S-RIGHT"@ || key == "J"@ || key == "S-DOWN"@ || key
        == "S-LEFT"@
}

/// Every other key leaves the picker as it is.
pub proof fn law_other_keys_do_nothing(s: State, key: Seq<char>)
    requires
        !changes(key),
    ensures
        s.after_key(key) == s,
{
}

/// A character that can be typed is one of the hexadecimal digits, in either case.
pub proof fn law_typed_digits(c: char)
    ensures
        keys::hex_digit(c) <==> text_laws::hex_alphabet().contains(text_laws::lower(c)),
{
    reveal_strlit("0123456789abcdef");
    let t = text_laws::hex_alphabet();
    let l = text_laws::lower(c);
    if keys::hex_digit(c) {
        let d: int = if '0' <= c <= '9' {
            c as int - '0' as int
        } else if 'a' <= c <= 'f' {
            c as int - 'a' as int + 10
        } else {
            c as int - 'A' as int + 10
        };
        assert(0 <= d < 16);
        assert(t[d] == l) by {
            assert(d == 0 || d == 1 || d == 2 || d == 3 || d == 4 || d == 5 || d == 6 || d == 7 || d
                == 8 || d == 9 || d == 10 || d == 11 || d == 12 || d == 13 || d == 14 || d == 15);
        }
    }
    if t.contains(l) {
        let i = choose|i: int| 0 <= i < t.len() && t[i] == l;
        assert(i == 0 || i == 1 || i == 2 || i == 3 || i == 4 || i == 5 || i == 6 || i == 7 || i
            == 8 || i == 9 || i == 10 || i == 11 || i == 12 || i == 13 || i == 14 || i == 15);
    }
}

/// Typing: a digit is added while there is room; the key back takes the last one away;
/// escape empties the code; every other key leaves it as it is.
pub proof fn law_typing(buf: Seq<char>, key: Seq<char>)
    ensures
        key.len() == 1 && keys::hex_digit(key[0]) && buf.len() < 6 ==> keys::after_press(buf, key)
            == buf.push(key[0]),
        key.len() == 1 && (!keys::hex_digit(key[0]) || buf.len() >= 6) ==> keys::after_press(
            buf,
            key,
        ) == buf,
        key.len() != 1 && key != "ESC"@ && key != "BACK"@ ==> keys::after_press(buf, key) == buf,
        keys::after_press(buf, "ESC"@) == Seq::<char>::empty(),
        buf.len() > 0 ==> keys::after_press(buf, "BACK"@) == buf.subrange(0, buf.len() - 1),
        buf.len() == 0 ==> keys::after_press(buf, "BACK"@) == buf,
        keys::ends_typing(key) <==> key == "ENTER"@ || key == "ESC"@,
{
    reveal_strlit("ENTER");
    reveal_strlit("ESC");
    reveal_strlit("BACK");
    assert("ENTER"@.len() == 5 && "ESC"@.len() == 3 && "BACK"@.len() == 4);
    if key.len() == 1 && keys::hex_digit(key[0]) && buf.len() < 6 {
        assert(buf + key == buf.push(key[0]));
    }
}

/// Back undoes a digit.
pub proof fn law_back_undoes_a_digit(buf: Seq<char>, key: Seq<char>)
    requires
        key.len() == 1,
        keys::hex_digit(key[0]),
        buf.len() < 6,
    ensures
        keys::after_press(keys::after_press(buf, key), "BACK"@) == buf,
{
    law_typing(buf, key);
    let t = buf.push(key[0]);
    law_typing(t, "BACK"@);
    assert(t.subrange(0, t.len() - 1) == buf);
}

/// A typed code that is the code of a colour, in either case, puts that colour into the
/// edited slot, and the status says so; nothing else changes.
pub proof fn law_code_goes_to_the_slot(s: State, code: Seq<char>, c: Rgb)
    requires
        text_laws::plain_code(code) == c.hex_code().drop_first(),
    ensures
        s.after_code(code) == (State {
            status: "set "@ + screen_laws::name(s.editing) + " = "@ + c.hex_code(),
            ..put(s, s.editing, c)
        }),
{
    let none = Seq::<char>::empty();
    text_laws::law_code_is_read(c, none, none, code, none);
    assert(none + none + code + none == code);
}

/// A typed code of another length is refused and named; nothing typed changes nothing.
pub proof fn law_refused_code(s: State, code: Seq<char>)
    requires
        keys::typed(code),
        code.len() < 6,
    ensures
        code.len() > 0 ==> s.after_code(code) == (State { status: "invalid hex: "@ + code, ..s }),
        code.len() == 0 ==> s.after_code(code) == s,
{
    laws::law_short_code_is_refused(s, code);
}

/// The prompt stands three rows above the last, in the third column, and shows what has
/// been typed.
pub proof fn law_prompt(rows: u16, buf: Seq<char>)
    ensures
        ({
            let row = if rows >= 3 {
                rows - 3
            } else {
                0
            };
            &&& keys::prompt_start(rows) == ansi::cursor(row, 3)
                + "\x1b[2K\x1b[1mhex:\x1b[0m \x1b[?25h"@
            &&& keys::prompt_text(rows, buf) == ansi::cursor(row, 3)
                + "\x1b[2K\x1b[1mhex:\x1b[0m "@ + buf
        }),
{
}

/// Whether an argument is one of the options.
pub open spec fn option(arg: Seq<char>) -> bool {
    ||| arg == "--pick"@
    ||| arg == "--pair"@
    ||| arg == "--hex"@
    ||| arg == "--rgb"@
    ||| arg == "--hsv"@
    ||| arg == "--all"@
}

/// Whether an argument asks for help.
pub open spec fn help(arg: Seq<char>) -> bool {
    arg == "-h"@ || arg == "--help"@
}

/// How many arguments are no options.
pub open spec fn plain_arguments(list: Seq<String>) -> nat
    decreases list.len(),
{
    if list.len() == 0 {
        0
    } else if option(list.last()@) {
        plain_arguments(list.drop_last())
    } else {
        plain_arguments(list.drop_last()) + 1
    }
}

/// What the picker begins with: orange on black, the foreground and red to be edited, both
/// colours to be picked and their hex codes to be written.
pub proof fn law_no_arguments()
    ensures
        args::after_args(args::defaults(), Seq::empty(), 0, 0) == Some(
            State {
                fg: Rgb { r: 247, g: 76, b: 0 },
                bg: Rgb { r: 0, g: 0, b: 0 },
                editing: Slot::Fg,
                channel: Channel::R,
                out_fmt: OutputFmt::Hex,
                mode: Mode::Pair,
                status: Seq::empty(),
            },
        ),
{
}

/// What the last argument does to the picker `t` that the ones before it give, `before` of
/// which are no options.
pub open spec fn with_argument(t: State, arg: Seq<char>, before: nat) -> State {
    if arg == "--pick"@ {
        State { mode: Mode::Pick, ..t }
    } else if arg == "--pair"@ {
        State { mode: Mode::Pair, ..t }
    } else if arg == "--hex"@ {
        State { out_fmt: OutputFmt::Hex, ..t }
    } else if arg == "--rgb"@ {
        State { out_fmt: OutputFmt::Rgb, ..t }
    } else if arg == "--hsv"@ {
        State { out_fmt: OutputFmt::Hsv, ..t }
    } else if arg == "--all"@ {
        State { out_fmt: OutputFmt::All, ..t }
    } else {
        match Rgb::of_hex_code(arg) {
            Some(c) => if arg[0] != '#' && encode_utf8(arg).len() != 6 {
                t
            } else if before == 0 {
                State { fg: c, ..t }
            } else {
                State { bg: c, ..t }
            },
            None => t,
        }
    }
}

/// One more argument at the end: a request for help overrides all, an option sets its mode
/// or format, and a code goes to the foreground where no argument before it was other than
/// an option, else to the background.
pub proof fn law_last_argument(list: Seq<String>, arg: String)
    ensures
        ({
            let was = args::after_args(args::defaults(), list, 0, 0);
            let now = args::after_args(args::defaults(), list.push(arg), 0, 0);
            if was is None || help(arg@) {
                now is None
            } else {
                now == Some(with_argument(was->0, arg@, plain_arguments(list)))
            }
        }),
{
    lemma_last_argument(args::defaults(), list, arg, 0, 0);
    lemma_plain_from(list, 0);
    assert(list.subrange(0, list.len() as int) == list);
    assert(plain_arguments(list.subrange(0, 0)) == 0);
}

/// How many arguments from the `i`-th on are no options.
spec fn plain_from(list: Seq<String>, i: int) -> nat
    decreases list.len() - i,
{
    if i >= list.len() {
        0
    } else if option(list[i]@) {
        plain_from(list, i + 1)
    } else {
        plain_from(list, i + 1) + 1
    }
}

proof fn lemma_plain_from(list: Seq<String>, i: int)
    requires
        0 <= i <= list.len(),
    ensures
        plain_arguments(list.subrange(0, i)) + plain_from(list, i) == plain_arguments(list),
    decreases list.len() - i,
{
    if i < list.len() {
        lemma_plain_from(list, i + 1);
        let next = list.subrange(0, i + 1);
        assert(next.drop_last() == list.subrange(0, i));
        assert(next.last() == list[i]);
    } else {
        assert(list.subrange(0, i) == list);
    }
}

proof fn lemma_option(s: State, arg: Seq<char>)
    ensures
        args::after_option(s, arg) is Some == option(arg),
        option(arg) ==> args::after_option(s, arg) == Some(with_argument(s, arg, 0)),
        args::asks_help(arg) == help(arg),
{
    reveal_strlit("--pick");
    reveal_strlit("--pair");
    reveal_strlit("--hex");
    reveal_strlit("--rgb");
    reveal_strlit("--hsv");
    reveal_strlit("--all");
    assert("--pick"@[3] == 'i' && "--pair"@[3] == 'a' && "--hex"@[2] == 'h' && "--rgb"@[2] == 'r'
        && "--hsv"@[2] == 'h' && "--all"@[2] == 'a' && "--hex"@[3] == 'e' && "--hsv"@[3] == 's');
}

proof fn lemma_last_argument(s: State, list: Seq<String>, arg: String, i: int, before: nat)
    requires
        0 <= i <= list.len(),
    ensures
        ({
            let was = args::after_args(s, list, i, before);
            let now = args::after_args(s, list.push(arg), i, before);
            if was is None || help(arg@) {
                now is None
            } else {
                now == Some(with_argument(was->0, arg@, before + plain_from(list, i)))
            }
        }),
    decreases list.len() - i,
{
    let longer = list.push(arg);
    if i < list.len() {
        assert(longer[i] == list[i]);
        lemma_option(s, list[i]@);
        if !args::asks_help(list[i]@) {
            match args::after_option(s, list[i]@) {
                Some(t) => {
                    lemma_last_argument(t, list, arg, i + 1, before);
                },
                None => {
                    lemma_last_argument(
                        args::after_colour(s, list[i]@, before),
                        list,
                        arg,
                        i + 1,
                        before + 1,
                    );
                },
            }
        }
    } else {
        assert(longer[i] == arg);
        lemma_option(s, arg@);
        reveal_with_fuel(args::after_args, 2);
        let c = Rgb::of_hex_code(arg@);
        if c is Some && arg@.len() == 0 {
            let none = Seq::<char>::empty();
            assert(arg@ == none);
            keys::lemma_typed_bytes(none);
        }
    }
}

/// The lines that say how the program is used name each option and the codes.
pub proof fn law_usage()
    ensures
        args::usage_lines() == "prism — TUI RGB color picker\n\n"@
            + "Usage: prism [--pick|--pair] [--hex|--rgb|--hsv|--all] [HEX [HEX]]\n\n"@
            + "  --pick           pick a single color (FG slot)\n"@
            + "  --pair           pick FG + BG (default)\n"@
            + "  --hex/--rgb/--hsv/--all  output format on quit\n"@
            + "  HEX HEX          preload FG and BG with hex codes\n"@,
{
}

/// Whether both colours are written at the end: where both are picked, or everything is to
/// be written.
pub open spec fn both(s: State) -> bool {
    s.mode is Pair || s.out_fmt is All
}

/// The report begins with the hex code of the foreground, whichever slot is edited; where
/// both colours are written, that of the background follows.
pub proof fn law_report_begins(s: State)
    ensures
        ({
            let first = "fg="@ + s.fg.hex_code() + "\n"@;
            let second = "bg="@ + s.bg.hex_code() + "\n"@;
            let t = report::report_text(s);
            &&& first.is_prefix_of(t)
            &&& both(s) ==> (first + second).is_prefix_of(t)
            &&& s.out_fmt is Hex ==> t == if both(s) {
                first + second
            } else {
                first
            }
        }),
{
    lemma_line("fg"@, s.fg.hex_code());
    lemma_line("bg"@, s.bg.hex_code());
    lemma_names_of_lines();
    let t = report::report_text(s);
    let first = "fg="@ + s.fg.hex_code() + "\n"@;
    let second = "bg="@ + s.bg.hex_code() + "\n"@;
    if both(s) {
        assert(t.subrange(0, (first + second).len() as int) == first + second);
        assert(t.subrange(0, first.len() as int) == first);
    } else {
        assert(t.subrange(0, first.len() as int) == first);
    }
}

proof fn lemma_names_of_lines()
    ensures
        "fg"@ + "="@ == "fg="@,
        "bg"@ + "="@ == "bg="@,
{
    reveal_strlit("fg");
    reveal_strlit("bg");
    reveal_strlit("=");
    reveal_strlit("fg=");
    reveal_strlit("bg=");
}

proof fn lemma_line(n: Seq<char>, t: Seq<char>)
    ensures
        report::line(n, t) == (n + "="@) + t + "\n"@,
{
}

/// What the report adds for a colour after the hex codes, with the colour's name and an
/// equals sign before each text.
pub open spec fn added(label: Seq<char>, c: Rgb, f: OutputFmt) -> Seq<char> {
    match f {
        OutputFmt::Hex => Seq::empty(),
        OutputFmt::Rgb => label + render::rgb_text(c) + "\n"@,
        OutputFmt::Hsv => label + render::hsv_text(c) + "\n"@,
        OutputFmt::All => label + render::rgb_text(c) + "\n"@ + label + render::hsv_text(c)
            + "\n"@,
    }
}

/// After the hex codes the report has, in the formats asked for, the foreground and then,
/// where both are written, the background.
pub proof fn law_report_ends(s: State)
    ensures
        ({
            let codes = "fg="@ + s.fg.hex_code() + "\n"@ + if both(s) {
                "bg="@ + s.bg.hex_code() + "\n"@
            } else {
                Seq::empty()
            };
            report::report_text(s) == codes + added("fg="@, s.fg, s.out_fmt) + if both(s) {
                added("bg="@, s.bg, s.out_fmt)
            } else {
                Seq::empty()
            }
        }),
{
    lemma_names_of_lines();
    lemma_added("fg"@, "fg="@, s.fg, s.out_fmt);
    lemma_added("bg"@, "bg="@, s.bg, s.out_fmt);
    lemma_line("fg"@, s.fg.hex_code());
    lemma_line("bg"@, s.bg.hex_code());
    let first = "fg="@ + s.fg.hex_code() + "\n"@;
    assert(first + Seq::<char>::empty() == first);
    let t = first + added("fg="@, s.fg, s.out_fmt);
    assert(t + Seq::<char>::empty() == t);
}

proof fn lemma_added(n: Seq<char>, label: Seq<char>, c: Rgb, f: OutputFmt)
    requires
        n + "="@ == label,
    ensures
        report::extra_lines(n, c, f) == added(label, c, f),
{
    lemma_line(n, render::rgb_text(c));
    lemma_line(n, render::hsv_text(c));
    if f is All {
        let a = label + render::rgb_text(c) + "\n"@;
        let b = label + render::hsv_text(c) + "\n"@;
        assert(a + b == added(label, c, f));
    }
}

/// The report depends on the two colours, the format and the mode alone: not on the slot or
/// the channel that is edited, nor on the status.
pub proof fn law_report_of_any_slot(s: State, t: State)
    requires
        s.fg == t.fg,
        s.bg == t.bg,
        s.out_fmt == t.out_fmt,
        s.mode == t.mode,
    ensures
        report::report_text(s) == report::report_text(t),
{
}

/// The arguments can be read unless one of them, before any that asks for help, is no option,
/// looks like a hex code and cannot be cut.
pub proof fn law_readable_arguments(list: Seq<String>, arg: String)
    ensures
        args::codes_cut(Seq::empty(), 0),
        args::codes_cut(list.push(arg), 0) <==> args::codes_cut(list, 0) && (args::after_args(
            args::defaults(),
            list,
            0,
            0,
        ) is None || help(arg@) || option(arg@) || !(arg@.len() > 0 && arg@[0] == '#'
            || encode_utf8(arg@).len() == 6) || color::cuts_cleanly(arg@)),
{
    lemma_readable_from(list, arg, args::defaults(), 0, 0);
}

proof fn lemma_readable_from(list: Seq<String>, arg: String, s: State, i: int, before: nat)
    requires
        0 <= i <= list.len(),
    ensures
        args::codes_cut(list.push(arg), i) <==> args::codes_cut(list, i) && (args::after_args(
            s,
            list,
            i,
            before,
        ) is None || help(arg@) || option(arg@) || !(arg@.len() > 0 && arg@[0] == '#'
            || encode_utf8(arg@).len() == 6) || color::cuts_cleanly(arg@)),
    decreases list.len() - i,
{
    let all = list.push(arg);
    if i < list.len() {
        assert(all[i] == list[i]);
        if !args::asks_help(list[i]@) {
            match args::after_option(s, list[i]@) {
                Some(t) => lemma_readable_from(list, arg, t, i + 1, before),
                None => lemma_readable_from(
                    list,
                    arg,
                    args::after_colour(s, list[i]@, before),
                    i + 1,
                    before + 1,
                ),
            }
        }
    } else {
        assert(all[i] == arg);
        assert(args::codes_cut(all, i + 1));
    }
}

/// A picker and what a key asks for are seen as they are, with their texts as sequences of
/// characters.
pub proof fn law_views(a: App, act: Action, text: String)
    ensures
        a@.fg == a.fg && a@.bg == a.bg,
        a@.editing == a.editing && a@.channel == a.channel,
        a@.out_fmt == a.out_fmt && a@.mode == a.mode,
        a@.status == a.status@,
        act is Stay <==> act@ is Stay,
        act is Quit <==> act@ is Quit,
        act is Prompt <==> act@ is Prompt,
        act == Action::Copy(text) ==> act@ == Asked::Copy(text@),
{
}

} // verus!
