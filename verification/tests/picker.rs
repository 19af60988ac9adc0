use prism::app::{App, Channel, Mode, OutputFmt, Slot};
use prism::args::{can_read, read_args, usage, Startup};
use prism::color::Rgb;
use prism::keys::{open_prompt, prompt_line, slot_label, Action, HexPrompt};
use prism::report::report;

fn rgb(r: u8, g: u8, b: u8) -> Rgb {
    Rgb { r, g, b }
}

fn start(args: &[&str]) -> App {
    let list: Vec<String> = args.iter().map(|s| s.to_string()).collect();
    assert!(can_read(&list));
    match read_args(&list) {
        Startup::Run(app) => app,
        Startup::Help => panic!("help"),
    }
}

fn helps(args: &[&str]) -> bool {
    let list: Vec<String> = args.iter().map(|s| s.to_string()).collect();
    assert!(can_read(&list));
    matches!(read_args(&list), Startup::Help)
}

fn press(app: &mut App, keys: &[&str]) {
    for k in keys {
        assert!(matches!(app.handle_key(k), Action::Stay), "{k}");
    }
}

/// A step in hue, saturation or value in the processor's arithmetic.
fn processor_step(c: Rgb, channel: Channel, delta: i32) -> Rgb {
    let r = c.r as f32 / 255.0;
    let g = c.g as f32 / 255.0;
    let b = c.b as f32 / 255.0;
    let mx = r.max(g).max(b);
    let mn = r.min(g).min(b);
    let d = mx - mn;
    let mut h = if d == 0.0 {
        0.0
    } else if mx == r {
        60.0 * (((g - b) / d) % 6.0)
    } else if mx == g {
        60.0 * (((b - r) / d) + 2.0)
    } else {
        60.0 * (((r - g) / d) + 4.0)
    };
    if h < 0.0 {
        h += 360.0;
    }
    let mut s = if mx == 0.0 { 0.0 } else { d / mx };
    let mut v = mx;
    match channel {
        Channel::H => {
            h += delta as f32;
            while h < 0.0 {
                h += 360.0;
            }
            while h >= 360.0 {
                h -= 360.0;
            }
        }
        Channel::S => s = (s + delta as f32 / 100.0).clamp(0.0, 1.0),
        _ => v = (v + delta as f32 / 100.0).clamp(0.0, 1.0),
    }
    let c = v * s;
    let h6 = h / 60.0;
    let x = c * (1.0 - ((h6 % 2.0) - 1.0).abs());
    let (r, g, b) = match h6 as i32 {
        0 => (c, x, 0.0),
        1 => (x, c, 0.0),
        2 => (0.0, c, x),
        3 => (0.0, x, c),
        4 => (x, 0.0, c),
        _ => (c, 0.0, x),
    };
    let m = v - c;
    let level = |y: f32| ((y + m) * 255.0 + 0.5).clamp(0.0, 255.0) as u8;
    rgb(level(r), level(g), level(b))
}

#[test]
fn begins_with_orange_on_black() {
    let app = start(&[]);
    assert_eq!(app.fg, rgb(247, 76, 0));
    assert_eq!(app.bg, rgb(0, 0, 0));
    assert_eq!(app.editing, Slot::Fg);
    assert_eq!(app.channel, Channel::R);
    assert_eq!(app.out_fmt, OutputFmt::Hex);
    assert_eq!(app.mode, Mode::Pair);
    assert_eq!(app.status, "");
    assert_eq!(app.current(), rgb(247, 76, 0));
}

#[test]
fn options_set_mode_and_format() {
    assert_eq!(start(&["--pick"]).mode, Mode::Pick);
    assert_eq!(start(&["--pick", "--pair"]).mode, Mode::Pair);
    assert_eq!(start(&["--rgb"]).out_fmt, OutputFmt::Rgb);
    assert_eq!(start(&["--hsv"]).out_fmt, OutputFmt::Hsv);
    assert_eq!(start(&["--all"]).out_fmt, OutputFmt::All);
    assert_eq!(start(&["--all", "--hex"]).out_fmt, OutputFmt::Hex);
    assert_eq!(start(&["--other", "x"]).out_fmt, OutputFmt::Hex);
}

#[test]
fn codes_fill_the_slots_in_turn() {
    let app = start(&["#010203"]);
    assert_eq!((app.fg, app.bg), (rgb(1, 2, 3), rgb(0, 0, 0)));
    let app = start(&["010203", "#0a0b0c"]);
    assert_eq!((app.fg, app.bg), (rgb(1, 2, 3), rgb(10, 11, 12)));
    let app = start(&["zzzzzz", "#0a0b0c"]);
    assert_eq!((app.fg, app.bg), (rgb(247, 76, 0), rgb(10, 11, 12)));
    let app = start(&["x", "#0a0b0c"]);
    assert_eq!((app.fg, app.bg), (rgb(247, 76, 0), rgb(10, 11, 12)));
    let app = start(&["#010203", "#040506", "#070809"]);
    assert_eq!((app.fg, app.bg), (rgb(1, 2, 3), rgb(7, 8, 9)));
}

#[test]
fn options_stand_anywhere() {
    let app = start(&["--pick", "--rgb", "#010203", "--hsv", "0a0b0c"]);
    assert_eq!((app.fg, app.bg), (rgb(1, 2, 3), rgb(10, 11, 12)));
    assert_eq!((app.mode, app.out_fmt), (Mode::Pick, OutputFmt::Hsv));
}

#[test]
fn help_is_given_on_demand() {
    assert!(helps(&["-h"]));
    assert!(helps(&["#010203", "--help", "x"]));
    assert!(!helps(&["help"]));
    assert!(helps(&["-h", "1é234"]));
    assert!(usage().starts_with("prism — TUI RGB color picker\n\nUsage: prism ["));
    assert_eq!(usage().lines().count(), 8);
}

#[test]
fn unreadable_codes_are_found() {
    assert!(!can_read(&vec!["1é234".to_string()]));
    assert!(!can_read(&vec!["--rgb".to_string(), "#123é4".to_string()]));
    // not read as a code: seven bytes and no hash sign
    assert!(can_read(&vec![" 1é234".to_string()]));
}

#[test]
fn tab_goes_to_the_other_slot_and_back() {
    let mut app = start(&[]);
    app.status = "x".to_string();
    press(&mut app, &["TAB"]);
    assert_eq!((app.editing, app.status.as_str()), (Slot::Bg, ""));
    assert_eq!(app.current(), rgb(0, 0, 0));
    press(&mut app, &["TAB"]);
    assert_eq!(app.editing, Slot::Fg);
    assert_eq!((app.fg, app.bg), (rgb(247, 76, 0), rgb(0, 0, 0)));
}

#[test]
fn letters_choose_the_channel() {
    let mut app = start(&[]);
    for (key, channel) in [
        ("r", Channel::R),
        ("g", Channel::G),
        ("b", Channel::B),
        ("h", Channel::H),
        ("s", Channel::S),
        ("v", Channel::V),
    ] {
        press(&mut app, &[key]);
        assert_eq!(app.channel, channel);
    }
}

#[test]
fn step_keys_move_a_level() {
    let mut app = start(&["#646464"]);
    press(&mut app, &["k", "UP", "RIGHT"]);
    assert_eq!(app.fg, rgb(103, 100, 100));
    press(&mut app, &["j", "DOWN", "LEFT"]);
    assert_eq!(app.fg, rgb(100, 100, 100));
    press(&mut app, &["g", "K", "S-UP", "S-RIGHT"]);
    assert_eq!(app.fg, rgb(100, 130, 100));
    press(&mut app, &["b", "J", "S-DOWN", "S-LEFT"]);
    assert_eq!(app.fg, rgb(100, 130, 70));
    assert_eq!(app.bg, rgb(0, 0, 0));
}

#[test]
fn levels_stop_at_their_ends() {
    let mut app = start(&["#ff00fa"]);
    press(&mut app, &["k", "g", "j", "J", "b", "K"]);
    assert_eq!(app.fg, rgb(255, 0, 255));
    app.channel = Channel::R;
    app.step(-1000);
    assert_eq!(app.fg, rgb(0, 0, 255));
    app.step(i32::MIN);
    assert_eq!(app.fg, rgb(0, 0, 255));
    app.step(i32::MAX);
    assert_eq!(app.fg, rgb(255, 0, 255));
}

#[test]
fn opposite_steps_undo_each_other() {
    let mut app = start(&["#102030"]);
    app.step(7);
    app.step(-7);
    assert_eq!(app.fg, rgb(16, 32, 48));
}

#[test]
fn hsv_steps_are_those_of_the_processor() {
    for c in [rgb(247, 76, 0), rgb(0, 0, 0), rgb(255, 255, 255), rgb(12, 200, 90), rgb(90, 140, 255), rgb(1, 0, 2)] {
        for channel in [Channel::H, Channel::S, Channel::V] {
            for delta in [0, 1, -1, 10, -10, 100, -100, 359, 360, -721, 100_000] {
                let mut app = start(&[]);
                app.fg = c;
                app.channel = channel;
                app.step(delta);
                assert_eq!(app.fg, processor_step(c, channel, delta), "{c:?} {channel:?} {delta}");
                assert_eq!(app.bg, rgb(0, 0, 0));
            }
        }
    }
}

#[test]
fn a_hue_step_changes_the_edited_slot_alone() {
    let mut app = start(&["#ff0000", "#00ff00"]);
    press(&mut app, &["TAB", "h", "K"]);
    assert_eq!(app.fg, rgb(255, 0, 0));
    assert_eq!(app.bg, rgb(0, 255, 43));
}

#[test]
fn output_format_goes_round() {
    let mut app = start(&[]);
    let mut seen = Vec::new();
    for _ in 0..4 {
        press(&mut app, &["o"]);
        seen.push(app.out_fmt);
    }
    assert_eq!(seen, vec![OutputFmt::Rgb, OutputFmt::Hsv, OutputFmt::All, OutputFmt::Hex]);
}

#[test]
fn keys_that_ask_for_something() {
    let mut app = start(&[]);
    assert!(matches!(app.handle_key("q"), Action::Quit));
    assert!(matches!(app.handle_key("ESC"), Action::Quit));
    assert!(matches!(app.handle_key("#"), Action::Prompt));
    match app.handle_key("c") {
        Action::Copy(text) => assert_eq!(text, "#f74c00"),
        other => panic!("{other:?}"),
    }
    assert_eq!(app.status, "copied #f74c00 to clipboard");
    assert_eq!(app.fg, rgb(247, 76, 0));
}

#[test]
fn other_keys_do_nothing() {
    let mut app = start(&[]);
    app.status = "x".to_string();
    press(&mut app, &["RESIZE", "z", "", "ENTER", "jj", "Q"]);
    assert_eq!(app.fg, rgb(247, 76, 0));
    assert_eq!((app.editing, app.channel, app.status.as_str()), (Slot::Fg, Channel::R, "x"));
}

#[test]
fn set_current_goes_to_the_edited_slot() {
    let mut app = start(&[]);
    app.set_current(rgb(1, 2, 3));
    assert_eq!((app.fg, app.bg), (rgb(1, 2, 3), rgb(0, 0, 0)));
    app.editing = Slot::Bg;
    app.set_current(rgb(4, 5, 6));
    assert_eq!((app.fg, app.bg), (rgb(1, 2, 3), rgb(4, 5, 6)));
}

#[test]
fn typed_digits_become_a_color() {
    let mut app = start(&[]);
    let mut prompt = HexPrompt::new();
    for k in ["0", "g", "A", "z", "b", "BACK", "B", "F", "UP", "é", "f", "1", "2"] {
        assert!(!prompt.press(k));
    }
    assert_eq!(prompt.buf, "0ABFf1");
    assert!(prompt.press("ENTER"));
    app.take_code(&prompt);
    assert_eq!(app.fg, rgb(0x0a, 0xbf, 0xf1));
    assert_eq!(app.status, "set FG = #0abff1");
    app.editing = Slot::Bg;
    app.take_code(&prompt);
    assert_eq!(app.bg, rgb(0x0a, 0xbf, 0xf1));
    assert_eq!(app.status, "set BG = #0abff1");
}

#[test]
fn short_codes_are_refused() {
    let mut app = start(&[]);
    let mut prompt = HexPrompt::new();
    prompt.press("BACK");
    prompt.press("1");
    prompt.press("2");
    assert!(prompt.press("ENTER"));
    app.take_code(&prompt);
    assert_eq!(app.fg, rgb(247, 76, 0));
    assert_eq!(app.status, "invalid hex: 12");
}

#[test]
fn escape_leaves_the_prompt() {
    let mut app = start(&[]);
    app.status = "x".to_string();
    let mut prompt = HexPrompt::new();
    prompt.press("1");
    assert!(prompt.press("ESC"));
    assert_eq!(prompt.buf, "");
    app.take_code(&prompt);
    assert_eq!(app.fg, rgb(247, 76, 0));
    assert_eq!(app.status, "x");
}

#[test]
fn prompt_rows() {
    let mut prompt = HexPrompt::new();
    prompt.press("a");
    assert_eq!(open_prompt(28), "\x1b[25;3H\x1b[2K\x1b[1mhex:\x1b[0m \x1b[?25h");
    assert_eq!(prompt_line(28, &prompt), "\x1b[25;3H\x1b[2K\x1b[1mhex:\x1b[0m a");
    assert_eq!(open_prompt(2), "\x1b[0;3H\x1b[2K\x1b[1mhex:\x1b[0m \x1b[?25h");
    assert_eq!(slot_label(Slot::Bg), "BG");
}

#[test]
fn report_of_a_pair() {
    let mut app = start(&["#f74c00", "#102030"]);
    assert_eq!(report(&app), "fg=#f74c00\nbg=#102030\n");
    app.out_fmt = OutputFmt::Rgb;
    assert_eq!(
        report(&app),
        "fg=#f74c00\nbg=#102030\nfg=rgb(247, 76, 0)\nbg=rgb(16, 32, 48)\n"
    );
    app.out_fmt = OutputFmt::Hsv;
    assert_eq!(
        report(&app),
        "fg=#f74c00\nbg=#102030\nfg=hsv(18, 100%, 97%)\nbg=hsv(210, 67%, 19%)\n"
    );
    app.out_fmt = OutputFmt::All;
    assert_eq!(
        report(&app),
        "fg=#f74c00\nbg=#102030\nfg=rgb(247, 76, 0)\nfg=hsv(18, 100%, 97%)\nbg=rgb(16, 32, 48)\nbg=hsv(210, 67%, 19%)\n"
    );
}

#[test]
fn report_of_a_single_color() {
    let mut app = start(&["--pick", "#f74c00"]);
    assert_eq!(report(&app), "fg=#f74c00\n");
    app.out_fmt = OutputFmt::Rgb;
    assert_eq!(report(&app), "fg=#f74c00\nfg=rgb(247, 76, 0)\n");
    app.out_fmt = OutputFmt::Hsv;
    assert_eq!(report(&app), "fg=#f74c00\nfg=hsv(18, 100%, 97%)\n");
}

#[test]
fn report_of_everything_has_both_slots() {
    let app = start(&["--pick", "--all", "#f74c00", "#102030"]);
    assert_eq!(
        report(&app),
        "fg=#f74c00\nbg=#102030\nfg=rgb(247, 76, 0)\nfg=hsv(18, 100%, 97%)\nbg=rgb(16, 32, 48)\nbg=hsv(210, 67%, 19%)\n"
    );
    assert_eq!(report(&app), report(&start(&["--all", "#f74c00", "#102030"])));
}

#[test]
fn greys_have_no_hue() {
    for level in [0u8, 1, 77, 128, 254, 255] {
        for delta in [1, -1, 10, -10, 200, 1000] {
            let mut app = start(&[]);
            app.set_current(rgb(level, level, level));
            app.channel = Channel::H;
            app.step(delta);
            assert_eq!(app.current(), rgb(level, level, level));
        }
    }
}

#[test]
fn printed_codes_can_be_given_back() {
    let app = start(&["#0a141e", "#28323c"]);
    let again = start(&[&app.fg.hex(), &app.bg.hex()]);
    assert_eq!((again.fg, again.bg), (app.fg, app.bg));
    assert_eq!(report(&again), "fg=#0a141e\nbg=#28323c\n");
}

#[test]
fn steps_of_nothing_and_full_turns_lead_back() {
    for c in [rgb(247, 76, 0), rgb(0, 0, 0), rgb(255, 255, 255), rgb(12, 200, 90), rgb(255, 0, 1), rgb(3, 2, 1)] {
        let mut app = start(&[]);
        app.fg = c;
        for channel in [Channel::R, Channel::G, Channel::B, Channel::H, Channel::S, Channel::V] {
            app.channel = channel;
            app.step(0);
            assert_eq!(app.fg, c, "{channel:?}");
        }
        app.channel = Channel::H;
        app.step(360);
        assert_eq!(app.fg, c);
        app.step(-360);
        assert_eq!(app.fg, c);
    }
}

#[test]
fn hue_steps_keep_the_outer_levels() {
    for c in [rgb(247, 76, 0), rgb(12, 200, 90), rgb(90, 140, 255), rgb(7, 7, 7)] {
        for delta in [1, -1, 10, 59, 120, -200, 1000] {
            let mut app = start(&[]);
            app.fg = c;
            app.channel = Channel::H;
            app.step(delta);
            let d = app.fg;
            assert_eq!(d.r.max(d.g).max(d.b), c.r.max(c.g).max(c.b));
            assert_eq!(d.r.min(d.g).min(d.b), c.r.min(c.g).min(c.b));
        }
    }
}
