use prism::ansi::{bg_esc, fg_esc, move_to, RESET};
use prism::app::{App, Channel, OutputFmt, Slot};
use prism::color::Rgb;
use prism::contrast::{power_base, PowerTable};
use prism::render::{drawing_size, frame, hsv_string, render, rgb_string, slider};
use prism::single::Single;

fn rgb(r: u8, g: u8, b: u8) -> Rgb {
    Rgb { r, g, b }
}

fn table() -> PowerTable {
    PowerTable {
        powers: std::array::from_fn(|i| {
            Single::from_bits(f32::from_bits(power_base(i as u8).bits).powf(2.4).to_bits())
        }),
    }
}

/// A slider in the processor's arithmetic.
fn processor_slider(label: &str, value: i32, max: i32, focused: bool, c: &Rgb) -> String {
    let filled = (value as f32 / max as f32 * 22 as f32).round() as usize;
    let bar: String = (0..22).map(|i| if i < filled { '█' } else { '░' }).collect();
    let name = if focused {
        format!("\x1b[1;33m{}\x1b[0m", label)
    } else {
        format!("\x1b[2m{}\x1b[0m", label)
    };
    format!("{} [\x1b[38;2;{};{};{}m{}\x1b[0m] {:>3}", name, c.r, c.g, c.b, bar, value)
}

#[test]
fn escape_sequences() {
    assert_eq!(fg_esc(&rgb(247, 76, 0)), "\x1b[38;2;247;76;0m");
    assert_eq!(bg_esc(&rgb(0, 10, 255)), "\x1b[48;2;0;10;255m");
    assert_eq!(move_to(2, 3), "\x1b[2;3H");
    assert_eq!(move_to(0, 65535), "\x1b[0;65535H");
    assert_eq!(RESET, "\x1b[0m");
}

#[test]
fn a_slider() {
    assert_eq!(
        slider("R", 128, 255, true, &rgb(1, 2, 3)),
        "\x1b[1;33mR\x1b[0m [\x1b[38;2;1;2;3m███████████░░░░░░░░░░░\x1b[0m] 128"
    );
    assert_eq!(
        slider("S", 25, 100, false, &rgb(1, 2, 3)),
        "\x1b[2mS\x1b[0m [\x1b[38;2;1;2;3m██████░░░░░░░░░░░░░░░░\x1b[0m]  25"
    );
}

#[test]
fn sliders_are_those_of_the_processor() {
    let c = rgb(9, 8, 7);
    for max in [255, 359, 100] {
        for value in 0..=max {
            assert_eq!(slider("X", value, max, false, &c), processor_slider("X", value, max, false, &c));
        }
    }
    for value in [0, 1, -1, 5, 1000, i32::MAX, i32::MIN, 16_777_217] {
        for max in [0, 1, -1, 3, 255, i32::MAX, i32::MIN, 33_554_435] {
            assert_eq!(slider("X", value, max, true, &c), processor_slider("X", value, max, true, &c));
        }
    }
}

#[test]
fn slider_ends() {
    for max in [1, 100, 255, 359] {
        assert!(!slider("X", 0, max, false, &rgb(0, 0, 0)).contains('█'));
        assert!(!slider("X", max, max, false, &rgb(0, 0, 0)).contains('░'));
    }
}

#[test]
fn a_frame() {
    let got = frame(3, 4, 16, 4, &rgb(1, 2, 3), Slot::Fg, true);
    let edge = "\x1b[38;2;255;122;58m";
    let row = |y: u16| {
        format!("\x1b[{y};3H│\x1b[0m\x1b[48;2;1;2;3m              \x1b[0m{edge}│")
    };
    let want = format!(
        "\x1b[4;3H{edge}┌───── FG ─────┐{}{}\x1b[7;3H└───── #010203 ┘\x1b[0m",
        row(5),
        row(6)
    );
    assert_eq!(got, want);
    let narrow = frame(1, 1, 4, 1, &rgb(0, 0, 0), Slot::Bg, false);
    assert_eq!(narrow, "\x1b[1;1H\x1b[2m┌ BG ┐\x1b[1;1H└ #000000 ┘\x1b[0m");
}

#[test]
fn colors_in_words() {
    assert_eq!(rgb_string(&rgb(247, 76, 0)), "rgb(247, 76, 0)");
    assert_eq!(hsv_string(&rgb(247, 76, 0)), "hsv(18, 100%, 97%)");
    assert_eq!(hsv_string(&rgb(0, 0, 0)), "hsv(0, 0%, 0%)");
    assert_eq!(hsv_string(&rgb(255, 0, 1)), "hsv(360, 100%, 100%)");
}

#[test]
fn drawing_sizes() {
    assert_eq!(drawing_size(0, 0), (100, 28));
    assert_eq!(drawing_size(79, 24), (100, 24));
    assert_eq!(drawing_size(80, 23), (80, 28));
    assert_eq!(drawing_size(200, 60), (200, 60));
}

/// The screen as it should be for the given width of the sample text.
fn expected(app: &App, sw: usize, rows: u16, ratio: &str, sliders: [(i32, i32); 3], out: &str) -> String {
    let at = |row: u16, col: u16| format!("\x1b[{row};{col}H");
    let fg = format!("\x1b[38;2;{};{};{}m", app.fg.r, app.fg.g, app.fg.b);
    let bg = format!("\x1b[48;2;{};{};{}m", app.bg.r, app.bg.g, app.bg.b);
    let editing = if app.editing == Slot::Fg { "FG" } else { "BG" };
    let cur = app.current();
    let mut s = String::from("\x1b[H\x1b[J");
    s += &format!("{}\x1b[1;38;2;247;76;0mprism\x1b[0m  TUI color picker  \x1b[2m(editing: {})\x1b[0m", at(2, 3), editing);
    s += &frame(3, 4, 16, 6, &app.fg, Slot::Fg, app.editing == Slot::Fg);
    s += &frame(23, 4, 16, 6, &app.bg, Slot::Bg, app.editing == Slot::Bg);
    s += &format!("{}\x1b[1mContrast:\x1b[0m {}", at(5, 42), ratio);
    s += &format!("{}\x1b[2mWCAG: AAA ≥ 7   AA ≥ 4.5   AA· ≥ 3\x1b[0m", at(7, 42));
    s += &format!("{}\x1b[2m── Sample {}\x1b[0m", at(11, 3), "─".repeat(sw.saturating_sub(11)));
    let lines = [
        "# The quick brown fox jumps over the lazy dog",
        "fn main() { println!(\"Hello, world!\"); }    // body comment",
        "*bold* /italic/ _underline_   →   link text",
        "Plain prose on the chosen background — sample, sample, sample.",
        "1234567890   !@#$%^&*()   abc DEF ghi JKL",
    ];
    for (i, line) in lines.iter().enumerate() {
        let pad = " ".repeat(sw.saturating_sub(line.chars().count()));
        s += &format!("{}{}{}{}{}\x1b[0m", at(12 + i as u16, 3), bg, fg, line, pad);
    }
    s += &format!("{}\x1b[2m{}\x1b[0m", at(17, 3), "─".repeat(sw));
    let hints = [rgb(255, 80, 80), rgb(80, 220, 100), rgb(90, 140, 255)];
    let left = [("R", Channel::R), ("G", Channel::G), ("B", Channel::B)];
    let right = [("H", Channel::H, 359), ("S", Channel::S, 100), ("V", Channel::V, 100)];
    for i in 0..3 {
        let row = 19 + i as u16;
        s += &at(row, 3);
        s += &processor_slider(left[i].0, sliders[i].0, 255, app.channel == left[i].1, &hints[i]);
        s += &at(row, 45);
        s += &processor_slider(right[i].0, sliders[i].1, right[i].2, app.channel == right[i].1, &cur);
    }
    s += &format!("{}\x1b[2mRGB — additive light. Each channel 0–255; mix the three primaries.\x1b[0m", at(23, 3));
    s += &format!("{}\x1b[2m  R = red     G = green     B = blue       (0,0,0)=black · (255,255,255)=white\x1b[0m", at(24, 3));
    s += &format!("{}\x1b[2mHSV — perceptual model, what humans intuitively reach for.\x1b[0m", at(26, 3));
    s += &format!("{}\x1b[2m  H = hue          0–360°   which color (0=red, 120=green, 240=blue)\x1b[0m", at(27, 3));
    s += &format!("{}\x1b[2m  S = saturation   0–100    vividness   (0 = grayscale, 100 = pure)\x1b[0m", at(28, 3));
    s += &format!("{}\x1b[2m  V = value        0–100    brightness  (0 = black, 100 = full)\x1b[0m", at(29, 3));
    s += &format!("{}\x1b[1mHex:\x1b[0m {}    \x1b[2m{}", at(31, 3), cur.hex(), out);
    let y = rows.saturating_sub(2);
    s += &format!("{}\x1b[2mTab swap FG/BG · r/g/b/h/s/v focus · j/k ±1 · J/K ±10 · # type hex · c copy · o output · q quit\x1b[0m", at(y, 3));
    if !app.status.is_empty() {
        s += &format!("{}\x1b[1;38;2;90;200;255m{}\x1b[0m", at(y - 1, 3), app.status);
    }
    s + "\x1b[?25l"
}

#[test]
fn the_first_screen() {
    let app = App::new();
    let want = expected(
        &app,
        80,
        28,
        "5.99:1  AA ✓",
        [(247, 18), (76, 100), (0, 96)],
        "out(hex):\x1b[0m #f74c00",
    );
    assert_eq!(render(&app, 100, 28, &table()), want);
}

#[test]
fn a_screen_with_everything_else() {
    let mut app = App::new();
    app.fg = rgb(0, 0, 0);
    app.bg = rgb(16, 32, 48);
    app.editing = Slot::Bg;
    app.channel = Channel::S;
    app.out_fmt = OutputFmt::All;
    app.status = "set BG = #102030".to_string();
    let want = expected(
        &app,
        50,
        40,
        "1.27:1  ✗ low ✗",
        [(16, 210), (32, 66), (48, 18)],
        "out(all):\x1b[0m #102030  rgb(16, 32, 48)  hsv(210, 67%, 19%)",
    );
    assert_eq!(render(&app, 56, 40, &table()), want);
}

#[test]
fn screens_without_room() {
    let app = App::new();
    let s = render(&app, 5, 0, &table());
    assert!(s.contains("\x1b[11;3H\x1b[2m── Sample \x1b[0m"));
    assert!(s.contains("\x1b[17;3H\x1b[2m\x1b[0m"));
    assert!(s.contains("\x1b[0;3H\x1b[2mTab swap"));
}

#[test]
fn sliders_fill_in_order() {
    let cells = |value: i32, max: i32| slider("X", value, max, false, &rgb(0, 0, 0)).matches('█').count();
    for max in [1, 7, 100, 255, 359, i32::MAX] {
        let mut last = 0;
        for i in 0..=44 {
            let value = (max as i64 * i / 44) as i32;
            let now = cells(value, max);
            assert!(last <= now && now <= 22);
            last = now;
        }
        assert_eq!(cells(max, max), 22);
        assert_eq!(cells(-5, max), 0);
        assert_eq!(cells(i32::MAX, max), 22);
    }
}

#[test]
fn one_slider_is_bright() {
    let t = table();
    for (channel, name) in [
        (Channel::R, "R"),
        (Channel::G, "G"),
        (Channel::B, "B"),
        (Channel::H, "H"),
        (Channel::S, "S"),
        (Channel::V, "V"),
    ] {
        for status in ["", "copied #f74c00 to clipboard"] {
            let mut app = App::new();
            app.channel = channel;
            app.status = status.to_string();
            let s = render(&app, 100, 28, &t);
            assert_eq!(s.matches("\x1b[1;33m").count(), 1);
            assert!(s.contains(&format!("\x1b[1;33m{name}\x1b[0m [")));
        }
    }
}
