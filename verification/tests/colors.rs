use prism::color::{Hsv, Rgb};
use prism::contrast::{contrast_ratio, power_base, wcag_label, PowerTable};
use prism::single::Single;
use prism::text::{decimal_text, is_white, repeat_text, trim_text};

fn rgb(r: u8, g: u8, b: u8) -> Rgb {
    Rgb { r, g, b }
}

fn number(x: f32) -> Single {
    Single::from_bits(x.to_bits())
}

/// Hue, saturation and value in the processor's arithmetic.
fn processor_hsv(c: &Rgb) -> (f32, f32, f32) {
    let r = c.r as f32 / 255.0;
    let g = c.g as f32 / 255.0;
    let b = c.b as f32 / 255.0;
    let mx = r.max(g).max(b);
    let mn = r.min(g).min(b);
    let d = mx - mn;
    let h = if d == 0.0 {
        0.0
    } else if mx == r {
        60.0 * (((g - b) / d) % 6.0)
    } else if mx == g {
        60.0 * (((b - r) / d) + 2.0)
    } else {
        60.0 * (((r - g) / d) + 4.0)
    };
    let h = if h < 0.0 { h + 360.0 } else { h };
    let s = if mx == 0.0 { 0.0 } else { d / mx };
    (h, s, mx)
}

/// The way back in the processor's arithmetic.
fn processor_rgb(h: f32, s: f32, v: f32) -> Rgb {
    let c = v * s;
    let h6 = h / 60.0;
    let x = c * (1.0 - ((h6 % 2.0) - 1.0).abs());
    let (r, g, b) = match h6 as i32 {
        0 => (c, x, 0.0),
        1 => (x, c, 0.0),
        2 => (0.0, c, x),
        3 => (0.0, x, c),
        4 => (x, 0.0, c),
        _ => (c, 0.0, x),
    };
    let m = v - c;
    let level = |y: f32| ((y + m) * 255.0 + 0.5).clamp(0.0, 255.0) as u8;
    rgb(level(r), level(g), level(b))
}

fn processor_luminance(c: &Rgb) -> f32 {
    let lin = |c: u8| {
        let c = c as f32 / 255.0;
        if c <= 0.03928 {
            c / 12.92
        } else {
            ((c + 0.055) / 1.055).powf(2.4)
        }
    };
    0.2126 * lin(c.r) + 0.7152 * lin(c.g) + 0.0722 * lin(c.b)
}

fn table() -> PowerTable {
    PowerTable {
        powers: std::array::from_fn(|i| {
            number(f32::from_bits(power_base(i as u8).bits).powf(2.4))
        }),
    }
}

fn some_colors() -> Vec<Rgb> {
    let levels = [0u8, 1, 2, 10, 11, 63, 64, 76, 127, 128, 200, 247, 254, 255];
    let mut v = Vec::new();
    for r in levels {
        for g in levels {
            for b in levels {
                v.push(rgb(r, g, b));
            }
        }
    }
    v
}

#[test]
fn hex_has_two_digits_for_each_level() {
    assert_eq!(rgb(247, 76, 0).hex(), "#f74c00");
    assert_eq!(rgb(0, 0, 0).hex(), "#000000");
    assert_eq!(rgb(255, 255, 255).hex(), "#ffffff");
    assert_eq!(rgb(1, 16, 171).hex(), "#0110ab");
}

#[test]
fn from_hex_reads_six_digits() {
    assert_eq!(Rgb::from_hex("#f74c00"), Some(rgb(247, 76, 0)));
    assert_eq!(Rgb::from_hex("f74c00"), Some(rgb(247, 76, 0)));
    assert_eq!(Rgb::from_hex("F74C00"), Some(rgb(247, 76, 0)));
    assert_eq!(Rgb::from_hex("  ##f74c00\n"), Some(rgb(247, 76, 0)));
    assert_eq!(Rgb::from_hex("\u{3000}#0110aB\u{a0}"), Some(rgb(1, 16, 171)));
    assert_eq!(Rgb::from_hex("+1+a+F"), Some(rgb(1, 10, 15)));
}

#[test]
fn from_hex_refuses_the_rest() {
    for s in ["", "#", "f74c0", "f74c000", "zzzzzz", "-1-2-3", "++1122", "# 4c00", "12 456", "1+2233"] {
        assert_eq!(Rgb::from_hex(s), None, "{s}");
    }
    // six bytes in five characters, cut where characters end
    assert_eq!(Rgb::from_hex("é1234"), None);
    assert_eq!(Rgb::from_hex("12é34"), None);
    assert_eq!(Rgb::from_hex("zz1é2"), None);
}

#[test]
fn codes_are_not_cut_inside_a_character() {
    assert!(!Rgb::can_cut("1é234"));
    assert!(!Rgb::can_cut("123é4"));
    assert!(Rgb::can_cut("zz3é4"));
    assert!(Rgb::can_cut("é1234"));
    assert!(Rgb::can_cut("f74c00"));
    assert!(Rgb::can_cut("1é2345"));
    assert!(Rgb::can_cut(""));
}

#[test]
fn every_code_stands_for_its_color() {
    for c in some_colors() {
        assert_eq!(Rgb::from_hex(&c.hex()), Some(c));
        assert_eq!(Rgb::from_hex(&c.hex().to_uppercase()), Some(c));
    }
}

#[test]
fn hue_saturation_and_value_are_those_of_the_processor() {
    for c in some_colors() {
        let x = c.to_hsv();
        let (h, s, v) = processor_hsv(&c);
        assert_eq!((x.h.bits, x.s.bits, x.v.bits), (h.to_bits(), s.to_bits(), v.to_bits()), "{c:?}");
    }
}

#[test]
fn there_and_back_is_the_same_color() {
    for c in some_colors() {
        assert_eq!(c.to_hsv().to_rgb(), c);
    }
}

#[test]
fn hsv_to_rgb_is_that_of_the_processor() {
    for h in [0.0f32, 0.5, 29.75, 59.99, 60.0, 60.01, 119.9, 120.0, 180.0, 240.0, 299.0, 300.0, 359.9, 360.0, 400.0, -20.0] {
        for s in [0.0f32, 0.01, 0.33333334, 0.5, 0.99, 1.0, 2.0] {
            for v in [0.0f32, 0.01, 0.25, 0.6666667, 0.9960785, 1.0, 1.5] {
                let x = Hsv { h: number(h), s: number(s), v: number(v) };
                assert_eq!(x.to_rgb(), processor_rgb(h, s, v), "{h} {s} {v}");
            }
        }
    }
}

#[test]
fn primary_hues() {
    let one = Single::from_int(1);
    let pure = |h: i32| Hsv { h: Single::from_int(h), s: one, v: one }.to_rgb();
    assert_eq!(pure(0), rgb(255, 0, 0));
    assert_eq!(pure(60), rgb(255, 255, 0));
    assert_eq!(pure(120), rgb(0, 255, 0));
    assert_eq!(pure(180), rgb(0, 255, 255));
    assert_eq!(pure(240), rgb(0, 0, 255));
    assert_eq!(pure(300), rgb(255, 0, 255));
}

#[test]
fn ends_of_saturation_and_value() {
    let (zero, one) = (Single::from_int(0), Single::from_int(1));
    let half = Single::from_ratio(1, 2);
    let h = Single::from_int(200);
    assert_eq!(Hsv { h, s: zero, v: half }.to_rgb(), rgb(128, 128, 128));
    assert_eq!(Hsv { h, s: zero, v: one }.to_rgb(), rgb(255, 255, 255));
    assert_eq!(Hsv { h, s: half, v: zero }.to_rgb(), rgb(0, 0, 0));
    assert_eq!(Hsv { h, s: one, v: half }.to_rgb().r, 0);
    assert_eq!(Hsv { h, s: half, v: one }.to_rgb().b, 255);
}

#[test]
fn hsv_lies_in_its_ranges() {
    let (zero, one, turn) = (Single::from_int(0), Single::from_int(1), Single::from_int(360));
    for c in some_colors() {
        let x = c.to_hsv();
        assert!(zero.less_or_equal(x.h) && x.h.less(turn));
        assert!(zero.less_or_equal(x.s) && x.s.less_or_equal(one));
        assert!(zero.less_or_equal(x.v) && x.v.less_or_equal(one));
    }
}

#[test]
fn luminance_is_that_of_the_processor() {
    let t = table();
    for c in some_colors() {
        assert_eq!(c.luminance(&t).bits, processor_luminance(&c).to_bits());
    }
}

#[test]
fn contrast_is_that_of_the_processor() {
    let t = table();
    let colors = some_colors();
    for i in (0..colors.len()).step_by(37) {
        for j in (0..colors.len()).step_by(41) {
            let (a, b) = (colors[i], colors[j]);
            let la = processor_luminance(&a) + 0.05;
            let lb = processor_luminance(&b) + 0.05;
            let want = if la > lb { la / lb } else { lb / la };
            let got = contrast_ratio(&a, &b, &t);
            assert_eq!(got.bits, want.to_bits());
            assert_eq!(got, contrast_ratio(&b, &a, &t));
            assert!(Single::from_int(1).less_or_equal(got));
        }
    }
    assert_eq!(contrast_ratio(&rgb(0, 0, 0), &rgb(255, 255, 255), &t).to_cent_text(), "21.00");
    assert_eq!(contrast_ratio(&rgb(9, 9, 9), &rgb(9, 9, 9), &t).bits, 1.0f32.to_bits());
}

#[test]
fn labels_by_contrast() {
    assert_eq!(wcag_label(number(21.0)), ("AAA", "✓"));
    assert_eq!(wcag_label(number(7.0)), ("AAA", "✓"));
    assert_eq!(wcag_label(number(6.9999995)), ("AA", "✓"));
    assert_eq!(wcag_label(number(4.5)), ("AA", "✓"));
    assert_eq!(wcag_label(number(4.4999995)), ("AA·", "·"));
    assert_eq!(wcag_label(number(3.0)), ("AA·", "·"));
    assert_eq!(wcag_label(number(2.9999998)), ("✗ low", "✗"));
    assert_eq!(wcag_label(number(1.0)), ("✗ low", "✗"));
    assert_eq!(wcag_label(number(f32::NAN)), ("✗ low", "✗"));
}

#[test]
fn white_space_is_that_of_unicode() {
    for n in 0..=0x10_ffff {
        if let Some(c) = char::from_u32(n) {
            assert_eq!(is_white(c), c.is_whitespace(), "{n:#x}");
        }
    }
    assert_eq!(trim_text(" \t a b\u{2003}\n"), "a b");
    assert_eq!(trim_text(" \n"), "");
}

#[test]
fn digits_and_repetition() {
    assert_eq!(decimal_text(0), "0");
    assert_eq!(decimal_text(65535), "65535");
    assert_eq!(decimal_text(u128::MAX), u128::MAX.to_string());
    assert_eq!(repeat_text("─", 3), "───");
    assert_eq!(repeat_text("ab", 0), "");
}

#[test]
fn exchanging_green_and_blue_mirrors_the_hue() {
    for c in some_colors() {
        let (x, y) = (c.to_hsv(), rgb(c.r, c.b, c.g).to_hsv());
        assert_eq!((x.s, x.v), (y.s, y.v));
        let (h, k) = (f32::from_bits(x.h.bits), f32::from_bits(y.h.bits));
        if h == 0.0 {
            assert_eq!(k, 0.0);
        } else {
            assert!((h + k - 360.0).abs() < 0.001, "{c:?}");
        }
    }
    assert_eq!(rgb(255, 64, 0).to_hsv().h.to_whole_text(), "15");
    assert_eq!(rgb(255, 0, 64).to_hsv().h.to_whole_text(), "345");
}

#[test]
fn powers_rise_from_the_last_proportional_level_on() {
    let powers: Vec<f32> = table().powers.iter().map(|p| f32::from_bits(p.bits)).collect();
    let step = 1.0 / 16384.0;
    for p in &powers {
        assert!(0.0 <= *p && *p <= 1.0);
    }
    for i in 11..255 {
        assert!(powers[i] + step <= powers[i + 1]);
    }
    assert!(10.0 / 255.0 / 12.92 + step <= powers[11]);
}

#[test]
fn higher_levels_are_brighter() {
    let t = table();
    for c in some_colors() {
        let l = c.luminance(&t);
        if c.r < 255 {
            assert!(l.less(rgb(c.r + 1, c.g, c.b).luminance(&t)));
        }
        if c.g < 255 {
            assert!(l.less(rgb(c.r, c.g + 1, c.b).luminance(&t)));
        }
        if c.b < 255 {
            assert!(l.less(rgb(c.r, c.g, c.b + 1).luminance(&t)));
        }
    }
    assert!(rgb(10, 10, 10).luminance(&t).less(rgb(10, 10, 11).luminance(&t)));
}

#[test]
fn tiny_rises_of_a_power_can_vanish() {
    let mut t = table();
    let next = t.powers[200].bits + 1;
    t.powers[201] = Single::from_bits(next);
    assert_eq!(rgb(200, 200, 200).luminance(&t), rgb(200, 200, 201).luminance(&t));
}

#[test]
fn green_outweighs_red_and_red_blue() {
    let t = table();
    for level in 1..=255 {
        let red = rgb(level, 0, 0).luminance(&t);
        assert!(red.less(rgb(0, level, 0).luminance(&t)));
        assert!(rgb(0, 0, level).luminance(&t).less(red));
    }
    // a light of one least unit counts for nothing under the two smaller weights
    let mut t = table();
    t.powers[99] = Single::from_bits(1);
    assert_eq!(rgb(99, 0, 0).luminance(&t).bits, 0);
    assert_eq!(rgb(0, 0, 99).luminance(&t).bits, 0);
}

#[test]
fn a_power_that_is_no_number_spoils_the_contrast() {
    let mut t = table();
    t.powers[99] = number(f32::NAN);
    let c = rgb(99, 0, 0);
    assert!(f32::from_bits(contrast_ratio(&c, &c, &t).bits).is_nan());
    assert_eq!(contrast_ratio(&rgb(98, 0, 0), &rgb(98, 0, 0), &t), Single::from_int(1));
}

#[test]
fn ends_of_luminance_and_contrast() {
    let t = table();
    let (black, white) = (rgb(0, 0, 0), rgb(255, 255, 255));
    assert_eq!(black.luminance(&t).bits, 0);
    assert_eq!(white.luminance(&t).to_cent_text(), "1.00");
    let top = Single::from_ratio(100001, 100000);
    let most = Single::from_ratio(21001, 1000);
    for c in some_colors() {
        assert!(c.luminance(&t).less_or_equal(top));
        assert!(contrast_ratio(&c, &black, &t).less_or_equal(most));
        assert!(contrast_ratio(&white, &c, &t).less_or_equal(most));
    }
}
