use prism::single::Single;

/// Numbers of every kind: zeros, subnormal, tiny, ordinary, huge, infinite, none.
fn patterns() -> Vec<u32> {
    let mut v: Vec<u32> = vec![
        0, 1, 2, 3, 0x007f_ffff, 0x0080_0000, 0x0080_0001, 0x3f80_0000, 0x3f7f_ffff, 0x3f80_0001,
        0x4000_0000, 0x40e0_0000, 0x4090_0000, 0x437f_0000, 0x43b4_0000, 0x4b80_0000, 0x4f00_0000,
        0x7f7f_ffff, 0x7f00_0000, 0x7f80_0000, 0x7fc0_0000, 0x3e99_999a, 0x3dcc_cccd, 0x3b80_8081,
        0x4270_0000, 0x42c8_0000, 0x3f00_0000, 0x3f40_0000, 0x3fc0_0000, 0x4020_0000,
    ];
    let n = v.len();
    for i in 0..n {
        v.push(v[i] ^ 0x8000_0000);
    }
    let mut x: u32 = 0x1234_5678;
    for _ in 0..120 {
        x = x.wrapping_mul(1_664_525).wrapping_add(1_013_904_223);
        v.push(x);
    }
    // numbers of ordinary size
    for _ in 0..120 {
        x = x.wrapping_mul(1_664_525).wrapping_add(1_013_904_223);
        v.push((x & 0x807f_ffff) | ((110 + (x >> 8) % 40) << 23));
    }
    v
}

fn agrees(got: Single, want: f32, what: &str, a: u32, b: u32) {
    if want.is_nan() {
        assert!(f32::from_bits(got.bits).is_nan(), "{what} {a:#x} {b:#x}");
    } else {
        assert_eq!(got.bits, want.to_bits(), "{what} {a:#x} {b:#x}");
    }
}

#[test]
fn sums_are_those_of_the_processor() {
    for a in patterns() {
        for b in patterns() {
            let (x, y) = (f32::from_bits(a), f32::from_bits(b));
            let (s, t) = (Single::from_bits(a), Single::from_bits(b));
            agrees(s.plus(t), x + y, "+", a, b);
            agrees(s.minus(t), x - y, "-", a, b);
        }
    }
}

#[test]
fn products_are_those_of_the_processor() {
    for a in patterns() {
        for b in patterns() {
            let (x, y) = (f32::from_bits(a), f32::from_bits(b));
            agrees(Single::from_bits(a).times(Single::from_bits(b)), x * y, "*", a, b);
        }
    }
}

#[test]
fn quotients_are_those_of_the_processor() {
    for a in patterns() {
        for b in patterns() {
            let (x, y) = (f32::from_bits(a), f32::from_bits(b));
            agrees(Single::from_bits(a).over(Single::from_bits(b)), x / y, "/", a, b);
        }
    }
}

#[test]
fn remainders_are_those_of_the_processor() {
    for a in patterns() {
        for b in patterns() {
            let (x, y) = (f32::from_bits(a), f32::from_bits(b));
            agrees(Single::from_bits(a).modulo(Single::from_bits(b)), x % y, "%", a, b);
        }
    }
}

#[test]
fn order_is_that_of_the_processor() {
    for a in patterns() {
        for b in patterns() {
            let (x, y) = (f32::from_bits(a), f32::from_bits(b));
            let (s, t) = (Single::from_bits(a), Single::from_bits(b));
            assert_eq!(s.less(t), x < y);
            assert_eq!(s.less_or_equal(t), x <= y);
            assert_eq!(s.same(t), x == y);
            if x != y {
                agrees(s.max(t), x.max(y), "max", a, b);
                agrees(s.min(t), x.min(y), "min", a, b);
            }
        }
        let x = f32::from_bits(a);
        agrees(
            Single::from_bits(a).clamp(Single::from_int(0), Single::from_int(1)),
            x.clamp(0.0, 1.0),
            "clamp",
            a,
            0,
        );
        agrees(Single::from_bits(a).abs(), x.abs(), "abs", a, 0);
        agrees(Single::from_bits(a).minus_sign(), -x, "neg", a, 0);
    }
}

#[test]
fn integers_come_and_go_as_in_the_processor() {
    for a in patterns() {
        let x = f32::from_bits(a);
        let s = Single::from_bits(a);
        assert_eq!(s.truncate(i32::MIN as i64, i32::MAX as i64), x as i32 as i64);
        assert_eq!(s.truncate(0, 255), x as u8 as i64);
        let cells = (x.round() as usize).min(22) as u32;
        assert_eq!(s.round_count(22), cells, "{x}");
        assert_eq!(Single::from_int(a as i32).bits, (a as i32 as f32).to_bits());
    }
    assert_eq!(Single::from_int(0).bits, 0);
    assert_eq!(Single::from_int(-1).bits, 0xbf80_0000);
    assert_eq!(Single::from_int(i32::MIN).bits, 0xcf00_0000);
    assert_eq!(Single::from_int(16_777_217).bits, 0x4b80_0000);
}

#[test]
fn constants_are_the_nearest_numbers() {
    assert_eq!(Single::from_ratio(2126, 10000).bits, 0.2126f32.to_bits());
    assert_eq!(Single::from_ratio(7152, 10000).bits, 0.7152f32.to_bits());
    assert_eq!(Single::from_ratio(722, 10000).bits, 0.0722f32.to_bits());
    assert_eq!(Single::from_ratio(3928, 100000).bits, 0.03928f32.to_bits());
    assert_eq!(Single::from_ratio(1292, 100).bits, 12.92f32.to_bits());
    assert_eq!(Single::from_ratio(55, 1000).bits, 0.055f32.to_bits());
    assert_eq!(Single::from_ratio(1055, 1000).bits, 1.055f32.to_bits());
    assert_eq!(Single::from_ratio(5, 100).bits, 0.05f32.to_bits());
    assert_eq!(Single::from_ratio(9, 2).bits, 4.5f32.to_bits());
    assert_eq!(Single::from_ratio(1, 2).bits, 0.5f32.to_bits());
}

#[test]
fn figures_are_those_of_the_standard_library() {
    for a in patterns() {
        let x = f32::from_bits(a);
        let s = Single::from_bits(a);
        assert_eq!(s.to_whole_text(), format!("{:.0}", x));
        assert_eq!(s.to_cent_text(), format!("{:.2}", x));
    }
    for i in 0..2000 {
        let x = i as f32 / 8.0;
        let s = Single::from_bits(x.to_bits());
        assert_eq!(s.to_whole_text(), format!("{:.0}", x));
        assert_eq!(s.to_cent_text(), format!("{:.2}", x));
    }
    assert_eq!(Single::from_ratio(5, 2).to_whole_text(), "2");
    assert_eq!(Single::from_ratio(7, 2).to_whole_text(), "4");
    assert_eq!(Single::from_ratio(21, 1).to_cent_text(), "21.00");
}

#[test]
fn angles_are_brought_into_one_turn() {
    for (from, to) in [(0, 0), (359, 359), (360, 0), (361, 1), (-1, 359), (-360, 0), (725, 5)] {
        assert_eq!(Single::from_int(from).into_one_turn().bits, Single::from_int(to).bits);
    }
}
