use termwindow_render::single::Single;

fn single(x: f32) -> Single {
    Single::from_bits(x.to_bits())
}

fn float(x: Single) -> f32 {
    f32::from_bits(x.to_bits())
}

fn same(ours: Single, theirs: f32) -> bool {
    let ours = float(ours);
    if theirs.is_nan() {
        ours.is_nan()
    } else {
        ours.to_bits() == theirs.to_bits()
    }
}

/// Bit patterns over the whole range, with many near each other and near the
/// edges of the format.
fn samples() -> Vec<f32> {
    let mut bits: Vec<u32> = vec![
        0, 1, 2, 3, 0x007f_ffff, 0x0080_0000, 0x0080_0001, 0x00ff_ffff, 0x0100_0000, 0x3f7f_ffff,
        0x3f80_0000, 0x3f80_0001, 0x4b7f_ffff, 0x4b80_0000, 0x4b80_0001, 0x7f7f_fffe, 0x7f7f_ffff,
        0x7f80_0000, 0x7f80_0001, 0x7fc0_0000, 0x7fff_ffff,
    ];
    let mut state: u64 = 0x9e37_79b9_7f4a_7c15;
    for _ in 0..160 {
        state = state.wrapping_mul(6364136223846793005).wrapping_add(1442695040888963407);
        bits.push((state >> 33) as u32);
    }
    for x in [
        0.1f32, 0.2, 0.25, 0.35, 0.5, 0.75, 0.999, 1.21, 1.5, 2.0, 3.0, 16.0, 60.0, 100.5, 1000.0,
        4200.0, 16777215.0, 16777216.0, 1e9, 2147483648.0, 4294967296.0, 1.8446744e19, 1e30, 1e-30,
        1e-40,
    ] {
        bits.push(x.to_bits());
    }
    let mut all = Vec::new();
    for b in bits {
        all.push(f32::from_bits(b & 0x7fff_ffff));
        all.push(f32::from_bits(b | 0x8000_0000));
    }
    all
}

#[test]
fn arithmetic_is_bit_exact() {
    let all = samples();
    for &a in &all {
        for &b in &all {
            assert!(same(single(a).plus(single(b)), a + b), "{a} + {b}");
            assert!(same(single(a).minus(single(b)), a - b), "{a} - {b}");
            assert!(same(single(a).times(single(b)), a * b), "{a} * {b}");
            assert!(same(single(a).over(single(b)), a / b), "{a} / {b}");
        }
    }
}

#[test]
fn comparisons_agree() {
    let all = samples();
    for &a in &all {
        for &b in &all {
            assert_eq!(single(a).below(single(b)), a < b, "{a} < {b}");
            assert_eq!(single(a).at_least(single(b)), a >= b, "{a} >= {b}");
            assert_eq!(single(a).equals(single(b)), a == b, "{a} == {b}");
        }
    }
}

#[test]
fn conversions_agree() {
    for &a in &samples() {
        assert!(same(single(a).negated(), -a), "-{a}");
        assert_eq!(single(a).floor_to_i32(), a.floor() as i32, "floor {a}");
        assert_eq!(single(a).to_u32(), a as u32, "{a} as u32");
        assert_eq!(single(a).to_usize(), a as usize, "{a} as usize");
        assert!(same(single(a).ceil(), a.ceil()), "ceil {a}");
        assert!(same(single(a).clamped(), a.clamp(0.0, 1.0)), "clamp {a}");
        assert_eq!(float(single(a).or_zero()), a.max(0.0), "max {a}");
    }
}

#[test]
fn integers_round_to_nearest() {
    for n in [
        0u64, 1, 2, 3, 999, 4200, 16777215, 16777216, 16777217, 16777218, 16777219, 33554431,
        33554433, 4294967295, 9007199254740993, u64::MAX - 1, u64::MAX,
    ] {
        assert!(same(Single::from_u64(n), n as f32), "{n}");
        assert!(same(Single::from_usize(n as usize), n as usize as f32), "{n}");
        let i = n as i64;
        assert!(same(Single::from_i64(i), i as f32), "{i}");
        assert!(same(Single::from_i64(i.wrapping_neg()), i.wrapping_neg() as f32), "-{i}");
    }
    assert!(same(Single::from_i64(i64::MIN), i64::MIN as f32));
}

#[test]
fn fractions_are_the_decimal_literals() {
    assert!(same(Single::ratio(121, 100), 1.21));
    assert!(same(Single::ratio(35, 100), 0.35));
    assert!(same(Single::ratio(1, 4), 0.25));
    assert!(same(Single::ratio(7, 4), 1.75));
    assert!(same(Single::ratio(999, 1000), 0.999));
    assert!(same(Single::ratio(40, 100), 0.40));
    assert!(same(Single::ratio(55, 100), 0.55));
    assert!(same(Single::ratio(12, 100), 0.12));
    assert!(same(Single::ratio(80, 100), 0.80));
    assert!(same(Single::ratio(85, 100), 0.85));
    assert!(same(Single::ratio(75, 100), 0.75));
    assert!(same(Single::ratio(25, 100), 0.25));
    assert!(same(Single::ratio(10, 100), 0.10));
    assert!(same(Single::ratio(65, 100), 0.65));
    assert!(same(Single::ratio(0, 7), 0.0));
    assert_eq!(Single::ratio(121, 100).to_bits(), 0x3f9a_e148);
}
