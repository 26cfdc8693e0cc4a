use volume_element::float::arith::{add, multiply};
use volume_element::float::convert::{convert, from_integer, to_integer};
use volume_element::float::format::{round, unpack, Unpacked};
use volume_element::float::{Binary32, Binary64, Format};

fn single(value: f32) -> u64 {
    value.to_bits() as u64
}

fn same_single(bits: u64, expected: f32) -> bool {
    if expected.is_nan() {
        bits == 0x7fc0_0000
    } else {
        bits == expected.to_bits() as u64
    }
}

fn same_double(bits: u64, expected: f64) -> bool {
    if expected.is_nan() {
        bits == 0x7ff8_0000_0000_0000
    } else {
        bits == expected.to_bits()
    }
}

fn next(state: &mut u64) -> u64 {
    *state = state.wrapping_mul(6364136223846793005).wrapping_add(1442695040888963407);
    let mut mixed = *state;
    mixed ^= mixed >> 33;
    mixed = mixed.wrapping_mul(0xff51_afd7_ed55_8ccd);
    mixed ^= mixed >> 29;
    mixed
}

fn special_singles() -> Vec<f32> {
    vec![
        0.0,
        -0.0,
        1.0,
        -1.0,
        2.0,
        0.5,
        3.0,
        1.5,
        0.1,
        -0.3,
        255.0,
        256.0,
        65535.0,
        16777216.0,
        16777217.0,
        4294967296.0,
        f32::MIN_POSITIVE,
        -f32::MIN_POSITIVE,
        f32::from_bits(1),
        f32::from_bits(0x8000_0001),
        f32::from_bits(0x007f_ffff),
        f32::from_bits(0x0080_0001),
        f32::MAX,
        f32::MIN,
        f32::EPSILON,
        1.0 + f32::EPSILON,
        1.0 - f32::EPSILON / 2.0,
        f32::INFINITY,
        f32::NEG_INFINITY,
        f32::NAN,
        1.0e-30,
        -1.0e30,
        1.0e-45,
        3.4e38,
    ]
}

fn special_doubles() -> Vec<f64> {
    vec![
        0.0,
        -0.0,
        1.0,
        -1.0,
        2.0,
        0.5,
        3.0,
        0.1,
        -0.3,
        9007199254740992.0,
        9007199254740993.0,
        18446744073709551615.0,
        f64::MIN_POSITIVE,
        -f64::MIN_POSITIVE,
        f64::from_bits(1),
        f64::from_bits(0x8000_0000_0000_0001),
        f64::from_bits(0x000f_ffff_ffff_ffff),
        f64::from_bits(0x0010_0000_0000_0001),
        f64::MAX,
        f64::MIN,
        f64::EPSILON,
        1.0 + f64::EPSILON,
        1.0 - f64::EPSILON / 2.0,
        f64::INFINITY,
        f64::NEG_INFINITY,
        f64::NAN,
        1.0e-300,
        -1.0e300,
        5.0e-324,
        1.7e308,
    ]
}

#[test]
fn single_products_of_special_values_match_the_machine() {
    let values = special_singles();
    for &a in &values {
        for &b in &values {
            let bits = multiply(Format::Single, single(a), single(b));
            assert!(same_single(bits, a * b), "{:?} * {:?} gave {:#x}", a, b, bits);
        }
    }
}

#[test]
fn single_sums_of_special_values_match_the_machine() {
    let values = special_singles();
    for &a in &values {
        for &b in &values {
            let bits = add(Format::Single, single(a), single(b));
            assert!(same_single(bits, a + b), "{:?} + {:?} gave {:#x}", a, b, bits);
        }
    }
}

#[test]
fn double_products_of_special_values_match_the_machine() {
    let values = special_doubles();
    for &a in &values {
        for &b in &values {
            let bits = multiply(Format::Double, a.to_bits(), b.to_bits());
            assert!(same_double(bits, a * b), "{:?} * {:?} gave {:#x}", a, b, bits);
        }
    }
}

#[test]
fn double_sums_of_special_values_match_the_machine() {
    let values = special_doubles();
    for &a in &values {
        for &b in &values {
            let bits = add(Format::Double, a.to_bits(), b.to_bits());
            assert!(same_double(bits, a + b), "{:?} + {:?} gave {:#x}", a, b, bits);
        }
    }
}

#[test]
fn single_arithmetic_on_arbitrary_patterns_matches_the_machine() {
    let mut state = 0x1234_5678_9abc_def0u64;
    for _ in 0..20000 {
        let a = f32::from_bits(next(&mut state) as u32);
        let b = f32::from_bits(next(&mut state) as u32);
        let product = multiply(Format::Single, single(a), single(b));
        assert!(same_single(product, a * b), "{:?} * {:?} gave {:#x}", a, b, product);
        let sum = add(Format::Single, single(a), single(b));
        assert!(same_single(sum, a + b), "{:?} + {:?} gave {:#x}", a, b, sum);
    }
}

#[test]
fn single_sums_of_close_exponents_match_the_machine() {
    let mut state = 0x0dd_ba11u64;
    for _ in 0..20000 {
        let a = f32::from_bits(next(&mut state) as u32);
        let shift = (next(&mut state) % 61) as i32 - 30;
        let fraction = (next(&mut state) as u32) & 0x807f_ffff;
        let field = ((a.to_bits() >> 23) & 0xff) as i32 + shift;
        let field = if field < 0 { 0 } else if field > 254 { 254 } else { field } as u32;
        let b = f32::from_bits(fraction | (field << 23));
        let sum = add(Format::Single, single(a), single(b));
        assert!(same_single(sum, a + b), "{:?} + {:?} gave {:#x}", a, b, sum);
    }
}

#[test]
fn double_arithmetic_on_arbitrary_patterns_matches_the_machine() {
    let mut state = 0xfeed_face_cafe_beefu64;
    for _ in 0..20000 {
        let a = f64::from_bits(next(&mut state));
        let b = f64::from_bits(next(&mut state));
        let product = multiply(Format::Double, a.to_bits(), b.to_bits());
        assert!(same_double(product, a * b), "{:?} * {:?} gave {:#x}", a, b, product);
        let sum = add(Format::Double, a.to_bits(), b.to_bits());
        assert!(same_double(sum, a + b), "{:?} + {:?} gave {:#x}", a, b, sum);
    }
}

#[test]
fn double_sums_of_close_exponents_match_the_machine() {
    let mut state = 0x5eed_5eed_5eedu64;
    for _ in 0..20000 {
        let a = f64::from_bits(next(&mut state));
        let shift = (next(&mut state) % 121) as i64 - 60;
        let fraction = next(&mut state) & 0x800f_ffff_ffff_ffff;
        let field = ((a.to_bits() >> 52) & 0x7ff) as i64 + shift;
        let field = if field < 0 { 0 } else if field > 2046 { 2046 } else { field } as u64;
        let b = f64::from_bits(fraction | (field << 52));
        let sum = add(Format::Double, a.to_bits(), b.to_bits());
        assert!(same_double(sum, a + b), "{:?} + {:?} gave {:#x}", a, b, sum);
    }
}

#[test]
fn products_near_the_subnormal_range_match_the_machine() {
    let mut state = 0xabcdu64;
    for _ in 0..20000 {
        let a = f32::from_bits(((next(&mut state) as u32) & 0x807f_ffff) | (((next(&mut state) % 40) as u32 + 30) << 23));
        let b = f32::from_bits(((next(&mut state) as u32) & 0x807f_ffff) | (((next(&mut state) % 40) as u32 + 60) << 23));
        let product = multiply(Format::Single, single(a), single(b));
        assert!(same_single(product, a * b), "{:?} * {:?} gave {:#x}", a, b, product);
    }
}

#[test]
fn integers_convert_as_the_machine_does() {
    let mut state = 77u64;
    let mut values: Vec<i128> = vec![
        0,
        1,
        -1,
        255,
        16777215,
        16777216,
        16777217,
        16777218,
        16777219,
        -16777217,
        4294967295,
        2147483647,
        -2147483648,
        9007199254740992,
        9007199254740993,
        9007199254740994,
        9007199254740995,
        i64::MAX as i128,
        i64::MIN as i128,
        u64::MAX as i128,
    ];
    for _ in 0..5000 {
        let raw = next(&mut state);
        let shift = next(&mut state) % 64;
        values.push((raw >> shift) as i128);
        values.push(-((raw >> shift) as i128));
    }
    for &value in &values {
        if value >= 0 {
            let unsigned = value as u64;
            assert!(same_single(from_integer(Format::Single, value), unsigned as f32));
            assert!(same_double(from_integer(Format::Double, value), unsigned as f64));
        }
        if value >= i64::MIN as i128 && value <= i64::MAX as i128 {
            let signed = value as i64;
            assert!(same_single(from_integer(Format::Single, value), signed as f32));
            assert!(same_double(from_integer(Format::Double, value), signed as f64));
        }
    }
}

#[test]
fn patterns_convert_to_integers_as_the_machine_does() {
    let mut state = 99u64;
    let mut singles = special_singles();
    let mut doubles = special_doubles();
    for extra in [
        254.5f32, 255.5, 256.5, -0.5, -1.5, 127.9, 128.0, -128.0, -128.9, -129.0, 65535.9,
        65536.0, 32767.5, -32768.5, 2147483648.0, -2147483648.0, 4294967296.0,
        9223372036854775808.0, 18446744073709551616.0,
    ] {
        singles.push(extra);
        doubles.push(extra as f64);
    }
    doubles.push(2147483647.9);
    doubles.push(4294967295.5);
    doubles.push(-2147483648.9);
    for _ in 0..5000 {
        singles.push(f32::from_bits(next(&mut state) as u32));
        doubles.push(f64::from_bits(next(&mut state)));
        let scale = (next(&mut state) % 70) as i32;
        singles.push((next(&mut state) as f32 / u64::MAX as f32 - 0.5) * 2.0f32.powi(scale));
        doubles.push((next(&mut state) as f64 / u64::MAX as f64 - 0.5) * 2.0f64.powi(scale));
    }
    for &value in &singles {
        let bits = single(value);
        assert_eq!(to_integer(Format::Single, bits, 0, 255), (value as u8) as i128);
        assert_eq!(to_integer(Format::Single, bits, -128, 127), (value as i8) as i128);
        assert_eq!(to_integer(Format::Single, bits, 0, 65535), (value as u16) as i128);
        assert_eq!(to_integer(Format::Single, bits, -32768, 32767), (value as i16) as i128);
        assert_eq!(to_integer(Format::Single, bits, 0, u32::MAX as i128), (value as u32) as i128);
        assert_eq!(
            to_integer(Format::Single, bits, i32::MIN as i128, i32::MAX as i128),
            (value as i32) as i128
        );
        assert_eq!(to_integer(Format::Single, bits, 0, u64::MAX as i128), (value as u64) as i128);
        assert_eq!(
            to_integer(Format::Single, bits, i64::MIN as i128, i64::MAX as i128),
            (value as i64) as i128
        );
    }
    for &value in &doubles {
        let bits = value.to_bits();
        assert_eq!(to_integer(Format::Double, bits, 0, 255), (value as u8) as i128);
        assert_eq!(to_integer(Format::Double, bits, -128, 127), (value as i8) as i128);
        assert_eq!(to_integer(Format::Double, bits, 0, u32::MAX as i128), (value as u32) as i128);
        assert_eq!(
            to_integer(Format::Double, bits, i32::MIN as i128, i32::MAX as i128),
            (value as i32) as i128
        );
        assert_eq!(to_integer(Format::Double, bits, 0, u64::MAX as i128), (value as u64) as i128);
        assert_eq!(
            to_integer(Format::Double, bits, i64::MIN as i128, i64::MAX as i128),
            (value as i64) as i128
        );
    }
}

#[test]
fn formats_convert_as_the_machine_does() {
    let mut state = 4242u64;
    let mut singles = special_singles();
    let mut doubles = special_doubles();
    for &value in &special_singles() {
        doubles.push(value as f64);
        doubles.push(value as f64 * (1.0 + f64::EPSILON));
        doubles.push(value as f64 * (1.0 + f32::EPSILON as f64 / 2.0));
        doubles.push(value as f64 * (1.0 + f32::EPSILON as f64 * 1.5));
    }
    for _ in 0..10000 {
        singles.push(f32::from_bits(next(&mut state) as u32));
        doubles.push(f64::from_bits(next(&mut state)));
        let field = 1023 - 160 + next(&mut state) % 300;
        doubles.push(f64::from_bits((next(&mut state) & 0x800f_ffff_ffff_ffff) | (field << 52)));
    }
    for &value in &singles {
        let wide = convert(Format::Single, Format::Double, single(value));
        assert!(same_double(wide, value as f64), "{:?} widened to {:#x}", value, wide);
        assert_eq!(Binary32::from_bits(value.to_bits()).widen().to_bits(), wide);
        let same = convert(Format::Single, Format::Single, single(value));
        assert!(same_single(same, value));
    }
    for &value in &doubles {
        let narrow = convert(Format::Double, Format::Single, value.to_bits());
        assert!(same_single(narrow, value as f32), "{:?} narrowed to {:#x}", value, narrow);
        assert_eq!(Binary64::from_bits(value.to_bits()).narrow().to_bits() as u64, narrow);
    }
}

#[test]
fn unpack_tells_the_classes_apart() {
    assert_eq!(unpack(Format::Single, single(f32::NAN)), Unpacked::Nan);
    assert_eq!(
        unpack(Format::Single, single(f32::NEG_INFINITY)),
        Unpacked::Infinite { negative: true }
    );
    assert_eq!(
        unpack(Format::Single, single(1.0)),
        Unpacked::Finite { negative: false, mantissa: 0x80_0000, exponent: -23 }
    );
    assert_eq!(
        unpack(Format::Single, single(-0.0)),
        Unpacked::Finite { negative: true, mantissa: 0, exponent: -149 }
    );
    assert_eq!(
        unpack(Format::Single, 1),
        Unpacked::Finite { negative: false, mantissa: 1, exponent: -149 }
    );
    assert_eq!(
        unpack(Format::Double, (-3.0f64).to_bits()),
        Unpacked::Finite { negative: true, mantissa: 0x18_0000_0000_0000, exponent: -51 }
    );
    assert_eq!(unpack(Format::Double, f64::INFINITY.to_bits()), Unpacked::Infinite { negative: false });
}

#[test]
fn round_breaks_ties_to_even_and_overflows_to_infinity() {
    // 2^24 + 1 lies halfway between two binary32 numbers: the even one wins.
    assert_eq!(round(Format::Single, false, 0x100_0001, 0), single(16777216.0));
    assert_eq!(round(Format::Single, false, 0x100_0003, 0), single(16777220.0));
    assert_eq!(round(Format::Single, true, 0x100_0002, 0), single(-16777218.0));
    assert_eq!(round(Format::Single, false, 3, -1), single(1.5));
    assert_eq!(round(Format::Single, false, 1, 128), single(f32::INFINITY));
    assert_eq!(round(Format::Single, true, 0xff_ffff, 104), single(f32::MIN));
    assert_eq!(round(Format::Single, false, 0x1ff_ffff, 103), single(f32::INFINITY));
    assert_eq!(round(Format::Single, false, 1, -149), 1);
    assert_eq!(round(Format::Single, false, 1, -150), 0);
    assert_eq!(round(Format::Single, false, 3, -150), 2);
    assert_eq!(round(Format::Single, true, 0, 5), 0x8000_0000);
    assert_eq!(round(Format::Double, false, 1, -1074), 1);
    assert_eq!(round(Format::Double, false, 1, -1075), 0);
    assert_eq!(round(Format::Double, false, 1, 1024), f64::INFINITY.to_bits());
}

#[test]
fn conversions_take_every_wide_integer() {
    assert!(same_single(from_integer(Format::Single, i128::MAX), i128::MAX as f32));
    assert!(same_single(from_integer(Format::Single, i128::MIN), i128::MIN as f32));
    assert!(same_double(from_integer(Format::Double, i128::MAX), i128::MAX as f64));
    assert!(same_double(from_integer(Format::Double, i128::MIN), i128::MIN as f64));
    assert!(same_double(from_integer(Format::Double, i128::MIN + 1), (i128::MIN + 1) as f64));
    for value in [f32::MAX, f32::MIN, 1.0e30, -1.0e30, 1.7e38, f32::INFINITY, f32::NEG_INFINITY, f32::NAN, 0.7, -123456.7] {
        assert_eq!(to_integer(Format::Single, single(value), i128::MIN, i128::MAX), value as i128);
        assert_eq!(to_integer(Format::Single, single(value), 0, i128::MAX), (value as i128).max(0));
    }
    for value in [f64::MAX, f64::MIN, 1.0e30, -1.0e30, 1.7e38, -1.7014118346046923e38, 1.7014118346046923e38, 1.7014118346046921e38, f64::INFINITY, f64::NAN, 0.7] {
        assert_eq!(to_integer(Format::Double, value.to_bits(), i128::MIN, i128::MAX), value as i128);
    }
}

#[test]
fn round_takes_every_mantissa_and_exponent() {
    assert_eq!(round(Format::Single, false, u128::MAX, 0), single(u128::MAX as f32));
    assert_eq!(round(Format::Double, false, u128::MAX, 0), (u128::MAX as f64).to_bits());
    assert_eq!(round(Format::Double, false, u128::MAX - (1 << 74), 0), ((u128::MAX - (1 << 74)) as f64).to_bits());
    assert_eq!(round(Format::Single, false, u128::MAX, i64::MAX), single(f32::INFINITY));
    assert_eq!(round(Format::Single, true, u128::MAX, i64::MIN), 0x8000_0000);
    assert_eq!(round(Format::Single, false, 1, i64::MIN), 0);
    assert_eq!(round(Format::Double, false, 1, i64::MAX), f64::INFINITY.to_bits());
    // Mantissas of 128 digits cut at every place up to all of them.
    assert_eq!(round(Format::Single, false, 1 << 127, -149 - 128), 0);
    assert_eq!(round(Format::Single, false, (1 << 127) + 1, -149 - 128), 1);
    assert_eq!(round(Format::Single, false, u128::MAX, -149 - 128), 1);
    assert_eq!(round(Format::Single, false, u128::MAX, -149 - 129), 0);
    assert_eq!(round(Format::Single, false, u128::MAX, -149 - 127), 2);
    assert_eq!(round(Format::Single, false, 3 << 126, -149 - 127), 2);
    assert_eq!(round(Format::Single, false, 1 << 127, -149 - 127), 1);
}

#[test]
fn binary_numbers_multiply_and_add() {
    let two = Binary32::from_bits(2.0f32.to_bits());
    let three = Binary32::from_bits(3.0f32.to_bits());
    assert_eq!(two.mul(three).to_bits(), 6.0f32.to_bits());
    assert_eq!(two.add(three).to_bits(), 5.0f32.to_bits());
    let tenth = Binary64::from_bits(0.1f64.to_bits());
    let fifth = Binary64::from_bits(0.2f64.to_bits());
    assert_eq!(tenth.add(fifth).to_bits(), (0.1f64 + 0.2f64).to_bits());
    assert_eq!(tenth.mul(fifth).to_bits(), (0.1f64 * 0.2f64).to_bits());
    assert_eq!(Binary32::from_bits(0.1f32.to_bits()).widen().to_bits(), (0.1f32 as f64).to_bits());
    assert_eq!(tenth.narrow().to_bits(), 0.1f32.to_bits());
}

#[test]
fn only_the_two_zeros_are_zero() {
    assert!(Binary32::from_bits(0).is_zero());
    assert!(Binary32::from_bits(0x8000_0000).is_zero());
    assert!(!Binary32::from_bits(1).is_zero());
    assert!(!Binary32::from_bits(0x8000_0001).is_zero());
    assert!(!Binary32::from_bits(f32::NAN.to_bits()).is_zero());
    assert!(!Binary32::from_bits(1.0f32.to_bits()).is_zero());
}

#[test]
fn formats_have_the_constants_of_the_standard() {
    assert_eq!(Format::Single.precision(), f32::MANTISSA_DIGITS as i64);
    assert_eq!(Format::Double.precision(), f64::MANTISSA_DIGITS as i64);
    assert_eq!(Format::Single.infinity(), f32::INFINITY.to_bits() as u64);
    assert_eq!(Format::Double.infinity(), f64::INFINITY.to_bits());
    assert_eq!(Format::Single.sign_bit(), (-0.0f32).to_bits() as u64);
    assert_eq!(Format::Double.sign_bit(), (-0.0f64).to_bits());
    assert_eq!(Format::Single.hidden_bit(), 1 << 23);
    assert_eq!(Format::Double.hidden_bit(), 1 << 52);
    assert_eq!(Format::Single.min_exponent(), -149);
    assert_eq!(Format::Double.min_exponent(), -1074);
    assert!(f32::from_bits(Format::Single.nan() as u32).is_nan());
    assert!(f64::from_bits(Format::Double.nan()).is_nan());
}
