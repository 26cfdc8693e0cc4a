use volume_element::byte_order::Endianness;
use volume_element::element::DataElement;
use volume_element::float::{Binary32, Binary64};
use volume_element::transform::{
    LinearTransform, LinearTransformViaF32, LinearTransformViaF64, LinearTransformViaOriginal,
};

fn b32(value: f32) -> Binary32 {
    Binary32::from_bits(value.to_bits())
}

fn b64(value: f64) -> Binary64 {
    Binary64::from_bits(value.to_bits())
}

fn next(state: &mut u64) -> u64 {
    *state = state.wrapping_mul(6364136223846793005).wrapping_add(1442695040888963407);
    let mut mixed = *state;
    mixed ^= mixed >> 33;
    mixed = mixed.wrapping_mul(0xff51_afd7_ed55_8ccd);
    mixed ^= mixed >> 29;
    mixed
}

fn slopes() -> Vec<f32> {
    vec![
        1.0, 2.0, -1.0, 0.5, 0.1, -0.3, 3.75, 1.0e-3, 1.0e3, 1.0e10, -1.0e10, 1.0e38,
        f32::MIN_POSITIVE, f32::from_bits(1), f32::MAX, f32::INFINITY, f32::NEG_INFINITY, f32::NAN,
        16777217.0, 0.333_333_34,
    ]
}

fn intercepts() -> Vec<f32> {
    vec![
        0.0, -0.0, 1.0, -1.0, 0.5, -0.5, 100.25, -1024.0, 1.0e10, -1.0e10, f32::MAX,
        f32::INFINITY, f32::NEG_INFINITY, f32::NAN, 0.499_999_97,
    ]
}

#[test]
fn decoded_u16_one_rescaled_by_two_plus_one_is_three() {
    let decoded = u16::from_raw(&[0x01, 0x00], Endianness::LE).unwrap();
    assert_eq!(decoded, 1);
    assert_eq!(LinearTransformViaF32::linear_transform(decoded, b32(2.0), b32(1.0)), 3u16);
    assert_eq!(
        <u16 as DataElement>::Transform::linear_transform(decoded, b32(2.0), b32(1.0)),
        3u16
    );
}

#[test]
fn zero_slope_leaves_every_value_alone() {
    for slope in [0.0f32, -0.0] {
        for intercept in intercepts() {
            let (s, i) = (b32(slope), b32(intercept));
            assert_eq!(LinearTransformViaF32::linear_transform(200u8, s, i), 200u8);
            assert_eq!(LinearTransformViaF32::linear_transform(-7i8, s, i), -7i8);
            assert_eq!(LinearTransformViaF32::linear_transform(65535u16, s, i), 65535u16);
            assert_eq!(LinearTransformViaF32::linear_transform(-32768i16, s, i), -32768i16);
            assert_eq!(LinearTransformViaF32::linear_transform(u32::MAX, s, i), u32::MAX);
            assert_eq!(LinearTransformViaF32::linear_transform(i32::MIN, s, i), i32::MIN);
            assert_eq!(LinearTransformViaF64::linear_transform(u64::MAX, s, i), u64::MAX);
            assert_eq!(LinearTransformViaF64::linear_transform(i64::MIN + 1, s, i), i64::MIN + 1);
            let nan = Binary32::from_bits(0x7fa0_1234);
            assert_eq!(LinearTransformViaOriginal::linear_transform(nan, s, i), nan);
            assert_eq!(LinearTransformViaOriginal::linear_transform(b32(-1.5), s, i), b32(-1.5));
            assert_eq!(LinearTransformViaOriginal::linear_transform(b64(1.0e300), s, i), b64(1.0e300));
        }
    }
}

#[test]
fn the_smallest_nonzero_slope_is_not_zero() {
    let tiny = Binary32::from_bits(1);
    assert_eq!(LinearTransformViaF32::linear_transform(200u8, tiny, b32(7.0)), 7u8);
}

#[test]
fn narrow_integers_rescale_as_the_machine_does_in_single_precision() {
    let mut state = 11u64;
    for slope in slopes() {
        for intercept in intercepts() {
            let (s, i) = (b32(slope), b32(intercept));
            for _ in 0..8 {
                let raw = next(&mut state) >> (next(&mut state) % 64);
                let v = raw as u8;
                assert_eq!(LinearTransformViaF32::linear_transform(v, s, i), (v as f32 * slope + intercept) as u8);
                let v = raw as i8;
                assert_eq!(LinearTransformViaF32::linear_transform(v, s, i), (v as f32 * slope + intercept) as i8);
                let v = raw as u16;
                assert_eq!(LinearTransformViaF32::linear_transform(v, s, i), (v as f32 * slope + intercept) as u16);
                let v = raw as i16;
                assert_eq!(LinearTransformViaF32::linear_transform(v, s, i), (v as f32 * slope + intercept) as i16);
                let v = raw as u32;
                assert_eq!(LinearTransformViaF32::linear_transform(v, s, i), (v as f32 * slope + intercept) as u32);
                let v = raw as i32;
                assert_eq!(LinearTransformViaF32::linear_transform(v, s, i), (v as f32 * slope + intercept) as i32);
            }
        }
    }
}

#[test]
fn wide_integers_rescale_as_the_machine_does_in_double_precision() {
    let mut state = 12u64;
    for slope in slopes() {
        for intercept in intercepts() {
            let (s, i) = (b32(slope), b32(intercept));
            for _ in 0..8 {
                let raw = next(&mut state) >> (next(&mut state) % 64);
                let v = raw;
                assert_eq!(
                    LinearTransformViaF64::linear_transform(v, s, i),
                    (v as f64 * slope as f64 + intercept as f64) as u64
                );
                let v = raw as i64;
                assert_eq!(
                    LinearTransformViaF64::linear_transform(v, s, i),
                    (v as f64 * slope as f64 + intercept as f64) as i64
                );
            }
        }
    }
}

#[test]
fn floating_point_samples_rescale_in_their_own_type() {
    let mut state = 13u64;
    for slope in slopes() {
        for intercept in intercepts() {
            let (s, i) = (b32(slope), b32(intercept));
            for _ in 0..8 {
                let v = f32::from_bits(next(&mut state) as u32);
                let got = LinearTransformViaOriginal::linear_transform(b32(v), s, i);
                let expected = v * slope + intercept;
                if expected.is_nan() {
                    assert_eq!(got.to_bits(), 0x7fc0_0000);
                } else {
                    assert_eq!(got, b32(expected));
                }
                let v = f64::from_bits(next(&mut state));
                let got = LinearTransformViaOriginal::linear_transform(b64(v), s, i);
                let expected = v * slope as f64 + intercept as f64;
                if expected.is_nan() {
                    assert_eq!(got.to_bits(), 0x7ff8_0000_0000_0000);
                } else {
                    assert_eq!(got, b64(expected));
                }
            }
        }
    }
}

#[test]
fn results_beyond_the_range_saturate() {
    assert_eq!(LinearTransformViaF32::linear_transform(255u8, b32(2.0), b32(0.0)), 255u8);
    assert_eq!(LinearTransformViaF32::linear_transform(254u8, b32(1.0), b32(1.0)), 255u8);
    assert_eq!(LinearTransformViaF32::linear_transform(254u8, b32(1.0), b32(1.9)), 255u8);
    assert_eq!(LinearTransformViaF32::linear_transform(10u8, b32(-1.0), b32(0.0)), 0u8);
    assert_eq!(LinearTransformViaF32::linear_transform(127i8, b32(1000.0), b32(0.0)), 127i8);
    assert_eq!(LinearTransformViaF32::linear_transform(-128i8, b32(1000.0), b32(0.0)), -128i8);
    assert_eq!(LinearTransformViaF32::linear_transform(1u16, b32(f32::INFINITY), b32(0.0)), 65535u16);
    assert_eq!(LinearTransformViaF32::linear_transform(1i16, b32(f32::NEG_INFINITY), b32(0.0)), -32768i16);
    assert_eq!(LinearTransformViaF32::linear_transform(1i32, b32(f32::NAN), b32(0.0)), 0i32);
    assert_eq!(LinearTransformViaF32::linear_transform(0u8, b32(f32::INFINITY), b32(0.0)), 0u8);
    assert_eq!(LinearTransformViaF64::linear_transform(u64::MAX, b32(2.0), b32(0.0)), u64::MAX);
    assert_eq!(LinearTransformViaF64::linear_transform(i64::MIN, b32(2.0), b32(0.0)), i64::MIN);
}

#[test]
fn fractions_are_cut_toward_zero() {
    assert_eq!(LinearTransformViaF32::linear_transform(3u8, b32(0.5), b32(0.0)), 1u8);
    assert_eq!(LinearTransformViaF32::linear_transform(3i8, b32(-0.5), b32(0.0)), -1i8);
    assert_eq!(LinearTransformViaF32::linear_transform(7u16, b32(0.1), b32(0.35)), 1u16);
    assert_eq!(LinearTransformViaF32::linear_transform(-7i16, b32(0.1), b32(-0.35)), -1i16);
}

#[test]
fn double_precision_keeps_what_single_precision_loses() {
    let value: i64 = (1 << 40) + 1;
    assert_eq!(LinearTransformViaF64::linear_transform(value, b32(1.0), b32(0.0)), value);
    assert_eq!(LinearTransformViaF32::linear_transform(value, b32(1.0), b32(0.0)), 1 << 40);
    let value: u64 = (1 << 53) - 1;
    assert_eq!(LinearTransformViaF64::linear_transform(value, b32(1.0), b32(0.0)), value);
    let value: u64 = (1 << 52) - 1;
    assert_eq!(LinearTransformViaF64::linear_transform(value, b32(2.0), b32(1.0)), 2 * value + 1);
    // 2^54 - 1 has one digit too many: it is rounded to 2^54.
    let value: u64 = (1 << 53) - 1;
    assert_eq!(LinearTransformViaF64::linear_transform(value, b32(2.0), b32(1.0)), 1 << 54);
}

#[test]
fn wide_integers_come_back_after_rescaling_and_its_inverse() {
    // Slopes and intercepts that binary32 holds exactly, and whose inverse
    // it holds exactly too.
    let mut state = 14u64;
    for (slope, intercept) in [(2.0f32, 1.0f32), (0.5, -3.0), (4.0, 1024.0), (-2.0, 8.0), (0.25, 0.0)] {
        let back_slope = 1.0 / slope;
        let back_intercept = -intercept / slope;
        for _ in 0..2000 {
            let value = (next(&mut state) >> 12) as i64 - (1 << 50);
            let there = LinearTransformViaF64::linear_transform(value, b32(slope), b32(intercept));
            let back = LinearTransformViaF64::linear_transform(there, b32(back_slope), b32(back_intercept));
            let error = (back - value).abs() as f64;
            assert!(error <= 1.0 / slope.abs() as f64 + value.abs() as f64 * f64::EPSILON);
        }
    }
}

#[test]
fn many_equals_one_by_one() {
    let values: Vec<i16> = vec![-32768, -300, -1, 0, 1, 2, 255, 4096, 32767];
    let (s, i) = (b32(1.5), b32(-0.25));
    let many = LinearTransformViaF32::linear_transform_many(&values, s, i);
    assert_eq!(many.len(), values.len());
    for (index, &value) in values.iter().enumerate() {
        assert_eq!(many[index], LinearTransformViaF32::linear_transform(value, s, i));
    }
    assert_eq!(values, vec![-32768, -300, -1, 0, 1, 2, 255, 4096, 32767]);
    let mut inline = values.clone();
    LinearTransformViaF32::linear_transform_many_inline(&mut inline, s, i);
    assert_eq!(inline, many);
    assert_eq!(many, vec![-32768, -450, -1, 0, 1, 2, 382, 6143, 32767]);
}

#[test]
fn many_of_nothing_is_nothing() {
    let mut values: Vec<u64> = vec![];
    assert_eq!(LinearTransformViaF64::linear_transform_many(&values, b32(2.0), b32(1.0)), vec![]);
    LinearTransformViaF64::linear_transform_many_inline(&mut values, b32(2.0), b32(1.0));
    assert_eq!(values, vec![]);
}

#[test]
fn many_with_zero_slope_copies() {
    let values = vec![b64(1.5), b64(f64::INFINITY), Binary64::from_bits(0x7ff0_0000_0000_0001)];
    let many = LinearTransformViaOriginal::linear_transform_many(&values, b32(0.0), b32(5.0));
    assert_eq!(many, values);
    let mut inline = values.clone();
    LinearTransformViaOriginal::linear_transform_many_inline(&mut inline, b32(-0.0), b32(5.0));
    assert_eq!(inline, values);
}
