//! Multiplication and addition on bit patterns, correctly rounded.

use vstd::arithmetic::div_mod::lemma_fundamental_div_mod_converse;
use vstd::arithmetic::power2::{lemma_pow2_adds, lemma_pow2_pos, pow2};
use vstd::prelude::*;

use crate::float::format::{
    assembled, round, round_half_even, rounded, rounded_magnitude, scaled_mantissa,
    target_exponent, unpack, unpacked, Format, Unpacked,
};
use crate::float::power::{
    bit_length, lemma_bit_length_joined, lemma_bit_length_unique, lemma_pow2_increases,
    lemma_pow2_values, power_of_two,
};

verus! {

/// The pattern of infinity with the given sign.
pub open spec fn signed_infinity(format: Format, negative: bool) -> nat {
    format.infinity() as nat + if negative {
        format.sign_bit() as nat
    } else {
        0
    }
}

/// The product of two patterns: the exact product of the numbers they
/// stand for, rounded to the nearest pattern.
///
/// A NaN operand gives NaN, and so does infinity times zero. The sign of
/// any other result is negative exactly when the operands' signs differ.
pub open spec fn product(format: Format, left: u64, right: u64) -> nat {
    match (unpacked(format, left), unpacked(format, right)) {
        (Unpacked::Nan, _) => format.nan() as nat,
        (_, Unpacked::Nan) => format.nan() as nat,
        (Unpacked::Infinite { negative: n1 }, Unpacked::Infinite { negative: n2 }) => {
            signed_infinity(format, n1 != n2)
        },
        (Unpacked::Infinite { negative: n1 }, Unpacked::Finite { negative: n2, mantissa, .. }) => {
            if mantissa == 0 {
                format.nan() as nat
            } else {
                signed_infinity(format, n1 != n2)
            }
        },
        (Unpacked::Finite { negative: n1, mantissa, .. }, Unpacked::Infinite { negative: n2 }) => {
            if mantissa == 0 {
                format.nan() as nat
            } else {
                signed_infinity(format, n1 != n2)
            }
        },
        (
            Unpacked::Finite { negative: n1, mantissa: m1, exponent: e1 },
            Unpacked::Finite { negative: n2, mantissa: m2, exponent: e2 },
        ) => rounded(format, n1 != n2, m1 as nat * m2 as nat, e1 + e2),
    }
}

/// Multiplies two patterns.
pub fn multiply(format: Format, left: u64, right: u64) -> (bits: u64)
    ensures
        bits == product(format, left, right),
        bits < 2 * format.sign_bit(),
{
    let infinity = format.infinity();
    let sign_bit = format.sign_bit();
    match (unpack(format, left), unpack(format, right)) {
        (Unpacked::Nan, _) => format.nan(),
        (_, Unpacked::Nan) => format.nan(),
        (Unpacked::Infinite { negative: n1 }, Unpacked::Infinite { negative: n2 }) => {
            if n1 != n2 {
                infinity + sign_bit
            } else {
                infinity
            }
        },
        (Unpacked::Infinite { negative: n1 }, Unpacked::Finite { negative: n2, mantissa, .. }) => {
            if mantissa == 0 {
                format.nan()
            } else if n1 != n2 {
                infinity + sign_bit
            } else {
                infinity
            }
        },
        (Unpacked::Finite { negative: n1, mantissa, .. }, Unpacked::Infinite { negative: n2 }) => {
            if mantissa == 0 {
                format.nan()
            } else if n1 != n2 {
                infinity + sign_bit
            } else {
                infinity
            }
        },
        (
            Unpacked::Finite { negative: n1, mantissa: m1, exponent: e1 },
            Unpacked::Finite { negative: n2, mantissa: m2, exponent: e2 },
        ) => {
            assert(m1 as nat * m2 as nat <= 0x20_0000_0000_0000 * 0x20_0000_0000_0000)
                by (nonlinear_arith)
                requires
                    m1 <= 0x20_0000_0000_0000,
                    m2 <= 0x20_0000_0000_0000,
            ;
            round(format, n1 != n2, m1 as u128 * m2 as u128, e1 + e2)
        },
    }
}

/// `magnitude`, negated if `negative`.
pub open spec fn with_sign(negative: bool, magnitude: int) -> int {
    if negative {
        -magnitude
    } else {
        magnitude
    }
}

/// The sum of two patterns: the exact sum of the numbers they stand for,
/// rounded to the nearest pattern.
///
/// A NaN operand gives NaN, and so do two infinities of opposite sign. An
/// exact sum of zero is positive zero, unless both operands are negative.
pub open spec fn sum(format: Format, left: u64, right: u64) -> nat {
    match (unpacked(format, left), unpacked(format, right)) {
        (Unpacked::Nan, _) => format.nan() as nat,
        (_, Unpacked::Nan) => format.nan() as nat,
        (Unpacked::Infinite { negative: n1 }, Unpacked::Infinite { negative: n2 }) => {
            if n1 == n2 {
                signed_infinity(format, n1)
            } else {
                format.nan() as nat
            }
        },
        (Unpacked::Infinite { negative }, Unpacked::Finite { .. }) => {
            signed_infinity(format, negative)
        },
        (Unpacked::Finite { .. }, Unpacked::Infinite { negative }) => {
            signed_infinity(format, negative)
        },
        (
            Unpacked::Finite { negative: n1, mantissa: m1, exponent: e1 },
            Unpacked::Finite { negative: n2, mantissa: m2, exponent: e2 },
        ) => {
            let base = if e1 <= e2 {
                e1
            } else {
                e2
            };
            let total = with_sign(n1, m1 * pow2((e1 - base) as nat)) + with_sign(
                n2,
                m2 * pow2((e2 - base) as nat),
            );
            if total == 0 {
                if n1 && n2 {
                    format.sign_bit() as nat
                } else {
                    0
                }
            } else if total < 0 {
                rounded(format, true, (-total) as nat, base as int)
            } else {
                rounded(format, false, total as nat, base as int)
            }
        },
    }
}

/// What `quotient * unit + remainder` rounds to when divided by `unit`.
proof fn lemma_round_half_even(quotient: nat, remainder: nat, unit: nat)
    requires
        remainder < unit,
    ensures
        remainder < unit - remainder ==> round_half_even(quotient * unit + remainder, unit)
            == quotient,
        remainder > unit - remainder ==> round_half_even(quotient * unit + remainder, unit)
            == quotient + 1,
{
    let value = quotient * unit + remainder;
    lemma_fundamental_div_mod_converse(
        value as int,
        unit as int,
        quotient as int,
        remainder as int,
    );
}

/// An operand that lies more than a digit below the last digit of the
/// other leaves it unchanged: with `near` a normal mantissa at exponent
/// `exponent + gap` and `far` a mantissa at `exponent`, at least two more
/// places apart than the precision, both `near * 2^gap + far` and
/// `near * 2^gap - far` round to `near`.
pub proof fn lemma_far_operand_absorbed(
    format: Format,
    near: nat,
    far: nat,
    gap: nat,
    exponent: int,
)
    requires
        format.hidden_bit() <= near < 2 * format.hidden_bit(),
        far < 2 * format.hidden_bit(),
        gap >= format.precision() + 2,
        exponent >= format.min_exponent(),
    ensures
        rounded_magnitude(format, near * pow2(gap) + far, exponent) == rounded_magnitude(
            format,
            near,
            exponent + gap,
        ),
        near * pow2(gap) > far,
        rounded_magnitude(format, (near * pow2(gap) - far) as nat, exponent) == rounded_magnitude(
            format,
            near,
            exponent + gap,
        ),
{
    let precision = format.precision() as nat;
    let hidden = format.hidden_bit() as nat;
    let unit = pow2(gap);
    let half_unit = pow2((gap - 1) as nat);
    let top = exponent + gap;
    lemma_pow2_values();
    assert(pow2(precision) == 2 * hidden && pow2((precision - 1) as nat) == hidden);
    lemma_pow2_adds((gap - 1) as nat, 1);
    assert(unit == 2 * half_unit);
    lemma_pow2_increases(precision + 1, (gap - 1) as nat);
    lemma_pow2_adds(precision, 1);
    assert(4 * hidden <= half_unit);
    assert(near * unit >= unit) by (nonlinear_arith)
        requires
            near >= 1,
            unit >= 0,
    ;
    // The near operand by itself.
    lemma_bit_length_unique(near, precision);
    assert(target_exponent(format, near, top) == top);
    assert(near * pow2(0) == near) by (nonlinear_arith)
        requires
            pow2(0) == 1,
    ;
    assert(scaled_mantissa(near, top, top) == near);
    let kept = assembled(format, near, top);
    assert(rounded_magnitude(format, near, top) == kept);
    // Adding the far operand.
    let above = near * unit + far;
    lemma_bit_length_joined(near, far, gap);
    assert(target_exponent(format, above, exponent) == top);
    lemma_round_half_even(near, far, unit);
    assert(scaled_mantissa(above, exponent, top) == near);
    assert(rounded_magnitude(format, above, exponent) == kept);
    // Taking the far operand away.
    let below = (near * unit - far) as nat;
    if far == 0 {
        assert(below == above);
    } else if near > hidden {
        let less = (near - 1) as nat;
        assert(less * unit + (unit - far) == below) by (nonlinear_arith)
            requires
                less == near - 1,
                below == near * unit - far,
        ;
        lemma_bit_length_unique(less, precision);
        lemma_bit_length_joined(less, (unit - far) as nat, gap);
        assert(target_exponent(format, below, exponent) == top);
        lemma_round_half_even(less, (unit - far) as nat, unit);
        assert(scaled_mantissa(below, exponent, top) == near);
        assert(rounded_magnitude(format, below, exponent) == kept);
    } else {
        let full = (2 * hidden - 1) as nat;
        assert(full * half_unit + (half_unit - far) == below) by (nonlinear_arith)
            requires
                full == 2 * hidden - 1,
                below == near * unit - far,
                near == hidden,
                unit == 2 * half_unit,
        ;
        lemma_bit_length_unique(full, precision);
        lemma_bit_length_joined(full, (half_unit - far) as nat, (gap - 1) as nat);
        assert(bit_length(below) == precision + gap - 1);
        assert(target_exponent(format, below, exponent) == top - 1);
        lemma_round_half_even(full, (half_unit - far) as nat, half_unit);
        assert(scaled_mantissa(below, exponent, top - 1) == 2 * hidden);
        assert((top - 1 - format.min_exponent()) * hidden + 2 * hidden == (top
            - format.min_exponent()) * hidden + hidden) by (nonlinear_arith);
        assert(assembled(format, 2 * hidden, top - 1) == kept);
        assert(rounded_magnitude(format, below, exponent) == kept);
    }
}

/// Adds two finite numbers: `m1 * 2^e1` and `m2 * 2^e2`, each negated if
/// its flag says so, where the first has the higher exponent.
fn add_ordered(format: Format, n1: bool, m1: u64, e1: i64, n2: bool, m2: u64, e2: i64) -> (bits:
    u64)
    requires
        m1 < 2 * format.hidden_bit(),
        m2 < 2 * format.hidden_bit(),
        format.min_exponent() <= e2 <= e1 <= format.min_exponent() + 2046,
        e1 > format.min_exponent() ==> m1 >= format.hidden_bit(),
    ensures
        bits < 2 * format.sign_bit(),
        ({
            let total = with_sign(n1, m1 * pow2((e1 - e2) as nat)) + with_sign(n2, m2 as int);
            bits == if total == 0 {
                if n1 && n2 {
                    format.sign_bit() as nat
                } else {
                    0
                }
            } else if total < 0 {
                rounded(format, true, (-total) as nat, e2 as int)
            } else {
                rounded(format, false, total as nat, e2 as int)
            }
        }),
{
    let gap = e1 - e2;
    proof {
        lemma_pow2_values();
        lemma_pow2_pos(gap as nat);
    }
    if gap > format.precision() + 1 {
        proof {
            lemma_far_operand_absorbed(format, m1 as nat, m2 as nat, gap as nat, e2 as int);
            assert(m1 * pow2(gap as nat) >= pow2(gap as nat)) by (nonlinear_arith)
                requires
                    m1 >= 1,
            ;
            lemma_pow2_increases(format.precision() as nat, gap as nat);
        }
        return round(format, n1, m1 as u128, e1);
    }
    let unit = power_of_two(gap as u32);
    proof {
        lemma_pow2_increases(gap as nat, 54);
        assert(m1 * unit <= 0x20_0000_0000_0000 * 0x40_0000_0000_0000) by (nonlinear_arith)
            requires
                m1 <= 0x20_0000_0000_0000,
                unit <= 0x40_0000_0000_0000,
        ;
    }
    let first = m1 as u128 * unit;
    let second = m2 as u128;
    if n1 == n2 {
        let total = first + second;
        if total == 0 {
            if n1 {
                format.sign_bit()
            } else {
                0
            }
        } else {
            round(format, n1, total, e2)
        }
    } else if first == second {
        0
    } else if first > second {
        round(format, n1, first - second, e2)
    } else {
        round(format, n2, second - first, e2)
    }
}

/// Adds two patterns.
pub fn add(format: Format, left: u64, right: u64) -> (bits: u64)
    ensures
        bits == sum(format, left, right),
        bits < 2 * format.sign_bit(),
{
    let infinity = format.infinity();
    let sign_bit = format.sign_bit();
    match (unpack(format, left), unpack(format, right)) {
        (Unpacked::Nan, _) => format.nan(),
        (_, Unpacked::Nan) => format.nan(),
        (Unpacked::Infinite { negative: n1 }, Unpacked::Infinite { negative: n2 }) => {
            if n1 != n2 {
                format.nan()
            } else if n1 {
                infinity + sign_bit
            } else {
                infinity
            }
        },
        (Unpacked::Infinite { negative }, Unpacked::Finite { .. }) => {
            if negative {
                infinity + sign_bit
            } else {
                infinity
            }
        },
        (Unpacked::Finite { .. }, Unpacked::Infinite { negative }) => {
            if negative {
                infinity + sign_bit
            } else {
                infinity
            }
        },
        (
            Unpacked::Finite { negative: n1, mantissa: m1, exponent: e1 },
            Unpacked::Finite { negative: n2, mantissa: m2, exponent: e2 },
        ) => {
            proof {
                lemma_pow2_values();
            }
            if e1 >= e2 {
                assert(m2 * pow2(0) == m2) by (nonlinear_arith)
                    requires
                        pow2(0) == 1,
                ;
                add_ordered(format, n1, m1, e1, n2, m2, e2)
            } else {
                assert(m1 * pow2(0) == m1) by (nonlinear_arith)
                    requires
                        pow2(0) == 1,
                ;
                add_ordered(format, n2, m2, e2, n1, m1, e1)
            }
        },
    }
}

} // verus!
