//! Powers of two and bit lengths, for executable code and for the proofs
//! about it.

use vstd::arithmetic::div_mod::lemma_fundamental_div_mod;
use vstd::arithmetic::mul::{lemma_mul_inequality, lemma_mul_strict_inequality};
use vstd::arithmetic::power2::{
    lemma2_to64, lemma2_to64_rest, lemma_pow2_adds, lemma_pow2_pos,
    lemma_pow2_strictly_increases, lemma_pow2_unfold, pow2,
};
use vstd::prelude::*;

verus! {

/// The number of binary digits of `value`: 0 for 0, and otherwise the `n`
/// with `2^(n-1) <= value < 2^n`.
pub open spec fn bit_length(value: nat) -> nat
    decreases value,
{
    if value == 0 {
        0
    } else {
        1 + bit_length(value / 2)
    }
}

/// A positive number lies between the two powers of two that its bit
/// length names.
pub proof fn lemma_bit_length_bounds(value: nat)
    requires
        value > 0,
    ensures
        bit_length(value) >= 1,
        pow2((bit_length(value) - 1) as nat) <= value < pow2(bit_length(value)),
    decreases value,
{
    if value == 1 {
        reveal_with_fuel(bit_length, 2);
        lemma2_to64();
    } else {
        let half = value / 2;
        lemma_bit_length_bounds(half);
        lemma_pow2_unfold(bit_length(half));
        lemma_pow2_unfold(bit_length(value));
    }
}

/// Powers of two grow with the exponent.
pub proof fn lemma_pow2_increases(low: nat, high: nat)
    requires
        low <= high,
    ensures
        pow2(low) <= pow2(high),
{
    if low < high {
        lemma_pow2_strictly_increases(low, high);
    }
}

/// The bit length is the only `length` with
/// `2^(length-1) <= value < 2^length`.
pub proof fn lemma_bit_length_unique(value: nat, length: nat)
    requires
        length >= 1,
        pow2((length - 1) as nat) <= value < pow2(length),
    ensures
        bit_length(value) == length,
{
    lemma_pow2_pos((length - 1) as nat);
    lemma_bit_length_bounds(value);
    let actual = bit_length(value);
    if actual < length {
        lemma_pow2_increases(actual, (length - 1) as nat);
    } else if actual > length {
        lemma_pow2_increases(length, (actual - 1) as nat);
    }
}

/// A number below `2^length` has at most `length` binary digits.
pub proof fn lemma_bit_length_below(value: nat, length: nat)
    requires
        value < pow2(length),
    ensures
        bit_length(value) <= length,
{
    if value > 0 {
        lemma_bit_length_bounds(value);
        let actual = bit_length(value);
        if actual > length {
            lemma_pow2_increases(length, (actual - 1) as nat);
        }
    }
}

/// Multiplying by `2^shift` adds `shift` binary digits.
pub proof fn lemma_bit_length_shifted(value: nat, shift: nat)
    requires
        value > 0,
    ensures
        bit_length(value * pow2(shift)) == bit_length(value) + shift,
{
    lemma_bit_length_bounds(value);
    let length = bit_length(value);
    lemma_pow2_adds((length - 1) as nat, shift);
    lemma_pow2_adds(length, shift);
    lemma_pow2_pos(shift);
    lemma_mul_inequality(pow2((length - 1) as nat) as int, value as int, pow2(shift) as int);
    lemma_mul_strict_inequality(value as int, pow2(length) as int, pow2(shift) as int);
    lemma_bit_length_unique(value * pow2(shift), length + shift);
}

/// Digits appended below a number add to its bit length: `low`, below
/// `2^shift`, leaves `mantissa * 2^shift + low` with `shift` digits more
/// than `mantissa`.
pub proof fn lemma_bit_length_joined(mantissa: nat, low: nat, shift: nat)
    requires
        mantissa > 0,
        low < pow2(shift),
    ensures
        bit_length(mantissa * pow2(shift) + low) == bit_length(mantissa) + shift,
{
    let unit = pow2(shift);
    let length = bit_length(mantissa);
    lemma_bit_length_bounds(mantissa);
    lemma_pow2_adds((length - 1) as nat, shift);
    lemma_pow2_adds(length, shift);
    assert(pow2((length - 1) as nat) * unit <= mantissa * unit) by (nonlinear_arith)
        requires
            pow2((length - 1) as nat) <= mantissa,
            unit > 0,
    ;
    assert(mantissa * unit + unit <= pow2(length) * unit) by (nonlinear_arith)
        requires
            mantissa + 1 <= pow2(length),
            unit > 0,
    ;
    lemma_bit_length_unique(mantissa * unit + low, length + shift);
}

/// The powers of two that the two formats are built from, as numbers.
pub proof fn lemma_pow2_values()
    ensures
        pow2(0) == 1,
        pow2(1) == 2,
        pow2(23) == 0x80_0000,
        pow2(24) == 0x100_0000,
        pow2(31) == 0x8000_0000,
        pow2(32) == 0x1_0000_0000,
        pow2(52) == 0x10_0000_0000_0000,
        pow2(53) == 0x20_0000_0000_0000,
        pow2(54) == 0x40_0000_0000_0000,
        pow2(63) == 0x8000_0000_0000_0000,
        pow2(64) == 0x1_0000_0000_0000_0000,
        pow2(107) == 0x800_0000_0000_0000_0000_0000_0000,
        pow2(120) == 0x100_0000_0000_0000_0000_0000_0000_0000,
        pow2(127) == 0x8000_0000_0000_0000_0000_0000_0000_0000,
{
    lemma2_to64();
    lemma2_to64_rest();
    lemma_pow2_adds(60, 60);
    lemma_pow2_adds(60, 47);
    lemma_pow2_adds(64, 63);
}

/// Shifting one to the left by `exponent` places gives `2^exponent`.
proof fn lemma_shifted_one(exponent: u32)
    requires
        exponent <= 127,
    ensures
        1u128 << exponent == pow2(exponent as nat),
    decreases exponent,
{
    if exponent == 0 {
        assert(1u128 << 0u32 == 1) by (bit_vector);
        lemma_pow2_values();
    } else {
        let before = (exponent - 1) as u32;
        lemma_shifted_one(before);
        assert(1u128 << exponent == 2 * (1u128 << before)) by (bit_vector)
            requires
                0 < exponent <= 127,
                before == exponent - 1,
        ;
        lemma_pow2_unfold(exponent as nat);
    }
}

/// `value / 2^shift`, by a shift to the right.
pub(crate) fn shift_right(value: u128, shift: u32) -> (quotient: u128)
    requires
        shift <= 127,
    ensures
        quotient == value as nat / pow2(shift as nat),
{
    proof {
        vstd::bits::lemma_u128_shr_is_div(value, shift as u128);
    }
    value >> shift
}

/// `2^exponent` as a machine number.
pub(crate) fn power_of_two(exponent: u32) -> (power: u128)
    requires
        exponent <= 127,
    ensures
        power == pow2(exponent as nat),
        power >= 1,
{
    proof {
        lemma_shifted_one(exponent);
        lemma_pow2_pos(exponent as nat);
    }
    1u128 << exponent
}

/// The number of binary digits of `value`.
pub fn count_bits(value: u128) -> (length: u32)
    ensures
        length == bit_length(value as nat),
        length <= 128,
{
    let mut rest = value;
    let mut length: u32 = 0;
    let mut step: u32 = 64;
    proof {
        lemma_pow2_values();
        lemma_pow2_adds(64, 64);
    }
    while step > 0
        invariant
            step == 64 || step == 32 || step == 16 || step == 8 || step == 4 || step == 2 || step
                == 1 || step == 0,
            bit_length(value as nat) == length + bit_length(rest as nat),
            length + 2 * step <= 128,
            step > 0 ==> rest < pow2((2 * step) as nat),
            step == 0 ==> rest < 2 && length <= 127,
        decreases step,
    {
        let unit = power_of_two(step);
        proof {
            lemma_pow2_adds(step as nat, step as nat);
            lemma_pow2_values();
        }
        if rest >= unit {
            proof {
                let high = (rest / unit) as nat;
                let low = (rest % unit) as nat;
                lemma_fundamental_div_mod(rest as int, unit as int);
                assert(high >= 1) by (nonlinear_arith)
                    requires
                        high == rest / unit,
                        rest >= unit,
                        unit > 0,
                ;
                assert(high < unit) by (nonlinear_arith)
                    requires
                        high == rest / unit,
                        rest < unit * unit,
                        unit > 0,
                ;
                assert(high * unit == unit * high) by (nonlinear_arith);
                lemma_bit_length_joined(high, low, step as nat);
            }
            rest = shift_right(rest, step);
            length = length + step;
        }
        step = step / 2;
    }
    proof {
        reveal_with_fuel(bit_length, 2);
    }
    if rest > 0 {
        length = length + 1;
    }
    length
}

} // verus!
