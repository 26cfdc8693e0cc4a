//! The two binary interchange formats, what a bit pattern of each stands
//! for, and rounding to nearest with ties to even.

use vstd::arithmetic::div_mod::{lemma_fundamental_div_mod, lemma_small_mod};
use vstd::arithmetic::mul::lemma_mul_strict_inequality;
use vstd::arithmetic::power2::{lemma_pow2_adds, pow2};
use vstd::prelude::*;

use crate::float::power::{
    bit_length, count_bits, lemma_bit_length_bounds, lemma_pow2_increases, lemma_pow2_values,
    power_of_two, shift_right,
};

verus! {

/// A binary floating-point format. Bit patterns of both are carried in a
/// `u64`; a `Single` pattern occupies the low 32 bits.
#[derive(Clone, Copy, Debug, PartialEq, Eq, Structural)]
pub enum Format {
    /// binary32: 1 sign bit, 8 exponent bits, 23 fraction bits.
    Single,
    /// binary64: 1 sign bit, 11 exponent bits, 52 fraction bits.
    Double,
}

impl Format {
    /// The number of significant binary digits, the implicit leading one
    /// included.
    pub open spec fn spec_precision(self) -> i64 {
        match self {
            Format::Single => 24,
            Format::Double => 53,
        }
    }

    /// The number of significant binary digits, the implicit leading one
    /// included.
    #[verifier::when_used_as_spec(spec_precision)]
    pub fn precision(self) -> (digits: i64)
        ensures
            digits == self.spec_precision(),
    {
        match self {
            Format::Single => 24,
            Format::Double => 53,
        }
    }

    /// The weight of the implicit leading one, in units of the last
    /// fraction bit: two to the number of fraction bits.
    pub open spec fn spec_hidden_bit(self) -> u64 {
        match self {
            Format::Single => 0x80_0000,
            Format::Double => 0x10_0000_0000_0000,
        }
    }

    /// The weight of the implicit leading one, in units of the last
    /// fraction bit: two to the number of fraction bits.
    #[verifier::when_used_as_spec(spec_hidden_bit)]
    pub fn hidden_bit(self) -> (bit: u64)
        ensures
            bit == self.spec_hidden_bit(),
    {
        match self {
            Format::Single => 0x80_0000,
            Format::Double => 0x10_0000_0000_0000,
        }
    }

    /// The sign bit of a pattern.
    pub open spec fn spec_sign_bit(self) -> u64 {
        match self {
            Format::Single => 0x8000_0000,
            Format::Double => 0x8000_0000_0000_0000,
        }
    }

    /// The sign bit of a pattern.
    #[verifier::when_used_as_spec(spec_sign_bit)]
    pub fn sign_bit(self) -> (bit: u64)
        ensures
            bit == self.spec_sign_bit(),
    {
        match self {
            Format::Single => 0x8000_0000,
            Format::Double => 0x8000_0000_0000_0000,
        }
    }

    /// The pattern of positive infinity: every exponent bit set, no
    /// fraction bit. Patterns whose magnitude is above it are NaNs.
    pub open spec fn spec_infinity(self) -> u64 {
        match self {
            Format::Single => 0x7f80_0000,
            Format::Double => 0x7ff0_0000_0000_0000,
        }
    }

    /// The pattern of positive infinity: every exponent bit set, no
    /// fraction bit. Patterns whose magnitude is above it are NaNs.
    #[verifier::when_used_as_spec(spec_infinity)]
    pub fn infinity(self) -> (pattern: u64)
        ensures
            pattern == self.spec_infinity(),
    {
        match self {
            Format::Single => 0x7f80_0000,
            Format::Double => 0x7ff0_0000_0000_0000,
        }
    }

    /// The NaN that every operation here returns where the result is not a
    /// number: positive, quiet, with no payload.
    pub open spec fn spec_nan(self) -> u64 {
        match self {
            Format::Single => 0x7fc0_0000,
            Format::Double => 0x7ff8_0000_0000_0000,
        }
    }

    /// The NaN that every operation here returns where the result is not a
    /// number: positive, quiet, with no payload.
    #[verifier::when_used_as_spec(spec_nan)]
    pub fn nan(self) -> (pattern: u64)
        ensures
            pattern == self.spec_nan(),
    {
        match self {
            Format::Single => 0x7fc0_0000,
            Format::Double => 0x7ff8_0000_0000_0000,
        }
    }

    /// The exponent of the last fraction bit of the subnormal numbers and
    /// of the smallest normal ones. No finite number has a bit below it.
    pub open spec fn spec_min_exponent(self) -> i64 {
        match self {
            Format::Single => -149i64,
            Format::Double => -1074i64,
        }
    }

    /// The exponent of the last fraction bit of the subnormal numbers and
    /// of the smallest normal ones. No finite number has a bit below it.
    #[verifier::when_used_as_spec(spec_min_exponent)]
    pub fn min_exponent(self) -> (exponent: i64)
        ensures
            exponent == self.spec_min_exponent(),
    {
        match self {
            Format::Single => -149,
            Format::Double => -1074,
        }
    }
}

/// What a bit pattern stands for.
#[derive(Clone, Copy, Debug, PartialEq, Eq, Structural)]
pub enum Unpacked {
    /// Not a number.
    Nan,
    /// Positive or negative infinity.
    Infinite { negative: bool },
    /// The number `mantissa * 2^exponent`, negated if `negative`. A zero
    /// has mantissa 0 and keeps its sign.
    Finite { negative: bool, mantissa: u64, exponent: i64 },
}

/// What the pattern `bits` of the format `format` stands for.
pub open spec fn unpacked(format: Format, bits: u64) -> Unpacked {
    let negative = (bits / format.sign_bit()) % 2 == 1;
    let magnitude = bits % format.sign_bit();
    let field = magnitude / format.hidden_bit();
    let fraction = magnitude % format.hidden_bit();
    if magnitude > format.infinity() {
        Unpacked::Nan
    } else if magnitude == format.infinity() {
        Unpacked::Infinite { negative }
    } else if field == 0 {
        Unpacked::Finite { negative, mantissa: fraction, exponent: format.min_exponent() }
    } else {
        Unpacked::Finite {
            negative,
            mantissa: (format.hidden_bit() + fraction) as u64,
            exponent: (format.min_exponent() + field - 1) as i64,
        }
    }
}

/// Takes a bit pattern apart.
pub fn unpack(format: Format, bits: u64) -> (number: Unpacked)
    ensures
        number == unpacked(format, bits),
        number matches Unpacked::Finite { mantissa, exponent, .. } ==> {
            &&& mantissa < 2 * format.hidden_bit()
            &&& format.min_exponent() <= exponent <= format.min_exponent() + 2046
            &&& exponent > format.min_exponent() ==> mantissa >= format.hidden_bit()
        },
{
    let negative = (bits / format.sign_bit()) % 2 == 1;
    let magnitude = bits % format.sign_bit();
    let field = magnitude / format.hidden_bit();
    let fraction = magnitude % format.hidden_bit();
    if magnitude > format.infinity() {
        Unpacked::Nan
    } else if magnitude == format.infinity() {
        Unpacked::Infinite { negative }
    } else if field == 0 {
        Unpacked::Finite { negative, mantissa: fraction, exponent: format.min_exponent() }
    } else {
        Unpacked::Finite {
            negative,
            mantissa: format.hidden_bit() + fraction,
            exponent: format.min_exponent() + field as i64 - 1,
        }
    }
}

/// `value / divisor`, rounded to the nearest integer; a tie goes to the
/// even one.
pub open spec fn round_half_even(value: nat, divisor: nat) -> nat {
    let quotient = value / divisor;
    let remainder = value % divisor;
    if remainder > divisor - remainder || (remainder == divisor - remainder && quotient % 2 == 1) {
        quotient + 1
    } else {
        quotient
    }
}

/// The exponent to which `mantissa * 2^exponent` is brought before its
/// digits are cut: the one at which it has `precision()` digits, or
/// `min_exponent()` if that is higher.
pub open spec fn target_exponent(format: Format, mantissa: nat, exponent: int) -> int {
    let natural = exponent + bit_length(mantissa) - format.precision();
    if natural < format.min_exponent() {
        format.min_exponent() as int
    } else {
        natural
    }
}

/// The mantissa of `mantissa * 2^exponent` at the exponent `target`. Digits
/// that fall below `target` are rounded away, a tie going to the even
/// mantissa.
pub open spec fn scaled_mantissa(mantissa: nat, exponent: int, target: int) -> nat {
    if target <= exponent {
        mantissa * pow2((exponent - target) as nat)
    } else {
        round_half_even(mantissa, pow2((target - exponent) as nat))
    }
}

/// The magnitude of the pattern of `mantissa * 2^target`. Exponent and
/// mantissa are added up into one pattern, so that a mantissa that
/// rounding carried to the next power of two lands on the next exponent.
/// What reaches the pattern of infinity is infinity.
pub open spec fn assembled(format: Format, mantissa: nat, target: int) -> nat {
    let pattern = (target - format.min_exponent()) * format.hidden_bit() + mantissa;
    if pattern >= format.infinity() {
        format.infinity() as nat
    } else {
        pattern as nat
    }
}

/// The magnitude of the pattern nearest to `mantissa * 2^exponent`.
pub open spec fn rounded_magnitude(format: Format, mantissa: nat, exponent: int) -> nat {
    if mantissa == 0 {
        0
    } else {
        let target = target_exponent(format, mantissa, exponent);
        assembled(format, scaled_mantissa(mantissa, exponent, target), target)
    }
}

/// The pattern nearest to `mantissa * 2^exponent`, negated if `negative`:
/// round to nearest, ties to even, overflow to infinity. A zero keeps the
/// sign it is given.
pub open spec fn rounded(format: Format, negative: bool, mantissa: nat, exponent: int) -> nat {
    rounded_magnitude(format, mantissa, exponent) + if negative {
        format.sign_bit() as nat
    } else {
        0
    }
}

/// Rounds `mantissa * 2^exponent`, negated if `negative`, to the nearest
/// pattern of `format`.
pub fn round(format: Format, negative: bool, mantissa: u128, exponent: i64) -> (bits: u64)
    ensures
        bits == rounded(format, negative, mantissa as nat, exponent as int),
        bits < 2 * format.sign_bit(),
{
    let sign = if negative {
        format.sign_bit()
    } else {
        0
    };
    if mantissa == 0 {
        return sign;
    }
    let length = count_bits(mantissa) as i128;
    proof {
        lemma_bit_length_bounds(mantissa as nat);
        lemma_pow2_values();
        lemma_pow2_adds(127, 1);
        lemma_pow2_increases(length as nat, 128);
    }
    let natural = exponent as i128 + length - format.precision() as i128;
    let lowest = format.min_exponent() as i128;
    let target = if natural < lowest {
        lowest
    } else {
        natural
    };
    let steps = target - lowest;
    let ghost scaled_spec = scaled_mantissa(mantissa as nat, exponent as int, target as int);
    if steps >= 2047 {
        assert(steps * format.hidden_bit() + scaled_spec >= format.infinity()) by (nonlinear_arith)
            requires
                steps >= 2047,
                format.infinity() <= 2047 * format.hidden_bit(),
                scaled_spec >= 0,
        ;
        return sign + format.infinity();
    }
    let scaled: u128 = if target <= exponent as i128 {
        let shift = (exponent as i128 - target) as u32;
        let factor = power_of_two(shift);
        proof {
            lemma_pow2_adds(length as nat, shift as nat);
            lemma_pow2_increases((length + shift) as nat, format.precision() as nat);
            lemma_mul_strict_inequality(
                mantissa as int,
                pow2(length as nat) as int,
                factor as int,
            );
        }
        mantissa * factor
    } else {
        let shift = target - exponent as i128;
        if shift > length {
            proof {
                let divisor = pow2(shift as nat);
                lemma_pow2_adds((shift - 1) as nat, 1);
                lemma_pow2_increases(length as nat, (shift - 1) as nat);
                assert(mantissa < divisor - mantissa);
                lemma_small_mod(mantissa as nat, divisor);
                assert(mantissa as nat / divisor == 0) by (nonlinear_arith)
                    requires
                        0 <= mantissa < divisor,
                ;
            }
            0
        } else if shift == 128 {
            proof {
                let divisor = pow2(128);
                lemma_small_mod(mantissa as nat, divisor);
                assert(mantissa as nat / divisor == 0) by (nonlinear_arith)
                    requires
                        0 <= mantissa < divisor,
                ;
            }
            if mantissa > 0x8000_0000_0000_0000_0000_0000_0000_0000 {
                1
            } else {
                0
            }
        } else {
            let divisor = power_of_two(shift as u32);
            let quotient = shift_right(mantissa, shift as u32);
            proof {
                lemma_fundamental_div_mod(mantissa as int, divisor as int);
                assert(quotient * divisor == divisor * quotient) by (nonlinear_arith);
                assert(0 <= mantissa as nat % (divisor as nat));
            }
            let remainder = mantissa - quotient * divisor;
            proof {
                lemma_pow2_adds((length - shift) as nat, shift as nat);
                lemma_pow2_increases((length - shift) as nat, format.precision() as nat);
                assert(quotient < pow2((length - shift) as nat)) by (nonlinear_arith)
                    requires
                        quotient == mantissa / divisor,
                        divisor > 0,
                        mantissa < pow2((length - shift) as nat) * divisor,
                ;
            }
            if remainder > divisor - remainder || (remainder == divisor - remainder && quotient % 2
                == 1) {
                quotient + 1
            } else {
                quotient
            }
        }
    };
    assert(scaled == scaled_spec);
    assert(scaled <= 2 * format.hidden_bit());
    assert(steps * format.hidden_bit() <= 2046 * format.hidden_bit()) by (nonlinear_arith)
        requires
            0 <= steps <= 2046,
    ;
    let pattern = steps as u64 * format.hidden_bit() + scaled as u64;
    if pattern >= format.infinity() {
        sign + format.infinity()
    } else {
        sign + pattern
    }
}

} // verus!
