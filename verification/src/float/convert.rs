//! Conversions between integers and bit patterns, and between the two
//! formats, with the meaning that Rust gives to `as`.

use vstd::arithmetic::power2::{lemma_pow2_adds, pow2};
use vstd::prelude::*;

use crate::float::arith::{signed_infinity, with_sign};
use crate::float::format::{round, rounded, unpack, unpacked, Format, Unpacked};
use crate::float::power::{lemma_pow2_increases, lemma_pow2_values, power_of_two, shift_right};

verus! {

/// The pattern nearest to the integer `value`.
pub open spec fn of_integer(format: Format, value: int) -> nat {
    if value < 0 {
        rounded(format, true, (-value) as nat, 0)
    } else {
        rounded(format, false, value as nat, 0)
    }
}

/// Converts an integer to the nearest pattern: ties go to the even
/// mantissa.
pub fn from_integer(format: Format, value: i128) -> (bits: u64)
    ensures
        bits == of_integer(format, value as int),
        bits < 2 * format.sign_bit(),
{
    if value == i128::MIN {
        round(format, true, 0x8000_0000_0000_0000_0000_0000_0000_0000, 0)
    } else if value < 0 {
        round(format, true, (-value) as u128, 0)
    } else {
        round(format, false, value as u128, 0)
    }
}

/// `value`, moved to the nearer end of `low..=high` if it lies outside.
pub open spec fn clamped(value: int, low: int, high: int) -> int {
    if value < low {
        low
    } else if value > high {
        high
    } else {
        value
    }
}

/// The integer in `low..=high` that the pattern `bits` converts to: the
/// number with its fraction cut off, moved into the range if it lies
/// outside. Infinity goes to the end of the range on its side, and NaN to
/// zero.
pub open spec fn integer_part(format: Format, bits: u64, low: int, high: int) -> int {
    match unpacked(format, bits) {
        Unpacked::Nan => 0,
        Unpacked::Infinite { negative } => if negative {
            low
        } else {
            high
        },
        Unpacked::Finite { negative, mantissa, exponent } => {
            let whole: nat = if exponent >= 0 {
                mantissa as nat * pow2(exponent as nat)
            } else {
                mantissa as nat / pow2((-exponent) as nat)
            };
            clamped(with_sign(negative, whole as int), low, high)
        },
    }
}

/// Converts a pattern to an integer of the range `low..=high`: toward
/// zero, saturating, NaN to zero.
pub fn to_integer(format: Format, bits: u64, low: i128, high: i128) -> (value: i128)
    ensures
        value == integer_part(format, bits, low as int, high as int),
        low <= 0 <= high ==> low <= value <= high,
{
    match unpack(format, bits) {
        Unpacked::Nan => 0,
        Unpacked::Infinite { negative } => if negative {
            low
        } else {
            high
        },
        Unpacked::Finite { negative, mantissa, exponent } => {
            proof {
                lemma_pow2_values();
            }
            let whole: u128 = if exponent > 127 - format.precision() {
                proof {
                    let least = (128 - format.precision()) as nat;
                    lemma_pow2_increases(least, exponent as nat);
                    lemma_pow2_adds((format.precision() - 1) as nat, least);
                    assert(mantissa * pow2(exponent as nat) >= format.hidden_bit() * pow2(least))
                        by (nonlinear_arith)
                        requires
                            mantissa >= format.hidden_bit(),
                            pow2(exponent as nat) >= pow2(least),
                    ;
                }
                return if negative {
                    low
                } else {
                    high
                };
            } else if exponent >= 0 {
                let unit = power_of_two(exponent as u32);
                proof {
                    let most = (127 - format.precision()) as nat;
                    lemma_pow2_increases(exponent as nat, most);
                    lemma_pow2_adds(format.precision() as nat, most);
                    assert(mantissa * unit < 2 * format.hidden_bit() * pow2(most))
                        by (nonlinear_arith)
                        requires
                            mantissa < 2 * format.hidden_bit(),
                            0 < unit <= pow2(most),
                    ;
                }
                mantissa as u128 * unit
            } else if exponent < -63 {
                proof {
                    lemma_pow2_increases(64, (-exponent) as nat);
                    assert(mantissa as nat / pow2((-exponent) as nat) == 0) by (nonlinear_arith)
                        requires
                            mantissa < pow2((-exponent) as nat),
                    ;
                }
                0
            } else {
                let whole = shift_right(mantissa as u128, (-exponent) as u32);
                proof {
                    vstd::arithmetic::power2::lemma_pow2_pos((-exponent) as nat);
                    assert(whole <= mantissa) by (nonlinear_arith)
                        requires
                            whole == mantissa as nat / pow2((-exponent) as nat),
                            pow2((-exponent) as nat) > 0,
                    ;
                }
                whole
            };
            let signed: i128 = if negative {
                -(whole as i128)
            } else {
                whole as i128
            };
            if signed < low {
                low
            } else if signed > high {
                high
            } else {
                signed
            }
        },
    }
}

/// The pattern of the format `to` nearest to what the pattern `bits` of the
/// format `from` stands for. Infinity stays infinity, and every NaN turns
/// into the one NaN of `to`.
pub open spec fn converted(from: Format, to: Format, bits: u64) -> nat {
    match unpacked(from, bits) {
        Unpacked::Nan => to.nan() as nat,
        Unpacked::Infinite { negative } => signed_infinity(to, negative),
        Unpacked::Finite { negative, mantissa, exponent } => rounded(
            to,
            negative,
            mantissa as nat,
            exponent as int,
        ),
    }
}

/// Converts a pattern from one format to the other.
pub fn convert(from: Format, to: Format, bits: u64) -> (result: u64)
    ensures
        result == converted(from, to, bits),
        result < 2 * to.sign_bit(),
{
    match unpack(from, bits) {
        Unpacked::Nan => to.nan(),
        Unpacked::Infinite { negative } => if negative {
            to.infinity() + to.sign_bit()
        } else {
            to.infinity()
        },
        Unpacked::Finite { negative, mantissa, exponent } => round(
            to,
            negative,
            mantissa as u128,
            exponent,
        ),
    }
}

} // verus!
