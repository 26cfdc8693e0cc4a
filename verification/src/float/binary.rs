//! The two floating-point types of the library: a value is its bit pattern.

use vstd::prelude::*;

use crate::float::arith::{multiply, product, sum};
use crate::float::convert::{convert, converted};
use crate::float::format::Format;

verus! {

/// An IEEE-754 binary32 number, held as its bit pattern. Two values are
/// equal when their patterns are: the two zeros differ, and a NaN equals
/// itself.
#[derive(Clone, Copy, Debug, PartialEq, Eq, Structural)]
pub struct Binary32 {
    pub bits: u32,
}

/// An IEEE-754 binary64 number, held as its bit pattern. Two values are
/// equal when their patterns are: the two zeros differ, and a NaN equals
/// itself.
#[derive(Clone, Copy, Debug, PartialEq, Eq, Structural)]
pub struct Binary64 {
    pub bits: u64,
}

impl Binary32 {
    /// The number with the given bit pattern.
    pub fn from_bits(bits: u32) -> (number: Self)
        ensures
            number.bits == bits,
    {
        Binary32 { bits }
    }

    /// The bit pattern of this number.
    pub fn to_bits(self) -> (bits: u32)
        ensures
            bits == self.bits,
    {
        self.bits
    }

    /// Whether this number equals zero: it is positive or negative zero.
    pub open spec fn spec_is_zero(self) -> bool {
        self.bits == 0 || self.bits == 0x8000_0000
    }

    /// Whether this number equals zero: it is positive or negative zero.
    #[verifier::when_used_as_spec(spec_is_zero)]
    pub fn is_zero(self) -> (zero: bool)
        ensures
            zero == self.spec_is_zero(),
    {
        self.bits == 0 || self.bits == 0x8000_0000
    }

    /// The correctly rounded product of two numbers.
    pub open spec fn times(self, other: Self) -> Self {
        Binary32 { bits: product(Format::Single, self.bits as u64, other.bits as u64) as u32 }
    }

    /// The correctly rounded sum of two numbers.
    pub open spec fn plus(self, other: Self) -> Self {
        Binary32 { bits: sum(Format::Single, self.bits as u64, other.bits as u64) as u32 }
    }

    /// The same number in binary64, which holds every binary32 number. A
    /// NaN becomes the one NaN that the operations here return.
    pub open spec fn widened(self) -> Binary64 {
        Binary64 { bits: converted(Format::Single, Format::Double, self.bits as u64) as u64 }
    }

    /// Multiplies two numbers.
    pub fn mul(self, other: Self) -> (result: Self)
        ensures
            result == self.times(other),
    {
        Binary32 { bits: multiply(Format::Single, self.bits as u64, other.bits as u64) as u32 }
    }

    /// Adds two numbers.
    pub fn add(self, other: Self) -> (result: Self)
        ensures
            result == self.plus(other),
    {
        Binary32 { bits: crate::float::arith::add(Format::Single, self.bits as u64, other.bits as u64) as u32 }
    }

    /// Converts to binary64.
    pub fn widen(self) -> (result: Binary64)
        ensures
            result == self.widened(),
    {
        Binary64 { bits: convert(Format::Single, Format::Double, self.bits as u64) }
    }
}

impl Binary64 {
    /// The number with the given bit pattern.
    pub fn from_bits(bits: u64) -> (number: Self)
        ensures
            number.bits == bits,
    {
        Binary64 { bits }
    }

    /// The bit pattern of this number.
    pub fn to_bits(self) -> (bits: u64)
        ensures
            bits == self.bits,
    {
        self.bits
    }

    /// The correctly rounded product of two numbers.
    pub open spec fn times(self, other: Self) -> Self {
        Binary64 { bits: product(Format::Double, self.bits, other.bits) as u64 }
    }

    /// The correctly rounded sum of two numbers.
    pub open spec fn plus(self, other: Self) -> Self {
        Binary64 { bits: sum(Format::Double, self.bits, other.bits) as u64 }
    }

    /// The binary32 number nearest to this one.
    pub open spec fn narrowed(self) -> Binary32 {
        Binary32 { bits: converted(Format::Double, Format::Single, self.bits) as u32 }
    }

    /// Multiplies two numbers.
    pub fn mul(self, other: Self) -> (result: Self)
        ensures
            result == self.times(other),
    {
        Binary64 { bits: multiply(Format::Double, self.bits, other.bits) }
    }

    /// Adds two numbers.
    pub fn add(self, other: Self) -> (result: Self)
        ensures
            result == self.plus(other),
    {
        Binary64 { bits: crate::float::arith::add(Format::Double, self.bits, other.bits) }
    }

    /// Converts to the nearest binary32 number.
    pub fn narrow(self) -> (result: Binary32)
        ensures
            result == self.narrowed(),
    {
        Binary32 { bits: convert(Format::Double, Format::Single, self.bits) as u32 }
    }
}

} // verus!
