//! Affine rescaling of samples: `value * slope + intercept`, computed in a
//! working precision that suits the sample type. A slope of zero means
//! that the samples are not rescaled at all.

use vstd::prelude::*;

use crate::float::arith::{multiply, product, sum};
use crate::float::convert::{from_integer, integer_part, of_integer, to_integer};
use crate::float::laws::{lemma_unit_rescaling_is_exact, lemma_widening_one_and_zero};
use crate::float::{Binary32, Binary64, Format};
use crate::integer::Integer;

verus! {

/// A way of applying `value * slope + intercept` to values of type `T`.
pub trait LinearTransform<T: Copy> {
    /// What `value` is transformed to.
    spec fn transformed(value: T, slope: Binary32, intercept: Binary32) -> T;

    /// A slope of zero leaves every value as it is, whatever the
    /// intercept.
    proof fn lemma_zero_slope(value: T, slope: Binary32, intercept: Binary32)
        requires
            slope.is_zero(),
        ensures
            Self::transformed(value, slope, intercept) == value,
    ;

    /// Linearly transforms a value with the given slope and intercept.
    fn linear_transform(value: T, slope: Binary32, intercept: Binary32) -> (result: T)
        ensures
            result == Self::transformed(value, slope, intercept),
            slope.is_zero() ==> result == value,
    ;

    /// Linearly transforms a sequence of values with the given slope and
    /// intercept into a new vector. Each value is transformed by itself,
    /// in order.
    fn linear_transform_many(value: &[T], slope: Binary32, intercept: Binary32) -> (result: Vec<T>)
        ensures
            result@.len() == value@.len(),
            forall|i: int|
                0 <= i < value@.len() ==> (#[trigger] result@[i]) == Self::transformed(
                    value@[i],
                    slope,
                    intercept,
                ),
            slope.is_zero() ==> result@ == value@,
    {
        let mut result: Vec<T> = Vec::with_capacity(value.len());
        let mut index: usize = 0;
        while index < value.len()
            invariant
                index <= value@.len(),
                result@.len() == index,
                forall|i: int|
                    0 <= i < index ==> (#[trigger] result@[i]) == Self::transformed(
                        value@[i],
                        slope,
                        intercept,
                    ),
            decreases value@.len() - index,
        {
            result.push(Self::linear_transform(value[index], slope, intercept));
            index = index + 1;
        }
        proof {
            if slope.is_zero() {
                assert forall|i: int| 0 <= i < value@.len() implies result@[i] == value@[i] by {
                    Self::lemma_zero_slope(value@[i], slope, intercept);
                }
                assert(result@ =~= value@);
            }
        }
        result
    }

    /// Linearly transforms a sequence of values in place, with the given
    /// slope and intercept. Each value is transformed by itself.
    fn linear_transform_many_inline(value: &mut [T], slope: Binary32, intercept: Binary32)
        ensures
            final(value)@.len() == old(value)@.len(),
            forall|i: int|
                0 <= i < old(value)@.len() ==> (#[trigger] final(value)@[i]) == Self::transformed(
                    old(value)@[i],
                    slope,
                    intercept,
                ),
            slope.is_zero() ==> final(value)@ == old(value)@,
    {
        let mut index: usize = 0;
        while index < value.len()
            invariant
                index <= value@.len(),
                value@.len() == old(value)@.len(),
                forall|i: int|
                    0 <= i < index ==> (#[trigger] value@[i]) == Self::transformed(
                        old(value)@[i],
                        slope,
                        intercept,
                    ),
                forall|i: int| index <= i < value@.len() ==> (#[trigger] value@[i]) == old(value)@[i],
            decreases value@.len() - index,
        {
            let changed = Self::linear_transform(value[index], slope, intercept);
            value[index] = changed;
            index = index + 1;
        }
        proof {
            if slope.is_zero() {
                assert forall|i: int| 0 <= i < value@.len() implies value@[i] == old(value)@[i] by {
                    Self::lemma_zero_slope(old(value)@[i], slope, intercept);
                }
                assert(value@ =~= old(value)@);
            }
        }
    }
}

/// Every value of `values`, transformed by itself, in order.
pub open spec fn transformed_sequence<T: Copy, S: LinearTransform<T>>(
    values: Seq<T>,
    slope: Binary32,
    intercept: Binary32,
) -> Seq<T> {
    Seq::new(values.len(), |i: int| S::transformed(values[i], slope, intercept))
}

/// The two bulk operations agree: what `linear_transform_many` puts into a
/// new vector and what `linear_transform_many_inline` leaves in place are
/// both the sequence of the values transformed one by one.
pub proof fn lemma_bulk_operations_agree<T: Copy, S: LinearTransform<T>>(
    values: Seq<T>,
    copied: Seq<T>,
    in_place: Seq<T>,
    slope: Binary32,
    intercept: Binary32,
)
    requires
        copied.len() == values.len(),
        forall|i: int|
            0 <= i < values.len() ==> (#[trigger] copied[i]) == S::transformed(
                values[i],
                slope,
                intercept,
            ),
        in_place.len() == values.len(),
        forall|i: int|
            0 <= i < values.len() ==> (#[trigger] in_place[i]) == S::transformed(
                values[i],
                slope,
                intercept,
            ),
    ensures
        copied == transformed_sequence::<T, S>(values, slope, intercept),
        in_place == copied,
{
    assert(copied =~= transformed_sequence::<T, S>(values, slope, intercept));
    assert(in_place =~= copied);
}

/// What the integer `value` is rescaled to in the working precision
/// `format`: the value is converted to the format, multiplied by `slope`,
/// `intercept` is added, each step rounded to nearest, and the result is
/// converted back toward zero into the range `low..=high`. A result beyond
/// the range becomes the nearer end of it, and one that is not a number
/// becomes zero.
pub open spec fn rescaled(
    format: Format,
    value: int,
    slope: u64,
    intercept: u64,
    low: int,
    high: int,
) -> int {
    let working = of_integer(format, value) as u64;
    let scaled = product(format, working, slope) as u64;
    let shifted = sum(format, scaled, intercept) as u64;
    integer_part(format, shifted, low, high)
}

/// Rescales the integer `value` in the working precision `format`.
fn rescale<T: Integer>(format: Format, value: T, slope: u64, intercept: u64) -> (result: T)
    ensures
        result == T::of(
            rescaled(format, value.value(), slope, intercept, T::lowest(), T::highest()),
        ),
{
    proof {
        T::lemma_range();
    }
    let working = from_integer(format, value.widen());
    let scaled = multiply(format, working, slope);
    let shifted = crate::float::arith::add(format, scaled, intercept);
    T::saturate(to_integer(format, shifted, i128::MIN, i128::MAX))
}

/// A linear transformation in which the value is converted to binary32 for
/// the affine transformation, then converted back to its own type.
/// Ideal for small, low precision types such as `u8` and `i16`.
#[derive(Debug)]
pub struct LinearTransformViaF32;

impl<T: Integer> LinearTransform<T> for LinearTransformViaF32 {
    open spec fn transformed(value: T, slope: Binary32, intercept: Binary32) -> T {
        if slope.is_zero() {
            value
        } else {
            T::of(
                rescaled(
                    Format::Single,
                    value.value(),
                    slope.bits as u64,
                    intercept.bits as u64,
                    T::lowest(),
                    T::highest(),
                ),
            )
        }
    }

    proof fn lemma_zero_slope(value: T, slope: Binary32, intercept: Binary32) {
    }

    fn linear_transform(value: T, slope: Binary32, intercept: Binary32) -> (result: T) {
        if slope.is_zero() {
            return value;
        }
        rescale(Format::Single, value, slope.bits as u64, intercept.bits as u64)
    }
}

/// A linear transformation in which the value and parameters are converted
/// to binary64 for the affine transformation, then converted back to the
/// value's own type. Ideal for wide integer types such as `i64`.
#[derive(Debug)]
pub struct LinearTransformViaF64;

impl<T: Integer> LinearTransform<T> for LinearTransformViaF64 {
    open spec fn transformed(value: T, slope: Binary32, intercept: Binary32) -> T {
        if slope.is_zero() {
            value
        } else {
            T::of(
                rescaled(
                    Format::Double,
                    value.value(),
                    slope.widened().bits,
                    intercept.widened().bits,
                    T::lowest(),
                    T::highest(),
                ),
            )
        }
    }

    proof fn lemma_zero_slope(value: T, slope: Binary32, intercept: Binary32) {
    }

    fn linear_transform(value: T, slope: Binary32, intercept: Binary32) -> (result: T) {
        if slope.is_zero() {
            return value;
        }
        rescale(Format::Double, value, slope.widen().bits, intercept.widen().bits)
    }
}

/// A linear transformation in which the slope and intercept parameters are
/// converted to the value's type for the affine transformation. Ideal for
/// high precision types: the floating-point samples themselves.
#[derive(Debug)]
pub struct LinearTransformViaOriginal;

impl LinearTransform<Binary32> for LinearTransformViaOriginal {
    open spec fn transformed(value: Binary32, slope: Binary32, intercept: Binary32) -> Binary32 {
        if slope.is_zero() {
            value
        } else {
            value.times(slope).plus(intercept)
        }
    }

    proof fn lemma_zero_slope(value: Binary32, slope: Binary32, intercept: Binary32) {
    }

    fn linear_transform(value: Binary32, slope: Binary32, intercept: Binary32) -> (result:
        Binary32) {
        if slope.is_zero() {
            return value;
        }
        value.mul(slope).add(intercept)
    }
}

impl LinearTransform<Binary64> for LinearTransformViaOriginal {
    open spec fn transformed(value: Binary64, slope: Binary32, intercept: Binary32) -> Binary64 {
        if slope.is_zero() {
            value
        } else {
            value.times(slope.widened()).plus(intercept.widened())
        }
    }

    proof fn lemma_zero_slope(value: Binary64, slope: Binary32, intercept: Binary32) {
    }

    fn linear_transform(value: Binary64, slope: Binary32, intercept: Binary32) -> (result:
        Binary64) {
        if slope.is_zero() {
            return value;
        }
        value.mul(slope.widen()).add(intercept.widen())
    }
}

/// With a slope of one and an intercept of zero, the transformation through
/// binary32 gives back every value of fewer than 25 binary digits: all of
/// `u8`, `i8`, `u16` and `i16`.
pub proof fn lemma_unit_slope_via_f32<T: Integer>(value: T, intercept: Binary32)
    requires
        -0x100_0000 < value.value() < 0x100_0000,
        intercept.is_zero(),
    ensures
        <LinearTransformViaF32 as LinearTransform<T>>::transformed(
            value,
            Binary32 { bits: 0x3f80_0000 },
            intercept,
        ) == value,
{
    value.lemma_value();
    lemma_unit_rescaling_is_exact(
        Format::Single,
        value.value(),
        intercept.bits as u64,
        T::lowest(),
        T::highest(),
    );
}

/// With a slope of one and an intercept of zero, the transformation through
/// binary64 gives back every value of fewer than 54 binary digits.
pub proof fn lemma_unit_slope_via_f64<T: Integer>(value: T, intercept: Binary32)
    requires
        -0x20_0000_0000_0000 < value.value() < 0x20_0000_0000_0000,
        intercept.is_zero(),
    ensures
        <LinearTransformViaF64 as LinearTransform<T>>::transformed(
            value,
            Binary32 { bits: 0x3f80_0000 },
            intercept,
        ) == value,
{
    value.lemma_value();
    lemma_widening_one_and_zero();
    lemma_unit_rescaling_is_exact(
        Format::Double,
        value.value(),
        intercept.widened().bits,
        T::lowest(),
        T::highest(),
    );
}

} // verus!
