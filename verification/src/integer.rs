//! The integer sample types, seen as mathematical integers within a range.

use vstd::prelude::*;

verus! {

/// A fixed-width integer type: its values are the integers from
/// `lowest()` to `highest()`.
pub trait Integer: Sized + Copy {
    /// The integer that this value is.
    spec fn value(self) -> int;

    /// The value that the integer `number` is, for a `number` within the
    /// range.
    spec fn of(number: int) -> Self;

    /// The least integer of the type.
    spec fn lowest() -> int;

    /// The greatest integer of the type.
    spec fn highest() -> int;

    /// The range holds zero and fits an `i128`.
    proof fn lemma_range()
        ensures
            i128::MIN <= Self::lowest() <= 0 <= Self::highest() <= i128::MAX,
    ;

    /// Every value is an integer of the range, and is the value of that
    /// integer.
    proof fn lemma_value(self)
        ensures
            Self::lowest() <= self.value() <= Self::highest(),
            Self::of(self.value()) == self,
    ;

    /// Every integer of the range is the integer of its value.
    proof fn lemma_of(number: int)
        requires
            Self::lowest() <= number <= Self::highest(),
        ensures
            Self::of(number).value() == number,
    ;

    /// This value as a wide integer.
    fn widen(self) -> (number: i128)
        ensures
            number == self.value(),
    ;

    /// The value nearest to `number`: `number` itself where it lies within
    /// the range, and else the end of the range on its side.
    fn saturate(number: i128) -> (result: Self)
        ensures
            result == Self::of(
                if number < Self::lowest() {
                    Self::lowest()
                } else if number > Self::highest() {
                    Self::highest()
                } else {
                    number as int
                },
            ),
    ;
}

impl Integer for u8 {
    open spec fn value(self) -> int {
        self as int
    }

    open spec fn of(number: int) -> Self {
        number as u8
    }

    open spec fn lowest() -> int {
        u8::MIN as int
    }

    open spec fn highest() -> int {
        u8::MAX as int
    }

    proof fn lemma_range() {
    }

    proof fn lemma_value(self) {
    }

    proof fn lemma_of(number: int) {
    }

    fn widen(self) -> (number: i128) {
        self as i128
    }

    fn saturate(number: i128) -> (result: Self) {
        if number < u8::MIN as i128 {
            u8::MIN
        } else if number > u8::MAX as i128 {
            u8::MAX
        } else {
            number as u8
        }
    }
}

impl Integer for i8 {
    open spec fn value(self) -> int {
        self as int
    }

    open spec fn of(number: int) -> Self {
        number as i8
    }

    open spec fn lowest() -> int {
        i8::MIN as int
    }

    open spec fn highest() -> int {
        i8::MAX as int
    }

    proof fn lemma_range() {
    }

    proof fn lemma_value(self) {
    }

    proof fn lemma_of(number: int) {
    }

    fn widen(self) -> (number: i128) {
        self as i128
    }

    fn saturate(number: i128) -> (result: Self) {
        if number < i8::MIN as i128 {
            i8::MIN
        } else if number > i8::MAX as i128 {
            i8::MAX
        } else {
            number as i8
        }
    }
}

impl Integer for u16 {
    open spec fn value(self) -> int {
        self as int
    }

    open spec fn of(number: int) -> Self {
        number as u16
    }

    open spec fn lowest() -> int {
        u16::MIN as int
    }

    open spec fn highest() -> int {
        u16::MAX as int
    }

    proof fn lemma_range() {
    }

    proof fn lemma_value(self) {
    }

    proof fn lemma_of(number: int) {
    }

    fn widen(self) -> (number: i128) {
        self as i128
    }

    fn saturate(number: i128) -> (result: Self) {
        if number < u16::MIN as i128 {
            u16::MIN
        } else if number > u16::MAX as i128 {
            u16::MAX
        } else {
            number as u16
        }
    }
}

impl Integer for i16 {
    open spec fn value(self) -> int {
        self as int
    }

    open spec fn of(number: int) -> Self {
        number as i16
    }

    open spec fn lowest() -> int {
        i16::MIN as int
    }

    open spec fn highest() -> int {
        i16::MAX as int
    }

    proof fn lemma_range() {
    }

    proof fn lemma_value(self) {
    }

    proof fn lemma_of(number: int) {
    }

    fn widen(self) -> (number: i128) {
        self as i128
    }

    fn saturate(number: i128) -> (result: Self) {
        if number < i16::MIN as i128 {
            i16::MIN
        } else if number > i16::MAX as i128 {
            i16::MAX
        } else {
            number as i16
        }
    }
}

impl Integer for u32 {
    open spec fn value(self) -> int {
        self as int
    }

    open spec fn of(number: int) -> Self {
        number as u32
    }

    open spec fn lowest() -> int {
        u32::MIN as int
    }

    open spec fn highest() -> int {
        u32::MAX as int
    }

    proof fn lemma_range() {
    }

    proof fn lemma_value(self) {
    }

    proof fn lemma_of(number: int) {
    }

    fn widen(self) -> (number: i128) {
        self as i128
    }

    fn saturate(number: i128) -> (result: Self) {
        if number < u32::MIN as i128 {
            u32::MIN
        } else if number > u32::MAX as i128 {
            u32::MAX
        } else {
            number as u32
        }
    }
}

impl Integer for i32 {
    open spec fn value(self) -> int {
        self as int
    }

    open spec fn of(number: int) -> Self {
        number as i32
    }

    open spec fn lowest() -> int {
        i32::MIN as int
    }

    open spec fn highest() -> int {
        i32::MAX as int
    }

    proof fn lemma_range() {
    }

    proof fn lemma_value(self) {
    }

    proof fn lemma_of(number: int) {
    }

    fn widen(self) -> (number: i128) {
        self as i128
    }

    fn saturate(number: i128) -> (result: Self) {
        if number < i32::MIN as i128 {
            i32::MIN
        } else if number > i32::MAX as i128 {
            i32::MAX
        } else {
            number as i32
        }
    }
}

impl Integer for u64 {
    open spec fn value(self) -> int {
        self as int
    }

    open spec fn of(number: int) -> Self {
        number as u64
    }

    open spec fn lowest() -> int {
        u64::MIN as int
    }

    open spec fn highest() -> int {
        u64::MAX as int
    }

    proof fn lemma_range() {
    }

    proof fn lemma_value(self) {
    }

    proof fn lemma_of(number: int) {
    }

    fn widen(self) -> (number: i128) {
        self as i128
    }

    fn saturate(number: i128) -> (result: Self) {
        if number < u64::MIN as i128 {
            u64::MIN
        } else if number > u64::MAX as i128 {
            u64::MAX
        } else {
            number as u64
        }
    }
}

impl Integer for i64 {
    open spec fn value(self) -> int {
        self as int
    }

    open spec fn of(number: int) -> Self {
        number as i64
    }

    open spec fn lowest() -> int {
        i64::MIN as int
    }

    open spec fn highest() -> int {
        i64::MAX as int
    }

    proof fn lemma_range() {
    }

    proof fn lemma_value(self) {
    }

    proof fn lemma_of(number: int) {
    }

    fn widen(self) -> (number: i128) {
        self as i128
    }

    fn saturate(number: i128) -> (result: Self) {
        if number < i64::MIN as i128 {
            i64::MIN
        } else if number > i64::MAX as i128 {
            i64::MAX
        } else {
            number as i64
        }
    }
}

} // verus!
