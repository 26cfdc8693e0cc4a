//! Data elements: the sample types of a volume, and how each is decoded from
//! bytes.

use safe_transmute::guarded_transmute_pod_vec_permissive;
use vstd::prelude::*;
use vstd::slice::slice_subrange;

use crate::byte_order::{
    lemma_bytes_len, lemma_radix_values, lemma_value_of_bytes, lemma_value_of_one_byte,
    read_unsigned, signed_value, unsigned_bytes, unsigned_of, unsigned_value, Endianness,
};
use crate::error::{DecodeError, Result};
use crate::float::{Binary32, Binary64};
use crate::transform::{
    LinearTransform, LinearTransformViaF32, LinearTransformViaF64, LinearTransformViaOriginal,
};

verus! {

/// A sample type of a volume: a fixed-width number that can be decoded from
/// raw bytes in a declared byte order.
pub trait DataElement: Sized + Copy {
    /// For defining how this element is linearly transformed to another.
    type Transform: LinearTransform<Self>;

    /// The number of bytes that one element occupies.
    spec fn width() -> nat;

    /// The element that `bytes`, a run of `width()` bytes, stand for in the
    /// byte order `order`.
    spec fn decoded(bytes: Seq<u8>, order: Endianness) -> Self;

    /// The `width()` bytes that stand for this element in the byte order
    /// `order`.
    spec fn encoded(self, order: Endianness) -> Seq<u8>;

    /// An element occupies at least one byte.
    proof fn lemma_width()
        ensures
            Self::width() >= 1,
    ;

    /// Encoding yields `width()` bytes, and decoding them in the same byte
    /// order gives the element back.
    proof fn lemma_decode_encode(value: Self, order: Endianness)
        ensures
            value.encoded(order).len() == Self::width(),
            Self::decoded(value.encoded(order), order) == value,
    ;

    /// The number of bytes that one element occupies.
    fn byte_width() -> (width: usize)
        ensures
            width == Self::width(),
            width >= 1,
    ;

    /// Reads a single element from the front of the byte source `src`.
    ///
    /// Fails with [`DecodeError::UnexpectedEof`] exactly when `src` holds
    /// fewer bytes than one element.
    fn from_raw(src: &[u8], order: Endianness) -> (element: Result<Self>)
        ensures
            src@.len() < Self::width() ==> element == Err::<Self, DecodeError>(
                DecodeError::UnexpectedEof,
            ),
            src@.len() >= Self::width() ==> element == Ok::<Self, DecodeError>(
                Self::decoded(src@.take(Self::width() as int), order),
            ),
    ;

    /// Turns a whole buffer into elements: those of [`decoded_sequence`],
    /// one for each run of `width()` bytes, in order.
    ///
    /// Fails with [`DecodeError::Truncated`] exactly when the buffer's
    /// length is not a multiple of the element's width; no element is
    /// returned then. The buffer is decoded element by element here; a type
    /// whose elements lie in the buffer as they lie in memory may hand the
    /// buffer on instead.
    fn from_raw_vec(vec: Vec<u8>, order: Endianness) -> (elements: Result<Vec<Self>>)
        ensures
            vec@.len() % Self::width() != 0 ==> elements == Err::<Vec<Self>, DecodeError>(
                DecodeError::Truncated,
            ),
            vec@.len() % Self::width() == 0 ==> elements is Ok && elements->Ok_0@.len()
                == vec@.len() / Self::width(),
            vec@.len() % Self::width() == 0 ==> forall|i: int|
                0 <= i < vec@.len() / Self::width() ==> (#[trigger] elements->Ok_0@[i])
                    == Self::decoded(chunk(vec@, Self::width(), i), order),
    {
        let width = Self::byte_width();
        let bytes = vec.as_slice();
        let len = bytes.len();
        if len % width != 0 {
            return Err(DecodeError::Truncated);
        }
        let count = len / width;
        let mut elements: Vec<Self> = Vec::with_capacity(count);
        let mut start: usize = 0;
        assert(len == count * width && 0 == 0 * width) by (nonlinear_arith)
            requires
                count == len / width,
                len % width == 0,
                width >= 1,
        ;
        while start < len
            invariant
                width == Self::width(),
                width >= 1,
                len == bytes@.len(),
                bytes@ == vec@,
                len == count * width,
                start <= len,
                start == elements@.len() * width,
                elements@.len() <= count,
                forall|i: int|
                    0 <= i < elements@.len() ==> elements@[i] == Self::decoded(
                        chunk(bytes@, width as nat, i),
                        order,
                    ),
            decreases len - start,
        {
            let ghost index = elements@.len() as int;
            assert(start + width <= len) by (nonlinear_arith)
                requires
                    start == index * width,
                    len == count * width,
                    start < len,
                    width >= 1,
                    index <= count,
            ;
            let run = slice_subrange(bytes, start, start + width);
            assert(run@.take(width as int) =~= chunk(bytes@, width as nat, index));
            match Self::from_raw(run, order) {
                Ok(element) => elements.push(element),
                Err(error) => return Err(error),
            }
            assert(start + width == (index + 1) * width) by (nonlinear_arith)
                requires
                    start == index * width,
            ;
            assert(index + 1 <= count) by (nonlinear_arith)
                requires
                    (index + 1) * width <= count * width,
                    width >= 1,
            ;
            start = start + width;
        }
        assert(elements@.len() == count) by (nonlinear_arith)
            requires
                start == elements@.len() * width,
                start == len,
                len == count * width,
                width >= 1,
        ;
        Ok(elements)
    }
}

/// The `index`-th run of `width` bytes of `bytes`.
pub open spec fn chunk(bytes: Seq<u8>, width: nat, index: int) -> Seq<u8> {
    bytes.subrange(index * width, index * width + width)
}

/// The elements that a buffer of back-to-back encodings stands for: one for
/// each whole run of `T::width()` bytes, in order.
pub open spec fn decoded_sequence<T: DataElement>(bytes: Seq<u8>, order: Endianness) -> Seq<T> {
    Seq::new(bytes.len() / T::width(), |i: int| T::decoded(chunk(bytes, T::width(), i), order))
}

/// The buffer that holds the encodings of `elements` back to back.
pub open spec fn encoded_sequence<T: DataElement>(elements: Seq<T>, order: Endianness) -> Seq<u8>
    decreases elements.len(),
{
    if elements.len() == 0 {
        Seq::empty()
    } else {
        encoded_sequence(elements.drop_last(), order) + elements.last().encoded(order)
    }
}

/// Decoding a buffer of back-to-back encodings, in the byte order in which
/// they were written, gives the encoded elements back.
pub proof fn lemma_decode_encode_sequence<T: DataElement>(elements: Seq<T>, order: Endianness)
    ensures
        encoded_sequence(elements, order).len() == elements.len() * T::width(),
        decoded_sequence::<T>(encoded_sequence(elements, order), order) == elements,
    decreases elements.len(),
{
    let width = T::width();
    let bytes = encoded_sequence(elements, order);
    T::lemma_width();
    if elements.len() == 0 {
        assert(bytes.len() == 0);
        assert(decoded_sequence::<T>(bytes, order) =~= elements);
    } else {
        let front = elements.drop_last();
        let front_bytes = encoded_sequence(front, order);
        let last_bytes = elements.last().encoded(order);
        lemma_decode_encode_sequence(front, order);
        T::lemma_decode_encode(elements.last(), order);
        assert(bytes.len() == elements.len() * width) by (nonlinear_arith)
            requires
                bytes.len() == front_bytes.len() + width,
                front_bytes.len() == (elements.len() - 1) * width,
        ;
        assert(bytes.len() / width == elements.len()) by (nonlinear_arith)
            requires
                bytes.len() == elements.len() * width,
                width >= 1,
        ;
        assert(front_bytes.len() / width == front.len()) by (nonlinear_arith)
            requires
                front_bytes.len() == front.len() * width,
                width >= 1,
        ;
        let decoded = decoded_sequence::<T>(bytes, order);
        assert forall|i: int| 0 <= i < elements.len() implies decoded[i] == elements[i] by {
            if i < front.len() {
                assert(i * width + width <= front_bytes.len()) by (nonlinear_arith)
                    requires
                        0 <= i < front.len(),
                        front_bytes.len() == front.len() * width,
                ;
                assert(chunk(bytes, width, i) =~= chunk(front_bytes, width, i));
                assert(decoded_sequence::<T>(front_bytes, order)[i] == front[i]);
            } else {
                assert(i * width == front_bytes.len());
                assert(chunk(bytes, width, i) =~= last_bytes);
            }
        }
        assert(decoded =~= elements);
    }
}

/// A buffer that ends within an element is one that `from_raw_vec` rejects:
/// `whole` elements followed by `extra` bytes, fewer than one element, have
/// a length that is no multiple of the width.
pub proof fn lemma_partial_element_is_rejected<T: DataElement>(whole: nat, extra: nat)
    requires
        0 < extra < T::width(),
    ensures
        (whole * T::width() + extra) % T::width() != 0,
{
    vstd::arithmetic::div_mod::lemma_fundamental_div_mod_converse(
        (whole * T::width() + extra) as int,
        T::width() as int,
        whole as int,
        extra as int,
    );
}

/// Decoding a whole buffer gives, at each place, what `from_raw` reads from
/// the byte source that begins where that element begins.
pub proof fn lemma_buffer_decodes_element_by_element<T: DataElement>(
    bytes: Seq<u8>,
    order: Endianness,
    index: int,
)
    requires
        bytes.len() % T::width() == 0,
        0 <= index < bytes.len() / T::width(),
    ensures
        index * T::width() + T::width() <= bytes.len(),
        decoded_sequence::<T>(bytes, order)[index] == T::decoded(
            bytes.skip(index * T::width()).take(T::width() as int),
            order,
        ),
{
    let width = T::width();
    T::lemma_width();
    assert(index * width + width <= bytes.len()) by (nonlinear_arith)
        requires
            0 <= index < bytes.len() / width,
            bytes.len() % width == 0,
            width >= 1,
    ;
    assert(chunk(bytes, width, index) =~= bytes.skip(index * width).take(width as int));
}

/// Handing a buffer of bytes back as it is gives what decoding it element by
/// element gives, in either byte order.
pub proof fn lemma_bytes_decode_to_themselves(bytes: Seq<u8>, order: Endianness)
    ensures
        decoded_sequence::<u8>(bytes, order) == bytes,
{
    let decoded = decoded_sequence::<u8>(bytes, order);
    assert forall|i: int| 0 <= i < bytes.len() implies decoded[i] == bytes[i] by {
        lemma_value_of_one_byte(chunk(bytes, 1, i), order);
    }
    assert(decoded =~= bytes);
}

/// Reading every byte of a buffer in place as a two's-complement number
/// gives what decoding the buffer element by element gives, in either byte
/// order.
pub proof fn lemma_reinterpreted_bytes_decode_alike(bytes: Seq<u8>, order: Endianness)
    ensures
        decoded_sequence::<i8>(bytes, order) == Seq::new(
            bytes.len(),
            |i: int| signed_value(bytes[i] as nat, 0x100) as i8,
        ),
{
    let decoded = decoded_sequence::<i8>(bytes, order);
    let reinterpreted = Seq::new(bytes.len(), |i: int| signed_value(bytes[i] as nat, 0x100) as i8);
    assert forall|i: int| 0 <= i < bytes.len() implies decoded[i] == reinterpreted[i] by {
        lemma_value_of_one_byte(chunk(bytes, 1, i), order);
    }
    assert(decoded =~= reinterpreted);
}

/// `safe_transmute`'s `guarded_transmute_pod_vec_permissive`, at `i8`: the
/// buffer of the byte vector is kept and every byte is read as a
/// two's-complement number. At a width of one byte no byte is left over.
#[verifier::external_body]
fn reinterpret_as_i8(bytes: Vec<u8>) -> (elements: Vec<i8>)
    ensures
        elements@.len() == bytes@.len(),
        forall|i: int|
            0 <= i < bytes@.len() ==> (#[trigger] elements@[i]) == signed_value(
                bytes@[i] as nat,
                0x100,
            ),
{
    guarded_transmute_pod_vec_permissive(bytes)
}

impl DataElement for u8 {
    type Transform = LinearTransformViaF32;

    open spec fn width() -> nat {
        1
    }

    open spec fn decoded(bytes: Seq<u8>, order: Endianness) -> Self {
        unsigned_value(bytes, order) as u8
    }

    open spec fn encoded(self, order: Endianness) -> Seq<u8> {
        unsigned_bytes(self as nat, 1, order)
    }

    proof fn lemma_width() {
    }

    proof fn lemma_decode_encode(value: Self, order: Endianness) {
        lemma_radix_values();
        lemma_bytes_len(value as nat, 1, order);
        lemma_value_of_bytes(value as nat, 1, order);
    }

    fn byte_width() -> (width: usize) {
        1
    }

    fn from_raw(src: &[u8], order: Endianness) -> (element: Result<Self>) {
        proof {
            lemma_radix_values();
        }
        match read_unsigned(src, 1, order) {
            Ok(raw) => Ok(raw as u8),
            Err(error) => Err(error),
        }
    }

    /// A byte is its own element: the buffer is handed back as it is.
    fn from_raw_vec(vec: Vec<u8>, order: Endianness) -> (elements: Result<Vec<Self>>) {
        proof {
            assert(vec@.len() % 1 == 0);
            assert forall|i: int| 0 <= i < vec@.len() / 1 implies (#[trigger] vec@[i])
                == Self::decoded(chunk(vec@, 1, i), order) by {
                lemma_value_of_one_byte(chunk(vec@, 1, i), order);
            }
        }
        Ok(vec)
    }
}

impl DataElement for i8 {
    type Transform = LinearTransformViaF32;

    open spec fn width() -> nat {
        1
    }

    open spec fn decoded(bytes: Seq<u8>, order: Endianness) -> Self {
        signed_value(unsigned_value(bytes, order), 0x100) as i8
    }

    open spec fn encoded(self, order: Endianness) -> Seq<u8> {
        unsigned_bytes(unsigned_of(self as int, 0x100), 1, order)
    }

    proof fn lemma_width() {
    }

    proof fn lemma_decode_encode(value: Self, order: Endianness) {
        let raw = unsigned_of(value as int, 0x100);
        lemma_radix_values();
        lemma_bytes_len(raw, 1, order);
        lemma_value_of_bytes(raw, 1, order);
    }

    fn byte_width() -> (width: usize) {
        1
    }

    fn from_raw(src: &[u8], order: Endianness) -> (element: Result<Self>) {
        proof {
            lemma_radix_values();
        }
        match read_unsigned(src, 1, order) {
            Ok(raw) => {
                if raw >= 0x80 {
                    Ok((raw as i128 - 0x100) as i8)
                } else {
                    Ok(raw as i8)
                }
            },
            Err(error) => Err(error),
        }
    }

    /// A byte and an `i8` have the same layout: the buffer is reinterpreted
    /// in place.
    fn from_raw_vec(vec: Vec<u8>, order: Endianness) -> (elements: Result<Vec<Self>>) {
        let elements = reinterpret_as_i8(vec);
        proof {
            assert(vec@.len() % 1 == 0);
            assert forall|i: int| 0 <= i < vec@.len() / 1 implies (#[trigger] elements@[i])
                == Self::decoded(chunk(vec@, 1, i), order) by {
                lemma_value_of_one_byte(chunk(vec@, 1, i), order);
            }
        }
        Ok(elements)
    }
}

impl DataElement for u16 {
    type Transform = LinearTransformViaF32;

    open spec fn width() -> nat {
        2
    }

    open spec fn decoded(bytes: Seq<u8>, order: Endianness) -> Self {
        unsigned_value(bytes, order) as u16
    }

    open spec fn encoded(self, order: Endianness) -> Seq<u8> {
        unsigned_bytes(self as nat, 2, order)
    }

    proof fn lemma_width() {
    }

    proof fn lemma_decode_encode(value: Self, order: Endianness) {
        lemma_radix_values();
        lemma_bytes_len(value as nat, 2, order);
        lemma_value_of_bytes(value as nat, 2, order);
    }

    fn byte_width() -> (width: usize) {
        2
    }

    fn from_raw(src: &[u8], order: Endianness) -> (element: Result<Self>) {
        proof {
            lemma_radix_values();
        }
        match read_unsigned(src, 2, order) {
            Ok(raw) => Ok(raw as u16),
            Err(error) => Err(error),
        }
    }
}

impl DataElement for i16 {
    type Transform = LinearTransformViaF32;

    open spec fn width() -> nat {
        2
    }

    open spec fn decoded(bytes: Seq<u8>, order: Endianness) -> Self {
        signed_value(unsigned_value(bytes, order), 0x1_0000) as i16
    }

    open spec fn encoded(self, order: Endianness) -> Seq<u8> {
        unsigned_bytes(unsigned_of(self as int, 0x1_0000), 2, order)
    }

    proof fn lemma_width() {
    }

    proof fn lemma_decode_encode(value: Self, order: Endianness) {
        let raw = unsigned_of(value as int, 0x1_0000);
        lemma_radix_values();
        lemma_bytes_len(raw, 2, order);
        lemma_value_of_bytes(raw, 2, order);
    }

    fn byte_width() -> (width: usize) {
        2
    }

    fn from_raw(src: &[u8], order: Endianness) -> (element: Result<Self>) {
        proof {
            lemma_radix_values();
        }
        match read_unsigned(src, 2, order) {
            Ok(raw) => {
                if raw >= 0x8000 {
                    Ok((raw as i128 - 0x1_0000) as i16)
                } else {
                    Ok(raw as i16)
                }
            },
            Err(error) => Err(error),
        }
    }
}

impl DataElement for u32 {
    type Transform = LinearTransformViaF32;

    open spec fn width() -> nat {
        4
    }

    open spec fn decoded(bytes: Seq<u8>, order: Endianness) -> Self {
        unsigned_value(bytes, order) as u32
    }

    open spec fn encoded(self, order: Endianness) -> Seq<u8> {
        unsigned_bytes(self as nat, 4, order)
    }

    proof fn lemma_width() {
    }

    proof fn lemma_decode_encode(value: Self, order: Endianness) {
        lemma_radix_values();
        lemma_bytes_len(value as nat, 4, order);
        lemma_value_of_bytes(value as nat, 4, order);
    }

    fn byte_width() -> (width: usize) {
        4
    }

    fn from_raw(src: &[u8], order: Endianness) -> (element: Result<Self>) {
        proof {
            lemma_radix_values();
        }
        match read_unsigned(src, 4, order) {
            Ok(raw) => Ok(raw as u32),
            Err(error) => Err(error),
        }
    }
}

impl DataElement for i32 {
    type Transform = LinearTransformViaF32;

    open spec fn width() -> nat {
        4
    }

    open spec fn decoded(bytes: Seq<u8>, order: Endianness) -> Self {
        signed_value(unsigned_value(bytes, order), 0x1_0000_0000) as i32
    }

    open spec fn encoded(self, order: Endianness) -> Seq<u8> {
        unsigned_bytes(unsigned_of(self as int, 0x1_0000_0000), 4, order)
    }

    proof fn lemma_width() {
    }

    proof fn lemma_decode_encode(value: Self, order: Endianness) {
        let raw = unsigned_of(value as int, 0x1_0000_0000);
        lemma_radix_values();
        lemma_bytes_len(raw, 4, order);
        lemma_value_of_bytes(raw, 4, order);
    }

    fn byte_width() -> (width: usize) {
        4
    }

    fn from_raw(src: &[u8], order: Endianness) -> (element: Result<Self>) {
        proof {
            lemma_radix_values();
        }
        match read_unsigned(src, 4, order) {
            Ok(raw) => {
                if raw >= 0x8000_0000 {
                    Ok((raw as i128 - 0x1_0000_0000) as i32)
                } else {
                    Ok(raw as i32)
                }
            },
            Err(error) => Err(error),
        }
    }
}

impl DataElement for u64 {
    type Transform = LinearTransformViaF64;

    open spec fn width() -> nat {
        8
    }

    open spec fn decoded(bytes: Seq<u8>, order: Endianness) -> Self {
        unsigned_value(bytes, order) as u64
    }

    open spec fn encoded(self, order: Endianness) -> Seq<u8> {
        unsigned_bytes(self as nat, 8, order)
    }

    proof fn lemma_width() {
    }

    proof fn lemma_decode_encode(value: Self, order: Endianness) {
        lemma_radix_values();
        lemma_bytes_len(value as nat, 8, order);
        lemma_value_of_bytes(value as nat, 8, order);
    }

    fn byte_width() -> (width: usize) {
        8
    }

    fn from_raw(src: &[u8], order: Endianness) -> (element: Result<Self>) {
        proof {
            lemma_radix_values();
        }
        match read_unsigned(src, 8, order) {
            Ok(raw) => Ok(raw as u64),
            Err(error) => Err(error),
        }
    }
}

impl DataElement for i64 {
    type Transform = LinearTransformViaF64;

    open spec fn width() -> nat {
        8
    }

    open spec fn decoded(bytes: Seq<u8>, order: Endianness) -> Self {
        signed_value(unsigned_value(bytes, order), 0x1_0000_0000_0000_0000) as i64
    }

    open spec fn encoded(self, order: Endianness) -> Seq<u8> {
        unsigned_bytes(unsigned_of(self as int, 0x1_0000_0000_0000_0000), 8, order)
    }

    proof fn lemma_width() {
    }

    proof fn lemma_decode_encode(value: Self, order: Endianness) {
        let raw = unsigned_of(value as int, 0x1_0000_0000_0000_0000);
        lemma_radix_values();
        lemma_bytes_len(raw, 8, order);
        lemma_value_of_bytes(raw, 8, order);
    }

    fn byte_width() -> (width: usize) {
        8
    }

    fn from_raw(src: &[u8], order: Endianness) -> (element: Result<Self>) {
        proof {
            lemma_radix_values();
        }
        match read_unsigned(src, 8, order) {
            Ok(raw) => {
                if raw >= 0x8000_0000_0000_0000 {
                    Ok((raw as i128 - 0x1_0000_0000_0000_0000) as i64)
                } else {
                    Ok(raw as i64)
                }
            },
            Err(error) => Err(error),
        }
    }
}

impl DataElement for Binary32 {
    type Transform = LinearTransformViaOriginal;

    open spec fn width() -> nat {
        4
    }

    open spec fn decoded(bytes: Seq<u8>, order: Endianness) -> Self {
        Binary32 { bits: unsigned_value(bytes, order) as u32 }
    }

    open spec fn encoded(self, order: Endianness) -> Seq<u8> {
        unsigned_bytes(self.bits as nat, 4, order)
    }

    proof fn lemma_width() {
    }

    proof fn lemma_decode_encode(value: Self, order: Endianness) {
        lemma_radix_values();
        lemma_bytes_len(value.bits as nat, 4, order);
        lemma_value_of_bytes(value.bits as nat, 4, order);
    }

    fn byte_width() -> (width: usize) {
        4
    }

    fn from_raw(src: &[u8], order: Endianness) -> (element: Result<Self>) {
        proof {
            lemma_radix_values();
        }
        match read_unsigned(src, 4, order) {
            Ok(raw) => Ok(Binary32 { bits: raw as u32 }),
            Err(error) => Err(error),
        }
    }
}

impl DataElement for Binary64 {
    type Transform = LinearTransformViaOriginal;

    open spec fn width() -> nat {
        8
    }

    open spec fn decoded(bytes: Seq<u8>, order: Endianness) -> Self {
        Binary64 { bits: unsigned_value(bytes, order) as u64 }
    }

    open spec fn encoded(self, order: Endianness) -> Seq<u8> {
        unsigned_bytes(self.bits as nat, 8, order)
    }

    proof fn lemma_width() {
    }

    proof fn lemma_decode_encode(value: Self, order: Endianness) {
        lemma_radix_values();
        lemma_bytes_len(value.bits as nat, 8, order);
        lemma_value_of_bytes(value.bits as nat, 8, order);
    }

    fn byte_width() -> (width: usize) {
        8
    }

    fn from_raw(src: &[u8], order: Endianness) -> (element: Result<Self>) {
        proof {
            lemma_radix_values();
        }
        match read_unsigned(src, 8, order) {
            Ok(raw) => Ok(Binary64 { bits: raw as u64 }),
            Err(error) => Err(error),
        }
    }
}

} // verus!
