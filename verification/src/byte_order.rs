//! Byte orders, and the number that a run of bytes stands for in each.

use byteorder::{BigEndian, ByteOrder, LittleEndian};
use vstd::prelude::*;

use crate::error::{DecodeError, Result};

verus! {

/// The order in which the bytes of a multi-byte element are laid out.
#[derive(Clone, Copy, Debug, PartialEq, Eq, Structural)]
pub enum Endianness {
    /// Least significant byte first.
    LE,
    /// Most significant byte first.
    BE,
}

/// The number that `bytes` stand for, least significant byte first.
pub open spec fn le_value(bytes: Seq<u8>) -> nat
    decreases bytes.len(),
{
    if bytes.len() == 0 {
        0
    } else {
        bytes.first() as nat + 256 * le_value(bytes.drop_first())
    }
}

/// The number that `bytes` stand for, most significant byte first.
pub open spec fn be_value(bytes: Seq<u8>) -> nat
    decreases bytes.len(),
{
    if bytes.len() == 0 {
        0
    } else {
        256 * be_value(bytes.drop_last()) + bytes.last() as nat
    }
}

/// The number that `bytes` stand for in the byte order `order`.
pub open spec fn unsigned_value(bytes: Seq<u8>, order: Endianness) -> nat {
    match order {
        Endianness::LE => le_value(bytes),
        Endianness::BE => be_value(bytes),
    }
}

/// `byteorder`'s `LittleEndian::read_uint`: the unsigned number held by the
/// first `nbytes` bytes of `buf`, least significant byte first. The outside
/// function panics unless `1 <= nbytes <= 8` and `buf` has that many bytes.
#[verifier::external_body]
fn read_uint_le(buf: &[u8], nbytes: usize) -> (value: u64)
    requires
        1 <= nbytes <= 8,
        nbytes <= buf@.len(),
    ensures
        value == le_value(buf@.take(nbytes as int)),
{
    LittleEndian::read_uint(buf, nbytes)
}

/// `byteorder`'s `BigEndian::read_uint`: the unsigned number held by the
/// first `nbytes` bytes of `buf`, most significant byte first. The outside
/// function panics unless `1 <= nbytes <= 8` and `buf` has that many bytes.
#[verifier::external_body]
fn read_uint_be(buf: &[u8], nbytes: usize) -> (value: u64)
    requires
        1 <= nbytes <= 8,
        nbytes <= buf@.len(),
    ensures
        value == be_value(buf@.take(nbytes as int)),
{
    BigEndian::read_uint(buf, nbytes)
}

/// Reads the unsigned number that the first `width` bytes of `src` hold in
/// the byte order `order`, or reports that `src` ends too early.
pub(crate) fn read_unsigned(src: &[u8], width: usize, order: Endianness) -> (value: Result<u64>)
    requires
        1 <= width <= 8,
    ensures
        src@.len() < width ==> value == Err::<u64, DecodeError>(DecodeError::UnexpectedEof),
        src@.len() >= width ==> value is Ok && value->Ok_0 == unsigned_value(
            src@.take(width as int),
            order,
        ) && value->Ok_0 < radix(width as nat),
{
    if src.len() < width {
        return Err(DecodeError::UnexpectedEof);
    }
    proof {
        lemma_value_below_radix(src@.take(width as int), order);
        lemma_radix_values();
        lemma_radix_increases(width as nat, 8);
    }
    match order {
        Endianness::LE => Ok(read_uint_le(src, width)),
        Endianness::BE => Ok(read_uint_be(src, width)),
    }
}

/// 256 to the power `width`: the count of numbers that `width` bytes can hold.
pub open spec fn radix(width: nat) -> nat
    decreases width,
{
    if width == 0 {
        1
    } else {
        256 * radix((width - 1) as nat)
    }
}

/// The `width` bytes that stand for `value`, least significant byte first.
/// Only the part of `value` below `radix(width)` is kept.
pub open spec fn le_bytes(value: nat, width: nat) -> Seq<u8>
    decreases width,
{
    if width == 0 {
        Seq::empty()
    } else {
        seq![(value % 256) as u8] + le_bytes(value / 256, (width - 1) as nat)
    }
}

/// The `width` bytes that stand for `value`, most significant byte first.
/// Only the part of `value` below `radix(width)` is kept.
pub open spec fn be_bytes(value: nat, width: nat) -> Seq<u8>
    decreases width,
{
    if width == 0 {
        Seq::empty()
    } else {
        be_bytes(value / 256, (width - 1) as nat).push((value % 256) as u8)
    }
}

/// The `width` bytes that stand for `value` in the byte order `order`.
pub open spec fn unsigned_bytes(value: nat, width: nat, order: Endianness) -> Seq<u8> {
    match order {
        Endianness::LE => le_bytes(value, width),
        Endianness::BE => be_bytes(value, width),
    }
}

/// The widths that the element types use, as numbers.
pub proof fn lemma_radix_values()
    ensures
        radix(0) == 1,
        radix(1) == 0x100,
        radix(2) == 0x1_0000,
        radix(4) == 0x1_0000_0000,
        radix(8) == 0x1_0000_0000_0000_0000,
{
    reveal_with_fuel(radix, 9);
}

/// A wider run of bytes holds at least as many numbers.
pub proof fn lemma_radix_increases(narrow: nat, wide: nat)
    requires
        narrow <= wide,
    ensures
        1 <= radix(narrow) <= radix(wide),
    decreases wide,
{
    if wide == 0 {
    } else if narrow == wide {
        lemma_radix_increases((narrow - 1) as nat, (wide - 1) as nat);
    } else {
        lemma_radix_increases(narrow, (wide - 1) as nat);
    }
}

/// Encoding yields exactly `width` bytes.
pub proof fn lemma_bytes_len(value: nat, width: nat, order: Endianness)
    ensures
        unsigned_bytes(value, width, order).len() == width,
    decreases width,
{
    if width > 0 {
        lemma_bytes_len(value / 256, (width - 1) as nat, order);
    }
}

/// What a run of bytes stands for is below the radix of its length.
pub proof fn lemma_value_below_radix(bytes: Seq<u8>, order: Endianness)
    ensures
        unsigned_value(bytes, order) < radix(bytes.len()),
    decreases bytes.len(),
{
    if bytes.len() > 0 {
        lemma_value_below_radix(bytes.drop_first(), order);
        lemma_value_below_radix(bytes.drop_last(), order);
    }
}

/// Decoding what was encoded gives the number back, in either byte order.
pub proof fn lemma_value_of_bytes(value: nat, width: nat, order: Endianness)
    requires
        value < radix(width),
    ensures
        unsigned_value(unsigned_bytes(value, width, order), order) == value,
    decreases width,
{
    if width > 0 {
        let rest = (width - 1) as nat;
        lemma_value_of_bytes(value / 256, rest, order);
        lemma_bytes_len(value / 256, rest, order);
        match order {
            Endianness::LE => {
                let bytes = le_bytes(value, width);
                assert(bytes.drop_first() =~= le_bytes(value / 256, rest));
            },
            Endianness::BE => {
                let bytes = be_bytes(value, width);
                assert(bytes.drop_last() =~= be_bytes(value / 256, rest));
            },
        }
    }
}

/// Encoding what was decoded gives the bytes back, in either byte order.
pub proof fn lemma_bytes_of_value(bytes: Seq<u8>, order: Endianness)
    ensures
        unsigned_bytes(unsigned_value(bytes, order), bytes.len(), order) == bytes,
    decreases bytes.len(),
{
    if bytes.len() > 0 {
        match order {
            Endianness::LE => {
                let rest = bytes.drop_first();
                lemma_bytes_of_value(rest, order);
                let value = le_value(bytes);
                assert(value % 256 == bytes.first() as nat);
                assert(value / 256 == le_value(rest));
                assert(le_bytes(value, bytes.len()) =~= bytes);
            },
            Endianness::BE => {
                let rest = bytes.drop_last();
                lemma_bytes_of_value(rest, order);
                let value = be_value(bytes);
                assert(value % 256 == bytes.last() as nat);
                assert(value / 256 == be_value(rest));
                assert(be_bytes(value, bytes.len()) =~= bytes);
            },
        }
    }
}

/// The signed number that the unsigned `raw`, below `modulus`, stands for in
/// two's complement: the upper half of the range stands for the negative
/// numbers.
pub open spec fn signed_value(raw: nat, modulus: nat) -> int {
    if 2 * raw >= modulus {
        raw - modulus
    } else {
        raw as int
    }
}

/// The unsigned number below `modulus` that stands for `value` in two's
/// complement.
pub open spec fn unsigned_of(value: int, modulus: nat) -> nat {
    if value < 0 {
        (value + modulus) as nat
    } else {
        value as nat
    }
}

/// A single byte stands for itself in either byte order.
pub proof fn lemma_value_of_one_byte(bytes: Seq<u8>, order: Endianness)
    requires
        bytes.len() == 1,
    ensures
        unsigned_value(bytes, order) == bytes[0],
{
    reveal_with_fuel(le_value, 2);
    reveal_with_fuel(be_value, 2);
}

} // verus!
