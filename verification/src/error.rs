//! The ways in which decoding fails.

use vstd::prelude::*;

verus! {

/// Why a buffer could not be decoded.
#[derive(Clone, Copy, Debug, PartialEq, Eq, Structural)]
pub enum DecodeError {
    /// The byte source ended before one whole element had been read.
    UnexpectedEof,
    /// The buffer's length is not a multiple of the element's width.
    Truncated,
}

/// What decoding returns.
pub type Result<T> = core::result::Result<T, DecodeError>;

} // verus!
