//! Typed decoding and affine rescaling of the samples of an imaging volume.
//!
//! A volume stores its samples back to back as fixed-width numbers in a
//! declared byte order. [`DataElement`] turns such bytes into typed samples;
//! [`LinearTransform`] applies `value * slope + intercept` to them in the
//! working precision that suits each sample type.
//!
//! Floating-point values never appear as machine floats here: a
//! [`Binary32`] or [`Binary64`] holds the IEEE-754 bit pattern, and the
//! arithmetic on them is carried out on integers, rounded as the standard
//! asks.

pub mod byte_order;
pub mod element;
pub mod error;
pub mod float;
pub mod integer;
pub mod transform;

pub use byte_order::Endianness;
pub use element::DataElement;
pub use error::DecodeError;
pub use float::{Binary32, Binary64};
pub use integer::Integer;
pub use transform::{
    LinearTransform, LinearTransformViaF32, LinearTransformViaF64, LinearTransformViaOriginal,
};
