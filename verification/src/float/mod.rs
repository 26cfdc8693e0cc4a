//! IEEE-754 binary floating point on bit patterns.

pub mod arith;
pub mod binary;
pub mod convert;
pub mod format;
pub mod laws;
pub mod power;

pub use binary::{Binary32, Binary64};
pub use format::Format;
