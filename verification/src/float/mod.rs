//! IEEE 754 binary floating point on bit patterns.

pub mod arith;
pub mod big;
pub mod binary;
pub mod bits;
pub mod convert;
pub mod decimal;
pub mod formats;
pub mod laws;
pub mod round;

pub use binary::{Binary16, Binary32, Binary64};
