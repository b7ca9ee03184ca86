//! The quantization methods.

use crate::float::Binary64;
use vstd::prelude::*;

verus! {

/// Supported quantization methods.
#[derive(Debug, Clone, Copy, PartialEq, Eq, Structural)]
pub enum QuantMethod {
    FP16,
    FP8E4M3,
    INT4,
}

impl QuantMethod {
    /// How many times smaller the quantized numbers are.
    pub open spec fn ratio(self) -> nat {
        match self {
            QuantMethod::FP16 => 2,
            QuantMethod::FP8E4M3 => 4,
            QuantMethod::INT4 => 8,
        }
    }

    /// The name for display.
    pub open spec fn label(self) -> Seq<char> {
        match self {
            QuantMethod::FP16 => "FP16"@,
            QuantMethod::FP8E4M3 => "FP8 (E4M3)"@,
            QuantMethod::INT4 => "INT4 (grouped)"@,
        }
    }

    /// The nominal compression ratio over binary32; for INT4 the scales are
    /// left out of account.
    pub fn compression_ratio(&self) -> (r: Binary64)
        ensures
            r == Binary64::of_integer(self.ratio()),
    {
        match self {
            QuantMethod::FP16 => Binary64::from_unsigned(2),
            QuantMethod::FP8E4M3 => Binary64::from_unsigned(4),
            QuantMethod::INT4 => Binary64::from_unsigned(8),
        }
    }

    pub fn bits_per_element(&self) -> (r: u32)
        ensures
            r == 32nat / self.ratio(),
            r == (match self {
                QuantMethod::FP16 => 16u32,
                QuantMethod::FP8E4M3 => 8u32,
                QuantMethod::INT4 => 4u32,
            }),
    {
        match self {
            QuantMethod::FP16 => 16,
            QuantMethod::FP8E4M3 => 8,
            QuantMethod::INT4 => 4,
        }
    }

    /// The name for display.
    pub fn to_string(&self) -> (r: String)
        ensures
            r@ == self.label(),
    {
        match self {
            QuantMethod::FP16 => "FP16".to_string(),
            QuantMethod::FP8E4M3 => "FP8 (E4M3)".to_string(),
            QuantMethod::INT4 => "INT4 (grouped)".to_string(),
        }
    }
}

} // verus!
