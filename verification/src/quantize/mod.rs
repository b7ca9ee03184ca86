//! Quantization of cached keys and values, and how much accuracy it costs.

pub mod accuracy;
pub mod fp16;
pub mod fp8;
pub mod int4;
pub mod method;
pub mod stats;

pub use fp16::{dequantize_fp16, quantize_fp16};
pub use fp8::{decode_fp8, dequantize_fp8, encode_fp8, quantize_fp8};
pub use int4::{
    dequantize_int4, quantize_int4, quantize_int4_grouped, Int4Packed, INT4_GROUP_SIZE,
};
pub use method::QuantMethod;
pub use stats::{round_trip_stats, CompressionStats};
