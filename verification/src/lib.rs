//! Key-value cache compression: quantization on IEEE 754 bit patterns, token
//! eviction, and cache-size projection.

pub mod cli;
pub mod eviction;
pub mod float;
pub mod order;
pub mod parallel;
pub mod quantize;
pub mod simulator;
pub mod text;

pub use eviction::{EvictionStrategy, H2OEviction, RandomEviction, SlidingWindow, TokenEviction};
pub use quantize::{dequantize_fp16, dequantize_fp8, dequantize_int4};
pub use quantize::{quantize_fp16, quantize_fp8, quantize_int4, QuantMethod};
pub use quantize::{round_trip_stats, CompressionStats};
pub use simulator::{simulate_cache, ModelConfig, SimulationResult};
