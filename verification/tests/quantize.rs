use kv_squeeze::float::{Binary16, Binary32, Binary64};
use kv_squeeze::quantize::{
    decode_fp8, dequantize_fp16, dequantize_fp8, dequantize_int4, encode_fp8, quantize_fp16,
    quantize_fp8, quantize_int4, quantize_int4_grouped, round_trip_stats, CompressionStats,
    Int4Packed, QuantMethod, INT4_GROUP_SIZE,
};

fn single(v: f32) -> Binary32 {
    Binary32 { bits: v.to_bits() }
}

fn number(v: Binary32) -> f32 {
    f32::from_bits(v.bits)
}

fn double(v: Binary64) -> f64 {
    f64::from_bits(v.bits)
}

fn singles(data: &[f32]) -> Vec<Binary32> {
    data.iter().map(|&v| single(v)).collect()
}

fn encode(v: f32) -> u8 {
    encode_fp8(single(v))
}

fn decode(byte: u8) -> f32 {
    number(decode_fp8(byte))
}

fn sample_data(n: usize) -> Vec<Binary32> {
    // Deterministic pseudo-random data in [-1, 1]
    let mut data = Vec::with_capacity(n);
    let mut x: u32 = 42;
    for _ in 0..n {
        x = x.wrapping_mul(1103515245).wrapping_add(12345);
        let f = ((x >> 16) as f32 / 32768.0) - 1.0;
        data.push(single(f));
    }
    data
}

fn ratio(stats: &CompressionStats) -> f64 {
    double(stats.compression_ratio())
}

#[test]
fn fp16_round_trip_accuracy() {
    let data = sample_data(1024);
    let stats = round_trip_stats(&data, QuantMethod::FP16);
    // FP16 should be very accurate for values in [-1, 1]
    let mse = double(stats.mse);
    let max_error = double(stats.max_error);
    assert!(mse < 1e-6, "FP16 MSE too high: {}", mse);
    assert!(max_error < 1e-3, "FP16 max error too high: {}", max_error);
    assert!(
        (ratio(&stats) - 2.0).abs() < 0.01,
        "FP16 compression ratio wrong: {}",
        ratio(&stats)
    );
}

#[test]
fn fp8_round_trip_accuracy() {
    let data = sample_data(1024);
    let stats = round_trip_stats(&data, QuantMethod::FP8E4M3);
    // FP8 is coarser but should still be reasonable for [-1, 1]
    let mse = double(stats.mse);
    let max_error = double(stats.max_error);
    assert!(mse < 0.01, "FP8 MSE too high: {}", mse);
    assert!(max_error < 0.2, "FP8 max error too high: {}", max_error);
    assert!(
        (ratio(&stats) - 4.0).abs() < 0.01,
        "FP8 compression ratio wrong: {}",
        ratio(&stats)
    );
}

#[test]
fn fp8_preserves_zero() {
    // Positive and negative zero
    assert_eq!(encode(0.0), 0x00);
    assert_eq!(encode(-0.0), 0x80);

    let r_pos = decode(0x00);
    let r_neg = decode(0x80);
    assert_eq!(r_pos, 0.0);
    assert!(!r_pos.is_sign_negative());
    assert_eq!(r_neg, 0.0);
    assert!(r_neg.is_sign_negative());

    // Round-trip over slices
    let data = singles(&[0.0_f32, -0.0, 0.0]);
    let q = quantize_fp8(&data);
    let r = dequantize_fp8(&q);
    for v in &r {
        assert_eq!(number(*v), 0.0);
    }
}

#[test]
fn fp8_nan_encoding() {
    // NaN becomes E4M3 NaN
    let encoded = encode(f32::NAN);
    assert_eq!(encoded & 0x7F, 0x7F, "NaN should encode to exp=15, mant=7");

    // Infinity becomes E4M3 NaN (no infinity in E4M3)
    let enc_inf = encode(f32::INFINITY);
    assert_eq!(enc_inf & 0x7F, 0x7F, "Inf should map to NaN");
    let enc_neg_inf = encode(f32::NEG_INFINITY);
    assert_eq!(enc_neg_inf & 0x7F, 0x7F, "Neg Inf should map to NaN");
    assert_eq!(enc_neg_inf >> 7, 1, "Neg Inf NaN should preserve sign");

    // E4M3 NaN decodes to NaN
    assert!(decode(0x7F).is_nan(), "0x7F should decode to NaN");
    assert!(decode(0xFF).is_nan(), "0xFF should decode to NaN");
}

#[test]
fn fp8_max_value() {
    // Max finite E4M3 = 448.0 (exp=15, mant=6 is 1.75 * 2^8)
    let encoded = encode(448.0);
    assert_eq!(encoded, 0x7E, "448.0 should encode to 0x7E (exp=15, mant=6)");
    let decoded = decode(0x7E);
    assert_eq!(decoded, 448.0, "0x7E should decode to 448.0");

    // Negative max
    let neg_encoded = encode(-448.0);
    assert_eq!(neg_encoded, 0xFE, "-448.0 should encode to 0xFE");
    let neg_decoded = decode(0xFE);
    assert_eq!(neg_decoded, -448.0);
}

#[test]
fn fp8_overflow_clamps() {
    // Values > 448 should clamp to max finite, not become NaN
    let data = singles(&[1000.0_f32, -1000.0, 500.0, -600.0]);
    let q = quantize_fp8(&data);
    let r = dequantize_fp8(&q);
    assert_eq!(number(r[0]), 448.0, "1000.0 should clamp to 448.0");
    assert_eq!(number(r[1]), -448.0, "-1000.0 should clamp to -448.0");
    assert_eq!(number(r[2]), 448.0, "500.0 should clamp to 448.0");
    assert_eq!(number(r[3]), -448.0, "-600.0 should clamp to -448.0");

    // Verify the encoded value is NOT NaN
    for &byte in &q {
        let exp = (byte >> 3) & 0xF;
        let mant = byte & 0x7;
        assert!(
            !(exp == 15 && mant == 7),
            "Clamped value must not produce NaN encoding"
        );
    }
}

#[test]
fn fp8_subnormals() {
    // Smallest subnormal: 2^(-6) * (1/8) = 2^(-9)
    let min_sub = 0.001953125_f32;
    let encoded = encode(min_sub);
    assert_eq!(encoded, 0x01, "Smallest subnormal should be 0x01 (exp=0, mant=1)");
    let decoded = decode(0x01);
    assert!((decoded - min_sub).abs() < 1e-10, "Smallest subnormal decode mismatch");

    // Largest subnormal: 2^(-6) * (7/8)
    let max_sub_decoded = decode(0x07); // exp=0, mant=7
    let expected = (2.0f32).powi(-6) * 7.0 / 8.0;
    assert!(
        (max_sub_decoded - expected).abs() < 1e-7,
        "Largest subnormal: got {}, expected {}",
        max_sub_decoded,
        expected
    );

    // Negative subnormal
    let neg_encoded = encode(-min_sub);
    assert_eq!(neg_encoded, 0x81, "Negative smallest subnormal should be 0x81");
    let neg_decoded = decode(0x81);
    assert!((neg_decoded + min_sub).abs() < 1e-10);
}

#[test]
fn fp8_underflow_flushes_to_zero() {
    // Values smaller than smallest subnormal (2^-9) should flush to zero
    let tiny = 1e-4_f32;
    let encoded = encode(tiny);
    let decoded = decode(encoded);
    // Should be either zero or the smallest subnormal
    assert!(
        decoded.abs() <= 0.001953125,
        "Very small value should flush to zero or smallest subnormal, got {}",
        decoded
    );

    let tinier = 1e-6_f32;
    let encoded2 = encode(tinier);
    let decoded2 = decode(encoded2);
    assert_eq!(decoded2, 0.0, "Extremely small value should flush to zero");
}

#[test]
fn fp8_negative_values() {
    // Test that sign bit works correctly for normal values
    let test_vals = [1.0f32, -1.0, 2.5, -2.5, 0.5, -0.5];
    for &v in &test_vals {
        let encoded = encode(v);
        let decoded = decode(encoded);
        assert_eq!(
            decoded.is_sign_negative(),
            v.is_sign_negative(),
            "Sign mismatch for value {}",
            v
        );
        assert!(
            (decoded.abs() - v.abs()).abs() < v.abs() * 0.15,
            "Round-trip error too large for {}: got {}",
            v,
            decoded
        );
    }
}

#[test]
fn fp8_known_normal_values() {
    // 1.0: exp=7, mant=0
    let enc = encode(1.0);
    assert_eq!(enc, 0x38, "1.0 should encode to 0x38");
    assert_eq!(decode(0x38), 1.0);

    // 2.0: exp=8, mant=0
    let enc2 = encode(2.0);
    assert_eq!(enc2, 0x40, "2.0 should encode to 0x40");
    assert_eq!(decode(0x40), 2.0);

    // 0.5: exp=6, mant=0
    let enc3 = encode(0.5);
    assert_eq!(enc3, 0x30, "0.5 should encode to 0x30");
    assert_eq!(decode(0x30), 0.5);

    // Smallest normal: exp=1, mant=0 is 2^(-6)
    let enc4 = encode(0.015625);
    assert_eq!(enc4, 0x08, "Min normal should encode to 0x08");
    assert_eq!(decode(0x08), 0.015625);
}

#[test]
fn fp8_all_valid_round_trip() {
    // Every valid FP8 encoding should round-trip through decode and encode
    for byte in 0u8..=255 {
        let exp = (byte >> 3) & 0xF;
        let mant = byte & 0x7;

        // Skip NaN
        if exp == 15 && mant == 7 {
            assert!(decode(byte).is_nan());
            continue;
        }

        let decoded = decode(byte);
        let re_encoded = encode(decoded);
        let re_decoded = decode(re_encoded);

        assert!(
            (decoded - re_decoded).abs() < 1e-10 || (decoded == 0.0 && re_decoded == 0.0),
            "Round-trip failed for byte 0x{:02X}: decoded={}, re_encoded=0x{:02X}, re_decoded={}",
            byte,
            decoded,
            re_encoded,
            re_decoded
        );
        assert_eq!(re_encoded, byte);
    }
}

#[test]
fn int4_round_trip_accuracy() {
    let data = sample_data(1024);
    let stats = round_trip_stats(&data, QuantMethod::INT4);
    // INT4 is the coarsest: only 16 levels
    let mse = double(stats.mse);
    let max_error = double(stats.max_error);
    assert!(mse < 0.05, "INT4 MSE too high: {}", mse);
    assert!(max_error < 0.5, "INT4 max error too high: {}", max_error);
    // Compression ratio is approximate due to scale overhead
    assert!(
        ratio(&stats) > 5.0,
        "INT4 compression ratio too low: {}",
        ratio(&stats)
    );
}

#[test]
fn int4_preserves_zeros() {
    let data = vec![single(0.0_f32); 64];
    let packed = quantize_int4(&data);
    let r = dequantize_int4(&packed);
    for v in &r {
        assert_eq!(number(*v), 0.0);
    }
}

#[test]
fn int4_element_count_preserved() {
    // Non-multiple of group size
    let data = sample_data(100);
    let packed = quantize_int4(&data);
    let r = dequantize_int4(&packed);
    assert_eq!(r.len(), data.len());
}

#[test]
fn fp16_element_count_preserved() {
    let data = sample_data(137);
    let q = quantize_fp16(&data);
    let r = dequantize_fp16(&q);
    assert_eq!(r.len(), data.len());
}

#[test]
fn int4_grouped_custom_group_size() {
    // Group size that does not evenly divide the element count exercises
    // the ragged-tail packing/unpacking path.
    let data = sample_data(70);
    let packed = quantize_int4_grouped(&data, 16);
    assert_eq!(packed.group_size, 16);
    assert_eq!(packed.num_elements, 70);
    // ceil(70/16) = 5 groups -> 5 scales.
    assert_eq!(packed.scales.len(), 5);
    let r = dequantize_int4(&packed);
    assert_eq!(r.len(), 70);
}

#[test]
fn int4_packed_size_matches_formula() {
    let data = sample_data(100);
    let packed = quantize_int4_grouped(&data, 32);
    // ceil(100/2) data bytes + ceil(100/32)*2 scale bytes.
    let expected = 100usize.div_ceil(2) + 100usize.div_ceil(32) * 2;
    assert_eq!(packed.size_bytes(), expected);
}

#[test]
fn quant_method_bits_and_display() {
    assert_eq!(QuantMethod::FP16.bits_per_element(), 16);
    assert_eq!(QuantMethod::FP8E4M3.bits_per_element(), 8);
    assert_eq!(QuantMethod::INT4.bits_per_element(), 4);
    assert_eq!(QuantMethod::FP16.to_string(), "FP16");
    assert_eq!(QuantMethod::FP8E4M3.to_string(), "FP8 (E4M3)");
    assert_eq!(QuantMethod::INT4.to_string(), "INT4 (grouped)");
}

#[test]
fn round_trip_empty_input() {
    let stats = round_trip_stats(&[], QuantMethod::FP8E4M3);
    assert_eq!(stats.num_elements, 0);
    assert_eq!(double(stats.mse), 0.0);
    assert_eq!(stats.compressed_bytes, 0);
}

#[test]
fn fp8_element_count_preserved() {
    let data = sample_data(137);
    let q = quantize_fp8(&data);
    let r = dequantize_fp8(&q);
    assert_eq!(r.len(), data.len());
}

#[test]
fn method_ratios() {
    assert_eq!(double(QuantMethod::FP16.compression_ratio()), 2.0);
    assert_eq!(double(QuantMethod::FP8E4M3.compression_ratio()), 4.0);
    assert_eq!(double(QuantMethod::INT4.compression_ratio()), 8.0);
}

#[test]
fn fp16_exact_values_over_several_chunks() {
    // More than two chunks, so that the order of the chunks shows.
    let n = 10_000;
    let data: Vec<Binary32> = (0..n).map(|i| single(i as f32 / 8.0)).collect();
    let q = quantize_fp16(&data);
    assert_eq!(q.len(), n);
    assert_eq!(q[0], Binary16 { bits: 0x0000 });
    assert_eq!(q[8], Binary16 { bits: 0x3C00 });
    assert_eq!(q[12], Binary16 { bits: 0x3E00 });
    assert_eq!(q[8192], Binary16 { bits: 0x6400 });
    let r = dequantize_fp16(&q);
    assert_eq!(number(r[8191]), 1024.0);
    assert_eq!(number(r[9999]), 1250.0);
    assert_eq!(number(r[4097]), 512.0);
    assert_eq!(number(r[4095]), 512.0);
}

#[test]
fn fp16_every_pattern_round_trips() {
    let all: Vec<Binary16> = (0..=u16::MAX).map(|bits| Binary16 { bits }).collect();
    let back = quantize_fp16(&dequantize_fp16(&all));
    for (h, r) in all.iter().zip(back.iter()) {
        if h.is_nan() {
            assert!(r.is_nan());
        } else {
            assert_eq!(h, r);
        }
    }
}

#[test]
fn fp8_order_over_several_chunks() {
    let n = 9_000;
    let data: Vec<Binary32> = (0..n).map(|i| single((i % 5) as f32)).collect();
    let q = quantize_fp8(&data);
    let codes = [0x00, 0x38, 0x40, 0x44, 0x48];
    for (i, byte) in q.iter().enumerate() {
        assert_eq!(*byte, codes[i % 5]);
    }
    let r = dequantize_fp8(&q);
    for (i, v) in r.iter().enumerate() {
        assert_eq!(number(*v), (i % 5) as f32);
    }
}

#[test]
fn fp8_ties_round_away_from_zero() {
    // Midway between 16 and 18, and between 18 and 20.
    assert_eq!(decode(encode(17.0)), 18.0);
    assert_eq!(decode(encode(19.0)), 20.0);
    assert_eq!(decode(encode(-17.0)), -18.0);
    // Midway between 1 and 2 steps of 2^-9.
    assert_eq!(decode(encode(1.5 / 512.0)), 2.0 / 512.0);
}

#[test]
fn fp8_rounding_carries_into_the_exponent() {
    assert_eq!(encode(1.96), 0x40);
    assert_eq!(encode(0.99), 0x38);
    assert_eq!(encode(464.0), 0x7E);
    assert_eq!(encode(f32::MAX), 0x7E);
}

#[test]
fn fp8_edges_of_the_subnormal_range() {
    // Just below the least magnitude everything goes to zero.
    assert_eq!(encode(0.99 / 512.0), 0x00);
    assert_eq!(encode(-0.99 / 512.0), 0x80);
    assert_eq!(encode(f32::from_bits(1)), 0x00);
    // Just below the least normal magnitude, rounding decides.
    assert_eq!(encode(7.4 / 512.0), 0x07);
    assert_eq!(encode(7.5 / 512.0), 0x08);
    assert_eq!(encode(7.9 / 512.0), 0x08);
    assert_eq!(encode(0.015), 0x08);
    assert_eq!(encode(-0.015), 0x88);
    assert_eq!(encode(8.0 / 512.0), 0x08);
}

#[test]
fn fp8_is_monotone_and_within_a_sixteenth() {
    let mut last = 0u8;
    let mut x = 0.0001_f32;
    while x < 448.0 {
        let byte = encode(x);
        assert!(byte >= last);
        last = byte;
        let back = decode(byte);
        if x >= 0.015625 {
            assert!((back - x).abs() * 16.0 <= x);
        } else if x >= 1.0 / 512.0 {
            assert!((back - x).abs() <= 0.5 / 512.0);
        } else {
            assert!((back - x).abs() < 1.0 / 512.0);
        }
        x *= 1.001;
    }
}

#[test]
fn fp8_no_byte_is_closer() {
    let mut x = 1.0 / 512.0_f32;
    while x < 1000.0 {
        let byte = encode(x);
        let error = (decode(byte) as f64 - x as f64).abs();
        for other in 0..0x7Fu8 {
            let other_error = (decode(other) as f64 - x as f64).abs();
            assert!(error < other_error || (error == other_error && other <= byte));
        }
        x *= 1.01;
    }
}

#[test]
fn int4_groups_do_not_affect_one_another() {
    let data = sample_data(60);
    for (n, g) in [(0usize, 5usize), (20, 5), (24, 8), (30, 3), (60, 4)] {
        let whole = quantize_int4_grouped(&data, g);
        let first = quantize_int4_grouped(&data[..n], g);
        let second = quantize_int4_grouped(&data[n..], g);
        assert_eq!(whole.data, [first.data, second.data].concat());
        assert_eq!(whole.scales, [first.scales, second.scales].concat());
    }
    // After an odd number of integers the scales and the numbers still agree.
    let whole = quantize_int4_grouped(&data, 5);
    let first = quantize_int4_grouped(&data[..15], 5);
    let second = quantize_int4_grouped(&data[15..], 5);
    let mut numbers = dequantize_int4(&first);
    numbers.extend(dequantize_int4(&second));
    assert_eq!(dequantize_int4(&whole), numbers);
    assert_eq!(whole.scales, [first.scales, second.scales].concat());
}

#[test]
fn int4_packs_low_nibble_first() {
    // The scale is 7 / 7, so that the numbers are their own integers.
    let data = singles(&[7.0, -7.0, 3.0, -1.0, 0.0]);
    let packed = quantize_int4(&data);
    assert_eq!(packed.scales, vec![Binary16 { bits: 0x3C00 }]);
    assert_eq!(packed.data, vec![0x97, 0xF3, 0x00]);
    assert_eq!(packed.num_elements, 5);
    assert_eq!(packed.group_size, INT4_GROUP_SIZE);
    let r: Vec<f32> = dequantize_int4(&packed).into_iter().map(number).collect();
    assert_eq!(r, vec![7.0, -7.0, 3.0, -1.0, 0.0]);
}

#[test]
fn int4_scales_each_group() {
    let data = singles(&[14.0, -2.0, 7.0, 1.0]);
    let packed = quantize_int4_grouped(&data, 2);
    assert_eq!(packed.scales, vec![Binary16 { bits: 0x4000 }, Binary16 { bits: 0x3C00 }]);
    assert_eq!(packed.data, vec![0xF7, 0x17]);
    let r: Vec<f32> = dequantize_int4(&packed).into_iter().map(number).collect();
    assert_eq!(r, vec![14.0, -2.0, 7.0, 1.0]);
}

#[test]
fn int4_odd_groups_share_a_byte() {
    let data = singles(&[7.0, 1.0, 2.0, 7.0, 3.0, 4.0]);
    let packed = quantize_int4_grouped(&data, 3);
    assert_eq!(packed.data, vec![0x17, 0x72, 0x43]);
    assert_eq!(packed.scales.len(), 2);
    assert_eq!(packed.size_bytes(), 7);
    let r: Vec<f32> = dequantize_int4(&packed).into_iter().map(number).collect();
    assert_eq!(r, vec![7.0, 1.0, 2.0, 7.0, 3.0, 4.0]);
}

#[test]
fn int4_leaves_nan_out_of_the_scale() {
    let data = singles(&[f32::NAN, 7.0, -3.0]);
    let packed = quantize_int4(&data);
    assert_eq!(packed.scales, vec![Binary16 { bits: 0x3C00 }]);
    let r: Vec<f32> = dequantize_int4(&packed).into_iter().map(number).collect();
    assert_eq!(r, vec![0.0, 7.0, -3.0]);
}

#[test]
fn int4_under_an_infinite_scale() {
    // A zero times an infinite scale is no number.
    let data = singles(&[f32::INFINITY, 0.0]);
    let packed = quantize_int4(&data);
    assert_eq!(packed.scales, vec![Binary16 { bits: 0x7C00 }]);
    assert_eq!(packed.data, vec![0x00]);
    for v in dequantize_int4(&packed) {
        assert!(v.is_nan());
    }
}

#[test]
fn int4_tiny_numbers_lose_their_scale() {
    // The scale is too small for binary16.
    let data = singles(&[1e-8, -1e-8]);
    let packed = quantize_int4(&data);
    assert_eq!(packed.scales, vec![Binary16 { bits: 0x0000 }]);
    assert_eq!(packed.data, vec![0x00]);
    for v in dequantize_int4(&packed) {
        assert_eq!(number(v), 0.0);
    }
}

#[test]
fn int4_of_nothing() {
    let packed = quantize_int4(&[]);
    assert!(packed.data.is_empty());
    assert!(packed.scales.is_empty());
    assert_eq!(packed.size_bytes(), 0);
    assert!(dequantize_int4(&packed).is_empty());
}

#[test]
fn int4_reads_data_of_other_makers() {
    let packed = Int4Packed {
        data: vec![0x8F, 0x01],
        scales: vec![Binary16 { bits: 0x3800 }],
        group_size: 4,
        num_elements: 3,
    };
    let r: Vec<f32> = dequantize_int4(&packed).into_iter().map(number).collect();
    assert_eq!(r, vec![-0.5, -4.0, 0.5]);
}

#[test]
fn int4_over_many_groups() {
    let data = sample_data(10_000);
    let packed = quantize_int4_grouped(&data, 7);
    assert_eq!(packed.scales.len(), 1429);
    let r = dequantize_int4(&packed);
    assert_eq!(r.len(), data.len());
    for (v, w) in data.iter().zip(r.iter()) {
        assert!((number(*v) - number(*w)).abs() < 0.08);
    }
}

#[test]
fn stats_are_exact() {
    // 1.0 and 0.5 survive, 17 becomes 18.
    let data = singles(&[1.0, 0.5, 17.0, -17.0]);
    let stats = round_trip_stats(&data, QuantMethod::FP8E4M3);
    assert_eq!(stats.method, QuantMethod::FP8E4M3);
    assert_eq!(double(stats.mse), 0.5);
    assert_eq!(double(stats.max_error), 1.0);
    assert_eq!(double(stats.mean_error), 0.5);
    assert_eq!(stats.num_elements, 4);
    assert_eq!(stats.original_bytes, 16);
    assert_eq!(stats.compressed_bytes, 4);
    assert_eq!(ratio(&stats), 4.0);
}

#[test]
fn stats_sizes_of_each_method() {
    let data = sample_data(100);
    assert_eq!(round_trip_stats(&data, QuantMethod::FP16).compressed_bytes, 200);
    assert_eq!(round_trip_stats(&data, QuantMethod::FP8E4M3).compressed_bytes, 100);
    assert_eq!(round_trip_stats(&data, QuantMethod::INT4).compressed_bytes, 58);
}

#[test]
fn stats_leave_nan_out_of_the_largest_error() {
    let data = singles(&[f32::NAN, 17.0]);
    let stats = round_trip_stats(&data, QuantMethod::FP8E4M3);
    assert_eq!(double(stats.max_error), 1.0);
    assert!(double(stats.mse).is_nan());
    assert!(double(stats.mean_error).is_nan());
}

#[test]
fn int4_stays_within_half_a_scale() {
    let data = sample_data(1000);
    let packed = quantize_int4(&data);
    let r = dequantize_int4(&packed);
    for (i, (v, w)) in data.iter().zip(r.iter()).enumerate() {
        let scale = number(packed.scales[i / INT4_GROUP_SIZE].widen());
        let error = (number(*v) as f64 - number(*w) as f64).abs();
        assert!(error * 2000.0 <= 1001.0 * scale as f64);
        assert!(number(*v).abs() * 100.0 <= 701.0 * scale);
    }
}

#[test]
fn int4_size_for_every_group_size() {
    for n in 0..40usize {
        let data = sample_data(n);
        for g in 1..45usize {
            let packed = quantize_int4_grouped(&data, g);
            assert_eq!(packed.data.len(), n.div_ceil(2));
            assert_eq!(packed.scales.len(), n.div_ceil(g));
            assert_eq!(dequantize_int4(&packed).len(), n);
        }
    }
}

#[test]
fn int4_stays_within_72_thousandths_of_the_largest() {
    let data = sample_data(1000);
    for g in [1usize, 3, 8, 33] {
        let r = dequantize_int4(&quantize_int4_grouped(&data, g));
        for (i, (v, w)) in data.iter().zip(r.iter()).enumerate() {
            let start = i / g * g;
            let end = (start + g).min(data.len());
            let max = data[start..end]
                .iter()
                .map(|x| number(*x).abs())
                .fold(0.0, f32::max);
            let error = (number(*v) as f64 - number(*w) as f64).abs();
            assert!(error <= 0.072 * max as f64);
        }
    }
}

#[test]
fn int4_of_its_own_output_changes_nothing() {
    let mut data = sample_data(1000);
    for v in data.iter_mut().take(64) {
        *v = single(0.0);
    }
    data[70] = single(458528.0);
    data[200] = single(-400000.0);
    for g in [1usize, 2, 5, 32, 2000] {
        let first = quantize_int4_grouped(&data, g);
        let second = quantize_int4_grouped(&dequantize_int4(&first), g);
        assert_eq!(second.data, first.data);
        assert_eq!(second.scales, first.scales);
        assert_eq!(second.group_size, first.group_size);
        assert_eq!(second.num_elements, first.num_elements);
    }
}

#[test]
fn fp16_stays_within_one_part_in_2048() {
    let data = sample_data(1000);
    let r = dequantize_fp16(&quantize_fp16(&data));
    for (v, w) in data.iter().zip(r.iter()) {
        let (x, y) = (number(*v) as f64, number(*w) as f64);
        if x.abs() >= 1.0 / 16384.0 {
            assert!((x - y).abs() * 2048.0 <= x.abs());
        }
    }
}
