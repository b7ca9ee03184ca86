use kv_squeeze::float::Binary64;
use kv_squeeze::simulator::{parse_budget, parse_lowercase_budget, simulate_single};
use kv_squeeze::{simulate_cache, ModelConfig, QuantMethod};

fn double(v: Binary64) -> f64 {
    f64::from_bits(v.bits)
}

#[test]
fn parse_budget_gb() {
    assert_eq!(parse_budget("2gb"), Some(2 * 1024 * 1024 * 1024));
    assert_eq!(parse_budget("1GB"), Some(1024 * 1024 * 1024));
}

#[test]
fn parse_budget_mb() {
    assert_eq!(parse_budget("512mb"), Some(512 * 1024 * 1024));
}

#[test]
fn model_7b_cache_size() {
    let m = ModelConfig::preset_7b();
    // 32 layers * 2(K+V) * 32 heads * 128 dim * 4 bytes = 1,048,576 bytes/token
    // At 4096 tokens: 4,294,967,296 bytes = 4 GB
    let size = m.cache_size_bytes(4096);
    assert_eq!(size, 32 * 2 * 32 * 128 * 4 * 4096);
}

#[test]
fn parse_budget_kb_plain_and_invalid() {
    assert_eq!(parse_budget("4kb"), Some(4 * 1024));
    assert_eq!(parse_budget("1048576"), Some(1_048_576));
    assert_eq!(parse_budget("  2 gb "), Some(2 * 1024 * 1024 * 1024));
    assert_eq!(parse_budget("garbage"), None);
    assert_eq!(parse_budget("gb"), None);
}

#[test]
fn gqa_70b_has_fewer_kv_heads() {
    let m = ModelConfig::preset_70b();
    // 70B preset uses GQA: only 8 KV heads despite 80 layers.
    assert_eq!(m.num_kv_heads, 8);
    // Per-token bytes: 2(K+V) * 8 heads * 128 dim * 4 bytes = 8192.
    assert_eq!(m.bytes_per_token_fp32(), 2 * 8 * 128 * 4);
}

#[test]
fn simulate_single_reports_method_ratio() {
    let r = simulate_single(32, 128, 4096, QuantMethod::INT4);
    assert_eq!(r.compression_ratio, QuantMethod::INT4.compression_ratio());
    assert_eq!(r.baseline_bytes, 2 * 32 * 128 * 4 * 4096);
    // INT4 nominal 8x.
    assert_eq!(r.compressed_bytes, r.baseline_bytes / 8);
}

#[test]
fn simulate_eviction_reduces_effective_context() {
    let config = ModelConfig::preset_7b();
    // Tiny budget forces eviction to cap effective context below requested.
    let results = simulate_cache(&config, 8192, 256 * 1024 * 1024);
    let evicted: Vec<_> = results
        .iter()
        .filter(|r| r.eviction_strategy.is_some())
        .collect();
    assert!(!evicted.is_empty());
    for r in evicted {
        assert!(
            r.effective_context <= r.context_len,
            "effective context must not exceed requested context"
        );
    }
}

#[test]
fn simulate_produces_results() {
    let config = ModelConfig::preset_7b();
    let results = simulate_cache(&config, 2048, 2 * 1024 * 1024 * 1024);
    assert!(!results.is_empty());
    // Should have baseline + 3 quant methods, each with None + 2 eviction = 12 total
    assert_eq!(results.len(), 12);
}

#[test]
fn presets() {
    let a = ModelConfig::preset_7b();
    assert_eq!(a.name, "7B (32-layer, 32-head, dim 128)");
    assert_eq!((a.num_layers, a.num_kv_heads, a.head_dim), (32, 32, 128));
    let b = ModelConfig::preset_13b();
    assert_eq!(b.name, "13B (40-layer, 40-head, dim 128)");
    assert_eq!((b.num_layers, b.num_kv_heads, b.head_dim), (40, 40, 128));
    let c = ModelConfig::preset_70b();
    assert_eq!(c.name, "70B (80-layer, 8 KV-head, dim 128)");
    assert_eq!((c.num_layers, c.num_kv_heads, c.head_dim), (80, 8, 128));
    assert_eq!(b.bytes_per_token_fp32(), 40960);
    assert_eq!(b.cache_size_bytes(10), 16_384_000);
    assert_eq!(b.cache_size_bytes(0), 0);
}

#[test]
fn simulation_rows() {
    let config = ModelConfig::preset_7b();
    let budget = 256 * 1024 * 1024;
    let rows = simulate_cache(&config, 1024, budget);
    let baseline = 1024 * 1024 * 1024;
    let methods = [
        None,
        Some(QuantMethod::FP16),
        Some(QuantMethod::FP8E4M3),
        Some(QuantMethod::INT4),
    ];
    let ratios = [1, 2, 4, 8];
    for (i, method) in methods.iter().enumerate() {
        let full = &rows[3 * i];
        assert_eq!(full.model_name, config.name);
        assert_eq!(full.context_len, 1024);
        assert_eq!(full.baseline_bytes, baseline);
        assert_eq!(full.compressed_bytes, baseline / ratios[i]);
        assert_eq!(full.quant_method, *method);
        assert_eq!(full.eviction_strategy, None);
        assert_eq!(full.effective_context, 1024);
        assert_eq!(double(full.compression_ratio), ratios[i] as f64);
        assert_eq!(full.fits_in_budget, ratios[i] >= 4);
        assert_eq!(full.budget_bytes, budget);
        for (j, label) in ["Sliding Window (sink=4)", "H2O (sink=4)"].iter().enumerate() {
            let row = &rows[3 * i + 1 + j];
            let kept = [256, 512, 1024, 1024][i];
            let size = [256, 256, 256, 128][i] * 1024 * 1024;
            assert_eq!(row.eviction_strategy.as_deref(), Some(*label));
            assert_eq!(row.quant_method, *method);
            assert_eq!(row.effective_context, kept);
            assert_eq!(row.compressed_bytes, size);
            assert_eq!(double(row.compression_ratio), baseline as f64 / size as f64);
            assert!(row.fits_in_budget);
        }
    }
}

#[test]
fn simulation_of_an_empty_model() {
    let config = ModelConfig {
        name: "empty".to_string(),
        num_layers: 0,
        num_kv_heads: 4,
        head_dim: 4,
    };
    for row in simulate_cache(&config, 10, 0) {
        assert_eq!(row.baseline_bytes, 0);
        assert_eq!(row.compressed_bytes, 0);
        assert_eq!(row.effective_context, 10);
        assert_eq!(double(row.compression_ratio), 0.0);
        assert!(row.fits_in_budget);
    }
}

#[test]
fn simulation_without_budget() {
    for row in simulate_cache(&ModelConfig::preset_70b(), 16, 0) {
        if row.eviction_strategy.is_some() {
            assert_eq!(row.effective_context, 0);
            assert_eq!(row.compressed_bytes, 0);
            assert!(row.fits_in_budget);
        } else {
            assert!(!row.fits_in_budget);
        }
    }
}

#[test]
fn single_layer() {
    let r = simulate_single(32, 128, 4096, QuantMethod::FP16);
    assert_eq!(r.model_name, "32 heads x 128 dim");
    assert_eq!(r.context_len, 4096);
    assert_eq!(r.effective_context, 4096);
    assert_eq!(r.compressed_bytes, 67_108_864);
    assert_eq!(r.quant_method, Some(QuantMethod::FP16));
    assert_eq!(r.eviction_strategy, None);
    assert!(r.fits_in_budget);
    assert_eq!(r.budget_bytes, 0);
    assert_eq!(double(r.baseline_mb()), 128.0);
    assert_eq!(double(r.compressed_mb()), 64.0);
    assert_eq!(double(r.baseline_gb()), 0.125);
    assert_eq!(double(r.compressed_gb()), 0.0625);
    assert_eq!(simulate_single(0, 1000, 7, QuantMethod::INT4).model_name, "0 heads x 1000 dim");
}

#[test]
fn budgets_with_fractions_and_signs() {
    assert_eq!(parse_budget("1.5gb"), Some(1_610_612_736));
    assert_eq!(parse_budget("0.5KB"), Some(512));
    assert_eq!(parse_budget(".25mb"), Some(262_144));
    assert_eq!(parse_budget("1e3kb"), Some(1_024_000));
    assert_eq!(parse_budget("+2mb"), Some(2_097_152));
    assert_eq!(parse_budget("-2mb"), Some(0));
    assert_eq!(parse_budget("0.0001kb"), Some(0));
    assert_eq!(parse_budget("nankb"), Some(0));
    assert_eq!(parse_budget("infgb"), Some(usize::MAX));
    assert_eq!(parse_budget("1e300gb"), Some(usize::MAX));
    assert_eq!(parse_budget("+42"), Some(42));
    assert_eq!(parse_budget("18446744073709551615"), Some(usize::MAX));
}

#[test]
fn budgets_in_each_unit_agree() {
    let n = 3usize;
    let bytes = Some(n << 30);
    for (a, gap, b) in [("", "", ""), (" ", " ", " "), ("\t\n", "\u{a0}", "\u{2028}")] {
        for (gb, mb, kb) in [("gb", "mb", "kb"), ("GB", "MB", "KB"), ("gB", "Mb", "kB")] {
            assert_eq!(parse_budget(&format!("{a}{n}{gap}{gb}{b}")), bytes);
            assert_eq!(parse_budget(&format!("{a}{}{gap}{mb}{b}", n << 10)), bytes);
            assert_eq!(parse_budget(&format!("{a}{}{gap}{kb}{b}", n << 20)), bytes);
        }
        assert_eq!(parse_budget(&format!("{a}{}{b}", n << 30)), bytes);
    }
}

#[test]
fn every_whitespace_may_stand_before_the_unit() {
    for c in (0..=0x10FFFFu32).filter_map(char::from_u32) {
        if c.is_whitespace() {
            assert_eq!(parse_budget(&format!("5{c}KB")), Some(5120));
            assert_eq!(parse_budget(&format!("{c}5KB{c}")), Some(5120));
        }
    }
}

#[test]
fn budgets_that_are_none() {
    for s in [
        "", " ", "+", "-1", "1.5", "1e3", "1 000", "18446744073709551616", "mb", ".kb", "1..2gb",
        "e5mb", "1e mb", "0x10kb", "2 g b", "inf", "2tb",
    ] {
        assert_eq!(parse_budget(s), None, "{}", s);
    }
}

#[test]
fn budgets_go_through_lower_case() {
    // The Kelvin sign has the lower case of the letter.
    assert_eq!(parse_budget("4\u{212A}B"), Some(4096));
    assert_eq!(parse_lowercase_budget("4\u{212A}B"), None);
    assert_eq!(parse_lowercase_budget("4kb"), Some(4096));
    assert_eq!(parse_lowercase_budget("4KB"), None);
    // Spaces of any kind, around and before the unit.
    assert_eq!(parse_budget("\u{3000}8\u{2003}Mb\n"), Some(8 * 1024 * 1024));
}
