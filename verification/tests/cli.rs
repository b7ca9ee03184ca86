use kv_squeeze::cli::{
    best_fit, count_elements, eviction_label, fitting, format_bytes, generate_kv_data, method_label,
    parse_lowercase_method, parse_lowercase_model, parse_method, parse_model, project_savings,
};
use kv_squeeze::simulator::simulate_cache;
use kv_squeeze::text::{is_whitespace, parse_usize, trim};
use kv_squeeze::{ModelConfig, QuantMethod};

#[test]
fn methods_by_name() {
    assert_eq!(parse_method("fp16"), Ok(QuantMethod::FP16));
    assert_eq!(parse_method("FP8"), Ok(QuantMethod::FP8E4M3));
    assert_eq!(parse_method("fp8E4m3"), Ok(QuantMethod::FP8E4M3));
    assert_eq!(parse_method("E4M3"), Ok(QuantMethod::FP8E4M3));
    assert_eq!(parse_method("int4"), Ok(QuantMethod::INT4));
    assert_eq!(parse_method("I4"), Ok(QuantMethod::INT4));
    assert_eq!(
        parse_method("FP32"),
        Err("Unknown method 'fp32'. Use: fp16, fp8, int4".to_string())
    );
    assert_eq!(
        parse_method(" fp8"),
        Err("Unknown method ' fp8'. Use: fp16, fp8, int4".to_string())
    );
    assert_eq!(
        parse_lowercase_method("FP8"),
        Err("Unknown method 'FP8'. Use: fp16, fp8, int4".to_string())
    );
    assert_eq!(
        parse_method("\u{c4}"),
        Err("Unknown method '\u{e4}'. Use: fp16, fp8, int4".to_string())
    );
}

#[test]
fn models_by_name() {
    assert_eq!(parse_model("7B").unwrap().num_layers, 32);
    assert_eq!(parse_model("13b").unwrap().num_layers, 40);
    assert_eq!(parse_model("70B").unwrap().num_kv_heads, 8);
    assert_eq!(
        parse_model("8B").unwrap_err(),
        "Unknown model '8b'. Use: 7b, 13b, 70b"
    );
    assert_eq!(
        parse_lowercase_model("7B").unwrap_err(),
        "Unknown model '7B'. Use: 7b, 13b, 70b"
    );
    assert_eq!(parse_lowercase_model("7b").unwrap().head_dim, 128);
}

#[test]
fn sizes_for_display() {
    assert_eq!(format_bytes(0), "0 B");
    assert_eq!(format_bytes(1023), "1023 B");
    assert_eq!(format_bytes(1024), "1.0 KB");
    assert_eq!(format_bytes(1536), "1.5 KB");
    assert_eq!(format_bytes(1024 * 1024 - 1), "1024.0 KB");
    assert_eq!(format_bytes(1024 * 1024), "1.0 MB");
    assert_eq!(format_bytes(2_147_483_648), "2.00 GB");
    assert_eq!(format_bytes(1_610_612_736), "1.50 GB");
    // Ties go to the even digit.
    assert_eq!(format_bytes(1024 + 256), "1.2 KB");
    assert_eq!(format_bytes(1024 + 768), "1.8 KB");
}

#[test]
fn sizes_are_shown_as_std_shows_them() {
    let mut x: u64 = 12345;
    for i in 0..3000u32 {
        x = x.wrapping_mul(6364136223846793005).wrapping_add(1442695040888963407);
        let n = (x >> (i % 60)) as usize;
        let expected = if n >= 1024 * 1024 * 1024 {
            format!("{:.2} GB", n as f64 / (1024.0 * 1024.0 * 1024.0))
        } else if n >= 1024 * 1024 {
            format!("{:.1} MB", n as f64 / (1024.0 * 1024.0))
        } else if n >= 1024 {
            format!("{:.1} KB", n as f64 / 1024.0)
        } else {
            format!("{} B", n)
        };
        assert_eq!(format_bytes(n), expected);
    }
    assert_eq!(format_bytes(usize::MAX), "17179869184.00 GB");
}

#[test]
fn generated_data_is_that_of_the_machine() {
    let data = generate_kv_data(2000);
    assert_eq!(data.len(), 2000);
    let mut state: u64 = 0xDEADBEEF_CAFEBABE;
    for v in &data {
        state ^= state << 13;
        state ^= state >> 7;
        state ^= state << 17;
        let expected = (state as f32 / u64::MAX as f32) * 4.0 - 2.0;
        assert_eq!(v.bits, expected.to_bits());
        assert!(expected.abs() <= 2.0);
    }
    assert!(generate_kv_data(0).is_empty());
}

#[test]
fn elements_of_a_layer() {
    assert_eq!(count_elements(32, 128, 4096), Some(33_554_432));
    assert_eq!(count_elements(0, usize::MAX, usize::MAX), Some(0));
    assert_eq!(count_elements(usize::MAX, 1, 0), Some(0));
    assert_eq!(count_elements(usize::MAX, 1, 1), None);
    assert_eq!(count_elements(1, usize::MAX, 1), None);
    assert_eq!(count_elements(1 << 31, 1 << 31, 1 << 31), None);
}

#[test]
fn which_configurations_fit() {
    let rows = simulate_cache(&ModelConfig::preset_7b(), 1024, 256 * 1024 * 1024);
    let fit = fitting(&rows);
    assert_eq!(fit, vec![1, 2, 4, 5, 6, 7, 8, 9, 10, 11]);
    assert!(fitting(&[]).is_empty());
    assert_eq!(best_fit(&rows), Some(11));
    assert_eq!(best_fit(&rows[..4]), Some(2));
    assert_eq!(best_fit(&rows[..1]), None);
    assert_eq!(best_fit(&[]), None);
}

#[test]
fn savings_of_a_method() {
    assert_eq!(project_savings(1000, QuantMethod::FP16), Some((500, 500)));
    assert_eq!(project_savings(1001, QuantMethod::FP8E4M3), Some((250, 751)));
    assert_eq!(project_savings(0, QuantMethod::INT4), Some((0, 0)));
}

#[test]
fn labels() {
    assert_eq!(method_label(None), "FP32");
    assert_eq!(method_label(Some(QuantMethod::INT4)), "INT4 (grouped)");
    assert_eq!(eviction_label(&None), "None");
    assert_eq!(eviction_label(&Some("H2O (sink=4)".to_string())), "H2O (sink=4)");
}

#[test]
fn whitespace_is_that_of_std() {
    for n in 0..=0x10FFFFu32 {
        if let Some(c) = char::from_u32(n) {
            assert_eq!(is_whitespace(c), c.is_whitespace(), "{:x}", n);
        }
    }
}

#[test]
fn trimming_is_that_of_std() {
    for s in ["", " ", "a", " a", "a ", "\t a b \n", "\u{3000}x\u{2003}", "  "] {
        let chars: Vec<char> = s.chars().collect();
        let got: String = trim(&chars).iter().collect();
        assert_eq!(got, s.trim());
    }
}

#[test]
fn whole_numbers_are_read_as_std_reads_them() {
    for s in [
        "", "+", "-", "0", "+0", "-0", "00012", "12a", "1 ", "18446744073709551615",
        "18446744073709551616", "99999999999999999999999", "++1", "1+", "1.0",
    ] {
        let chars: Vec<char> = s.chars().collect();
        assert_eq!(parse_usize(&chars), s.parse::<usize>().ok(), "{}", s);
    }
}
