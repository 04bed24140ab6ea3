use r_vlr_util::display::approximate_data_size;

#[test]
fn formats_sizes() {
    assert_eq!(approximate_data_size(512), "512.00 bytes");
    assert_eq!(approximate_data_size(2048), "2.00 KB");
}

#[test]
fn sizes_use_binary_thresholds_and_round_to_even() {
    assert_eq!(approximate_data_size(0), "0.00 bytes");
    assert_eq!(approximate_data_size(1024), "1024.00 bytes");
    assert_eq!(approximate_data_size(1025), "1.00 KB");
    assert_eq!(approximate_data_size(1536), "1.50 KB");
    assert_eq!(approximate_data_size(1152), format!("{:.2} KB", 1152.0_f64 / 1024.0));
    assert_eq!(approximate_data_size(3 * 1024 * 1024), "3.00 MB");
    assert_eq!(approximate_data_size(5 * 1024 * 1024 * 1024), "5.00 GB");
    assert_eq!(approximate_data_size(2048 * 1024 * 1024 * 1024), "2048.00 GB(big)");
    assert_eq!(approximate_data_size(-5), "-5.00 bytes");
}

#[test]
fn sizes_agree_with_float_formatting() {
    let samples: [i64; 10] = [
        -9_007_199_254_740_993,
        i64::MIN,
        i64::MAX,
        1_099_511_627_777,
        123_456_789,
        987_654,
        1_048_577,
        1_073_741_825,
        9_007_199_254_740_993,
        -1,
    ];
    let units: [(&str, i64); 4] = [("bytes", 1), ("KB", 1024), ("MB", 1024 * 1024), ("GB", 1024 * 1024 * 1024)];
    for bytes in samples {
        let mut expected = None;
        for (name, count) in units {
            if bytes <= count * 1024 {
                expected = Some(format!("{:.2} {name}", bytes as f64 / count as f64));
                break;
            }
        }
        let expected = expected.unwrap_or_else(|| format!("{:.2} GB(big)", bytes as f64 / (1024_i64.pow(3)) as f64));
        assert_eq!(approximate_data_size(bytes), expected);
    }
}
