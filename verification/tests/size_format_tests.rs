use urso_capture::size_format::format_size;

fn float_label(bytes: u64) -> String {
    if bytes < 1024 {
        format!("{} B", bytes)
    } else if bytes < 1024 * 1024 {
        format!("{:.1} KB", bytes as f64 / 1024.0)
    } else if bytes < 1024 * 1024 * 1024 {
        format!("{:.1} MB", bytes as f64 / (1024.0 * 1024.0))
    } else {
        format!("{:.2} GB", bytes as f64 / (1024.0 * 1024.0 * 1024.0))
    }
}

#[test]
fn directories_are_folders() {
    assert_eq!(format_size(0, true), "Pasta");
    assert_eq!(format_size(123456, true), "Pasta");
}

#[test]
fn exact_values() {
    assert_eq!(format_size(0, false), "0 B");
    assert_eq!(format_size(1023, false), "1023 B");
    assert_eq!(format_size(1024, false), "1.0 KB");
    assert_eq!(format_size(1536, false), "1.5 KB");
    assert_eq!(format_size(1048575, false), "1024.0 KB");
    assert_eq!(format_size(1048576, false), "1.0 MB");
    assert_eq!(format_size(1073741824, false), "1.00 GB");
    assert_eq!(format_size(u64::MAX, false), "17179869184.00 GB");
}

#[test]
fn halves_round_to_even() {
    // 1.25 KB and 1.75 KB are exact ties at one decimal
    assert_eq!(format_size(1280, false), "1.2 KB");
    assert_eq!(format_size(1792, false), "1.8 KB");
    assert_eq!(format_size(1280, false), float_label(1280));
    assert_eq!(format_size(1792, false), float_label(1792));
}

#[test]
fn matches_float_formatting_on_many_sizes() {
    let mut v: u64 = 1;
    while v < u64::MAX / 3 {
        for d in [0u64, 1, 2, 511, 512, 513] {
            for b in [v, v + d, v.saturating_sub(d), v * 3 / 2] {
                assert_eq!(format_size(b, false), float_label(b), "bytes {}", b);
            }
        }
        v = v * 2 + 1;
    }
    for b in 0..5000u64 {
        assert_eq!(format_size(b, false), float_label(b), "bytes {}", b);
    }
    let mut x: u64 = 0x9e3779b97f4a7c15;
    for _ in 0..20000 {
        x ^= x << 13;
        x ^= x >> 7;
        x ^= x << 17;
        for b in [x, x >> 20, x >> 34, x >> 44, x >> 54] {
            assert_eq!(format_size(b, false), float_label(b), "bytes {}", b);
        }
    }
}

#[test]
fn float_rounding_of_huge_sizes() {
    // sizes above 2^53 pass through the rounding of a 64-bit float
    for b in [
        (1u64 << 53) + 1,
        (1u64 << 60) + 12345,
        (1u64 << 63) + (1u64 << 10),
        u64::MAX - 1,
        u64::MAX - 2048,
    ] {
        assert_eq!(format_size(b, false), float_label(b), "bytes {}", b);
    }
}
