//! Sizes and counts as text.
use diskscope::format::{human_size, thousands};

#[test]
fn formats_bytes_without_decimals() {
    assert_eq!(human_size(0), "0 B");
    assert_eq!(human_size(1), "1 B");
    assert_eq!(human_size(1023), "1023 B");
}

#[test]
fn formats_each_binary_unit() {
    assert_eq!(human_size(1024), "1.0 KB");
    assert_eq!(human_size(1_572_864), "1.5 MB");
    assert_eq!(human_size(1024 * 1024 * 1024), "1.0 GB");
    assert_eq!(human_size(1024u64.pow(4)), "1.0 TB");
    assert_eq!(human_size(1024u64.pow(5)), "1.0 PB");
}

#[test]
fn saturates_at_largest_unit() {
    // Far beyond a petabyte still reports in PB rather than panicking.
    assert!(human_size(u64::MAX).ends_with(" PB"));
    assert_eq!(human_size(u64::MAX), "16384.0 PB");
}

/// The same text from floating-point arithmetic.
fn by_floats(bytes: u64) -> String {
    let units = ["B", "KB", "MB", "GB", "TB", "PB"];
    let mut size = bytes as f64;
    let mut unit = 0;
    while size >= 1024.0 && unit < units.len() - 1 {
        size /= 1024.0;
        unit += 1;
    }
    if unit == 0 {
        format!("{bytes} {}", units[unit])
    } else {
        format!("{size:.1} {}", units[unit])
    }
}

#[test]
fn sizes_agree_with_double_precision() {
    let mut sizes: Vec<u64> = vec![0, 1, 1023, 1024, 1025, 1280, 1331, 1332, 1792, u64::MAX, u64::MAX - 1024, u64::MAX - 1025];
    for shift in 10..64u32 {
        let base = 1u64 << shift;
        for delta in 0..40u64 {
            sizes.push(base + delta);
            sizes.push(base - delta);
            sizes.push(base.wrapping_add((base / 40) * delta));
            // Ties: quarters of a unit, and just beside them.
            let unit = 1u64 << (shift / 10 * 10);
            sizes.push(base.wrapping_add(unit / 4 * delta));
            sizes.push(base.wrapping_add(unit / 20 * delta).wrapping_add(1));
            sizes.push(base.wrapping_add(unit / 20 * delta));
        }
    }
    let mut x: u64 = 0x9e37_79b9_7f4a_7c15;
    for _ in 0..20_000 {
        x ^= x << 13;
        x ^= x >> 7;
        x ^= x << 17;
        sizes.push(x);
        sizes.push(x >> (x % 60));
    }
    for bytes in sizes {
        assert_eq!(human_size(bytes), by_floats(bytes), "of {bytes}");
    }
}

#[test]
fn ties_go_to_the_even_digit() {
    assert_eq!(human_size(1280), "1.2 KB"); // 1.25
    assert_eq!(human_size(1792), "1.8 KB"); // 1.75
}

#[test]
fn groups_thousands() {
    assert_eq!(thousands(0), "0");
    assert_eq!(thousands(7), "7");
    assert_eq!(thousands(999), "999");
    assert_eq!(thousands(1000), "1,000");
    assert_eq!(thousands(1_234_567), "1,234,567");
    assert_eq!(thousands(1_000_000), "1,000,000");
    assert_eq!(thousands(u64::MAX), "18,446,744,073,709,551,615");
}

#[test]
fn grouping_only_adds_commas() {
    for n in [0u64, 10, 12_345, 99_999_999, u64::MAX] {
        let text = thousands(n);
        assert_eq!(text.replace(',', ""), format!("{n}"));
        for (i, c) in text.chars().rev().enumerate() {
            assert_eq!(c == ',', i % 4 == 3);
        }
    }
}
