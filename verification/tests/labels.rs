use file_tools::size_label::fsize;

fn float_label(b: u64) -> String {
    if b < 1024 {
        format!("{b} B")
    } else if b < 1_048_576 {
        format!("{:.1} KB", b as f64 / 1024.0)
    } else if b < 1_073_741_824 {
        format!("{:.2} MB", b as f64 / 1_048_576.0)
    } else {
        format!("{:.2} GB", b as f64 / 1_073_741_824.0)
    }
}

#[test]
fn fsize_exact_values() {
    assert_eq!(fsize(0), "0 B");
    assert_eq!(fsize(1023), "1023 B");
    assert_eq!(fsize(1024), "1.0 KB");
    assert_eq!(fsize(1536), "1.5 KB");
    assert_eq!(fsize(1_048_576), "1.00 MB");
    assert_eq!(fsize(1_073_741_824), "1.00 GB");
    assert_eq!(fsize(u64::MAX), "17179869184.00 GB");
}

#[test]
fn fsize_matches_float_formatting_at_ties() {
    // Values whose quotient lies exactly halfway between two printed decimals.
    for k in 0..4000u64 {
        let kb = 1024 + k * 51 + (k % 7);
        assert_eq!(fsize(kb), float_label(kb), "at {kb}");
        let tie_kb = 1024 * (2 * k + 1) / 20 + 1024;
        assert_eq!(fsize(tie_kb), float_label(tie_kb), "at {tie_kb}");
        let tie_mb = 1_048_576 + 1_048_576 / 200 * (2 * k + 1);
        assert_eq!(fsize(tie_mb), float_label(tie_mb), "at {tie_mb}");
    }
}

#[test]
fn fsize_matches_float_formatting_across_ranges() {
    let mut b: u64 = 1;
    let mut seed: u64 = 0x9E37_79B9_7F4A_7C15;
    while b < u64::MAX / 3 {
        for delta in [0u64, 1, 2, 511, 512, 513] {
            let v = b.saturating_add(delta);
            assert_eq!(fsize(v), float_label(v), "at {v}");
            let w = b.saturating_sub(delta);
            assert_eq!(fsize(w), float_label(w), "at {w}");
        }
        seed ^= seed << 13;
        seed ^= seed >> 7;
        seed ^= seed << 17;
        let r = seed % b.max(1);
        assert_eq!(fsize(b + r), float_label(b + r), "at {}", b + r);
        b = b * 3 + 1;
    }
    // Above 2^53 the count itself is rounded to a float first.
    for v in [
        (1u64 << 53) + 1,
        (1u64 << 54) + 2,
        (1u64 << 54) + 6,
        (1u64 << 60) + (1 << 7),
        (1u64 << 60) + (3 << 7),
        u64::MAX,
        u64::MAX - 1024,
    ] {
        assert_eq!(fsize(v), float_label(v), "at {v}");
    }
}
