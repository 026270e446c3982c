use dircompare::size::fmt_size;

/// The sizes as the floating-point formatting of the standard library shows them.
fn float_text(bytes: u64) -> String {
    const KB: u64 = 1024;
    const MB: u64 = KB * 1024;
    const GB: u64 = MB * 1024;
    if bytes >= GB {
        format!("{:.2} GB", bytes as f64 / GB as f64)
    } else if bytes >= MB {
        format!("{:.2} MB", bytes as f64 / MB as f64)
    } else if bytes >= KB {
        format!("{:.1} KB", bytes as f64 / KB as f64)
    } else {
        format!("{} B", bytes)
    }
}

#[test]
fn fmt_size_bytes() {
    assert_eq!(fmt_size(0), "0 B");
    assert_eq!(fmt_size(1), "1 B");
    assert_eq!(fmt_size(512), "512 B");
    assert_eq!(fmt_size(1023), "1023 B");
}

#[test]
fn fmt_size_kilobytes() {
    assert_eq!(fmt_size(1024), "1.0 KB");
    assert_eq!(fmt_size(1536), "1.5 KB");
    assert_eq!(fmt_size(10 * 1024 + 100), "10.1 KB");
    assert_eq!(fmt_size(1048575), "1024.0 KB");
}

#[test]
fn fmt_size_megabytes() {
    assert_eq!(fmt_size(1048576), "1.00 MB");
    assert_eq!(fmt_size(1048576 * 3 / 2), "1.50 MB");
    assert_eq!(fmt_size(1073741823), "1024.00 MB");
}

#[test]
fn fmt_size_gigabytes() {
    assert_eq!(fmt_size(1073741824), "1.00 GB");
    assert_eq!(fmt_size(5 * 1073741824 + 1073741824 / 4), "5.25 GB");
    assert_eq!(fmt_size(u64::MAX), "17179869184.00 GB");
}

#[test]
fn fmt_size_ties_go_to_even() {
    // 1.25 KiB and 1.35 KiB (not exact) with one place; 1.125 MiB with two.
    assert_eq!(fmt_size(1280), float_text(1280));
    assert_eq!(fmt_size(1280), "1.2 KB");
    assert_eq!(fmt_size(1792), float_text(1792));
    assert_eq!(fmt_size(1048576 + 131072), float_text(1048576 + 131072));
    assert_eq!(fmt_size(1048576 + 131072), "1.12 MB");
    assert_eq!(fmt_size(3 * 1048576 + 131072 * 3), float_text(3 * 1048576 + 131072 * 3));
}

#[test]
fn fmt_size_agrees_with_float_formatting() {
    let mut samples: Vec<u64> = Vec::new();
    for b in 0..5000u64 {
        samples.push(b);
    }
    for k in 0..2000u64 {
        samples.push(1024 * k + 51);
        samples.push(1024 * k + 256);
        samples.push(1048576 * k + 5243);
        samples.push(1048576 * (k % 7) + 10485 * k);
        samples.push(1073741824 * k + 10737418 * (k % 100));
    }
    let mut x: u64 = 0x9e37_79b9_7f4a_7c15;
    for _ in 0..20000 {
        x ^= x << 13;
        x ^= x >> 7;
        x ^= x << 17;
        samples.push(x);
        samples.push(x >> (x % 64));
    }
    for e in 0..64u32 {
        let p = 1u64 << e;
        samples.push(p);
        samples.push(p - 1);
        samples.push(p.wrapping_add(1));
        samples.push(p | (p >> 1));
    }
    samples.push(u64::MAX);
    samples.push(u64::MAX - 1024);
    samples.push((1u64 << 53) + 1);
    samples.push((1u64 << 53) + 3);
    samples.push((1u64 << 60) + (1u64 << 7));
    for b in samples {
        assert_eq!(fmt_size(b), float_text(b), "bytes = {}", b);
    }
}

/// The unit rank and the shown number of a size text.
fn unit_and_number(text: &str) -> (u32, f64) {
    let (num, unit) = text.split_once(' ').unwrap();
    let rank = match unit {
        "B" => 0,
        "KB" => 1,
        "MB" => 2,
        "GB" => 3,
        _ => panic!("unknown unit"),
    };
    (rank, num.parse::<f64>().unwrap())
}

#[test]
fn fmt_size_is_monotone() {
    let mut sizes: Vec<u64> = Vec::new();
    for e in 0..64u32 {
        let p = 1u64 << e;
        for k in 0..40u64 {
            sizes.push(p.saturating_add(k * (p / 16 + 1)));
            sizes.push(p.saturating_sub(k));
        }
    }
    sizes.sort();
    for w in sizes.windows(2) {
        let (ua, na) = unit_and_number(&fmt_size(w[0]));
        let (ub, nb) = unit_and_number(&fmt_size(w[1]));
        assert!(ua <= ub, "{} {}", w[0], w[1]);
        if ua == ub {
            assert!(na <= nb, "{} {}", w[0], w[1]);
        }
    }
}
