use dupfinder::size::{
    format_size, format_size_simple, parse_size, parse_size_checked, parse_uppercase_size,
};

#[test]
fn test_format_size_bytes() {
    assert_eq!(format_size(0), "0.0 B");
    assert_eq!(format_size(1), "1.0 B");
    assert_eq!(format_size(512), "512.0 B");
    assert_eq!(format_size(1023), "1023.0 B");
}

#[test]
fn test_format_size_kb() {
    assert_eq!(format_size(1024), "1.0 KB");
    assert_eq!(format_size(1536), "1.5 KB");
}

#[test]
fn test_format_size_mb() {
    assert_eq!(format_size(1024 * 1024), "1.0 MB");
}

#[test]
fn test_format_size_gb() {
    assert_eq!(format_size(1024 * 1024 * 1024), "1.0 GB");
}

#[test]
fn test_format_size_tb() {
    assert_eq!(format_size(1024u64 * 1024 * 1024 * 1024), "1.0 TB");
}

#[test]
fn test_format_size_pb() {
    assert_eq!(format_size(1024u64 * 1024 * 1024 * 1024 * 1024), "1.0 PB");
}

fn by_double(bytes: u64) -> String {
    let mut size = bytes as f64;
    for unit in ["B", "KB", "MB", "GB", "TB"] {
        if size < 1024.0 {
            return format!("{size:.1} {unit}");
        }
        size /= 1024.0;
    }
    format!("{size:.1} PB")
}

#[test]
fn agrees_with_double_arithmetic() {
    let mut n: u64 = 1;
    for i in 0..200_000u64 {
        n = n.wrapping_mul(6364136223846793005).wrapping_add(1442695040888963407);
        let v = n >> (i % 64);
        assert_eq!(format_size(v), by_double(v), "{v}");
        assert_eq!(format_size_simple(v), by_double(v), "{v}");
    }
}

#[test]
fn agrees_with_double_arithmetic_at_halves() {
    for k in 0..6u32 {
        for t in 0..30_000u64 {
            let Some(base) = (1u64 << (10 * k)).checked_mul(t) else { continue };
            for d in 0..3u64 {
                let v = (base / 20).wrapping_add(d).wrapping_sub(1);
                assert_eq!(format_size(v), by_double(v), "{v}");
            }
        }
    }
    for v in [u64::MAX, u64::MAX - 1023, u64::MAX - 1024, u64::MAX - 1025, 33 << 48, (33 << 48) + 1] {
        assert_eq!(format_size(v), by_double(v), "{v}");
    }
    assert_eq!(format_size((33 << 48) + 1), "8.2 PB");
    assert_eq!(format_size(u64::MAX), "16384.0 PB");
}

#[test]
fn sizes_are_read() {
    assert_eq!(parse_size("1MB"), 1048576);
    assert_eq!(parse_size("500KB"), 512000);
    assert_eq!(parse_size("1024"), 1024);
    assert_eq!(parse_size(" 2 gb "), 2 << 30);
    assert_eq!(parse_size("\t12\u{a0}"), 12);
    assert_eq!(parse_size("3 \tmB\n"), 3 << 20);
    assert_eq!(parse_size("7b"), 7);
    assert_eq!(parse_size("+7 kb"), 7168);
    assert_eq!(parse_size("much"), 0);
    assert_eq!(parse_size("1.5MB"), 0);
    assert_eq!(parse_size(""), 0);
    assert_eq!(parse_size("GB"), 0);
    assert_eq!(parse_uppercase_size("3KB"), Some(3072));
    assert_eq!(parse_uppercase_size("3kb"), Some(0));
    assert_eq!(parse_size_checked("17179869183gb"), Some(17179869183 << 30));
    assert_eq!(parse_size_checked("17179869184gb"), None);
}
