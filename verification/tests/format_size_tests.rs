use winsentry::modules::safe_queue::format_size;

fn float_format_size(bytes: u64) -> String {
    const KIB: f64 = 1024.0;
    const MIB: f64 = KIB * 1024.0;
    const GIB: f64 = MIB * 1024.0;
    let bytes_f = bytes as f64;
    if bytes_f >= GIB {
        format!("{:.2} GB", bytes_f / GIB)
    } else if bytes_f >= MIB {
        format!("{:.2} MB", bytes_f / MIB)
    } else if bytes_f >= KIB {
        format!("{:.2} KB", bytes_f / KIB)
    } else {
        format!("{} B", bytes)
    }
}

#[test]
fn format_size_exact_values() {
    assert_eq!(format_size(0), "0 B");
    assert_eq!(format_size(1023), "1023 B");
    assert_eq!(format_size(1024), "1.00 KB");
    assert_eq!(format_size(1536), "1.50 KB");
    assert_eq!(format_size(1024 * 1024), "1.00 MB");
    assert_eq!(format_size(5 * 1024 * 1024 * 1024), "5.00 GB");
}

#[test]
fn format_size_matches_float_rendering() {
    let mut b: u64 = 0;
    while b < 3_000_000 {
        assert_eq!(format_size(b), float_format_size(b), "bytes = {}", b);
        b += 1;
    }
    let edges: [u64; 12] = [
        1152, 1024 * 1024 + 5 * 1024, (1 << 30) - 1, 1 << 30, (1 << 30) + (1 << 20) * 5,
        (1 << 53) - 1, 1 << 53, (1 << 53) + 1, (1 << 53) + 3, u64::MAX, u64::MAX - 1024, 1 << 63,
    ];
    for &e in edges.iter() {
        assert_eq!(format_size(e), float_format_size(e), "bytes = {}", e);
    }
    let mut x: u64 = 0x9E37_79B9_7F4A_7C15;
    for _ in 0..200_000 {
        x ^= x << 13;
        x ^= x >> 7;
        x ^= x << 17;
        let shift = (x % 64) as u32;
        let v = x >> shift;
        assert_eq!(format_size(v), float_format_size(v), "bytes = {}", v);
    }
}
