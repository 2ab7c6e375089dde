use fd_gui::display::{format_date, format_size};

fn reference_size(bytes: u64) -> String {
    if bytes == 0 {
        "—".into()
    } else if bytes < 1024 {
        format!("{bytes} B")
    } else if bytes < 1024 * 1024 {
        format!("{:.1} KB", bytes as f64 / 1024.0)
    } else if bytes < 1024 * 1024 * 1024 {
        format!("{:.1} MB", bytes as f64 / (1024.0 * 1024.0))
    } else {
        format!("{:.1} GB", bytes as f64 / (1024.0 * 1024.0 * 1024.0))
    }
}

fn reference_civil(days: i64) -> (i64, i64, i64) {
    let z = days + 719468;
    let era = if z >= 0 { z } else { z - 146096 } / 146097;
    let doe = (z - era * 146097) as u64;
    let yoe = (doe - doe / 1460 + doe / 36524 - doe / 146096) / 365;
    let y = yoe as i64 + era * 400;
    let doy = doe - (365 * yoe + yoe / 4 - yoe / 100);
    let mp = (5 * doy + 2) / 153;
    let d = doy - (153 * mp + 2) / 5 + 1;
    let m = if mp < 10 { mp + 3 } else { mp - 9 };
    let y = if m <= 2 { y + 1 } else { y };
    (y, m as i64, d as i64)
}

fn reference_date(ts: i64) -> String {
    if ts <= 0 {
        return "—".into();
    }
    let secs = ts;
    let days_since_epoch = secs / 86400;
    let (y, m, d) = reference_civil(days_since_epoch);
    let remaining = secs % 86400;
    let h = remaining / 3600;
    let min = (remaining % 3600) / 60;
    format!("{y:04}-{m:02}-{d:02} {h:02}:{min:02}")
}

#[test]
fn size_examples() {
    assert_eq!(format_size(0), "—");
    assert_eq!(format_size(1), "1 B");
    assert_eq!(format_size(1023), "1023 B");
    assert_eq!(format_size(1024), "1.0 KB");
    assert_eq!(format_size(1536), "1.5 KB");
    assert_eq!(format_size(1024 * 1024), "1.0 MB");
    assert_eq!(format_size(1024 * 1024 * 1024), "1.0 GB");
    assert_eq!(format_size(5 * 1024 * 1024 * 1024 / 2), "2.5 GB");
}

#[test]
fn size_matches_float_formatting_on_small_values() {
    for b in 0..300_000u64 {
        assert_eq!(format_size(b), reference_size(b), "bytes = {b}");
    }
}

#[test]
fn size_matches_float_formatting_on_ties_and_large_values() {
    // values whose tenths are exact halves, in each unit
    for k in 0..3u32 {
        let unit: u64 = 1024u64 << (10 * k);
        for n in 0..4000u64 {
            let b = (2 * n + 1) * unit / 20;
            if b >= 1024 {
                assert_eq!(format_size(b), reference_size(b), "bytes = {b}");
            }
        }
    }
    let mut x: u64 = 0x9E37_79B9_7F4A_7C15;
    for _ in 0..200_000 {
        x ^= x << 13;
        x ^= x >> 7;
        x ^= x << 17;
        let shift = (x % 64) as u32;
        let b = x >> shift;
        assert_eq!(format_size(b), reference_size(b), "bytes = {b}");
    }
    for b in [u64::MAX, u64::MAX - 1, 1u64 << 53, (1u64 << 53) + 1, (1u64 << 54) + 3, 1u64 << 63] {
        assert_eq!(format_size(b), reference_size(b), "bytes = {b}");
    }
}

#[test]
fn date_examples() {
    assert_eq!(format_date(0), "—");
    assert_eq!(format_date(-86400), "—");
    assert_eq!(format_date(1), "1970-01-01 00:00");
    assert_eq!(format_date(86399), "1970-01-01 23:59");
    assert_eq!(format_date(86400), "1970-01-02 00:00");
    assert_eq!(format_date(951_782_400), "2000-02-29 00:00");
    assert_eq!(format_date(1_700_000_000), "2023-11-14 22:13");
    assert_eq!(format_date(4_102_444_800), "2100-01-01 00:00");
}

#[test]
fn date_matches_reference_on_many_times() {
    let mut ts: i64 = 1;
    while ts < 20_000_000_000 {
        assert_eq!(format_date(ts), reference_date(ts), "ts = {ts}");
        ts += 86_399 * 3 + 17;
    }
    for ts in [i64::MAX, i64::MAX - 86_400, 253_402_300_799, 253_402_300_800] {
        assert_eq!(format_date(ts), reference_date(ts), "ts = {ts}");
    }
}
