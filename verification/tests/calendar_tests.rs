use fd_gui::calendar::civil_from_days;
use fd_gui::display::format_date;

fn is_leap(y: i64) -> bool {
    y % 4 == 0 && (y % 100 != 0 || y % 400 == 0)
}

fn month_len(y: i64, m: i64) -> i64 {
    match m {
        2 => {
            if is_leap(y) {
                29
            } else {
                28
            }
        }
        4 | 6 | 9 | 11 => 30,
        _ => 31,
    }
}

fn next_day((y, m, d): (i64, i64, i64)) -> (i64, i64, i64) {
    if d < month_len(y, m) {
        (y, m, d + 1)
    } else if m < 12 {
        (y, m + 1, 1)
    } else {
        (y + 1, 1, 1)
    }
}

#[test]
fn civil_from_days_examples() {
    assert_eq!(civil_from_days(0), (1970, 1, 1));
    assert_eq!(civil_from_days(-1), (1969, 12, 31));
    assert_eq!(civil_from_days(11016), (2000, 2, 29));
    assert_eq!(civil_from_days(19675), (2023, 11, 14));
    assert_eq!(civil_from_days(-719468), (0, 3, 1));
    assert_eq!(civil_from_days(-719469), (0, 2, 29));
    assert_eq!(civil_from_days(2932896), (9999, 12, 31));
}

#[test]
fn civil_from_days_counts_day_by_day() {
    // walk forward from 1 March of year -400, one day at a time
    let start = -719468 - 146097;
    let mut date = civil_from_days(start);
    assert_eq!(date, (-400, 3, 1));
    for days in start..start + 3 * 146097 {
        assert_eq!(civil_from_days(days), date, "day {days}");
        date = next_day(date);
    }
}

#[test]
fn civil_from_days_far_away() {
    let last = i64::MAX - 719468;
    let (y, m, d) = civil_from_days(last);
    assert!((1..=12).contains(&m) && d >= 1 && d <= month_len(y, m));
    let (y, m, d) = civil_from_days(i64::MIN);
    assert!((1..=12).contains(&m) && d >= 1 && d <= month_len(y, m));
}

#[test]
fn date_text_follows_time() {
    let times: Vec<i64> = vec![
        1, 59, 60, 3599, 3600, 86399, 86400, 951782400, 951868799, 1_700_000_000,
        1_700_000_059, 4_102_444_800, 253_402_300_799,
    ];
    for w in times.windows(2) {
        assert!(format_date(w[0]) <= format_date(w[1]), "{} {}", w[0], w[1]);
    }
    let mut t: i64 = 1;
    while t < 253_402_300_800 {
        let next = t + 7_777_777;
        if next < 253_402_300_800 {
            assert!(format_date(t) <= format_date(next));
        }
        t = next;
    }
}

#[test]
fn date_text_by_minute() {
    for ts in [61i64, 119, 1_700_000_059, 86_399, 253_402_300_799] {
        assert_eq!(format_date(ts), format_date(ts - ts % 60));
    }
    assert_eq!(format_date(1_700_000_059), "2023-11-14 22:14");
    assert_eq!(format_date(1_700_000_000), "2023-11-14 22:13");
}
