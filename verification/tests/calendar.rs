use parcels::datetime::{format_unix_secs, format_unix_to_datetime, format_unix_to_datetime_pub};

#[test]
fn epoch_is_1970_01_01() {
    assert_eq!(format_unix_to_datetime_pub(0, 0, 0, 0), "1970-01-01 00:00:00");
}

#[test]
fn leap_day_2024() {
    // 2024-02-29 is day 19782 since the epoch
    assert_eq!(format_unix_to_datetime(19782, 12, 5, 9), "2024-02-29 12:05:09");
    assert_eq!(format_unix_to_datetime(19783, 0, 0, 0), "2024-03-01 00:00:00");
}

#[test]
fn century_years() {
    // 2000-02-29 exists (divisible by 400), 2100-02-29 does not
    assert_eq!(format_unix_to_datetime(11016, 0, 0, 0), "2000-02-29 00:00:00");
    assert_eq!(format_unix_to_datetime(47540, 0, 0, 0), "2100-02-28 00:00:00");
    assert_eq!(format_unix_to_datetime(47541, 0, 0, 0), "2100-03-01 00:00:00");
}

#[test]
fn end_of_year() {
    assert_eq!(format_unix_to_datetime(364, 23, 59, 59), "1970-12-31 23:59:59");
    assert_eq!(format_unix_to_datetime(365, 0, 0, 0), "1971-01-01 00:00:00");
}

#[test]
fn far_future_year_has_five_digits() {
    // 10000-01-01 is day 2932897
    assert_eq!(format_unix_to_datetime(2932897, 0, 0, 0), "10000-01-01 00:00:00");
}

#[test]
fn wide_clock_fields_are_not_cut() {
    assert_eq!(format_unix_to_datetime(0, 123, 7, 100), "1970-01-01 123:07:100");
}

#[test]
fn day_counts_above_i64_max_wrap_to_negative_days() {
    // u64::MAX is -1 as an i64: the day before the epoch
    assert_eq!(format_unix_to_datetime(u64::MAX, 0, 0, 0), "1969-12-31 00:00:00");
    // -719528 days is 0000-01-01, and one more day back is year -1
    assert_eq!(format_unix_to_datetime(u64::MAX - 719527, 0, 0, 0), "0000-01-01 00:00:00");
    assert_eq!(format_unix_to_datetime(u64::MAX - 719528, 0, 0, 0), "-001-12-31 00:00:00");
}

#[test]
fn unix_seconds() {
    assert_eq!(format_unix_secs(0), "1970-01-01 00:00:00");
    assert_eq!(format_unix_secs(1_700_000_000), "2023-11-14 22:13:20");
    assert_eq!(format_unix_secs(951_782_400), "2000-02-29 00:00:00");
}

#[test]
fn calendar_repeats_every_400_years() {
    // 146097 days after 1970-01-01 is 2370-01-01, and so on
    assert_eq!(format_unix_to_datetime(146097, 0, 0, 0), "2370-01-01 00:00:00");
    assert_eq!(format_unix_to_datetime(19782 + 146097, 0, 0, 0), "2424-02-29 00:00:00");
    assert_eq!(format_unix_to_datetime(u64::MAX - 146096, 0, 0, 0), "1570-01-01 00:00:00");
}

#[test]
fn timestamp_texts_sort_like_times() {
    let times = [0u64, 59, 60, 3599, 3600, 86399, 86400, 951_782_399, 951_782_400, 1_700_000_000, 253_402_300_799];
    for &a in &times {
        for &b in &times {
            assert_eq!(format_unix_secs(a) < format_unix_secs(b), a < b, "{} {}", a, b);
        }
    }
}

#[test]
fn public_formatter_agrees_with_inner_one() {
    let limit: u64 = i64::MAX as u64 - 719_468;
    let days = [0u64, 1, 59, 365, 10_957, 19_723, 2_932_896, limit, limit - 1, i64::MAX as u64 + 1, u64::MAX];
    for d in days {
        for (h, m, s) in [(0u64, 0u64, 0u64), (23, 59, 59), (7, 5, 3)] {
            assert_eq!(format_unix_to_datetime_pub(d, h, m, s), format_unix_to_datetime(d, h, m, s), "day {}", d);
        }
    }
}
