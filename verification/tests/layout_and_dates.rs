use chrono::TimeZone;
use scrapestore::grouping::group_by_date;
use scrapestore::layout::{object_key, object_key_for, PayloadKind};
use scrapestore::retention::{extract_date_part, parse_i32, retention_cutoff, should_delete_day};
use scrapestore::storage::Storage;
use scrapestore::values::{Metric, ValuesReading};

fn utc_micros(y: i32, mo: u32, d: u32, h: u32, mi: u32, s: u32) -> i64 {
    chrono::Utc
        .with_ymd_and_hms(y, mo, d, h, mi, s)
        .single()
        .expect("valid UTC instant")
        .timestamp_micros()
}

fn reading_at(from: i64) -> ValuesReading {
    ValuesReading {
        delivery_from: from,
        delivery_to: from + 900_000_000,
        metrics: vec![Metric { name: String::from("a"), bits: 1.0f64.to_bits() }],
    }
}

#[test]
fn partition_date_is_the_reference_timezone_date() {
    // 23:30 UTC on Jan 1 is already 00:30 on Jan 2 in Europe/Vienna (UTC+1).
    let t = utc_micros(2024, 1, 1, 23, 30, 0);
    let groups = group_by_date(vec![reading_at(t)]);
    assert_eq!(groups.len(), 1);
    assert_eq!((groups[0].year, groups[0].month, groups[0].day), (2024, 1, 2));
    let storage = Storage::new("data");
    let path = storage.partition_file(
        "apg",
        None,
        groups[0].year,
        groups[0].month,
        groups[0].day,
        PayloadKind::Values,
    );
    assert_eq!(path, "data/apg/year=2024/month=01/day=02/data.parquet");
}

#[test]
fn summer_instants_use_the_two_hour_offset() {
    // 22:30 UTC on Jul 1 is 00:30 on Jul 2 in Europe/Vienna (UTC+2 in summer).
    let t = utc_micros(2024, 7, 1, 22, 30, 0);
    let groups = group_by_date(vec![reading_at(t)]);
    assert_eq!((groups[0].year, groups[0].month, groups[0].day), (2024, 7, 2));
}

#[test]
fn readings_group_by_calendar_date() {
    let morning = utc_micros(2024, 3, 5, 8, 0, 0);
    let evening = utc_micros(2024, 3, 5, 18, 0, 0);
    let next_day = utc_micros(2024, 3, 6, 8, 0, 0);
    let groups = group_by_date(vec![reading_at(morning), reading_at(evening), reading_at(next_day)]);
    assert_eq!(groups.len(), 2);
    assert_eq!(groups[0].readings.len(), 2);
    assert_eq!(groups[1].readings.len(), 1);
    assert_eq!(groups[0].day, 5);
    assert_eq!(groups[1].day, 6);
    let starts: Vec<i64> = groups[0].readings.iter().map(|r| r.delivery_from).collect();
    assert_eq!(starts, vec![morning, evening], "input order is kept within a group");
}

#[test]
fn subfolder_overrides_source_name() {
    let storage = Storage::new("data");
    let path = storage.partition_file("apg", Some("special"), 2024, 11, 7, PayloadKind::Values);
    assert_eq!(path, "data/special/year=2024/month=11/day=07/data.parquet");
}

#[test]
fn values_and_bids_of_one_date_live_in_separate_files() {
    let storage = Storage::new("data");
    let values = storage.partition_file("apg", None, 2024, 1, 2, PayloadKind::Values);
    let bids = storage.partition_file("apg", None, 2024, 1, 2, PayloadKind::Bids);
    assert_eq!(values, "data/apg/year=2024/month=01/day=02/data.parquet");
    assert_eq!(bids, "data/apg/year=2024/month=01/day=02/bids.parquet");
    assert_ne!(values, bids);
}

#[test]
fn object_key_keeps_paths_under_the_storage_root() {
    let key = object_key("data/apg/year=2024/month=01/day=02/data.parquet");
    assert_eq!(key.as_deref(), Some("data/apg/year=2024/month=01/day=02/data.parquet"));
    assert_eq!(object_key("elsewhere/data.parquet"), None);
}

#[test]
fn object_key_honours_the_configured_prefix() {
    let key = object_key_for("data/apg/year=2024/month=01/day=02/data.parquet", "mirror/");
    assert_eq!(key.as_deref(), Some("mirror/apg/year=2024/month=01/day=02/data.parquet"));
    let default_key = object_key_for("data/apg/year=2024/month=01/day=02/bids.parquet", "data/");
    assert_eq!(default_key.as_deref(), Some("data/apg/year=2024/month=01/day=02/bids.parquet"));
    assert_eq!(object_key_for("elsewhere/data.parquet", "mirror/"), None);
}

#[test]
fn date_parts_parse_from_directory_names() {
    assert_eq!(extract_date_part("day=07", "day="), Some(7));
    assert_eq!(extract_date_part("month=12", "month="), Some(12));
    assert_eq!(extract_date_part("year=2024", "year="), Some(2024));
    assert_eq!(extract_date_part("day=x", "day="), None);
    assert_eq!(extract_date_part("data.parquet", "day="), None);
    assert_eq!(extract_date_part("day=", "day="), None);
}

#[test]
fn decimal_rendering_matches_expected_text() {
    assert_eq!(scrapestore::fmtnum::u32_dec(0), "0");
    assert_eq!(scrapestore::fmtnum::u32_dec(2024), "2024");
    assert_eq!(scrapestore::fmtnum::two_digit_dec(7), "07");
    assert_eq!(scrapestore::fmtnum::two_digit_dec(31), "31");
    assert_eq!(scrapestore::fmtnum::i32_dec(-42), "-42");
    assert_eq!(scrapestore::fmtnum::i32_dec(0), "0");
}

#[test]
fn integer_parsing_matches_the_standard_rules() {
    assert_eq!(parse_i32("0"), Some(0));
    assert_eq!(parse_i32("+5"), Some(5));
    assert_eq!(parse_i32("-12"), Some(-12));
    assert_eq!(parse_i32("007"), Some(7));
    assert_eq!(parse_i32("2147483647"), Some(i32::MAX));
    assert_eq!(parse_i32("2147483648"), None);
    assert_eq!(parse_i32("-2147483648"), Some(i32::MIN));
    assert_eq!(parse_i32("-2147483649"), None);
    assert_eq!(parse_i32(""), None);
    assert_eq!(parse_i32("-"), None);
    assert_eq!(parse_i32("1 2"), None);
}

#[test]
fn retention_keeps_the_boundary_day_and_deletes_older() {
    // Noon UTC is 13:00 in Vienna: the cutoff's Vienna date is 30 days back.
    let now = utc_micros(2024, 3, 15, 12, 0, 0);
    let cutoff = retention_cutoff(now, 30);
    // Exactly 30 days before now: equal to the cutoff date, retained.
    assert!(!should_delete_day(2024, 2, 14, cutoff));
    // 31 days before now: strictly older, deleted.
    assert!(should_delete_day(2024, 2, 13, cutoff));
    // Newer partitions are retained.
    assert!(!should_delete_day(2024, 3, 1, cutoff));
}

#[test]
fn invalid_calendar_dates_are_never_deleted() {
    let now = utc_micros(2024, 3, 15, 12, 0, 0);
    let cutoff = retention_cutoff(now, 30);
    assert!(!should_delete_day(2023, 2, 31, cutoff), "no such calendar date");
    assert!(!should_delete_day(2023, 13, 1, cutoff), "no such month");
    assert!(!should_delete_day(2023, -1, 5, cutoff), "negative components never parse to a date");
}
