use earthquake_alert::civil_time::{datetime_in_range, days_from_civil, days_in_month, is_leap_year, parse_civil_datetime, parse_datetime_epoch_seconds};

#[test]
fn parses_space_slash_and_timestamps_with_timezone_offsets() {
    let beijing = parse_datetime_epoch_seconds("2026-07-07 09:30:00", 8 * 3600);
    let slash = parse_datetime_epoch_seconds("2026/07/07 09:30:00", 8 * 3600);
    let jst = parse_datetime_epoch_seconds("2026-07-07T10:30:00", 9 * 3600);

    assert_eq!(beijing, slash);
    assert_eq!(beijing, jst);
    assert!(beijing.is_some());
}

#[test]
fn rejects_malformed_and_impossible_dates() {
    assert_eq!(parse_datetime_epoch_seconds("2026-XX-07 09:30:00", 8 * 3600), None);
    assert_eq!(parse_datetime_epoch_seconds("2026-02-30 09:30:00", 8 * 3600), None);
    assert_eq!(parse_datetime_epoch_seconds("2026-04-31 09:30:00", 8 * 3600), None);
    assert!(parse_datetime_epoch_seconds("2024-02-29 09:30:00", 8 * 3600).is_some());
}

#[test]
fn epoch_seconds_of_known_instants() {
    assert_eq!(parse_datetime_epoch_seconds("1970-01-01 00:00:00", 0), Some(0));
    assert_eq!(parse_datetime_epoch_seconds("2026-07-07 09:30:00", 8 * 3600), Some(1_783_387_800));
    assert_eq!(parse_datetime_epoch_seconds("2000-03-01 00:00", 0), Some(951_868_800));
    assert_eq!(parse_datetime_epoch_seconds("  1969-12-31 23:59:59\n", 0), Some(-1));
    assert_eq!(parse_datetime_epoch_seconds("2016-12-31 23:59:60", 0), Some(1_483_228_800));
}

#[test]
fn rejects_wrong_shapes() {
    assert_eq!(parse_datetime_epoch_seconds("2026-07-07", 0), None);
    assert_eq!(parse_datetime_epoch_seconds("2026-07 09:30:00", 0), None);
    assert_eq!(parse_datetime_epoch_seconds("2026-07-07 09", 0), None);
    assert_eq!(parse_datetime_epoch_seconds("2026-07-07 09:30:00:00", 0), None);
    assert_eq!(parse_datetime_epoch_seconds("2026-07-07 24:00:00", 0), None);
    assert_eq!(parse_datetime_epoch_seconds("2026-07-07 23:60:00", 0), None);
    assert_eq!(parse_datetime_epoch_seconds("2026-13-07 23:00:00", 0), None);
    assert_eq!(parse_datetime_epoch_seconds("2026-07-07  09:30:00", 0), None);
    assert_eq!(parse_datetime_epoch_seconds("", 0), None);
}

#[test]
fn signed_fields_read_like_i64() {
    let f = parse_civil_datetime("+2026-07-07 09:30:00").unwrap();
    assert_eq!((f.year, f.month, f.day, f.hour, f.minute, f.second), (2026, 7, 7, 9, 30, 0));
    // a leading minus sign splits off an empty first date part
    assert!(parse_civil_datetime("-1-01-01 00:00:00").is_none());
    assert!(parse_civil_datetime("2026-+07-07 09:30:00").is_some());
    assert!(parse_civil_datetime("2026--07-07 09:30:00").is_none());
    assert!(parse_civil_datetime("99999999999999999999-01-01 00:00:00").is_none());
}

#[test]
fn calendar_rules() {
    assert!(is_leap_year(2024));
    assert!(!is_leap_year(1900));
    assert!(is_leap_year(2000));
    assert!(is_leap_year(-4));
    assert!(!is_leap_year(2026));
    assert_eq!(days_in_month(2024, 2), 29);
    assert_eq!(days_in_month(2023, 2), 28);
    assert_eq!(days_in_month(2023, 4), 30);
    assert_eq!(days_in_month(2023, 12), 31);
    assert_eq!(days_in_month(2023, 13), 0);
    assert_eq!(days_from_civil(1970, 1, 1), 0);
    assert_eq!(days_from_civil(2000, 3, 1), 11_017);
    assert_eq!(days_from_civil(1969, 12, 31), -1);
    assert_eq!(days_from_civil(0, 3, 1), -719_468);
}

#[test]
fn huge_years_are_out_of_range() {
    assert!(datetime_in_range("2026-07-07 09:30:00", 8 * 3600));
    assert!(datetime_in_range("not a date", 8 * 3600));
    assert!(!datetime_in_range("9000000000000000000-01-01 00:00:00", 0));
    assert!(!datetime_in_range("1000000000000-01-01 00:00:00", 0));
}
