use credentials_helper::timestamp::{days_in_month, parse_rfc3339, render_rfc3339, Timestamp};

fn ts(year: u16, month: u8, day: u8, hour: u8, minute: u8, second: u8) -> Timestamp {
    Timestamp { year, month, day, hour, minute, second }
}

#[test]
fn epoch_is_zero() {
    assert_eq!(ts(1970, 1, 1, 0, 0, 0).unix_secs(), 0);
}

#[test]
fn era_boundary_after_leap_century() {
    assert_eq!(ts(2000, 3, 1, 0, 0, 0).unix_secs(), 951868800);
}

#[test]
fn modern_instant() {
    assert_eq!(ts(2024, 6, 15, 12, 0, 0).unix_secs(), 1718452800);
}

#[test]
fn leap_day_end() {
    assert_eq!(ts(2024, 2, 29, 23, 59, 59).unix_secs(), 1709251199);
}

#[test]
fn before_epoch_is_negative() {
    assert_eq!(ts(1969, 12, 31, 23, 59, 59).unix_secs(), -1);
}

#[test]
fn renders_rfc3339() {
    assert_eq!(render_rfc3339(&ts(2024, 6, 15, 12, 0, 0)), b"2024-06-15T12:00:00Z".to_vec());
    assert_eq!(render_rfc3339(&ts(1, 1, 1, 0, 0, 0)), b"0001-01-01T00:00:00Z".to_vec());
}

#[test]
fn parses_rfc3339() {
    assert_eq!(parse_rfc3339(b"2024-06-15T12:00:00Z"), Some(ts(2024, 6, 15, 12, 0, 0)));
}

#[test]
fn timestamp_round_trips_every_field() {
    let t = ts(1999, 12, 31, 23, 59, 59);
    assert_eq!(parse_rfc3339(&render_rfc3339(&t)), Some(t));
    let t2 = ts(2024, 2, 29, 1, 2, 3);
    assert_eq!(parse_rfc3339(&render_rfc3339(&t2)), Some(t2));
}

#[test]
fn rejects_malformed_timestamps() {
    assert_eq!(parse_rfc3339(b"2024-06-15 12:00:00Z"), None);
    assert_eq!(parse_rfc3339(b"2024-06-15T12:00:00"), None);
    assert_eq!(parse_rfc3339(b"2024-13-01T00:00:00Z"), None);
    assert_eq!(parse_rfc3339(b"2023-02-29T00:00:00Z"), None);
    assert_eq!(parse_rfc3339(b"0000-01-01T00:00:00Z"), None);
    assert_eq!(parse_rfc3339(b"2024-06-15T24:00:00Z"), None);
    assert_eq!(parse_rfc3339(b"2024-06-00T00:00:00Z"), None);
    assert_eq!(parse_rfc3339(b""), None);
}

#[test]
fn knows_month_lengths() {
    assert_eq!(days_in_month(2024, 2), 29);
    assert_eq!(days_in_month(2023, 2), 28);
    assert_eq!(days_in_month(1900, 2), 28);
    assert_eq!(days_in_month(2000, 2), 29);
    assert_eq!(days_in_month(2024, 4), 30);
    assert_eq!(days_in_month(2024, 1), 31);
    assert_eq!(days_in_month(2024, 12), 31);
}
