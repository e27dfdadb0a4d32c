use credentials_helper::decision::{decide, Decision};
use credentials_helper::store::CredentialRecord;
use credentials_helper::timestamp::Timestamp;

const NOW: i64 = 1718452800;  // 2024-06-15T12:00:00Z
const TWELVE_HOURS: u64 = 12 * 3600;

fn ts(year: u16, month: u8, day: u8, hour: u8, minute: u8, second: u8) -> Timestamp {
    Timestamp { year, month, day, hour, minute, second }
}

fn record_expiring(expiration: Option<Timestamp>) -> CredentialRecord {
    CredentialRecord {
        access_key_id: b"AKIAEXAMPLE".to_vec(),
        secret_access_key: b"secret".to_vec(),
        session_token: expiration.map(|_| b"token".to_vec()),
        expiration,
    }
}

#[test]
fn an_absent_record_is_stale() {
    assert_eq!(decide(None, TWELVE_HOURS, NOW), Decision::Stale);
}

#[test]
fn a_record_without_expiration_is_fresh() {
    let rec = record_expiring(None);
    assert_eq!(decide(Some(&rec), TWELVE_HOURS, NOW), Decision::Fresh);
}

#[test]
fn one_hour_left_of_twelve_requested_is_stale() {
    // A fifth of 12 hours is 2.4 hours, so one hour of margin is not enough.
    let rec = record_expiring(Some(ts(2024, 6, 15, 13, 0, 0)));
    assert_eq!(decide(Some(&rec), TWELVE_HOURS, NOW), Decision::Stale);
}

#[test]
fn three_hours_left_of_twelve_requested_is_fresh() {
    let rec = record_expiring(Some(ts(2024, 6, 15, 15, 0, 0)));
    assert_eq!(decide(Some(&rec), TWELVE_HOURS, NOW), Decision::Fresh);
}

#[test]
fn the_margin_boundary_is_exact() {
    // A fifth of one hour is 720 seconds. Exactly at now + 720 the
    // record is still fresh; one second earlier it is stale.
    let rec = record_expiring(Some(ts(2024, 6, 15, 12, 12, 0)));
    assert_eq!(decide(Some(&rec), 3600, NOW), Decision::Fresh);
    let rec = record_expiring(Some(ts(2024, 6, 15, 12, 11, 59)));
    assert_eq!(decide(Some(&rec), 3600, NOW), Decision::Stale);
}

#[test]
fn an_already_expired_record_is_stale() {
    let rec = record_expiring(Some(ts(2024, 6, 15, 11, 0, 0)));
    assert_eq!(decide(Some(&rec), 3600, NOW), Decision::Stale);
}
