use credentials_helper::codec::{describe_record, parse_store, render_store};
use credentials_helper::errors::StoreError;
use credentials_helper::store::{CredentialRecord, MfaDeviceEntry, Store};
use credentials_helper::timestamp::Timestamp;

fn ts(year: u16, month: u8, day: u8, hour: u8, minute: u8, second: u8) -> Timestamp {
    Timestamp { year, month, day, hour, minute, second }
}

fn long_lived(key: &[u8], secret: &[u8]) -> CredentialRecord {
    CredentialRecord {
        access_key_id: key.to_vec(),
        secret_access_key: secret.to_vec(),
        session_token: None,
        expiration: None,
    }
}

fn session(key: &[u8], secret: &[u8], token: &[u8], expiration: Timestamp) -> CredentialRecord {
    CredentialRecord {
        access_key_id: key.to_vec(),
        secret_access_key: secret.to_vec(),
        session_token: Some(token.to_vec()),
        expiration: Some(expiration),
    }
}

fn oath(name: &[u8]) -> MfaDeviceEntry {
    MfaDeviceEntry::HardwareOathToken { account_name: name.to_vec() }
}

#[test]
fn renders_the_canonical_document() {
    let mut store = Store::new();
    store.insert_credentials(b"arn:mfa:1".to_vec(), long_lived(b"AKIAEXAMPLE", b"abc123"));
    store.insert_device(b"arn:mfa:1".to_vec(), oath(b"work"));
    let doc = String::from_utf8(render_store(&store)).unwrap();
    assert_eq!(
        doc,
        "{\"credentials\":{\"arn:mfa:1\":{\"access-key-id\":\"AKIAEXAMPLE\",\
         \"secret-access-key\":\"abc123\"}},\
         \"mfa-devices\":{\"arn:mfa:1\":{\"ykoath\":{\"name\":\"work\"}}}}"
    );
}

#[test]
fn store_round_trips_field_for_field() {
    let mut store = Store::new();
    store.insert_credentials(
        b"arn:mfa:1".to_vec(),
        session(b"AKIATMP", b"tmpsecret", b"tok/abc+def=", ts(2024, 6, 15, 13, 0, 0)),
    );
    store.insert_credentials(b"me".to_vec(), long_lived(b"AKIAEXAMPLE", b"abc123"));
    store.insert_device(b"arn:mfa:1".to_vec(), oath(b"work account"));
    let doc = render_store(&store);
    let reloaded = parse_store(&doc).unwrap();

    let r1 = reloaded.lookup_credentials(b"arn:mfa:1").unwrap();
    assert_eq!(r1.access_key_id, b"AKIATMP".to_vec());
    assert_eq!(r1.secret_access_key, b"tmpsecret".to_vec());
    assert_eq!(r1.session_token, Some(b"tok/abc+def=".to_vec()));
    assert_eq!(r1.expiration, Some(ts(2024, 6, 15, 13, 0, 0)));

    // Absent optional fields stay absent.
    let r2 = reloaded.lookup_credentials(b"me").unwrap();
    assert_eq!(r2.access_key_id, b"AKIAEXAMPLE".to_vec());
    assert_eq!(r2.session_token, None);
    assert_eq!(r2.expiration, None);

    match reloaded.lookup_device(b"arn:mfa:1").unwrap() {
        MfaDeviceEntry::HardwareOathToken { account_name } => {
            assert_eq!(account_name, &b"work account".to_vec());
        },
    }
    assert_eq!(reloaded.credentials.len(), 2);
    assert_eq!(reloaded.mfa_devices.len(), 1);

    // Reloading reproduces the same bytes.
    assert_eq!(render_store(&reloaded), doc);
}

#[test]
fn escaped_identifiers_round_trip() {
    let mut store = Store::new();
    let odd_key: Vec<u8> = b"a\"b\\c\nd\x01e".to_vec();
    store.insert_credentials(odd_key.clone(), long_lived(b"quote\"back\\slash", b"tab\there"));
    let doc = render_store(&store);
    let reloaded = parse_store(&doc).unwrap();
    let rec = reloaded.lookup_credentials(&odd_key).unwrap();
    assert_eq!(rec.access_key_id, b"quote\"back\\slash".to_vec());
    assert_eq!(rec.secret_access_key, b"tab\there".to_vec());
    assert_eq!(render_store(&reloaded), doc);
}

#[test]
fn accepts_whitespace_and_unknown_members() {
    let doc = b"{\n  \"version\": 3,\n  \"credentials\": {\n    \"id\" : {\n      \
        \"access-key-id\": \"A\",\n      \"secret-access-key\": \"S\",\n      \
        \"comment\": [1, {\"x\": \"y\"}, true]\n    }\n  }\n}\n";
    let store = parse_store(doc).unwrap();
    let rec = store.lookup_credentials(b"id").unwrap();
    assert_eq!(rec.access_key_id, b"A".to_vec());
    assert_eq!(rec.secret_access_key, b"S".to_vec());
    assert_eq!(store.mfa_devices.len(), 0);
}

#[test]
fn simple_escapes_and_null_fields_parse() {
    let doc = b"{\"credentials\":{\"k\\u0041\\t\":{\"access-key-id\":\"a\\/b\",\
        \"secret-access-key\":\"s\",\"session-token\":null,\"expiration\":null}}}";
    let store = parse_store(doc).unwrap();
    let rec = store.lookup_credentials(b"kA\t").unwrap();
    assert_eq!(rec.access_key_id, b"a/b".to_vec());
    assert_eq!(rec.session_token, None);
    assert_eq!(rec.expiration, None);
}

#[test]
fn missing_sections_default_to_empty() {
    let store = parse_store(b"{}").unwrap();
    assert_eq!(store.credentials.len(), 0);
    assert_eq!(store.mfa_devices.len(), 0);
    let store = parse_store(b" { } ").unwrap();
    assert_eq!(store.credentials.len(), 0);
    assert_eq!(store.mfa_devices.len(), 0);
    let store = parse_store(b"{\"credentials\":{}}").unwrap();
    assert_eq!(store.credentials.len(), 0);
    assert_eq!(store.mfa_devices.len(), 0);
}

#[test]
fn a_lone_credentials_section_loads_with_no_devices() {
    let doc = b"{\"credentials\":{\"me\":{\"access-key-id\":\"A\",\"secret-access-key\":\"S\"}}}";
    let store = parse_store(doc).unwrap();
    assert_eq!(store.lookup_credentials(b"me").unwrap().access_key_id, b"A".to_vec());
    assert_eq!(store.mfa_devices.len(), 0);
}

#[test]
fn a_lone_devices_section_loads_with_no_credentials() {
    let doc = b"{\"mfa-devices\":{\"arn:mfa:1\":{\"ykoath\":{\"name\":\"work\"}}}}";
    let store = parse_store(doc).unwrap();
    assert_eq!(store.credentials.len(), 0);
    match store.lookup_device(b"arn:mfa:1").unwrap() {
        MfaDeviceEntry::HardwareOathToken { account_name } => {
            assert_eq!(account_name, &b"work".to_vec());
        },
    }
}

#[test]
fn reordered_sections_load_the_same() {
    let doc = b"{\"mfa-devices\":{\"arn:mfa:1\":{\"ykoath\":{\"name\":\"work\"}}},\
        \"credentials\":{\"me\":{\"access-key-id\":\"A\",\"secret-access-key\":\"S\"}}}";
    let store = parse_store(doc).unwrap();
    assert_eq!(store.lookup_credentials(b"me").unwrap().access_key_id, b"A".to_vec());
    assert!(store.lookup_device(b"arn:mfa:1").is_some());
}

#[test]
fn rejects_corrupt_documents() {
    assert_eq!(parse_store(b"").unwrap_err(), StoreError::Corrupt);
    assert_eq!(parse_store(b"[]").unwrap_err(), StoreError::Corrupt);
    assert_eq!(parse_store(b"{").unwrap_err(), StoreError::Corrupt);
    assert_eq!(parse_store(b"{}trailing").unwrap_err(), StoreError::Corrupt);
    // A record without its required fields.
    assert!(parse_store(b"{\"credentials\":{\"id\":{\"access-key-id\":\"A\"}}}").is_err());
    // A malformed expiration.
    assert!(parse_store(
        b"{\"credentials\":{\"id\":{\"access-key-id\":\"A\",\
          \"secret-access-key\":\"S\",\"session-token\":\"t\",\"expiration\":\"soon\"}}}"
    )
    .is_err());
    // A duplicated known field.
    assert!(parse_store(
        b"{\"credentials\":{\"id\":{\"access-key-id\":\"A\",\"access-key-id\":\"B\",\
          \"secret-access-key\":\"S\"}}}"
    )
    .is_err());
}

#[test]
fn unknown_device_kinds_fail_loudly() {
    let doc = b"{\"mfa-devices\":{\"id\":{\"totp\":{\"name\":\"x\"}}}}";
    assert_eq!(parse_store(doc).unwrap_err(), StoreError::Corrupt);
}

#[test]
fn session_fields_must_come_together() {
    let doc = b"{\"credentials\":{\"id\":{\"access-key-id\":\"A\",\
        \"secret-access-key\":\"S\",\"session-token\":\"t\"}}}";
    assert_eq!(parse_store(doc).unwrap_err(), StoreError::Corrupt);
    let doc2 = b"{\"credentials\":{\"id\":{\"access-key-id\":\"A\",\
        \"secret-access-key\":\"S\",\"expiration\":\"2024-06-15T13:00:00Z\"}}}";
    assert_eq!(parse_store(doc2).unwrap_err(), StoreError::Corrupt);
}

#[test]
fn insert_replaces_existing_entries() {
    let mut store = Store::new();
    store.insert_credentials(b"id".to_vec(), long_lived(b"ONE", b"s1"));
    store.insert_credentials(b"id".to_vec(), long_lived(b"TWO", b"s2"));
    assert_eq!(store.credentials.len(), 1);
    assert_eq!(store.lookup_credentials(b"id").unwrap().access_key_id, b"TWO".to_vec());
    assert!(store.lookup_credentials(b"other").is_none());
}

#[test]
fn descriptions_redact_secret_material() {
    let rec = session(b"AKIAEXAMPLE", b"verysecret", b"sessiontoken", ts(2024, 6, 15, 15, 0, 0));
    let text = String::from_utf8(describe_record(&rec)).unwrap();
    assert_eq!(
        text,
        "Credentials { access_key_id: AKIAEXAMPLE, secret_access_key: ***, \
         session_token: ***, expiration: 2024-06-15T15:00:00Z }"
    );
    assert!(!text.contains("verysecret"));
    assert!(!text.contains("sessiontoken"));

    let bare = long_lived(b"AKIAEXAMPLE", b"verysecret");
    let text2 = String::from_utf8(describe_record(&bare)).unwrap();
    assert_eq!(
        text2,
        "Credentials { access_key_id: AKIAEXAMPLE, secret_access_key: ***, \
         session_token: none, expiration: none }"
    );
}
