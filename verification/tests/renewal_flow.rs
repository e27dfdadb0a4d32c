use credentials_helper::codec::{parse_store, render_store};
use credentials_helper::errors::{RenewError, TokenError};
use credentials_helper::renewal::{
    ExchangeParts, RenewalCommand, RenewalEvent, RenewalFlow, RenewalState,
};
use credentials_helper::store::{CredentialRecord, MfaDeviceEntry, Store};
use credentials_helper::timestamp::Timestamp;

const NOW: i64 = 1718452800;  // 2024-06-15T12:00:00Z

fn ts(year: u16, month: u8, day: u8, hour: u8, minute: u8, second: u8) -> Timestamp {
    Timestamp { year, month, day, hour, minute, second }
}

fn registered_store() -> Store {
    let mut store = Store::new();
    store.insert_device(
        b"arn:mfa:1".to_vec(),
        MfaDeviceEntry::HardwareOathToken { account_name: b"work".to_vec() },
    );
    store
}

fn good_parts() -> ExchangeParts {
    ExchangeParts {
        access_key_id: Some(b"AKIANEW".to_vec()),
        secret_access_key: Some(b"fresh-secret".to_vec()),
        session_token: Some(b"fresh-token".to_vec()),
        expiration: Some(ts(2024, 6, 15, 13, 0, 0)),  // about an hour past NOW
    }
}

#[test]
fn first_renewal_populates_the_store() {
    let mut flow = RenewalFlow::new(registered_store(), 3600, NOW);
    let mut code_computations = 0;
    let mut exchanges = 0;

    assert!(matches!(flow.start(), RenewalCommand::ListDevices));

    let cmd = flow.step(RenewalEvent::Devices(vec![Some(b"arn:mfa:1".to_vec())]));
    match cmd {
        Some(RenewalCommand::ComputeCode { account }) => {
            code_computations += 1;
            assert_eq!(account, b"work".to_vec());
        },
        other => panic!("expected a code computation, got {:?}", other),
    }

    let cmd = flow.step(RenewalEvent::Code(b"000042".to_vec()));
    match cmd {
        Some(RenewalCommand::Exchange { serial, code, duration_secs }) => {
            exchanges += 1;
            assert_eq!(serial, b"arn:mfa:1".to_vec());
            assert_eq!(code, b"000042".to_vec());
            assert_eq!(duration_secs, 3600);
        },
        other => panic!("expected an exchange, got {:?}", other),
    }

    let cmd = flow.step(RenewalEvent::Exchanged(good_parts()));
    assert!(matches!(cmd, Some(RenewalCommand::SaveStore)));
    match &flow.state {
        RenewalState::Done(rec) => {
            assert_eq!(rec.access_key_id, b"AKIANEW".to_vec());
            assert_eq!(rec.session_token, Some(b"fresh-token".to_vec()));
            assert_eq!(rec.expiration, Some(ts(2024, 6, 15, 13, 0, 0)));
        },
        other => panic!("expected a finished renewal, got {:?}", other),
    }

    assert_eq!(code_computations, 1);
    assert_eq!(exchanges, 1);
    assert_eq!(flow.store.credentials.len(), 1);
    let cached = flow.store.lookup_credentials(b"arn:mfa:1").unwrap();
    assert_eq!(cached.access_key_id, b"AKIANEW".to_vec());

    // What would be written to disk reloads to the same bytes.
    let doc = render_store(&flow.store);
    let reloaded = parse_store(&doc).unwrap();
    assert_eq!(render_store(&reloaded), doc);
}

#[test]
fn fresh_records_are_reused_without_any_call() {
    let mut store = registered_store();
    store.insert_credentials(
        b"arn:mfa:1".to_vec(),
        CredentialRecord {
            access_key_id: b"AKIACACHED".to_vec(),
            secret_access_key: b"cached-secret".to_vec(),
            session_token: Some(b"cached-token".to_vec()),
            // 59 minutes past NOW: more than a fifth of the hour remains.
            expiration: Some(ts(2024, 6, 15, 12, 59, 0)),
        },
    );
    let mut flow = RenewalFlow::new(store, 3600, NOW);
    flow.start();
    let cmd = flow.step(RenewalEvent::Devices(vec![Some(b"arn:mfa:1".to_vec())]));
    assert!(cmd.is_none(), "a fresh record must cause no further calls");
    match &flow.state {
        RenewalState::Done(rec) => assert_eq!(rec.access_key_id, b"AKIACACHED".to_vec()),
        other => panic!("expected the cached record, got {:?}", other),
    }
    assert_eq!(flow.store.credentials.len(), 1);
}

#[test]
fn a_nearly_expired_record_is_renewed() {
    let mut store = registered_store();
    store.insert_credentials(
        b"arn:mfa:1".to_vec(),
        CredentialRecord {
            access_key_id: b"AKIACACHED".to_vec(),
            secret_access_key: b"cached-secret".to_vec(),
            session_token: Some(b"cached-token".to_vec()),
            // 10 minutes past NOW: less than a fifth of the hour remains.
            expiration: Some(ts(2024, 6, 15, 12, 10, 0)),
        },
    );
    let mut flow = RenewalFlow::new(store, 3600, NOW);
    flow.start();
    let cmd = flow.step(RenewalEvent::Devices(vec![Some(b"arn:mfa:1".to_vec())]));
    assert!(matches!(cmd, Some(RenewalCommand::ComputeCode { .. })));
}

#[test]
fn no_registered_device_fails() {
    let mut flow = RenewalFlow::new(Store::new(), 3600, NOW);
    flow.start();
    let cmd = flow.step(RenewalEvent::Devices(vec![]));
    assert!(cmd.is_none());
    assert!(matches!(flow.state, RenewalState::Failed(RenewError::NoDeviceRegistered)));
}

#[test]
fn a_device_without_serial_is_incomplete() {
    let mut flow = RenewalFlow::new(Store::new(), 3600, NOW);
    flow.start();
    flow.step(RenewalEvent::Devices(vec![None]));
    assert!(matches!(flow.state, RenewalState::Failed(RenewError::IncompleteResponse)));
}

#[test]
fn an_unregistered_device_cannot_renew() {
    // The device is known to the service but not configured locally.
    let mut flow = RenewalFlow::new(Store::new(), 3600, NOW);
    flow.start();
    let cmd = flow.step(RenewalEvent::Devices(vec![Some(b"arn:mfa:9".to_vec())]));
    assert!(cmd.is_none());
    assert!(matches!(flow.state, RenewalState::Failed(RenewError::UnconfiguredDevice)));
}

#[test]
fn engine_failures_propagate() {
    let mut flow = RenewalFlow::new(registered_store(), 3600, NOW);
    flow.start();
    flow.step(RenewalEvent::Devices(vec![Some(b"arn:mfa:1".to_vec())]));
    flow.step(RenewalEvent::CodeFailed(TokenError::DeviceNotFound));
    assert!(matches!(
        flow.state,
        RenewalState::Failed(RenewError::Token(TokenError::DeviceNotFound))
    ));
}

#[test]
fn a_declined_exchange_leaves_the_store_untouched() {
    let mut flow = RenewalFlow::new(registered_store(), 3600, NOW);
    flow.start();
    flow.step(RenewalEvent::Devices(vec![Some(b"arn:mfa:1".to_vec())]));
    flow.step(RenewalEvent::Code(b"000042".to_vec()));
    let cmd = flow.step(RenewalEvent::ExchangeRejected);
    assert!(cmd.is_none());
    assert!(matches!(flow.state, RenewalState::Failed(RenewError::ExchangeRejected)));
    assert_eq!(flow.store.credentials.len(), 0);
}

#[test]
fn incomplete_exchange_responses_fail() {
    let mut flow = RenewalFlow::new(registered_store(), 3600, NOW);
    flow.start();
    flow.step(RenewalEvent::Devices(vec![Some(b"arn:mfa:1".to_vec())]));
    flow.step(RenewalEvent::Code(b"000042".to_vec()));
    let mut parts = good_parts();
    parts.secret_access_key = None;
    let cmd = flow.step(RenewalEvent::Exchanged(parts));
    assert!(cmd.is_none());
    assert!(matches!(flow.state, RenewalState::Failed(RenewError::IncompleteResponse)));
    assert_eq!(flow.store.credentials.len(), 0);
}

#[test]
fn a_finished_flow_ignores_stray_events() {
    let mut flow = RenewalFlow::new(registered_store(), 3600, NOW);
    flow.start();
    flow.step(RenewalEvent::Devices(vec![Some(b"arn:mfa:1".to_vec())]));
    flow.step(RenewalEvent::Code(b"000042".to_vec()));
    flow.step(RenewalEvent::Exchanged(good_parts()));
    assert!(matches!(flow.state, RenewalState::Done(_)));
    let cmd = flow.step(RenewalEvent::ExchangeRejected);
    assert!(cmd.is_none());
    assert!(matches!(flow.state, RenewalState::Done(_)));
    assert_eq!(flow.store.credentials.len(), 1);
}

#[test]
fn a_token_without_expiration_is_a_data_integrity_error() {
    let mut flow = RenewalFlow::new(registered_store(), 3600, NOW);
    flow.start();
    flow.step(RenewalEvent::Devices(vec![Some(b"arn:mfa:1".to_vec())]));
    flow.step(RenewalEvent::Code(b"000042".to_vec()));
    let mut parts = good_parts();
    parts.expiration = None;
    flow.step(RenewalEvent::Exchanged(parts));
    assert!(matches!(flow.state, RenewalState::Failed(RenewError::IncompleteResponse)));
}
