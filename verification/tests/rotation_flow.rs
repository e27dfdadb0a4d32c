use credentials_helper::errors::RenewError;
use credentials_helper::rotation::{RotationCommand, RotationEvent, RotationFlow, RotationState};
use credentials_helper::store::{CredentialRecord, Store};

fn long_lived(key: &[u8], secret: &[u8]) -> CredentialRecord {
    CredentialRecord {
        access_key_id: key.to_vec(),
        secret_access_key: secret.to_vec(),
        session_token: None,
        expiration: None,
    }
}

fn cached_store(key: &[u8]) -> Store {
    let mut store = Store::new();
    store.insert_credentials(b"me".to_vec(), long_lived(key, b"old-secret"));
    store
}

/// Drives the deletion phase, collecting every key the flow asks to
/// delete, until it asks to create the new key.
fn run_deletions(flow: &mut RotationFlow, first: Option<RotationCommand>) -> Vec<Vec<u8>> {
    let mut deleted = Vec::new();
    let mut cmd = first;
    loop {
        match cmd {
            Some(RotationCommand::DeleteKey { access_key_id }) => {
                deleted.push(access_key_id);
                cmd = flow.step(RotationEvent::Deleted);
            },
            Some(RotationCommand::CreateKey) => return deleted,
            other => panic!("expected a delete or create command, got {:?}", other),
        }
    }
}

#[test]
fn rotation_replaces_every_unmatched_key() {
    // Two keys exist and neither matches the cache: both go.
    let mut flow = RotationFlow::new(cached_store(b"AKIAOLD"), b"me".to_vec(), b"AKIAOLD".to_vec());
    assert!(matches!(flow.start(), RotationCommand::ListKeys));

    let cmd = flow.step(
        RotationEvent::Keys(vec![Some(b"AKIA1".to_vec()), Some(b"AKIA2".to_vec())]),
    );
    let mut deleted = run_deletions(&mut flow, cmd);
    deleted.sort();
    assert_eq!(deleted, vec![b"AKIA1".to_vec(), b"AKIA2".to_vec()]);

    let cmd = flow.step(
        RotationEvent::Created {
            access_key_id: Some(b"AKIA3".to_vec()),
            secret_access_key: Some(b"new-secret".to_vec()),
        },
    );
    assert!(matches!(cmd, Some(RotationCommand::SaveStore)));

    // Exactly one key remains and it differs from both prior keys.
    let mut remaining: Vec<Vec<u8>> = vec![b"AKIA1".to_vec(), b"AKIA2".to_vec()];
    remaining.retain(|k| !deleted.contains(k));
    remaining.push(b"AKIA3".to_vec());
    assert_eq!(remaining, vec![b"AKIA3".to_vec()]);
    assert!(remaining[0] != b"AKIA1".to_vec() && remaining[0] != b"AKIA2".to_vec());

    // The cache now holds the new key.
    match &flow.state {
        RotationState::Done(rec) => {
            assert_eq!(rec.access_key_id, b"AKIA3".to_vec());
            assert_eq!(rec.secret_access_key, b"new-secret".to_vec());
            assert_eq!(rec.session_token, None);
            assert_eq!(rec.expiration, None);
        },
        other => panic!("expected a finished rotation, got {:?}", other),
    }
    let cached = flow.store.lookup_credentials(b"me").unwrap();
    assert_eq!(cached.access_key_id, b"AKIA3".to_vec());
}

#[test]
fn rotation_spares_the_cached_key() {
    let mut flow = RotationFlow::new(cached_store(b"AKIA1"), b"me".to_vec(), b"AKIA1".to_vec());
    flow.start();
    let cmd = flow.step(
        RotationEvent::Keys(vec![Some(b"AKIA1".to_vec()), Some(b"AKIA2".to_vec())]),
    );
    let deleted = run_deletions(&mut flow, cmd);
    assert_eq!(deleted, vec![b"AKIA2".to_vec()]);
}

#[test]
fn rotation_with_no_other_keys_only_creates() {
    let mut flow = RotationFlow::new(cached_store(b"AKIA1"), b"me".to_vec(), b"AKIA1".to_vec());
    flow.start();
    let cmd = flow.step(RotationEvent::Keys(vec![Some(b"AKIA1".to_vec())]));
    assert!(matches!(cmd, Some(RotationCommand::CreateKey)));
}

#[test]
fn a_listed_key_without_id_is_incomplete() {
    let mut flow = RotationFlow::new(cached_store(b"AKIA1"), b"me".to_vec(), b"AKIA1".to_vec());
    flow.start();
    let cmd = flow.step(RotationEvent::Keys(vec![Some(b"AKIA1".to_vec()), None]));
    assert!(cmd.is_none());
    assert!(matches!(flow.state, RotationState::Failed(RenewError::IncompleteResponse)));
}

#[test]
fn an_incomplete_created_key_fails() {
    let mut flow = RotationFlow::new(cached_store(b"AKIA1"), b"me".to_vec(), b"AKIA1".to_vec());
    flow.start();
    let cmd = flow.step(RotationEvent::Keys(vec![Some(b"AKIA1".to_vec())]));
    assert!(matches!(cmd, Some(RotationCommand::CreateKey)));
    let cmd = flow.step(
        RotationEvent::Created {
            access_key_id: Some(b"AKIA3".to_vec()),
            secret_access_key: None,
        },
    );
    assert!(cmd.is_none());
    assert!(matches!(flow.state, RotationState::Failed(RenewError::IncompleteResponse)));
    // The cache keeps its previous record.
    assert_eq!(flow.store.lookup_credentials(b"me").unwrap().access_key_id, b"AKIA1".to_vec());
}
