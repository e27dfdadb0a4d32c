use credentials_helper::engine::{
    resolve_entries, AccountEntry, CodeEngine, DeviceCommand, DeviceEvent, EngineState, EntryKind,
    EnumItem, Resolution,
};
use credentials_helper::errors::TokenError;

fn entry(name: &[u8], kind: EntryKind) -> EnumItem {
    EnumItem::Entry(AccountEntry { name: name.to_vec(), kind })
}

fn response(digits: u8, raw: [u8; 4]) -> EntryKind {
    EntryKind::Response { digits, raw: raw.to_vec() }
}

#[test]
fn computed_entry_yields_the_code() {
    let mut engine = CodeEngine::new(b"work".to_vec(), 1718452800);
    assert!(matches!(engine.begin(), DeviceCommand::Connect));

    let out = engine.step(DeviceEvent::ConnectOk);
    assert!(matches!(out.command, Some(DeviceCommand::Select)));
    assert!(!out.touch_prompt);

    let out = engine.step(DeviceEvent::SelectOk);
    match out.command {
        Some(DeviceCommand::CalculateAll { challenge }) => {
            assert_eq!(challenge, vec![0, 0, 0, 0, 0x03, 0x6A, 0x0C, 0xE0]);
        },
        _ => panic!("expected an enumerate command"),
    }

    let listing = vec![
        entry(b"other", EntryKind::Touch),
        entry(b"work", response(6, [0x00, 0x0F, 0x42, 0x40])),
    ];
    let out = engine.step(DeviceEvent::Enumerated(listing));
    assert!(out.command.is_none());
    assert!(!out.touch_prompt);
    match &engine.state {
        EngineState::CodeReady(code) => assert_eq!(code, &b"000000".to_vec()),
        other => panic!("expected a ready code, got {:?}", other),
    }
}

#[test]
fn touch_entry_prompts_once_and_follows_up_once() {
    let mut engine = CodeEngine::new(b"work".to_vec(), 90);
    let mut direct_requests = 0;
    let mut touch_prompts = 0;

    let out = engine.step(DeviceEvent::ConnectOk);
    assert!(matches!(out.command, Some(DeviceCommand::Select)));
    let out = engine.step(DeviceEvent::SelectOk);
    assert!(matches!(out.command, Some(DeviceCommand::CalculateAll { .. })));

    let out = engine.step(DeviceEvent::Enumerated(vec![entry(b"work", EntryKind::Touch)]));
    if out.touch_prompt {
        touch_prompts += 1;
    }
    match out.command {
        Some(DeviceCommand::Calculate { name, challenge }) => {
            direct_requests += 1;
            assert_eq!(name, b"work".to_vec());
            assert_eq!(challenge, vec![0, 0, 0, 0, 0, 0, 0, 3]);
        },
        _ => panic!("expected the direct follow-up request"),
    }

    let out = engine.step(DeviceEvent::DirectCode { digits: 6, raw: vec![0, 0, 0, 42] });
    if out.command.is_some() {
        direct_requests += 1;
    }
    if out.touch_prompt {
        touch_prompts += 1;
    }
    match &engine.state {
        EngineState::CodeReady(code) => assert_eq!(code, &b"000042".to_vec()),
        other => panic!("expected a ready code, got {:?}", other),
    }

    // A terminal session ignores further events and never retries.
    let out = engine.step(DeviceEvent::SelectOk);
    assert!(out.command.is_none());
    let out = engine.step(DeviceEvent::Enumerated(vec![entry(b"work", EntryKind::Touch)]));
    assert!(out.command.is_none() && !out.touch_prompt);

    assert_eq!(direct_requests, 1);
    assert_eq!(touch_prompts, 1);
}

#[test]
fn touch_rejection_fails_without_retry() {
    let mut engine = CodeEngine::new(b"work".to_vec(), 0);
    engine.step(DeviceEvent::ConnectOk);
    engine.step(DeviceEvent::SelectOk);
    engine.step(DeviceEvent::Enumerated(vec![entry(b"work", EntryKind::Touch)]));
    let out = engine.step(DeviceEvent::TransportFailed);
    assert!(out.command.is_none());
    assert!(matches!(engine.state, EngineState::Failed(TokenError::DeviceError)));
}

#[test]
fn counter_based_accounts_are_unsupported() {
    let mut engine = CodeEngine::new(b"work".to_vec(), 0);
    engine.step(DeviceEvent::ConnectOk);
    engine.step(DeviceEvent::SelectOk);
    engine.step(DeviceEvent::Enumerated(vec![entry(b"work", EntryKind::Hotp)]));
    assert!(matches!(engine.state, EngineState::Failed(TokenError::UnsupportedAccountMode)));
}

#[test]
fn absent_accounts_are_reported() {
    let mut engine = CodeEngine::new(b"work".to_vec(), 0);
    engine.step(DeviceEvent::ConnectOk);
    engine.step(DeviceEvent::SelectOk);
    engine.step(
        DeviceEvent::Enumerated(vec![entry(b"other", response(6, [0, 0, 0, 1]))]),
    );
    assert!(matches!(engine.state, EngineState::Failed(TokenError::AccountNotFound)));
}

#[test]
fn broken_listing_entries_fail_the_device() {
    let mut engine = CodeEngine::new(b"work".to_vec(), 0);
    engine.step(DeviceEvent::ConnectOk);
    engine.step(DeviceEvent::SelectOk);
    engine.step(
        DeviceEvent::Enumerated(
            vec![EnumItem::Broken, entry(b"work", response(6, [0, 0, 0, 1]))],
        ),
    );
    assert!(matches!(engine.state, EngineState::Failed(TokenError::DeviceError)));
}

#[test]
fn connection_and_selection_failures() {
    let mut engine = CodeEngine::new(b"work".to_vec(), 0);
    engine.step(DeviceEvent::ConnectFailed);
    assert!(matches!(engine.state, EngineState::Failed(TokenError::DeviceNotFound)));

    let mut engine = CodeEngine::new(b"work".to_vec(), 0);
    engine.step(DeviceEvent::ConnectOk);
    engine.step(DeviceEvent::SelectRejected);
    assert!(matches!(engine.state, EngineState::Failed(TokenError::DeviceError)));
}

#[test]
fn lookup_does_not_depend_on_listing_order() {
    let forward = vec![
        entry(b"a", EntryKind::Touch),
        entry(b"work", response(7, [1, 2, 3, 4])),
        entry(b"z", EntryKind::Hotp),
    ];
    let backward = vec![
        entry(b"z", EntryKind::Hotp),
        entry(b"work", response(7, [1, 2, 3, 4])),
        entry(b"a", EntryKind::Touch),
    ];
    match (resolve_entries(&forward, b"work"), resolve_entries(&backward, b"work")) {
        (
            Resolution::Found { digits: d1, raw: r1 },
            Resolution::Found { digits: d2, raw: r2 },
        ) => {
            assert_eq!(d1, d2);
            assert_eq!(r1, r2);
        },
        _ => panic!("both orderings must find the account's answer"),
    }
    // An absent name terminates with the same report in any order.
    assert!(matches!(
        resolve_entries(&forward, b"missing"),
        Resolution::Fail(TokenError::AccountNotFound)
    ));
    assert!(matches!(
        resolve_entries(&backward, b"missing"),
        Resolution::Fail(TokenError::AccountNotFound)
    ));
}
