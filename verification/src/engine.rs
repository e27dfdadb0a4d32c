use vstd::prelude::*;
use crate::errors::TokenError;
use crate::otp::{challenge_bytes, decode_code, spec_be64, spec_code};
use crate::store::{bytes_eq, copy_bytes};

verus! {

// ------------------------------------------------------------------
// Protocol data, as the device reports it.
// ------------------------------------------------------------------

/// How one enumerated account slot answered the challenge.
#[derive(Debug)]
pub enum EntryKind {
    /// The code was computed; `raw` is the 4-byte response before
    /// truncation and `digits` the declared code length.
    Response { digits: u8, raw: Vec<u8> },
    /// Counter-based slot; not supported by this engine.
    Hotp,
    /// The slot requires a physical touch before it will answer.
    Touch,
}

/// One account slot in an enumerate-mode listing.
#[derive(Debug)]
pub struct AccountEntry {
    pub name: Vec<u8>,
    pub kind: EntryKind,
}

/// One element of the enumerate-mode listing: a decoded entry, or a
/// per-entry transport failure.
#[derive(Debug)]
pub enum EnumItem {
    Entry(AccountEntry),
    Broken,
}

/// What the device (or its transport) reported back to the engine.
#[derive(Debug)]
pub enum DeviceEvent {
    ConnectOk,
    ConnectFailed,
    TransportFailed,
    SelectOk,
    SelectRejected,
    Enumerated(Vec<EnumItem>),
    DirectCode { digits: u8, raw: Vec<u8> },
    DirectMissing,
}

/// The next command the engine asks the transport to run.
#[derive(Debug)]
pub enum DeviceCommand {
    Connect,
    Select,
    CalculateAll { challenge: Vec<u8> },
    Calculate { name: Vec<u8>, challenge: Vec<u8> },
}

/// Where the session stands.
#[derive(Debug)]
pub enum EngineState {
    Start,
    Connected,
    Enumerating,
    TouchPending,
    CodeReady(Vec<u8>),
    Failed(TokenError),
}

/// What one step of the engine produced: possibly a command to run,
/// and whether the user must be told to touch the device. The touch
/// prompt is a side-channel notification, deliberately not part of
/// the final result.
#[derive(Debug)]
pub struct StepOutput {
    pub command: Option<DeviceCommand>,
    pub touch_prompt: bool,
}

// ------------------------------------------------------------------
// The mathematical model of the same data.
// ------------------------------------------------------------------

pub ghost enum KindM {
    Response { digits: u8, raw: Seq<u8> },
    Hotp,
    Touch,
}

pub ghost enum EntryM {
    Entry { name: Seq<u8>, kind: KindM },
    Broken,
}

pub ghost enum EventM {
    ConnectOk,
    ConnectFailed,
    TransportFailed,
    SelectOk,
    SelectRejected,
    Enumerated(Seq<EntryM>),
    DirectCode { digits: u8, raw: Seq<u8> },
    DirectMissing,
}

pub ghost enum CmdM {
    Connect,
    Select,
    CalculateAll { challenge: Seq<u8> },
    Calculate { name: Seq<u8>, challenge: Seq<u8> },
}

pub ghost enum StateM {
    Start,
    Connected,
    Enumerating,
    TouchPending,
    CodeReady(Seq<u8>),
    Failed(TokenError),
}

pub ghost struct StepM {
    pub state: StateM,
    pub cmd: Option<CmdM>,
    pub touch: bool,
}

impl View for EntryKind {
    type V = KindM;

    open spec fn view(&self) -> KindM {
        match self {
            EntryKind::Response { digits, raw } => KindM::Response { digits: *digits, raw: raw@ },
            EntryKind::Hotp => KindM::Hotp,
            EntryKind::Touch => KindM::Touch,
        }
    }
}

impl View for EnumItem {
    type V = EntryM;

    open spec fn view(&self) -> EntryM {
        match self {
            EnumItem::Entry(e) => EntryM::Entry { name: e.name@, kind: e.kind@ },
            EnumItem::Broken => EntryM::Broken,
        }
    }
}

/// The listing, entry by entry, as model values.
pub open spec fn items_view(items: Seq<EnumItem>) -> Seq<EntryM> {
    items.map_values(|e: EnumItem| e@)
}

impl View for DeviceEvent {
    type V = EventM;

    open spec fn view(&self) -> EventM {
        match self {
            DeviceEvent::ConnectOk => EventM::ConnectOk,
            DeviceEvent::ConnectFailed => EventM::ConnectFailed,
            DeviceEvent::TransportFailed => EventM::TransportFailed,
            DeviceEvent::SelectOk => EventM::SelectOk,
            DeviceEvent::SelectRejected => EventM::SelectRejected,
            DeviceEvent::Enumerated(items) => EventM::Enumerated(items_view(items@)),
            DeviceEvent::DirectCode { digits, raw } => EventM::DirectCode {
                digits: *digits,
                raw: raw@,
            },
            DeviceEvent::DirectMissing => EventM::DirectMissing,
        }
    }
}

impl View for DeviceCommand {
    type V = CmdM;

    open spec fn view(&self) -> CmdM {
        match self {
            DeviceCommand::Connect => CmdM::Connect,
            DeviceCommand::Select => CmdM::Select,
            DeviceCommand::CalculateAll { challenge } => CmdM::CalculateAll { challenge: challenge@ },
            DeviceCommand::Calculate { name, challenge } => CmdM::Calculate {
                name: name@,
                challenge: challenge@,
            },
        }
    }
}

impl View for EngineState {
    type V = StateM;

    open spec fn view(&self) -> StateM {
        match self {
            EngineState::Start => StateM::Start,
            EngineState::Connected => StateM::Connected,
            EngineState::Enumerating => StateM::Enumerating,
            EngineState::TouchPending => StateM::TouchPending,
            EngineState::CodeReady(code) => StateM::CodeReady(code@),
            EngineState::Failed(e) => StateM::Failed(*e),
        }
    }
}

/// The command of a step, as a model value.
pub open spec fn spec_cmd_view(c: Option<DeviceCommand>) -> Option<CmdM> {
    match c {
        None => None,
        Some(cmd) => Some(cmd@),
    }
}

// ------------------------------------------------------------------
// Enumerate-mode resolution.
// ------------------------------------------------------------------

/// What scanning the listing for an account concluded.
#[derive(Debug)]
pub enum Resolution {
    /// The slot had already computed its code.
    Found { digits: u8, raw: Vec<u8> },
    /// The slot needs a physical touch; a direct request must follow.
    NeedsTouch,
    /// The scan failed with the given error.
    Fail(TokenError),
}

pub ghost enum ResolutionM {
    Found { digits: u8, raw: Seq<u8> },
    NeedsTouch,
    Fail(TokenError),
}

impl View for Resolution {
    type V = ResolutionM;

    open spec fn view(&self) -> ResolutionM {
        match self {
            Resolution::Found { digits, raw } => ResolutionM::Found { digits: *digits, raw: raw@ },
            Resolution::NeedsTouch => ResolutionM::NeedsTouch,
            Resolution::Fail(e) => ResolutionM::Fail(*e),
        }
    }
}

/// Scans the listing front to back and stops at the first per-entry
/// failure or the first entry bearing the requested name, exactly as
/// the lazy device listing is consumed.
pub open spec fn spec_resolve(items: Seq<EntryM>, name: Seq<u8>) -> ResolutionM
    decreases items.len(),
{
    if items.len() == 0 {
        ResolutionM::Fail(TokenError::AccountNotFound)
    } else {
        match items[0] {
            EntryM::Broken => ResolutionM::Fail(TokenError::DeviceError),
            EntryM::Entry { name: n, kind } => if n == name {
                match kind {
                    KindM::Response { digits, raw } => ResolutionM::Found { digits, raw },
                    KindM::Hotp => ResolutionM::Fail(TokenError::UnsupportedAccountMode),
                    KindM::Touch => ResolutionM::NeedsTouch,
                }
            } else {
                spec_resolve(items.drop_first(), name)
            },
        }
    }
}

/// Looks the requested account up in an enumerate-mode listing.
pub fn resolve_entries(items: &Vec<EnumItem>, name: &[u8]) -> (r: Resolution)
    ensures
        r@ == spec_resolve(items_view(items@), name@),
{
    let ghost iv = items_view(items@);
    proof {
        assert(iv.skip(0) =~= iv);
    }
    let mut i: usize = 0;
    while i < items.len()
        invariant
            iv == items_view(items@),
            iv.len() == items@.len(),
            i <= items@.len(),
            spec_resolve(iv, name@) == spec_resolve(iv.skip(i as int), name@),
        decreases items@.len() - i,
    {
        proof {
            assert(iv.skip(i as int)[0] == iv[i as int]);
        }
        match &items[i] {
            EnumItem::Broken => {
                return Resolution::Fail(TokenError::DeviceError);
            },
            EnumItem::Entry(entry) => {
                if bytes_eq(entry.name.as_slice(), name) {
                    match &entry.kind {
                        EntryKind::Response { digits, raw } => {
                            return Resolution::Found { digits: *digits, raw: copy_bytes(raw) };
                        },
                        EntryKind::Hotp => {
                            return Resolution::Fail(TokenError::UnsupportedAccountMode);
                        },
                        EntryKind::Touch => {
                            return Resolution::NeedsTouch;
                        },
                    }
                }
            },
        }
        proof {
            assert(iv.skip(i as int).drop_first() =~= iv.skip(i as int + 1));
        }
        i += 1;
    }
    proof {
        assert(iv.skip(i as int) =~= Seq::<EntryM>::empty());
    }
    Resolution::Fail(TokenError::AccountNotFound)
}

// ------------------------------------------------------------------
// The session state machine.
// ------------------------------------------------------------------

/// What decoding a 4-byte response yields at the model level.
pub open spec fn spec_decode(digits: u8, raw: Seq<u8>) -> Result<Seq<u8>, TokenError> {
    if 1 <= digits <= 9 && raw.len() == 4 {
        Ok(spec_code(digits, raw))
    } else {
        Err(TokenError::DeviceError)
    }
}

/// The transition relation of the one-time-code session, as a total
/// function: an event that does not belong to the current state
/// leaves the state unchanged and asks for nothing.
pub open spec fn spec_step(pre: StateM, account: Seq<u8>, challenge: Seq<u8>, ev: EventM) -> StepM {
    match (pre, ev) {
        (StateM::Start, EventM::ConnectOk) => StepM {
            state: StateM::Connected,
            cmd: Some(CmdM::Select),
            touch: false,
        },
        (StateM::Start, EventM::ConnectFailed) => StepM {
            state: StateM::Failed(TokenError::DeviceNotFound),
            cmd: None,
            touch: false,
        },
        (StateM::Start, EventM::TransportFailed) => StepM {
            state: StateM::Failed(TokenError::DeviceError),
            cmd: None,
            touch: false,
        },
        (StateM::Connected, EventM::SelectOk) => StepM {
            state: StateM::Enumerating,
            cmd: Some(CmdM::CalculateAll { challenge }),
            touch: false,
        },
        (StateM::Connected, EventM::SelectRejected) => StepM {
            state: StateM::Failed(TokenError::DeviceError),
            cmd: None,
            touch: false,
        },
        (StateM::Connected, EventM::TransportFailed) => StepM {
            state: StateM::Failed(TokenError::DeviceError),
            cmd: None,
            touch: false,
        },
        (StateM::Enumerating, EventM::Enumerated(items)) => match spec_resolve(items, account) {
            ResolutionM::Found { digits, raw } => match spec_decode(digits, raw) {
                Ok(code) => StepM { state: StateM::CodeReady(code), cmd: None, touch: false },
                Err(e) => StepM { state: StateM::Failed(e), cmd: None, touch: false },
            },
            ResolutionM::NeedsTouch => StepM {
                state: StateM::TouchPending,
                cmd: Some(CmdM::Calculate { name: account, challenge }),
                touch: true,
            },
            ResolutionM::Fail(e) => StepM { state: StateM::Failed(e), cmd: None, touch: false },
        },
        (StateM::Enumerating, EventM::TransportFailed) => StepM {
            state: StateM::Failed(TokenError::DeviceError),
            cmd: None,
            touch: false,
        },
        (StateM::TouchPending, EventM::DirectCode { digits, raw }) => match spec_decode(
            digits,
            raw,
        ) {
            Ok(code) => StepM { state: StateM::CodeReady(code), cmd: None, touch: false },
            Err(e) => StepM { state: StateM::Failed(e), cmd: None, touch: false },
        },
        (StateM::TouchPending, EventM::DirectMissing) => StepM {
            state: StateM::Failed(TokenError::AccountNotFound),
            cmd: None,
            touch: false,
        },
        (StateM::TouchPending, EventM::TransportFailed) => StepM {
            state: StateM::Failed(TokenError::DeviceError),
            cmd: None,
            touch: false,
        },
        _ => StepM { state: pre, cmd: None, touch: false },
    }
}

/// A one-time-code session for one account at one instant.
///
/// The session is driven from outside: the caller runs each returned
/// command against the device transport and feeds the outcome back
/// in. Terminal states are `CodeReady` and `Failed`; nothing is ever
/// retried within a session.
#[derive(Debug)]
pub struct CodeEngine {
    pub account: Vec<u8>,
    pub challenge: Vec<u8>,
    pub state: EngineState,
}

impl CodeEngine {
    /// Opens a session: the challenge is the 30-second time step of
    /// `now_secs`, big endian, as the token expects it.
    pub fn new(account: Vec<u8>, now_secs: i64) -> (e: CodeEngine)
        requires
            now_secs >= 0,
        ensures
            e.account@ == account@,
            e.challenge@ == spec_be64((now_secs as int / 30) as u64),
            e.state@ == StateM::Start,
    {
        let challenge = challenge_bytes(now_secs);
        CodeEngine { account, challenge, state: EngineState::Start }
    }

    /// The first command of every session.
    pub fn begin(&self) -> (c: DeviceCommand)
        ensures
            c@ == CmdM::Connect,
    {
        DeviceCommand::Connect
    }

    /// Advances the session by one device event.
    pub fn step(&mut self, event: DeviceEvent) -> (out: StepOutput)
        ensures
            final(self).account@ == old(self).account@,
            final(self).challenge@ == old(self).challenge@,
            final(self).state@ == spec_step(
                old(self).state@,
                old(self).account@,
                old(self).challenge@,
                event@,
            ).state,
            spec_cmd_view(out.command) == spec_step(
                old(self).state@,
                old(self).account@,
                old(self).challenge@,
                event@,
            ).cmd,
            out.touch_prompt == spec_step(
                old(self).state@,
                old(self).account@,
                old(self).challenge@,
                event@,
            ).touch,
    {
        match (&self.state, event) {
            (EngineState::Start, DeviceEvent::ConnectOk) => {
                self.state = EngineState::Connected;
                StepOutput { command: Some(DeviceCommand::Select), touch_prompt: false }
            },
            (EngineState::Start, DeviceEvent::ConnectFailed) => {
                self.state = EngineState::Failed(TokenError::DeviceNotFound);
                StepOutput { command: None, touch_prompt: false }
            },
            (EngineState::Start, DeviceEvent::TransportFailed) => {
                self.state = EngineState::Failed(TokenError::DeviceError);
                StepOutput { command: None, touch_prompt: false }
            },
            (EngineState::Connected, DeviceEvent::SelectOk) => {
                let challenge = copy_bytes(&self.challenge);
                self.state = EngineState::Enumerating;
                StepOutput {
                    command: Some(DeviceCommand::CalculateAll { challenge }),
                    touch_prompt: false,
                }
            },
            (EngineState::Connected, DeviceEvent::SelectRejected) => {
                self.state = EngineState::Failed(TokenError::DeviceError);
                StepOutput { command: None, touch_prompt: false }
            },
            (EngineState::Connected, DeviceEvent::TransportFailed) => {
                self.state = EngineState::Failed(TokenError::DeviceError);
                StepOutput { command: None, touch_prompt: false }
            },
            (EngineState::Enumerating, DeviceEvent::Enumerated(items)) => {
                match resolve_entries(&items, self.account.as_slice()) {
                    Resolution::Found { digits, raw } => match decode_code(digits, raw.as_slice()) {
                        Ok(code) => {
                            self.state = EngineState::CodeReady(code);
                            StepOutput { command: None, touch_prompt: false }
                        },
                        Err(e) => {
                            self.state = EngineState::Failed(e);
                            StepOutput { command: None, touch_prompt: false }
                        },
                    },
                    Resolution::NeedsTouch => {
                        let name = copy_bytes(&self.account);
                        let challenge = copy_bytes(&self.challenge);
                        self.state = EngineState::TouchPending;
                        StepOutput {
                            command: Some(DeviceCommand::Calculate { name, challenge }),
                            touch_prompt: true,
                        }
                    },
                    Resolution::Fail(e) => {
                        self.state = EngineState::Failed(e);
                        StepOutput { command: None, touch_prompt: false }
                    },
                }
            },
            (EngineState::Enumerating, DeviceEvent::TransportFailed) => {
                self.state = EngineState::Failed(TokenError::DeviceError);
                StepOutput { command: None, touch_prompt: false }
            },
            (EngineState::TouchPending, DeviceEvent::DirectCode { digits, raw }) => {
                match decode_code(digits, raw.as_slice()) {
                    Ok(code) => {
                        self.state = EngineState::CodeReady(code);
                        StepOutput { command: None, touch_prompt: false }
                    },
                    Err(e) => {
                        self.state = EngineState::Failed(e);
                        StepOutput { command: None, touch_prompt: false }
                    },
                }
            },
            (EngineState::TouchPending, DeviceEvent::DirectMissing) => {
                self.state = EngineState::Failed(TokenError::AccountNotFound);
                StepOutput { command: None, touch_prompt: false }
            },
            (EngineState::TouchPending, DeviceEvent::TransportFailed) => {
                self.state = EngineState::Failed(TokenError::DeviceError);
                StepOutput { command: None, touch_prompt: false }
            },
            (_, _) => StepOutput { command: None, touch_prompt: false },
        }
    }
}

// ------------------------------------------------------------------
// Session-wide guarantees.
// ------------------------------------------------------------------

/// Folds a whole event sequence through the machine, counting how
/// many direct-mode (`Calculate`) follow-up requests were issued.
pub open spec fn spec_run(
    pre: StateM,
    account: Seq<u8>,
    challenge: Seq<u8>,
    events: Seq<EventM>,
) -> (StateM, nat)
    decreases events.len(),
{
    if events.len() == 0 {
        (pre, 0)
    } else {
        let first = spec_step(pre, account, challenge, events[0]);
        let emitted: nat = if first.cmd matches Some(CmdM::Calculate { .. }) {
            1
        } else {
            0
        };
        let rest = spec_run(first.state, account, challenge, events.drop_first());
        (rest.0, emitted + rest.1)
    }
}

/// How many direct-mode requests a state may still cause.
pub open spec fn spec_direct_budget(s: StateM) -> nat {
    match s {
        StateM::TouchPending => 0,
        StateM::CodeReady(_) => 0,
        StateM::Failed(_) => 0,
        _ => 1,
    }
}

proof fn lemma_run_direct_bound(pre: StateM, account: Seq<u8>, challenge: Seq<u8>, events: Seq<EventM>)
    ensures
        spec_run(pre, account, challenge, events).1 <= spec_direct_budget(pre),
    decreases events.len(),
{
    if events.len() > 0 {
        let first = spec_step(pre, account, challenge, events[0]);
        lemma_run_direct_bound(first.state, account, challenge, events.drop_first());
    }
}

/// A touch-required account triggers at most one direct-mode
/// follow-up request over any whole session, and none at all once
/// the follow-up is pending: there is no retry loop. The single
/// follow-up is issued exactly on the transition into `TouchPending`
/// (see `spec_step`), which also raises the touch prompt.
pub proof fn lemma_touch_single_follow_up(account: Seq<u8>, challenge: Seq<u8>, events: Seq<EventM>)
    ensures
        spec_run(StateM::Start, account, challenge, events).1 <= 1,
        spec_run(StateM::TouchPending, account, challenge, events).1 == 0,
{
    lemma_run_direct_bound(StateM::Start, account, challenge, events);
    lemma_run_direct_bound(StateM::TouchPending, account, challenge, events);
}

/// `CodeReady` and `Failed` are terminal: once reached, no sequence
/// of further events changes the state or runs another command — a
/// failed or finished session can only be re-run from scratch.
pub proof fn lemma_terminal_states_are_stable(
    s: StateM,
    account: Seq<u8>,
    challenge: Seq<u8>,
    events: Seq<EventM>,
)
    requires
        s is CodeReady || s is Failed,
    ensures
        spec_run(s, account, challenge, events).0 == s,
        spec_run(s, account, challenge, events).1 == 0,
    decreases events.len(),
{
    if events.len() > 0 {
        lemma_terminal_states_are_stable(s, account, challenge, events.drop_first());
    }
}

// ------------------------------------------------------------------
// Order independence of enumerate-mode lookup.
// ------------------------------------------------------------------

/// Every element of the listing is a decoded entry.
pub open spec fn all_listed(items: Seq<EntryM>) -> bool {
    forall|i: int| 0 <= i < items.len() ==> (#[trigger] items[i]) is Entry
}

/// Some entry bears the requested name.
pub open spec fn has_account(items: Seq<EntryM>, name: Seq<u8>) -> bool {
    exists|i: int|
        #![trigger items[i]]
        0 <= i < items.len() && (items[i] matches EntryM::Entry { name: n, .. } && n == name)
}

/// Every entry bearing the requested name answers with kind `k`.
pub open spec fn account_kind_is(items: Seq<EntryM>, name: Seq<u8>, k: KindM) -> bool {
    forall|i: int|
        #![trigger items[i]]
        0 <= i < items.len() ==> match items[i] {
            EntryM::Entry { name: n, kind } => n == name ==> kind == k,
            EntryM::Broken => true,
        }
}

/// What resolution concludes for a kind, once found.
pub open spec fn spec_resolution_of(k: KindM) -> ResolutionM {
    match k {
        KindM::Response { digits, raw } => ResolutionM::Found { digits, raw },
        KindM::Hotp => ResolutionM::Fail(TokenError::UnsupportedAccountMode),
        KindM::Touch => ResolutionM::NeedsTouch,
    }
}

/// In a clean listing that holds the account, resolution returns the
/// account's own answer, wherever in the listing it sits.
pub proof fn lemma_resolve_found(items: Seq<EntryM>, name: Seq<u8>, k: KindM)
    requires
        all_listed(items),
        has_account(items, name),
        account_kind_is(items, name, k),
    ensures
        spec_resolve(items, name) == spec_resolution_of(k),
    decreases items.len(),
{
    let rest = items.drop_first();
    assert(forall|j: int| 1 <= j < items.len() ==> rest[j - 1] == #[trigger] items[j]);
    match items[0] {
        EntryM::Entry { name: n, kind } => {
            if n != name {
                let i = choose|i: int|
                    #![trigger items[i]]
                    0 <= i < items.len() && (items[i] matches EntryM::Entry { name: n2, .. } && n2
                        == name);
                assert(i >= 1);
                assert(rest[i - 1] == items[i]);
                assert(has_account(rest, name));
                lemma_resolve_found(rest, name, k);
            }
        },
        EntryM::Broken => {
            assert(items[0] is Entry);
        },
    }
}

/// In a clean listing without the account, resolution reports that
/// the account is absent; the scan always terminates.
pub proof fn lemma_resolve_absent(items: Seq<EntryM>, name: Seq<u8>)
    requires
        all_listed(items),
        !has_account(items, name),
    ensures
        spec_resolve(items, name) == ResolutionM::Fail(TokenError::AccountNotFound),
    decreases items.len(),
{
    if items.len() > 0 {
        let rest = items.drop_first();
        assert(forall|j: int| 1 <= j < items.len() ==> rest[j - 1] == #[trigger] items[j]);
        match items[0] {
            EntryM::Entry { name: n, kind } => {
                assert(n != name);
                assert(!has_account(rest, name)) by {
                    if has_account(rest, name) {
                        let i = choose|i: int|
                            #![trigger rest[i]]
                            0 <= i < rest.len() && (rest[i] matches EntryM::Entry { name: n2, .. }
                                && n2 == name);
                        assert(items[i + 1] == rest[i]);
                        assert(has_account(items, name));
                    }
                }
                lemma_resolve_absent(rest, name);
            },
            EntryM::Broken => {
                assert(items[0] is Entry);
            },
        }
    }
}

/// Enumerate-mode lookup is order independent: two clean listings of
/// the same accounts — the requested name either present with one
/// answer in both, or absent from both — resolve identically, however
/// the listings are ordered.
pub proof fn lemma_resolve_order_independent(
    items1: Seq<EntryM>,
    items2: Seq<EntryM>,
    name: Seq<u8>,
    k: KindM,
)
    requires
        all_listed(items1),
        all_listed(items2),
        has_account(items1, name) == has_account(items2, name),
        account_kind_is(items1, name, k),
        account_kind_is(items2, name, k),
    ensures
        spec_resolve(items1, name) == spec_resolve(items2, name),
{
    if has_account(items1, name) {
        lemma_resolve_found(items1, name, k);
        lemma_resolve_found(items2, name, k);
    } else {
        lemma_resolve_absent(items1, name);
        lemma_resolve_absent(items2, name);
    }
}

} // verus!
