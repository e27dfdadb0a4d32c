use vstd::prelude::*;
use crate::decision::{decide, spec_stale, Decision};
use crate::errors::{RenewError, TokenError};
use crate::store::{copy_bytes, spec_lookup, CredentialRecord, MfaDeviceEntry, Store};
use crate::timestamp::Timestamp;

verus! {

/// The fields of the identity service's exchange response, each
/// possibly missing.
#[derive(Debug)]
pub struct ExchangeParts {
    pub access_key_id: Option<Vec<u8>>,
    pub secret_access_key: Option<Vec<u8>>,
    pub session_token: Option<Vec<u8>>,
    pub expiration: Option<Timestamp>,
}

impl ExchangeParts {
    /// A response is complete when both required fields are present,
    /// the session token and the expiration come together or not at
    /// all, and the expiration is a calendar-valid instant.
    pub open spec fn complete(self) -> bool {
        &&& self.access_key_id is Some
        &&& self.secret_access_key is Some
        &&& (self.session_token is Some <==> self.expiration is Some)
        &&& (self.expiration matches Some(t) ==> t.valid())
    }
}

/// The record a complete response builds.
pub open spec fn spec_record_matches_parts(rec: CredentialRecord, parts: ExchangeParts) -> bool {
    &&& (parts.access_key_id matches Some(k) && rec.access_key_id@ == k@)
    &&& (parts.secret_access_key matches Some(s) && rec.secret_access_key@ == s@)
    &&& rec.session_token.deep_view() == parts.session_token.deep_view()
    &&& rec.expiration == parts.expiration
}

/// Builds the credential record from an exchange response.
///
/// Every required field must be present; a session token without an
/// expiration (or the reverse) is a data-integrity error rather than
/// something to accept silently.
pub fn record_from_exchange(parts: ExchangeParts) -> (r: Result<CredentialRecord, RenewError>)
    ensures
        r is Ok <==> parts.complete(),
        r matches Ok(rec) ==> spec_record_matches_parts(rec, parts) && rec.well_formed(),
        r matches Err(e) ==> e == RenewError::IncompleteResponse,
{
    let ExchangeParts { access_key_id, secret_access_key, session_token, expiration } = parts;
    let key = match access_key_id {
        Some(k) => k,
        None => {
            return Err(RenewError::IncompleteResponse);
        },
    };
    let secret = match secret_access_key {
        Some(s) => s,
        None => {
            return Err(RenewError::IncompleteResponse);
        },
    };
    if session_token.is_some() != expiration.is_some() {
        return Err(RenewError::IncompleteResponse);
    }
    if let Some(t) = &expiration {
        let in_range = t.year >= 1 && t.year <= 9999 && t.month >= 1 && t.month <= 12 && t.day >= 1 && t.day
            <= crate::timestamp::days_in_month(t.year, t.month) && t.hour <= 23 && t.minute <= 59
            && t.second <= 59;
        if !in_range {
            return Err(RenewError::IncompleteResponse);
        }
    }
    Ok(
        CredentialRecord {
            access_key_id: key,
            secret_access_key: secret,
            session_token,
            expiration,
        },
    )
}

/// Where one renewal run stands.
#[derive(Debug)]
pub enum RenewalState {
    Init,
    AwaitDevices,
    AwaitCode { serial: Vec<u8> },
    AwaitExchange { serial: Vec<u8> },
    Done(CredentialRecord),
    Failed(RenewError),
}

/// What the collaborators reported back to the renewal flow.
#[derive(Debug)]
pub enum RenewalEvent {
    /// Serial numbers of the identity's registered devices, in service
    /// order; a serial the service omitted is `None`.
    Devices(Vec<Option<Vec<u8>>>),
    /// The one-time code the engine produced.
    Code(Vec<u8>),
    /// The engine failed.
    CodeFailed(TokenError),
    /// The exchange response.
    Exchanged(ExchangeParts),
    /// The service declined the code.
    ExchangeRejected,
}

/// What the flow asks its caller to run next.
#[derive(Debug)]
pub enum RenewalCommand {
    ListDevices,
    ComputeCode { account: Vec<u8> },
    Exchange { serial: Vec<u8>, code: Vec<u8>, duration_secs: u64 },
    SaveStore,
}

/// One credential-renewal run over a loaded store.
///
/// The caller performs each returned command (a network call, or the
/// one-time-code session) and feeds the outcome back in; the flow
/// itself only decides. The store is written back (`SaveStore`) only
/// on the success path of an actual exchange; a reused fresh record
/// and every failure leave it untouched.
#[derive(Debug)]
pub struct RenewalFlow {
    pub store: Store,
    pub duration_secs: u64,
    pub now_secs: i64,
    pub state: RenewalState,
}

/// The transition relation of one renewal step: what the new flow and
/// the returned command must look like after `event` arrives in state
/// `pre.state`. An event that does not belong to the current state
/// changes nothing and asks for nothing.
pub open spec fn spec_renewal_step(
    pre: RenewalFlow,
    event: RenewalEvent,
    post: RenewalFlow,
    cmd: Option<RenewalCommand>,
) -> bool {
    &&& post.duration_secs == pre.duration_secs
    &&& post.now_secs == pre.now_secs
    &&& match (pre.state, event) {
        (RenewalState::AwaitDevices, RenewalEvent::Devices(list)) => {
            &&& post.store == pre.store
            &&& if list@.len() == 0 {
                post.state == RenewalState::Failed(RenewError::NoDeviceRegistered) && cmd is None
            } else {
                match list@[0] {
                    None => post.state == RenewalState::Failed(RenewError::IncompleteResponse)
                        && cmd is None,
                    Some(serial) => {
                        let cached = spec_lookup(pre.store.credentials@, serial@);
                        if !spec_stale(cached, pre.duration_secs, pre.now_secs) {
                            &&& (post.state matches RenewalState::Done(rec) && (
                            cached matches Some(c) && rec.same_record(c)))
                            &&& cmd is None
                        } else {
                            match spec_lookup(pre.store.mfa_devices@, serial@) {
                                None => post.state == RenewalState::Failed(
                                    RenewError::UnconfiguredDevice,
                                ) && cmd is None,
                                Some(MfaDeviceEntry::HardwareOathToken { account_name }) => {
                                    &&& (post.state matches RenewalState::AwaitCode {
                                        serial: s2,
                                    } && s2@ == serial@)
                                    &&& (cmd matches Some(RenewalCommand::ComputeCode {
                                        account,
                                    }) && account@ == account_name@)
                                },
                            }
                        }
                    },
                }
            }
        },
        (RenewalState::AwaitCode { serial }, RenewalEvent::Code(code)) => {
            &&& post.store == pre.store
            &&& (post.state matches RenewalState::AwaitExchange { serial: s2 } && s2@ == serial@)
            &&& (cmd matches Some(RenewalCommand::Exchange { serial: s3, code: c2, duration_secs })
                && s3@ == serial@ && c2@ == code@ && duration_secs == pre.duration_secs)
        },
        (RenewalState::AwaitCode { serial }, RenewalEvent::CodeFailed(e)) => {
            &&& post.store == pre.store
            &&& post.state == RenewalState::Failed(RenewError::Token(e))
            &&& cmd is None
        },
        (RenewalState::AwaitExchange { serial }, RenewalEvent::Exchanged(parts)) => {
            if parts.complete() {
                &&& (post.state matches RenewalState::Done(rec) && spec_record_matches_parts(
                    rec,
                    parts,
                ))
                &&& cmd matches Some(RenewalCommand::SaveStore)
                &&& (spec_lookup(post.store.credentials@, serial@) matches Some(rec2)
                    && spec_record_matches_parts(rec2, parts))
                &&& forall|k: Seq<u8>|
                    k != serial@ ==> spec_lookup(post.store.credentials@, k) == spec_lookup(
                        pre.store.credentials@,
                        k,
                    )
                &&& post.store.credentials@.len() == pre.store.credentials@.len() + (
                if spec_lookup(pre.store.credentials@, serial@) is Some {
                    0int
                } else {
                    1int
                })
                &&& post.store.mfa_devices@ == pre.store.mfa_devices@
            } else {
                &&& post.store == pre.store
                &&& post.state == RenewalState::Failed(RenewError::IncompleteResponse)
                &&& cmd is None
            }
        },
        (RenewalState::AwaitExchange { serial }, RenewalEvent::ExchangeRejected) => {
            &&& post.store == pre.store
            &&& post.state == RenewalState::Failed(RenewError::ExchangeRejected)
            &&& cmd is None
        },
        _ => post.store == pre.store && post.state == pre.state && cmd is None,
    }
}

impl RenewalFlow {
    /// The store keeps its invariant throughout the run.
    pub open spec fn wf(self) -> bool {
        self.store.well_formed()
    }

    /// Prepares a renewal run over a loaded store.
    pub fn new(store: Store, duration_secs: u64, now_secs: i64) -> (flow: RenewalFlow)
        requires
            store.well_formed(),
        ensures
            flow.wf(),
            flow.store == store,
            flow.duration_secs == duration_secs,
            flow.now_secs == now_secs,
            flow.state is Init,
    {
        RenewalFlow { store, duration_secs, now_secs, state: RenewalState::Init }
    }

    /// The first command of every run: ask the identity service which
    /// multi-factor devices are registered.
    pub fn start(&mut self) -> (cmd: RenewalCommand)
        requires
            old(self).state is Init,
            old(self).wf(),
        ensures
            final(self).wf(),
            final(self).store == old(self).store,
            final(self).duration_secs == old(self).duration_secs,
            final(self).now_secs == old(self).now_secs,
            final(self).state is AwaitDevices,
            cmd is ListDevices,
    {
        self.state = RenewalState::AwaitDevices;
        RenewalCommand::ListDevices
    }

    /// Advances the run by one collaborator event.
    pub fn step(&mut self, event: RenewalEvent) -> (cmd: Option<RenewalCommand>)
        requires
            old(self).wf(),
        ensures
            final(self).wf(),
            spec_renewal_step(*old(self), event, *final(self), cmd),
    {
        match (&self.state, event) {
            (RenewalState::AwaitDevices, RenewalEvent::Devices(list)) => {
                let mut list = list;
                if list.len() == 0 {
                    self.state = RenewalState::Failed(RenewError::NoDeviceRegistered);
                    return None;
                }
                let first = list.remove(0);
                let serial = match first {
                    None => {
                        self.state = RenewalState::Failed(RenewError::IncompleteResponse);
                        return None;
                    },
                    Some(serial) => serial,
                };
                let cached = self.store.lookup_credentials(serial.as_slice());
                let d = decide(cached, self.duration_secs, self.now_secs);
                match (d, cached) {
                    (Decision::Fresh, Some(rec)) => {
                        let rec_copy = rec.duplicate();
                        self.state = RenewalState::Done(rec_copy);
                        None
                    },
                    _ => {
                        let account = match self.store.lookup_device(serial.as_slice()) {
                            None => {
                                self.state = RenewalState::Failed(RenewError::UnconfiguredDevice);
                                return None;
                            },
                            Some(MfaDeviceEntry::HardwareOathToken { account_name }) => copy_bytes(
                                account_name,
                            ),
                        };
                        self.state = RenewalState::AwaitCode { serial };
                        Some(RenewalCommand::ComputeCode { account })
                    },
                }
            },
            (RenewalState::AwaitCode { serial }, RenewalEvent::Code(code)) => {
                let serial_copy = copy_bytes(serial);
                let serial_copy2 = copy_bytes(serial);
                self.state = RenewalState::AwaitExchange { serial: serial_copy };
                Some(
                    RenewalCommand::Exchange {
                        serial: serial_copy2,
                        code,
                        duration_secs: self.duration_secs,
                    },
                )
            },
            (RenewalState::AwaitCode { .. }, RenewalEvent::CodeFailed(e)) => {
                self.state = RenewalState::Failed(RenewError::Token(e));
                None
            },
            (RenewalState::AwaitExchange { serial }, RenewalEvent::Exchanged(parts)) => {
                let serial_copy = copy_bytes(serial);
                match record_from_exchange(parts) {
                    Ok(rec) => {
                        let rec_copy = rec.duplicate();
                        self.store.insert_credentials(serial_copy, rec);
                        self.state = RenewalState::Done(rec_copy);
                        Some(RenewalCommand::SaveStore)
                    },
                    Err(e) => {
                        self.state = RenewalState::Failed(e);
                        None
                    },
                }
            },
            (RenewalState::AwaitExchange { .. }, RenewalEvent::ExchangeRejected) => {
                self.state = RenewalState::Failed(RenewError::ExchangeRejected);
                None
            },
            (_, _) => None,
        }
    }
}

} // verus!
