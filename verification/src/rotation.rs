use vstd::prelude::*;
use crate::errors::RenewError;
use crate::store::{bytes_eq, copy_bytes, spec_lookup, CredentialRecord, Store};

verus! {

/// Where one key-rotation run stands.
#[derive(Debug)]
pub enum RotationState {
    Init,
    AwaitKeys,
    /// Keys still to delete; the next one is taken from the back.
    Deleting { pending: Vec<Vec<u8>> },
    AwaitCreate,
    Done(CredentialRecord),
    Failed(RenewError),
}

/// What the identity service reported back to the rotation flow.
#[derive(Debug)]
pub enum RotationEvent {
    /// Identifiers of the keys currently associated with the
    /// identity; one the service omitted is `None`.
    Keys(Vec<Option<Vec<u8>>>),
    /// A requested deletion went through.
    Deleted,
    /// The newly created key pair.
    Created { access_key_id: Option<Vec<u8>>, secret_access_key: Option<Vec<u8>> },
}

/// What the flow asks its caller to run next.
#[derive(Debug)]
pub enum RotationCommand {
    ListKeys,
    DeleteKey { access_key_id: Vec<u8> },
    CreateKey,
    SaveStore,
}

/// The views of a sequence of byte strings.
pub open spec fn keys_view(s: Seq<Vec<u8>>) -> Seq<Seq<u8>> {
    s.map_values(|v: Vec<u8>| v@)
}

/// Every listed key id is present.
pub open spec fn all_present(list: Seq<Option<Vec<u8>>>) -> bool {
    forall|i: int| 0 <= i < list.len() ==> (#[trigger] list[i]) is Some
}

/// The listed key ids as byte strings.
pub open spec fn spec_ids(list: Seq<Option<Vec<u8>>>) -> Seq<Seq<u8>> {
    list.map_values(
        |o: Option<Vec<u8>>|
            match o {
                Some(v) => v@,
                None => Seq::empty(),
            },
    )
}

/// The keys rotation must delete: every listed key that does not
/// match the cached one, in listing order.
pub open spec fn spec_deletions(ids: Seq<Seq<u8>>, cached: Seq<u8>) -> Seq<Seq<u8>>
    decreases ids.len(),
{
    if ids.len() == 0 {
        Seq::empty()
    } else {
        let init = spec_deletions(ids.drop_last(), cached);
        if ids.last() == cached {
            init
        } else {
            init.push(ids.last())
        }
    }
}

/// One key-rotation run over a loaded store.
///
/// Rotation is unconditional: it lists the identity's access keys,
/// deletes every key that does not match the cached one, creates one
/// new key, and overwrites the cache with it. It must not run
/// concurrently with itself, since it deletes before creating.
#[derive(Debug)]
pub struct RotationFlow {
    pub store: Store,
    /// The store key under which the rotated record is cached.
    pub iam: Vec<u8>,
    /// The access key id the cache currently holds.
    pub cached_key: Vec<u8>,
    pub state: RotationState,
}

/// The transition relation of one rotation step. An event that does
/// not belong to the current state changes nothing and asks for
/// nothing.
pub open spec fn spec_rotation_step(
    pre: RotationFlow,
    event: RotationEvent,
    post: RotationFlow,
    cmd: Option<RotationCommand>,
) -> bool {
    &&& post.iam == pre.iam
    &&& post.cached_key == pre.cached_key
    &&& match (pre.state, event) {
        (RotationState::AwaitKeys, RotationEvent::Keys(list)) => {
            &&& post.store == pre.store
            &&& if !all_present(list@) {
                post.state == RotationState::Failed(RenewError::IncompleteResponse) && cmd is None
            } else {
                let dels = spec_deletions(spec_ids(list@), pre.cached_key@);
                if dels.len() == 0 {
                    post.state is AwaitCreate && (cmd matches Some(RotationCommand::CreateKey))
                } else {
                    &&& (post.state matches RotationState::Deleting { pending } && (
                    cmd matches Some(RotationCommand::DeleteKey { access_key_id }) && keys_view(
                        pending@,
                    ).push(access_key_id@) == dels))
                }
            }
        },
        (RotationState::Deleting { pending }, RotationEvent::Deleted) => {
            &&& post.store == pre.store
            &&& if pending@.len() == 0 {
                post.state is AwaitCreate && (cmd matches Some(RotationCommand::CreateKey))
            } else {
                &&& (post.state matches RotationState::Deleting { pending: pending2 } && (
                cmd matches Some(RotationCommand::DeleteKey { access_key_id }) && keys_view(
                    pending2@,
                ).push(access_key_id@) == keys_view(pending@)))
            }
        },
        (RotationState::AwaitCreate, RotationEvent::Created { access_key_id, secret_access_key }) => {
            match (access_key_id, secret_access_key) {
                (Some(id), Some(secret)) => {
                    &&& (post.state matches RotationState::Done(rec) && rec.access_key_id@ == id@
                        && rec.secret_access_key@ == secret@ && rec.session_token is None
                        && rec.expiration is None)
                    &&& cmd matches Some(RotationCommand::SaveStore)
                    &&& (spec_lookup(post.store.credentials@, pre.iam@) matches Some(rec2)
                        && rec2.access_key_id@ == id@ && rec2.secret_access_key@ == secret@
                        && rec2.session_token is None && rec2.expiration is None)
                    &&& forall|k: Seq<u8>|
                        k != pre.iam@ ==> spec_lookup(post.store.credentials@, k) == spec_lookup(
                            pre.store.credentials@,
                            k,
                        )
                    &&& post.store.mfa_devices@ == pre.store.mfa_devices@
                },
                _ => {
                    &&& post.store == pre.store
                    &&& post.state == RotationState::Failed(RenewError::IncompleteResponse)
                    &&& cmd is None
                },
            }
        },
        _ => post.store == pre.store && post.state == pre.state && cmd is None,
    }
}

impl RotationFlow {
    /// The store keeps its invariant throughout the run.
    pub open spec fn wf(self) -> bool {
        self.store.well_formed()
    }

    /// Prepares a rotation run: `iam` names the cached identity and
    /// `cached_key` is the access key id its record currently holds.
    pub fn new(store: Store, iam: Vec<u8>, cached_key: Vec<u8>) -> (flow: RotationFlow)
        requires
            store.well_formed(),
        ensures
            flow.wf(),
            flow.store == store,
            flow.iam == iam,
            flow.cached_key == cached_key,
            flow.state is Init,
    {
        RotationFlow { store, iam, cached_key, state: RotationState::Init }
    }

    /// The first command of every run: list the identity's keys.
    pub fn start(&mut self) -> (cmd: RotationCommand)
        requires
            old(self).state is Init,
            old(self).wf(),
        ensures
            final(self).wf(),
            final(self).store == old(self).store,
            final(self).iam == old(self).iam,
            final(self).cached_key == old(self).cached_key,
            final(self).state is AwaitKeys,
            cmd is ListKeys,
    {
        self.state = RotationState::AwaitKeys;
        RotationCommand::ListKeys
    }

    /// Advances the run by one service event.
    #[verifier::loop_isolation(false)]
    pub fn step(&mut self, event: RotationEvent) -> (cmd: Option<RotationCommand>)
        requires
            old(self).wf(),
        ensures
            final(self).wf(),
            spec_rotation_step(*old(self), event, *final(self), cmd),
    {
        match (&self.state, event) {
            (RotationState::AwaitKeys, RotationEvent::Keys(list)) => {
                let ghost ids = spec_ids(list@);
                let mut dels: Vec<Vec<u8>> = Vec::new();
                let mut i: usize = 0;
                while i < list.len()
                    invariant
                        *self == *old(self),
                        i <= list@.len(),
                        forall|j: int| 0 <= j < i ==> (#[trigger] list@[j]) is Some,
                        keys_view(dels@) == spec_deletions(ids.take(i as int), self.cached_key@),
                    decreases list@.len() - i,
                {
                    match &list[i] {
                        None => {
                            self.state = RotationState::Failed(RenewError::IncompleteResponse);
                            return None;
                        },
                        Some(k) => {
                            proof {
                                assert(ids.take(i as int + 1).drop_last() =~= ids.take(i as int));
                                assert(ids.take(i as int + 1).last() == k@);
                            }
                            if !bytes_eq(k.as_slice(), self.cached_key.as_slice()) {
                                dels.push(copy_bytes(k));
                                proof {
                                    assert(keys_view(dels@) =~= keys_view(
                                        dels@.drop_last(),
                                    ).push(k@));
                                }
                            }
                        },
                    }
                    i += 1;
                }
                proof {
                    assert(ids.take(list@.len() as int) =~= ids);
                }
                let next = dels.pop();
                match next {
                    None => {
                        self.state = RotationState::AwaitCreate;
                        Some(RotationCommand::CreateKey)
                    },
                    Some(del) => {
                        proof {
                            assert(keys_view(dels@).push(del@) =~= spec_deletions(
                                ids,
                                self.cached_key@,
                            ));
                        }
                        self.state = RotationState::Deleting { pending: dels };
                        Some(RotationCommand::DeleteKey { access_key_id: del })
                    },
                }
            },
            (RotationState::Deleting { pending }, RotationEvent::Deleted) => {
                let n = pending.len();
                if n == 0 {
                    self.state = RotationState::AwaitCreate;
                    Some(RotationCommand::CreateKey)
                } else {
                    let del = copy_bytes(&pending[n - 1]);
                    let mut rest: Vec<Vec<u8>> = Vec::new();
                    let mut i: usize = 0;
                    while i < n - 1
                        invariant
                            n == pending@.len(),
                            n >= 1,
                            i <= n - 1,
                            keys_view(rest@) == keys_view(pending@).take(i as int),
                        decreases n - 1 - i,
                    {
                        rest.push(copy_bytes(&pending[i]));
                        proof {
                            assert(keys_view(rest@) =~= keys_view(pending@).take(i as int + 1));
                        }
                        i += 1;
                    }
                    proof {
                        assert(keys_view(rest@).push(del@) =~= keys_view(pending@));
                    }
                    self.state = RotationState::Deleting { pending: rest };
                    Some(RotationCommand::DeleteKey { access_key_id: del })
                }
            },
            (
                RotationState::AwaitCreate,
                RotationEvent::Created { access_key_id, secret_access_key },
            ) => {
                match (access_key_id, secret_access_key) {
                    (Some(id), Some(secret)) => {
                        let rec = CredentialRecord {
                            access_key_id: id,
                            secret_access_key: secret,
                            session_token: None,
                            expiration: None,
                        };
                        let rec_copy = rec.duplicate();
                        let iam_copy = copy_bytes(&self.iam);
                        self.store.insert_credentials(iam_copy, rec);
                        self.state = RotationState::Done(rec_copy);
                        Some(RotationCommand::SaveStore)
                    },
                    _ => {
                        self.state = RotationState::Failed(RenewError::IncompleteResponse);
                        None
                    },
                }
            },
            (_, _) => None,
        }
    }
}

} // verus!
