use vstd::prelude::*;
use crate::timestamp::Timestamp;

verus! {

/// Compares two byte strings for equality.
pub fn bytes_eq(a: &[u8], b: &[u8]) -> (r: bool)
    ensures
        r <==> a@ == b@,
{
    if a.len() != b.len() {
        proof {
            assert(a@.len() != b@.len());
        }
        return false;
    }
    let mut i: usize = 0;
    while i < a.len()
        invariant
            a@.len() == b@.len(),
            i <= a@.len(),
            forall|j: int| 0 <= j < i ==> a@[j] == b@[j],
        decreases a@.len() - i,
    {
        if a[i] != b[i] {
            return false;
        }
        i += 1;
    }
    proof {
        assert(a@ =~= b@);
    }
    true
}

/// Copies a byte string.
pub fn copy_bytes(src: &Vec<u8>) -> (r: Vec<u8>)
    ensures
        r@ == src@,
{
    let mut out: Vec<u8> = Vec::new();
    let mut i: usize = 0;
    while i < src.len()
        invariant
            i <= src@.len(),
            out@ == src@.take(i as int),
        decreases src@.len() - i,
    {
        out.push(src[i]);
        proof {
            assert(out@ =~= src@.take(i as int + 1));
        }
        i += 1;
    }
    proof {
        assert(out@ =~= src@);
    }
    out
}

/// A cached credential: either a long-lived access key pair, or
/// temporary session credentials that also carry a session token and
/// an expiration.
#[derive(Clone, Debug)]
pub struct CredentialRecord {
    pub access_key_id: Vec<u8>,
    pub secret_access_key: Vec<u8>,
    pub session_token: Option<Vec<u8>>,
    pub expiration: Option<Timestamp>,
}

impl CredentialRecord {
    /// Temporary credentials carry a session token and an expiration
    /// together or not at all, and any expiration is a valid instant.
    pub open spec fn well_formed(self) -> bool {
        &&& self.session_token is Some <==> self.expiration is Some
        &&& (self.expiration matches Some(e) ==> e.valid())
    }

    /// Field-for-field equality of the held values.
    pub open spec fn same_record(self, other: Self) -> bool {
        &&& self.access_key_id@ == other.access_key_id@
        &&& self.secret_access_key@ == other.secret_access_key@
        &&& self.session_token.deep_view() == other.session_token.deep_view()
        &&& self.expiration == other.expiration
    }

    /// An equal, independently owned record.
    pub fn duplicate(&self) -> (r: CredentialRecord)
        ensures
            r.same_record(*self),
            r.well_formed() == self.well_formed(),
    {
        CredentialRecord {
            access_key_id: copy_bytes(&self.access_key_id),
            secret_access_key: copy_bytes(&self.secret_access_key),
            session_token: match &self.session_token {
                Some(t) => Some(copy_bytes(t)),
                None => None,
            },
            expiration: self.expiration,
        }
    }
}

/// A registered multi-factor device, keyed in the store by its serial
/// number. The set of kinds is closed here; an unrecognized kind in
/// the persisted document is rejected loudly when loading.
#[derive(Clone, Debug)]
pub enum MfaDeviceEntry {
    /// A hardware OATH token slot holding the named account.
    HardwareOathToken { account_name: Vec<u8> },
}

impl MfaDeviceEntry {
    /// Field-for-field equality of the held values.
    pub open spec fn same_entry(self, other: Self) -> bool {
        match (self, other) {
            (
                MfaDeviceEntry::HardwareOathToken { account_name: a },
                MfaDeviceEntry::HardwareOathToken { account_name: b },
            ) => a@ == b@,
        }
    }
}

/// The first record associated with `key`, if any.
pub open spec fn spec_lookup<T>(entries: Seq<(Vec<u8>, T)>, key: Seq<u8>) -> Option<T>
    decreases entries.len(),
{
    if entries.len() == 0 {
        None
    } else if entries[0].0@ == key {
        Some(entries[0].1)
    } else {
        spec_lookup(entries.drop_first(), key)
    }
}

/// No two entries share a key.
pub open spec fn unique_keys<T>(entries: Seq<(Vec<u8>, T)>) -> bool {
    forall|i: int, j: int| 0 <= i < j < entries.len() ==> entries[i].0@ != entries[j].0@
}

/// `spec_lookup` fails exactly when no entry holds the key, and under
/// unique keys it returns the value of whichever entry holds it.
pub proof fn lemma_lookup<T>(entries: Seq<(Vec<u8>, T)>, key: Seq<u8>)
    ensures
        (spec_lookup(entries, key) is None) <==> (forall|j: int|
            0 <= j < entries.len() ==> entries[j].0@ != key),
        forall|j: int|
            0 <= j < entries.len() && entries[j].0@ == key && unique_keys(entries)
                ==> spec_lookup(entries, key) == Some(entries[j].1),
    decreases entries.len(),
{
    if entries.len() > 0 {
        let rest = entries.drop_first();
        lemma_lookup(rest, key);
        assert(forall|j: int| 1 <= j < entries.len() ==> rest[j - 1] == #[trigger] entries[j]);
        if entries[0].0@ == key {
            assert(spec_lookup(entries, key) == Some(entries[0].1));
            assert forall|j: int|
                0 <= j < entries.len() && entries[j].0@ == key && unique_keys(
                    entries,
                ) implies spec_lookup(entries, key) == Some(entries[j].1) by {
                if j > 0 {
                    assert(entries[0].0@ != entries[j].0@);
                }
            }
        } else {
            assert(spec_lookup(entries, key) == spec_lookup(rest, key));
            if spec_lookup(rest, key) is None {
                assert forall|j: int| 0 <= j < entries.len() implies entries[j].0@ != key by {
                    if j > 0 {
                        assert(rest[j - 1] == entries[j]);
                        assert(rest[j - 1].0@ != key);
                    }
                }
            } else {
                assert(!(forall|j: int| 0 <= j < rest.len() ==> rest[j].0@ != key));
                let j0 = choose|j0: int| 0 <= j0 < rest.len() && !(rest[j0].0@ != key);
                assert(entries[j0 + 1].0@ == key);
                assert(!(forall|j: int| 0 <= j < entries.len() ==> entries[j].0@ != key));
            }
            assert(unique_keys(entries) ==> unique_keys(rest)) by {
                if unique_keys(entries) {
                    assert forall|i: int, j: int| 0 <= i < j < rest.len() implies rest[i].0@
                        != rest[j].0@ by {
                        assert(rest[i] == entries[i + 1]);
                        assert(rest[j] == entries[j + 1]);
                        assert(entries[i + 1].0@ != entries[j + 1].0@);
                    }
                }
            }
            assert forall|j: int|
                0 <= j < entries.len() && entries[j].0@ == key && unique_keys(
                    entries,
                ) implies spec_lookup(entries, key) == Some(entries[j].1) by {
                assert(j >= 1);
                assert(rest[j - 1] == entries[j]);
                assert(spec_lookup(rest, key) == Some(rest[j - 1].1));
            }
        }
    }
}

/// Scans for the entry holding `key`.
pub fn lookup<'a, T>(entries: &'a Vec<(Vec<u8>, T)>, key: &[u8]) -> (r: Option<&'a T>)
    requires
        unique_keys(entries@),
    ensures
        match r {
            Some(v) => spec_lookup(entries@, key@) == Some(*v),
            None => spec_lookup(entries@, key@) is None,
        },
{
    proof {
        lemma_lookup(entries@, key@);
    }
    let mut i: usize = 0;
    while i < entries.len()
        invariant
            unique_keys(entries@),
            i <= entries@.len(),
            forall|j: int| 0 <= j < i ==> entries@[j].0@ != key@,
        decreases entries@.len() - i,
    {
        if bytes_eq(entries[i].0.as_slice(), key) {
            proof {
                lemma_lookup(entries@, key@);
            }
            return Some(&entries[i].1);
        }
        i += 1;
    }
    proof {
        lemma_lookup(entries@, key@);
    }
    None
}

/// Associates `key` with `value`, replacing any entry that already
/// holds the key; other associations are untouched.
pub fn insert<T>(entries: &mut Vec<(Vec<u8>, T)>, key: Vec<u8>, value: T)
    requires
        unique_keys(old(entries)@),
    ensures
        unique_keys(final(entries)@),
        spec_lookup(final(entries)@, key@) == Some(value),
        forall|k: Seq<u8>| k != key@ ==> spec_lookup(final(entries)@, k) == spec_lookup(
            old(entries)@,
            k,
        ),
        final(entries)@.len() == old(entries)@.len() + (if spec_lookup(old(entries)@, key@)
            is Some {
            0int
        } else {
            1int
        }),
{
    proof {
        lemma_lookup(old(entries)@, key@);
    }
    let ghost orig = entries@;
    let mut i: usize = 0;
    while i < entries.len()
        invariant
            entries@ == orig,
            orig == old(entries)@,
            unique_keys(orig),
            i <= orig.len(),
            forall|j: int| 0 <= j < i ==> orig[j].0@ != key@,
        decreases orig.len() - i,
    {
        if bytes_eq(entries[i].0.as_slice(), key.as_slice()) {
            proof {
                lemma_lookup(orig, key@);
                assert(orig[i as int].0@ == key@);
                assert(spec_lookup(orig, key@) == Some(orig[i as int].1));
                lemma_insert_update(orig, i as int, key, value);
            }
            let ghost kv = (key, value);
            entries[i] = (key, value);
            proof {
                assert(entries@ == orig.update(i as int, kv));
                assert(spec_lookup(entries@, kv.0@) == Some(kv.1));
                assert(forall|k: Seq<u8>|
                    k != kv.0@ ==> spec_lookup(entries@, k) == spec_lookup(orig, k));
                assert(entries@.len() == orig.len());
            }
            return ;
        }
        i += 1;
    }
    proof {
        lemma_lookup(orig, key@);
    }
    entries.push((key, value));
    proof {
        lemma_insert_push(orig, key, value);
    }
}

/// What replacing the matching entry does to every lookup.
proof fn lemma_insert_update<T>(s: Seq<(Vec<u8>, T)>, i: int, key: Vec<u8>, value: T)
    requires
        unique_keys(s),
        0 <= i < s.len(),
        s[i].0@ == key@,
    ensures
        unique_keys(s.update(i, (key, value))),
        spec_lookup(s.update(i, (key, value)), key@) == Some(value),
        forall|k: Seq<u8>| k != key@ ==> spec_lookup(s.update(i, (key, value)), k) == spec_lookup(
            s,
            k,
        ),
{
    let s2 = s.update(i, (key, value));
    assert(forall|j: int| 0 <= j < s2.len() ==> s2[j].0@ == s[j].0@);
    lemma_lookup(s, key@);
    lemma_lookup(s2, key@);
    assert forall|k: Seq<u8>| k != key@ implies spec_lookup(s2, k) == spec_lookup(s, k) by {
        lemma_lookup(s, k);
        lemma_lookup(s2, k);
        if spec_lookup(s, k) is Some {
            let j = choose|j: int| 0 <= j < s.len() && s[j].0@ == k;
            assert(s2[j] == s[j]);
        }
    }
}

/// What appending a fresh entry does to every lookup.
pub(crate) proof fn lemma_insert_push<T>(s: Seq<(Vec<u8>, T)>, key: Vec<u8>, value: T)
    requires
        unique_keys(s),
        forall|j: int| 0 <= j < s.len() ==> s[j].0@ != key@,
    ensures
        unique_keys(s.push((key, value))),
        spec_lookup(s.push((key, value)), key@) == Some(value),
        forall|k: Seq<u8>| k != key@ ==> spec_lookup(s.push((key, value)), k) == spec_lookup(s, k),
{
    let s2 = s.push((key, value));
    assert(forall|j: int| 0 <= j < s.len() ==> s2[j] == s[j]);
    assert(s2[s.len() as int] == (key, value));
    lemma_lookup(s2, key@);
    assert forall|k: Seq<u8>| k != key@ implies spec_lookup(s2, k) == spec_lookup(s, k) by {
        lemma_lookup(s, k);
        lemma_lookup(s2, k);
        if spec_lookup(s, k) is Some {
            let j = choose|j: int| 0 <= j < s.len() && s[j].0@ == k;
            assert(s2[j] == s[j]);
        }
    }
}

/// The persisted mapping from identifiers to cached credentials and
/// registered multi-factor devices.
///
/// Read once per invocation and written back at most once; concurrent
/// invocations against the same persisted file are not protected and
/// may lose one writer's update.
#[derive(Clone, Debug)]
pub struct Store {
    pub credentials: Vec<(Vec<u8>, CredentialRecord)>,
    pub mfa_devices: Vec<(Vec<u8>, MfaDeviceEntry)>,
}

impl Store {
    /// Keys are unique in both sections and every record keeps the
    /// credential invariant.
    pub open spec fn well_formed(self) -> bool {
        &&& unique_keys(self.credentials@)
        &&& unique_keys(self.mfa_devices@)
        &&& forall|i: int|
            0 <= i < self.credentials@.len() ==> (#[trigger] self.credentials@[i]).1.well_formed()
    }

    /// The empty store, used when nothing has been persisted yet.
    pub fn new() -> (s: Store)
        ensures
            s.well_formed(),
            s.credentials@.len() == 0,
            s.mfa_devices@.len() == 0,
    {
        Store { credentials: Vec::new(), mfa_devices: Vec::new() }
    }

    /// The cached credential record for an identifier.
    pub fn lookup_credentials(&self, id: &[u8]) -> (r: Option<&CredentialRecord>)
        requires
            self.well_formed(),
        ensures
            match r {
                Some(v) => spec_lookup(self.credentials@, id@) == Some(*v) && v.well_formed(),
                None => spec_lookup(self.credentials@, id@) is None,
            },
    {
        let r = lookup(&self.credentials, id);
        proof {
            if r is Some {
                lemma_lookup(self.credentials@, id@);
                if spec_lookup(self.credentials@, id@) is Some {
                    let j = choose|j: int|
                        0 <= j < self.credentials@.len() && self.credentials@[j].0@ == id@;
                }
            }
        }
        r
    }

    /// The registered device entry for an identifier.
    pub fn lookup_device(&self, id: &[u8]) -> (r: Option<&MfaDeviceEntry>)
        requires
            self.well_formed(),
        ensures
            match r {
                Some(v) => spec_lookup(self.mfa_devices@, id@) == Some(*v),
                None => spec_lookup(self.mfa_devices@, id@) is None,
            },
    {
        lookup(&self.mfa_devices, id)
    }

    /// Caches a record under an identifier, replacing any previous one.
    pub fn insert_credentials(&mut self, id: Vec<u8>, record: CredentialRecord)
        requires
            old(self).well_formed(),
            record.well_formed(),
        ensures
            final(self).well_formed(),
            spec_lookup(final(self).credentials@, id@) == Some(record),
            forall|k: Seq<u8>| k != id@ ==> spec_lookup(final(self).credentials@, k) == spec_lookup(
                old(self).credentials@,
                k,
            ),
            final(self).credentials@.len() == old(self).credentials@.len() + (if spec_lookup(
                old(self).credentials@,
                id@,
            ) is Some {
                0int
            } else {
                1int
            }),
            final(self).mfa_devices@ == old(self).mfa_devices@,
    {
        insert(&mut self.credentials, id, record);
        proof {
            assert forall|i: int| 0 <= i < self.credentials@.len() implies (
            #[trigger] self.credentials@[i]).1.well_formed() by {
                let e = self.credentials@[i];
                lemma_lookup_member(self.credentials@, i);
                if e.0@ == id@ {
                    lemma_lookup(self.credentials@, id@);
                } else {
                    lemma_lookup(self.credentials@, e.0@);
                    lemma_lookup(old(self).credentials@, e.0@);
                    let j = choose|j: int|
                        0 <= j < old(self).credentials@.len() && old(self).credentials@[j].0@
                            == e.0@;
                }
            }
        }
    }

    /// Registers a device entry under an identifier.
    pub fn insert_device(&mut self, id: Vec<u8>, entry: MfaDeviceEntry)
        requires
            old(self).well_formed(),
        ensures
            final(self).well_formed(),
            spec_lookup(final(self).mfa_devices@, id@) == Some(entry),
            forall|k: Seq<u8>| k != id@ ==> spec_lookup(final(self).mfa_devices@, k) == spec_lookup(
                old(self).mfa_devices@,
                k,
            ),
            final(self).credentials@ == old(self).credentials@,
    {
        insert(&mut self.mfa_devices, id, entry);
    }
}

/// An entry of a unique-keyed sequence is what its own key looks up.
proof fn lemma_lookup_member<T>(s: Seq<(Vec<u8>, T)>, i: int)
    requires
        unique_keys(s),
        0 <= i < s.len(),
    ensures
        spec_lookup(s, s[i].0@) == Some(s[i].1),
{
    lemma_lookup(s, s[i].0@);
}

} // verus!
