use vstd::prelude::*;
use crate::store::CredentialRecord;

verus! {

/// Whether a cached credential can be reused for a requested validity
/// window, or must be refreshed.
#[derive(Clone, Copy, Debug, PartialEq, Eq, Structural)]
pub enum Decision {
    Fresh,
    Stale,
}

/// The renewal rule. A missing record is stale. A record without an
/// expiration is a long-lived key and is never stale here (rotation is
/// a separate, explicit operation). A record with an expiration is
/// stale once less than one fifth of the requested lifetime remains,
/// which front-loads renewal so a credential cannot run out under the
/// workload that received it.
pub open spec fn spec_stale(
    record: Option<CredentialRecord>,
    duration_secs: u64,
    now_secs: i64,
) -> bool {
    match record {
        None => true,
        Some(r) => match r.expiration {
            None => false,
            Some(e) => now_secs + duration_secs as int / 5 > e.spec_unix_secs(),
        },
    }
}

/// The borrowed record, as the value `spec_stale` speaks about.
pub open spec fn spec_record_of(record: Option<&CredentialRecord>) -> Option<CredentialRecord> {
    match record {
        None => None,
        Some(r) => Some(*r),
    }
}

/// Decides whether the cached record still covers the requested
/// duration at the given instant.
pub fn decide(record: Option<&CredentialRecord>, duration_secs: u64, now_secs: i64) -> (d: Decision)
    requires
        record matches Some(r) ==> r.well_formed(),
    ensures
        (d == Decision::Stale) <==> spec_stale(spec_record_of(record), duration_secs, now_secs),
        (d == Decision::Fresh) <==> !spec_stale(spec_record_of(record), duration_secs, now_secs),
{
    match record {
        None => Decision::Stale,
        Some(r) => match &r.expiration {
            None => Decision::Fresh,
            Some(e) => {
                let expiration_secs = e.unix_secs();
                let margin = (duration_secs / 5) as i128;
                if (now_secs as i128) + margin > (expiration_secs as i128) {
                    Decision::Stale
                } else {
                    Decision::Fresh
                }
            },
        },
    }
}

} // verus!
