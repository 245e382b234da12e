//! The windowed admission decision.
//!
//! Per request: derive the window key, read the counter stored under it
//! (absent or corrupt text counts as zero — fail-open), deny once the count
//! has reached the quota, and otherwise write back the incremented count
//! guarded by the version read beforehand. `admit_request` runs the whole protocol
//! against a [`MemStore`]; `plan_admit` is the pure step a host-store driver
//! loops around, retrying a bounded number of times on a losing write.

use vstd::prelude::*;
use crate::codec::{canon, decoded_u32, decode_u32, lemma_canon_props};
use crate::config::Config;
use crate::key::{window_key, window_key_for};
use crate::store::MemStore;

verus! {

/// The admission decision for one request.
#[derive(Clone, Copy, Debug, PartialEq, Eq, Structural)]
pub enum Decision {
    Allow,
    Deny,
}

/// The count a stored value denotes: absent or undecodable bytes count as
/// zero, favoring availability over strictness.
pub open spec fn counter_of(data: Option<Seq<u8>>) -> u32 {
    match data {
        Some(s) => match decoded_u32(s) {
            Some(n) => n,
            None => 0,
        },
        None => 0,
    }
}

/// The view of optionally-present stored bytes.
pub open spec fn opt_bytes_view(data: Option<Vec<u8>>) -> Option<Seq<u8>> {
    match data {
        Some(v) => Some(v@),
        None => None,
    }
}

/// The decision for a pre-increment count under a quota.
pub open spec fn admit_decision(count: u32, limit: u32) -> Decision {
    if count >= limit {
        Decision::Deny
    } else {
        Decision::Allow
    }
}

/// One admission against a plain counter: deny leaves it, allow increments.
pub open spec fn spec_admit(count: u32, limit: u32) -> (Decision, u32) {
    if count >= limit {
        (Decision::Deny, count)
    } else {
        (Decision::Allow, (count + 1) as u32)
    }
}

/// Decodes the bytes read from the store into the current count.
pub fn counter_from_bytes(data: &Option<Vec<u8>>) -> (n: u32)
    ensures
        n == counter_of(opt_bytes_view(*data)),
{
    match data {
        Some(v) => match decode_u32(v.as_slice()) {
            Some(n) => n,
            None => 0,
        },
        None => 0,
    }
}

/// What one admission attempt asks of the store: nothing on denial, a
/// guarded write of the new counter text on admission.
pub enum AdmitStep {
    Deny,
    Write(Vec<u8>),
}

/// The pure step of the admission protocol: given the bytes read under the
/// window key, either deny (the count has reached the quota) or produce the
/// incremented counter text to be written under the version just read.
pub fn plan_admit(data: &Option<Vec<u8>>, limit: u32) -> (step: AdmitStep)
    ensures
        ({
            let c = counter_of(opt_bytes_view(*data));
            &&& c >= limit ==> step is Deny
            &&& c < limit ==> (step matches AdmitStep::Write(v) && v@ == canon((c + 1) as nat))
        }),
{
    let count = counter_from_bytes(data);
    if count >= limit {
        AdmitStep::Deny
    } else {
        AdmitStep::Write(crate::codec::encode_u32(count + 1))
    }
}

/// The decision once a bounded number of retries all lost their conditional
/// write: admit, favoring the availability of the guarded API over exact
/// enforcement (fail open).
pub fn retries_exhausted() -> (d: Decision)
    ensures
        d == Decision::Allow,
{
    Decision::Allow
}

/// The count stored under `key`, as the limiter reads it.
pub open spec fn store_count(s: MemStore, key: Seq<u8>) -> u32 {
    counter_of(s.stored_value(key))
}

/// Admits or denies a request at time `now` against the counter in `store`:
/// the decision and the new count follow `spec_admit` on the count stored
/// under the window key; denial leaves the store untouched, admission
/// rebinds only the window key, to the canonical text of the new count.
pub fn admit_request(now: u64, cfg: &Config, store: &mut MemStore) -> (d: Decision)
    requires
        cfg.wf(),
    ensures
        ({
            let key = window_key(now, *cfg);
            let c = store_count(*old(store), key);
            &&& d == admit_decision(c, cfg.limit)
            &&& (d, store_count(*final(store), key)) == spec_admit(c, cfg.limit)
            &&& (d is Deny ==> *final(store) == *old(store))
            &&& (d is Allow ==> final(store).stored_value(key) == Some(canon((c + 1) as nat)))
            &&& forall|k: Seq<u8>| k != key ==> final(store).stored_value(k) == old(
                store,
            ).stored_value(k)
        }),
{
    let key = window_key_for(now, cfg);
    let (data, version) = store.get(key.as_slice());
    let step = plan_admit(&data, cfg.limit);
    match step {
        AdmitStep::Deny => Decision::Deny,
        AdmitStep::Write(bytes) => {
            let ghost c = store_count(*store, key@);
            let ok = store.set_cas(key.as_slice(), bytes.as_slice(), version);
            proof {
                // no interleaved writer can touch a `&mut` store: the
                // conditional write cannot lose
                assert(ok);
                lemma_canon_props((c + 1) as nat);
            }
            Decision::Allow
        },
    }
}

/// The count after `n` admission attempts, starting from `start`.
pub open spec fn count_after(n: nat, start: u32, limit: u32) -> u32
    decreases n,
{
    if n == 0 {
        start
    } else {
        spec_admit(count_after((n - 1) as nat, start, limit), limit).1
    }
}

/// The decision of the `n`-th attempt (1-based), starting from `start`.
pub open spec fn decision_at(n: nat, start: u32, limit: u32) -> Decision
    recommends
        n >= 1,
{
    spec_admit(count_after((n - 1) as nat, start, limit), limit).0
}

/// Law: against an empty counter with quota `limit`, the first
/// `min(n, limit)` requests are admitted and every later one is denied; the
/// count never passes the quota.
pub proof fn lemma_admission_sequence(n: nat, limit: u32)
    ensures
        count_after(n, 0, limit) == if n <= limit { n } else { limit as nat },
        n >= 1 ==> decision_at(n, 0, limit) == (if n <= limit {
            Decision::Allow
        } else {
            Decision::Deny
        }),
    decreases n,
{
    if n > 0 {
        lemma_admission_sequence((n - 1) as nat, limit);
    }
}

/// Law: denial is idempotent — once the count has reached the quota, any
/// number of further attempts is denied and the count never moves.
pub proof fn lemma_deny_stable(n: nat, start: u32, limit: u32)
    requires
        start >= limit,
    ensures
        count_after(n, start, limit) == start,
        n >= 1 ==> decision_at(n, start, limit) == Decision::Deny,
    decreases n,
{
    if n > 0 {
        lemma_deny_stable((n - 1) as nat, start, limit);
    }
}

} // verus!
