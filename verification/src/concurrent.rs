//! Lost-update freedom of the compare-and-swap increment protocol.
//!
//! Racing admissions are modeled as a sequence of conditional writes against
//! one counter. Every attempt first reads the counter: it sees a count and a
//! version token. An attempt whose observed count has reached the quota
//! denies without writing; one below the quota attempts a write of
//! `observed count + 1`, conditional on the version still being the one it
//! observed (the contract of [`crate::store::MemStore::set_cas`], and of the
//! host store it stands for). A successful write bumps the version, so of
//! all attempts that observed the same version, at most one write lands.
//!
//! Counts stand in for stored bytes: what an attempt writes is the canonical
//! decimal text of `observed count + 1`, and decoding it returns that count
//! ([`crate::codec::lemma_round_trip_u32`]), so the byte level adds nothing
//! to the race.

use vstd::prelude::*;

verus! {

/// The shared counter as racing writers see it: the stored count, its
/// version token, and how many attempts have been admitted by a landed
/// write so far.
pub struct RaceState {
    pub count: u32,
    pub version: nat,
    pub allows: nat,
}

/// What one attempt's earlier read returned: a count and a version token.
pub struct Observation {
    pub count: u32,
    pub version: nat,
}

/// One conditional write: attempted only when the observed count was below
/// the quota, landing only when the version is still the one observed.
pub open spec fn cas_step(s: RaceState, ob: Observation, limit: u32) -> RaceState {
    if ob.count < limit && s.version == ob.version {
        RaceState { count: (ob.count + 1) as u32, version: s.version + 1, allows: s.allows + 1 }
    } else {
        s
    }
}

/// The counter after a sequence of conditional writes, in any interleaving
/// order.
pub open spec fn run_race(s: RaceState, obs: Seq<Observation>, limit: u32) -> RaceState
    decreases obs.len(),
{
    if obs.len() == 0 {
        s
    } else {
        run_race(cas_step(s, obs[0], limit), obs.skip(1), limit)
    }
}

/// Law: conditional writes never push the count past the quota.
pub proof fn lemma_count_bounded(s: RaceState, obs: Seq<Observation>, limit: u32)
    requires
        s.count <= limit,
    ensures
        run_race(s, obs, limit).count <= limit,
    decreases obs.len(),
{
    if obs.len() > 0 {
        lemma_count_bounded(cas_step(s, obs[0], limit), obs.skip(1), limit);
    }
}

/// Once the version has moved past `v0`, writes that observed `v0` are dead:
/// they can never land.
proof fn lemma_race_settled(s: RaceState, obs: Seq<Observation>, limit: u32, v0: nat)
    requires
        s.version != v0,
        forall|i: int| 0 <= i < obs.len() ==> (#[trigger] obs[i]).version == v0,
    ensures
        run_race(s, obs, limit) == s,
    decreases obs.len(),
{
    if obs.len() > 0 {
        assert(cas_step(s, obs[0], limit) == s);
        lemma_race_settled(s, obs.skip(1), limit, v0);
    }
}

/// Law: no lost updates. With the counter one below the quota under version
/// `v0`, consider any number of concurrent attempts. Each one read before
/// any write landed, so each observed count `limit - 1` under `v0` (an
/// attempt reading later sees the quota reached and denies without
/// writing). However the attempts interleave, exactly one write lands:
/// at most one attempt is admitted, and the final count is exactly the
/// quota — never more, and never the pre-race count with admissions lost.
pub proof fn lemma_no_lost_update(obs: Seq<Observation>, limit: u32, v0: nat)
    requires
        limit >= 1,
        forall|i: int|
            0 <= i < obs.len() ==> (#[trigger] obs[i]).count == limit - 1 && obs[i].version == v0,
    ensures
        ({
            let init = RaceState { count: (limit - 1) as u32, version: v0, allows: 0 };
            let f = run_race(init, obs, limit);
            &&& f.allows <= 1
            &&& (obs.len() == 0 ==> f == init)
            &&& (obs.len() > 0 ==> f == RaceState {
                count: limit,
                version: v0 + 1,
                allows: 1,
            })
        }),
{
    let init = RaceState { count: (limit - 1) as u32, version: v0, allows: 0 };
    if obs.len() > 0 {
        let hit = RaceState { count: limit, version: v0 + 1, allows: 1 };
        assert(cas_step(init, obs[0], limit) == hit);
        assert forall|i: int| 0 <= i < obs.skip(1).len() implies (#[trigger] obs.skip(1)[i]).version
            == v0 by {
            assert(obs.skip(1)[i] == obs[i + 1]);
        }
        lemma_race_settled(hit, obs.skip(1), limit, v0);
    }
}

} // verus!
