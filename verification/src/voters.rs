//! Voter rewards: distributing a total reward over the voting-power
//! snapshot of the addresses that cast at least a threshold number of
//! votes.

use vstd::prelude::*;

use crate::distribution::{distribute, exact_share};
use crate::order::str_lt;
use crate::sums::{lemma_sum64_push, sum64};
use crate::RewardsError;

verus! {

/// One record of the voting-power snapshot.
#[derive(Clone, Debug)]
pub struct VotingPowerEntry {
    pub address: String,
    pub voting_power: u64,
}

/// One record of the vote-count input.
#[derive(Clone, Debug)]
pub struct VoteCountEntry {
    pub address: String,
    pub count: u64,
}

/// Votes cast per address.
pub type VoteCount = Vec<VoteCountEntry>;

/// One voter's reward, in minor currency units.
#[derive(Clone, Debug)]
pub struct VoterReward {
    pub address: String,
    pub reward: u64,
}

/// The number of votes recorded for `addr`: the first matching entry, or
/// zero when the address is absent.
pub open spec fn votes_of(counts: Seq<VoteCountEntry>, addr: Seq<char>) -> u64
    decreases counts.len(),
{
    if counts.len() == 0 {
        0
    } else if counts[0].address@ == addr {
        counts[0].count
    } else {
        votes_of(counts.drop_first(), addr)
    }
}

/// The snapshot entries whose address reached the vote threshold, in
/// snapshot order.
pub open spec fn eligible_entries(
    counts: Seq<VoteCountEntry>,
    threshold: u64,
    snap: Seq<VotingPowerEntry>,
) -> Seq<VotingPowerEntry>
    decreases snap.len(),
{
    if snap.len() == 0 {
        Seq::empty()
    } else {
        let rest = eligible_entries(counts, threshold, snap.drop_last());
        if votes_of(counts, snap.last().address@) >= threshold {
            rest.push(snap.last())
        } else {
            rest
        }
    }
}

/// The voting powers of a sequence of snapshot entries.
pub open spec fn powers(s: Seq<VotingPowerEntry>) -> Seq<u64> {
    Seq::new(s.len(), |i: int| s[i].voting_power)
}

/// The reward amounts of a sequence of voter rewards.
pub open spec fn reward_values(s: Seq<VoterReward>) -> Seq<u64> {
    Seq::new(s.len(), |i: int| s[i].reward)
}

/// The eligible entries carry at most the whole snapshot's voting power.
proof fn lemma_eligible_power_le(
    counts: Seq<VoteCountEntry>,
    threshold: u64,
    snap: Seq<VotingPowerEntry>,
)
    ensures
        sum64(powers(eligible_entries(counts, threshold, snap))) <= sum64(powers(snap)),
    decreases snap.len(),
{
    if snap.len() > 0 {
        lemma_eligible_power_le(counts, threshold, snap.drop_last());
        assert(powers(snap).drop_last() =~= powers(snap.drop_last()));
        assert(sum64(powers(snap)) == sum64(powers(snap.drop_last())) + snap.last().voting_power);
        let rest = eligible_entries(counts, threshold, snap.drop_last());
        if votes_of(counts, snap.last().address@) >= threshold {
            assert(powers(rest.push(snap.last())) =~= powers(rest).push(snap.last().voting_power));
            lemma_sum64_push(powers(rest), snap.last().voting_power);
        }
    }
}

/// Every eligible entry reached the threshold.
proof fn lemma_eligible_reached_threshold(
    counts: Seq<VoteCountEntry>,
    threshold: u64,
    snap: Seq<VotingPowerEntry>,
)
    ensures
        forall|k: int|
            0 <= k < eligible_entries(counts, threshold, snap).len() ==> votes_of(
                counts,
                #[trigger] eligible_entries(counts, threshold, snap)[k].address@,
            ) >= threshold,
    decreases snap.len(),
{
    if snap.len() > 0 {
        lemma_eligible_reached_threshold(counts, threshold, snap.drop_last());
        let rest = eligible_entries(counts, threshold, snap.drop_last());
        let es = eligible_entries(counts, threshold, snap);
        assert forall|k: int|
            0 <= k < es.len() implies votes_of(counts, #[trigger] es[k].address@)
            >= threshold by {
            if votes_of(counts, snap.last().address@) >= threshold {
                if k < rest.len() {
                    assert(es[k] == rest[k]);
                } else {
                    assert(es[k] == snap.last());
                }
            } else {
                assert(es[k] == rest[k]);
            }
        }
    }
}

/// Two voter-reward lists computed for the same vote counts, threshold,
/// snapshot and total are identical: the contract of `calc_voter_rewards`
/// pins every address and every amount, so a rerun with the same inputs can
/// never allocate differently.
pub proof fn lemma_voter_rewards_deterministic(
    counts: Seq<VoteCountEntry>,
    threshold: u64,
    snap: Seq<VotingPowerEntry>,
    total: u64,
    r1: Seq<VoterReward>,
    r2: Seq<VoterReward>,
)
    requires
        r1.len() == eligible_entries(counts, threshold, snap).len(),
        r2.len() == eligible_entries(counts, threshold, snap).len(),
        forall|k: int|
            0 <= k < r1.len() ==> (#[trigger] r1[k].address@) == eligible_entries(
                counts,
                threshold,
                snap,
            )[k].address@,
        forall|k: int|
            0 <= k < r2.len() ==> (#[trigger] r2[k].address@) == eligible_entries(
                counts,
                threshold,
                snap,
            )[k].address@,
        sum64(powers(eligible_entries(counts, threshold, snap))) > 0 ==> forall|k: int|
            0 <= k < r1.len() ==> (#[trigger] r1[k].reward) == exact_share(
                total as int,
                powers(eligible_entries(counts, threshold, snap)),
                k,
            ),
        sum64(powers(eligible_entries(counts, threshold, snap))) > 0 ==> forall|k: int|
            0 <= k < r2.len() ==> (#[trigger] r2[k].reward) == exact_share(
                total as int,
                powers(eligible_entries(counts, threshold, snap)),
                k,
            ),
        sum64(powers(eligible_entries(counts, threshold, snap))) == 0 ==> forall|k: int|
            0 <= k < r1.len() ==> (#[trigger] r1[k].reward) == 0,
        sum64(powers(eligible_entries(counts, threshold, snap))) == 0 ==> forall|k: int|
            0 <= k < r2.len() ==> (#[trigger] r2[k].reward) == 0,
    ensures
        r1.len() == r2.len(),
        forall|k: int|
            0 <= k < r1.len() ==> (#[trigger] r1[k].address@) == r2[k].address@ && r1[k].reward
                == r2[k].reward,
{
    crate::sums::lemma_sum64_nonneg(powers(eligible_entries(counts, threshold, snap)));
}

/// The number of votes recorded for `addr`.
fn votes_for(counts: &VoteCount, addr: &String) -> (r: u64)
    ensures
        r == votes_of(counts@, addr@),
{
    let n = counts.len();
    let mut i: usize = 0;
    proof {
        assert(counts@.skip(0) =~= counts@);
    }
    while i < n
        invariant
            i <= n,
            n == counts@.len(),
            votes_of(counts@, addr@) == votes_of(counts@.skip(i as int), addr@),
        decreases n - i,
    {
        let entry = &counts[i];
        if entry.address == *addr {
            return entry.count;
        }
        proof {
            assert(counts@.skip(i as int).drop_first() =~= counts@.skip(i as int + 1));
        }
        i = i + 1;
    }
    proof {
        assert(counts@.skip(n as int) =~= Seq::<VoteCountEntry>::empty());
    }
    0
}

/// Compute per-address voter rewards.
///
/// The snapshot is filtered to the addresses whose vote count reached
/// `vote_threshold`; addresses below it are absent from the result, not
/// present with a zero reward, and contribute no weight.  `total_rewards`
/// is then split over the eligible voting powers by exact-sum distribution,
/// so the rewards handed out sum to `total_rewards` to the minor unit.
///
/// The snapshot must come ordered by address with no duplicates, so that
/// remainder ties are broken by address and never by input file order.
/// Errors with `InvalidInput` exactly when the eligible voting power is
/// zero while `total_rewards` is not: that split has no defined proportion.
#[verifier::loop_isolation(false)]
pub fn calc_voter_rewards(
    vote_count: &VoteCount,
    vote_threshold: u64,
    snapshot: &Vec<VotingPowerEntry>,
    total_rewards: u64,
) -> (r: Result<Vec<VoterReward>, RewardsError>)
    requires
        forall|i: int, j: int|
            0 <= i < j < snapshot@.len() ==> #[trigger] str_lt(
                snapshot@[i].address@,
                snapshot@[j].address@,
            ),
        sum64(powers(snapshot@)) <= u64::MAX,
    ensures
        r is Err <==> (sum64(powers(eligible_entries(vote_count@, vote_threshold, snapshot@)))
            == 0 && total_rewards > 0),
        match r {
            Ok(rw) => {
                &&& rw@.len() == eligible_entries(vote_count@, vote_threshold, snapshot@).len()
                &&& forall|k: int|
                    0 <= k < rw@.len() ==> rw@[k].address@ == eligible_entries(
                        vote_count@,
                        vote_threshold,
                        snapshot@,
                    )[k].address@
                &&& forall|k: int|
                    0 <= k < rw@.len() ==> votes_of(vote_count@, #[trigger] rw@[k].address@)
                        >= vote_threshold
                &&& sum64(reward_values(rw@)) == total_rewards
                &&& sum64(powers(eligible_entries(vote_count@, vote_threshold, snapshot@))) > 0
                    ==> forall|k: int|
                    0 <= k < rw@.len() ==> rw@[k].reward == exact_share(
                        total_rewards as int,
                        powers(eligible_entries(vote_count@, vote_threshold, snapshot@)),
                        k,
                    )
                &&& sum64(powers(eligible_entries(vote_count@, vote_threshold, snapshot@))) == 0
                    ==> forall|k: int| 0 <= k < rw@.len() ==> rw@[k].reward == 0
            },
            Err(e) => e == RewardsError::InvalidInput,
        },
{
    let ghost counts = vote_count@;
    let ghost snap = snapshot@;
    let n = snapshot.len();
    let mut addrs: Vec<String> = Vec::new();
    let mut wts: Vec<u64> = Vec::new();
    let mut i: usize = 0;
    while i < n
        invariant
            i <= n,
            n == snap.len(),
            snap == snapshot@,
            counts == vote_count@,
            addrs@.len() == eligible_entries(counts, vote_threshold, snap.take(i as int)).len(),
            wts@.len() == addrs@.len(),
            forall|k: int|
                0 <= k < addrs@.len() ==> addrs@[k]@ == eligible_entries(
                    counts,
                    vote_threshold,
                    snap.take(i as int),
                )[k].address@,
            wts@ =~= powers(eligible_entries(counts, vote_threshold, snap.take(i as int))),
        decreases n - i,
    {
        let ghost before = eligible_entries(counts, vote_threshold, snap.take(i as int));
        proof {
            assert(snap.take(i as int + 1).drop_last() =~= snap.take(i as int));
            assert(snap.take(i as int + 1).last() == snap[i as int]);
        }
        let entry = &snapshot[i];
        let v = votes_for(vote_count, &entry.address);
        if v >= vote_threshold {
            addrs.push(entry.address.clone());
            wts.push(entry.voting_power);
            proof {
                assert(eligible_entries(counts, vote_threshold, snap.take(i as int + 1))
                    =~= before.push(snap[i as int]));
                assert(wts@ =~= powers(before.push(snap[i as int])));
            }
        }
        i = i + 1;
    }
    proof {
        assert(snap.take(n as int) =~= snap);
        lemma_eligible_power_le(counts, vote_threshold, snap);
    }
    let ghost es = eligible_entries(counts, vote_threshold, snap);
    proof {
        assert(eligible_entries(counts, vote_threshold, snap.take(n as int)) == es);
        assert forall|k: int| 0 <= k < addrs@.len() implies #[trigger] addrs@[k]@
            == es[k].address@ by {
            assert(addrs@[k]@ == eligible_entries(counts, vote_threshold, snap.take(n as int))[k].address@);
        }
        assert(wts@ =~= powers(es));
    }

    let shares = match distribute(total_rewards, &wts) {
        Ok(s) => s,
        Err(e) => {
            return Err(e);
        },
    };

    let m = addrs.len();
    let mut out: Vec<VoterReward> = Vec::new();
    let mut k: usize = 0;
    while k < m
        invariant
            k <= m,
            m == addrs@.len(),
            m == shares@.len(),
            out@.len() == k,
            forall|j: int| 0 <= j < k ==> out@[j].address@ == addrs@[j]@,
            forall|j: int| 0 <= j < k ==> out@[j].reward == shares@[j],
        decreases m - k,
    {
        out.push(VoterReward { address: addrs[k].clone(), reward: shares[k] });
        k = k + 1;
    }
    proof {
        assert(out@.len() == m);
        assert(forall|j: int| 0 <= j < m ==> #[trigger] out@[j].address@ == addrs@[j]@);
        assert(forall|j: int| 0 <= j < m ==> #[trigger] addrs@[j]@ == es[j].address@);
        assert(reward_values(out@) =~= shares@);
        lemma_eligible_reached_threshold(counts, vote_threshold, snap);
        assert forall|j: int|
            0 <= j < out@.len() implies votes_of(counts, #[trigger] out@[j].address@)
            >= vote_threshold by {
            assert(out@[j].address@ == es[j].address@);
            assert(votes_of(counts, es[j].address@) >= vote_threshold);
        }
        if sum64(powers(es)) == 0 {
            assert forall|j: int| 0 <= j < out@.len() implies (#[trigger] out@[j].reward)
                == 0 by {
                assert(out@[j].reward == shares@[j]);
                assert(shares@[j] == 0);
            }
        }
    }
    Ok(out)
}

} // verus!
