//! Community-advisor rewards.
//!
//! Review ratings, slot capacities and a budget split ratio become
//! per-advisor ticket rewards and per-proposal bonus rewards.  The fund is
//! split into a ticket pool and a bonus pool that sum to the total exactly;
//! tickets are earned by Excellent and Good reviews of approved proposals,
//! capped per proposal and tier, the reviews kept under a cap chosen by the
//! seeded deterministic randomness; each pool is then exhausted exactly by
//! exact-sum distribution.

use vstd::prelude::*;

use crate::amount::{decimal_value, parse_amount, well_formed_decimal, Amount};
use crate::distribution::{distribute, exact_share};
use crate::seeded::{
    lemma_spec_pick_elems, lemma_spec_pick_len, seed_state, spec_pick, Seed,
    SeededDeterministicRandomness,
};
use crate::assoc::{
    assoc_insert, lemma_assoc_insert_skip, lemma_assoc_insert_sorted,
};
use crate::order::{lemma_str_lt_irreflexive, sorted_by_first, str_is_lt, str_lt};
use crate::sums::{
    lemma_sum64_concat, lemma_sum64_elem_le, lemma_sum64_nonneg, lemma_sum64_singleton,
    lemma_sum64_take_le, lemma_sum64_take_succ, sum64,
};
use vstd::arithmetic::mul::{
    lemma_mul_inequality, lemma_mul_is_distributive_add_other_way, lemma_mul_nonnegative,
};
use crate::RewardsError;

verus! {

/// An advisor identifier.
pub type CommunityAdvisor = String;

/// A funding amount, in minor currency units.
pub type Funds = Amount;

/// A reward amount, in minor currency units.
pub type Rewards = Amount;

/// How a review rated its proposal.
#[derive(Clone, Copy, Debug, PartialEq, Eq, Structural)]
pub enum Rating {
    Excellent,
    Good,
    Other,
}

/// One review row: an advisor's rating of one proposal.
#[derive(Debug)]
pub struct AdvisorReviewRow {
    pub proposal_id: String,
    pub assessor: CommunityAdvisor,
    pub rating: Rating,
}

impl Clone for AdvisorReviewRow {
    fn clone(&self) -> (r: Self)
        ensures
            r == *self,
    {
        AdvisorReviewRow {
            proposal_id: self.proposal_id.clone(),
            assessor: self.assessor.clone(),
            rating: self.rating,
        }
    }
}

/// The reviews of one proposal.
#[derive(Debug)]
pub struct ProposalReviewsEntry {
    pub proposal_id: String,
    pub reviews: Vec<AdvisorReviewRow>,
}

/// All reviews, grouped by proposal and ordered by proposal id.
pub type ProposalsReviews = Vec<ProposalReviewsEntry>;

/// Whether a proposal was approved for funding.
#[derive(Clone, Copy, Debug, PartialEq, Eq, Structural)]
pub enum ProposalStatus {
    Approved,
    NotApproved,
}

/// One proposal row of the funding input.
#[derive(Debug)]
pub struct ApprovedProposalRow {
    pub proposal_id: String,
    pub requested_dollars: String,
    pub status: ProposalStatus,
}

/// Approved proposals and their requested funds, ordered by proposal id.
pub type ApprovedProposals = Vec<(String, Funds)>;

/// The value merges of the sorted association lists: keep the newer value,
/// add the values, append the newer rows.
pub open spec fn replace_merge() -> spec_fn(u64, u64) -> u64 {
    |o: u64, n: u64| n
}

pub open spec fn sum_merge() -> spec_fn(u64, u64) -> u64 {
    |o: u64, n: u64| ((o + n) as u64)
}

pub open spec fn append_merge() -> spec_fn(
    Seq<AdvisorReviewRow>,
    Seq<AdvisorReviewRow>,
) -> Seq<AdvisorReviewRow> {
    |o: Seq<AdvisorReviewRow>, n: Seq<AdvisorReviewRow>| o + n
}

/// The grouped reviews, seen as key/rows pairs.
pub open spec fn gview(gs: Seq<ProposalReviewsEntry>) -> Seq<(Seq<char>, Seq<AdvisorReviewRow>)> {
    Seq::new(gs.len(), |k: int| (gs[k].proposal_id@, gs[k].reviews@))
}

/// A pair vector, seen as key/value pairs.
pub open spec fn pairs_view(s: Seq<(String, u64)>) -> Seq<(Seq<char>, u64)> {
    Seq::new(s.len(), |i: int| (s[i].0@, s[i].1))
}

/// The values of an association list.
pub open spec fn assoc_values(s: Seq<(Seq<char>, u64)>) -> Seq<u64> {
    Seq::new(s.len(), |i: int| s[i].1)
}

/// Reviews folded into groups, in row order.
pub open spec fn grouped(rows: Seq<AdvisorReviewRow>) -> Seq<(Seq<char>, Seq<AdvisorReviewRow>)>
    decreases rows.len(),
{
    if rows.len() == 0 {
        Seq::empty()
    } else {
        assoc_insert(
            grouped(rows.drop_last()),
            rows.last().proposal_id@,
            seq![rows.last()],
            append_merge(),
        )
    }
}

pub proof fn lemma_grouped_sorted(rows: Seq<AdvisorReviewRow>)
    ensures
        sorted_by_first(grouped(rows)),
    decreases rows.len(),
{
    if rows.len() > 0 {
        lemma_grouped_sorted(rows.drop_last());
        lemma_assoc_insert_sorted(
            grouped(rows.drop_last()),
            rows.last().proposal_id@,
            seq![rows.last()],
            append_merge(),
        );
    }
}

/// Where `key` stands in the groups: its position when present, else the
/// position of the first larger key.
fn find_group_slot(groups: &ProposalsReviews, key: &String) -> (r: (usize, bool))
    ensures
        r.0 <= groups@.len(),
        r.1 ==> r.0 < groups@.len() && groups@[r.0 as int].proposal_id@ == key@,
        !r.1 ==> (r.0 == groups@.len() || str_lt(key@, groups@[r.0 as int].proposal_id@)),
        forall|j: int|
            0 <= j < r.0 ==> (#[trigger] groups@[j].proposal_id@) != key@ && !str_lt(
                key@,
                groups@[j].proposal_id@,
            ),
{
    let n = groups.len();
    let mut j: usize = 0;
    while j < n
        invariant
            j <= n,
            n == groups@.len(),
            forall|i: int|
                0 <= i < j ==> (#[trigger] groups@[i].proposal_id@) != key@ && !str_lt(
                    key@,
                    groups@[i].proposal_id@,
                ),
        decreases n - j,
    {
        let entry = &groups[j];
        if entry.proposal_id == *key {
            return (j, true);
        }
        if str_is_lt(key.as_str(), entry.proposal_id.as_str()) {
            return (j, false);
        }
        j = j + 1;
    }
    (n, false)
}

/// Insert one review into its group, keeping the groups sorted.
fn push_review(groups: &mut ProposalsReviews, row: AdvisorReviewRow)
    ensures
        gview(final(groups)@) == assoc_insert(
            gview(old(groups)@),
            row.proposal_id@,
            seq![row],
            append_merge(),
        ),
{
    let ghost gv = gview(groups@);
    let ghost target = assoc_insert(gv, row.proposal_id@, seq![row], append_merge());
    let (pos, found) = find_group_slot(groups, &row.proposal_id);
    proof {
        lemma_assoc_insert_skip(gv, row.proposal_id@, seq![row], append_merge(), pos as int);
    }
    if found {
        let mut entry = groups.remove(pos);
        entry.reviews.push(row);
        groups.insert(pos, entry);
        proof {
            assert(gv.skip(pos as int)[0] == gv[pos as int]);
            assert(assoc_insert(gv.skip(pos as int), row.proposal_id@, seq![row], append_merge())
                == seq![(gv[pos as int].0, gv[pos as int].1 + seq![row])] + gv.skip(
                pos as int,
            ).drop_first());
            assert(gview(groups@) =~~= target);
        }
    } else if pos < groups.len() {
        let pid = row.proposal_id.clone();
        let mut rv: Vec<AdvisorReviewRow> = Vec::new();
        rv.push(row);
        groups.insert(pos, ProposalReviewsEntry { proposal_id: pid, reviews: rv });
        proof {
            assert(gv.skip(pos as int)[0] == gv[pos as int]);
            lemma_str_lt_irreflexive(row.proposal_id@);
            assert(assoc_insert(gv.skip(pos as int), row.proposal_id@, seq![row], append_merge())
                == seq![(row.proposal_id@, seq![row])] + gv.skip(pos as int));
            assert(gview(groups@) =~~= target);
        }
    } else {
        let pid = row.proposal_id.clone();
        let mut rv: Vec<AdvisorReviewRow> = Vec::new();
        rv.push(row);
        groups.push(ProposalReviewsEntry { proposal_id: pid, reviews: rv });
        proof {
            assert(gv.skip(pos as int) =~= Seq::<(Seq<char>, Seq<AdvisorReviewRow>)>::empty());
            assert(gview(groups@) =~~= target);
        }
    }
}

/// Group review rows by proposal.
///
/// The groups come ordered by proposal id; each group holds exactly the
/// rows bearing its id, in input order.
#[verifier::loop_isolation(false)]
pub fn read_proposal_reviews(reviews: Vec<AdvisorReviewRow>) -> (r: ProposalsReviews)
    ensures
        gview(r@) == grouped(reviews@),
        sorted_by_first(gview(r@)),
{
    let n = reviews.len();
    let mut groups: ProposalsReviews = Vec::new();
    let mut i: usize = 0;
    proof {
        assert(gview(groups@) =~= Seq::<(Seq<char>, Seq<AdvisorReviewRow>)>::empty());
        assert(reviews@.take(0) =~= Seq::<AdvisorReviewRow>::empty());
    }
    while i < n
        invariant
            i <= n,
            n == reviews@.len(),
            gview(groups@) == grouped(reviews@.take(i as int)),
        decreases n - i,
    {
        proof {
            assert(reviews@.take(i as int + 1).drop_last() =~= reviews@.take(i as int));
            assert(reviews@.take(i as int + 1).last() == reviews@[i as int]);
        }
        let row = reviews[i].clone();
        push_review(&mut groups, row);
        i = i + 1;
    }
    proof {
        assert(reviews@.take(n as int) =~= reviews@);
        lemma_grouped_sorted(reviews@);
    }
    groups
}

/// Whether a proposal row parses: its requested amount is a well-formed
/// decimal in range.
pub open spec fn row_parses(row: ApprovedProposalRow) -> bool {
    well_formed_decimal(row.requested_dollars@) && decimal_value(row.requested_dollars@)
        <= u64::MAX
}

pub open spec fn parsed_funds(row: ApprovedProposalRow) -> u64 {
    decimal_value(row.requested_dollars@) as u64
}

/// The approved rows folded into a sorted association of proposal id to
/// requested funds; a repeated id keeps the later row's amount, as a keyed
/// load does.
pub open spec fn approved_assoc(rows: Seq<ApprovedProposalRow>) -> Seq<(Seq<char>, u64)>
    decreases rows.len(),
{
    if rows.len() == 0 {
        Seq::empty()
    } else {
        let rest = approved_assoc(rows.drop_last());
        if rows.last().status == ProposalStatus::Approved {
            assoc_insert(rest, rows.last().proposal_id@, parsed_funds(rows.last()), replace_merge())
        } else {
            rest
        }
    }
}

pub proof fn lemma_approved_sorted(rows: Seq<ApprovedProposalRow>)
    ensures
        sorted_by_first(approved_assoc(rows)),
    decreases rows.len(),
{
    if rows.len() > 0 {
        lemma_approved_sorted(rows.drop_last());
        if rows.last().status == ProposalStatus::Approved {
            lemma_assoc_insert_sorted(
                approved_assoc(rows.drop_last()),
                rows.last().proposal_id@,
                parsed_funds(rows.last()),
                replace_merge(),
            );
        }
    }
}

/// Every approved row's amount parses.
pub open spec fn all_approved_parse(rows: Seq<ApprovedProposalRow>) -> bool {
    forall|i: int|
        0 <= i < rows.len() && (#[trigger] rows[i]).status == ProposalStatus::Approved
            ==> row_parses(rows[i])
}

/// Where `key` stands in a pair vector.
fn find_pair_slot(v: &Vec<(String, u64)>, key: &String) -> (r: (usize, bool))
    ensures
        r.0 <= v@.len(),
        r.1 ==> r.0 < v@.len() && v@[r.0 as int].0@ == key@,
        !r.1 ==> (r.0 == v@.len() || str_lt(key@, v@[r.0 as int].0@)),
        forall|j: int|
            0 <= j < r.0 ==> (#[trigger] v@[j].0@) != key@ && !str_lt(key@, v@[j].0@),
{
    let n = v.len();
    let mut j: usize = 0;
    while j < n
        invariant
            j <= n,
            n == v@.len(),
            forall|i: int| 0 <= i < j ==> (#[trigger] v@[i].0@) != key@ && !str_lt(key@, v@[i].0@),
        decreases n - j,
    {
        let entry = &v[j];
        if entry.0 == *key {
            return (j, true);
        }
        if str_is_lt(key.as_str(), entry.0.as_str()) {
            return (j, false);
        }
        j = j + 1;
    }
    (n, false)
}

/// Insert a pair, a present key keeping the new value.
fn pair_insert_replace(v: &mut Vec<(String, u64)>, key: String, val: u64)
    ensures
        pairs_view(final(v)@) == assoc_insert(pairs_view(old(v)@), key@, val, replace_merge()),
{
    let ghost pv = pairs_view(v@);
    let ghost target = assoc_insert(pv, key@, val, replace_merge());
    let (pos, found) = find_pair_slot(v, &key);
    proof {
        lemma_assoc_insert_skip(pv, key@, val, replace_merge(), pos as int);
    }
    if found {
        let _prev = v.remove(pos);
        v.insert(pos, (key, val));
        proof {
            assert(pv.skip(pos as int)[0] == pv[pos as int]);
            assert(assoc_insert(pv.skip(pos as int), key@, val, replace_merge()) == seq![
                (pv[pos as int].0, val),
            ] + pv.skip(pos as int).drop_first());
            assert(pairs_view(v@) =~~= target);
        }
    } else if pos < v.len() {
        v.insert(pos, (key, val));
        proof {
            assert(pv.skip(pos as int)[0] == pv[pos as int]);
            lemma_str_lt_irreflexive(key@);
            assert(assoc_insert(pv.skip(pos as int), key@, val, replace_merge()) == seq![
                (key@, val),
            ] + pv.skip(pos as int));
            assert(pairs_view(v@) =~~= target);
        }
    } else {
        v.push((key, val));
        proof {
            assert(pv.skip(pos as int) =~= Seq::<(Seq<char>, u64)>::empty());
            assert(pairs_view(v@) =~~= target);
        }
    }
}

/// Merging a value in raises the value total by exactly that much.
proof fn lemma_assoc_insert_sum(s: Seq<(Seq<char>, u64)>, key: Seq<char>, val: u64)
    requires
        sum64(assoc_values(s)) + val <= u64::MAX,
    ensures
        sum64(assoc_values(assoc_insert(s, key, val, sum_merge()))) == sum64(assoc_values(s))
            + val,
    decreases s.len(),
{
    let res = assoc_insert(s, key, val, sum_merge());
    if s.len() == 0 {
        assert(assoc_values(res) =~= seq![val]);
        assert(assoc_values(s) =~= Seq::<u64>::empty());
        lemma_sum64_singleton(val);
    } else {
        let rest_vals = assoc_values(s.drop_first());
        assert(assoc_values(s) =~= seq![s[0].1] + rest_vals);
        lemma_sum64_concat(seq![s[0].1], rest_vals);
        lemma_sum64_singleton(s[0].1);
        if s[0].0 == key {
            lemma_sum64_nonneg(rest_vals);
            let merged = ((s[0].1 + val) as u64);
            assert(s[0].1 + val <= u64::MAX);
            assert(assoc_values(res) =~= seq![merged] + rest_vals);
            lemma_sum64_concat(seq![merged], rest_vals);
            lemma_sum64_singleton(merged);
        } else if str_lt(key, s[0].0) {
            assert(assoc_values(res) =~= seq![val] + assoc_values(s));
            lemma_sum64_concat(seq![val], assoc_values(s));
            lemma_sum64_singleton(val);
        } else {
            assert(sum64(rest_vals) + val <= u64::MAX) by {
                lemma_sum64_nonneg(rest_vals);
            }
            lemma_assoc_insert_sum(s.drop_first(), key, val);
            let sub = assoc_insert(s.drop_first(), key, val, sum_merge());
            assert(assoc_values(res) =~= seq![s[0].1] + assoc_values(sub));
            lemma_sum64_concat(seq![s[0].1], assoc_values(sub));
        }
    }
}

/// Insert a pair, a present key adding the values.
fn pair_insert_add(v: &mut Vec<(String, u64)>, key: String, val: u64)
    requires
        sum64(assoc_values(pairs_view(old(v)@))) + val <= u64::MAX,
    ensures
        pairs_view(final(v)@) == assoc_insert(pairs_view(old(v)@), key@, val, sum_merge()),
{
    let ghost pv = pairs_view(v@);
    let ghost target = assoc_insert(pv, key@, val, sum_merge());
    let (pos, found) = find_pair_slot(v, &key);
    proof {
        lemma_assoc_insert_skip(pv, key@, val, sum_merge(), pos as int);
    }
    if found {
        proof {
            assert(assoc_values(pv)[pos as int] == pv[pos as int].1);
            lemma_sum64_elem_le(assoc_values(pv), pos as int);
        }
        let prev = v.remove(pos);
        v.insert(pos, (key, prev.1 + val));
        proof {
            assert(pv.skip(pos as int)[0] == pv[pos as int]);
            assert(assoc_insert(pv.skip(pos as int), key@, val, sum_merge()) == seq![
                (pv[pos as int].0, ((pv[pos as int].1 + val) as u64)),
            ] + pv.skip(pos as int).drop_first());
            assert(pairs_view(v@) =~~= target);
        }
    } else if pos < v.len() {
        v.insert(pos, (key, val));
        proof {
            assert(pv.skip(pos as int)[0] == pv[pos as int]);
            lemma_str_lt_irreflexive(key@);
            assert(assoc_insert(pv.skip(pos as int), key@, val, sum_merge()) == seq![(key@, val)]
                + pv.skip(pos as int));
            assert(pairs_view(v@) =~~= target);
        }
    } else {
        v.push((key, val));
        proof {
            assert(pv.skip(pos as int) =~= Seq::<(Seq<char>, u64)>::empty());
            assert(pairs_view(v@) =~~= target);
        }
    }
}

/// Keep the approved rows, their amounts parsed, ordered by proposal id.
///
/// Errors with `InvalidInput` exactly when some approved row's requested
/// amount is not a well-formed decimal in range; rows not approved are
/// dropped without being parsed.
#[verifier::loop_isolation(false)]
pub fn read_approved_proposals(rows: Vec<ApprovedProposalRow>) -> (r: Result<
    ApprovedProposals,
    RewardsError,
>)
    ensures
        r is Ok <==> all_approved_parse(rows@),
        match r {
            Ok(aps) => {
                &&& pairs_view(aps@) == approved_assoc(rows@)
                &&& sorted_by_first(pairs_view(aps@))
            },
            Err(e) => e == RewardsError::InvalidInput,
        },
{
    let n = rows.len();
    let mut aps: ApprovedProposals = Vec::new();
    let mut i: usize = 0;
    proof {
        assert(pairs_view(aps@) =~= Seq::<(Seq<char>, u64)>::empty());
        assert(rows@.take(0) =~= Seq::<ApprovedProposalRow>::empty());
    }
    while i < n
        invariant
            i <= n,
            n == rows@.len(),
            pairs_view(aps@) == approved_assoc(rows@.take(i as int)),
            forall|j: int|
                0 <= j < i && (#[trigger] rows@[j]).status == ProposalStatus::Approved
                    ==> row_parses(rows@[j]),
        decreases n - i,
    {
        proof {
            assert(rows@.take(i as int + 1).drop_last() =~= rows@.take(i as int));
            assert(rows@.take(i as int + 1).last() == rows@[i as int]);
        }
        let row = &rows[i];
        match row.status {
            ProposalStatus::Approved => {
                let funds = match parse_amount(row.requested_dollars.as_str()) {
                    Ok(v) => v,
                    Err(e) => {
                        return Err(e);
                    },
                };
                pair_insert_replace(&mut aps, row.proposal_id.clone(), funds);
            },
            ProposalStatus::NotApproved => {},
        }
        i = i + 1;
    }
    proof {
        assert(rows@.take(n as int) =~= rows@);
        lemma_approved_sorted(rows@);
    }
    Ok(aps)
}


/// The fund's settings: the percentage split and the total to hand out.
#[derive(Clone, Copy, Debug, PartialEq, Eq, Structural)]
pub struct FundSetting {
    pub proposal_ratio: u8,
    pub bonus_ratio: u8,
    pub total: Funds,
}

/// The ticket economy of one proposal: ticket units per rewarded review and
/// the per-proposal caps on rewarded reviews.
#[derive(Clone, Copy, Debug, PartialEq, Eq, Structural)]
pub struct ProposalRewardSlots {
    pub excellent_slots: u64,
    pub good_slots: u64,
    pub max_excellent_reviews: u64,
    pub max_good_reviews: u64,
}

/// What the advisor allocation hands back: per-advisor rewards, per-proposal
/// bonus rewards, and the value of one ticket unit.
#[derive(Debug)]
pub struct CaRewards {
    pub rewards: Vec<(CommunityAdvisor, Rewards)>,
    pub bonus_rewards: Vec<(String, Rewards)>,
    pub base_ticket_reward: Rewards,
}

/// The ratios cover the whole fund.
pub open spec fn ratio_valid(fs: FundSetting) -> bool {
    fs.proposal_ratio as int + fs.bonus_ratio as int == 100
}

pub open spec fn ratio_weights(fs: FundSetting) -> Seq<u64> {
    seq![fs.proposal_ratio as u64, fs.bonus_ratio as u64]
}

/// The ticket pool: the proposal-ratio share of the total, the two pools
/// computed by one exact-sum split so they exhaust the total.
pub open spec fn spec_proposal_pool(fs: FundSetting) -> int {
    exact_share(fs.total as int, ratio_weights(fs), 0)
}

/// The bonus pool: the bonus-ratio share of the total.
pub open spec fn spec_bonus_pool(fs: FundSetting) -> int {
    exact_share(fs.total as int, ratio_weights(fs), 1)
}

/// Split the fund's total into the ticket pool and the bonus pool.
///
/// Fails with `ConfigurationError` exactly when the two ratios do not sum
/// to 100.  The pools are the exact-sum shares of the ratio weights, so
/// they always sum to the total to the minor unit.
pub fn fund_pools(fund_setting: &FundSetting) -> (r: Result<(Funds, Funds), RewardsError>)
    ensures
        r is Err <==> !ratio_valid(*fund_setting),
        match r {
            Ok(pools) => {
                &&& pools.0 + pools.1 == fund_setting.total
                &&& pools.0 == spec_proposal_pool(*fund_setting)
                &&& pools.1 == spec_bonus_pool(*fund_setting)
            },
            Err(e) => e == RewardsError::ConfigurationError,
        },
{
    let p = fund_setting.proposal_ratio as u64;
    let b = fund_setting.bonus_ratio as u64;
    if p + b != 100 {
        return Err(RewardsError::ConfigurationError);
    }
    let mut wv: Vec<u64> = Vec::new();
    wv.push(p);
    wv.push(b);
    proof {
        assert(wv@ =~= ratio_weights(*fund_setting));
        assert(wv@.drop_last() =~= seq![p]);
        lemma_sum64_singleton(p);
        assert(sum64(wv@) == 100);
    }
    let shares = match distribute(fund_setting.total, &wv) {
        Ok(s) => s,
        Err(_) => {
            proof {
                assert(false);
            }
            return Err(RewardsError::ConfigurationError);
        },
    };
    proof {
        assert(shares@.drop_last() =~= seq![shares@[0]]);
        lemma_sum64_singleton(shares@[0]);
        assert(shares@[0] + shares@[1] == fund_setting.total);
    }
    Ok((shares[0], shares[1]))
}

/// The positions of the reviews with the given rating, in review order.
pub open spec fn rated_positions(rs: Seq<AdvisorReviewRow>, rt: Rating) -> Seq<usize>
    decreases rs.len(),
{
    if rs.len() == 0 {
        Seq::empty()
    } else {
        let rest = rated_positions(rs.drop_last(), rt);
        if rs.last().rating == rt {
            rest.push((rs.len() - 1) as usize)
        } else {
            rest
        }
    }
}

proof fn lemma_rated_positions_bounds(rs: Seq<AdvisorReviewRow>, rt: Rating)
    requires
        rs.len() <= usize::MAX,
    ensures
        rated_positions(rs, rt).len() <= rs.len(),
        forall|j: int|
            0 <= j < rated_positions(rs, rt).len() ==> (#[trigger] rated_positions(rs, rt)[j])
                < rs.len(),
    decreases rs.len(),
{
    if rs.len() > 0 {
        lemma_rated_positions_bounds(rs.drop_last(), rt);
    }
}

/// Which rated positions earn tickets: all of them when they fit under the
/// cap, else a seeded draw of `cap` of them.
pub open spec fn tier_selection(state: u64, rs: Seq<AdvisorReviewRow>, rt: Rating, cap: u64) -> (
    Seq<usize>,
    u64,
) {
    let pos = rated_positions(rs, rt);
    if pos.len() <= cap {
        (pos, state)
    } else {
        spec_pick(state, pos, cap as int)
    }
}

/// The advisor units after granting `per` units for each selected review.
pub open spec fn grants(
    acc: Seq<(Seq<char>, u64)>,
    rs: Seq<AdvisorReviewRow>,
    sel: Seq<usize>,
    per: u64,
) -> Seq<(Seq<char>, u64)>
    decreases sel.len(),
{
    if sel.len() == 0 {
        acc
    } else {
        assoc_insert(
            grants(acc, rs, sel.drop_last(), per),
            rs[sel.last() as int].assessor@,
            per,
            sum_merge(),
        )
    }
}

/// Whether a proposal id is among the approved proposals.
pub open spec fn approved_contains(aps: Seq<(Seq<char>, u64)>, pid: Seq<char>) -> bool {
    exists|i: int| 0 <= i < aps.len() && aps[i].0 == pid
}

/// One proposal's contribution to the advisor units: nothing unless it is
/// approved, else the granted Excellent tickets, then the Good ones.
pub open spec fn proposal_units(
    acc: Seq<(Seq<char>, u64)>,
    entry: (Seq<char>, Seq<AdvisorReviewRow>),
    aps: Seq<(Seq<char>, u64)>,
    slots: ProposalRewardSlots,
    state: u64,
) -> (Seq<(Seq<char>, u64)>, u64) {
    if !approved_contains(aps, entry.0) {
        (acc, state)
    } else {
        let se = tier_selection(state, entry.1, Rating::Excellent, slots.max_excellent_reviews);
        let acc1 = grants(acc, entry.1, se.0, slots.excellent_slots);
        let sg = tier_selection(se.1, entry.1, Rating::Good, slots.max_good_reviews);
        (grants(acc1, entry.1, sg.0, slots.good_slots), sg.1)
    }
}

/// The advisor units of all proposals, in proposal order, with the
/// generator state threaded through.
pub open spec fn all_units(
    gs: Seq<(Seq<char>, Seq<AdvisorReviewRow>)>,
    aps: Seq<(Seq<char>, u64)>,
    slots: ProposalRewardSlots,
    state: u64,
) -> (Seq<(Seq<char>, u64)>, u64)
    decreases gs.len(),
{
    if gs.len() == 0 {
        (Seq::empty(), state)
    } else {
        let prev = all_units(gs.drop_last(), aps, slots, state);
        proposal_units(prev.0, gs.last(), aps, slots, prev.1)
    }
}

/// The advisor ticket units an allocation is computed from.
pub open spec fn spec_advisor_units(
    props: Seq<ProposalReviewsEntry>,
    aps: Seq<(String, u64)>,
    slots: ProposalRewardSlots,
    seed: Seed,
) -> Seq<(Seq<char>, u64)> {
    all_units(gview(props), pairs_view(aps), slots, seed_state(seed)).0
}

/// The most ticket units one proposal can grant.
pub open spec fn per_proposal_units(slots: ProposalRewardSlots) -> int {
    slots.max_excellent_reviews * slots.excellent_slots + slots.max_good_reviews
        * slots.good_slots
}

/// The most ticket units `n` proposals can grant.
pub open spec fn units_cap(slots: ProposalRewardSlots, n: int) -> int {
    per_proposal_units(slots) * n
}

/// Whether a proposal id is among the approved proposals.
fn is_approved(approved: &ApprovedProposals, pid: &String) -> (r: bool)
    ensures
        r == approved_contains(pairs_view(approved@), pid@),
{
    let n = approved.len();
    let mut j: usize = 0;
    while j < n
        invariant
            j <= n,
            n == approved@.len(),
            forall|i: int| 0 <= i < j ==> (#[trigger] pairs_view(approved@)[i].0) != pid@,
        decreases n - j,
    {
        let entry = &approved[j];
        if entry.0 == *pid {
            proof {
                assert(pairs_view(approved@)[j as int].0 == pid@);
            }
            return true;
        }
        proof {
            assert(pairs_view(approved@)[j as int].0 == approved@[j as int].0@);
        }
        j = j + 1;
    }
    false
}

/// Grant the capped ticket units of one rating tier of one proposal.
#[verifier::loop_isolation(false)]
fn process_tier(
    acc: &mut Vec<(String, u64)>,
    rng: &mut SeededDeterministicRandomness,
    reviews: &Vec<AdvisorReviewRow>,
    rt: Rating,
    cap: u64,
    per: u64,
)
    requires
        sum64(assoc_values(pairs_view(old(acc)@))) + cap * per <= u64::MAX,
    ensures
        pairs_view(final(acc)@) == grants(
            pairs_view(old(acc)@),
            reviews@,
            tier_selection(old(rng).state, reviews@, rt, cap).0,
            per,
        ),
        final(rng).state == tier_selection(old(rng).state, reviews@, rt, cap).1,
        sum64(assoc_values(pairs_view(final(acc)@))) <= sum64(assoc_values(pairs_view(old(acc)@)))
            + cap * per,
{
    let ghost base = pairs_view(acc@);
    let ghost s_in = rng.state;
    proof {
        lemma_mul_nonnegative(cap as int, per as int);
        lemma_sum64_nonneg(assoc_values(base));
    }
    let n = reviews.len();
    let mut pos: Vec<usize> = Vec::new();
    let mut i: usize = 0;
    proof {
        assert(reviews@.take(0) =~= Seq::<AdvisorReviewRow>::empty());
        assert(pos@ =~= rated_positions(reviews@.take(0), rt));
    }
    while i < n
        invariant
            i <= n,
            n == reviews@.len(),
            pos@ == rated_positions(reviews@.take(i as int), rt),
        decreases n - i,
    {
        proof {
            assert(reviews@.take(i as int + 1).drop_last() =~= reviews@.take(i as int));
            assert(reviews@.take(i as int + 1).last() == reviews@[i as int]);
        }
        if reviews[i].rating == rt {
            pos.push(i);
        }
        i = i + 1;
    }
    proof {
        assert(reviews@.take(n as int) =~= reviews@);
        lemma_rated_positions_bounds(reviews@, rt);
    }
    let ghost posq = rated_positions(reviews@, rt);

    let over_cap = (pos.len() as u64) > cap;
    let sel: Vec<usize> = if over_cap {
        rng.pick_k(pos, cap as usize)
    } else {
        pos
    };
    proof {
        if over_cap {
            lemma_spec_pick_len(s_in, posq, cap as int);
            lemma_spec_pick_elems(s_in, posq, cap as int);
            assert forall|t: int| 0 <= t < sel@.len() implies (#[trigger] sel@[t]) < n by {
                assert(posq.contains(sel@[t]));
                let w = choose|w: int| 0 <= w < posq.len() && posq[w] == sel@[t];
            }
        }
        assert(sel@.len() <= cap);
        assert(sel@ == tier_selection(s_in, reviews@, rt, cap).0);
        assert(rng.state == tier_selection(s_in, reviews@, rt, cap).1);
    }

    let m = sel.len();
    let mut j: usize = 0;
    proof {
        assert(sel@.take(0) =~= Seq::<usize>::empty());
    }
    while j < m
        invariant
            j <= m,
            m == sel@.len(),
            m as int <= cap as int,
            pairs_view(acc@) == grants(base, reviews@, sel@.take(j as int), per),
            sum64(assoc_values(pairs_view(acc@))) <= sum64(assoc_values(base)) + j * per,
            forall|t: int| 0 <= t < m ==> (#[trigger] sel@[t]) < reviews@.len(),
        decreases m - j,
    {
        proof {
            assert(sel@.take(j as int + 1).drop_last() =~= sel@.take(j as int));
            assert(sel@.take(j as int + 1).last() == sel@[j as int]);
            lemma_mul_inequality(j as int + 1, cap as int, per as int);
            lemma_mul_is_distributive_add_other_way(per as int, j as int, 1);
        }
        let idx = sel[j];
        let advisor = reviews[idx].assessor.clone();
        let ghost before = pairs_view(acc@);
        pair_insert_add(acc, advisor, per);
        proof {
            lemma_assoc_insert_sum(before, reviews@[idx as int].assessor@, per);
        }
        j = j + 1;
    }
    proof {
        assert(sel@.take(m as int) =~= sel@);
        lemma_mul_inequality(m as int, cap as int, per as int);
    }
}
/// What a successful advisor allocation is: both pools split exactly over
/// their weights, every share pinned by the inputs alone.
pub open spec fn ca_ok(
    ca: CaRewards,
    props: Seq<ProposalReviewsEntry>,
    aps: Seq<(String, u64)>,
    fs: FundSetting,
    slots: ProposalRewardSlots,
    seed: Seed,
) -> bool {
    let units = spec_advisor_units(props, aps, slots, seed);
    let uvals = assoc_values(units);
    let fvals = assoc_values(pairs_view(aps));
    let tp = spec_proposal_pool(fs);
    let bp = spec_bonus_pool(fs);
    &&& tp + bp == fs.total
    &&& ca.rewards@.len() == units.len()
    &&& (forall|k: int| 0 <= k < units.len() ==> (#[trigger] ca.rewards@[k].0@) == units[k].0)
    &&& (sum64(uvals) > 0 ==> forall|k: int|
        0 <= k < units.len() ==> (#[trigger] ca.rewards@[k].1) == exact_share(tp, uvals, k))
    &&& (sum64(uvals) == 0 ==> forall|k: int|
        0 <= k < units.len() ==> (#[trigger] ca.rewards@[k].1) == 0)
    &&& sum64(assoc_values(pairs_view(ca.rewards@))) == tp
    &&& ca.bonus_rewards@.len() == aps.len()
    &&& (forall|k: int| 0 <= k < aps.len() ==> (#[trigger] ca.bonus_rewards@[k].0@) == aps[k].0@)
    &&& (sum64(fvals) > 0 ==> forall|k: int|
        0 <= k < aps.len() ==> (#[trigger] ca.bonus_rewards@[k].1) == exact_share(bp, fvals, k))
    &&& (sum64(fvals) == 0 ==> forall|k: int|
        0 <= k < aps.len() ==> (#[trigger] ca.bonus_rewards@[k].1) == 0)
    &&& sum64(assoc_values(pairs_view(ca.bonus_rewards@))) == bp
    &&& ca.base_ticket_reward == (if sum64(uvals) > 0 {
        spec_proposal_pool(fs) / sum64(uvals)
    } else {
        0int
    })
}

/// Compute the community-advisor rewards.
///
/// Fails with `ConfigurationError`, before any allocation, exactly when the
/// two ratios do not sum to 100.  Otherwise the fund is split into the
/// ticket pool and the bonus pool, summing to the total exactly; the ticket
/// pool is distributed over the advisors' ticket units and the bonus pool
/// over the approved proposals' requested funds, each by exact-sum
/// distribution, so each pool is exhausted to the minor unit.
/// `InvalidInput` comes exactly when a non-zero pool has only zero weights
/// to go to.  An approved proposal without reviews grants no tickets but
/// keeps its bonus share; reviews of proposals not approved grant nothing.
#[verifier::loop_isolation(false)]
pub fn calculate_ca_rewards(
    proposal_reviews: &ProposalsReviews,
    approved_proposals: &ApprovedProposals,
    fund_setting: &FundSetting,
    rewards_slots: &ProposalRewardSlots,
    seed: Seed,
) -> (r: Result<CaRewards, RewardsError>)
    requires
        sorted_by_first(gview(proposal_reviews@)),
        sorted_by_first(pairs_view(approved_proposals@)),
        sum64(assoc_values(pairs_view(approved_proposals@))) <= u64::MAX,
        units_cap(*rewards_slots, proposal_reviews@.len() as int) <= u64::MAX,
    ensures
        !ratio_valid(*fund_setting) ==> (r is Err && r->Err_0
            == RewardsError::ConfigurationError),
        ratio_valid(*fund_setting) ==> ({
            let uvals = assoc_values(
                spec_advisor_units(proposal_reviews@, approved_proposals@, *rewards_slots, seed),
            );
            let fvals = assoc_values(pairs_view(approved_proposals@));
            &&& (r is Err <==> ((sum64(uvals) == 0 && spec_proposal_pool(*fund_setting) > 0) || (
            sum64(fvals) == 0 && spec_bonus_pool(*fund_setting) > 0)))
            &&& (r is Err ==> r->Err_0 == RewardsError::InvalidInput)
            &&& (r is Ok ==> ca_ok(
                r->Ok_0,
                proposal_reviews@,
                approved_proposals@,
                *fund_setting,
                *rewards_slots,
                seed,
            ))
        }),
{
    let pools = match fund_pools(fund_setting) {
        Ok(pp) => pp,
        Err(e) => {
            return Err(e);
        },
    };
    let ticket_pool = pools.0;
    let bonus_pool = pools.1;

    let ghost gvw = gview(proposal_reviews@);
    let ghost apv = pairs_view(approved_proposals@);
    let ghost slots_g = *rewards_slots;
    let ghost ppu = per_proposal_units(*rewards_slots);

    let mut rng = SeededDeterministicRandomness::new(&seed);
    let ghost s0 = rng.state;
    let mut units_acc: Vec<(String, u64)> = Vec::new();
    let n = proposal_reviews.len();
    let mut p: usize = 0;
    proof {
        assert(gvw.take(0) =~= Seq::<(Seq<char>, Seq<AdvisorReviewRow>)>::empty());
        assert(pairs_view(units_acc@) =~= Seq::<(Seq<char>, u64)>::empty());
        lemma_mul_nonnegative(
            slots_g.max_excellent_reviews as int,
            slots_g.excellent_slots as int,
        );
        lemma_mul_nonnegative(slots_g.max_good_reviews as int, slots_g.good_slots as int);
        assert(units_cap(slots_g, n as int) == ppu * n);
    }
    while p < n
        invariant
            p <= n,
            n == proposal_reviews@.len(),
            pairs_view(units_acc@) == all_units(gvw.take(p as int), apv, slots_g, s0).0,
            rng.state == all_units(gvw.take(p as int), apv, slots_g, s0).1,
            sum64(assoc_values(pairs_view(units_acc@))) <= (p as int) * ppu,
        decreases n - p,
    {
        let ghost pre_units = pairs_view(units_acc@);
        let ghost pre_state = rng.state;
        proof {
            assert(gvw.take(p as int + 1).drop_last() =~= gvw.take(p as int));
            assert(gvw.take(p as int + 1).last() == gvw[p as int]);
        }
        let entry = &proposal_reviews[p];
        proof {
            assert(gvw[p as int] == (entry.proposal_id@, entry.reviews@));
        }
        let approved = is_approved(approved_proposals, &entry.proposal_id);
        if approved {
            proof {
                lemma_mul_inequality(p as int + 1, n as int, ppu);
                lemma_mul_is_distributive_add_other_way(ppu, p as int, 1);
                assert(ppu * (n as int) == units_cap(slots_g, n as int)) by (nonlinear_arith)
                    requires
                        units_cap(slots_g, n as int) == ppu * n,
                ;
            }
            process_tier(
                &mut units_acc,
                &mut rng,
                &entry.reviews,
                Rating::Excellent,
                rewards_slots.max_excellent_reviews,
                rewards_slots.excellent_slots,
            );
            process_tier(
                &mut units_acc,
                &mut rng,
                &entry.reviews,
                Rating::Good,
                rewards_slots.max_good_reviews,
                rewards_slots.good_slots,
            );
            proof {
                assert(pairs_view(units_acc@) == proposal_units(
                    pre_units,
                    gvw[p as int],
                    apv,
                    slots_g,
                    pre_state,
                ).0);
                assert(rng.state == proposal_units(
                    pre_units,
                    gvw[p as int],
                    apv,
                    slots_g,
                    pre_state,
                ).1);
            }
        }
        p = p + 1;
        proof {
            assert(all_units(gvw.take(p as int), apv, slots_g, s0).0 == proposal_units(
                pre_units,
                gvw[p as int - 1],
                apv,
                slots_g,
                pre_state,
            ).0);
            lemma_mul_is_distributive_add_other_way(ppu, p as int - 1, 1);
        }
    }
    proof {
        assert(gvw.take(n as int) =~= gvw);
    }
    let ghost units = spec_advisor_units(proposal_reviews@, approved_proposals@, slots_g, seed);
    proof {
        assert(units == pairs_view(units_acc@));
        lemma_mul_inequality(n as int, n as int, ppu);
        assert((n as int) * ppu <= u64::MAX) by (nonlinear_arith)
            requires
                ppu * (n as int) <= u64::MAX,
        ;
    }

    let un = units_acc.len();
    let mut unit_vals: Vec<u64> = Vec::new();
    let mut k: usize = 0;
    while k < un
        invariant
            k <= un,
            un == units_acc@.len(),
            unit_vals@.len() == k,
            forall|j: int| 0 <= j < k ==> (#[trigger] unit_vals@[j]) == units_acc@[j].1,
        decreases un - k,
    {
        let entry = &units_acc[k];
        unit_vals.push(entry.1);
        k = k + 1;
    }
    proof {
        assert(unit_vals@ =~= assoc_values(pairs_view(units_acc@)));
    }

    let mut total_units: u64 = 0;
    let mut k: usize = 0;
    proof {
        assert(unit_vals@.take(0) =~= Seq::<u64>::empty());
    }
    while k < un
        invariant
            k <= un,
            un == unit_vals@.len(),
            total_units == sum64(unit_vals@.take(k as int)),
            sum64(unit_vals@) <= u64::MAX,
        decreases un - k,
    {
        proof {
            lemma_sum64_take_succ(unit_vals@, k as int);
            lemma_sum64_take_le(unit_vals@, k as int + 1);
        }
        total_units = total_units + unit_vals[k];
        k = k + 1;
    }
    proof {
        assert(unit_vals@.take(un as int) =~= unit_vals@);
    }

    let ticket_shares = match distribute(ticket_pool, &unit_vals) {
        Ok(v) => v,
        Err(e) => {
            return Err(e);
        },
    };
    let base_ticket_reward: u64 = if total_units > 0 {
        ticket_pool / total_units
    } else {
        0
    };

    let mut rewards: Vec<(String, u64)> = Vec::new();
    let mut k: usize = 0;
    while k < un
        invariant
            k <= un,
            un == units_acc@.len(),
            un == ticket_shares@.len(),
            rewards@.len() == k,
            forall|j: int| 0 <= j < k ==> (#[trigger] rewards@[j].0@) == units_acc@[j].0@,
            forall|j: int| 0 <= j < k ==> (#[trigger] rewards@[j].1) == ticket_shares@[j],
        decreases un - k,
    {
        let entry = &units_acc[k];
        rewards.push((entry.0.clone(), ticket_shares[k]));
        k = k + 1;
    }
    proof {
        assert(assoc_values(pairs_view(rewards@)) =~= ticket_shares@);
    }

    let an = approved_proposals.len();
    let mut fund_vals: Vec<u64> = Vec::new();
    let mut k: usize = 0;
    while k < an
        invariant
            k <= an,
            an == approved_proposals@.len(),
            fund_vals@.len() == k,
            forall|j: int| 0 <= j < k ==> (#[trigger] fund_vals@[j]) == approved_proposals@[j].1,
        decreases an - k,
    {
        let entry = &approved_proposals[k];
        fund_vals.push(entry.1);
        k = k + 1;
    }
    proof {
        assert(fund_vals@ =~= assoc_values(apv));
    }
    let bonus_shares = match distribute(bonus_pool, &fund_vals) {
        Ok(v) => v,
        Err(e) => {
            return Err(e);
        },
    };
    let mut bonus_rewards: Vec<(String, u64)> = Vec::new();
    let mut k: usize = 0;
    while k < an
        invariant
            k <= an,
            an == approved_proposals@.len(),
            an == bonus_shares@.len(),
            bonus_rewards@.len() == k,
            forall|j: int| 0 <= j < k ==> (#[trigger] bonus_rewards@[j].0@) == approved_proposals@[j].0@,
            forall|j: int| 0 <= j < k ==> (#[trigger] bonus_rewards@[j].1) == bonus_shares@[j],
        decreases an - k,
    {
        let entry = &approved_proposals[k];
        bonus_rewards.push((entry.0.clone(), bonus_shares[k]));
        k = k + 1;
    }
    proof {
        assert(assoc_values(pairs_view(bonus_rewards@)) =~= bonus_shares@);
    }
    Ok(CaRewards { rewards, bonus_rewards, base_ticket_reward })
}
/// Whether any review group bears this proposal id.
pub open spec fn groups_contain(
    gs: Seq<(Seq<char>, Seq<AdvisorReviewRow>)>,
    pid: Seq<char>,
) -> bool {
    exists|i: int| 0 <= i < gs.len() && gs[i].0 == pid
}

/// The approved proposals that no review mentions, in approved order.
pub open spec fn proposals_without_reviews(
    aps: Seq<(Seq<char>, u64)>,
    gs: Seq<(Seq<char>, Seq<AdvisorReviewRow>)>,
) -> Seq<Seq<char>>
    decreases aps.len(),
{
    if aps.len() == 0 {
        Seq::empty()
    } else {
        let rest = proposals_without_reviews(aps.drop_last(), gs);
        if !groups_contain(gs, aps.last().0) {
            rest.push(aps.last().0)
        } else {
            rest
        }
    }
}

/// Whether any review group bears this proposal id.
fn has_reviews(groups: &ProposalsReviews, pid: &String) -> (r: bool)
    ensures
        r == groups_contain(gview(groups@), pid@),
{
    let n = groups.len();
    let mut j: usize = 0;
    while j < n
        invariant
            j <= n,
            n == groups@.len(),
            forall|i: int| 0 <= i < j ==> (#[trigger] gview(groups@)[i].0) != pid@,
        decreases n - j,
    {
        let entry = &groups[j];
        if entry.proposal_id == *pid {
            proof {
                assert(gview(groups@)[j as int].0 == pid@);
            }
            return true;
        }
        proof {
            assert(gview(groups@)[j as int].0 == groups@[j as int].proposal_id@);
        }
        j = j + 1;
    }
    false
}

/// The advisor-rewards command, its inputs already read and typed: grouped
/// reviews, approved proposals, the fund settings, the ticket economy and
/// the seed digest.
#[derive(Debug)]
pub struct CommunityAdvisors {
    pub proposal_reviews: ProposalsReviews,
    pub approved_proposals: ApprovedProposals,
    pub fund_settings: FundSetting,
    pub rewards_slots: ProposalRewardSlots,
    pub seed: Seed,
}

impl CommunityAdvisors {
    /// Run the advisor allocation.
    ///
    /// Lists the approved proposals that no review mentions — a data
    /// completeness warning for the caller to report, not an error: such a
    /// proposal grants no tickets but keeps its bonus share — and then
    /// allocates.  The errors are those of `calculate_ca_rewards`.
    #[verifier::loop_isolation(false)]
    pub fn exec(self) -> (r: Result<(CaRewards, Vec<String>), RewardsError>)
        requires
            sorted_by_first(gview(self.proposal_reviews@)),
            sorted_by_first(pairs_view(self.approved_proposals@)),
            sum64(assoc_values(pairs_view(self.approved_proposals@))) <= u64::MAX,
            units_cap(self.rewards_slots, self.proposal_reviews@.len() as int) <= u64::MAX,
        ensures
            !ratio_valid(self.fund_settings) ==> (r is Err && r->Err_0
                == RewardsError::ConfigurationError),
            ratio_valid(self.fund_settings) ==> ({
                let uvals = assoc_values(
                    spec_advisor_units(
                        self.proposal_reviews@,
                        self.approved_proposals@,
                        self.rewards_slots,
                        self.seed,
                    ),
                );
                let fvals = assoc_values(pairs_view(self.approved_proposals@));
                let missing = proposals_without_reviews(
                    pairs_view(self.approved_proposals@),
                    gview(self.proposal_reviews@),
                );
                &&& (r is Err <==> ((sum64(uvals) == 0 && spec_proposal_pool(self.fund_settings)
                    > 0) || (sum64(fvals) == 0 && spec_bonus_pool(self.fund_settings) > 0)))
                &&& (r is Err ==> r->Err_0 == RewardsError::InvalidInput)
                &&& (r is Ok ==> ca_ok(
                    r->Ok_0.0,
                    self.proposal_reviews@,
                    self.approved_proposals@,
                    self.fund_settings,
                    self.rewards_slots,
                    self.seed,
                ))
                &&& (r is Ok ==> (r->Ok_0.1@.len() == missing.len() && forall|k: int|
                    0 <= k < missing.len() ==> (#[trigger] r->Ok_0.1@[k]@) == missing[k]))
            }),
    {
        let ghost apv = pairs_view(self.approved_proposals@);
        let ghost gvw = gview(self.proposal_reviews@);
        let an = self.approved_proposals.len();
        let mut missing: Vec<String> = Vec::new();
        let mut k: usize = 0;
        proof {
            assert(apv.take(0) =~= Seq::<(Seq<char>, u64)>::empty());
        }
        while k < an
            invariant
                k <= an,
                an == self.approved_proposals@.len(),
                missing@.len() == proposals_without_reviews(apv.take(k as int), gvw).len(),
                forall|j: int|
                    0 <= j < missing@.len() ==> (#[trigger] missing@[j]@)
                        == proposals_without_reviews(apv.take(k as int), gvw)[j],
            decreases an - k,
        {
            proof {
                assert(apv.take(k as int + 1).drop_last() =~= apv.take(k as int));
                assert(apv.take(k as int + 1).last() == apv[k as int]);
            }
            let entry = &self.approved_proposals[k];
            if !has_reviews(&self.proposal_reviews, &entry.0) {
                missing.push(entry.0.clone());
            }
            k = k + 1;
        }
        proof {
            assert(apv.take(an as int) =~= apv);
        }
        let rewards = match calculate_ca_rewards(
            &self.proposal_reviews,
            &self.approved_proposals,
            &self.fund_settings,
            &self.rewards_slots,
            self.seed,
        ) {
            Ok(ca) => ca,
            Err(e) => {
                return Err(e);
            },
        };
        Ok((rewards, missing))
    }
}

/// One row of the advisor-rewards output.
#[derive(Debug)]
pub struct AdvisorRewardRecord {
    pub id: String,
    pub rewards: Rewards,
}

/// One row of the per-proposal bonus output.
#[derive(Debug)]
pub struct ProposalBonusRecord {
    pub proposal_id: String,
    pub bonus_rewards: Rewards,
}

/// The advisor rewards as output rows, one per advisor, in reward order.
pub fn rewards_to_csv_data(rewards: &Vec<(CommunityAdvisor, Rewards)>) -> (r: Vec<
    AdvisorRewardRecord,
>)
    ensures
        r@.len() == rewards@.len(),
        forall|k: int|
            0 <= k < r@.len() ==> (#[trigger] r@[k].id@) == rewards@[k].0@ && r@[k].rewards
                == rewards@[k].1,
{
    let n = rewards.len();
    let mut out: Vec<AdvisorRewardRecord> = Vec::new();
    let mut k: usize = 0;
    while k < n
        invariant
            k <= n,
            n == rewards@.len(),
            out@.len() == k,
            forall|j: int|
                0 <= j < k ==> (#[trigger] out@[j].id@) == rewards@[j].0@ && out@[j].rewards
                    == rewards@[j].1,
        decreases n - k,
    {
        let entry = &rewards[k];
        out.push(AdvisorRewardRecord { id: entry.0.clone(), rewards: entry.1 });
        k = k + 1;
    }
    out
}

/// The proposal bonuses as output rows, one per proposal, in bonus order.
pub fn bonus_to_csv_data(rewards: Vec<(String, Rewards)>) -> (r: Vec<ProposalBonusRecord>)
    ensures
        r@.len() == rewards@.len(),
        forall|k: int|
            0 <= k < r@.len() ==> (#[trigger] r@[k].proposal_id@) == rewards@[k].0@
                && r@[k].bonus_rewards == rewards@[k].1,
{
    let n = rewards.len();
    let mut out: Vec<ProposalBonusRecord> = Vec::new();
    let mut k: usize = 0;
    while k < n
        invariant
            k <= n,
            n == rewards@.len(),
            out@.len() == k,
            forall|j: int|
                0 <= j < k ==> (#[trigger] out@[j].proposal_id@) == rewards@[j].0@
                    && out@[j].bonus_rewards == rewards@[j].1,
        decreases n - k,
    {
        let entry = &rewards[k];
        out.push(ProposalBonusRecord { proposal_id: entry.0.clone(), bonus_rewards: entry.1 });
        k = k + 1;
    }
    out
}

/// Two advisor allocations with identical inputs and the same seed are
/// identical: `ca_ok` pins every advisor, every amount, every bonus and the
/// base ticket value, so a rerun can never allocate differently.
pub proof fn lemma_ca_rewards_deterministic(
    ca1: CaRewards,
    ca2: CaRewards,
    props: Seq<ProposalReviewsEntry>,
    aps: Seq<(String, u64)>,
    fs: FundSetting,
    slots: ProposalRewardSlots,
    sd: Seed,
)
    requires
        ca_ok(ca1, props, aps, fs, slots, sd),
        ca_ok(ca2, props, aps, fs, slots, sd),
    ensures
        pairs_view(ca1.rewards@) == pairs_view(ca2.rewards@),
        pairs_view(ca1.bonus_rewards@) == pairs_view(ca2.bonus_rewards@),
        ca1.base_ticket_reward == ca2.base_ticket_reward,
{
    let units = spec_advisor_units(props, aps, slots, sd);
    lemma_sum64_nonneg(assoc_values(units));
    lemma_sum64_nonneg(assoc_values(pairs_view(aps)));
    assert(pairs_view(ca1.rewards@) =~= pairs_view(ca2.rewards@));
    assert(pairs_view(ca1.bonus_rewards@) =~= pairs_view(ca2.bonus_rewards@));
}


proof fn lemma_grants_sorted(
    acc: Seq<(Seq<char>, u64)>,
    rs: Seq<AdvisorReviewRow>,
    sel: Seq<usize>,
    per: u64,
)
    requires
        sorted_by_first(acc),
    ensures
        sorted_by_first(grants(acc, rs, sel, per)),
    decreases sel.len(),
{
    if sel.len() > 0 {
        lemma_grants_sorted(acc, rs, sel.drop_last(), per);
        lemma_assoc_insert_sorted(
            grants(acc, rs, sel.drop_last(), per),
            rs[sel.last() as int].assessor@,
            per,
            sum_merge(),
        );
    }
}

proof fn lemma_proposal_units_sorted(
    acc: Seq<(Seq<char>, u64)>,
    entry: (Seq<char>, Seq<AdvisorReviewRow>),
    aps: Seq<(Seq<char>, u64)>,
    slots: ProposalRewardSlots,
    state: u64,
)
    requires
        sorted_by_first(acc),
    ensures
        sorted_by_first(proposal_units(acc, entry, aps, slots, state).0),
{
    if approved_contains(aps, entry.0) {
        let se = tier_selection(state, entry.1, Rating::Excellent, slots.max_excellent_reviews);
        lemma_grants_sorted(acc, entry.1, se.0, slots.excellent_slots);
        let acc1 = grants(acc, entry.1, se.0, slots.excellent_slots);
        let sg = tier_selection(se.1, entry.1, Rating::Good, slots.max_good_reviews);
        lemma_grants_sorted(acc1, entry.1, sg.0, slots.good_slots);
    }
}

/// The advisor units — and with them the reward rows, whose advisors and
/// amounts they pin — come ordered by advisor identifier: never by review
/// file order, hash order or insertion order.
pub proof fn lemma_advisor_units_sorted(
    props: Seq<ProposalReviewsEntry>,
    aps: Seq<(String, u64)>,
    slots: ProposalRewardSlots,
    sd: Seed,
)
    ensures
        sorted_by_first(spec_advisor_units(props, aps, slots, sd)),
{
    lemma_all_units_sorted(gview(props), pairs_view(aps), slots, seed_state(sd));
}

proof fn lemma_all_units_sorted(
    gs: Seq<(Seq<char>, Seq<AdvisorReviewRow>)>,
    aps: Seq<(Seq<char>, u64)>,
    slots: ProposalRewardSlots,
    state: u64,
)
    ensures
        sorted_by_first(all_units(gs, aps, slots, state).0),
    decreases gs.len(),
{
    if gs.len() > 0 {
        lemma_all_units_sorted(gs.drop_last(), aps, slots, state);
        let prev = all_units(gs.drop_last(), aps, slots, state);
        lemma_proposal_units_sorted(prev.0, gs.last(), aps, slots, prev.1);
    }
}

} // verus!
