use catalyst_toolbox::community_advisors::{
    bonus_to_csv_data, calculate_ca_rewards, fund_pools, read_approved_proposals,
    read_proposal_reviews, rewards_to_csv_data, AdvisorReviewRow, ApprovedProposalRow,
    CommunityAdvisors, FundSetting, ProposalRewardSlots, ProposalStatus, Rating,
};
use catalyst_toolbox::seeded::{Seed, SeededDeterministicRandomness};
use catalyst_toolbox::voters::{calc_voter_rewards, VoteCountEntry, VotingPowerEntry};
use catalyst_toolbox::RewardsError;

fn s(x: &str) -> String {
    x.to_string()
}

fn seed() -> Seed {
    Seed { bytes: [7u8; 32] }
}

fn review(pid: &str, advisor: &str, rating: Rating) -> AdvisorReviewRow {
    AdvisorReviewRow {
        proposal_id: s(pid),
        assessor: s(advisor),
        rating,
    }
}

#[test]
fn voter_threshold_excludes_addresses() {
    let counts = vec![
        VoteCountEntry { address: s("addr1"), count: 5 },
        VoteCountEntry { address: s("addr2"), count: 0 },
    ];
    let snapshot = vec![
        VotingPowerEntry { address: s("addr1"), voting_power: 100 },
        VotingPowerEntry { address: s("addr2"), voting_power: 0 },
    ];
    let rewards = calc_voter_rewards(&counts, 1, &snapshot, 1000).unwrap();
    assert_eq!(rewards.len(), 1);
    assert_eq!(rewards[0].address, s("addr1"));
    assert_eq!(rewards[0].reward, 1000);
    assert!(rewards.iter().all(|r| r.address != s("addr2")));
}

#[test]
fn voter_rewards_exhaust_the_total() {
    let counts = vec![
        VoteCountEntry { address: s("a"), count: 1 },
        VoteCountEntry { address: s("b"), count: 1 },
        VoteCountEntry { address: s("c"), count: 1 },
    ];
    let snapshot = vec![
        VotingPowerEntry { address: s("a"), voting_power: 1 },
        VotingPowerEntry { address: s("b"), voting_power: 1 },
        VotingPowerEntry { address: s("c"), voting_power: 1 },
    ];
    let rewards = calc_voter_rewards(&counts, 0, &snapshot, 100).unwrap();
    let total: u64 = rewards.iter().map(|r| r.reward).sum();
    assert_eq!(total, 100);
    assert_eq!(rewards[0].reward, 34);
    assert_eq!(rewards[1].reward, 33);
    assert_eq!(rewards[2].reward, 33);
}

#[test]
fn voter_zero_power_rejected() {
    let counts = vec![VoteCountEntry { address: s("a"), count: 5 }];
    let snapshot = vec![VotingPowerEntry { address: s("a"), voting_power: 0 }];
    assert!(matches!(
        calc_voter_rewards(&counts, 0, &snapshot, 10),
        Err(RewardsError::InvalidInput)
    ));
}

#[test]
fn pools_always_close_the_total() {
    let (p, b) = fund_pools(&FundSetting { proposal_ratio: 13, bonus_ratio: 87, total: 12345 })
        .unwrap();
    assert_eq!((p, b), (1605, 10740));
    assert_eq!(p + b, 12345);
    let (p2, b2) = fund_pools(&FundSetting { proposal_ratio: 70, bonus_ratio: 30, total: 1000 })
        .unwrap();
    assert_eq!((p2, b2), (700, 300));
}

#[test]
fn bad_ratios_fail_before_allocation() {
    let fs = FundSetting { proposal_ratio: 60, bonus_ratio: 30, total: 1000 };
    assert!(matches!(
        fund_pools(&fs),
        Err(RewardsError::ConfigurationError)
    ));
    let slots = ProposalRewardSlots {
        excellent_slots: 1,
        good_slots: 1,
        max_excellent_reviews: 1,
        max_good_reviews: 1,
    };
    let reviews = read_proposal_reviews(vec![review("p1", "a1", Rating::Excellent)]);
    let approved = vec![(s("p1"), 500u64)];
    assert!(matches!(
        calculate_ca_rewards(&reviews, &approved, &fs, &slots, seed()),
        Err(RewardsError::ConfigurationError)
    ));
}

#[test]
fn single_excellent_review_takes_the_pool() {
    let fs = FundSetting { proposal_ratio: 70, bonus_ratio: 30, total: 1000 };
    let slots = ProposalRewardSlots {
        excellent_slots: 1,
        good_slots: 1,
        max_excellent_reviews: 1,
        max_good_reviews: 1,
    };
    let reviews = read_proposal_reviews(vec![review("p1", "a1", Rating::Excellent)]);
    let approved = vec![(s("p1"), 500u64)];
    let ca = calculate_ca_rewards(&reviews, &approved, &fs, &slots, seed()).unwrap();
    assert_eq!(ca.base_ticket_reward, 700);
    assert_eq!(ca.rewards, vec![(s("a1"), 700u64)]);
    assert_eq!(ca.bonus_rewards, vec![(s("p1"), 300u64)]);
}

#[test]
fn same_seed_same_allocation() {
    let fs = FundSetting { proposal_ratio: 50, bonus_ratio: 50, total: 100 };
    let slots = ProposalRewardSlots {
        excellent_slots: 3,
        good_slots: 1,
        max_excellent_reviews: 2,
        max_good_reviews: 1,
    };
    let rows = vec![
        review("p1", "a1", Rating::Excellent),
        review("p1", "a2", Rating::Excellent),
        review("p1", "a3", Rating::Excellent),
        review("p1", "a4", Rating::Other),
    ];
    let approved = vec![(s("p1"), 100u64)];
    let reviews1 = read_proposal_reviews(rows.clone());
    let reviews2 = read_proposal_reviews(rows);
    let ca1 = calculate_ca_rewards(&reviews1, &approved, &fs, &slots, seed()).unwrap();
    let ca2 = calculate_ca_rewards(&reviews2, &approved, &fs, &slots, seed()).unwrap();
    assert_eq!(ca1.rewards, ca2.rewards);
    assert_eq!(ca1.bonus_rewards, ca2.bonus_rewards);
    assert_eq!(ca1.base_ticket_reward, ca2.base_ticket_reward);
    // the cap admits two of the three excellent reviews
    assert_eq!(ca1.rewards.len(), 2);
    let ticket_total: u64 = ca1.rewards.iter().map(|r| r.1).sum();
    assert_eq!(ticket_total, 50);
    // six ticket units in a pool of 50
    assert_eq!(ca1.base_ticket_reward, 8);
}

#[test]
fn capped_good_reviews_and_unapproved_proposals() {
    let fs = FundSetting { proposal_ratio: 80, bonus_ratio: 20, total: 1000 };
    let slots = ProposalRewardSlots {
        excellent_slots: 3,
        good_slots: 1,
        max_excellent_reviews: 5,
        max_good_reviews: 5,
    };
    let rows = vec![
        review("p1", "a1", Rating::Excellent),
        review("p1", "a2", Rating::Good),
        review("p9", "a3", Rating::Excellent),
    ];
    let reviews = read_proposal_reviews(rows);
    // p9 is not approved: its review earns nothing
    let approved = vec![(s("p1"), 100u64), (s("p2"), 300u64)];
    let ca = calculate_ca_rewards(&reviews, &approved, &fs, &slots, seed()).unwrap();
    // four ticket units in a pool of 800: base 200
    assert_eq!(ca.base_ticket_reward, 200);
    assert_eq!(ca.rewards, vec![(s("a1"), 600u64), (s("a2"), 200u64)]);
    // bonus by requested funds: 200 over 100 and 300
    assert_eq!(ca.bonus_rewards, vec![(s("p1"), 50u64), (s("p2"), 150u64)]);
}

#[test]
fn warning_lists_approved_proposals_without_reviews() {
    let cmd = CommunityAdvisors {
        proposal_reviews: read_proposal_reviews(vec![review("p1", "a1", Rating::Excellent)]),
        approved_proposals: vec![(s("p1"), 100u64), (s("p2"), 50u64)],
        fund_settings: FundSetting { proposal_ratio: 70, bonus_ratio: 30, total: 1000 },
        rewards_slots: ProposalRewardSlots {
            excellent_slots: 1,
            good_slots: 1,
            max_excellent_reviews: 1,
            max_good_reviews: 1,
        },
        seed: seed(),
    };
    let (ca, missing) = cmd.exec().unwrap();
    assert_eq!(missing, vec![s("p2")]);
    // the unreviewed proposal still gets its bonus share
    assert_eq!(ca.bonus_rewards, vec![(s("p1"), 200u64), (s("p2"), 100u64)]);
}

#[test]
fn grouping_orders_and_collects_rows() {
    let rows = vec![
        review("p2", "a1", Rating::Good),
        review("p1", "a2", Rating::Excellent),
        review("p1", "a3", Rating::Other),
    ];
    let groups = read_proposal_reviews(rows);
    assert_eq!(groups.len(), 2);
    assert_eq!(groups[0].proposal_id, s("p1"));
    assert_eq!(groups[0].reviews.len(), 2);
    assert_eq!(groups[0].reviews[0].assessor, s("a2"));
    assert_eq!(groups[0].reviews[1].assessor, s("a3"));
    assert_eq!(groups[1].proposal_id, s("p2"));
    assert_eq!(groups[1].reviews.len(), 1);
}

#[test]
fn approved_rows_parse_and_sort() {
    let rows = vec![
        ApprovedProposalRow {
            proposal_id: s("p2"),
            requested_dollars: s("1.50"),
            status: ProposalStatus::Approved,
        },
        ApprovedProposalRow {
            proposal_id: s("p1"),
            requested_dollars: s("2"),
            status: ProposalStatus::Approved,
        },
        ApprovedProposalRow {
            proposal_id: s("p3"),
            requested_dollars: s("not a number"),
            status: ProposalStatus::NotApproved,
        },
    ];
    let approved = read_approved_proposals(rows).unwrap();
    assert_eq!(approved, vec![(s("p1"), 2_000_000u64), (s("p2"), 1_500_000u64)]);
}

#[test]
fn repeated_approved_id_keeps_the_later_amount() {
    let rows = vec![
        ApprovedProposalRow {
            proposal_id: s("p1"),
            requested_dollars: s("1"),
            status: ProposalStatus::Approved,
        },
        ApprovedProposalRow {
            proposal_id: s("p1"),
            requested_dollars: s("3"),
            status: ProposalStatus::Approved,
        },
    ];
    let approved = read_approved_proposals(rows).unwrap();
    assert_eq!(approved, vec![(s("p1"), 3_000_000u64)]);
}

#[test]
fn malformed_approved_amount_rejected() {
    let rows = vec![ApprovedProposalRow {
        proposal_id: s("p1"),
        requested_dollars: s("12.3.4"),
        status: ProposalStatus::Approved,
    }];
    assert!(matches!(
        read_approved_proposals(rows),
        Err(RewardsError::InvalidInput)
    ));
}

#[test]
fn csv_rows_mirror_the_rewards() {
    let rewards = vec![(s("a1"), 10u64), (s("a2"), 20u64)];
    let rows = rewards_to_csv_data(&rewards);
    assert_eq!(rows.len(), 2);
    assert_eq!(rows[0].id, s("a1"));
    assert_eq!(rows[0].rewards, 10);
    assert_eq!(rows[1].id, s("a2"));
    assert_eq!(rows[1].rewards, 20);
    let bonus = bonus_to_csv_data(vec![(s("p1"), 5u64)]);
    assert_eq!(bonus.len(), 1);
    assert_eq!(bonus[0].proposal_id, s("p1"));
    assert_eq!(bonus[0].bonus_rewards, 5);
}

#[test]
fn seeded_stream_is_reproducible() {
    let sd = Seed { bytes: [42u8; 32] };
    let mut g1 = SeededDeterministicRandomness::new(&sd);
    let mut g2 = SeededDeterministicRandomness::new(&sd);
    assert_eq!(g1.next_u64(), g2.next_u64());
    assert_eq!(g1.next_u64(), g2.next_u64());
    let picked1 = g1.pick_k(vec![0, 1, 2, 3, 4], 3);
    let picked2 = g2.pick_k(vec![0, 1, 2, 3, 4], 3);
    assert_eq!(picked1, picked2);
    assert_eq!(picked1.len(), 3);
    let mut one = [0u8; 32];
    one[0] = 1;
    let other = SeededDeterministicRandomness::new(&Seed { bytes: one });
    let zero = SeededDeterministicRandomness::new(&Seed { bytes: [0u8; 32] });
    assert!(other.state != zero.state);
}
