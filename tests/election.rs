use offline_election::assignments::StakedAssignment;
use offline_election::election::{
    distinct_voter_list, reduce_assignments, run_offline_election_with_stake,
    staked_assignments_to_offline_winners, ElectionError, ElectionOutputs,
};
use offline_election::npos::RawElectionResult;
use offline_election::types::{
    balance_to_vote_weight, flatten_voters, AccountId, ElectionSnapshot, VoterSnapshot,
};

fn acc(b: u8) -> AccountId {
    [b; 32]
}

fn voter(who: u8, weight: u64, targets: &[u8]) -> VoterSnapshot {
    VoterSnapshot { who: acc(who), weight, targets: targets.iter().map(|t| acc(*t)).collect() }
}

fn snapshot(targets: &[u8], desired: u32, pages: Vec<Vec<VoterSnapshot>>) -> ElectionSnapshot {
    ElectionSnapshot {
        at: [7u8; 32],
        round: 3,
        total_issuance: 1_000_000,
        desired_targets: desired,
        all_targets: targets.iter().map(|t| acc(*t)).collect(),
        voter_pages: pages,
    }
}

fn supports(staked: &[StakedAssignment], v: AccountId) -> u128 {
    staked
        .iter()
        .flat_map(|a| a.distribution.iter())
        .filter(|(t, _)| *t == v)
        .map(|(_, s)| *s)
        .sum()
}

#[test]
fn single_winner_collects_all_backing() {
    let s = snapshot(&[1, 2], 1, vec![vec![voter(10, 100, &[1]), voter(11, 50, &[1, 2])]]);
    for do_reduce in [false, true] {
        let out = run_offline_election_with_stake(&s, do_reduce).unwrap();
        assert_eq!(out.raw.winners.len(), 1);
        assert_eq!(out.raw.winners[0].0, acc(1));
        let winners = staked_assignments_to_offline_winners(&out);
        assert_eq!(winners.len(), 1);
        assert_eq!(winners[0].validator, acc(1));
        assert_eq!(winners[0].support, 150);
        assert_eq!(winners[0].backers.len(), 2);
        assert_eq!(winners[0].backers[0].who, acc(10));
        assert_eq!(winners[0].backers[0].weight, 100);
        assert_eq!(winners[0].backers[1].who, acc(11));
        assert_eq!(winners[0].backers[1].weight, 50);
        assert_eq!(supports(&out.staked_assignments, acc(2)), 0);
    }
}

#[test]
fn winner_count_is_bounded_by_candidates() {
    let pages = vec![vec![voter(10, 100, &[1, 2]), voter(11, 80, &[2, 3])], vec![voter(12, 60, &[3])]];
    let s = snapshot(&[1, 2, 3], 2, pages.clone());
    let out = run_offline_election_with_stake(&s, false).unwrap();
    assert_eq!(out.raw.winners.len(), 2);
    let s = snapshot(&[1, 2, 3], 5, pages);
    let out = run_offline_election_with_stake(&s, false).unwrap();
    assert_eq!(out.raw.winners.len(), 3);
}

#[test]
fn runs_are_deterministic() {
    let pages = vec![
        vec![voter(10, 100, &[1, 2]), voter(11, 80, &[2, 3])],
        vec![voter(12, 60, &[3, 1]), voter(13, 40, &[1, 2, 3])],
    ];
    let s = snapshot(&[1, 2, 3], 2, pages);
    let a = run_offline_election_with_stake(&s, true).unwrap();
    let b = run_offline_election_with_stake(&s.clone(), true).unwrap();
    assert_eq!(a.raw.winners, b.raw.winners);
    let ra: Vec<_> = a.raw.assignments.iter().map(|x| (x.who, x.distribution.clone())).collect();
    let rb: Vec<_> = b.raw.assignments.iter().map(|x| (x.who, x.distribution.clone())).collect();
    assert_eq!(ra, rb);
    let sa: Vec<_> = a.staked_assignments.iter().map(|x| (x.who, x.distribution.clone())).collect();
    let sb: Vec<_> = b.staked_assignments.iter().map(|x| (x.who, x.distribution.clone())).collect();
    assert_eq!(sa, sb);
}

#[test]
fn staked_shares_stay_within_weight() {
    let pages = vec![vec![voter(10, 101, &[1, 2, 3]), voter(11, 77, &[2, 3]), voter(12, 13, &[1])]];
    let s = snapshot(&[1, 2, 3], 3, pages);
    let out = run_offline_election_with_stake(&s, false).unwrap();
    for a in &out.staked_assignments {
        let total: u128 = a.distribution.iter().map(|(_, x)| *x).sum();
        let weight = flatten_voters(&s).iter().find(|v| v.who == a.who).unwrap().weight as u128;
        assert!(total <= weight);
    }
}

#[test]
fn reduction_keeps_supports_and_totals() {
    let mut staked = vec![
        StakedAssignment { who: acc(10), distribution: vec![(acc(1), 50), (acc(2), 50)] },
        StakedAssignment { who: acc(11), distribution: vec![(acc(1), 30), (acc(2), 70)] },
    ];
    let before = staked.clone();
    let edges_before: usize = before.iter().map(|a| a.distribution.len()).sum();
    assert!(reduce_assignments(&mut staked).is_ok());
    let edges_after: usize = staked.iter().map(|a| a.distribution.len()).sum();
    assert!(edges_after < edges_before);
    for v in [acc(1), acc(2)] {
        assert_eq!(supports(&staked, v), supports(&before, v));
    }
    for (a, b) in staked.iter().zip(before.iter()) {
        assert_eq!(a.who, b.who);
        let ta: u128 = a.distribution.iter().map(|(_, x)| *x).sum();
        let tb: u128 = b.distribution.iter().map(|(_, x)| *x).sum();
        assert_eq!(ta, tb);
    }
}

#[test]
fn reduced_run_keeps_supports() {
    let pages = vec![vec![
        voter(10, 100, &[1, 2]),
        voter(11, 100, &[1, 2]),
        voter(12, 50, &[2, 3]),
        voter(13, 70, &[3, 1]),
    ]];
    let s = snapshot(&[1, 2, 3], 3, pages);
    let plain = run_offline_election_with_stake(&s, false).unwrap();
    let reduced = run_offline_election_with_stake(&s, true).unwrap();
    for v in [acc(1), acc(2), acc(3)] {
        assert_eq!(supports(&plain.staked_assignments, v), supports(&reduced.staked_assignments, v));
    }
    let e1: usize = plain.staked_assignments.iter().map(|a| a.distribution.len()).sum();
    let e2: usize = reduced.staked_assignments.iter().map(|a| a.distribution.len()).sum();
    assert!(e2 <= e1);
}

#[test]
fn offline_winner_support_saturates() {
    let out = ElectionOutputs {
        raw: RawElectionResult { winners: vec![(acc(1), 0), (acc(2), 0)], assignments: vec![] },
        staked_assignments: vec![
            StakedAssignment { who: acc(10), distribution: vec![(acc(1), u128::MAX)] },
            StakedAssignment { who: acc(11), distribution: vec![(acc(1), 5)] },
        ],
    };
    let w = staked_assignments_to_offline_winners(&out);
    assert_eq!(w.len(), 2);
    assert_eq!(w[0].support, u64::MAX);
    assert_eq!(w[0].backers[0].weight, u64::MAX);
    assert_eq!(w[0].backers[1].weight, 5);
    assert_eq!(w[1].validator, acc(2));
    assert_eq!(w[1].support, 0);
    assert!(w[1].backers.is_empty());
}

#[test]
fn balance_conversion_saturates() {
    assert_eq!(balance_to_vote_weight(0), 0);
    assert_eq!(balance_to_vote_weight(12_345), 12_345);
    assert_eq!(balance_to_vote_weight(u64::MAX as u128), u64::MAX);
    assert_eq!(balance_to_vote_weight(u64::MAX as u128 + 1), u64::MAX);
    assert_eq!(balance_to_vote_weight(u128::MAX), u64::MAX);
}

#[test]
fn flatten_keeps_page_order() {
    let s = snapshot(&[1], 1, vec![vec![voter(10, 1, &[1]), voter(11, 2, &[1])], vec![], vec![voter(12, 3, &[1])]]);
    let f = flatten_voters(&s);
    let who: Vec<AccountId> = f.iter().map(|v| v.who).collect();
    assert_eq!(who, vec![acc(10), acc(11), acc(12)]);
    assert_eq!(f[2].weight, 3);
}

#[test]
fn final_ratios_give_whole_weight_to_the_winner() {
    let s = snapshot(&[1, 2], 1, vec![vec![voter(10, 100, &[1]), voter(11, 50, &[1, 2])]]);
    let out = run_offline_election_with_stake(&s, true).unwrap();
    let ratios: Vec<_> = out.raw.assignments.iter().map(|a| (a.who, a.distribution.clone())).collect();
    assert_eq!(ratios, vec![(acc(10), vec![(acc(1), u16::MAX)]), (acc(11), vec![(acc(1), u16::MAX)])]);
}

#[test]
fn split_ratios_scale_back_to_stake() {
    let s = snapshot(&[1, 2], 2, vec![vec![voter(10, 100, &[1, 2]), voter(11, 30, &[2])]]);
    let out = run_offline_election_with_stake(&s, false).unwrap();
    assert_eq!(out.raw.winners.len(), 2);
    let ten = out.raw.assignments.iter().find(|a| a.who == acc(10)).unwrap();
    let sum: u32 = ten.distribution.iter().map(|(_, p)| *p as u32).sum();
    assert_eq!(sum, u16::MAX as u32);
    let staked_ten = out.staked_assignments.iter().find(|a| a.who == acc(10)).unwrap();
    let total: u128 = staked_ten.distribution.iter().map(|(_, x)| *x).sum();
    assert_eq!(total, 100);
    assert_eq!(staked_ten.distribution.len(), 2);
}

#[test]
fn empty_snapshot_elects_nobody() {
    let s = snapshot(&[], 3, vec![]);
    let out = run_offline_election_with_stake(&s, true).unwrap();
    assert!(out.raw.winners.is_empty());
    assert!(out.staked_assignments.is_empty());
    assert!(staked_assignments_to_offline_winners(&out).is_empty());
}

#[test]
fn unbacked_candidates_still_fill_the_seats() {
    let s = snapshot(&[1, 2, 3], 2, vec![vec![], vec![]]);
    let out = run_offline_election_with_stake(&s, false).unwrap();
    assert_eq!(out.raw.winners.len(), 2);
    let winners = staked_assignments_to_offline_winners(&out);
    assert!(winners.iter().all(|w| w.support == 0 && w.backers.is_empty()));
}

#[test]
fn desired_zero_elects_nobody() {
    let s = snapshot(&[1, 2], 0, vec![vec![voter(10, 100, &[1])]]);
    let out = run_offline_election_with_stake(&s, false).unwrap();
    assert!(out.raw.winners.is_empty());
}

#[test]
fn reduction_refuses_a_repeated_voter() {
    let s = snapshot(&[1, 2], 2, vec![vec![voter(10, 100, &[1, 2])], vec![voter(10, 40, &[2])]]);
    assert_eq!(run_offline_election_with_stake(&s, true).err(), Some(ElectionError::DuplicateVoter));
    let out = run_offline_election_with_stake(&s, false).unwrap();
    assert_eq!(out.raw.winners.len(), 2);

    let mut staked = vec![
        StakedAssignment { who: acc(10), distribution: vec![(acc(1), 5)] },
        StakedAssignment { who: acc(10), distribution: vec![(acc(2), 5)] },
    ];
    assert!(!distinct_voter_list(&staked));
    assert_eq!(reduce_assignments(&mut staked), Err(ElectionError::DuplicateVoter));
    assert_eq!(staked.len(), 2);
    assert_eq!(staked[1].distribution, vec![(acc(2), 5)]);
}

#[test]
fn repeated_winner_is_backed_once() {
    let out = ElectionOutputs {
        raw: RawElectionResult { winners: vec![(acc(1), 0), (acc(1), 0)], assignments: vec![] },
        staked_assignments: vec![StakedAssignment { who: acc(10), distribution: vec![(acc(1), 9)] }],
    };
    let w = staked_assignments_to_offline_winners(&out);
    assert_eq!((w[0].support, w[0].backers.len()), (9, 1));
    assert_eq!((w[1].validator, w[1].support, w[1].backers.len()), (acc(1), 0, 0));
}

#[test]
fn reduction_refuses_repeated_targets_and_overflow() {
    let mut staked = vec![
        StakedAssignment { who: acc(10), distribution: vec![(acc(1), 10), (acc(1), 1)] },
        StakedAssignment { who: acc(11), distribution: vec![(acc(1), 10), (acc(1), 10)] },
    ];
    assert_eq!(reduce_assignments(&mut staked), Err(ElectionError::RepeatedTarget));
    assert_eq!(staked[0].distribution, vec![(acc(1), 10), (acc(1), 1)]);
    let mut staked = vec![
        StakedAssignment { who: acc(10), distribution: vec![(acc(1), 10), (acc(2), u128::MAX)] },
        StakedAssignment { who: acc(11), distribution: vec![(acc(1), 5), (acc(2), 5)] },
    ];
    assert_eq!(reduce_assignments(&mut staked), Err(ElectionError::OverflowingStake));
    assert_eq!(staked[0].distribution, vec![(acc(1), 10), (acc(2), u128::MAX)]);
}

#[test]
fn assignments_name_only_nominated_winners() {
    let pages = vec![vec![
        voter(10, 100, &[1, 2]),
        voter(11, 100, &[1, 2, 3]),
        voter(12, 50, &[3, 4]),
        voter(13, 70, &[4]),
    ]];
    let s = snapshot(&[1, 2, 3, 4], 2, pages);
    for do_reduce in [false, true] {
        let out = run_offline_election_with_stake(&s, do_reduce).unwrap();
        let winners: Vec<AccountId> = out.raw.winners.iter().map(|w| w.0).collect();
        let voters = flatten_voters(&s);
        for a in &out.staked_assignments {
            let v = voters.iter().find(|v| v.who == a.who).unwrap();
            for (t, _) in &a.distribution {
                assert!(winners.contains(t) && v.targets.contains(t));
            }
        }
        for a in &out.raw.assignments {
            let sum: u32 = a.distribution.iter().map(|(_, p)| *p as u32).sum();
            assert!(sum <= u16::MAX as u32);
        }
    }
}
