use offline_election::assignments::StakedAssignment;
use offline_election::compare::{
    compare_exposures, ExposureOverview, compare_nominator_sets, compare_winners_with_chain, compare_with_relay, debug_boundary_ranks,
    diff_accounts,
};
use offline_election::codec::{session_validators_from_storage, ValidatorSetError};
use offline_election::conservation::{verify_staked_assignments_internal, StakeCheckError};
use offline_election::election::{run_offline_election_with_stake, ElectionOutputs};
use offline_election::exposures::{build_runtime_exposures_from_staked, RuntimeBacker, RuntimeExposure};
use offline_election::nominators::{build_offline_nom_view, build_onchain_nom_view, debug_nominator};
use offline_election::npos::RawElectionResult;
use offline_election::snapshot::{
    assemble_snapshot, ensure_phase_allows_snapshot, is_snapshot_stable, Phase, SnapshotError,
};
use offline_election::types::{AccountId, ElectionSnapshot, OfflineWinner, VoterSnapshot};

fn acc(b: u8) -> AccountId {
    [b; 32]
}

fn accs(v: &[u8]) -> Vec<AccountId> {
    v.iter().map(|b| acc(*b)).collect()
}

fn sorted(mut v: Vec<AccountId>) -> Vec<AccountId> {
    v.sort();
    v
}

fn outputs(winners: &[u8], staked: Vec<StakedAssignment>) -> ElectionOutputs {
    ElectionOutputs {
        raw: RawElectionResult { winners: winners.iter().map(|w| (acc(*w), 0)).collect(), assignments: vec![] },
        staked_assignments: staked,
    }
}

fn staked(who: u8, dist: &[(u8, u128)]) -> StakedAssignment {
    StakedAssignment { who: acc(who), distribution: dist.iter().map(|(v, s)| (acc(*v), *s)).collect() }
}

fn snapshot_with(voters: Vec<VoterSnapshot>) -> ElectionSnapshot {
    ElectionSnapshot {
        at: [0u8; 32],
        round: 1,
        total_issuance: 0,
        desired_targets: 2,
        all_targets: accs(&[1, 2, 3]),
        voter_pages: vec![voters],
    }
}

fn voter(who: u8, weight: u64) -> VoterSnapshot {
    VoterSnapshot { who: acc(who), weight, targets: vec![] }
}

#[test]
fn comparator_reports_set_differences() {
    let offline = accs(&[1, 2, 3]);
    let onchain = accs(&[1, 2, 4]);
    assert_eq!(compare_winners_with_chain(&offline, &onchain), (2, 1, 1));
    let d = diff_accounts(&offline, &onchain);
    assert_eq!(sorted(d.both), accs(&[1, 2]));
    assert_eq!(d.only_left, accs(&[3]));
    assert_eq!(d.only_right, accs(&[4]));
}

#[test]
fn comparator_counts_distinct_accounts() {
    assert_eq!(compare_winners_with_chain(&accs(&[1, 1, 2]), &accs(&[2, 2])), (1, 1, 0));
    assert_eq!(compare_winners_with_chain(&vec![], &vec![]), (0, 0, 0));
}

#[test]
fn relay_comparison_ranks_and_flags() {
    let s = snapshot_with(vec![]);
    let res = RawElectionResult { winners: vec![(acc(1), 10), (acc(3), 7), (acc(2), 5)], assignments: vec![] };
    let r = compare_with_relay(&s, &res, &accs(&[1, 4, 2]));
    assert_eq!(r.matched, 2);
    assert_eq!(r.only_offline.len(), 1);
    assert_eq!(r.only_offline[0].who, acc(3));
    assert_eq!(r.only_offline[0].rank, 1);
    assert_eq!(r.only_offline[0].support, 7);
    assert_eq!(r.only_onchain.len(), 1);
    assert_eq!(r.only_onchain[0].who, acc(4));
    assert!(!r.only_onchain[0].in_snapshot);
}

#[test]
fn boundary_report_gives_neighbourhood() {
    let winners: Vec<OfflineWinner> = (1..=8u8)
        .map(|i| OfflineWinner { validator: acc(i), support: 100 - i as u64, backers: vec![] })
        .collect();
    let r = debug_boundary_ranks(&winners, &accs(&[1, 2, 3, 4, 5, 6, 8, 9]));
    assert_eq!(r.only_offline.len(), 1);
    let e = r.only_offline[0];
    assert_eq!((e.who, e.rank, e.support, e.first, e.last), (acc(7), 6, 93, 3, 7));
    assert_eq!(r.only_onchain, accs(&[9]));
    let r = debug_boundary_ranks(&winners, &accs(&[2, 3, 4, 5, 6, 7, 8]));
    let e = r.only_offline[0];
    assert_eq!((e.rank, e.first, e.last), (0, 0, 3));
}

#[test]
fn exposures_split_own_and_others() {
    let out = outputs(&[1, 2], vec![
        staked(1, &[(1, 40)]),
        staked(10, &[(1, 30), (2, 0), (2, 20)]),
        staked(11, &[(1, 5)]),
        staked(10, &[(1, 7)]),
    ]);
    let s = snapshot_with(vec![]);
    let exp = build_runtime_exposures_from_staked(&s, &out);
    assert_eq!(exp.len(), 2);
    let a = &exp[0];
    assert_eq!(a.validator, acc(1));
    assert_eq!(a.total, 82);
    assert_eq!(a.own, 40);
    assert_eq!(a.others, vec![RuntimeBacker { who: acc(10), stake: 37 }, RuntimeBacker { who: acc(11), stake: 5 }]);
    let b = &exp[1];
    assert_eq!(b.validator, acc(2));
    assert_eq!((b.total, b.own), (20, 0));
    assert_eq!(b.others, vec![RuntimeBacker { who: acc(10), stake: 20 }]);
    for e in &exp {
        let others: u128 = e.others.iter().map(|b| b.stake).sum();
        assert_eq!(e.total, e.own + others);
    }
}

#[test]
fn exposures_skip_zero_shares_and_saturate() {
    let out = outputs(&[1], vec![staked(10, &[(1, u128::MAX)]), staked(11, &[(1, 3), (2, 0)])]);
    let exp = build_runtime_exposures_from_staked(&snapshot_with(vec![]), &out);
    assert_eq!(exp.len(), 1);
    assert_eq!(exp[0].total, u128::MAX);
    assert_eq!(exp[0].others.len(), 2);
}

#[test]
fn stake_check_passes_on_conserved_assignments() {
    let s = snapshot_with(vec![voter(10, 100), voter(11, 50)]);
    let out = outputs(&[1], vec![staked(10, &[(1, 100)]), staked(11, &[(1, 50)])]);
    assert_eq!(verify_staked_assignments_internal(&s, &out), Ok(()));
}

#[test]
fn stake_check_names_over_committed_voter() {
    let s = snapshot_with(vec![voter(10, 100), voter(11, 50)]);
    let out = outputs(&[1, 2], vec![staked(10, &[(1, 60), (2, 30)]), staked(11, &[(1, 40), (2, 11)])]);
    assert_eq!(
        verify_staked_assignments_internal(&s, &out),
        Err(StakeCheckError::NominatorOverCommitted { who: acc(11), assigned: 51, available: 50 })
    );
}

#[test]
fn stake_check_reports_global_excess() {
    let s = snapshot_with(vec![voter(10, 100)]);
    let out = outputs(&[1, 2], vec![staked(10, &[(1, 100)]), staked(10, &[(2, 100)])]);
    assert_eq!(
        verify_staked_assignments_internal(&s, &out),
        Err(StakeCheckError::GlobalSupportExceeded { support: 200, stake: 100 })
    );
}

#[test]
fn nominator_views_transpose_exposures() {
    let off = vec![
        RuntimeExposure { validator: acc(1), total: 50, own: 20, others: vec![RuntimeBacker { who: acc(10), stake: 30 }] },
        RuntimeExposure { validator: acc(2), total: 5, own: 0, others: vec![RuntimeBacker { who: acc(10), stake: 5 }] },
    ];
    let view = build_offline_nom_view(&off);
    assert_eq!(view.len(), 2);
    assert_eq!(view[0].nominator, acc(10));
    assert_eq!(view[0].stakes, vec![(acc(1), 30), (acc(2), 5)]);
    assert_eq!(view[1].nominator, acc(1));
    assert_eq!(view[1].stakes, vec![(acc(1), 20)]);

    let on = vec![(acc(1), vec![(acc(10), 25), (acc(11), 4)]), (acc(2), vec![(acc(10), 5), (acc(10), 1)])];
    let onview = build_onchain_nom_view(&on);
    assert_eq!(onview[0].nominator, acc(10));
    assert_eq!(onview[0].stakes, vec![(acc(1), 25), (acc(2), 6)]);
    assert_eq!(onview[1].stakes, vec![(acc(1), 4)]);

    let report = debug_nominator(&acc(10), &view, &onview);
    assert_eq!(report.total_offline, 35);
    assert_eq!(report.total_onchain, 31);
    let report = debug_nominator(&acc(99), &view, &onview);
    assert!(report.offline.is_none() && report.onchain.is_none());
    assert_eq!((report.total_offline, report.total_onchain), (0, 0));
}

#[test]
fn nominator_sets_compare_with_stake_deltas() {
    let off = RuntimeExposure {
        validator: acc(1),
        total: 60,
        own: 0,
        others: vec![
            RuntimeBacker { who: acc(10), stake: 30 },
            RuntimeBacker { who: acc(11), stake: 20 },
            RuntimeBacker { who: acc(12), stake: 10 },
        ],
    };
    let on = vec![(acc(10), 30), (acc(11), 21), (acc(13), 9)];
    let c = compare_nominator_sets(&off, &on);
    assert_eq!(c.diff.both, accs(&[10, 11]));
    assert_eq!(c.diff.only_left, accs(&[12]));
    assert_eq!(c.diff.only_right, accs(&[13]));
    assert_eq!((c.offline_count, c.onchain_count), (3, 3));
    assert_eq!(c.stake_mismatches.len(), 1);
    assert_eq!((c.stake_mismatches[0].who, c.stake_mismatches[0].offline, c.stake_mismatches[0].onchain), (acc(11), 20, 21));
}

#[test]
fn phase_gate_accepts_only_stable_phases() {
    for p in [Phase::Emergency, Phase::Signed(3), Phase::SignedValidation(1), Phase::Unsigned(9), Phase::Export(0), Phase::Done] {
        assert!(is_snapshot_stable(p));
        assert_eq!(ensure_phase_allows_snapshot(p), Ok(()));
    }
    for p in [Phase::Off, Phase::Snapshot(2)] {
        assert!(!is_snapshot_stable(p));
        assert_eq!(ensure_phase_allows_snapshot(p), Err(SnapshotError::UnstablePhase(p)));
    }
}

#[test]
fn assembly_dedups_targets_and_fills_gaps() {
    let targets = vec![Some(accs(&[1, 2])), None, Some(accs(&[2, 3, 1, 4]))];
    let voters = vec![
        Some(vec![VoterSnapshot { who: acc(10), weight: 5, targets: accs(&[1]) }]),
        None,
        Some(vec![]),
    ];
    let s = assemble_snapshot([9u8; 32], 4, &targets, &voters, None, None);
    assert_eq!(s.at, [9u8; 32]);
    assert_eq!(s.round, 4);
    assert_eq!(s.total_issuance, 0);
    assert_eq!(s.all_targets, accs(&[1, 2, 3, 4]));
    assert_eq!(s.desired_targets, 4);
    assert_eq!(s.voter_pages.len(), 3);
    assert_eq!(s.voter_pages[0].len(), 1);
    assert_eq!(s.voter_pages[0][0].who, acc(10));
    assert!(s.voter_pages[1].is_empty() && s.voter_pages[2].is_empty());
    let s = assemble_snapshot([9u8; 32], 4, &targets, &voters, Some(77), Some(2));
    assert_eq!((s.total_issuance, s.desired_targets), (77, 2));
}

#[test]
fn stored_validator_set_decodes() {
    assert_eq!(session_validators_from_storage(&None), Ok(vec![]));
    let mut bytes = vec![8u8];
    bytes.extend_from_slice(&acc(1));
    bytes.extend_from_slice(&acc(2));
    assert_eq!(session_validators_from_storage(&Some(bytes)), Ok(accs(&[1, 2])));
    assert_eq!(session_validators_from_storage(&Some(vec![8u8, 1, 2])), Err(ValidatorSetError::Undecodable));
}

#[test]
fn nominator_counts_ignore_repeats() {
    let off = RuntimeExposure { validator: acc(1), total: 0, own: 0, others: vec![] };
    let on = vec![(acc(10), 1), (acc(10), 2), (acc(11), 3)];
    let c = compare_nominator_sets(&off, &on);
    assert_eq!((c.offline_count, c.onchain_count), (0, 2));
    assert!(c.stake_mismatches.is_empty());
    assert_eq!(c.diff.only_right, accs(&[10, 11]));
}

#[test]
fn stored_validator_set_length_forms() {
    let mut wide = vec![0x01u8, 0x01];
    for i in 0..64u8 {
        wide.extend_from_slice(&acc(i));
    }
    let v = session_validators_from_storage(&Some(wide)).unwrap();
    assert_eq!(v.len(), 64);
    assert_eq!(v[63], acc(63));
    let mut narrow_in_wide = vec![0x05u8, 0x00];
    narrow_in_wide.extend_from_slice(&acc(1));
    assert_eq!(session_validators_from_storage(&Some(narrow_in_wide)), Err(ValidatorSetError::Undecodable));
    let mut trailing = vec![4u8];
    trailing.extend_from_slice(&acc(5));
    trailing.extend_from_slice(&[9, 9, 9]);
    assert_eq!(session_validators_from_storage(&Some(trailing)), Ok(accs(&[5])));
    assert_eq!(session_validators_from_storage(&Some(vec![])), Err(ValidatorSetError::Undecodable));
}

#[test]
fn stake_check_counts_a_repeated_voter_once() {
    let s = snapshot_with(vec![voter(10, 10), voter(10, 10)]);
    let out = outputs(&[1], vec![staked(10, &[(1, 10)]), staked(10, &[(1, 10)])]);
    assert_eq!(
        verify_staked_assignments_internal(&s, &out),
        Err(StakeCheckError::GlobalSupportExceeded { support: 20, stake: 10 })
    );
    let s = snapshot_with(vec![voter(10, 3), voter(11, 4), voter(10, 10)]);
    let out = outputs(&[1], vec![staked(10, &[(1, 10)]), staked(11, &[(1, 4)])]);
    assert_eq!(verify_staked_assignments_internal(&s, &out), Ok(()));
}

#[test]
fn nominator_views_of_nothing_are_empty() {
    assert!(build_offline_nom_view(&vec![]).is_empty());
    assert!(build_onchain_nom_view(&vec![]).is_empty());
    let on = vec![(acc(1), vec![])];
    assert!(build_onchain_nom_view(&on).is_empty());
}

#[test]
fn election_output_passes_the_stake_check() {
    let voters = vec![
        VoterSnapshot { who: acc(10), weight: 100, targets: accs(&[1, 2]) },
        VoterSnapshot { who: acc(11), weight: 60, targets: accs(&[2, 3]) },
        VoterSnapshot { who: acc(12), weight: 45, targets: accs(&[3, 1]) },
    ];
    let s = snapshot_with(voters);
    for do_reduce in [true, false] {
        let out = run_offline_election_with_stake(&s, do_reduce).unwrap();
        assert_eq!(verify_staked_assignments_internal(&s, &out), Ok(()));
    }
}

#[test]
fn exposure_comparison_tallies_validators() {
    let off = vec![
        RuntimeExposure { validator: acc(1), total: 30, own: 0, others: vec![RuntimeBacker { who: acc(10), stake: 30 }] },
        RuntimeExposure { validator: acc(2), total: 20, own: 0, others: vec![RuntimeBacker { who: acc(10), stake: 20 }] },
        RuntimeExposure { validator: acc(3), total: 5, own: 0, others: vec![RuntimeBacker { who: acc(11), stake: 5 }] },
    ];
    let on = vec![
        (acc(1), vec![(acc(10), 30)]),
        (acc(2), vec![(acc(10), 20), (acc(12), 1), (acc(13), 2)]),
    ];
    let ov = |count| ExposureOverview { total: 0, own: 0, nominator_count: count, page_count: 1 };
    let overviews = vec![(acc(1), ov(1)), (acc(2), ov(2))];
    let r = compare_exposures(&off, &on, &overviews, &accs(&[10, 12]));
    assert_eq!((r.matched, r.mismatched), (1, 2));
    assert!(r.validators[0].matched && r.validators[0].count_matches);
    let second = &r.validators[1];
    assert!(!second.matched && !second.count_matches);
    assert_eq!(second.only_onchain_in_snapshot, 1);
    assert_eq!(second.backers.as_ref().unwrap().diff.only_right, accs(&[12, 13]));
    assert!(r.validators[2].overview.is_none() && r.validators[2].backers.is_none());
}
