//! The election engine: sequential Phragmen over a flat snapshot, conversion to
//! staked assignments, optional reduction, and the per-winner view of the result.

use vstd::prelude::*;
use crate::assignments::{
    distinct_voters, edges_of, support_in, stake_in, staked_view, within_stake, Edge, StakedAssignment,
    StakedView, lemma_edges_next, lemma_edges_step,
};
use crate::npos::{
    distinct_accounts, ratio_to_staked_of, reduce_of, seq_phragmen_of, staked_to_ratio_of,
    RawElectionResult, RawView,
};
use crate::types::{
    flat_voters, vote_weight_of, voters_view, AccountId, ElectionSnapshot, OfflineBacker,
    OfflineWinner, VoteWeight, VoterSnapshot, VoterView,
};

verus! {

/// Why an election run produced no result.
#[derive(Clone, Copy, Debug, PartialEq, Eq)]
pub enum ElectionError {
    /// Sequential Phragmen could not normalise a voter's ratios.
    Phragmen,
    /// Scaling ratios to stake could not be normalised.
    RatioToStaked,
    /// Converting stake back to ratios could not be normalised.
    StakedToRatio,
    /// Reduction needs each voter once, and a voter is listed twice.
    DuplicateVoter,
    /// Reduction needs each voter to name a validator once, and one names it twice.
    RepeatedTarget,
    /// Reduction needs each voter's shares to add up within `u128`, and they do not.
    OverflowingStake,
}

/// Canonical election outputs: winners with the final ratio assignments, and the same
/// assignments in vote-weight units.
#[derive(Clone, Debug)]
pub struct ElectionOutputs {
    pub raw: RawElectionResult,
    pub staked_assignments: Vec<StakedAssignment>,
}

/// The stake lookup table of a voter list: each voter's identity and weight.
pub open spec fn stake_table(voters: Seq<VoterView>) -> Seq<(AccountId, VoteWeight)> {
    voters.map_values(|v: VoterView| (v.0, v.1))
}

/// The whole election pipeline on a flat input: the final raw result and the staked
/// assignments, or nothing where one of its steps fails or where reduction is given
/// assignments it cannot take.
pub open spec fn offline_election_of(
    to_elect: nat,
    targets: Seq<AccountId>,
    voters: Seq<VoterView>,
    do_reduce: bool,
) -> Option<(RawView, Seq<StakedView>)> {
    match seq_phragmen_of(to_elect, targets, voters) {
        None => None,
        Some(raw) => match ratio_to_staked_of(raw.1, stake_table(voters)) {
            None => None,
            Some(staked) => if do_reduce && !reducible(staked) {
                None
            } else {
                let kept = if do_reduce {
                    reduce_of(staked)
                } else {
                    staked
                };
                match staked_to_ratio_of(kept) {
                    None => None,
                    Some(ratios) => Some(((raw.0, ratios), kept)),
                }
            },
        },
    }
}

/// The election pipeline applied to a snapshot.
pub open spec fn snapshot_election_of(s: ElectionSnapshot, do_reduce: bool) -> Option<
    (RawView, Seq<StakedView>),
> {
    offline_election_of(
        s.desired_targets as nat,
        s.all_targets@,
        flat_voters(s.voter_pages@),
        do_reduce,
    )
}

/// The staked assignments of a snapshot before any reduction, where the steps up to
/// there succeed.
pub open spec fn pre_reduction_of(s: ElectionSnapshot) -> Option<Seq<StakedView>> {
    let voters = flat_voters(s.voter_pages@);
    match seq_phragmen_of(s.desired_targets as nat, s.all_targets@, voters) {
        None => None,
        Some(raw) => ratio_to_staked_of(raw.1, stake_table(voters)),
    }
}

/// Each voter commits at most `u128::MAX` in all.
pub open spec fn totals_fit(p: Seq<StakedView>) -> bool {
    forall|i: int| 0 <= i < p.len() ==> crate::assignments::share_total(#[trigger] p[i].1) <= u128::MAX
}

/// Assignments that reduction takes: distinct voters, each naming a validator once and
/// committing at most `u128::MAX` in all.
pub open spec fn reducible(p: Seq<StakedView>) -> bool {
    distinct_voters(p) && crate::npos::distinct_targets(p) && totals_fit(p)
}

/// Every validator in `targets` is a winner that voter `who` nominated in one of its
/// records.
pub open spec fn names_backed_winners(
    who: AccountId,
    targets: Seq<AccountId>,
    winners: Seq<(AccountId, u128)>,
    voters: Seq<VoterView>,
) -> bool {
    forall|i: int|
        0 <= i < targets.len() ==> crate::npos::winner_ids_of(winners).contains(#[trigger] targets[i])
            && exists|j: int| 0 <= j < voters.len() && voters[j].0 == who && voters[j].2.contains(targets[i])
}

/// No two records belong to the same voter.
pub open spec fn distinct_voter_records(voters: Seq<VoterView>) -> bool {
    forall|i: int, j: int| 0 <= i < j < voters.len() ==> voters[i].0 != voters[j].0
}

proof fn lemma_names_subset(
    who: AccountId,
    a: Seq<AccountId>,
    b: Seq<AccountId>,
    winners: Seq<(AccountId, u128)>,
    voters: Seq<VoterView>,
)
    requires
        names_backed_winners(who, a, winners, voters),
        forall|i: int| 0 <= i < b.len() ==> a.contains(#[trigger] b[i]),
    ensures
        names_backed_winners(who, b, winners, voters),
{
    assert forall|i: int| 0 <= i < b.len() implies crate::npos::winner_ids_of(winners).contains(
        #[trigger] b[i],
    ) && exists|j: int| 0 <= j < voters.len() && voters[j].0 == who && voters[j].2.contains(b[i]) by {
        assert(a.contains(b[i]));
        let x = choose|x: int| 0 <= x < a.len() && a[x] == b[i];
        assert(names_backed_winners(who, a, winners, voters));
        assert(a[x] == b[i]);
    }
}

/// The expected number of winners: the desired count, bounded by the candidates.
pub open spec fn expected_winner_count(s: ElectionSnapshot) -> int {
    if (s.desired_targets as int) < s.all_targets@.len() {
        s.desired_targets as int
    } else {
        s.all_targets@.len() as int
    }
}

/// The backers of validator `v` among the edges, in edge order, each share capped at
/// the largest vote weight.
pub open spec fn backers_in(es: Seq<Edge>, v: AccountId) -> Seq<OfflineBacker>
    decreases es.len(),
{
    if es.len() == 0 {
        seq![]
    } else if es.last().1 == v {
        backers_in(es.drop_last(), v).push(
            OfflineBacker { who: es.last().0, weight: vote_weight_of(es.last().2 as int) },
        )
    } else {
        backers_in(es.drop_last(), v)
    }
}

/// Sum of the capped shares that the edges direct at `v`.
pub open spec fn capped_support_in(es: Seq<Edge>, v: AccountId) -> int
    decreases es.len(),
{
    if es.len() == 0 {
        0
    } else {
        capped_support_in(es.drop_last(), v) + if es.last().1 == v {
            vote_weight_of(es.last().2 as int) as int
        } else {
            0
        }
    }
}

pub(crate) proof fn lemma_capped_support_nonneg(es: Seq<Edge>, v: AccountId)
    ensures
        capped_support_in(es, v) >= 0,
    decreases es.len(),
{
    if es.len() > 0 {
        lemma_capped_support_nonneg(es.drop_last(), v);
    }
}

/// The stake lookup table of a voter list.
pub(crate) fn build_stake_table(voters: &Vec<VoterSnapshot>) -> (r: Vec<(AccountId, VoteWeight)>)
    ensures
        r@ == stake_table(voters_view(voters@)),
{
    let mut r: Vec<(AccountId, VoteWeight)> = Vec::new();
    let mut i: usize = 0;
    while i < voters.len()
        invariant
            i <= voters.len(),
            r@ == stake_table(voters_view(voters@.take(i as int))),
        decreases voters.len() - i,
    {
        r.push((voters[i].who, voters[i].weight));
        i = i + 1;
        assert(r@ =~= stake_table(voters_view(voters@.take(i as int))));
    }
    assert(voters@.take(i as int) =~= voters@);
    r
}

/// Runs sequential Phragmen on the snapshot, converts the ratio assignments to stake,
/// optionally reduces redundant edges, and converts the stake back to ratios. Reduction
/// needs each voter listed once; a repeated voter makes it fail with `DuplicateVoter`.
pub fn run_offline_election_with_stake(snapshot: &ElectionSnapshot, do_reduce: bool) -> (r: Result<
    ElectionOutputs,
    ElectionError,
>)
    ensures
        r is Ok <==> snapshot_election_of(*snapshot, do_reduce) is Some,
        r matches Ok(o) ==> snapshot_election_of(*snapshot, do_reduce) == Some(
            (o.raw@, staked_view(o.staked_assignments@)),
        ),
        r matches Ok(o) ==> o.raw.winners@.len() == expected_winner_count(*snapshot),
        r matches Ok(o) ==> forall|i: int|
            0 <= i < o.raw.winners@.len() ==> snapshot.all_targets@.contains(
                #[trigger] o.raw.winners@[i].0,
            ),
        r matches Ok(o) ==> distinct_accounts(snapshot.all_targets@) ==> forall|i: int, j: int|
            0 <= i < j < o.raw.winners@.len() ==> o.raw.winners@[i].0 != o.raw.winners@[j].0,
        r matches Ok(o) ==> within_stake(
            staked_view(o.staked_assignments@),
            stake_table(flat_voters(snapshot.voter_pages@)),
        ),
        r matches Ok(o) ==> !do_reduce ==> pre_reduction_of(*snapshot) == Some(
            staked_view(o.staked_assignments@),
        ),
        r matches Ok(o) ==> do_reduce ==> (pre_reduction_of(*snapshot) matches Some(p) && {
            let kept = staked_view(o.staked_assignments@);
            &&& reducible(p)
            &&& kept.len() == p.len()
            &&& edge_count(kept) <= edge_count(p)
            &&& forall|v: AccountId| support_in(edges_of(kept), v) == support_in(edges_of(p), v)
            &&& forall|i: int|
                0 <= i < kept.len() ==> (#[trigger] kept[i]).0 == p[i].0
                    && crate::assignments::share_total(kept[i].1) == crate::assignments::share_total(p[i].1)
        }),
        r == Err::<ElectionOutputs, ElectionError>(ElectionError::DuplicateVoter) ==> do_reduce,
        r matches Ok(o) ==> forall|k: int|
            0 <= k < o.staked_assignments@.len() ==> names_backed_winners(
                (#[trigger] o.staked_assignments@[k]).who,
                crate::npos::staked_targets(o.staked_assignments@[k].distribution@),
                o.raw.winners@,
                flat_voters(snapshot.voter_pages@),
            ),
        r matches Ok(o) ==> forall|k: int|
            0 <= k < o.raw.assignments@.len() ==> names_backed_winners(
                (#[trigger] o.raw.assignments@[k]).who,
                crate::npos::ratio_targets(o.raw.assignments@[k].distribution@),
                o.raw.winners@,
                flat_voters(snapshot.voter_pages@),
            ) && crate::npos::ratio_total(o.raw.assignments@[k].distribution@) <= u16::MAX as int,
        r matches Ok(o) ==> distinct_voter_records(flat_voters(snapshot.voter_pages@))
            ==> distinct_voters(staked_view(o.staked_assignments@)),
{
    let all_targets = crate::types::copy_accounts(&snapshot.all_targets);
    let all_voters = crate::types::flatten_voters(snapshot);
    let ghost fv = flat_voters(snapshot.voter_pages@);
    let ghost vexec = all_voters@;
    let table = build_stake_table(&all_voters);
    let to_elect = snapshot.desired_targets as usize;
    let raw = match crate::npos::seq_phragmen(to_elect, all_targets, all_voters) {
        Ok(raw) => raw,
        Err(_) => {
            return Err(ElectionError::Phragmen);
        },
    };
    let RawElectionResult { winners, assignments } = raw;
    let ghost rexec = assignments@;
    proof {
        assert(voters_view(vexec) == fv);
        assert forall|k: int| 0 <= k < rexec.len() implies names_backed_winners(
            (#[trigger] rexec[k]).who,
            crate::npos::ratio_targets(rexec[k].distribution@),
            winners@,
            fv,
        ) by {
            let t = crate::npos::ratio_targets(rexec[k].distribution@);
            assert forall|i: int| 0 <= i < t.len() implies crate::npos::winner_ids_of(winners@).contains(
                #[trigger] t[i],
            ) && exists|j: int| 0 <= j < fv.len() && fv[j].0 == rexec[k].who && fv[j].2.contains(t[i]) by {
                assert(t[i] == rexec[k].distribution@[i].0);
                let j = choose|j: int|
                    0 <= j < vexec.len() && vexec[j].who == rexec[k].who && vexec[j].targets@.contains(
                        rexec[k].distribution@[i].0,
                    );
                assert(fv[j] == vexec[j]@);
            }
        }
        if distinct_voter_records(fv) {
            assert forall|i: int, j: int| 0 <= i < j < vexec.len() implies vexec[i].who != vexec[j].who by {
                assert(fv[i] == vexec[i]@);
                assert(fv[j] == vexec[j]@);
            }
        }
    }
    let mut staked = match crate::npos::ratio_to_staked(assignments, &table) {
        Ok(staked) => staked,
        Err(_) => {
            return Err(ElectionError::RatioToStaked);
        },
    };
    proof {
        assert forall|i: int| 0 <= i < staked_view(staked@).len() implies crate::assignments::share_total(
            #[trigger] staked_view(staked@)[i].1,
        ) <= stake_in(table@, staked_view(staked@)[i].0) as int by {
            crate::assignments::lemma_share_total_empty(staked@[i].distribution@);
        }
        assert forall|k: int| 0 <= k < staked@.len() implies names_backed_winners(
            (#[trigger] staked@[k]).who,
            crate::npos::staked_targets(staked@[k].distribution@),
            winners@,
            fv,
        ) by {
            let b = crate::npos::staked_targets(staked@[k].distribution@);
            let a = crate::npos::ratio_targets(rexec[k].distribution@);
            assert(names_backed_winners(rexec[k].who, a, winners@, fv));
            assert forall|i: int| 0 <= i < b.len() implies a.contains(#[trigger] b[i]) by {
                assert(b[i] == staked@[k].distribution@[i].0);
            }
            lemma_names_subset(staked@[k].who, a, b, winners@, fv);
        }
        if distinct_voter_records(fv) {
            assert forall|i: int, j: int| 0 <= i < j < staked_view(staked@).len() implies staked_view(
                staked@,
            )[i].0 != staked_view(staked@)[j].0 by {
                assert(staked@[i].who == rexec[i].who);
                assert(staked@[j].who == rexec[j].who);
            }
        }
    }
    let ghost pre = staked_view(staked@);
    let ghost pre_exec = staked@;
    if do_reduce {
        match reduce_assignments(&mut staked) {
            Ok(_) => {},
            Err(e) => {
                return Err(e);
            },
        }
        proof {
            let kept = staked_view(staked@);
            assert forall|i: int| 0 <= i < kept.len() implies (#[trigger] kept[i]).0 == pre[i].0
                && crate::assignments::share_total(kept[i].1) == crate::assignments::share_total(
                pre[i].1,
            ) by {
                assert(kept[i].1 == staked@[i].distribution@);
            }
            assert forall|k: int| 0 <= k < staked@.len() implies names_backed_winners(
                (#[trigger] staked@[k]).who,
                crate::npos::staked_targets(staked@[k].distribution@),
                winners@,
                fv,
            ) by {
                let b = crate::npos::staked_targets(staked@[k].distribution@);
                let a = crate::npos::staked_targets(pre_exec[k].distribution@);
                assert(names_backed_winners(pre_exec[k].who, a, winners@, fv));
                assert forall|i: int| 0 <= i < b.len() implies a.contains(#[trigger] b[i]) by {
                    assert(b[i] == staked@[k].distribution@[i].0);
                }
                lemma_names_subset(staked@[k].who, a, b, winners@, fv);
            }
            if distinct_voter_records(fv) {
                assert forall|i: int, j: int| 0 <= i < j < kept.len() implies kept[i].0 != kept[j].0 by {
                    assert(kept[i].0 == pre[i].0);
                    assert(kept[j].0 == pre[j].0);
                }
            }
        }
    }
    let final_ratios = match crate::npos::staked_to_ratio(&staked) {
        Ok(v) => v,
        Err(_) => {
            return Err(ElectionError::StakedToRatio);
        },
    };
    proof {
        assert forall|k: int| 0 <= k < final_ratios@.len() implies names_backed_winners(
            (#[trigger] final_ratios@[k]).who,
            crate::npos::ratio_targets(final_ratios@[k].distribution@),
            winners@,
            fv,
        ) && crate::npos::ratio_total(final_ratios@[k].distribution@) <= u16::MAX as int by {
            let b = crate::npos::ratio_targets(final_ratios@[k].distribution@);
            let a = crate::npos::staked_targets(staked@[k].distribution@);
            assert(names_backed_winners(staked@[k].who, a, winners@, fv));
            assert forall|i: int| 0 <= i < b.len() implies a.contains(#[trigger] b[i]) by {
                assert(b[i] == final_ratios@[k].distribution@[i].0);
            }
            lemma_names_subset(final_ratios@[k].who, a, b, winners@, fv);
            if final_ratios@[k].distribution@.len() == 0 {
                assert(crate::npos::ratio_total(final_ratios@[k].distribution@) == 0);
            }
        }
    }
    Ok(ElectionOutputs {
        raw: RawElectionResult { winners, assignments: final_ratios },
        staked_assignments: staked,
    })
}

/// Builds one record of validator `v` from all edges of the staked assignments.
fn winner_from_edges(staked: &Vec<StakedAssignment>, v: &AccountId) -> (r: OfflineWinner)
    ensures
        r.validator == *v,
        r.support == vote_weight_of(capped_support_in(edges_of(staked_view(staked@)), *v)),
        r.backers@ == backers_in(edges_of(staked_view(staked@)), *v),
{
    let ghost s = staked_view(staked@);
    let mut support: VoteWeight = 0;
    let mut backers: Vec<OfflineBacker> = Vec::new();
    let mut i: usize = 0;
    while i < staked.len()
        invariant
            i <= staked.len(),
            s == staked_view(staked@),
            support == vote_weight_of(capped_support_in(edges_of(s.take(i as int)), *v)),
            backers@ == backers_in(edges_of(s.take(i as int)), *v),
        decreases staked.len() - i,
    {
        let a = &staked[i];
        let mut j: usize = 0;
        proof {
            lemma_edges_next(s, i as int);
        }
        while j < a.distribution.len()
            invariant
                i < staked.len(),
                a == staked@[i as int],
                j <= a.distribution.len(),
                s == staked_view(staked@),
                support == vote_weight_of(
                    capped_support_in(
                        edges_of(s.take(i as int)) + crate::assignments::dist_edges(
                            s[i as int].0,
                            s[i as int].1.take(j as int),
                        ),
                        *v,
                    ),
                ),
                backers@ == backers_in(
                    edges_of(s.take(i as int)) + crate::assignments::dist_edges(
                        s[i as int].0,
                        s[i as int].1.take(j as int),
                    ),
                    *v,
                ),
            decreases a.distribution.len() - j,
        {
            proof {
                lemma_edges_step(s, i as int, j as int);
            }
            let ghost pre = edges_of(s.take(i as int)) + crate::assignments::dist_edges(
                s[i as int].0,
                s[i as int].1.take(j as int),
            );
            let (target, share) = a.distribution[j];
            let ghost e: Edge = (a.who, target, share);
            proof {
                assert(pre.push(e).drop_last() =~= pre);
                lemma_capped_support_nonneg(pre, *v);
            }
            if crate::types::same_account(&target, v) {
                let w = crate::types::balance_to_vote_weight(share);
                support = support.saturating_add(w);
                backers.push(OfflineBacker { who: a.who, weight: w });
            }
            j = j + 1;
        }
        proof {
            lemma_edges_next(s, i as int);
        }
        i = i + 1;
    }
    assert(s.take(i as int) =~= s);
    OfflineWinner { validator: *v, support, backers }
}

/// The winner at rank `i` already occurred at an earlier rank.
pub open spec fn repeated_winner(w: Seq<(AccountId, u128)>, i: int) -> bool {
    exists|k: int| 0 <= k < i && w[k].0 == w[i].0
}

/// The record of the winner at rank `i`: its support and backers gathered from the
/// edges, or nothing at all where the same validator already has a record.
pub open spec fn winner_record_ok(r: OfflineWinner, w: Seq<(AccountId, u128)>, es: Seq<Edge>, i: int) -> bool {
    &&& r.validator == w[i].0
    &&& if repeated_winner(w, i) {
        r.support == 0 && r.backers@.len() == 0
    } else {
        r.support == vote_weight_of(capped_support_in(es, w[i].0)) && r.backers@ == backers_in(
            es,
            w[i].0,
        )
    }
}

fn seen_before(w: &Vec<(AccountId, u128)>, i: usize) -> (r: bool)
    requires
        i < w.len(),
    ensures
        r == repeated_winner(w@, i as int),
{
    let mut k: usize = 0;
    while k < i
        invariant
            k <= i < w.len(),
            forall|x: int| 0 <= x < k ==> w@[x].0 != w@[i as int].0,
        decreases i - k,
    {
        if crate::types::same_account(&w[k].0, &w[i].0) {
            assert(w@[k as int].0 == w@[i as int].0);
            return true;
        }
        k = k + 1;
    }
    false
}

/// The winners in election order, each with its support and backers gathered from the
/// staked assignments; a validator that recurs in the ranking gets its backing once,
/// at its first rank.
pub fn staked_assignments_to_offline_winners(outputs: &ElectionOutputs) -> (r: Vec<OfflineWinner>)
    ensures
        r@.len() == outputs.raw.winners@.len(),
        forall|i: int|
            0 <= i < r@.len() ==> winner_record_ok(
                #[trigger] r@[i],
                outputs.raw.winners@,
                edges_of(staked_view(outputs.staked_assignments@)),
                i,
            ),
{
    let winners = &outputs.raw.winners;
    let ghost es = edges_of(staked_view(outputs.staked_assignments@));
    let mut r: Vec<OfflineWinner> = Vec::new();
    let mut i: usize = 0;
    while i < winners.len()
        invariant
            i <= winners.len(),
            winners == &outputs.raw.winners,
            es == edges_of(staked_view(outputs.staked_assignments@)),
            r@.len() == i,
            forall|k: int| 0 <= k < i ==> winner_record_ok(#[trigger] r@[k], winners@, es, k),
        decreases winners.len() - i,
    {
        if seen_before(winners, i) {
            r.push(OfflineWinner { validator: winners[i].0, support: 0, backers: Vec::new() });
        } else {
            let w = winner_from_edges(&outputs.staked_assignments, &winners[i].0);
            r.push(w);
        }
        i = i + 1;
    }
    r
}

/// Number of edges of a list of staked assignments.
pub open spec fn edge_count(s: Seq<StakedView>) -> int {
    edges_of(s).len() as int
}

proof fn lemma_edge_count_shrinks(a: Seq<StakedView>, b: Seq<StakedView>)
    requires
        a.len() == b.len(),
        forall|i: int| 0 <= i < a.len() ==> (#[trigger] a[i]).1.len() <= b[i].1.len(),
    ensures
        edge_count(a) <= edge_count(b),
    decreases a.len(),
{
    if a.len() > 0 {
        lemma_edge_count_shrinks(a.drop_last(), b.drop_last());
        assert(a.drop_last().len() == b.drop_last().len());
        assert(a[a.len() - 1].1.len() <= b[b.len() - 1].1.len());
    }
}

/// Whether no two assignments belong to the same voter.
pub fn distinct_voter_list(staked: &Vec<StakedAssignment>) -> (r: bool)
    ensures
        r == distinct_voters(staked_view(staked@)),
{
    let ghost s = staked_view(staked@);
    let mut j: usize = 0;
    while j < staked.len()
        invariant
            j <= staked.len(),
            s == staked_view(staked@),
            forall|a: int, b: int| 0 <= a < b < j ==> s[a].0 != s[b].0,
        decreases staked.len() - j,
    {
        let mut i: usize = 0;
        while i < j
            invariant
                i <= j < staked.len(),
                s == staked_view(staked@),
                forall|a: int| 0 <= a < i ==> s[a].0 != s[j as int].0,
            decreases j - i,
        {
            if crate::types::same_account(&staked[i].who, &staked[j].who) {
                assert(s[i as int].0 == s[j as int].0);
                return false;
            }
            i = i + 1;
        }
        j = j + 1;
    }
    true
}

/// Whether no distribution names a validator twice.
pub fn distinct_target_lists(staked: &Vec<StakedAssignment>) -> (r: bool)
    ensures
        r == crate::npos::distinct_targets(staked_view(staked@)),
{
    let ghost s = staked_view(staked@);
    let mut k: usize = 0;
    while k < staked.len()
        invariant
            k <= staked.len(),
            s == staked_view(staked@),
            forall|x: int, i: int, j: int| 0 <= x < k && 0 <= i < j < s[x].1.len() ==> s[x].1[i].0 != s[x].1[j].0,
        decreases staked.len() - k,
    {
        let d = &staked[k].distribution;
        assert(d@ == s[k as int].1);
        let mut j: usize = 0;
        while j < d.len()
            invariant
                k < staked.len(),
                j <= d.len(),
                s == staked_view(staked@),
                d@ == s[k as int].1,
                forall|x: int, a: int, b: int|
                    0 <= x < k && 0 <= a < b < s[x].1.len() ==> s[x].1[a].0 != s[x].1[b].0,
                forall|a: int, b: int| 0 <= a < b < j ==> d@[a].0 != d@[b].0,
            decreases d.len() - j,
        {
            let mut i: usize = 0;
            while i < j
                invariant
                    i <= j < d.len(),
                    k < staked.len(),
                    s == staked_view(staked@),
                    d@ == s[k as int].1,
                    forall|a: int| 0 <= a < i ==> d@[a].0 != d@[j as int].0,
                decreases j - i,
            {
                if crate::types::same_account(&d[i].0, &d[j].0) {
                    assert(s[k as int].1[i as int].0 == s[k as int].1[j as int].0);
                    return false;
                }
                i = i + 1;
            }
            j = j + 1;
        }
        k = k + 1;
    }
    true
}

proof fn lemma_share_total_prefix(d: Seq<(AccountId, u128)>, n: int)
    requires
        0 <= n <= d.len(),
    ensures
        crate::assignments::share_total(d.take(n)) <= crate::assignments::share_total(d),
    decreases d.len() - n,
{
    if n < d.len() {
        lemma_share_total_prefix(d, n + 1);
        assert(d.take(n + 1).drop_last() =~= d.take(n));
    } else {
        assert(d.take(n) =~= d);
    }
}

/// Whether every voter's shares add up to at most `u128::MAX`.
pub fn totals_fit_list(staked: &Vec<StakedAssignment>) -> (r: bool)
    ensures
        r == totals_fit(staked_view(staked@)),
{
    let ghost s = staked_view(staked@);
    let mut k: usize = 0;
    while k < staked.len()
        invariant
            k <= staked.len(),
            s == staked_view(staked@),
            forall|x: int| 0 <= x < k ==> crate::assignments::share_total(#[trigger] s[x].1) <= u128::MAX,
        decreases staked.len() - k,
    {
        let d = &staked[k].distribution;
        assert(d@ == s[k as int].1);
        let mut total: u128 = 0;
        let mut j: usize = 0;
        while j < d.len()
            invariant
                k < staked.len(),
                j <= d.len(),
                s == staked_view(staked@),
                d@ == s[k as int].1,
                forall|x: int| 0 <= x < k ==> crate::assignments::share_total(#[trigger] s[x].1) <= u128::MAX,
                total == crate::assignments::share_total(d@.take(j as int)),
            decreases d.len() - j,
        {
            assert(d@.take(j + 1).drop_last() =~= d@.take(j as int));
            match total.checked_add(d[j].1) {
                Some(t) => {
                    total = t;
                },
                None => {
                    proof {
                        lemma_share_total_prefix(d@, j + 1);
                        assert(!(crate::assignments::share_total(s[k as int].1) <= u128::MAX));
                    }
                    return false;
                },
            }
            j = j + 1;
        }
        assert(d@.take(j as int) =~= d@);
        k = k + 1;
    }
    true
}

/// Removes redundant edges from the staked assignments. They must list each voter once,
/// each naming a validator once and committing at most `u128::MAX` in all; otherwise
/// they are left as they are and the first broken condition is reported. Voters stay
/// in place, no edge is added, every kept edge was there before, and every validator's
/// backing and every voter's committed stake are unchanged.
pub fn reduce_assignments(staked: &mut Vec<StakedAssignment>) -> (r: Result<u32, ElectionError>)
    ensures
        r is Err <==> !reducible(staked_view(old(staked)@)),
        r is Err ==> final(staked)@ == old(staked)@,
        r == Err::<u32, ElectionError>(ElectionError::DuplicateVoter) <==> !distinct_voters(
            staked_view(old(staked)@),
        ),
        r == Err::<u32, ElectionError>(ElectionError::RepeatedTarget) ==> !crate::npos::distinct_targets(
            staked_view(old(staked)@),
        ),
        r == Err::<u32, ElectionError>(ElectionError::OverflowingStake) ==> !totals_fit(
            staked_view(old(staked)@),
        ),
        r is Err ==> (r == Err::<u32, ElectionError>(ElectionError::DuplicateVoter) || r == Err::<
            u32,
            ElectionError,
        >(ElectionError::RepeatedTarget) || r == Err::<u32, ElectionError>(
            ElectionError::OverflowingStake,
        )),
        r is Ok ==> staked_view(final(staked)@) == reduce_of(staked_view(old(staked)@)),
        final(staked)@.len() == old(staked)@.len(),
        forall|i: int|
            0 <= i < final(staked)@.len() ==> (#[trigger] final(staked)@[i]).who == old(staked)@[i].who,
        edge_count(staked_view(final(staked)@)) <= edge_count(staked_view(old(staked)@)),
        forall|k: int, i: int|
            0 <= k < final(staked)@.len() && 0 <= i < final(staked)@[k].distribution@.len()
                ==> crate::npos::staked_targets(old(staked)@[k].distribution@).contains(
                #[trigger] final(staked)@[k].distribution@[i].0,
            ),
        forall|v: AccountId|
            support_in(edges_of(staked_view(final(staked)@)), v) == support_in(
                edges_of(staked_view(old(staked)@)),
                v,
            ),
        forall|i: int|
            0 <= i < final(staked)@.len() ==> crate::assignments::share_total(
                (#[trigger] final(staked)@[i]).distribution@,
            ) == crate::assignments::share_total(old(staked)@[i].distribution@),
{
    proof {
        assert forall|k: int, i: int|
            0 <= k < staked@.len() && 0 <= i < staked@[k].distribution@.len() implies crate::npos::staked_targets(
                staked@[k].distribution@,
            ).contains(#[trigger] staked@[k].distribution@[i].0) by {
            assert(crate::npos::staked_targets(staked@[k].distribution@)[i] == staked@[k].distribution@[i].0);
        }
    }
    if !distinct_voter_list(staked) {
        return Err(ElectionError::DuplicateVoter);
    }
    if !distinct_target_lists(staked) {
        return Err(ElectionError::RepeatedTarget);
    }
    if !totals_fit_list(staked) {
        return Err(ElectionError::OverflowingStake);
    }
    proof {
        let b = staked_view(staked@);
        assert forall|i: int| 0 <= i < staked@.len() implies crate::assignments::share_total(
            (#[trigger] staked@[i]).distribution@,
        ) <= u128::MAX by {
            assert(b[i].1 == staked@[i].distribution@);
        }
    }
    let removed = crate::npos::reduce(staked);
    proof {
        let a = staked_view(staked@);
        let b = staked_view(old(staked)@);
        assert forall|i: int| 0 <= i < a.len() implies (#[trigger] a[i]).1.len() <= b[i].1.len() by {
            assert(a[i].1 == staked@[i].distribution@);
            assert(b[i].1 == old(staked)@[i].distribution@);
        }
        lemma_edge_count_shrinks(a, b);
    }
    Ok(removed)
}

/// The election is a function of the candidates, the voters in page order and the
/// desired count: two snapshots that agree on these give the same winners in the same
/// order, the same ratio assignments and the same staked assignments.
pub proof fn lemma_election_deterministic(a: ElectionSnapshot, b: ElectionSnapshot, do_reduce: bool)
    requires
        a.desired_targets == b.desired_targets,
        a.all_targets@ == b.all_targets@,
        flat_voters(a.voter_pages@) == flat_voters(b.voter_pages@),
    ensures
        snapshot_election_of(a, do_reduce) == snapshot_election_of(b, do_reduce),
{
}

} // verus!
