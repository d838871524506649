//! Conservation checks over a recomputed election; they report and never abort.

use vstd::prelude::*;
use crate::assignments::{
    distinct_voters, Edge, dist_edges,    edges_of, share_total, stake_in, staked_view, within_stake, StakedAssignment, StakedView,
};
use crate::election::{
    lemma_capped_support_nonneg, repeated_winner,    capped_support_in, stake_table, staked_assignments_to_offline_winners, ElectionOutputs,
};
use crate::types::{
    flat_voters, vote_weight_of, voters_view, AccountId, ElectionSnapshot, VoteWeight,
    VoterSnapshot, VoterView,
};

verus! {

broadcast use vstd::array::group_array_axioms;

/// A broken conservation invariant.
#[derive(Clone, Copy, Debug, PartialEq, Eq)]
pub enum StakeCheckError {
    /// A voter's distribution adds up to more than its weight.
    NominatorOverCommitted { who: AccountId, assigned: VoteWeight, available: VoteWeight },
    /// The winners' supports add up to more than all voters' weights.
    GlobalSupportExceeded { support: u128, stake: u128 },
}

/// Sum of the shares of a distribution, each capped at the largest vote weight.
pub open spec fn capped_total(d: Seq<(AccountId, u128)>) -> int
    decreases d.len(),
{
    if d.len() == 0 {
        0
    } else {
        capped_total(d.drop_last()) + vote_weight_of(d.last().1 as int) as int
    }
}

/// What the `i`-th assignment commits, saturated at the largest vote weight.
pub open spec fn assigned_weight(s: Seq<StakedView>, i: int) -> VoteWeight {
    vote_weight_of(capped_total(s[i].1))
}

/// The `i`-th assignment commits more than the table grants its voter.
pub open spec fn over_committed(
    s: Seq<StakedView>,
    table: Seq<(AccountId, VoteWeight)>,
    i: int,
) -> bool {
    assigned_weight(s, i) > stake_in(table, s[i].0)
}

/// The `i`-th assignment is the first that commits too much.
pub open spec fn first_over_committed(
    s: Seq<StakedView>,
    table: Seq<(AccountId, VoteWeight)>,
    i: int,
) -> bool {
    &&& 0 <= i < s.len()
    &&& over_committed(s, table, i)
    &&& forall|k: int| 0 <= k < i ==> !over_committed(s, table, k)
}

/// The support that the winner record at rank `i` carries: none for a repeated winner.
pub open spec fn record_support(w: Seq<(AccountId, u128)>, es: Seq<crate::assignments::Edge>, i: int) -> int {
    if crate::election::repeated_winner(w, i) {
        0
    } else {
        vote_weight_of(capped_support_in(es, w[i].0)) as int
    }
}

/// Sum of the supports of the first `n` winner records.
pub open spec fn winners_support_total(w: Seq<(AccountId, u128)>, es: Seq<crate::assignments::Edge>, n: nat) -> int
    decreases n,
{
    if n == 0 {
        0
    } else {
        winners_support_total(w, es, (n - 1) as nat) + record_support(w, es, n - 1)
    }
}

/// Sum of the weights of the distinct voters, each counted once with the weight of its
/// last record: a later record of a voter replaces the weight of its earlier ones.
pub open spec fn distinct_weight_total(voters: Seq<VoterView>) -> int
    decreases voters.len(),
{
    if voters.len() == 0 {
        0
    } else {
        let p = voters.drop_last();
        distinct_weight_total(p) - stake_in(stake_table(p), voters.last().0) as int
            + voters.last().1 as int
    }
}

/// Sum of the table's stakes of the given accounts.
pub open spec fn stakes_of(table: Seq<(AccountId, VoteWeight)>, ids: Seq<AccountId>) -> int
    decreases ids.len(),
{
    if ids.len() == 0 {
        0
    } else {
        stakes_of(table, ids.drop_last()) + stake_in(table, ids.last()) as int
    }
}

proof fn lemma_stake_table_push(p: Seq<VoterView>, x: VoterView)
    ensures
        forall|a: AccountId| #[trigger]
            stake_in(stake_table(p.push(x)), a) == if a == x.0 {
                x.1
            } else {
                stake_in(stake_table(p), a)
            },
{
    assert(stake_table(p.push(x)).drop_last() =~= stake_table(p));
    assert(stake_table(p.push(x)).last() == (x.0, x.1));
}

proof fn lemma_stakes_split(ids: Seq<AccountId>, p: Seq<VoterView>, x: VoterView)
    requires
        ids.no_duplicates(),
    ensures
        stakes_of(stake_table(p.push(x)), ids) == stakes_of(stake_table(p), ids) + if ids.contains(
            x.0,
        ) {
            x.1 as int - stake_in(stake_table(p), x.0) as int
        } else {
            0
        },
    decreases ids.len(),
{
    lemma_stake_table_push(p, x);
    if ids.len() > 0 {
        let q = ids.drop_last();
        assert(q.no_duplicates());
        lemma_stakes_split(q, p, x);
        assert(ids =~= q.push(ids.last()));
        assert(ids.contains(x.0) <==> (q.contains(x.0) || ids.last() == x.0)) by {
            if ids.contains(x.0) {
                let i = choose|i: int| 0 <= i < ids.len() && ids[i] == x.0;
                if i < q.len() {
                    assert(q[i] == x.0);
                }
            }
            if q.contains(x.0) {
                let i = choose|i: int| 0 <= i < q.len() && q[i] == x.0;
                assert(ids[i] == x.0);
            }
        }
        if ids.last() == x.0 {
            assert(!q.contains(x.0)) by {
                if q.contains(x.0) {
                    let i = choose|i: int| 0 <= i < q.len() && q[i] == x.0;
                    assert(ids[i] == ids[ids.len() - 1]);
                }
            }
        }
    }
}

proof fn lemma_stakes_of_empty(ids: Seq<AccountId>)
    ensures
        stakes_of(Seq::<(AccountId, VoteWeight)>::empty(), ids) == 0,
    decreases ids.len(),
{
    if ids.len() > 0 {
        lemma_stakes_of_empty(ids.drop_last());
    }
}

/// Distinct accounts hold at most the distinct voters' total between them.
pub proof fn lemma_stakes_bounded(ids: Seq<AccountId>, v: Seq<VoterView>)
    requires
        ids.no_duplicates(),
    ensures
        stakes_of(stake_table(v), ids) <= distinct_weight_total(v),
    decreases v.len(),
{
    if v.len() == 0 {
        assert(stake_table(v) =~= Seq::<(AccountId, VoteWeight)>::empty());
        lemma_stakes_of_empty(ids);
    } else {
        let p = v.drop_last();
        let x = v.last();
        assert(p.push(x) =~= v);
        lemma_stakes_split(ids, p, x);
        if ids.contains(x.0) {
            lemma_stakes_bounded(ids, p);
        } else {
            let ids2 = ids.push(x.0);
            assert(ids2.no_duplicates()) by {
                assert forall|i: int, j: int|
                    0 <= i < ids2.len() && 0 <= j < ids2.len() && i != j implies ids2[i] != ids2[j] by {
                    if i == ids.len() {
                        assert(ids[j] != x.0);
                    } else if j == ids.len() {
                        assert(ids[i] != x.0);
                    }
                }
            }
            lemma_stakes_bounded(ids2, p);
            assert(ids2.drop_last() =~= ids);
        }
    }
}

proof fn lemma_capped_total_bounds(d: Seq<(AccountId, u128)>)
    ensures
        0 <= capped_total(d) <= d.len() * (u64::MAX as int),
    decreases d.len(),
{
    if d.len() > 0 {
        lemma_capped_total_bounds(d.drop_last());
    }
}

proof fn lemma_capped_total_at_most_shares(d: Seq<(AccountId, u128)>)
    ensures
        capped_total(d) <= share_total(d),
    decreases d.len(),
{
    if d.len() > 0 {
        lemma_capped_total_at_most_shares(d.drop_last());
    }
}

/// Assignments that keep each voter within its weight never trip the per-voter check:
/// on the election's own output only the global check can report.
pub proof fn lemma_within_stake_not_over_committed(
    s: Seq<StakedView>,
    table: Seq<(AccountId, VoteWeight)>,
)
    requires
        within_stake(s, table),
    ensures
        forall|k: int| 0 <= k < s.len() ==> !over_committed(s, table, k),
{
    assert forall|k: int| 0 <= k < s.len() implies !over_committed(s, table, k) by {
        lemma_capped_total_at_most_shares(s[k].1);
        lemma_capped_total_bounds(s[k].1);
        assert(share_total(s[k].1) <= stake_in(table, s[k].0) as int);
    }
}

/// Sum of the stakes of a list of edges.
pub open spec fn edge_total(es: Seq<Edge>) -> int
    decreases es.len(),
{
    if es.len() == 0 {
        0
    } else {
        edge_total(es.drop_last()) + es.last().2 as int
    }
}

/// Sum of the stakes that all assignments commit.
pub open spec fn assigned_total(s: Seq<StakedView>) -> int
    decreases s.len(),
{
    if s.len() == 0 {
        0
    } else {
        assigned_total(s.drop_last()) + share_total(s.last().1)
    }
}

/// The voters of a list of assignments.
pub open spec fn staked_voter_ids(s: Seq<StakedView>) -> Seq<AccountId> {
    s.map_values(|a: StakedView| a.0)
}

proof fn lemma_edge_total_concat(a: Seq<Edge>, b: Seq<Edge>)
    ensures
        edge_total(a + b) == edge_total(a) + edge_total(b),
    decreases b.len(),
{
    if b.len() == 0 {
        assert(a + b =~= a);
    } else {
        lemma_edge_total_concat(a, b.drop_last());
        assert((a + b).drop_last() =~= a + b.drop_last());
    }
}

proof fn lemma_dist_edges_total(who: AccountId, d: Seq<(AccountId, u128)>)
    ensures
        edge_total(dist_edges(who, d)) == share_total(d),
    decreases d.len(),
{
    if d.len() > 0 {
        lemma_dist_edges_total(who, d.drop_last());
        assert(dist_edges(who, d).drop_last() =~= dist_edges(who, d.drop_last()));
    }
}

proof fn lemma_edges_total(s: Seq<StakedView>)
    ensures
        edge_total(edges_of(s)) == assigned_total(s),
    decreases s.len(),
{
    if s.len() > 0 {
        lemma_edges_total(s.drop_last());
        lemma_edge_total_concat(edges_of(s.drop_last()), dist_edges(s.last().0, s.last().1));
        lemma_dist_edges_total(s.last().0, s.last().1);
    }
}

proof fn lemma_assigned_within(s: Seq<StakedView>, table: Seq<(AccountId, VoteWeight)>)
    requires
        within_stake(s, table),
    ensures
        assigned_total(s) <= stakes_of(table, staked_voter_ids(s)),
    decreases s.len(),
{
    if s.len() > 0 {
        let p = s.drop_last();
        assert forall|i: int| 0 <= i < p.len() implies share_total(#[trigger] p[i].1) <= stake_in(
            table,
            p[i].0,
        ) as int by {
            assert(p[i] == s[i]);
        }
        lemma_assigned_within(p, table);
        assert(staked_voter_ids(s).drop_last() =~= staked_voter_ids(p));
        assert(share_total(s[s.len() - 1].1) <= stake_in(table, s[s.len() - 1].0) as int);
    }
}

/// How many first-rank winner records name `x` among the first `n` ranks.
pub open spec fn first_rank_count(w: Seq<(AccountId, u128)>, n: nat, x: AccountId) -> int
    decreases n,
{
    if n == 0 {
        0
    } else {
        first_rank_count(w, (n - 1) as nat, x) + if !repeated_winner(w, n - 1) && w[n - 1].0 == x {
            1int
        } else {
            0
        }
    }
}

proof fn lemma_first_rank_count_zero(w: Seq<(AccountId, u128)>, m: nat, x: AccountId)
    requires
        forall|k: int| 0 <= k < m ==> w[k].0 != x,
    ensures
        first_rank_count(w, m, x) == 0,
    decreases m,
{
    if m > 0 {
        lemma_first_rank_count_zero(w, (m - 1) as nat, x);
    }
}

proof fn lemma_first_rank_count_le1(w: Seq<(AccountId, u128)>, n: nat, x: AccountId)
    ensures
        0 <= first_rank_count(w, n, x) <= 1,
    decreases n,
{
    if n > 0 {
        lemma_first_rank_count_le1(w, (n - 1) as nat, x);
        if !repeated_winner(w, n - 1) && w[n - 1].0 == x {
            assert forall|k: int| 0 <= k < n - 1 implies w[k].0 != x by {
                if w[k].0 == x {
                    assert(repeated_winner(w, n - 1));
                }
            }
            lemma_first_rank_count_zero(w, (n - 1) as nat, x);
        }
    }
}

/// The capped support of the first `n` winner records, before saturation.
pub open spec fn records_capped(w: Seq<(AccountId, u128)>, es: Seq<Edge>, n: nat) -> int
    decreases n,
{
    if n == 0 {
        0
    } else {
        records_capped(w, es, (n - 1) as nat) + if repeated_winner(w, n - 1) {
            0
        } else {
            capped_support_in(es, w[n - 1].0)
        }
    }
}

proof fn lemma_records_capped_split(w: Seq<(AccountId, u128)>, q: Seq<Edge>, e: Edge, n: nat)
    ensures
        records_capped(w, q.push(e), n) == records_capped(w, q, n) + first_rank_count(w, n, e.1)
            * (vote_weight_of(e.2 as int) as int),
    decreases n,
{
    assert(q.push(e).drop_last() =~= q);
    if n > 0 {
        lemma_records_capped_split(w, q, e, (n - 1) as nat);
        let c = first_rank_count(w, (n - 1) as nat, e.1);
        let v = vote_weight_of(e.2 as int) as int;
        assert((c + 1) * v == c * v + v) by (nonlinear_arith);
    }
}

proof fn lemma_records_capped_bound(w: Seq<(AccountId, u128)>, es: Seq<Edge>, n: nat)
    ensures
        records_capped(w, es, n) <= edge_total(es),
    decreases es.len(), n,
{
    if es.len() == 0 {
        if n > 0 {
            lemma_records_capped_bound(w, es, (n - 1) as nat);
        }
    } else {
        let q = es.drop_last();
        let e = es.last();
        assert(q.push(e) =~= es);
        lemma_records_capped_split(w, q, e, n);
        lemma_first_rank_count_le1(w, n, e.1);
        lemma_records_capped_bound(w, q, n);
        let c = first_rank_count(w, n, e.1);
        let v = vote_weight_of(e.2 as int) as int;
        assert(c * v <= v) by (nonlinear_arith)
            requires
                0 <= c <= 1,
                0 <= v,
        ;
    }
}

proof fn lemma_support_total_capped(w: Seq<(AccountId, u128)>, es: Seq<Edge>, n: nat)
    ensures
        winners_support_total(w, es, n) <= records_capped(w, es, n),
    decreases n,
{
    if n > 0 {
        lemma_support_total_capped(w, es, (n - 1) as nat);
        lemma_capped_support_nonneg(es, w[n - 1].0);
    }
}

/// On assignments that keep each voter within its weight and list each voter once, the
/// stake check passes: no voter is over-committed, and the winners' supports add up to
/// at most the voters' weights. The election's output meets both conditions with
/// reduction on, and with reduction off where the snapshot lists each voter once.
pub proof fn lemma_election_output_passes(
    w: Seq<(AccountId, u128)>,
    s: Seq<StakedView>,
    voters: Seq<VoterView>,
)
    requires
        within_stake(s, stake_table(voters)),
        distinct_voters(s),
    ensures
        forall|k: int| 0 <= k < s.len() ==> !over_committed(s, stake_table(voters), k),
        winners_support_total(w, edges_of(s), w.len()) <= distinct_weight_total(voters),
{
    lemma_within_stake_not_over_committed(s, stake_table(voters));
    lemma_support_total_capped(w, edges_of(s), w.len());
    lemma_records_capped_bound(w, edges_of(s), w.len());
    lemma_edges_total(s);
    lemma_assigned_within(s, stake_table(voters));
    let ids = staked_voter_ids(s);
    assert(ids.no_duplicates()) by {
        assert forall|i: int, j: int| 0 <= i < ids.len() && 0 <= j < ids.len() && i != j implies ids[i]
            != ids[j] by {
            if i < j {
                assert(s[i].0 != s[j].0);
            } else {
                assert(s[j].0 != s[i].0);
            }
        }
    }
    lemma_stakes_bounded(ids, voters);
}

/// What one assignment commits, in vote-weight units.
fn assigned_of(a: &StakedAssignment) -> (r: VoteWeight)
    ensures
        r == vote_weight_of(capped_total(a.distribution@)),
{
    let d = &a.distribution;
    let mut total: VoteWeight = 0;
    let mut j: usize = 0;
    while j < d.len()
        invariant
            j <= d.len(),
            total == vote_weight_of(capped_total(d@.take(j as int))),
        decreases d.len() - j,
    {
        proof {
            assert(d@.take(j + 1).drop_last() =~= d@.take(j as int));
            lemma_capped_total_bounds(d@.take(j as int));
        }
        let w = crate::types::balance_to_vote_weight(d[j].1);
        total = total.saturating_add(w);
        j = j + 1;
    }
    assert(d@.take(j as int) =~= d@);
    total
}

/// The stake that the first `n` entries of the table hold for `who`.
fn stake_before(table: &Vec<(AccountId, VoteWeight)>, n: usize, who: &AccountId) -> (r: VoteWeight)
    requires
        n <= table.len(),
    ensures
        r == stake_in(table@.take(n as int), *who),
{
    let mut i: usize = n;
    while i > 0
        invariant
            i <= n <= table.len(),
            stake_in(table@.take(n as int), *who) == stake_in(table@.take(i as int), *who),
        decreases i,
    {
        assert(table@.take(i as int).drop_last() =~= table@.take(i - 1));
        if crate::types::same_account(&table[i - 1].0, who) {
            return table[i - 1].1;
        }
        i = i - 1;
    }
    0
}

/// Sum of the weights of the distinct voters, each with its last record's weight.
fn total_weight(voters: &Vec<VoterSnapshot>) -> (r: u128)
    ensures
        r == distinct_weight_total(voters_view(voters@)),
{
    let ghost vs = voters_view(voters@);
    let table = crate::election::build_stake_table(voters);
    let mut total: u128 = 0;
    let mut i: usize = 0;
    while i < voters.len()
        invariant
            i <= voters.len(),
            vs == voters_view(voters@),
            table@ == stake_table(vs),
            total == distinct_weight_total(vs.take(i as int)),
            total <= i * (u64::MAX as int),
        decreases voters.len() - i,
    {
        let who = voters[i].who;
        let prev = stake_before(&table, i, &who);
        proof {
            let p = vs.take(i as int);
            assert(table@.take(i as int) =~= stake_table(p));
            assert(vs.take(i + 1).drop_last() =~= p);
            assert(vs.take(i + 1).last() == vs[i as int]);
            assert(seq![who].no_duplicates());
            lemma_stakes_bounded(seq![who], p);
            assert(seq![who].drop_last() =~= Seq::<AccountId>::empty());
            assert(stakes_of(stake_table(p), Seq::<AccountId>::empty()) == 0);
            assert(seq![who].last() == who);
            assert(stakes_of(stake_table(p), seq![who]) == prev as int);
            assert(i * (u64::MAX as int) + (u64::MAX as int) <= u128::MAX) by (nonlinear_arith)
                requires
                    i <= usize::MAX,
            ;
            assert((i + 1) * (u64::MAX as int) == i * (u64::MAX as int) + (u64::MAX as int)) by (nonlinear_arith);
        }
        total = total - prev as u128 + voters[i].weight as u128;
        i = i + 1;
    }
    assert(vs.take(i as int) =~= vs);
    total
}

/// Checks that no voter commits more than its weight and that the winners' supports do
/// not add up to more than all voters' weights; the first broken invariant is returned.
pub fn verify_staked_assignments_internal(
    snapshot: &ElectionSnapshot,
    outputs: &ElectionOutputs,
) -> (r: Result<(), StakeCheckError>)
    ensures
        ({
            let s = staked_view(outputs.staked_assignments@);
            let table = stake_table(flat_voters(snapshot.voter_pages@));
            let support = winners_support_total(outputs.raw.winners@, edges_of(s), outputs.raw.winners@.len());
            let stake = distinct_weight_total(flat_voters(snapshot.voter_pages@));
            &&& r matches Err(e) ==> e is NominatorOverCommitted ==> exists|i: int|
                #[trigger] first_over_committed(s, table, i) && e == (StakeCheckError::NominatorOverCommitted {
                    who: s[i].0,
                    assigned: assigned_weight(s, i),
                    available: stake_in(table, s[i].0),
                })
            &&& (r is Ok || r matches Err(StakeCheckError::GlobalSupportExceeded { .. })) ==> forall|
                k: int,
            |
                0 <= k < s.len() ==> !over_committed(s, table, k)
            &&& r matches Err(StakeCheckError::GlobalSupportExceeded { support: a, stake: b })
                ==> a == support && b == stake && a > b
            &&& r is Ok ==> support <= stake
        }),
{
    let ghost s = staked_view(outputs.staked_assignments@);
    let voters = crate::types::flatten_voters(snapshot);
    let ghost table = stake_table(voters_view(voters@));
    let table_v = crate::election::build_stake_table(&voters);
    let staked = &outputs.staked_assignments;
    let mut i: usize = 0;
    while i < staked.len()
        invariant
            i <= staked.len(),
            s == staked_view(staked@),
            staked == &outputs.staked_assignments,
            table_v@ == table,
            table == stake_table(flat_voters(snapshot.voter_pages@)),
            forall|k: int| 0 <= k < i ==> !over_committed(s, table, k),
        decreases staked.len() - i,
    {
        let assigned = assigned_of(&staked[i]);
        let available = crate::assignments::stake_of(&table_v, &staked[i].who);
        if assigned > available {
            let err = StakeCheckError::NominatorOverCommitted {
                who: staked[i].who,
                assigned,
                available,
            };
            assert(first_over_committed(s, table, i as int));
            return Err(err);
        }
        i = i + 1;
    }
    let winners = staked_assignments_to_offline_winners(outputs);
    let ghost es = edges_of(s);
    let ghost ws = outputs.raw.winners@;
    let mut support: u128 = 0;
    let mut k: usize = 0;
    while k < winners.len()
        invariant
            k <= winners.len(),
            winners@.len() == ws.len(),
            forall|x: int|
                0 <= x < winners@.len() ==> crate::election::winner_record_ok(
                    #[trigger] winners@[x],
                    ws,
                    es,
                    x,
                ),
            support == winners_support_total(ws, es, k as nat),
            support <= k * (u64::MAX as int),
        decreases winners.len() - k,
    {
        proof {
            assert(winners@[k as int].support == record_support(ws, es, k as int));
            assert(k * (u64::MAX as int) + (u64::MAX as int) <= u128::MAX) by (nonlinear_arith)
                requires
                    k <= usize::MAX,
            ;
            assert((k + 1) * (u64::MAX as int) == k * (u64::MAX as int) + (u64::MAX as int)) by (nonlinear_arith);
        }
        support = support + winners[k].support as u128;
        k = k + 1;
    }
    let stake = total_weight(&voters);
    if support > stake {
        return Err(StakeCheckError::GlobalSupportExceeded { support, stake });
    }
    Ok(())
}

} // verus!
