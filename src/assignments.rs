//! Ratio and staked assignments, and their mathematical model as a flat list of
//! voter-to-validator edges.

use vstd::prelude::*;
use crate::types::{AccountId, VoteWeight};

verus! {

broadcast use vstd::array::group_array_axioms;

/// One voter's support, spread over validators as 16-bit fixed-point fractions
/// (numerators over 2^16 - 1).
#[derive(Clone, Debug)]
pub struct RatioAssignment {
    pub who: AccountId,
    pub distribution: Vec<(AccountId, u16)>,
}

/// One voter's support, spread over validators in absolute stake units.
#[derive(Clone, Debug)]
pub struct StakedAssignment {
    pub who: AccountId,
    pub distribution: Vec<(AccountId, u128)>,
}

pub type RatioView = (AccountId, Seq<(AccountId, u16)>);

pub type StakedView = (AccountId, Seq<(AccountId, u128)>);

/// An edge of the support graph: `(voter, validator, stake)`.
pub type Edge = (AccountId, AccountId, u128);

impl View for RatioAssignment {
    type V = RatioView;

    open spec fn view(&self) -> RatioView {
        (self.who, self.distribution@)
    }
}

impl View for StakedAssignment {
    type V = StakedView;

    open spec fn view(&self) -> StakedView {
        (self.who, self.distribution@)
    }
}

pub open spec fn ratios_view(s: Seq<RatioAssignment>) -> Seq<RatioView> {
    s.map_values(|a: RatioAssignment| a@)
}

pub open spec fn staked_view(s: Seq<StakedAssignment>) -> Seq<StakedView> {
    s.map_values(|a: StakedAssignment| a@)
}

/// Sum of the shares of one distribution.
pub open spec fn share_total(d: Seq<(AccountId, u128)>) -> int
    decreases d.len(),
{
    if d.len() == 0 {
        0
    } else {
        share_total(d.drop_last()) + d.last().1 as int
    }
}

/// The edges of one voter's distribution, in order.
pub open spec fn dist_edges(who: AccountId, d: Seq<(AccountId, u128)>) -> Seq<Edge> {
    d.map_values(|e: (AccountId, u128)| (who, e.0, e.1))
}

/// All edges of a list of staked assignments: assignment by assignment, then in
/// distribution order.
pub open spec fn edges_of(s: Seq<StakedView>) -> Seq<Edge>
    decreases s.len(),
{
    if s.len() == 0 {
        seq![]
    } else {
        edges_of(s.drop_last()) + dist_edges(s.last().0, s.last().1)
    }
}

/// Total stake that the edges direct at validator `v`.
pub open spec fn support_in(es: Seq<Edge>, v: AccountId) -> int
    decreases es.len(),
{
    if es.len() == 0 {
        0
    } else {
        support_in(es.drop_last(), v) + if es.last().1 == v {
            es.last().2 as int
        } else {
            0
        }
    }
}

/// Total stake that the edges direct from voter `n` at validator `v`.
pub open spec fn backing_in(es: Seq<Edge>, n: AccountId, v: AccountId) -> int
    decreases es.len(),
{
    if es.len() == 0 {
        0
    } else {
        backing_in(es.drop_last(), n, v) + if es.last().0 == n && es.last().1 == v {
            es.last().2 as int
        } else {
            0
        }
    }
}

/// The stake recorded for `who` in a lookup table; a later entry overrides an
/// earlier one, and an absent voter has no stake.
pub open spec fn stake_in(table: Seq<(AccountId, VoteWeight)>, who: AccountId) -> VoteWeight
    decreases table.len(),
{
    if table.len() == 0 {
        0
    } else if table.last().0 == who {
        table.last().1
    } else {
        stake_in(table.drop_last(), who)
    }
}

/// No two assignments belong to the same voter.
pub open spec fn distinct_voters(s: Seq<StakedView>) -> bool {
    forall|i: int, j: int| 0 <= i < j < s.len() ==> s[i].0 != s[j].0
}

/// Every voter's committed stake stays within its weight in the table.
pub open spec fn within_stake(s: Seq<StakedView>, table: Seq<(AccountId, VoteWeight)>) -> bool {
    forall|i: int| 0 <= i < s.len() ==> share_total(#[trigger] s[i].1) <= stake_in(table, s[i].0) as int
}

/// Splitting the edge list after the first `i` assignments and `j` entries of the next.
pub proof fn lemma_edges_step(s: Seq<StakedView>, i: int, j: int)
    requires
        0 <= i < s.len(),
        0 <= j < s[i].1.len(),
    ensures
        edges_of(s.take(i)) + dist_edges(s[i].0, s[i].1.take(j + 1)) == (edges_of(s.take(i))
            + dist_edges(s[i].0, s[i].1.take(j))).push((s[i].0, s[i].1[j].0, s[i].1[j].1)),
{
    assert(dist_edges(s[i].0, s[i].1.take(j + 1)) =~= dist_edges(s[i].0, s[i].1.take(j)).push(
        (s[i].0, s[i].1[j].0, s[i].1[j].1),
    ));
    assert(edges_of(s.take(i)) + dist_edges(s[i].0, s[i].1.take(j + 1)) =~= (edges_of(s.take(i))
        + dist_edges(s[i].0, s[i].1.take(j))).push((s[i].0, s[i].1[j].0, s[i].1[j].1)));
}

/// Closing one assignment: its whole distribution has been walked.
pub proof fn lemma_edges_next(s: Seq<StakedView>, i: int)
    requires
        0 <= i < s.len(),
    ensures
        edges_of(s.take(i)) + dist_edges(s[i].0, s[i].1.take(s[i].1.len() as int)) == edges_of(
            s.take(i + 1),
        ),
        edges_of(s.take(i)) + dist_edges(s[i].0, s[i].1.take(0)) == edges_of(s.take(i)),
{
    assert(s[i].1.take(s[i].1.len() as int) =~= s[i].1);
    assert(s.take(i + 1).drop_last() =~= s.take(i));
    assert(dist_edges(s[i].0, s[i].1.take(0)) =~= seq![]);
    assert(edges_of(s.take(i)) + dist_edges(s[i].0, s[i].1.take(0)) =~= edges_of(s.take(i)));
}

/// An empty distribution commits nothing.
pub proof fn lemma_share_total_empty(d: Seq<(AccountId, u128)>)
    ensures
        d.len() == 0 ==> share_total(d) == 0,
        share_total(d) >= 0,
    decreases d.len(),
{
    if d.len() > 0 {
        lemma_share_total_empty(d.drop_last());
    }
}

/// The stake that the table holds for `who`.
pub fn stake_of(table: &Vec<(AccountId, VoteWeight)>, who: &AccountId) -> (r: VoteWeight)
    ensures
        r == stake_in(table@, *who),
{
    let mut i: usize = table.len();
    assert(table@.take(i as int) =~= table@);
    while i > 0
        invariant
            i <= table.len(),
            stake_in(table@, *who) == stake_in(table@.take(i as int), *who),
        decreases i,
    {
        assert(table@.take(i as int).drop_last() =~= table@.take(i - 1));
        if crate::types::same_account(&table[i - 1].0, who) {
            return table[i - 1].1;
        }
        i = i - 1;
    }
    0
}

} // verus!
