//! The calls into `sp_npos_elections`: the sequential Phragmen method, the
//! conversions between ratio and staked assignments, and the reduction of redundant
//! edges. Each result is a function of the arguments alone and is named here.

use vstd::prelude::*;
use crate::assignments::{
    distinct_voters, edges_of, share_total, stake_in, staked_view, ratios_view, support_in,
    RatioAssignment, RatioView, StakedAssignment, StakedView,
};
use crate::types::{AccountId, VoteWeight, VoterSnapshot, VoterView, voters_view};
use sp_arithmetic::PerU16;

verus! {

#[verifier::external_type_specification]
#[verifier::external_body]
pub struct ExNposError(sp_npos_elections::Error);

/// Winners (with their backing) and per-voter ratio assignments of one election run.
#[derive(Clone, Debug)]
pub struct RawElectionResult {
    pub winners: Vec<(AccountId, u128)>,
    pub assignments: Vec<RatioAssignment>,
}

pub type RawView = (Seq<(AccountId, u128)>, Seq<RatioView>);

impl View for RawElectionResult {
    type V = RawView;

    open spec fn view(&self) -> RawView {
        (self.winners@, ratios_view(self.assignments@))
    }
}

/// What sequential Phragmen returns for `to_elect`, the candidates and the voters.
pub uninterp spec fn seq_phragmen_of(
    to_elect: nat,
    targets: Seq<AccountId>,
    voters: Seq<VoterView>,
) -> Option<RawView>;

/// The staked assignments made from ratio assignments and a stake table.
pub uninterp spec fn ratio_to_staked_of(
    ratios: Seq<RatioView>,
    table: Seq<(AccountId, VoteWeight)>,
) -> Option<Seq<StakedView>>;

/// The staked assignments left after removing redundant edges.
pub uninterp spec fn reduce_of(staked: Seq<StakedView>) -> Seq<StakedView>;

/// The ratio assignments made from staked assignments.
pub uninterp spec fn staked_to_ratio_of(staked: Seq<StakedView>) -> Option<Seq<RatioView>>;

/// The identities of ranked winners.
pub open spec fn winner_ids_of(w: Seq<(AccountId, u128)>) -> Seq<AccountId> {
    w.map_values(|x: (AccountId, u128)| x.0)
}

/// No two entries of the list are the same account.
pub open spec fn distinct_accounts(s: Seq<AccountId>) -> bool {
    forall|i: int, j: int| 0 <= i < j < s.len() ==> s[i] != s[j]
}

/// Each distribution names each validator at most once.
pub open spec fn distinct_targets(s: Seq<StakedView>) -> bool {
    forall|k: int, i: int, j: int|
        0 <= k < s.len() && 0 <= i < j < s[k].1.len() ==> #[trigger] s[k].1[i].0
            != #[trigger] s[k].1[j].0
}

/// Each ratio distribution names each validator at most once.
pub open spec fn distinct_ratio_targets(s: Seq<RatioView>) -> bool {
    forall|k: int, i: int, j: int|
        0 <= k < s.len() && 0 <= i < j < s[k].1.len() ==> #[trigger] s[k].1[i].0
            != #[trigger] s[k].1[j].0
}

/// The validators that a ratio distribution names, in order.
pub open spec fn ratio_targets(d: Seq<(AccountId, u16)>) -> Seq<AccountId> {
    d.map_values(|e: (AccountId, u16)| e.0)
}

/// The validators that a staked distribution names, in order.
pub open spec fn staked_targets(d: Seq<(AccountId, u128)>) -> Seq<AccountId> {
    d.map_values(|e: (AccountId, u128)| e.0)
}

/// Sum of the ratio numerators of one distribution.
pub open spec fn ratio_total(d: Seq<(AccountId, u16)>) -> int
    decreases d.len(),
{
    if d.len() == 0 {
        0
    } else {
        ratio_total(d.drop_last()) + d.last().1 as int
    }
}

/// Relies on `sp_npos_elections::seq_phragmen` (with 16-bit ratios and no balancing):
/// it elects `min(to_elect, candidates)` distinct candidates, one per round, and reports
/// them in the order of election; a voter's repeated nominations are dropped before the
/// election, so no assignment names a validator twice. Assignments follow the voters'
/// order, one per voter that backs a winner. Each assignment spreads its
/// voter's whole support (its ratios add up to one, 2^16 - 1) over elected targets that
/// the voter nominated.
#[verifier::external_body]
pub(crate) fn seq_phragmen(
    to_elect: usize,
    targets: Vec<AccountId>,
    voters: Vec<VoterSnapshot>,
) -> (r: Result<RawElectionResult, sp_npos_elections::Error>)
    ensures
        r is Ok <==> seq_phragmen_of(to_elect as nat, targets@, voters_view(voters@)) is Some,
        r matches Ok(v) ==> seq_phragmen_of(to_elect as nat, targets@, voters_view(voters@))
            == Some(v@),
        r matches Ok(v) ==> v.winners@.len() == if to_elect < targets@.len() {
            to_elect as int
        } else {
            targets@.len() as int
        },
        r matches Ok(v) ==> forall|i: int|
            0 <= i < v.winners@.len() ==> targets@.contains(#[trigger] v.winners@[i].0),
        r matches Ok(v) ==> distinct_accounts(targets@) ==> forall|i: int, j: int|
            0 <= i < j < v.winners@.len() ==> v.winners@[i].0 != v.winners@[j].0,
        r matches Ok(v) ==> distinct_ratio_targets(v@.1),
        r matches Ok(v) ==> forall|k: int|
            0 <= k < v.assignments@.len() ==> (#[trigger] v.assignments@[k]).distribution@.len() > 0
                && ratio_total(v.assignments@[k].distribution@) == u16::MAX as int,
        r matches Ok(v) ==> forall|k: int, i: int|
            0 <= k < v.assignments@.len() && 0 <= i < v.assignments@[k].distribution@.len()
                ==> winner_ids_of(v.winners@).contains(
                #[trigger] v.assignments@[k].distribution@[i].0,
            ) && exists|j: int|
                0 <= j < voters@.len() && voters@[j].who == v.assignments@[k].who
                    && voters@[j].targets@.contains(v.assignments@[k].distribution@[i].0),
        r matches Ok(v) ==> (forall|i: int, j: int|
            0 <= i < j < voters@.len() ==> voters@[i].who != voters@[j].who) ==> forall|k: int, l: int|
            0 <= k < l < v.assignments@.len() ==> v.assignments@[k].who != v.assignments@[l].who,
{
    let voters = voters.into_iter().map(|v| (v.who, v.weight, v.targets)).collect::<Vec<_>>();
    sp_npos_elections::seq_phragmen::<AccountId, PerU16>(to_elect, targets, voters, None).map(
        |res| RawElectionResult {
            winners: res.winners,
            assignments: res.assignments.into_iter().map(|a| RatioAssignment {
                who: a.who,
                distribution: a.distribution.into_iter().map(|(t, p)| (t, p.deconstruct())).collect(),
            }).collect(),
        },
    )
}

/// Relies on `sp_npos_elections::assignment_ratio_to_staked_normalized`: each voter's
/// ratios are scaled by its stake from the table, then normalised so that a non-empty
/// distribution adds up to exactly that stake; voters stay in order, and each
/// distribution keeps a subsequence of its entries (zero ratios are dropped).
#[verifier::external_body]
pub(crate) fn ratio_to_staked(
    ratios: Vec<RatioAssignment>,
    table: &Vec<(AccountId, VoteWeight)>,
) -> (r: Result<Vec<StakedAssignment>, sp_npos_elections::Error>)
    ensures
        r is Ok <==> ratio_to_staked_of(ratios_view(ratios@), table@) is Some,
        r matches Ok(v) ==> ratio_to_staked_of(ratios_view(ratios@), table@) == Some(
            staked_view(v@),
        ),
        r matches Ok(v) ==> v@.len() == ratios@.len(),
        r matches Ok(v) ==> forall|i: int|
            0 <= i < v@.len() ==> (#[trigger] v@[i]).who == ratios@[i].who,
        r matches Ok(v) ==> forall|i: int|
            0 <= i < v@.len() && (#[trigger] v@[i]).distribution@.len() > 0 ==> share_total(
                v@[i].distribution@,
            ) == stake_in(table@, v@[i].who) as int,
        r matches Ok(v) ==> distinct_ratio_targets(ratios_view(ratios@)) ==> distinct_targets(
            staked_view(v@),
        ),
        r matches Ok(v) ==> forall|k: int, i: int|
            0 <= k < v@.len() && 0 <= i < v@[k].distribution@.len() ==> ratio_targets(
                ratios@[k].distribution@,
            ).contains(#[trigger] v@[k].distribution@[i].0),
{
    let ratios = ratios.into_iter().map(|a| sp_npos_elections::Assignment {
        who: a.who,
        distribution: a.distribution.into_iter().map(|(t, p)| (t, PerU16::from_parts(p))).collect(),
    }).collect::<Vec<_>>();
    sp_npos_elections::assignment_ratio_to_staked_normalized(
        ratios,
        |who: &AccountId| crate::assignments::stake_of(table, who),
    ).map(|v| v.into_iter().map(|a| StakedAssignment { who: a.who, distribution: a.distribution }).collect())
}

/// Relies on `sp_npos_elections::reduce`: it only removes edges and moves stake between
/// the remaining ones, keeping every validator's backing and every voter's total. It
/// panics, or clips a raised edge, unless each voter is listed once, names each
/// validator once and commits no more than `u128::MAX` in all; such inputs are excluded.
#[verifier::external_body]
pub(crate) fn reduce(staked: &mut Vec<StakedAssignment>) -> (r: u32)
    requires
        distinct_voters(staked_view(old(staked)@)),
        distinct_targets(staked_view(old(staked)@)),
        forall|i: int|
            0 <= i < old(staked)@.len() ==> share_total((#[trigger] old(staked)@[i]).distribution@)
                <= u128::MAX,
    ensures
        staked_view(final(staked)@) == reduce_of(staked_view(old(staked)@)),
        final(staked)@.len() == old(staked)@.len(),
        forall|i: int|
            0 <= i < final(staked)@.len() ==> (#[trigger] final(staked)@[i]).who == old(
                staked,
            )@[i].who && final(staked)@[i].distribution@.len() <= old(staked)@[i].distribution@.len(),
        forall|k: int, i: int|
            0 <= k < final(staked)@.len() && 0 <= i < final(staked)@[k].distribution@.len()
                ==> staked_targets(old(staked)@[k].distribution@).contains(
                #[trigger] final(staked)@[k].distribution@[i].0,
            ),
        forall|i: int|
            0 <= i < final(staked)@.len() ==> share_total(
                (#[trigger] final(staked)@[i]).distribution@,
            ) == share_total(old(staked)@[i].distribution@),
        forall|v: AccountId|
            support_in(edges_of(staked_view(final(staked)@)), v) == support_in(
                edges_of(staked_view(old(staked)@)),
                v,
            ),
{
    let mut s = staked.drain(..).map(|a| sp_npos_elections::StakedAssignment {
        who: a.who,
        distribution: a.distribution,
    }).collect::<Vec<_>>();
    let n = sp_npos_elections::reduce(&mut s);
    staked.extend(s.into_iter().map(|a| StakedAssignment { who: a.who, distribution: a.distribution }));
    n
}

/// Relies on `sp_npos_elections::assignment_staked_to_ratio_normalized`: each voter's
/// stakes become 16-bit ratios of its total (zero ratios dropped), normalised so that a
/// non-empty list adds up to one; voters stay in order.
#[verifier::external_body]
pub(crate) fn staked_to_ratio(staked: &Vec<StakedAssignment>) -> (r: Result<
    Vec<RatioAssignment>,
    sp_npos_elections::Error,
>)
    ensures
        r is Ok <==> staked_to_ratio_of(staked_view(staked@)) is Some,
        r matches Ok(v) ==> staked_to_ratio_of(staked_view(staked@)) == Some(ratios_view(v@)),
        r matches Ok(v) ==> v@.len() == staked@.len(),
        r matches Ok(v) ==> forall|i: int|
            0 <= i < v@.len() ==> (#[trigger] v@[i]).who == staked@[i].who,
        r matches Ok(v) ==> forall|i: int|
            0 <= i < v@.len() && (#[trigger] v@[i]).distribution@.len() > 0 ==> ratio_total(
                v@[i].distribution@,
            ) == u16::MAX as int,
        r matches Ok(v) ==> forall|k: int, i: int|
            0 <= k < v@.len() && 0 <= i < v@[k].distribution@.len() ==> staked_targets(
                staked@[k].distribution@,
            ).contains(#[trigger] v@[k].distribution@[i].0),
{
    let s = staked.iter().map(|a| sp_npos_elections::StakedAssignment {
        who: a.who,
        distribution: a.distribution.clone(),
    }).collect::<Vec<_>>();
    sp_npos_elections::assignment_staked_to_ratio_normalized::<AccountId, PerU16>(s).map(|v| v.into_iter().map(|a| RatioAssignment {
        who: a.who,
        distribution: a.distribution.into_iter().map(|(t, p)| (t, p.deconstruct())).collect(),
    }).collect())
}

} // verus!
