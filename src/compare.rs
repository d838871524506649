//! Set differences between recomputed winners and externally supplied ground truth.

use vstd::prelude::*;
use crate::npos::{winner_ids_of, RawElectionResult};
use crate::snapshot::contains_account;
use crate::exposures::{RuntimeExposure, RuntimeExposureMap};
use crate::nominators::OnchainFlattenedExposures;
use crate::types::{AccountId, Balance, ElectionSnapshot, OfflineWinner, VoteWeight};

verus! {

broadcast use {vstd::array::group_array_axioms, vstd::set::group_set_axioms};

/// Two account collections split into what both hold and what only one holds; each
/// list is free of repeats and keeps the order of first occurrence.
#[derive(Clone, Debug)]
pub struct AccountSetDiff {
    pub both: Vec<AccountId>,
    pub only_left: Vec<AccountId>,
    pub only_right: Vec<AccountId>,
}

/// The diff is exactly the set algebra of the two collections.
pub open spec fn diff_of(d: AccountSetDiff, left: Seq<AccountId>, right: Seq<AccountId>) -> bool {
    &&& d.both@.no_duplicates()
    &&& d.only_left@.no_duplicates()
    &&& d.only_right@.no_duplicates()
    &&& d.both@.to_set() == left.to_set().intersect(right.to_set())
    &&& d.only_left@.to_set() == left.to_set().difference(right.to_set())
    &&& d.only_right@.to_set() == right.to_set().difference(left.to_set())
}

/// Splits `src` into the accounts that `other` holds and those it does not, appending
/// each new account to `inside` (where `keep_inside` asks for them) or `outside`.
fn split_by(
    src: &Vec<AccountId>,
    other: &Vec<AccountId>,
    keep_inside: bool,
    inside: &mut Vec<AccountId>,
    outside: &mut Vec<AccountId>,
)
    requires
        old(inside)@.len() == 0,
        old(outside)@.len() == 0,
    ensures
        final(inside)@.no_duplicates(),
        final(outside)@.no_duplicates(),
        keep_inside ==> final(inside)@.to_set() == src@.to_set().intersect(other@.to_set()),
        !keep_inside ==> final(inside)@.len() == 0,
        final(outside)@.to_set() == src@.to_set().difference(other@.to_set()),
{
    let mut i: usize = 0;
    while i < src.len()
        invariant
            i <= src.len(),
            inside@.no_duplicates(),
            outside@.no_duplicates(),
            keep_inside ==> inside@.to_set() == src@.take(i as int).to_set().intersect(
                other@.to_set(),
            ),
            !keep_inside ==> inside@.len() == 0,
            outside@.to_set() == src@.take(i as int).to_set().difference(other@.to_set()),
        decreases src.len() - i,
    {
        let x = src[i];
        let ghost pre = src@.take(i as int);
        assert(src@.take(i + 1) =~= pre.push(x));
        proof {
            lemma_push_to_set(pre, x);
        }
        if contains_account(other, &x) {
            if keep_inside && !contains_account(inside, &x) {
                let ghost old_in = inside@;
                inside.push(x);
                proof {
                    push_keeps_unique(old_in, x);
                }
            }
            if keep_inside {
                assert(inside@.to_set() =~= src@.take(i + 1).to_set().intersect(other@.to_set()));
            }
            assert(outside@.to_set() =~= src@.take(i + 1).to_set().difference(other@.to_set()));
        } else {
            if !contains_account(outside, &x) {
                let ghost old_out = outside@;
                outside.push(x);
                proof {
                    push_keeps_unique(old_out, x);
                }
            }
            if keep_inside {
                assert(inside@.to_set() =~= src@.take(i + 1).to_set().intersect(other@.to_set()));
            }
            assert(outside@.to_set() =~= src@.take(i + 1).to_set().difference(other@.to_set()));
        }
        i = i + 1;
    }
    assert(src@.take(i as int) =~= src@);
}

/// Appending an account adds it to the set of the list.
proof fn lemma_push_to_set(s: Seq<AccountId>, x: AccountId)
    ensures
        s.push(x).to_set() == s.to_set().insert(x),
{
    s.lemma_push_to_set_commute(x);
}

/// Appending an absent account keeps a list free of repeats and adds it to the set.
proof fn push_keeps_unique(s: Seq<AccountId>, x: AccountId)
    requires
        s.no_duplicates(),
        !s.contains(x),
    ensures
        s.push(x).no_duplicates(),
        s.push(x).to_set() == s.to_set().insert(x),
{
    assert forall|i: int, j: int|
        0 <= i < s.len() + 1 && 0 <= j < s.len() + 1 && i != j implies s.push(x)[i] != s.push(x)[j] by {
        if i == s.len() {
            assert(s[j] != x);
        } else if j == s.len() {
            assert(s[i] != x);
        }
    }
    lemma_push_to_set(s, x);
}

/// Splits two account collections into their intersection and the two differences.
pub fn diff_accounts(left: &Vec<AccountId>, right: &Vec<AccountId>) -> (r: AccountSetDiff)
    ensures
        diff_of(r, left@, right@),
{
    let mut both: Vec<AccountId> = Vec::new();
    let mut only_left: Vec<AccountId> = Vec::new();
    let mut never_filled: Vec<AccountId> = Vec::new();
    let mut only_right: Vec<AccountId> = Vec::new();
    split_by(left, right, true, &mut both, &mut only_left);
    split_by(right, left, false, &mut never_filled, &mut only_right);
    AccountSetDiff { both, only_left, only_right }
}

/// Counts of the validators that both sets hold, that only the recomputed winners hold,
/// and that only the chain holds.
pub fn compare_winners_with_chain(offline: &[AccountId], onchain: &[AccountId]) -> (r: (
    usize,
    usize,
    usize,
))
    ensures
        r.0 == offline@.to_set().intersect(onchain@.to_set()).len(),
        r.1 == offline@.to_set().difference(onchain@.to_set()).len(),
        r.2 == onchain@.to_set().difference(offline@.to_set()).len(),
{
    let d = diff_accounts(&vstd::slice::slice_to_vec(offline), &vstd::slice::slice_to_vec(onchain));
    proof {
        d.both@.unique_seq_to_set();
        d.only_left@.unique_seq_to_set();
        d.only_right@.unique_seq_to_set();
    }
    (d.both.len(), d.only_left.len(), d.only_right.len())
}

/// A recomputed winner that the chain does not hold, with its first rank and backing.
#[derive(Clone, Copy, Debug, PartialEq, Eq)]
pub struct OfflineOnly {
    pub who: AccountId,
    pub rank: usize,
    pub support: u128,
}

/// A chain validator that was not recomputed, and whether it was a candidate at all.
#[derive(Clone, Copy, Debug, PartialEq, Eq)]
pub struct OnchainOnly {
    pub who: AccountId,
    pub in_snapshot: bool,
}

/// The comparison of the recomputed winners with a chain validator set.
#[derive(Clone, Debug)]
pub struct RelayComparison {
    pub matched: usize,
    pub only_offline: Vec<OfflineOnly>,
    pub only_onchain: Vec<OnchainOnly>,
}

pub open spec fn offline_only_ids(s: Seq<OfflineOnly>) -> Seq<AccountId> {
    s.map_values(|e: OfflineOnly| e.who)
}

pub open spec fn onchain_only_ids(s: Seq<OnchainOnly>) -> Seq<AccountId> {
    s.map_values(|e: OnchainOnly| e.who)
}

/// `rank` is where `x` first occurs among the winners.
pub open spec fn first_rank(w: Seq<(AccountId, u128)>, x: AccountId, rank: int) -> bool {
    &&& 0 <= rank < w.len()
    &&& w[rank].0 == x
    &&& forall|k: int| 0 <= k < rank ==> w[k].0 != x
}

fn first_rank_of(w: &Vec<(AccountId, u128)>, x: &AccountId) -> (r: usize)
    requires
        winner_ids_of(w@).contains(*x),
    ensures
        first_rank(w@, *x, r as int),
{
    let ghost j = choose|j: int| 0 <= j < winner_ids_of(w@).len() && winner_ids_of(w@)[j] == *x;
    let mut i: usize = 0;
    while i < w.len()
        invariant
            i <= w.len(),
            0 <= j < w@.len(),
            w@[j].0 == *x,
            forall|k: int| 0 <= k < i ==> w@[k].0 != *x,
        decreases w.len() - i,
    {
        if crate::types::same_account(&w[i].0, x) {
            return i;
        }
        i = i + 1;
    }
    i
}

fn ids_of_winners(w: &Vec<(AccountId, u128)>) -> (r: Vec<AccountId>)
    ensures
        r@ == winner_ids_of(w@),
{
    let mut r: Vec<AccountId> = Vec::new();
    let mut i: usize = 0;
    while i < w.len()
        invariant
            i <= w.len(),
            r@ == winner_ids_of(w@.take(i as int)),
        decreases w.len() - i,
    {
        r.push(w[i].0);
        i = i + 1;
        assert(r@ =~= winner_ids_of(w@.take(i as int)));
    }
    assert(w@.take(i as int) =~= w@);
    r
}

/// Compares the recomputed winners with a chain validator set: how many both hold,
/// each winner that only the recomputation has (with its rank and backing), and each
/// validator that only the chain has (with whether it was a candidate).
pub fn compare_with_relay(
    snapshot: &ElectionSnapshot,
    res: &RawElectionResult,
    onchain_validators: &[AccountId],
) -> (r: RelayComparison)
    ensures
        ({
            let ids = winner_ids_of(res.winners@);
            let on = onchain_validators@;
            &&& r.matched == ids.to_set().intersect(on.to_set()).len()
            &&& offline_only_ids(r.only_offline@).no_duplicates()
            &&& offline_only_ids(r.only_offline@).to_set() == ids.to_set().difference(on.to_set())
            &&& forall|i: int|
                0 <= i < r.only_offline@.len() ==> first_rank(
                    res.winners@,
                    (#[trigger] r.only_offline@[i]).who,
                    r.only_offline@[i].rank as int,
                ) && r.only_offline@[i].support == res.winners@[r.only_offline@[i].rank as int].1
            &&& onchain_only_ids(r.only_onchain@).no_duplicates()
            &&& onchain_only_ids(r.only_onchain@).to_set() == on.to_set().difference(ids.to_set())
            &&& forall|i: int|
                0 <= i < r.only_onchain@.len() ==> (#[trigger] r.only_onchain@[i]).in_snapshot
                    == snapshot.all_targets@.contains(r.only_onchain@[i].who)
        }),
{
    let ids = ids_of_winners(&res.winners);
    let on = vstd::slice::slice_to_vec(onchain_validators);
    let d = diff_accounts(&ids, &on);
    proof {
        d.both@.unique_seq_to_set();
    }
    let mut only_offline: Vec<OfflineOnly> = Vec::new();
    let mut i: usize = 0;
    while i < d.only_left.len()
        invariant
            i <= d.only_left.len(),
            diff_of(d, ids@, on@),
            on@ == onchain_validators@,
            ids@ == winner_ids_of(res.winners@),
            offline_only_ids(only_offline@) == d.only_left@.take(i as int),
            forall|k: int|
                0 <= k < only_offline@.len() ==> first_rank(
                    res.winners@,
                    (#[trigger] only_offline@[k]).who,
                    only_offline@[k].rank as int,
                ) && only_offline@[k].support == res.winners@[only_offline@[k].rank as int].1,
        decreases d.only_left.len() - i,
    {
        let who = d.only_left[i];
        assert(d.only_left@.to_set().contains(who));
        let rank = first_rank_of(&res.winners, &who);
        let ghost prev = only_offline@;
        only_offline.push(OfflineOnly { who, rank, support: res.winners[rank].1 });
        proof {
            assert(offline_only_ids(only_offline@) =~= offline_only_ids(prev).push(who));
            assert(d.only_left@.take(i + 1) =~= d.only_left@.take(i as int).push(who));
        }
        i = i + 1;
    }
    assert(d.only_left@.take(i as int) =~= d.only_left@);
    let mut only_onchain: Vec<OnchainOnly> = Vec::new();
    let mut j: usize = 0;
    while j < d.only_right.len()
        invariant
            j <= d.only_right.len(),
            onchain_only_ids(only_onchain@) == d.only_right@.take(j as int),
            forall|k: int|
                0 <= k < only_onchain@.len() ==> (#[trigger] only_onchain@[k]).in_snapshot
                    == snapshot.all_targets@.contains(only_onchain@[k].who),
        decreases d.only_right.len() - j,
    {
        let who = d.only_right[j];
        let in_snapshot = contains_account(&snapshot.all_targets, &who);
        let ghost prev = only_onchain@;
        only_onchain.push(OnchainOnly { who, in_snapshot });
        proof {
            assert(onchain_only_ids(only_onchain@) =~= onchain_only_ids(prev).push(who));
            assert(d.only_right@.take(j + 1) =~= d.only_right@.take(j as int).push(who));
        }
        j = j + 1;
    }
    assert(d.only_right@.take(j as int) =~= d.only_right@);
    RelayComparison { matched: d.both.len(), only_offline, only_onchain }
}

/// A recomputed winner that the chain does not hold, with its rank, its support and
/// the ranks `first..=last` of its neighbourhood (three on each side where they exist).
#[derive(Clone, Copy, Debug, PartialEq, Eq)]
pub struct BoundaryEntry {
    pub who: AccountId,
    pub rank: usize,
    pub support: VoteWeight,
    pub first: usize,
    pub last: usize,
}

/// The winners that only one side holds, around the boundary of the elected set.
#[derive(Clone, Debug)]
pub struct BoundaryReport {
    pub only_offline: Vec<BoundaryEntry>,
    pub only_onchain: Vec<AccountId>,
}

pub open spec fn validator_ids(w: Seq<OfflineWinner>) -> Seq<AccountId> {
    w.map_values(|x: OfflineWinner| x.validator)
}

pub open spec fn boundary_ids(s: Seq<BoundaryEntry>) -> Seq<AccountId> {
    s.map_values(|e: BoundaryEntry| e.who)
}

/// `rank` is where `x` last occurs among the winners.
pub open spec fn last_rank(w: Seq<OfflineWinner>, x: AccountId, rank: int) -> bool {
    &&& 0 <= rank < w.len()
    &&& w[rank].validator == x
    &&& forall|k: int| rank < k < w.len() ==> w[k].validator != x
}

/// The entry of `x` at `rank` among `n` winners, with its neighbourhood.
pub open spec fn boundary_entry_of(e: BoundaryEntry, w: Seq<OfflineWinner>) -> bool {
    &&& last_rank(w, e.who, e.rank as int)
    &&& e.support == w[e.rank as int].support
    &&& e.first == if e.rank >= 3 { e.rank - 3 } else { 0 }
    &&& e.last == if e.rank + 3 <= w.len() - 1 { e.rank + 3 } else { w.len() - 1 }
}

fn ids_of_validators(w: &[OfflineWinner]) -> (r: Vec<AccountId>)
    ensures
        r@ == validator_ids(w@),
{
    let mut r: Vec<AccountId> = Vec::new();
    let mut i: usize = 0;
    while i < w.len()
        invariant
            i <= w.len(),
            r@ == validator_ids(w@.take(i as int)),
        decreases w.len() - i,
    {
        r.push(w[i].validator);
        i = i + 1;
        assert(r@ =~= validator_ids(w@.take(i as int)));
    }
    assert(w@.take(i as int) =~= w@);
    r
}

fn boundary_entry(w: &[OfflineWinner], x: &AccountId) -> (r: BoundaryEntry)
    requires
        validator_ids(w@).contains(*x),
    ensures
        r.who == *x,
        boundary_entry_of(r, w@),
{
    let ghost j = choose|j: int| 0 <= j < validator_ids(w@).len() && validator_ids(w@)[j] == *x;
    let mut i: usize = w.len();
    while i > 0
        invariant
            i <= w.len(),
            0 <= j < w@.len(),
            w@[j].validator == *x,
            forall|k: int| i <= k < w@.len() ==> w@[k].validator != *x,
        decreases i,
    {
        if crate::types::same_account(&w[i - 1].validator, x) {
            let rank = i - 1;
            let first = if rank >= 3 { rank - 3 } else { 0 };
            let last = if w.len() - 1 - rank >= 3 { rank + 3 } else { w.len() - 1 };
            return BoundaryEntry { who: *x, rank, support: w[rank].support, first, last };
        }
        i = i - 1;
    }
    BoundaryEntry { who: *x, rank: 0, support: 0, first: 0, last: 0 }
}

/// Lists the recomputed winners that the chain does not hold, each with its last rank,
/// its support and the ranks of its neighbours, and the chain validators that were not
/// recomputed.
pub fn debug_boundary_ranks(
    offline_winners: &[OfflineWinner],
    onchain_validators: &[AccountId],
) -> (r: BoundaryReport)
    ensures
        ({
            let ids = validator_ids(offline_winners@);
            let on = onchain_validators@;
            &&& boundary_ids(r.only_offline@).no_duplicates()
            &&& boundary_ids(r.only_offline@).to_set() == ids.to_set().difference(on.to_set())
            &&& forall|i: int|
                0 <= i < r.only_offline@.len() ==> boundary_entry_of(
                    #[trigger] r.only_offline@[i],
                    offline_winners@,
                )
            &&& r.only_onchain@.no_duplicates()
            &&& r.only_onchain@.to_set() == on.to_set().difference(ids.to_set())
        }),
{
    let ids = ids_of_validators(offline_winners);
    let on = vstd::slice::slice_to_vec(onchain_validators);
    let d = diff_accounts(&ids, &on);
    let mut only_offline: Vec<BoundaryEntry> = Vec::new();
    let mut i: usize = 0;
    while i < d.only_left.len()
        invariant
            i <= d.only_left.len(),
            diff_of(d, ids@, on@),
            on@ == onchain_validators@,
            ids@ == validator_ids(offline_winners@),
            boundary_ids(only_offline@) == d.only_left@.take(i as int),
            forall|k: int|
                0 <= k < only_offline@.len() ==> boundary_entry_of(
                    #[trigger] only_offline@[k],
                    offline_winners@,
                ),
        decreases d.only_left.len() - i,
    {
        let who = d.only_left[i];
        assert(d.only_left@.to_set().contains(who));
        let e = boundary_entry(offline_winners, &who);
        let ghost prev = only_offline@;
        only_offline.push(e);
        proof {
            assert(boundary_ids(only_offline@) =~= boundary_ids(prev).push(who));
            assert(d.only_left@.take(i + 1) =~= d.only_left@.take(i as int).push(who));
        }
        i = i + 1;
    }
    assert(d.only_left@.take(i as int) =~= d.only_left@);
    BoundaryReport { only_offline, only_onchain: d.only_right }
}

/// A nominator that backs a validator on both sides with different stakes.
#[derive(Clone, Copy, Debug, PartialEq, Eq)]
pub struct StakeMismatch {
    pub who: AccountId,
    pub offline: Balance,
    pub onchain: Balance,
}

/// The comparison of one validator's recomputed backers with its chain backers, with
/// the number of distinct backers on each side.
#[derive(Clone, Debug)]
pub struct NominatorSetComparison {
    pub diff: AccountSetDiff,
    pub stake_mismatches: Vec<StakeMismatch>,
    pub offline_count: usize,
    pub onchain_count: usize,
}

/// A set is the disjoint union of its part inside and its part outside another set.
proof fn lemma_split_count(d: AccountSetDiff, left: Seq<AccountId>, right: Seq<AccountId>)
    requires
        diff_of(d, left, right),
    ensures
        d.both@.len() + d.only_left@.len() == left.to_set().len(),
        d.both@.len() + d.only_right@.len() == right.to_set().len(),
        left.to_set().len() <= left.len(),
        right.to_set().len() <= right.len(),
{
    let l = left.to_set();
    let r = right.to_set();
    left.lemma_cardinality_of_set();
    right.lemma_cardinality_of_set();
    vstd::seq_lib::seq_to_set_is_finite(left);
    vstd::seq_lib::seq_to_set_is_finite(right);
    d.both@.unique_seq_to_set();
    d.only_left@.unique_seq_to_set();
    d.only_right@.unique_seq_to_set();
    assert(l.intersect(r) + l.difference(r) =~= l);
    assert(r.intersect(l) + r.difference(l) =~= r);
    assert(l.intersect(r) =~= r.intersect(l));
    vstd::set_lib::lemma_set_disjoint_lens(l.intersect(r), l.difference(r));
    vstd::set_lib::lemma_set_disjoint_lens(r.intersect(l), r.difference(l));
}

/// The stake listed first for `who`, or zero where it is not listed.
pub open spec fn listed_stake(s: Seq<(AccountId, Balance)>, who: AccountId) -> Balance
    decreases s.len(),
{
    if s.len() == 0 {
        0
    } else if s[0].0 == who {
        s[0].1
    } else {
        listed_stake(s.drop_first(), who)
    }
}

/// For each account that both sides hold, in order, its two stakes where they differ.
pub open spec fn mismatches_of(
    both: Seq<AccountId>,
    off: Seq<(AccountId, Balance)>,
    on: Seq<(AccountId, Balance)>,
) -> Seq<StakeMismatch>
    decreases both.len(),
{
    if both.len() == 0 {
        seq![]
    } else {
        let x = both.last();
        let rest = mismatches_of(both.drop_last(), off, on);
        if listed_stake(off, x) != listed_stake(on, x) {
            rest.push(StakeMismatch { who: x, offline: listed_stake(off, x), onchain: listed_stake(on, x) })
        } else {
            rest
        }
    }
}

/// The comparison of an exposure's other backers with a chain backer list.
pub open spec fn nominator_comparison_of(
    c: NominatorSetComparison,
    off: RuntimeExposure,
    on: Seq<(AccountId, Balance)>,
) -> bool {
    &&& diff_of(c.diff, pair_ids(backer_pairs(off)), pair_ids(on))
    &&& c.stake_mismatches@ == mismatches_of(c.diff.both@, backer_pairs(off), on)
    &&& c.offline_count == pair_ids(backer_pairs(off)).to_set().len()
    &&& c.onchain_count == pair_ids(on).to_set().len()
}

/// The other backers of an exposure as `(who, stake)` pairs.
pub open spec fn backer_pairs(e: RuntimeExposure) -> Seq<(AccountId, Balance)> {
    e.others@.map_values(|b: crate::exposures::RuntimeBacker| (b.who, b.stake))
}

pub open spec fn pair_ids(s: Seq<(AccountId, Balance)>) -> Seq<AccountId> {
    s.map_values(|x: (AccountId, Balance)| x.0)
}

fn stake_listed(s: &Vec<(AccountId, Balance)>, who: &AccountId) -> (r: Balance)
    ensures
        r == listed_stake(s@, *who),
{
    let mut i: usize = 0;
    assert(s@.skip(0) =~= s@);
    while i < s.len()
        invariant
            i <= s.len(),
            listed_stake(s@, *who) == listed_stake(s@.skip(i as int), *who),
        decreases s.len() - i,
    {
        assert(s@.skip(i as int).drop_first() =~= s@.skip(i + 1));
        if crate::types::same_account(&s[i].0, who) {
            return s[i].1;
        }
        i = i + 1;
    }
    0
}

fn pairs_ids(s: &Vec<(AccountId, Balance)>) -> (r: Vec<AccountId>)
    ensures
        r@ == pair_ids(s@),
        r@.len() <= usize::MAX,
{
    let mut r: Vec<AccountId> = Vec::new();
    let mut i: usize = 0;
    while i < s.len()
        invariant
            i <= s.len(),
            r@ == pair_ids(s@.take(i as int)),
        decreases s.len() - i,
    {
        r.push(s[i].0);
        i = i + 1;
        assert(r@ =~= pair_ids(s@.take(i as int)));
    }
    assert(s@.take(i as int) =~= s@);
    r
}

/// Compares a validator's recomputed backers with its backers on chain: who is on both
/// sides or on one only, and, for those on both, every stake that differs.
pub fn compare_nominator_sets(off: &RuntimeExposure, onchain_backers: &Vec<(AccountId, Balance)>) -> (r:
    NominatorSetComparison)
    ensures
        nominator_comparison_of(r, *off, onchain_backers@),
{
    let mut off_pairs: Vec<(AccountId, Balance)> = Vec::new();
    let mut i: usize = 0;
    while i < off.others.len()
        invariant
            i <= off.others.len(),
            off_pairs@ == backer_pairs(*off).take(i as int),
        decreases off.others.len() - i,
    {
        off_pairs.push((off.others[i].who, off.others[i].stake));
        i = i + 1;
        assert(off_pairs@ =~= backer_pairs(*off).take(i as int));
    }
    assert(backer_pairs(*off).take(i as int) =~= backer_pairs(*off));
    let off_ids = pairs_ids(&off_pairs);
    let on_ids = pairs_ids(onchain_backers);
    let diff = diff_accounts(&off_ids, &on_ids);
    let mut stake_mismatches: Vec<StakeMismatch> = Vec::new();
    let mut k: usize = 0;
    while k < diff.both.len()
        invariant
            k <= diff.both.len(),
            off_pairs@ == backer_pairs(*off),
            stake_mismatches@ == mismatches_of(diff.both@.take(k as int), off_pairs@, onchain_backers@),
        decreases diff.both.len() - k,
    {
        let who = diff.both[k];
        assert(diff.both@.take(k + 1).drop_last() =~= diff.both@.take(k as int));
        let a = stake_listed(&off_pairs, &who);
        let b = stake_listed(onchain_backers, &who);
        if a != b {
            stake_mismatches.push(StakeMismatch { who, offline: a, onchain: b });
        }
        k = k + 1;
    }
    assert(diff.both@.take(k as int) =~= diff.both@);
    proof {
        lemma_split_count(diff, off_ids@, on_ids@);
    }
    let offline_count = diff.both.len() + diff.only_left.len();
    let onchain_count = diff.both.len() + diff.only_right.len();
    NominatorSetComparison { diff, stake_mismatches, offline_count, onchain_count }
}

/// The chain's summary of one validator's exposure in an era.
#[derive(Clone, Copy, Debug, PartialEq, Eq)]
pub struct ExposureOverview {
    pub total: Balance,
    pub own: Balance,
    pub nominator_count: u32,
    pub page_count: u32,
}

/// One recomputed exposure held against the chain. Without a chain overview the
/// validator counts as a mismatch and nothing else is compared.
#[derive(Clone, Debug)]
pub struct ValidatorExposureComparison {
    pub validator: AccountId,
    pub overview: Option<ExposureOverview>,
    pub backers: Option<NominatorSetComparison>,
    /// The chain's distinct backers agree in number with its overview.
    pub count_matches: bool,
    /// How many backers only the chain has are voters of the snapshot.
    pub only_onchain_in_snapshot: usize,
    /// Both sides have the same set of backers.
    pub matched: bool,
}

/// All recomputed exposures held against the chain, with the tally of matches.
#[derive(Clone, Debug)]
pub struct ExposureComparison {
    pub validators: Vec<ValidatorExposureComparison>,
    pub matched: usize,
    pub mismatched: usize,
}

/// The overview listed first for validator `v`.
pub open spec fn overview_listed(ov: Seq<(AccountId, ExposureOverview)>, v: AccountId) -> Option<ExposureOverview>
    decreases ov.len(),
{
    if ov.len() == 0 {
        None
    } else if ov[0].0 == v {
        Some(ov[0].1)
    } else {
        overview_listed(ov.drop_first(), v)
    }
}

/// The backers listed first for validator `v` on chain, none where it is not listed.
pub open spec fn backers_listed(on: Seq<(AccountId, Vec<(AccountId, Balance)>)>, v: AccountId) -> Seq<(AccountId, Balance)>
    decreases on.len(),
{
    if on.len() == 0 {
        seq![]
    } else if on[0].0 == v {
        on[0].1@
    } else {
        backers_listed(on.drop_first(), v)
    }
}

/// How many entries of `s` the list `among` holds.
pub open spec fn count_among(s: Seq<AccountId>, among: Seq<AccountId>) -> int
    decreases s.len(),
{
    if s.len() == 0 {
        0
    } else {
        count_among(s.drop_last(), among) + if among.contains(s.last()) {
            1int
        } else {
            0
        }
    }
}

/// The comparison of exposure `off` with the chain's overviews and backers.
pub open spec fn validator_comparison_of(
    c: ValidatorExposureComparison,
    off: RuntimeExposure,
    on: Seq<(AccountId, Vec<(AccountId, Balance)>)>,
    ov: Seq<(AccountId, ExposureOverview)>,
    voters: Seq<AccountId>,
) -> bool {
    &&& c.validator == off.validator
    &&& c.overview == overview_listed(ov, off.validator)
    &&& match c.overview {
        None => c.backers is None && !c.matched,
        Some(o) => match c.backers {
            None => false,
            Some(b) => {
                &&& nominator_comparison_of(b, off, backers_listed(on, off.validator))
                &&& c.count_matches == (b.onchain_count == o.nominator_count as int)
                &&& c.matched == (b.diff.only_left@.len() == 0 && b.diff.only_right@.len() == 0)
                &&& c.only_onchain_in_snapshot == count_among(b.diff.only_right@, voters)
            },
        },
    }
}

/// How many of the comparisons matched.
pub open spec fn matched_count(cs: Seq<ValidatorExposureComparison>) -> int
    decreases cs.len(),
{
    if cs.len() == 0 {
        0
    } else {
        matched_count(cs.drop_last()) + if cs.last().matched {
            1int
        } else {
            0
        }
    }
}

fn find_overview(ov: &Vec<(AccountId, ExposureOverview)>, v: &AccountId) -> (r: Option<ExposureOverview>)
    ensures
        r == overview_listed(ov@, *v),
{
    let mut i: usize = 0;
    assert(ov@.skip(0) =~= ov@);
    while i < ov.len()
        invariant
            i <= ov.len(),
            overview_listed(ov@, *v) == overview_listed(ov@.skip(i as int), *v),
        decreases ov.len() - i,
    {
        assert(ov@.skip(i as int).drop_first() =~= ov@.skip(i + 1));
        if crate::types::same_account(&ov[i].0, v) {
            return Some(ov[i].1);
        }
        i = i + 1;
    }
    None
}

fn find_backers(on: &OnchainFlattenedExposures, v: &AccountId) -> (r: Vec<(AccountId, Balance)>)
    ensures
        r@ == backers_listed(on@, *v),
{
    let mut i: usize = 0;
    assert(on@.skip(0) =~= on@);
    while i < on.len()
        invariant
            i <= on.len(),
            backers_listed(on@, *v) == backers_listed(on@.skip(i as int), *v),
        decreases on.len() - i,
    {
        assert(on@.skip(i as int).drop_first() =~= on@.skip(i + 1));
        if crate::types::same_account(&on[i].0, v) {
            let b = &on[i].1;
            let mut c: Vec<(AccountId, Balance)> = Vec::new();
            let mut k: usize = 0;
            while k < b.len()
                invariant
                    k <= b.len(),
                    c@ == b@.take(k as int),
                decreases b.len() - k,
            {
                c.push(b[k]);
                k = k + 1;
                assert(c@ =~= b@.take(k as int));
            }
            assert(b@.take(k as int) =~= b@);
            return c;
        }
        i = i + 1;
    }
    Vec::new()
}

fn count_in(s: &Vec<AccountId>, among: &Vec<AccountId>) -> (r: usize)
    ensures
        r == count_among(s@, among@),
{
    let mut n: usize = 0;
    let mut i: usize = 0;
    while i < s.len()
        invariant
            i <= s.len(),
            n == count_among(s@.take(i as int), among@),
            n <= i,
        decreases s.len() - i,
    {
        assert(s@.take(i + 1).drop_last() =~= s@.take(i as int));
        if contains_account(among, &s[i]) {
            n = n + 1;
        }
        i = i + 1;
    }
    assert(s@.take(i as int) =~= s@);
    n
}

/// Holds each recomputed exposure against the chain: its overview (a validator without
/// one counts as a mismatch), the comparison of its backers, whether the chain's
/// backer count agrees with its overview, and how many chain-only backers are voters of
/// the snapshot; then tallies matched and mismatched validators.
pub fn compare_exposures(
    offline: &RuntimeExposureMap,
    onchain: &OnchainFlattenedExposures,
    overviews: &Vec<(AccountId, ExposureOverview)>,
    snapshot_voters: &Vec<AccountId>,
) -> (r: ExposureComparison)
    ensures
        r.validators@.len() == offline@.len(),
        forall|k: int|
            0 <= k < offline@.len() ==> validator_comparison_of(
                #[trigger] r.validators@[k],
                offline@[k],
                onchain@,
                overviews@,
                snapshot_voters@,
            ),
        r.matched == matched_count(r.validators@),
        r.matched + r.mismatched == offline@.len(),
{
    let mut validators: Vec<ValidatorExposureComparison> = Vec::new();
    let mut matched: usize = 0;
    let mut k: usize = 0;
    while k < offline.len()
        invariant
            k <= offline.len(),
            validators@.len() == k,
            matched == matched_count(validators@),
            matched <= k,
            forall|x: int|
                0 <= x < k ==> validator_comparison_of(
                    #[trigger] validators@[x],
                    offline@[x],
                    onchain@,
                    overviews@,
                    snapshot_voters@,
                ),
        decreases offline.len() - k,
    {
        let exp = &offline[k];
        let v = exp.validator;
        let overview = find_overview(overviews, &v);
        let c = match overview {
            None => ValidatorExposureComparison {
                validator: v,
                overview: None,
                backers: None,
                count_matches: false,
                only_onchain_in_snapshot: 0,
                matched: false,
            },
            Some(o) => {
                let on_backers = find_backers(onchain, &v);
                let b = compare_nominator_sets(exp, &on_backers);
                let count_matches = b.onchain_count == o.nominator_count as usize;
                let is_matched = b.diff.only_left.len() == 0 && b.diff.only_right.len() == 0;
                let in_snapshot = count_in(&b.diff.only_right, snapshot_voters);
                ValidatorExposureComparison {
                    validator: v,
                    overview: Some(o),
                    backers: Some(b),
                    count_matches,
                    only_onchain_in_snapshot: in_snapshot,
                    matched: is_matched,
                }
            },
        };
        let ghost prev = validators@;
        if c.matched {
            matched = matched + 1;
        }
        validators.push(c);
        assert(validators@.drop_last() =~= prev);
        k = k + 1;
    }
    ExposureComparison { validators, matched, mismatched: offline.len() - matched }
}

} // verus!
