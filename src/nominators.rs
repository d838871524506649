//! Nominator-centric views of exposures (nominator to validator to stake), from the
//! recomputation and from the chain, and the per-nominator comparison of the two.

use vstd::prelude::*;
use crate::assignments::{backing_in, Edge};
use crate::exposures::{sat_balance, RuntimeExposure, RuntimeExposureMap};
use crate::types::{AccountId, Balance};

verus! {

broadcast use vstd::array::group_array_axioms;

/// The validators that one nominator backs, each with the stake it directs there.
#[derive(Clone, Debug)]
pub struct NominatorStakes {
    pub nominator: AccountId,
    pub stakes: Vec<(AccountId, Balance)>,
}

/// One entry per nominator, in the order in which the entries first name them; each
/// lists its validators in the order in which the entries first pair them.
pub type NomView = Vec<NominatorStakes>;

/// Chain exposures flattened per validator: each validator with its `(nominator, stake)`
/// backers.
pub type OnchainFlattenedExposures = Vec<(AccountId, Vec<(AccountId, Balance)>)>;

/// How many entries pair nominator `n` with validator `v`.
pub open spec fn pair_count(es: Seq<Edge>, n: AccountId, v: AccountId) -> int
    decreases es.len(),
{
    if es.len() == 0 {
        0
    } else {
        pair_count(es.drop_last(), n, v) + if es.last().0 == n && es.last().1 == v {
            1int
        } else {
            0
        }
    }
}

/// The view holds, for each nominator and validator paired by some entry, the saturated
/// sum of their entries' stakes, and nothing else.
pub open spec fn nom_view_of(view: Seq<NominatorStakes>, es: Seq<Edge>) -> bool {
    &&& forall|i: int, j: int| 0 <= i < j < view.len() ==> view[i].nominator != view[j].nominator
    &&& forall|k: int| 0 <= k < view.len() ==> stakes_of(#[trigger] view[k], es)
    &&& forall|n: AccountId, v: AccountId|
        #[trigger] pair_count(es, n, v) > 0 ==> exists|k: int, m: int|
            0 <= k < view.len() && view[k].nominator == n && 0 <= m < view[k].stakes@.len()
                && view[k].stakes@[m].0 == v
}

/// One nominator's entry agrees with the entries and backs at least one validator.
pub open spec fn stakes_of(e: NominatorStakes, es: Seq<Edge>) -> bool {
    let st = e.stakes@;
    &&& st.len() > 0
    &&& forall|i: int, j: int| 0 <= i < j < st.len() ==> st[i].0 != st[j].0
    &&& forall|m: int|
        0 <= m < st.len() ==> pair_count(es, e.nominator, (#[trigger] st[m]).0) > 0 && st[m].1
            == sat_balance(backing_in(es, e.nominator, st[m].0))
}

/// How many entries name nominator `n`.
pub open spec fn nominator_count(es: Seq<Edge>, n: AccountId) -> int
    decreases es.len(),
{
    if es.len() == 0 {
        0
    } else {
        nominator_count(es.drop_last(), n) + if es.last().0 == n {
            1int
        } else {
            0
        }
    }
}

/// Where the entries first name nominator `n`.
pub open spec fn first_nominated_at(es: Seq<Edge>, n: AccountId) -> int
    decreases es.len(),
{
    if es.len() == 0 {
        0
    } else if nominator_count(es.drop_last(), n) > 0 {
        first_nominated_at(es.drop_last(), n)
    } else {
        es.len() - 1
    }
}

/// Where the entries first pair nominator `n` with validator `v`.
pub open spec fn first_paired_at(es: Seq<Edge>, n: AccountId, v: AccountId) -> int
    decreases es.len(),
{
    if es.len() == 0 {
        0
    } else if pair_count(es.drop_last(), n, v) > 0 {
        first_paired_at(es.drop_last(), n, v)
    } else {
        es.len() - 1
    }
}

/// A nominator's validators come in the order in which the entries first pair them.
pub open spec fn stakes_ordered(e: NominatorStakes, es: Seq<Edge>) -> bool {
    forall|a: int, b: int|
        0 <= a < b < e.stakes@.len() ==> first_paired_at(es, e.nominator, e.stakes@[a].0)
            < first_paired_at(es, e.nominator, e.stakes@[b].0)
}

/// Nominators come in the order in which the entries first name them, and each one's
/// validators in the order in which the entries first pair them.
pub open spec fn nom_view_ordered(view: Seq<NominatorStakes>, es: Seq<Edge>) -> bool {
    &&& forall|a: int, b: int|
        0 <= a < b < view.len() ==> first_nominated_at(es, view[a].nominator) < first_nominated_at(
            es,
            view[b].nominator,
        )
    &&& forall|k: int| 0 <= k < view.len() ==> stakes_ordered(#[trigger] view[k], es)
}

proof fn lemma_first_nominated_bound(es: Seq<Edge>, n: AccountId)
    requires
        nominator_count(es, n) > 0,
    ensures
        0 <= first_nominated_at(es, n) < es.len(),
    decreases es.len(),
{
    if es.len() > 0 && nominator_count(es.drop_last(), n) > 0 {
        lemma_first_nominated_bound(es.drop_last(), n);
    }
}

proof fn lemma_first_paired_bound(es: Seq<Edge>, n: AccountId, v: AccountId)
    requires
        pair_count(es, n, v) > 0,
    ensures
        0 <= first_paired_at(es, n, v) < es.len(),
    decreases es.len(),
{
    if es.len() > 0 && pair_count(es.drop_last(), n, v) > 0 {
        lemma_first_paired_bound(es.drop_last(), n, v);
    }
}

proof fn lemma_nominator_count_covers(es: Seq<Edge>, n: AccountId, v: AccountId)
    ensures
        nominator_count(es, n) >= pair_count(es, n, v),
    decreases es.len(),
{
    if es.len() > 0 {
        lemma_nominator_count_covers(es.drop_last(), n, v);
    }
}

proof fn lemma_nominator_count_pair(es: Seq<Edge>, n: AccountId)
    requires
        nominator_count(es, n) > 0,
    ensures
        exists|v: AccountId| pair_count(es, n, v) > 0,
    decreases es.len(),
{
    let d = es.drop_last();
    if es.last().0 == n {
        lemma_counts_nonneg(d, n, es.last().1);
        assert(pair_count(es, n, es.last().1) > 0);
    } else {
        lemma_nominator_count_pair(d, n);
        let v = choose|v: AccountId| pair_count(d, n, v) > 0;
        lemma_counts_nonneg(d, n, v);
        assert(pair_count(es, n, v) > 0);
    }
}

proof fn lemma_stakes_ordered_push(e: NominatorStakes, p: Seq<Edge>, x: Edge)
    requires
        stakes_of(e, p),
        stakes_ordered(e, p),
    ensures
        stakes_ordered(e, p.push(x)),
        nominator_count(p, e.nominator) > 0,
        first_nominated_at(p.push(x), e.nominator) == first_nominated_at(p, e.nominator),
        first_nominated_at(p, e.nominator) < p.len(),
{
    let q = p.push(x);
    assert(q.drop_last() =~= p);
    let st = e.stakes@;
    assert forall|a: int| 0 <= a < st.len() implies first_paired_at(q, e.nominator, #[trigger] st[a].0)
        == first_paired_at(p, e.nominator, st[a].0) by {
        assert(pair_count(p, e.nominator, st[a].0) > 0);
    }
    assert(pair_count(p, e.nominator, st[0].0) > 0);
    lemma_nominator_count_covers(p, e.nominator, st[0].0);
    lemma_first_nominated_bound(p, e.nominator);
}

/// The entries of one exposure: each other backer, then the validator itself where it
/// has stake of its own.
pub open spec fn exposure_entries(e: RuntimeExposure) -> Seq<Edge> {
    e.others@.map_values(|b: crate::exposures::RuntimeBacker| (b.who, e.validator, b.stake)) + if e.own
        > 0 {
        seq![(e.validator, e.validator, e.own)]
    } else {
        seq![]
    }
}

/// The entries of all exposures, exposure by exposure.
pub open spec fn offline_entries(off: Seq<RuntimeExposure>) -> Seq<Edge>
    decreases off.len(),
{
    if off.len() == 0 {
        seq![]
    } else {
        offline_entries(off.drop_last()) + exposure_entries(off.last())
    }
}

/// The entries of one flattened chain exposure.
pub open spec fn backer_entries(v: AccountId, b: Seq<(AccountId, Balance)>) -> Seq<Edge> {
    b.map_values(|x: (AccountId, Balance)| (x.0, v, x.1))
}

/// The entries of all flattened chain exposures, validator by validator.
pub open spec fn onchain_entries(on: Seq<(AccountId, Vec<(AccountId, Balance)>)>) -> Seq<Edge>
    decreases on.len(),
{
    if on.len() == 0 {
        seq![]
    } else {
        onchain_entries(on.drop_last()) + backer_entries(on.last().0, on.last().1@)
    }
}

proof fn lemma_push_entry(p: Seq<Edge>, n: AccountId, v: AccountId, s: u128)
    ensures
        forall|a: AccountId, b: AccountId| #[trigger]
            backing_in(p.push((n, v, s)), a, b) == backing_in(p, a, b) + if a == n && b == v {
                s as int
            } else {
                0
            },
        forall|a: AccountId, b: AccountId| #[trigger]
            pair_count(p.push((n, v, s)), a, b) == pair_count(p, a, b) + if a == n && b == v {
                1int
            } else {
                0
            },
{
    let q = p.push((n, v, s));
    assert(q.drop_last() =~= p);
    assert forall|a: AccountId, b: AccountId| #[trigger]
        backing_in(q, a, b) == backing_in(p, a, b) + if a == n && b == v {
            s as int
        } else {
            0
        } by {}
    assert forall|a: AccountId, b: AccountId| #[trigger]
        pair_count(q, a, b) == pair_count(p, a, b) + if a == n && b == v {
            1int
        } else {
            0
        } by {}
}

proof fn lemma_counts_nonneg(es: Seq<Edge>, n: AccountId, v: AccountId)
    ensures
        backing_in(es, n, v) >= 0,
        pair_count(es, n, v) >= 0,
        pair_count(es, n, v) == 0 ==> backing_in(es, n, v) == 0,
    decreases es.len(),
{
    if es.len() > 0 {
        lemma_counts_nonneg(es.drop_last(), n, v);
    }
}

/// Adds one entry to the stakes of its nominator.
fn add_to_stakes(e: &mut NominatorStakes, v: AccountId, s: u128, Ghost(p): Ghost<Seq<Edge>>)
    requires
        stakes_of(*old(e), p),
        stakes_ordered(*old(e), p),
        pair_count(p, old(e).nominator, v) > 0 ==> exists|m: int|
            0 <= m < old(e).stakes@.len() && old(e).stakes@[m].0 == v,
    ensures
        final(e).nominator == old(e).nominator,
        stakes_of(*final(e), p.push((old(e).nominator, v, s))),
        stakes_ordered(*final(e), p.push((old(e).nominator, v, s))),
        exists|m: int| 0 <= m < final(e).stakes@.len() && final(e).stakes@[m].0 == v,
        final(e).stakes@.len() >= old(e).stakes@.len(),
        forall|m: int| 0 <= m < old(e).stakes@.len() ==> final(e).stakes@[m].0 == old(e).stakes@[m].0,
{
    let n = e.nominator;
    let ghost q = p.push((n, v, s));
    let ghost st0 = e.stakes@;
    proof {
        lemma_push_entry(p, n, v, s);
        lemma_counts_nonneg(p, n, v);
        assert(q.drop_last() =~= p);
        assert forall|a: int| 0 <= a < st0.len() implies first_paired_at(q, n, #[trigger] st0[a].0)
            == first_paired_at(p, n, st0[a].0) && first_paired_at(p, n, st0[a].0) < p.len() by {
            assert(pair_count(p, n, st0[a].0) > 0);
            lemma_first_paired_bound(p, n, st0[a].0);
        }
    }
    let ghost pre = *e;
    let mut m: usize = 0;
    while m < e.stakes.len()
        invariant
            *e == pre,
            m <= e.stakes@.len(),
            forall|i: int| 0 <= i < m ==> e.stakes@[i].0 != v,
        ensures
            m <= e.stakes@.len(),
            forall|i: int| 0 <= i < m ==> e.stakes@[i].0 != v,
            m < e.stakes@.len() ==> e.stakes@[m as int].0 == v,
        decreases e.stakes@.len() - m,
    {
        if crate::types::same_account(&e.stakes[m].0, &v) {
            break;
        }
        m = m + 1;
    }
    if m == e.stakes.len() {
        e.stakes.push((v, s));
        proof {
            let st = e.stakes@;
            assert(st =~= st0.push((v, s)));
            assert(st[m as int].0 == v);
            assert forall|x: int| 0 <= x < st.len() implies pair_count(q, n, (#[trigger] st[x]).0) > 0
                && st[x].1 == sat_balance(backing_in(q, n, st[x].0)) by {
                if x < st0.len() {
                    assert(st[x] == st0[x]);
                }
            }
            assert(pair_count(p, n, v) == 0);
            assert(first_paired_at(q, n, v) == p.len());
            assert forall|a: int, b: int| 0 <= a < b < st.len() implies first_paired_at(q, n, st[a].0)
                < first_paired_at(q, n, st[b].0) by {
                assert(st[a] == st0[a]);
                if b < st0.len() {
                    assert(st[b] == st0[b]);
                }
            }
        }
    } else {
        let stake = e.stakes[m].1.saturating_add(s);
        e.stakes.set(m, (v, stake));
        proof {
            let st = e.stakes@;
            assert(st[m as int].0 == v);
            assert forall|x: int| 0 <= x < st.len() implies pair_count(q, n, (#[trigger] st[x]).0) > 0
                && st[x].1 == sat_balance(backing_in(q, n, st[x].0)) by {
                if x != m {
                    assert(st[x] == st0[x]);
                }
            }
            assert forall|a: int| 0 <= a < st.len() implies (#[trigger] st[a]).0 == st0[a].0 by {
                if a != m {
                    assert(st[a] == st0[a]);
                }
            }
            assert forall|a: int, b: int| 0 <= a < b < st.len() implies first_paired_at(q, n, st[a].0)
                < first_paired_at(q, n, st[b].0) by {
                assert(st[a].0 == st0[a].0);
                assert(st[b].0 == st0[b].0);
            }
        }
    }
}

/// Adds one entry `(n, v, s)` to a view that agrees with the entries before it.
#[verifier::rlimit(40)]
fn add_entry(view: &mut NomView, n: AccountId, v: AccountId, s: u128, Ghost(p): Ghost<Seq<Edge>>)
    requires
        nom_view_of(old(view)@, p),
        nom_view_ordered(old(view)@, p),
    ensures
        nom_view_of(final(view)@, p.push((n, v, s))),
        nom_view_ordered(final(view)@, p.push((n, v, s))),
{
    let ghost q = p.push((n, v, s));
    proof {
        lemma_push_entry(p, n, v, s);
        assert(q.drop_last() =~= p);
        assert forall|i: int| 0 <= i < old(view)@.len() implies stakes_ordered(
            #[trigger] old(view)@[i],
            q,
        ) && first_nominated_at(q, old(view)@[i].nominator) == first_nominated_at(
            p,
            old(view)@[i].nominator,
        ) && first_nominated_at(p, old(view)@[i].nominator) < p.len() by {
            assert(stakes_of(old(view)@[i], p));
            assert(stakes_ordered(old(view)@[i], p));
            lemma_stakes_ordered_push(old(view)@[i], p, (n, v, s));
        }
    }
    let mut k: usize = 0;
    while k < view.len()
        invariant
            k <= view.len(),
            forall|i: int| 0 <= i < k ==> view@[i].nominator != n,
        ensures
            k <= view.len(),
            forall|i: int| 0 <= i < k ==> view@[i].nominator != n,
            k < view.len() ==> view@[k as int].nominator == n,
        decreases view.len() - k,
    {
        if crate::types::same_account(&view[k].nominator, &n) {
            break;
        }
        k = k + 1;
    }
    let ghost old_view = view@;
    if k == view.len() {
        proof {
            lemma_counts_nonneg(p, n, v);
            assert(pair_count(p, n, v) == 0) by {
                if pair_count(p, n, v) > 0 {
                    let (k2, m2) = choose|k2: int, m2: int|
                        0 <= k2 < old_view.len() && old_view[k2].nominator == n && 0 <= m2
                            < old_view[k2].stakes@.len() && old_view[k2].stakes@[m2].0 == v;
                }
            }
        }
        proof {
            lemma_nominator_count_covers(p, n, v);
            assert(nominator_count(p, n) == 0) by {
                if nominator_count(p, n) > 0 {
                    lemma_nominator_count_pair(p, n);
                    let v2 = choose|v2: AccountId| pair_count(p, n, v2) > 0;
                    let (k2, m2) = choose|k2: int, m2: int|
                        0 <= k2 < old_view.len() && old_view[k2].nominator == n && 0 <= m2
                            < old_view[k2].stakes@.len() && old_view[k2].stakes@[m2].0 == v2;
                }
            }
            assert(first_nominated_at(q, n) == p.len());
        }
        let mut stakes: Vec<(AccountId, Balance)> = Vec::new();
        stakes.push((v, s));
        view.push(NominatorStakes { nominator: n, stakes });
        proof {
            let r = view@;
            assert forall|a: int, b: int| 0 <= a < b < r.len() implies first_nominated_at(
                q,
                r[a].nominator,
            ) < first_nominated_at(q, r[b].nominator) by {
                assert(r[a] == old_view[a]);
                if b < old_view.len() {
                    assert(r[b] == old_view[b]);
                }
            }
            assert forall|i: int| 0 <= i < r.len() implies stakes_ordered(#[trigger] r[i], q) by {
                if i < old_view.len() {
                    assert(r[i] == old_view[i]);
                }
            }
            assert(r[k as int].stakes@[0].0 == v);
            assert forall|i: int| 0 <= i < r.len() implies stakes_of(#[trigger] r[i], q) by {
                if i < k {
                    assert(r[i] == old_view[i]);
                    assert(stakes_of(old_view[i], p));
                }
            }
            assert forall|a: AccountId, b: AccountId| #[trigger] pair_count(q, a, b) > 0 implies exists|
                i: int,
                m: int,
            |
                0 <= i < r.len() && r[i].nominator == a && 0 <= m < r[i].stakes@.len()
                    && r[i].stakes@[m].0 == b by {
                if !(a == n && b == v) {
                    let (i, m) = choose|i: int, m: int|
                        0 <= i < old_view.len() && old_view[i].nominator == a && 0 <= m
                            < old_view[i].stakes@.len() && old_view[i].stakes@[m].0 == b;
                    assert(r[i] == old_view[i]);
                }
            }
        }
    } else {
        proof {
            assert(stakes_of(old_view[k as int], p));
            if pair_count(p, n, v) > 0 {
                let (k2, m2) = choose|k2: int, m2: int|
                    0 <= k2 < old_view.len() && old_view[k2].nominator == n && 0 <= m2
                        < old_view[k2].stakes@.len() && old_view[k2].stakes@[m2].0 == v;
                assert(k2 == k);
            }
        }
        proof {
            assert(stakes_ordered(old_view[k as int], p));
        }
        add_to_stakes(&mut view[k], v, s, Ghost(p));
        proof {
            let r = view@;
            assert forall|i: int| 0 <= i < r.len() implies (#[trigger] r[i]).nominator
                == old_view[i].nominator && stakes_ordered(r[i], q) by {
                if i != k {
                    assert(r[i] == old_view[i]);
                }
            }
            assert forall|a: int, b: int| 0 <= a < b < r.len() implies first_nominated_at(
                q,
                r[a].nominator,
            ) < first_nominated_at(q, r[b].nominator) by {
                assert(r[a].nominator == old_view[a].nominator);
                assert(r[b].nominator == old_view[b].nominator);
            }
            assert forall|i: int| 0 <= i < r.len() implies stakes_of(#[trigger] r[i], q) by {
                if i != k {
                    assert(r[i] == old_view[i]);
                    assert(stakes_of(old_view[i], p));
                }
            }
            assert forall|a: AccountId, b: AccountId| #[trigger] pair_count(q, a, b) > 0 implies exists|
                i: int,
                m: int,
            |
                0 <= i < r.len() && r[i].nominator == a && 0 <= m < r[i].stakes@.len()
                    && r[i].stakes@[m].0 == b by {
                if a == n && b == v {
                    let m = choose|m: int| 0 <= m < r[k as int].stakes@.len() && r[k as int].stakes@[m].0 == v;
                    assert(r[k as int].stakes@[m].0 == b);
                } else {
                    let (i, m) = choose|i: int, m: int|
                        0 <= i < old_view.len() && old_view[i].nominator == a && 0 <= m
                            < old_view[i].stakes@.len() && old_view[i].stakes@[m].0 == b;
                    if i != k {
                        assert(r[i] == old_view[i]);
                    } else {
                        assert(old_view[i].stakes@[m].0 == b);
                        assert(pair_count(p, a, b) > 0);
                        assert(r[i].stakes@[m].0 == b);
                    }
                }
            }
        }
    }
}

/// The entries of an exposure's other backers.
pub open spec fn others_entries(e: RuntimeExposure) -> Seq<Edge> {
    e.others@.map_values(|b: crate::exposures::RuntimeBacker| (b.who, e.validator, b.stake))
}

/// The nominator-centric view of the recomputed exposures: every other backer of a
/// validator, and the validator itself for its own stake where that is positive, with
/// stakes of the same pair added up (saturating).
pub fn build_offline_nom_view(off: &RuntimeExposureMap) -> (r: NomView)
    ensures
        nom_view_of(r@, offline_entries(off@)),
        nom_view_ordered(r@, offline_entries(off@)),
{
    let mut view: NomView = Vec::new();
    let mut i: usize = 0;
    while i < off.len()
        invariant
            i <= off.len(),
            nom_view_of(view@, offline_entries(off@.take(i as int))),
            nom_view_ordered(view@, offline_entries(off@.take(i as int))),
        decreases off.len() - i,
    {
        let e = &off[i];
        let ghost base = offline_entries(off@.take(i as int));
        assert(others_entries(*e).take(0) =~= seq![]);
        assert(base + others_entries(*e).take(0) =~= base);
        let mut j: usize = 0;
        while j < e.others.len()
            invariant
                i < off.len(),
                e == off@[i as int],
                base == offline_entries(off@.take(i as int)),
                j <= e.others.len(),
                nom_view_of(view@, base + others_entries(*e).take(j as int)),
                nom_view_ordered(view@, base + others_entries(*e).take(j as int)),
            decreases e.others.len() - j,
        {
            let b = e.others[j];
            let ghost pre = base + others_entries(*e).take(j as int);
            assert(base + others_entries(*e).take(j + 1) =~= pre.push((b.who, e.validator, b.stake)));
            add_entry(&mut view, b.who, e.validator, b.stake, Ghost(pre));
            j = j + 1;
        }
        let ghost done = base + others_entries(*e).take(j as int);
        assert(others_entries(*e).take(j as int) =~= others_entries(*e));
        assert(off@.take(i + 1).drop_last() =~= off@.take(i as int));
        if e.own > 0 {
            add_entry(&mut view, e.validator, e.validator, e.own, Ghost(done));
            assert(done.push((e.validator, e.validator, e.own)) =~= offline_entries(off@.take(i + 1)));
        } else {
            assert(done =~= offline_entries(off@.take(i + 1)));
        }
        i = i + 1;
    }
    assert(off@.take(i as int) =~= off@);
    view
}

/// The nominator-centric view of flattened chain exposures, with stakes of the same
/// pair added up (saturating).
pub fn build_onchain_nom_view(on: &OnchainFlattenedExposures) -> (r: NomView)
    ensures
        nom_view_of(r@, onchain_entries(on@)),
        nom_view_ordered(r@, onchain_entries(on@)),
{
    let mut view: NomView = Vec::new();
    let mut i: usize = 0;
    while i < on.len()
        invariant
            i <= on.len(),
            nom_view_of(view@, onchain_entries(on@.take(i as int))),
            nom_view_ordered(view@, onchain_entries(on@.take(i as int))),
        decreases on.len() - i,
    {
        let v = on[i].0;
        let backers = &on[i].1;
        let ghost base = onchain_entries(on@.take(i as int));
        assert(backer_entries(v, backers@).take(0) =~= seq![]);
        assert(base + backer_entries(v, backers@).take(0) =~= base);
        let mut j: usize = 0;
        while j < backers.len()
            invariant
                i < on.len(),
                backers == &on@[i as int].1,
                v == on@[i as int].0,
                base == onchain_entries(on@.take(i as int)),
                j <= backers.len(),
                nom_view_of(view@, base + backer_entries(v, backers@).take(j as int)),
                nom_view_ordered(view@, base + backer_entries(v, backers@).take(j as int)),
            decreases backers.len() - j,
        {
            let (nom, stake) = backers[j];
            let ghost pre = base + backer_entries(v, backers@).take(j as int);
            assert(base + backer_entries(v, backers@).take(j + 1) =~= pre.push((nom, v, stake)));
            add_entry(&mut view, nom, v, stake, Ghost(pre));
            j = j + 1;
        }
        assert(backer_entries(v, backers@).take(j as int) =~= backer_entries(v, backers@));
        assert(on@.take(i + 1).drop_last() =~= on@.take(i as int));
        i = i + 1;
    }
    assert(on@.take(i as int) =~= on@);
    view
}

/// One nominator's stakes in the recomputed and the chain views, with their totals.
#[derive(Clone, Debug)]
pub struct NominatorReport {
    pub nominator: AccountId,
    pub offline: Option<Vec<(AccountId, Balance)>>,
    pub onchain: Option<Vec<(AccountId, Balance)>>,
    pub total_offline: Balance,
    pub total_onchain: Balance,
}

/// Sum of the stakes of a list.
pub open spec fn stake_sum(s: Seq<(AccountId, Balance)>) -> int
    decreases s.len(),
{
    if s.len() == 0 {
        0
    } else {
        stake_sum(s.drop_last()) + s.last().1 as int
    }
}

/// The first entry of nominator `who` in the view.
pub open spec fn entry_of(view: Seq<NominatorStakes>, who: AccountId) -> Option<Seq<(AccountId, Balance)>>
    decreases view.len(),
{
    if view.len() == 0 {
        None
    } else {
        match entry_of(view.drop_last(), who) {
            Some(s) => Some(s),
            None => if view.last().nominator == who {
                Some(view.last().stakes@)
            } else {
                None
            },
        }
    }
}

proof fn lemma_stake_sum_nonneg(s: Seq<(AccountId, Balance)>)
    ensures
        stake_sum(s) >= 0,
    decreases s.len(),
{
    if s.len() > 0 {
        lemma_stake_sum_nonneg(s.drop_last());
    }
}

fn lookup(view: &NomView, who: &AccountId) -> (r: Option<Vec<(AccountId, Balance)>>)
    ensures
        match r {
            Some(v) => entry_of(view@, *who) == Some(v@),
            None => entry_of(view@, *who) is None,
        },
{
    let mut i: usize = 0;
    while i < view.len()
        invariant
            i <= view.len(),
            entry_of(view@.take(i as int), *who) is None,
        decreases view.len() - i,
    {
        assert(view@.take(i + 1).drop_last() =~= view@.take(i as int));
        if crate::types::same_account(&view[i].nominator, who) {
            let st = &view[i].stakes;
            let mut c: Vec<(AccountId, Balance)> = Vec::new();
            let mut k: usize = 0;
            while k < st.len()
                invariant
                    k <= st.len(),
                    c@ == st@.take(k as int),
                decreases st.len() - k,
            {
                c.push(st[k]);
                k = k + 1;
                assert(c@ =~= st@.take(k as int));
            }
            assert(st@.take(k as int) =~= st@);
            proof {
                lemma_entry_of_prefix(view@, i as int + 1, *who);
            }
            return Some(c);
        }
        i = i + 1;
    }
    assert(view@.take(i as int) =~= view@);
    None
}

proof fn lemma_entry_of_prefix(view: Seq<NominatorStakes>, i: int, who: AccountId)
    requires
        0 < i <= view.len(),
        entry_of(view.take(i), who) is Some,
    ensures
        entry_of(view, who) == entry_of(view.take(i), who),
    decreases view.len() - i,
{
    if i < view.len() {
        assert(view.take(i + 1).drop_last() =~= view.take(i));
        assert(entry_of(view.take(i + 1), who) == entry_of(view.take(i), who));
        lemma_entry_of_prefix(view, i + 1, who);
    } else {
        assert(view.take(i) =~= view);
    }
}

fn total_of(s: &Option<Vec<(AccountId, Balance)>>) -> (r: Balance)
    ensures
        r == match s {
            Some(v) => sat_balance(stake_sum(v@)),
            None => 0,
        },
{
    match s {
        None => 0,
        Some(v) => {
            let mut total: Balance = 0;
            let mut k: usize = 0;
            while k < v.len()
                invariant
                    k <= v.len(),
                    total == sat_balance(stake_sum(v@.take(k as int))),
                decreases v.len() - k,
            {
                proof {
                    assert(v@.take(k + 1).drop_last() =~= v@.take(k as int));
                    lemma_stake_sum_nonneg(v@.take(k as int));
                }
                total = total.saturating_add(v[k].1);
                k = k + 1;
            }
            assert(v@.take(k as int) =~= v@);
            total
        },
    }
}

/// One nominator's stakes in both views, with their saturated totals.
pub fn debug_nominator(who: &AccountId, offline_nom_view: &NomView, onchain_nom_view: &NomView) -> (r:
    NominatorReport)
    ensures
        r.nominator == *who,
        match r.offline {
            Some(v) => entry_of(offline_nom_view@, *who) == Some(v@),
            None => entry_of(offline_nom_view@, *who) is None,
        },
        match r.onchain {
            Some(v) => entry_of(onchain_nom_view@, *who) == Some(v@),
            None => entry_of(onchain_nom_view@, *who) is None,
        },
        r.total_offline == match entry_of(offline_nom_view@, *who) {
            Some(s) => sat_balance(stake_sum(s)),
            None => 0,
        },
        r.total_onchain == match entry_of(onchain_nom_view@, *who) {
            Some(s) => sat_balance(stake_sum(s)),
            None => 0,
        },
{
    let offline = lookup(offline_nom_view, who);
    let onchain = lookup(onchain_nom_view, who);
    let total_offline = total_of(&offline);
    let total_onchain = total_of(&onchain);
    NominatorReport { nominator: *who, offline, onchain, total_offline, total_onchain }
}

} // verus!
