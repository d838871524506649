//! Per-validator exposures built from staked assignments, in the chain's balance units.

use vstd::prelude::*;
use crate::assignments::{
    backing_in, edges_of, staked_view, support_in, Edge, lemma_edges_next,
    lemma_edges_step,
};
use crate::election::ElectionOutputs;
use crate::types::{AccountId, Balance, ElectionSnapshot};

verus! {

broadcast use vstd::array::group_array_axioms;

/// One backer of a validator and the stake it contributes.
#[derive(Clone, Copy, Debug, PartialEq, Eq)]
pub struct RuntimeBacker {
    pub who: AccountId,
    pub stake: Balance,
}

/// A validator's exposure: total backing, its own stake and every other backer.
#[derive(Clone, Debug)]
pub struct RuntimeExposure {
    pub validator: AccountId,
    pub total: Balance,
    pub own: Balance,
    pub others: Vec<RuntimeBacker>,
}

/// Exposures, one per validator, in the order in which validators are first backed.
pub type RuntimeExposureMap = Vec<RuntimeExposure>;

/// `x` as a balance, saturating at the largest `u128`.
pub open spec fn sat_balance(x: int) -> Balance {
    if x > u128::MAX as int {
        u128::MAX
    } else {
        x as u128
    }
}

/// Sum of the stakes of a list of backers.
pub open spec fn others_sum(o: Seq<RuntimeBacker>) -> int
    decreases o.len(),
{
    if o.len() == 0 {
        0
    } else {
        others_sum(o.drop_last()) + o.last().stake as int
    }
}

/// The exposure's total is its own stake plus its backers' stakes, saturated.
pub open spec fn exposure_conserves(e: RuntimeExposure) -> bool {
    e.total == sat_balance(e.own as int + others_sum(e.others@))
}

/// The exposure is what the edges give its validator.
pub open spec fn exposure_of_edges(e: RuntimeExposure, es: Seq<Edge>) -> bool {
    let v = e.validator;
    let o = e.others@;
    &&& support_in(es, v) > 0
    &&& e.total == sat_balance(support_in(es, v))
    &&& e.own == sat_balance(backing_in(es, v, v))
    &&& exposure_conserves(e)
    &&& forall|i: int, j: int| 0 <= i < j < o.len() ==> o[i].who != o[j].who
    &&& forall|m: int|
        0 <= m < o.len() ==> (#[trigger] o[m]).who != v && backing_in(es, o[m].who, v) > 0
            && o[m].stake == sat_balance(backing_in(es, o[m].who, v))
}

/// The exposures are exactly those that the edges give: one per backed validator, and
/// each backer of it other than itself listed once.
pub open spec fn exposures_of_edges(r: Seq<RuntimeExposure>, es: Seq<Edge>) -> bool {
    &&& forall|i: int, j: int| 0 <= i < j < r.len() ==> r[i].validator != r[j].validator
    &&& forall|k: int| 0 <= k < r.len() ==> exposure_of_edges(#[trigger] r[k], es)
    &&& forall|v: AccountId|
        #[trigger] support_in(es, v) > 0 ==> exists|k: int| 0 <= k < r.len() && r[k].validator == v
    &&& forall|n: AccountId, v: AccountId|
        n != v && #[trigger] backing_in(es, n, v) > 0 ==> exists|k: int, m: int|
            0 <= k < r.len() && r[k].validator == v && 0 <= m < r[k].others@.len()
                && r[k].others@[m].who == n
}

/// Where the edges first back `v` with positive stake.
pub open spec fn first_backed_at(es: Seq<Edge>, v: AccountId) -> int
    decreases es.len(),
{
    if es.len() == 0 {
        0
    } else if support_in(es.drop_last(), v) > 0 {
        first_backed_at(es.drop_last(), v)
    } else {
        es.len() - 1
    }
}

/// The exposures come in the order in which the edges first back their validators.
pub open spec fn in_backing_order(r: Seq<RuntimeExposure>, es: Seq<Edge>) -> bool {
    forall|a: int, b: int|
        0 <= a < b < r.len() ==> first_backed_at(es, r[a].validator) < first_backed_at(
            es,
            r[b].validator,
        )
}

proof fn lemma_first_backed_bound(es: Seq<Edge>, v: AccountId)
    requires
        support_in(es, v) > 0,
    ensures
        0 <= first_backed_at(es, v) < es.len(),
    decreases es.len(),
{
    if es.len() > 0 && support_in(es.drop_last(), v) > 0 {
        lemma_first_backed_bound(es.drop_last(), v);
    }
}

proof fn lemma_sums_nonneg(es: Seq<Edge>, n: AccountId, v: AccountId)
    ensures
        0 <= backing_in(es, n, v) <= support_in(es, v),
    decreases es.len(),
{
    if es.len() > 0 {
        lemma_sums_nonneg(es.drop_last(), n, v);
    }
}

proof fn lemma_others_sum_update(o: Seq<RuntimeBacker>, m: int, b: RuntimeBacker)
    requires
        0 <= m < o.len(),
    ensures
        others_sum(o.update(m, b)) == others_sum(o) - o[m].stake + b.stake,
    decreases o.len(),
{
    if m == o.len() - 1 {
        assert(o.update(m, b).drop_last() =~= o.drop_last());
    } else {
        lemma_others_sum_update(o.drop_last(), m, b);
        assert(o.update(m, b).drop_last() =~= o.drop_last().update(m, b));
    }
}

proof fn lemma_others_sum_nonneg(o: Seq<RuntimeBacker>)
    ensures
        others_sum(o) >= 0,
    decreases o.len(),
{
    if o.len() > 0 {
        lemma_others_sum_nonneg(o.drop_last());
    }
}

proof fn lemma_push_edge(p: Seq<Edge>, n: AccountId, v: AccountId, s: u128)
    ensures
        forall|x: AccountId| #[trigger]
            support_in(p.push((n, v, s)), x) == support_in(p, x) + if x == v {
                s as int
            } else {
                0
            },
        forall|a: AccountId, b: AccountId| #[trigger]
            backing_in(p.push((n, v, s)), a, b) == backing_in(p, a, b) + if a == n && b == v {
                s as int
            } else {
                0
            },
{
    let q = p.push((n, v, s));
    assert(q.drop_last() =~= p);
    assert forall|x: AccountId| #[trigger]
        support_in(q, x) == support_in(p, x) + if x == v {
            s as int
        } else {
            0
        } by {}
    assert forall|a: AccountId, b: AccountId| #[trigger]
        backing_in(q, a, b) == backing_in(p, a, b) + if a == n && b == v {
            s as int
        } else {
            0
        } by {}
}

/// Starts the exposure of a validator that no earlier edge backed.
fn add_new_exposure(
    map: &mut Vec<RuntimeExposure>,
    n: AccountId,
    v: AccountId,
    s: u128,
    Ghost(p): Ghost<Seq<Edge>>,
)
    requires
        exposures_of_edges(old(map)@, p),
        s > 0,
        forall|i: int| 0 <= i < old(map)@.len() ==> old(map)@[i].validator != v,
    ensures
        exposures_of_edges(final(map)@, p.push((n, v, s))),
        final(map)@.len() == old(map)@.len() + 1,
        forall|i: int| 0 <= i < old(map)@.len() ==> final(map)@[i] == old(map)@[i],
        final(map)@[old(map)@.len() as int].validator == v,
{
    let ghost q = p.push((n, v, s));
    proof {
        lemma_push_edge(p, n, v, s);
        lemma_sums_nonneg(p, n, v);
        lemma_sums_nonneg(p, v, v);
    }
    let mut others: Vec<RuntimeBacker> = Vec::new();
    let mut own: Balance = 0;
    if crate::types::same_account(&n, &v) {
        own = s;
    } else {
        others.push(RuntimeBacker { who: n, stake: s });
    }
    let e = RuntimeExposure { validator: v, total: s, own, others };
    map.push(e);
    proof {
        let r = map@;
        assert forall|x: AccountId| #[trigger] support_in(q, x) > 0 implies exists|i: int|
            0 <= i < r.len() && r[i].validator == x by {
            if x == v {
                assert(r[r.len() - 1].validator == x);
            } else {
                assert(support_in(p, x) > 0);
                let i = choose|i: int| 0 <= i < old(map)@.len() && old(map)@[i].validator == x;
                assert(r[i].validator == x);
            }
        }
        assert forall|a: AccountId, b: AccountId| a != b && #[trigger] backing_in(q, a, b) > 0 implies exists|
            i: int,
            m: int,
        |
            0 <= i < r.len() && r[i].validator == b && 0 <= m < r[i].others@.len()
                && r[i].others@[m].who == a by {
            if a == n && b == v {
                assert(r[r.len() - 1].others@[0].who == a);
            } else {
                assert(backing_in(p, a, b) > 0);
                let (i, m) = choose|i: int, m: int|
                    0 <= i < old(map)@.len() && old(map)@[i].validator == b && 0 <= m
                        < old(map)@[i].others@.len() && old(map)@[i].others@[m].who == a;
                assert(r[i].others@[m].who == a);
            }
        }
        assert forall|i: int| 0 <= i < r.len() implies exposure_of_edges(#[trigger] r[i], q) by {
            if i < r.len() - 1 {
                assert(exposure_of_edges(old(map)@[i], p));
            } else {
                let o = r[i].others@;
                if n != v {
                    assert(o.drop_last() =~= Seq::<RuntimeBacker>::empty());
                    assert(others_sum(o.drop_last()) == 0);
                    assert(others_sum(o) == s);
                    assert(backing_in(q, n, v) == s);
                } else {
                    assert(o.len() == 0);
                }
            }
        }
    }
}

/// Adds one edge to the exposure of the validator it backs.
fn add_to_exposure(e: &mut RuntimeExposure, n: AccountId, v: AccountId, s: u128, Ghost(p): Ghost<Seq<Edge>>)
    requires
        s > 0,
        old(e).validator == v,
        exposure_of_edges(*old(e), p),
        n != v && backing_in(p, n, v) > 0 ==> exists|m: int|
            0 <= m < old(e).others@.len() && old(e).others@[m].who == n,
    ensures
        final(e).validator == v,
        exposure_of_edges(*final(e), p.push((n, v, s))),
        final(e).others@.len() >= old(e).others@.len(),
        forall|m: int| 0 <= m < old(e).others@.len() ==> final(e).others@[m].who == old(e).others@[m].who,
        n != v ==> exists|m: int| 0 <= m < final(e).others@.len() && final(e).others@[m].who == n,
{
    let ghost q = p.push((n, v, s));
    let ghost o0 = e.others@;
    proof {
        lemma_push_edge(p, n, v, s);
        lemma_sums_nonneg(p, n, v);
        lemma_others_sum_nonneg(o0);
    }
    e.total = e.total.saturating_add(s);
    if crate::types::same_account(&n, &v) {
        e.own = e.own.saturating_add(s);
        proof {
            let o = e.others@;
            assert forall|x: int| 0 <= x < o.len() implies (#[trigger] o[x]).who != v
                && backing_in(q, o[x].who, v) > 0 && o[x].stake == sat_balance(
                backing_in(q, o[x].who, v),
            ) by {
                assert(o[x] == o0[x]);
            }
        }
    } else {
        let ghost pre = *e;
        let mut m: usize = 0;
        while m < e.others.len()
            invariant
                *e == pre,
                m <= e.others@.len(),
                forall|i: int| 0 <= i < m ==> e.others@[i].who != n,
            ensures
                m <= e.others@.len(),
                forall|i: int| 0 <= i < m ==> e.others@[i].who != n,
                m < e.others@.len() ==> e.others@[m as int].who == n,
            decreases e.others@.len() - m,
        {
            if crate::types::same_account(&e.others[m].who, &n) {
                break;
            }
            m = m + 1;
        }
        if m == e.others.len() {
            assert(backing_in(p, n, v) == 0);
            e.others.push(RuntimeBacker { who: n, stake: s });
            assert(e.others@.drop_last() =~= o0);
            assert(e.others@[m as int].who == n);
            proof {
                let o = e.others@;
                assert(o =~= o0.push(RuntimeBacker { who: n, stake: s }));
                assert forall|x: int| 0 <= x < o.len() implies (#[trigger] o[x]).who != v
                    && backing_in(q, o[x].who, v) > 0 && o[x].stake == sat_balance(
                    backing_in(q, o[x].who, v),
                ) by {
                    if x < o0.len() {
                        assert(o[x] == o0[x]);
                        assert(o0[x].who != n);
                    } else {
                        assert(backing_in(q, n, v) == s);
                    }
                }
            }
        } else {
            assert(o0[m as int].stake == sat_balance(backing_in(p, n, v)));
            let stake = e.others[m].stake.saturating_add(s);
            e.others.set(m, RuntimeBacker { who: n, stake });
            proof {
                lemma_others_sum_update(o0, m as int, RuntimeBacker { who: n, stake });
            }
            assert(e.others@[m as int].who == n);
            proof {
                let o = e.others@;
                assert forall|x: int| 0 <= x < o.len() implies (#[trigger] o[x]).who != v
                    && backing_in(q, o[x].who, v) > 0 && o[x].stake == sat_balance(
                    backing_in(q, o[x].who, v),
                ) by {
                    if x < o0.len() && o[x].who != n {
                        assert(o[x] == o0[x]);
                    }
                }
            }
        }
    }
}

/// Adds one edge to exposures that match the edges before it.
#[verifier::rlimit(40)]
fn add_edge(
    map: &mut Vec<RuntimeExposure>,
    n: AccountId,
    v: AccountId,
    s: u128,
    Ghost(p): Ghost<Seq<Edge>>,
)
    requires
        exposures_of_edges(old(map)@, p),
        in_backing_order(old(map)@, p),
    ensures
        exposures_of_edges(final(map)@, p.push((n, v, s))),
        in_backing_order(final(map)@, p.push((n, v, s))),
{
    let ghost q = p.push((n, v, s));
    proof {
        lemma_push_edge(p, n, v, s);
        assert(q.drop_last() =~= p);
        assert forall|i: int| 0 <= i < old(map)@.len() implies first_backed_at(
            q,
            #[trigger] old(map)@[i].validator,
        ) == first_backed_at(p, old(map)@[i].validator) && first_backed_at(p, old(map)@[i].validator)
            < p.len() by {
            assert(exposure_of_edges(old(map)@[i], p));
            lemma_first_backed_bound(p, old(map)@[i].validator);
        }
    }
    if s == 0 {
        return;
    }
    let mut k: usize = 0;
    while k < map.len()
        invariant
            k <= map.len(),
            forall|i: int| 0 <= i < k ==> map@[i].validator != v,
        ensures
            k <= map.len(),
            forall|i: int| 0 <= i < k ==> map@[i].validator != v,
            k < map.len() ==> map@[k as int].validator == v,
        decreases map.len() - k,
    {
        if crate::types::same_account(&map[k].validator, &v) {
            break;
        }
        k = k + 1;
    }
    if k == map.len() {
        let ghost before = map@;
        add_new_exposure(map, n, v, s, Ghost(p));
        proof {
            lemma_sums_nonneg(p, n, v);
            assert(support_in(p, v) == 0) by {
                if support_in(p, v) > 0 {
                    let i = choose|i: int| 0 <= i < before.len() && before[i].validator == v;
                }
            }
            assert(first_backed_at(q, v) == p.len());
            let r = map@;
            assert forall|a: int, b: int| 0 <= a < b < r.len() implies first_backed_at(
                q,
                r[a].validator,
            ) < first_backed_at(q, r[b].validator) by {
                assert(r[a] == before[a]);
                if b < before.len() {
                    assert(r[b] == before[b]);
                }
            }
        }
        return;
    }
    let ghost old_map = map@;
    proof {
        assert(exposure_of_edges(old_map[k as int], p));
        if n != v && backing_in(p, n, v) > 0 {
            let (k2, m2) = choose|k2: int, m2: int|
                0 <= k2 < old_map.len() && old_map[k2].validator == v && 0 <= m2
                    < old_map[k2].others@.len() && old_map[k2].others@[m2].who == n;
            assert(k2 == k);
        }
    }
    add_to_exposure(&mut map[k], n, v, s, Ghost(p));
    proof {
        let r = map@;
        assert forall|i: int| 0 <= i < r.len() implies (#[trigger] r[i]).validator == old_map[i].validator by {
            if i != k {
                assert(r[i] == old_map[i]);
            }
        }
        assert forall|i: int| 0 <= i < r.len() implies exposure_of_edges(#[trigger] r[i], q) by {
            if i != k {
                assert(r[i] == old_map[i]);
                assert(exposure_of_edges(old_map[i], p));
            }
        }
        assert forall|x: AccountId| #[trigger] support_in(q, x) > 0 implies exists|i: int|
            0 <= i < r.len() && r[i].validator == x by {
            if x == v {
                assert(r[k as int].validator == x);
            } else {
                assert(support_in(p, x) > 0);
                let i = choose|i: int| 0 <= i < old_map.len() && old_map[i].validator == x;
                assert(r[i].validator == x);
            }
        }
        assert forall|a: AccountId, b: AccountId| a != b && #[trigger] backing_in(q, a, b) > 0 implies exists|
            i: int,
            m: int,
        |
            0 <= i < r.len() && r[i].validator == b && 0 <= m < r[i].others@.len()
                && r[i].others@[m].who == a by {
            if a == n && b == v {
                let o = r[k as int].others@;
                let m = choose|m: int| 0 <= m < o.len() && o[m].who == a;
                assert(r[k as int].others@[m].who == a);
            } else {
                assert(backing_in(p, a, b) > 0);
                let (i, m) = choose|i: int, m: int|
                    0 <= i < old_map.len() && old_map[i].validator == b && 0 <= m
                        < old_map[i].others@.len() && old_map[i].others@[m].who == a;
                assert(r[i].others@[m].who == a);
            }
        }
    }
}

/// Aggregates the staked assignments into one exposure per backed validator: the
/// saturated total directed at it, the stake it gives itself, and every other backer
/// with its saturated stake, merged by identity. Zero shares are skipped.
pub fn build_runtime_exposures_from_staked(
    snapshot: &ElectionSnapshot,
    outputs: &ElectionOutputs,
) -> (r: RuntimeExposureMap)
    ensures
        exposures_of_edges(r@, edges_of(staked_view(outputs.staked_assignments@))),
        in_backing_order(r@, edges_of(staked_view(outputs.staked_assignments@))),
        forall|k: int| 0 <= k < r@.len() ==> exposure_conserves(#[trigger] r@[k]),
        forall|k: int|
            0 <= k < r@.len() ==> (#[trigger] r@[k]).total == sat_balance(
                r@[k].own as int + sat_balance(others_sum(r@[k].others@)) as int,
            ),
{
    let staked = &outputs.staked_assignments;
    let ghost s = staked_view(staked@);
    let mut map: RuntimeExposureMap = Vec::new();
    let mut i: usize = 0;
    while i < staked.len()
        invariant
            i <= staked.len(),
            staked == &outputs.staked_assignments,
            s == staked_view(staked@),
            exposures_of_edges(map@, edges_of(s.take(i as int))),
            in_backing_order(map@, edges_of(s.take(i as int))),
        decreases staked.len() - i,
    {
        let a = &staked[i];
        let mut j: usize = 0;
        proof {
            lemma_edges_next(s, i as int);
        }
        while j < a.distribution.len()
            invariant
                i < staked.len(),
                a == staked@[i as int],
                j <= a.distribution.len(),
                s == staked_view(staked@),
                exposures_of_edges(
                    map@,
                    edges_of(s.take(i as int)) + crate::assignments::dist_edges(
                        s[i as int].0,
                        s[i as int].1.take(j as int),
                    ),
                ),
                in_backing_order(
                    map@,
                    edges_of(s.take(i as int)) + crate::assignments::dist_edges(
                        s[i as int].0,
                        s[i as int].1.take(j as int),
                    ),
                ),
            decreases a.distribution.len() - j,
        {
            proof {
                lemma_edges_step(s, i as int, j as int);
            }
            let ghost pre = edges_of(s.take(i as int)) + crate::assignments::dist_edges(
                s[i as int].0,
                s[i as int].1.take(j as int),
            );
            let (target, share) = a.distribution[j];
            add_edge(&mut map, a.who, target, share, Ghost(pre));
            j = j + 1;
        }
        proof {
            lemma_edges_next(s, i as int);
        }
        i = i + 1;
    }
    assert(s.take(i as int) =~= s);
    proof {
        assert forall|k: int| 0 <= k < map@.len() implies (#[trigger] map@[k]).total == sat_balance(
            map@[k].own as int + sat_balance(others_sum(map@[k].others@)) as int,
        ) by {
            assert(exposure_of_edges(map@[k], edges_of(s)));
            lemma_others_sum_nonneg(map@[k].others@);
        }
    }
    map
}

} // verus!
