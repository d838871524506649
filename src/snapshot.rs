//! Building the flat election snapshot from paged chain storage, and the check on the
//! election phase that must pass before any page is read.

use vstd::prelude::*;
use crate::types::{
    copy_voter, voters_view, AccountId, Balance, ElectionSnapshot, VoterSnapshot, VoterView,
};

verus! {

broadcast use vstd::array::group_array_axioms;

/// The phases of the multi-block election, each with the block or page it carries.
#[derive(Clone, Copy, Debug, PartialEq, Eq)]
pub enum Phase {
    Off,
    Snapshot(u32),
    Signed(u32),
    SignedValidation(u32),
    Unsigned(u32),
    Export(u32),
    Done,
    Emergency,
}

/// Why no snapshot was assembled.
#[derive(Clone, Copy, Debug, PartialEq, Eq)]
pub enum SnapshotError {
    /// The election is in a phase whose snapshot is not (or no longer) complete.
    UnstablePhase(Phase),
}

/// The phases in which the stored snapshot is complete and does not change.
pub open spec fn stable_phase(phase: Phase) -> bool {
    match phase {
        Phase::Emergency | Phase::Signed(_) | Phase::SignedValidation(_) | Phase::Unsigned(_)
        | Phase::Export(_) | Phase::Done => true,
        Phase::Off | Phase::Snapshot(_) => false,
    }
}

/// Whether the snapshot may be read in this phase.
pub fn is_snapshot_stable(phase: Phase) -> (r: bool)
    ensures
        r == stable_phase(phase),
{
    match phase {
        Phase::Emergency | Phase::Signed(_) | Phase::SignedValidation(_) | Phase::Unsigned(_)
        | Phase::Export(_) | Phase::Done => true,
        Phase::Off | Phase::Snapshot(_) => false,
    }
}

/// Fails, naming the phase, unless the snapshot may be read in it.
pub fn ensure_phase_allows_snapshot(phase: Phase) -> (r: Result<(), SnapshotError>)
    ensures
        r is Ok <==> stable_phase(phase),
        r is Err ==> r == Err::<(), SnapshotError>(SnapshotError::UnstablePhase(phase)),
{
    if is_snapshot_stable(phase) {
        Ok(())
    } else {
        Err(SnapshotError::UnstablePhase(phase))
    }
}

/// The targets of all pages that exist, page by page; an absent page holds none.
pub open spec fn paged_targets(pages: Seq<Option<Vec<AccountId>>>) -> Seq<AccountId>
    decreases pages.len(),
{
    if pages.len() == 0 {
        seq![]
    } else {
        paged_targets(pages.drop_last()) + match pages.last() {
            Some(p) => p@,
            None => seq![],
        }
    }
}

/// The accounts of `s` without repeats, each where it first occurs.
pub open spec fn first_seen(s: Seq<AccountId>) -> Seq<AccountId>
    decreases s.len(),
{
    if s.len() == 0 {
        seq![]
    } else if s.drop_last().contains(s.last()) {
        first_seen(s.drop_last())
    } else {
        first_seen(s.drop_last()).push(s.last())
    }
}

/// The voters of one page; an absent page holds none.
pub open spec fn page_voters(page: Option<Vec<VoterSnapshot>>) -> Seq<VoterView> {
    match page {
        Some(p) => voters_view(p@),
        None => seq![],
    }
}

/// `first_seen` holds exactly the accounts of its argument.
pub proof fn lemma_first_seen_contains(s: Seq<AccountId>)
    ensures
        forall|x: AccountId| first_seen(s).contains(x) <==> s.contains(x),
        first_seen(s).no_duplicates(),
    decreases s.len(),
{
    if s.len() > 0 {
        lemma_first_seen_contains(s.drop_last());
        let d = s.drop_last();
        assert forall|x: AccountId| s.contains(x) <==> (d.contains(x) || x == s.last()) by {
            if s.contains(x) {
                let i = choose|i: int| 0 <= i < s.len() && s[i] == x;
                if i < s.len() - 1 {
                    assert(d[i] == x);
                }
            }
            if d.contains(x) {
                let i = choose|i: int| 0 <= i < d.len() && d[i] == x;
                assert(s[i] == x);
            }
            if x == s.last() {
                assert(s[s.len() - 1] == x);
            }
        }
        if !d.contains(s.last()) {
            let f = first_seen(d);
            assert forall|x: AccountId| f.push(s.last()).contains(x) <==> (f.contains(x) || x == s.last()) by {
                if f.push(s.last()).contains(x) {
                    let i = choose|i: int| 0 <= i < f.len() + 1 && f.push(s.last())[i] == x;
                    if i < f.len() {
                        assert(f[i] == x);
                    }
                }
                if f.contains(x) {
                    let i = choose|i: int| 0 <= i < f.len() && f[i] == x;
                    assert(f.push(s.last())[i] == x);
                }
                if x == s.last() {
                    assert(f.push(s.last())[f.len() as int] == x);
                }
            }
        }
    }
}

/// Whether `x` occurs in `v`.
pub fn contains_account(v: &Vec<AccountId>, x: &AccountId) -> (r: bool)
    ensures
        r == v@.contains(*x),
{
    let mut i: usize = 0;
    while i < v.len()
        invariant
            i <= v.len(),
            forall|k: int| 0 <= k < i ==> v@[k] != *x,
        decreases v.len() - i,
    {
        if crate::types::same_account(&v[i], x) {
            assert(v@[i as int] == *x);
            return true;
        }
        i = i + 1;
    }
    false
}

/// Builds the snapshot from the records read at block `at`: the target pages are
/// concatenated in page order without repeats, the voter pages are kept page by page
/// (an absent page counts as empty), the issuance defaults to zero and the desired
/// winner count to the number of distinct targets (saturated to `u32`).
pub fn assemble_snapshot(
    at: crate::types::Hash,
    round: u32,
    target_pages: &Vec<Option<Vec<AccountId>>>,
    voter_pages: &Vec<Option<Vec<VoterSnapshot>>>,
    total_issuance: Option<Balance>,
    desired_targets: Option<u32>,
) -> (r: ElectionSnapshot)
    ensures
        r.at == at,
        r.round == round,
        r.total_issuance == match total_issuance {
            Some(b) => b,
            None => 0,
        },
        r.all_targets@ == first_seen(paged_targets(target_pages@)),
        r.voter_pages@.len() == voter_pages@.len(),
        forall|i: int|
            0 <= i < voter_pages@.len() ==> voters_view((#[trigger] r.voter_pages@[i])@)
                == page_voters(voter_pages@[i]),
        r.desired_targets == match desired_targets {
            Some(d) => d,
            None => if r.all_targets@.len() > u32::MAX {
                u32::MAX
            } else {
                r.all_targets@.len() as u32
            },
        },
{
    let mut all_targets: Vec<AccountId> = Vec::new();
    let mut p: usize = 0;
    while p < target_pages.len()
        invariant
            p <= target_pages.len(),
            all_targets@ == first_seen(paged_targets(target_pages@.take(p as int))),
        decreases target_pages.len() - p,
    {
        let ghost before = paged_targets(target_pages@.take(p as int));
        assert(target_pages@.take(p + 1).drop_last() =~= target_pages@.take(p as int));
        match &target_pages[p] {
            Some(page) => {
                let mut k: usize = 0;
                while k < page.len()
                    invariant
                        k <= page.len(),
                        all_targets@ == first_seen(before + page@.take(k as int)),
                    decreases page.len() - k,
                {
                    let ghost s = before + page@.take(k as int);
                    assert((before + page@.take(k + 1)).drop_last() =~= s);
                    assert((before + page@.take(k + 1)).last() == page@[k as int]);
                    proof {
                        lemma_first_seen_contains(s);
                    }
                    if !contains_account(&all_targets, &page[k]) {
                        all_targets.push(page[k]);
                    }
                    k = k + 1;
                }
                assert(page@.take(k as int) =~= page@);
            },
            None => {
                assert(before + seq![] =~= before);
            },
        }
        p = p + 1;
    }
    assert(target_pages@.take(p as int) =~= target_pages@);
    let mut pages: Vec<Vec<VoterSnapshot>> = Vec::new();
    let mut q: usize = 0;
    while q < voter_pages.len()
        invariant
            q <= voter_pages.len(),
            pages@.len() == q,
            forall|i: int|
                0 <= i < q ==> voters_view((#[trigger] pages@[i])@) == page_voters(voter_pages@[i]),
        decreases voter_pages.len() - q,
    {
        let mut this_page: Vec<VoterSnapshot> = Vec::new();
        match &voter_pages[q] {
            Some(page) => {
                let mut k: usize = 0;
                while k < page.len()
                    invariant
                        k <= page.len(),
                        voters_view(this_page@) == voters_view(page@.take(k as int)),
                    decreases page.len() - k,
                {
                    let ghost old_page = this_page@;
                    this_page.push(copy_voter(&page[k]));
                    assert(voters_view(this_page@) =~= voters_view(old_page).push(page@[k as int]@));
                    assert(voters_view(page@.take(k + 1)) =~= voters_view(page@.take(k as int)).push(
                        page@[k as int]@,
                    ));
                    k = k + 1;
                }
                assert(page@.take(k as int) =~= page@);
            },
            None => {
                assert(voters_view(this_page@) =~= seq![]);
            },
        }
        pages.push(this_page);
        q = q + 1;
    }
    let desired = match desired_targets {
        Some(d) => d,
        None => if all_targets.len() > u32::MAX as usize {
            u32::MAX
        } else {
            all_targets.len() as u32
        },
    };
    ElectionSnapshot {
        at,
        round,
        total_issuance: match total_issuance {
            Some(b) => b,
            None => 0,
        },
        desired_targets: desired,
        all_targets,
        voter_pages: pages,
    }
}

} // verus!
