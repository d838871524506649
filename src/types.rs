//! Core value types shared by every stage of the pipeline.

use vstd::prelude::*;

verus! {

broadcast use vstd::array::group_array_axioms;

/// 32-byte block hash.
pub type Hash = [u8; 32];

/// 32-byte account identity; equality is byte-exact.
pub type AccountId = [u8; 32];

/// The chain's native stake unit.
pub type Balance = u128;

/// Stake unit used inside the election computation.
pub type VoteWeight = u64;

/// One voter of the snapshot: `(who, weight, targets)`, targets in nomination order.
#[derive(Clone, Debug)]
pub struct VoterSnapshot {
    pub who: AccountId,
    pub weight: VoteWeight,
    pub targets: Vec<AccountId>,
}

/// Mathematical form of a voter: identity, weight and the nominated targets.
pub type VoterView = (AccountId, VoteWeight, Seq<AccountId>);

impl View for VoterSnapshot {
    type V = VoterView;

    open spec fn view(&self) -> VoterView {
        (self.who, self.weight, self.targets@)
    }
}

/// The flat election input, as read at one block.
#[derive(Clone, Debug)]
pub struct ElectionSnapshot {
    /// Block hash at which the snapshot was read.
    pub at: Hash,
    /// Election round index.
    pub round: u32,
    /// Total issuance at that block.
    pub total_issuance: Balance,
    /// Desired number of winners for this round.
    pub desired_targets: u32,
    /// All candidate targets, deduplicated, in first-seen order.
    pub all_targets: Vec<AccountId>,
    /// Voters, page by page, in page order.
    pub voter_pages: Vec<Vec<VoterSnapshot>>,
}

/// A recomputed winner with its support in vote-weight units.
#[derive(Clone, Debug)]
pub struct OfflineWinner {
    pub validator: AccountId,
    pub support: VoteWeight,
    pub backers: Vec<OfflineBacker>,
}

/// One backer of an [`OfflineWinner`].
#[derive(Clone, Copy, Debug, PartialEq, Eq)]
pub struct OfflineBacker {
    pub who: AccountId,
    pub weight: VoteWeight,
}

/// The view of a sequence of voters.
pub open spec fn voters_view(v: Seq<VoterSnapshot>) -> Seq<VoterView> {
    v.map_values(|x: VoterSnapshot| x@)
}

/// All voters of all pages: page by page, then in page order.
pub open spec fn flat_voters(pages: Seq<Vec<VoterSnapshot>>) -> Seq<VoterView>
    decreases pages.len(),
{
    if pages.len() == 0 {
        seq![]
    } else {
        flat_voters(pages.drop_last()) + voters_view(pages.last()@)
    }
}

/// `b` as a vote weight, saturating at the largest `u64`.
pub open spec fn vote_weight_of(b: int) -> VoteWeight {
    if b > u64::MAX as int {
        u64::MAX
    } else {
        b as u64
    }
}

/// Saturating conversion of a balance into a vote weight.
pub fn balance_to_vote_weight(b: Balance) -> (r: VoteWeight)
    ensures
        r == vote_weight_of(b as int),
{
    if b > u64::MAX as u128 {
        u64::MAX
    } else {
        b as u64
    }
}

/// Byte-exact equality of two account identities.
pub fn same_account(a: &AccountId, b: &AccountId) -> (r: bool)
    ensures
        r == (*a == *b),
{
    let mut i: usize = 0;
    while i < 32
        invariant
            i <= 32,
            forall|k: int| 0 <= k < i ==> a[k] == b[k],
        decreases 32 - i,
    {
        if a[i] != b[i] {
            return false;
        }
        i = i + 1;
    }
    assert(*a =~= *b);
    true
}

/// A copy of a list of accounts.
pub fn copy_accounts(v: &Vec<AccountId>) -> (r: Vec<AccountId>)
    ensures
        r@ == v@,
{
    let mut r: Vec<AccountId> = Vec::new();
    let mut i: usize = 0;
    while i < v.len()
        invariant
            i <= v.len(),
            r@ == v@.take(i as int),
        decreases v.len() - i,
    {
        r.push(v[i]);
        i = i + 1;
        assert(r@ =~= v@.take(i as int));
    }
    assert(v@.take(v.len() as int) =~= v@);
    r
}

/// A copy of one voter.
pub fn copy_voter(v: &VoterSnapshot) -> (r: VoterSnapshot)
    ensures
        r@ == v@,
{
    VoterSnapshot { who: v.who, weight: v.weight, targets: copy_accounts(&v.targets) }
}

/// All voters of the snapshot in one list: page by page, then in page order.
pub fn flatten_voters(snapshot: &ElectionSnapshot) -> (r: Vec<VoterSnapshot>)
    ensures
        voters_view(r@) == flat_voters(snapshot.voter_pages@),
{
    let pages = &snapshot.voter_pages;
    let mut r: Vec<VoterSnapshot> = Vec::new();
    let mut p: usize = 0;
    while p < pages.len()
        invariant
            p <= pages.len(),
            voters_view(r@) == flat_voters(pages@.take(p as int)),
        decreases pages.len() - p,
    {
        let page = &pages[p];
        let ghost before = voters_view(r@);
        let mut k: usize = 0;
        while k < page.len()
            invariant
                k <= page.len(),
                voters_view(r@) == before + voters_view(page@.take(k as int)),
            decreases page.len() - k,
        {
            let ghost old_r = r@;
            let v = copy_voter(&page[k]);
            r.push(v);
            assert(voters_view(r@) =~= voters_view(old_r).push(page@[k as int]@));
            assert(page@.take(k + 1) =~= page@.take(k as int).push(page@[k as int]));
            assert(voters_view(page@.take(k + 1)) =~= voters_view(page@.take(k as int)).push(page@[k as int]@));
            k = k + 1;
            assert(voters_view(r@) =~= before + voters_view(page@.take(k as int)));
        }
        assert(page@.take(k as int) =~= page@);
        assert(pages@.take(p + 1).drop_last() =~= pages@.take(p as int));
        p = p + 1;
    }
    assert(pages@.take(p as int) =~= pages@);
    r
}

} // verus!
