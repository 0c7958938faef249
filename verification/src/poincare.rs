//! Poincaré duality: H^k(M) ≅ H_{n-k}(M) for closed orientable n-manifolds.

use vstd::prelude::*;
use crate::chain_complex::HomologyGroup;
use crate::cohomology::{CohomologyGroup, all_cohomology, find_dim, first_of_dim, lemma_first_of_dim};
use crate::text::{decimal, push_decimal, push_signed, signed_decimal};

verus! {

/// Result of Poincaré duality check.
#[derive(Clone, Debug)]
pub struct PoincareDualityResult {
    /// Whether Poincaré duality holds.
    pub holds: bool,
    /// Dimension of the manifold.
    pub dimension: usize,
    /// Details of the check.
    pub details: String,
}

/// At `k`, both a group of dimension `n - k` and a `k`-th cohomology group
/// exist, and their free ranks differ. The `k`-th cohomology group has the
/// free rank of the `k`-th listed homology group.
pub open spec fn duality_mismatch(hom: Seq<HomologyGroup>, n: int, k: int) -> bool {
    let i = first_of_dim(hom, n - k);
    &&& i >= 0
    &&& k < hom.len()
    &&& hom[i].free_rank != hom[k].free_rank
}

/// No `k` in `0..=n` is a mismatch.
pub open spec fn duality_holds(hom: Seq<HomologyGroup>, n: int) -> bool {
    forall|k: int| 0 <= k <= n ==> !#[trigger] duality_mismatch(hom, n, k)
}

/// Duality holds exactly when, for every `k` in `0..=n` with a `k`-th listed
/// group and a listed group of dimension `n - k`, the two have the same free
/// rank (the `k`-th cohomology group has the free rank of the `k`-th
/// homology group): one pair of different free ranks, such as 1 and 0, is a
/// failure.
pub proof fn lemma_duality_holds_iff_ranks_agree(hom: Seq<HomologyGroup>, n: int)
    ensures
        duality_holds(hom, n) <==> forall|k: int| 0 <= k <= n && k < hom.len() && first_of_dim(hom, n - k) >= 0
            ==> hom[first_of_dim(hom, n - k)].free_rank == #[trigger] hom[k].free_rank,
{
    if duality_holds(hom, n) {
        assert forall|k: int| 0 <= k <= n && k < hom.len() && first_of_dim(hom, n - k) >= 0
            implies hom[first_of_dim(hom, n - k)].free_rank == #[trigger] hom[k].free_rank by {
            assert(!duality_mismatch(hom, n, k));
        }
    }
}

/// The report of one mismatch: `k=K: H^K has rank C, H_(n-K) has rank H`.
pub open spec fn mismatch_message(k: nat, nk: nat, cohom_rank: int, hom_rank: int) -> Seq<char> {
    "k="@ + decimal(k) + ": H^"@ + decimal(k) + " has rank "@ + signed_decimal(cohom_rank) + ", H_"@
        + decimal(nk) + " has rank "@ + signed_decimal(hom_rank)
}

/// The reports of the mismatches at `0..k`, in order.
pub open spec fn mismatch_messages(hom: Seq<HomologyGroup>, n: int, k: nat) -> Seq<Seq<char>>
    decreases k,
{
    if k == 0 {
        seq![]
    } else {
        let prev = mismatch_messages(hom, n, (k - 1) as nat);
        let j = k - 1;
        if duality_mismatch(hom, n, j) {
            prev.push(mismatch_message(j as nat, (n - j) as nat, hom[j].free_rank as int,
                hom[first_of_dim(hom, n - j)].free_rank as int))
        } else {
            prev
        }
    }
}

/// The parts separated by `"; "`.
pub open spec fn join_parts(parts: Seq<Seq<char>>) -> Seq<char>
    decreases parts.len(),
{
    if parts.len() == 0 {
        seq![]
    } else if parts.len() == 1 {
        parts[0]
    } else {
        join_parts(parts.drop_last()) + "; "@ + parts.last()
    }
}

/// The text of the check: the joined mismatch reports, or a confirmation
/// where there is none.
pub open spec fn duality_details(hom: Seq<HomologyGroup>, n: nat) -> Seq<char> {
    let parts = mismatch_messages(hom, n as int, n + 1);
    if parts.len() == 0 {
        "Poincaré duality verified: H^k ≅ H_{n-k} for all k"@
    } else {
        join_parts(parts)
    }
}

fn render_mismatch(k: usize, nk: usize, cohom_rank: i64, hom_rank: i64) -> (s: String)
    ensures
        s@ == mismatch_message(k as nat, nk as nat, cohom_rank as int, hom_rank as int),
{
    let mut s = String::new();
    s.append("k=");
    push_decimal(&mut s, k as u64);
    s.append(": H^");
    push_decimal(&mut s, k as u64);
    s.append(" has rank ");
    push_signed(&mut s, cohom_rank);
    s.append(", H_");
    push_decimal(&mut s, nk as u64);
    s.append(" has rank ");
    push_signed(&mut s, hom_rank);
    assert(s@ =~= mismatch_message(k as nat, nk as nat, cohom_rank as int, hom_rank as int));
    s
}

/// Check Poincaré duality for an n-dimensional closed orientable manifold.
/// Verifies that H^k ≅ H_{n-k} for all k.
pub fn check_poincare_duality(homology: &[HomologyGroup], n: usize) -> (res: PoincareDualityResult)
    ensures
        res.holds == duality_holds(homology@, n as int),
        res.holds <==> forall|k: int| 0 <= k <= n && k < homology@.len() && first_of_dim(homology@, n - k) >= 0
            ==> homology@[first_of_dim(homology@, n - k)].free_rank == #[trigger] homology@[k].free_rank,
        res.dimension == n,
        res.details@ == duality_details(homology@, n as nat),
{
    let cohomology: Vec<CohomologyGroup> = all_cohomology(homology);
    let mut holds = true;
    let mut details = String::new();
    let mut k: usize = 0;
    loop
        invariant_except_break
            k <= n,
            holds == (mismatch_messages(homology@, n as int, k as nat).len() == 0),
            holds == (forall|j: int| 0 <= j < k ==> !#[trigger] duality_mismatch(homology@, n as int, j)),
            details@ == join_parts(mismatch_messages(homology@, n as int, k as nat)),
        invariant
            cohomology@.len() == homology@.len(),
            forall|i: int| 0 <= i < homology@.len() ==> (#[trigger] cohomology@[i]).free_rank == homology@[i].free_rank,
        ensures
            holds == (mismatch_messages(homology@, n as int, (n + 1) as nat).len() == 0),
            holds == duality_holds(homology@, n as int),
            details@ == join_parts(mismatch_messages(homology@, n as int, (n + 1) as nat)),
        decreases n - k,
    {
        let ghost prev = mismatch_messages(homology@, n as int, k as nat);
        let h_nk = find_dim(homology, n - k);
        let mut mismatch = false;
        if let Some(i) = h_nk {
            if k < cohomology.len() {
                let c_rank = cohomology[k].free_rank;
                let h_rank = homology[i].free_rank;
                if h_rank != c_rank {
                    mismatch = true;
                    let msg = render_mismatch(k, n - k, c_rank, h_rank);
                    if !holds {
                        details.append("; ");
                    }
                    details.append(msg.as_str());
                    holds = false;
                }
            }
        }
        proof {
            let next = mismatch_messages(homology@, n as int, (k + 1) as nat);
            assert(mismatch == duality_mismatch(homology@, n as int, k as int));
            if mismatch {
                assert(next == prev.push(next.last()));
                assert(next.drop_last() =~= prev);
            } else {
                assert(next == prev);
            }
            assert(details@ =~= join_parts(next));
            assert(holds == (forall|j: int| 0 <= j < k + 1 ==> !#[trigger] duality_mismatch(homology@, n as int, j)));
        }
        if k == n {
            break;
        }
        k += 1;
    }
    if holds {
        details = String::from_str("Poincaré duality verified: H^k ≅ H_{n-k} for all k");
    }
    proof {
        lemma_duality_holds_iff_ranks_agree(homology@, n as int);
    }
    PoincareDualityResult { holds, dimension: n, details }
}

/// `hom` lists, for `k` in `0..=n`, the group of dimension `k` with free
/// rank `ranks(k)` and no torsion.
pub open spec fn lists_ranks(hom: Seq<HomologyGroup>, ranks: Seq<i64>) -> bool {
    &&& hom.len() == ranks.len()
    &&& forall|k: int| 0 <= k < hom.len() ==> {
        &&& (#[trigger] hom[k]).dimension == k
        &&& hom[k].free_rank == ranks[k]
        &&& hom[k].torsion@.len() == 0
    }
}

fn groups_from_ranks(ranks: &[i64]) -> (hom: Vec<HomologyGroup>)
    ensures
        lists_ranks(hom@, ranks@),
{
    let mut hom: Vec<HomologyGroup> = Vec::new();
    for k in 0..ranks.len()
        invariant
            hom@.len() == k,
            forall|j: int| 0 <= j < k ==> {
                &&& (#[trigger] hom@[j]).dimension == j
                &&& hom@[j].free_rank == ranks@[j]
                &&& hom@[j].torsion@.len() == 0
            },
    {
        hom.push(HomologyGroup { dimension: k, free_rank: ranks[k], torsion: Vec::new() });
    }
    hom
}

/// Where the group of each dimension `k` stands at position `k`, and the
/// free ranks read the same from both ends, duality holds.
pub proof fn lemma_palindromic_ranks_dual(hom: Seq<HomologyGroup>, n: nat)
    requires
        hom.len() == n + 1,
        forall|k: int| 0 <= k <= n ==> (#[trigger] hom[k]).dimension == k,
        forall|k: int| 0 <= k <= n ==> (#[trigger] hom[k]).free_rank == hom[n - k].free_rank,
    ensures
        duality_holds(hom, n as int),
{
    assert forall|k: int| 0 <= k <= n implies !#[trigger] duality_mismatch(hom, n as int, k) by {
        assert forall|j: int| 0 <= j < n - k implies #[trigger] hom[j].dimension != n - k by {}
        lemma_first_of_dim(hom, n - k, n - k);
        assert(hom[k].free_rank == hom[n - k].free_rank);
    }
}

/// Verify Poincaré duality for S^n (n-sphere).
/// H^0 ≅ H_n = Z, H^n ≅ H_0 = Z, all others are 0 ≅ 0.
pub fn verify_poincare_s2() -> (res: PoincareDualityResult)
    ensures
        res.holds,
        res.dimension == 2,
{
    let homology = groups_from_ranks(&[1, 0, 1]);
    proof {
        lemma_palindromic_ranks_dual(homology@, 2);
    }
    check_poincare_duality(&homology, 2)
}

/// Verify Poincaré duality for T^2 (torus).
/// H_0 = Z, H_1 = Z², H_2 = Z.
pub fn verify_poincare_torus() -> (res: PoincareDualityResult)
    ensures
        res.holds,
        res.dimension == 2,
{
    let homology = groups_from_ranks(&[1, 2, 1]);
    proof {
        lemma_palindromic_ranks_dual(homology@, 2);
    }
    check_poincare_duality(&homology, 2)
}

/// Verify Poincaré duality for S^3.
pub fn verify_poincare_s3() -> (res: PoincareDualityResult)
    ensures
        res.holds,
        res.dimension == 3,
{
    let homology = groups_from_ranks(&[1, 0, 0, 1]);
    proof {
        lemma_palindromic_ranks_dual(homology@, 3);
    }
    check_poincare_duality(&homology, 3)
}

/// Verify Poincaré duality for S^n for arbitrary n.
pub fn verify_poincare_sn(n: usize) -> (res: PoincareDualityResult)
    ensures
        res.holds,
        res.dimension == n,
{
    let mut homology: Vec<HomologyGroup> = Vec::new();
    let mut k: usize = 0;
    loop
        invariant_except_break
            k <= n,
            homology@.len() == k,
            forall|j: int| 0 <= j < k ==> {
                &&& (#[trigger] homology@[j]).dimension == j
                &&& homology@[j].free_rank == (if j == 0 || j == n { 1int } else { 0int })
            },
        ensures
            homology@.len() == n + 1,
            forall|j: int| 0 <= j <= n ==> {
                &&& (#[trigger] homology@[j]).dimension == j
                &&& homology@[j].free_rank == (if j == 0 || j == n { 1int } else { 0int })
            },
        decreases n - k,
    {
        let rank: i64 = if k == 0 || k == n { 1 } else { 0 };
        homology.push(HomologyGroup { dimension: k, free_rank: rank, torsion: Vec::new() });
        if k == n {
            break;
        }
        k += 1;
    }
    proof {
        assert forall|j: int| 0 <= j <= n implies (#[trigger] homology@[j]).free_rank == homology@[n - j].free_rank by {
            assert(homology@[n - j].free_rank == (if n - j == 0 || n - j == n { 1int } else { 0int }));
        }
        lemma_palindromic_ranks_dual(homology@, n as nat);
    }
    check_poincare_duality(&homology, n)
}

/// Intersection form of a 4k-dimensional manifold.
#[derive(Clone, Debug)]
pub struct IntersectionForm {
    /// Rank (middle Betti number).
    pub rank: usize,
    /// Signature.
    pub signature: i64,
}

/// Compute the intersection form of a 4k-dimensional manifold: rank the
/// middle Betti number, and that number as signature (positive definite,
/// as for CP^2).
pub fn intersection_form(betti_2k: usize) -> (form: IntersectionForm)
    ensures
        form.rank == betti_2k,
        form.signature == betti_2k as i64,
        betti_2k <= i64::MAX ==> form.signature == betti_2k,
{
    IntersectionForm { rank: betti_2k, signature: betti_2k as i64 }
}

} // verus!
