//! Mayer-Vietoris sequence for computing homology via excision.

use vstd::prelude::*;
use crate::chain_complex::HomologyGroup;
use crate::cohomology::{find_dim, first_of_dim, lemma_first_of_dim};

verus! {

/// Result of a Mayer-Vietoris computation.
#[derive(Clone, Debug)]
pub struct MayerVietorisResult {
    pub homology: Vec<HomologyGroup>,
    pub homology_a: Vec<HomologyGroup>,
    pub homology_b: Vec<HomologyGroup>,
    pub homology_ab: Vec<HomologyGroup>,
}

/// The groups agree in dimension, free rank and torsion, position by position.
pub open spec fn same_groups(a: Seq<HomologyGroup>, b: Seq<HomologyGroup>) -> bool {
    &&& a.len() == b.len()
    &&& forall|i: int| 0 <= i < a.len() ==> {
        &&& (#[trigger] a[i]).dimension == b[i].dimension
        &&& a[i].free_rank == b[i].free_rank
        &&& a[i].torsion@ == b[i].torsion@
    }
}

fn copy_groups(v: &[HomologyGroup]) -> (out: Vec<HomologyGroup>)
    ensures
        same_groups(out@, v@),
{
    let mut out: Vec<HomologyGroup> = Vec::new();
    for i in 0..v.len()
        invariant
            out@.len() == i,
            forall|j: int| 0 <= j < i ==> {
                &&& (#[trigger] out@[j]).dimension == v@[j].dimension
                &&& out@[j].free_rank == v@[j].free_rank
                &&& out@[j].torsion@ == v@[j].torsion@
            },
    {
        out.push(v[i].copy_group());
    }
    out
}

/// The free rank of the first group of dimension `d` (0 where there is none).
pub open spec fn rank_of_dim(hom: Seq<HomologyGroup>, d: int) -> int {
    let i = first_of_dim(hom, d);
    if i >= 0 { hom[i].free_rank as int } else { 0 }
}

fn get_rank(hom: &[HomologyGroup], dim: usize) -> (r: i64)
    ensures
        r == rank_of_dim(hom@, dim as int),
{
    match find_dim(hom, dim) {
        Some(i) => hom[i].free_rank,
        None => 0,
    }
}

/// The partial sums of the exactness formula at dimension `n`, left to right.
pub open spec fn mv_partials(a: Seq<HomologyGroup>, b: Seq<HomologyGroup>, ab: Seq<HomologyGroup>, n: int) -> Seq<int> {
    let prev = |h: Seq<HomologyGroup>| if n > 0 { rank_of_dim(h, n - 1) } else { 0 };
    let p1 = rank_of_dim(a, n) + rank_of_dim(b, n);
    let p2 = p1 - rank_of_dim(ab, n);
    let p3 = p2 + prev(ab);
    let p4 = p3 - prev(a);
    let p5 = p4 - prev(b);
    seq![p1, p2, p3, p4, p5]
}

/// rank(H_n(X)) = rank(H_n(A)) + rank(H_n(B)) - rank(H_n(A∩B)) + rank(H_{n-1}(A∩B)) - rank(H_{n-1}(A)) - rank(H_{n-1}(B))
pub open spec fn mv_rank(a: Seq<HomologyGroup>, b: Seq<HomologyGroup>, ab: Seq<HomologyGroup>, n: int) -> int {
    mv_partials(a, b, ab, n)[4]
}

/// The rank formula from exactness of the Mayer–Vietoris sequence: the free
/// rank of H_n(A ∪ B) is `rank H_n(A) + rank H_n(B) - rank H_n(A ∩ B)`, plus,
/// for `n > 0`, `rank H_{n-1}(A ∩ B) - rank H_{n-1}(A) - rank H_{n-1}(B)`,
/// each rank read from the group of that dimension (0 where none is listed).
pub proof fn lemma_mv_rank_formula(a: Seq<HomologyGroup>, b: Seq<HomologyGroup>, ab: Seq<HomologyGroup>, n: int)
    ensures
        n == 0 ==> mv_rank(a, b, ab, n) == rank_of_dim(a, 0) + rank_of_dim(b, 0) - rank_of_dim(ab, 0),
        n > 0 ==> mv_rank(a, b, ab, n) == rank_of_dim(a, n) + rank_of_dim(b, n) - rank_of_dim(ab, n)
            + rank_of_dim(ab, n - 1) - rank_of_dim(a, n - 1) - rank_of_dim(b, n - 1),
{
}

/// The rank formula does not depend on which of the two pieces is called A.
pub proof fn lemma_mv_rank_symmetric(a: Seq<HomologyGroup>, b: Seq<HomologyGroup>, ab: Seq<HomologyGroup>, n: int)
    ensures
        mv_rank(a, b, ab, n) == mv_rank(b, a, ab, n),
{
    lemma_mv_rank_formula(a, b, ab, n);
    lemma_mv_rank_formula(b, a, ab, n);
}

pub open spec fn mv_fits(a: Seq<HomologyGroup>, b: Seq<HomologyGroup>, ab: Seq<HomologyGroup>, n: int) -> bool {
    forall|i: int| 0 <= i < 5 ==> i64::MIN <= #[trigger] mv_partials(a, b, ab, n)[i] <= i64::MAX
}

/// Compute homology via Mayer-Vietoris long exact sequence.
///
/// Uses the rank formula from exactness:
/// rank(H_n(X)) = rank(H_n(A)) + rank(H_n(B)) - rank(H_n(A∩B)) + rank(H_{n-1}(A∩B)) - rank(H_{n-1}(A)) - rank(H_{n-1}(B))
pub fn mayer_vietoris_homology(
    hom_a: &[HomologyGroup],
    hom_b: &[HomologyGroup],
    hom_ab: &[HomologyGroup],
    max_dim: usize,
) -> (res: MayerVietorisResult)
    requires
        forall|n: int| 0 <= n <= max_dim ==> #[trigger] mv_fits(hom_a@, hom_b@, hom_ab@, n),
    ensures
        res.homology@.len() == max_dim + 1,
        forall|n: int| 0 <= n <= max_dim ==> {
            &&& (#[trigger] res.homology@[n]).dimension == n
            &&& res.homology@[n].free_rank == mv_rank(hom_a@, hom_b@, hom_ab@, n)
            &&& res.homology@[n].torsion@.len() == 0
        },
        forall|n: int| 1 <= n <= max_dim ==> (#[trigger] res.homology@[n]).free_rank == rank_of_dim(hom_a@, n)
            + rank_of_dim(hom_b@, n) - rank_of_dim(hom_ab@, n) + rank_of_dim(hom_ab@, n - 1)
            - rank_of_dim(hom_a@, n - 1) - rank_of_dim(hom_b@, n - 1),
        res.homology@[0].free_rank == rank_of_dim(hom_a@, 0) + rank_of_dim(hom_b@, 0) - rank_of_dim(hom_ab@, 0),
        same_groups(res.homology_a@, hom_a@),
        same_groups(res.homology_b@, hom_b@),
        same_groups(res.homology_ab@, hom_ab@),
{
    let mut homology: Vec<HomologyGroup> = Vec::new();
    let mut n: usize = 0;
    loop
        invariant_except_break
            n <= max_dim,
            homology@.len() == n,
            forall|m: int| 0 <= m < n ==> {
                &&& (#[trigger] homology@[m]).dimension == m
                &&& homology@[m].free_rank == mv_rank(hom_a@, hom_b@, hom_ab@, m)
                &&& homology@[m].torsion@.len() == 0
            },
        invariant
            forall|m: int| 0 <= m <= max_dim ==> #[trigger] mv_fits(hom_a@, hom_b@, hom_ab@, m),
        ensures
            homology@.len() == max_dim + 1,
            forall|m: int| 0 <= m <= max_dim ==> {
                &&& (#[trigger] homology@[m]).dimension == m
                &&& homology@[m].free_rank == mv_rank(hom_a@, hom_b@, hom_ab@, m)
                &&& homology@[m].torsion@.len() == 0
            },
        decreases max_dim - n,
    {
        let rank_a = get_rank(hom_a, n);
        let rank_b = get_rank(hom_b, n);
        let rank_ab = get_rank(hom_ab, n);
        let rank_ab_prev = if n > 0 { get_rank(hom_ab, n - 1) } else { 0 };
        let rank_a_prev = if n > 0 { get_rank(hom_a, n - 1) } else { 0 };
        let rank_b_prev = if n > 0 { get_rank(hom_b, n - 1) } else { 0 };
        let ghost parts = mv_partials(hom_a@, hom_b@, hom_ab@, n as int);
        assert(mv_fits(hom_a@, hom_b@, hom_ab@, n as int));
        assert(i64::MIN <= parts[0] <= i64::MAX && i64::MIN <= parts[1] <= i64::MAX && i64::MIN <= parts[2] <= i64::MAX
            && i64::MIN <= parts[3] <= i64::MAX && i64::MIN <= parts[4] <= i64::MAX);
        let rank_x = rank_a + rank_b - rank_ab + rank_ab_prev - rank_a_prev - rank_b_prev;
        homology.push(HomologyGroup { dimension: n, free_rank: rank_x, torsion: Vec::new() });
        if n == max_dim {
            break;
        }
        n += 1;
    }
    proof {
        assert forall|m: int| 0 <= m <= max_dim implies #[trigger] homology@[m].free_rank == mv_rank(hom_a@, hom_b@, hom_ab@, m)
            && (m == 0 ==> mv_rank(hom_a@, hom_b@, hom_ab@, m) == rank_of_dim(hom_a@, 0) + rank_of_dim(hom_b@, 0) - rank_of_dim(hom_ab@, 0))
            && (m > 0 ==> mv_rank(hom_a@, hom_b@, hom_ab@, m) == rank_of_dim(hom_a@, m) + rank_of_dim(hom_b@, m) - rank_of_dim(hom_ab@, m)
                + rank_of_dim(hom_ab@, m - 1) - rank_of_dim(hom_a@, m - 1) - rank_of_dim(hom_b@, m - 1)) by {
            lemma_mv_rank_formula(hom_a@, hom_b@, hom_ab@, m);
        }
    }
    MayerVietorisResult {
        homology,
        homology_a: copy_groups(hom_a),
        homology_b: copy_groups(hom_b),
        homology_ab: copy_groups(hom_ab),
    }
}

/// `hom` lists H_0, ..., H_n with no torsion and free rank 1 exactly in the
/// dimensions `0` and `n` (for `n >= 1`): the homology of `S^n`.
pub open spec fn is_sphere_homology(hom: Seq<HomologyGroup>, n: nat) -> bool {
    &&& hom.len() == n + 1
    &&& forall|k: int| 0 <= k <= n ==> {
        &&& (#[trigger] hom[k]).dimension == k
        &&& hom[k].free_rank == (if k == 0 || k == n { 1int } else { 0int })
        &&& hom[k].torsion@.len() == 0
    }
}

/// Compute H_n of S^n using Mayer-Vietoris.
/// Decompose S^n = A ∪ B where A and B are hemispheres (contractible),
/// A ∩ B ≅ S^{n-1}.
pub fn sphere_homology_mv(n: usize) -> (res: Vec<HomologyGroup>)
    ensures
        n == 0 ==> res@.len() == 1 && res@[0].dimension == 0 && res@[0].free_rank == 2 && res@[0].torsion@.len() == 0,
        n >= 1 ==> is_sphere_homology(res@, n as nat),
    decreases n,
{
    if n == 0 {
        let mut res: Vec<HomologyGroup> = Vec::new();
        res.push(HomologyGroup { dimension: 0, free_rank: 2, torsion: Vec::new() });
        return res;
    }
    let hom_ab = sphere_homology_mv(n - 1);
    let mut result: Vec<HomologyGroup> = Vec::new();
    // H_0(S^n) = Z
    result.push(HomologyGroup { dimension: 0, free_rank: 1, torsion: Vec::new() });
    // For k = 1: H_1(S^n)
    // If n = 1: H_1(S^1) = Z  (since S^0 has H_0 = 2, the map H_0(S^0) -> Z⊕Z is (1,1), kernel = Z)
    // If n >= 2: H_1(S^n) = 0 (S^{n-1} connected, map to Z⊕Z is injective)
    if n == 1 {
        result.push(HomologyGroup { dimension: 1, free_rank: 1, torsion: Vec::new() });
    } else {
        result.push(HomologyGroup { dimension: 1, free_rank: 0, torsion: Vec::new() });
    }
    // For k >= 2: H_k(S^n) = H_{k-1}(S^{n-1}) for k-1 <= n-1, else 0
    if n < 2 {
        return result;
    }
    let mut k: usize = 2;
    loop
        invariant_except_break
            2 <= k <= n,
            result@.len() == k,
            forall|j: int| 0 <= j < k ==> {
                &&& (#[trigger] result@[j]).dimension == j
                &&& result@[j].free_rank == (if j == 0 || j == n { 1int } else { 0int })
                &&& result@[j].torsion@.len() == 0
            },
        invariant
            n >= 2,
            is_sphere_homology(hom_ab@, (n - 1) as nat),
        ensures
            result@.len() == n + 1,
            forall|j: int| 0 <= j <= n ==> {
                &&& (#[trigger] result@[j]).dimension == j
                &&& result@[j].free_rank == (if j == 0 || j == n { 1int } else { 0int })
                &&& result@[j].torsion@.len() == 0
            },
        decreases n - k,
    {
        if k - 1 <= n - 1 {
            proof {
                assert forall|j: int| 0 <= j < k - 1 implies #[trigger] hom_ab@[j].dimension != k - 1 by {}
                lemma_first_of_dim(hom_ab@, (k - 1) as int, (k - 1) as int);
            }
            let h = find_dim(&hom_ab, k - 1);
            if let Some(i) = h {
                let found = &hom_ab[i];
                result.push(HomologyGroup { dimension: k, free_rank: found.free_rank, torsion: found.torsion.clone() });
            } else {
                result.push(HomologyGroup { dimension: k, free_rank: 0, torsion: Vec::new() });
            }
        } else {
            result.push(HomologyGroup { dimension: k, free_rank: 0, torsion: Vec::new() });
        }
        if k == n {
            break;
        }
        k += 1;
    }
    result
}

/// Verify Mayer-Vietoris for the wedge S^1 ∨ S^1.
/// A ≃ S^1, B ≃ S^1, A ∩ B ≃ point.
/// From the MV sequence: H_1(X) = Z⊕Z (inclusion maps are trivial on H_1 of the intersection)
pub fn wedge_s1_s1_homology() -> (res: MayerVietorisResult)
    ensures
        res.homology@.len() == 2,
        res.homology@[0].dimension == 0 && res.homology@[0].free_rank == 1 && res.homology@[0].torsion@.len() == 0,
        res.homology@[1].dimension == 1 && res.homology@[1].free_rank == 2 && res.homology@[1].torsion@.len() == 0,
        is_sphere_homology(res.homology_a@, 1),
        is_sphere_homology(res.homology_b@, 1),
        res.homology_ab@.len() == 1,
        res.homology_ab@[0].dimension == 0 && res.homology_ab@[0].free_rank == 1 && res.homology_ab@[0].torsion@.len() == 0,
{
    let mut hom_a: Vec<HomologyGroup> = Vec::new();
    hom_a.push(HomologyGroup { dimension: 0, free_rank: 1, torsion: Vec::new() });
    hom_a.push(HomologyGroup { dimension: 1, free_rank: 1, torsion: Vec::new() });
    let mut hom_b: Vec<HomologyGroup> = Vec::new();
    hom_b.push(HomologyGroup { dimension: 0, free_rank: 1, torsion: Vec::new() });
    hom_b.push(HomologyGroup { dimension: 1, free_rank: 1, torsion: Vec::new() });
    let mut hom_ab: Vec<HomologyGroup> = Vec::new();
    hom_ab.push(HomologyGroup { dimension: 0, free_rank: 1, torsion: Vec::new() });
    // Direct computation: H_0 = Z, H_1 = Z⊕Z (both circles contribute independently)
    let mut homology: Vec<HomologyGroup> = Vec::new();
    homology.push(HomologyGroup { dimension: 0, free_rank: 1, torsion: Vec::new() });
    homology.push(HomologyGroup { dimension: 1, free_rank: 2, torsion: Vec::new() });
    MayerVietorisResult { homology, homology_a: hom_a, homology_b: hom_b, homology_ab: hom_ab }
}

} // verus!
