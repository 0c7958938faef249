//! Cohomology with coefficients, cup product, and Künneth formula.

use vstd::prelude::*;
use crate::chain_complex::{
    ChainComplex, HomologyGroup, computed_free, computed_torsion, homology_fits, homology_needs_no_reduction, ints,
    is_homology,
};
use crate::matrix::{Mat, ZMatrix, dmatrix_product, fits_i64, group_zmatrix, mat_mul, mk, product_fits};

verus! {

broadcast use group_zmatrix;

/// Cohomology group H^n(X; Z).
#[derive(Clone, Debug)]
pub struct CohomologyGroup {
    /// Dimension n.
    pub dimension: usize,
    /// Free rank.
    pub free_rank: i64,
    /// Torsion coefficients.
    pub torsion: Vec<i64>,
}

impl CohomologyGroup {
    /// Check if trivial.
    pub fn is_trivial(&self) -> (b: bool)
        ensures
            b == (self.free_rank == 0 && self.torsion@.len() == 0),
    {
        self.free_rank == 0 && self.torsion.len() == 0
    }
}

fn copy_i64s(v: &Vec<i64>) -> (out: Vec<i64>)
    ensures
        out@ == v@,
{
    let mut out: Vec<i64> = Vec::new();
    for i in 0..v.len()
        invariant
            out@ == v@.take(i as int),
    {
        out.push(v[i]);
        assert(out@ =~= v@.take(i + 1));
    }
    assert(out@ =~= v@);
    out
}

/// H^n as the universal coefficient theorem gives it from H_n and H_{n-1}:
/// the free part of H_n and the torsion of H_{n-1}.
pub open spec fn is_uct_cohomology(hom_n: HomologyGroup, hom_n_minus_1: HomologyGroup, c: CohomologyGroup) -> bool {
    &&& c.dimension == hom_n.dimension
    &&& c.free_rank == hom_n.free_rank
    &&& c.torsion@ == hom_n_minus_1.torsion@
}

/// Compute cohomology from homology using universal coefficient theorem:
/// H^n(X; Z) ≅ Hom(H_n(X), Z) ⊕ Ext(H_{n-1}(X), Z)
/// For free H_n: H^n ≅ Z^{rank(H_n)} ⊕ torsion from H_{n-1}.
pub fn cohomology_from_homology(hom_n: &HomologyGroup, hom_n_minus_1: &HomologyGroup) -> (c: CohomologyGroup)
    ensures
        is_uct_cohomology(*hom_n, *hom_n_minus_1, c),
{
    let free_rank = hom_n.free_rank;
    // Torsion of H_{n-1} becomes torsion in H^n via Ext
    let torsion = copy_i64s(&hom_n_minus_1.torsion);
    CohomologyGroup { dimension: hom_n.dimension, free_rank, torsion }
}

/// The homology group `Z^0` in dimension 0, standing before H_0.
pub open spec fn is_zero_group(h: HomologyGroup) -> bool {
    h.dimension == 0 && h.free_rank == 0 && h.torsion@.len() == 0
}

/// Compute all cohomology groups from homology groups: entry `i` comes from
/// `homology[i]` and `homology[i - 1]` (the zero group for `i == 0`).
pub fn all_cohomology(homology: &[HomologyGroup]) -> (res: Vec<CohomologyGroup>)
    ensures
        res@.len() == homology@.len(),
        forall|i: int| 0 <= i < homology@.len() ==> {
            &&& (#[trigger] res@[i]).dimension == homology@[i].dimension
            &&& res@[i].free_rank == homology@[i].free_rank
            &&& i == 0 ==> res@[i].torsion@.len() == 0
            &&& i > 0 ==> res@[i].torsion@ == homology@[i - 1].torsion@
        },
{
    let mut result: Vec<CohomologyGroup> = Vec::new();
    let zero = HomologyGroup { dimension: 0, free_rank: 0, torsion: Vec::new() };
    for i in 0..homology.len()
        invariant
            is_zero_group(zero),
            result@.len() == i,
            forall|j: int| 0 <= j < i ==> {
                &&& (#[trigger] result@[j]).dimension == homology@[j].dimension
                &&& result@[j].free_rank == homology@[j].free_rank
                &&& j == 0 ==> result@[j].torsion@.len() == 0
                &&& j > 0 ==> result@[j].torsion@ == homology@[j - 1].torsion@
            },
    {
        let h_prev = if i > 0 { &homology[i - 1] } else { &zero };
        result.push(cohomology_from_homology(&homology[i], h_prev));
    }
    result
}

/// Cup product structure.
/// For a space X, the cup product ⌣: H^p × H^q → H^{p+q}.
#[derive(Clone, Debug)]
pub struct CupProduct {
    /// Source dimension p.
    pub p: usize,
    /// Source dimension q.
    pub q: usize,
    /// Target dimension p+q.
    pub target_dim: usize,
    /// The product matrix: maps H^p ⊗ H^q → H^{p+q}.
    pub product_matrix: ZMatrix,
}

/// The `1 × n` matrix whose row is `a`.
pub open spec fn row_vector(a: Seq<i64>) -> Mat {
    mk(1, a.len(), |i: int, j: int| a[j] as int)
}

/// The `n × 1` matrix whose column is `b`.
pub open spec fn column_vector(b: Seq<i64>) -> Mat {
    mk(b.len(), 1, |i: int, j: int| b[i] as int)
}

impl CupProduct {
    /// Create a new cup product.
    pub fn new(p: usize, q: usize, matrix: ZMatrix) -> (c: Self)
        requires
            p + q <= usize::MAX,
        ensures
            c.p == p,
            c.q == q,
            c.target_dim == p + q,
            c.product_matrix@ == matrix@,
    {
        CupProduct { p, q, target_dim: p + q, product_matrix: matrix }
    }

    /// Compute the cup product of two cohomology classes: the single entry
    /// of `a^T * product_matrix * b`.
    pub fn compute(&self, a: &[i64], b: &[i64]) -> (r: Vec<i64>)
        requires
            a@.len() == self.product_matrix@.rows,
            b@.len() == self.product_matrix@.cols,
            product_fits(row_vector(a@), self.product_matrix@),
            product_fits(mat_mul(row_vector(a@), self.product_matrix@), column_vector(b@)),
        ensures
            r@.len() == 1,
            r@[0] == mat_mul(mat_mul(row_vector(a@), self.product_matrix@), column_vector(b@)).e[0][0],
    {
        let a_vec = ZMatrix::from_row_slice(1, a.len(), a);
        let b_vec = ZMatrix::from_row_slice(b.len(), 1, b);
        proof {
            assert forall|i: int, j: int| 0 <= i < 1 && 0 <= j < a@.len() implies #[trigger] a_vec@.e[i][j] == row_vector(a@).e[i][j] by {
                assert(i * (a@.len() as int) + j == j) by (nonlinear_arith)
                    requires i == 0;
            }
            crate::matrix::lemma_mat_ext(a_vec@, row_vector(a@));
            crate::matrix::lemma_mat_ext(b_vec@, column_vector(b@));
        }
        // This is a simplification
        let left = dmatrix_product(&a_vec, &self.product_matrix);
        let result = dmatrix_product(&left, &b_vec);
        let mut r: Vec<i64> = Vec::new();
        r.push(result.get(0, 0));
        r
    }
}

/// Cohomology ring with cup product.
#[derive(Clone, Debug)]
pub struct CohomologyRing {
    /// Cohomology groups.
    pub groups: Vec<CohomologyGroup>,
    /// Cup products.
    pub cup_products: Vec<CupProduct>,
}

impl CohomologyRing {
    /// Compute the cup product ring of RP².
    /// H*(RP²; Z/2) = Z/2[a]/(a³) where a ∈ H^1.
    pub fn ring_rp2_z2() -> (r: Self)
        ensures
            r.groups@.len() == 3,
            r.cup_products@.len() == 0,
            r.groups@[0].dimension == 0 && r.groups@[0].free_rank == 1 && r.groups@[0].torsion@ == Seq::<i64>::empty(),
            r.groups@[1].dimension == 1 && r.groups@[1].free_rank == 0 && r.groups@[1].torsion@ == seq![2i64],
            r.groups@[2].dimension == 2 && r.groups@[2].free_rank == 0 && r.groups@[2].torsion@ == seq![2i64],
    {
        let mut groups: Vec<CohomologyGroup> = Vec::new();
        groups.push(CohomologyGroup { dimension: 0, free_rank: 1, torsion: Vec::new() });
        let mut t1: Vec<i64> = Vec::new();
        t1.push(2);
        groups.push(CohomologyGroup { dimension: 1, free_rank: 0, torsion: t1 });
        let mut t2: Vec<i64> = Vec::new();
        t2.push(2);
        groups.push(CohomologyGroup { dimension: 2, free_rank: 0, torsion: t2 });
        assert(groups@[1].torsion@ =~= seq![2i64]);
        assert(groups@[2].torsion@ =~= seq![2i64]);
        CohomologyRing { groups, cup_products: Vec::new() }
    }
}


// ---------------------------------------------------------------------------
// Künneth formula
// ---------------------------------------------------------------------------

/// The greatest common divisor, by Euclid's algorithm (`gcd(a, 0) == a`).
pub open spec fn gcd_nat(a: nat, b: nat) -> nat
    decreases b,
{
    if b == 0 {
        a
    } else {
        gcd_nat(b, a % b)
    }
}

pub open spec fn iabs(x: int) -> nat {
    if x < 0 { (-x) as nat } else { x as nat }
}

pub proof fn lemma_gcd_bound(a: nat, b: nat)
    ensures
        gcd_nat(a, b) <= if a >= b { a } else { b },
    decreases b,
{
    if b > 0 {
        lemma_gcd_bound(b, a % b);
    }
}

/// gcd of the absolute values.
fn gcd(a: i64, b: i64) -> (g: i64)
    requires
        a != i64::MIN,
        b != i64::MIN,
    ensures
        g == gcd_nat(iabs(a as int), iabs(b as int)),
{
    let mut x: i64 = if a < 0 { -a } else { a };
    let mut y: i64 = if b < 0 { -b } else { b };
    let ghost target = gcd_nat(x as nat, y as nat);
    proof {
        lemma_gcd_bound(x as nat, y as nat);
    }
    while y != 0
        invariant
            x >= 0,
            y >= 0,
            gcd_nat(x as nat, y as nat) == target,
        decreases y,
    {
        let t = y;
        y = x % y;
        x = t;
    }
    x
}

/// The index of the first group of dimension `d`, or -1 where there is none.
pub open spec fn first_of_dim(hom: Seq<HomologyGroup>, d: int) -> int
    decreases hom.len(),
{
    if hom.len() == 0 {
        -1
    } else if hom[0].dimension == d {
        0
    } else {
        let r = first_of_dim(hom.drop_first(), d);
        if r < 0 { -1 } else { r + 1 }
    }
}

pub proof fn lemma_first_of_dim(hom: Seq<HomologyGroup>, d: int, i: int)
    requires
        0 <= i <= hom.len(),
        forall|j: int| 0 <= j < i ==> #[trigger] hom[j].dimension != d,
        i == hom.len() || hom[i].dimension == d,
    ensures
        first_of_dim(hom, d) == if i == hom.len() { -1 } else { i },
    decreases hom.len(),
{
    if hom.len() > 0 && hom[0].dimension != d {
        let t = hom.drop_first();
        assert forall|j: int| 0 <= j < i - 1 implies #[trigger] t[j].dimension != d by {
            assert(hom[j + 1].dimension != d);
        }
        lemma_first_of_dim(t, d, i - 1);
    }
}

/// The position of the first group of dimension `d`.
pub(crate) fn find_dim(hom: &[HomologyGroup], d: usize) -> (r: Option<usize>)
    ensures
        match r {
            Some(i) => i == first_of_dim(hom@, d as int) && i < hom@.len(),
            None => first_of_dim(hom@, d as int) == -1,
        },
{
    let mut i: usize = 0;
    while i < hom.len()
        invariant
            i <= hom@.len(),
            forall|j: int| 0 <= j < i ==> #[trigger] hom@[j].dimension != d,
        decreases hom.len() - i,
    {
        if hom[i].dimension == d {
            proof {
                lemma_first_of_dim(hom@, d as int, i as int);
            }
            return Some(i);
        }
        i += 1;
    }
    proof {
        lemma_first_of_dim(hom@, d as int, i as int);
    }
    None
}

/// `gcd(a, t)` for each `t` of `t2`, in order.
pub open spec fn tor_row(a: i64, t2: Seq<i64>) -> Seq<int> {
    Seq::new(t2.len(), |j: int| gcd_nat(iabs(a as int), iabs(t2[j] as int)) as int)
}

/// `Tor(Z/a, Z/b) = Z/gcd(a, b)` for each `a` of `t1` and `b` of `t2`, `t1` outermost.
pub open spec fn tor_list(t1: Seq<i64>, t2: Seq<i64>) -> Seq<int>
    decreases t1.len(),
{
    if t1.len() == 0 {
        seq![]
    } else {
        tor_list(t1.drop_last(), t2) + tor_row(t1.last(), t2)
    }
}

/// Neither list holds `i64::MIN` where both are nonempty.
pub open spec fn tor_inputs_ok(t1: Seq<i64>, t2: Seq<i64>) -> bool {
    t1.len() == 0 || t2.len() == 0 || (
        (forall|i: int| 0 <= i < t1.len() ==> #[trigger] t1[i] != i64::MIN)
        && (forall|j: int| 0 <= j < t2.len() ==> #[trigger] t2[j] != i64::MIN))
}

/// Appends `tor_list(t1, t2)`.
fn push_tor(out: &mut Vec<i64>, t1: &Vec<i64>, t2: &Vec<i64>)
    requires
        tor_inputs_ok(t1@, t2@),
    ensures
        ints(final(out)@) == ints(old(out)@) + tor_list(t1@, t2@),
{
    let ghost start = ints(out@);
    for a in 0..t1.len()
        invariant
            tor_inputs_ok(t1@, t2@),
            ints(out@) == start + tor_list(t1@.take(a as int), t2@),
    {
        let ghost before = ints(out@);
        for b in 0..t2.len()
            invariant
                tor_inputs_ok(t1@, t2@),
                a < t1@.len(),
                ints(out@) == before + tor_row(t1@[a as int], t2@.take(b as int)),
        {
            let g = gcd(t1[a], t2[b]);
            proof {
                lemma_gcd_bound(iabs(t1@[a as int] as int), iabs(t2@[b as int] as int));
            }
            let ghost prev = out@;
            out.push(g);
            assert(ints(out@) =~= before + tor_row(t1@[a as int], t2@.take(b + 1))) by {
                assert(ints(out@) =~= ints(prev).push(g as int));
                assert(tor_row(t1@[a as int], t2@.take(b + 1)) =~= tor_row(t1@[a as int], t2@.take(b as int)).push(g as int));
            }
        }
        assert(t2@.take(t2@.len() as int) =~= t2@);
        assert(t1@.take(a + 1).drop_last() =~= t1@.take(a as int));
        assert(ints(out@) =~= start + tor_list(t1@.take(a + 1), t2@));
    }
    assert(t1@.take(t1@.len() as int) =~= t1@);
}

/// Each coefficient of `t`, in order, repeated `r` times (none where `r <= 0`):
/// the torsion of `(⊕ Z/t_i) ⊗ Z^r`.
pub open spec fn repeat_each(t: Seq<i64>, r: int) -> Seq<int>
    decreases t.len(),
{
    if t.len() == 0 {
        seq![]
    } else {
        repeat_each(t.drop_last(), r) + Seq::new(if r > 0 { r as nat } else { 0 }, |k: int| t.last() as int)
    }
}

/// Appends `repeat_each(t, r)`.
fn push_repeat(out: &mut Vec<i64>, t: &Vec<i64>, r: i64)
    ensures
        ints(final(out)@) == ints(old(out)@) + repeat_each(t@, r as int),
{
    let ghost start = ints(out@);
    for a in 0..t.len()
        invariant
            ints(out@) == start + repeat_each(t@.take(a as int), r as int),
    {
        let ghost before = ints(out@);
        let mut c: i64 = 0;
        while c < r
            invariant
                0 <= c,
                r > 0 ==> c <= r,
                r <= 0 ==> c == 0,
                a < t@.len(),
                ints(out@) == before + Seq::new(c as nat, |k: int| t@[a as int] as int),
            decreases r - c,
        {
            let ghost prev = out@;
            out.push(t[a]);
            assert(ints(out@) =~= before + Seq::new((c + 1) as nat, |k: int| t@[a as int] as int)) by {
                assert(ints(out@) =~= ints(prev).push(t@[a as int] as int));
            }
            c += 1;
        }
        assert(t@.take(a + 1).drop_last() =~= t@.take(a as int));
        assert(t@.take(a + 1).last() == t@[a as int]);
        assert(Seq::new(c as nat, |k: int| t@[a as int] as int) =~= Seq::new(if r > 0 { r as nat } else { 0 }, |k: int| t@[a as int] as int));
        assert(ints(out@) =~= start + repeat_each(t@.take(a + 1), r as int));
    }
    assert(t@.take(t@.len() as int) =~= t@);
}

/// The product of the free ranks of the groups of dimensions `p` and `q`
/// (0 where either is missing).
pub open spec fn free_term(hx: Seq<HomologyGroup>, hy: Seq<HomologyGroup>, p: int, q: int) -> int {
    let i = first_of_dim(hx, p);
    let j = first_of_dim(hy, q);
    if i >= 0 && j >= 0 { hx[i].free_rank * hy[j].free_rank } else { 0 }
}

/// The torsion products of the groups of dimensions `p` and `q` (nothing
/// where either is missing).
pub open spec fn tor_term(hx: Seq<HomologyGroup>, hy: Seq<HomologyGroup>, p: int, q: int) -> Seq<int> {
    let i = first_of_dim(hx, p);
    let j = first_of_dim(hy, q);
    if i >= 0 && j >= 0 { tor_list(hx[i].torsion@, hy[j].torsion@) } else { seq![] }
}

/// The torsion of `H_p(X) ⊗ H_q(Y)`: each coefficient of `H_p(X)` once per
/// free generator of `H_q(Y)`, each coefficient of `H_q(Y)` once per free
/// generator of `H_p(X)`, then `Z/a ⊗ Z/b = Z/gcd(a, b)` for each pair
/// (nothing where either group is missing).
pub open spec fn tensor_term(hx: Seq<HomologyGroup>, hy: Seq<HomologyGroup>, p: int, q: int) -> Seq<int> {
    let i = first_of_dim(hx, p);
    let j = first_of_dim(hy, q);
    if i >= 0 && j >= 0 {
        repeat_each(hx[i].torsion@, hy[j].free_rank as int) + repeat_each(hy[j].torsion@, hx[i].free_rank as int)
            + tor_list(hx[i].torsion@, hy[j].torsion@)
    } else {
        seq![]
    }
}

pub open spec fn tor_term_ok(hx: Seq<HomologyGroup>, hy: Seq<HomologyGroup>, p: int, q: int) -> bool {
    let i = first_of_dim(hx, p);
    let j = first_of_dim(hy, q);
    i >= 0 && j >= 0 ==> tor_inputs_ok(hx[i].torsion@, hy[j].torsion@)
}

/// `sum_{p' < p} free_term(p', n - p')`.
pub open spec fn kunneth_free(hx: Seq<HomologyGroup>, hy: Seq<HomologyGroup>, n: int, p: nat) -> int
    decreases p,
{
    if p == 0 {
        0
    } else {
        kunneth_free(hx, hy, n, (p - 1) as nat) + free_term(hx, hy, p - 1, n - (p - 1))
    }
}

/// The torsion of `H_{p'}(X) ⊗ H_{s - p'}(Y)` for `p' < p`, in order.
pub open spec fn kunneth_tensor_tor(hx: Seq<HomologyGroup>, hy: Seq<HomologyGroup>, s: int, p: nat) -> Seq<int>
    decreases p,
{
    if p == 0 {
        seq![]
    } else {
        kunneth_tensor_tor(hx, hy, s, (p - 1) as nat) + tensor_term(hx, hy, p - 1, s - (p - 1))
    }
}

/// `Tor(H_{p'}(X), H_{s - p'}(Y))` for `p' < p`, in order.
pub open spec fn kunneth_tor(hx: Seq<HomologyGroup>, hy: Seq<HomologyGroup>, s: int, p: nat) -> Seq<int>
    decreases p,
{
    if p == 0 {
        seq![]
    } else {
        kunneth_tor(hx, hy, s, (p - 1) as nat) + tor_term(hx, hy, p - 1, s - (p - 1))
    }
}

/// The torsion of H_n(X × Y): that of `H_p(X) ⊗ H_q(Y)` over `p + q == n`,
/// then `Tor(H_p(X), H_q(Y))` over `p + q == n - 1`.
pub open spec fn kunneth_torsion(hx: Seq<HomologyGroup>, hy: Seq<HomologyGroup>, n: nat) -> Seq<int> {
    kunneth_tensor_tor(hx, hy, n as int, n + 1) + if n > 0 { kunneth_tor(hx, hy, n - 1, n) } else { seq![] }
}

/// `gcd` does not depend on the order of its arguments.
pub proof fn lemma_gcd_symmetric(a: nat, b: nat)
    ensures
        gcd_nat(a, b) == gcd_nat(b, a),
{
    if a < b {
        vstd::arithmetic::div_mod::lemma_small_mod(a, b);
        assert(gcd_nat(a, b) == gcd_nat(b, a % b));
    } else if b < a {
        vstd::arithmetic::div_mod::lemma_small_mod(b, a);
        assert(gcd_nat(b, a) == gcd_nat(a, b % a));
    }
}

proof fn lemma_tor_list_empty(t: Seq<i64>)
    ensures
        tor_list(t, seq![]) == Seq::<int>::empty(),
    decreases t.len(),
{
    if t.len() > 0 {
        lemma_tor_list_empty(t.drop_last());
        assert(tor_row(t.last(), seq![]) =~= Seq::<int>::empty());
        assert(tor_list(t.drop_last(), seq![]) + tor_row(t.last(), seq![]) =~= Seq::<int>::empty());
    }
}

/// Adding a coefficient `a` to the second list adds `gcd(b, a)` for each `b`
/// of the first.
proof fn lemma_tor_list_push_right(t2: Seq<i64>, t1: Seq<i64>, a: i64)
    ensures
        tor_list(t2, t1.push(a)).to_multiset() =~= tor_list(t2, t1).to_multiset().add(tor_row(a, t2).to_multiset()),
    decreases t2.len(),
{
    broadcast use vstd::seq_lib::lemma_multiset_commutative;
    broadcast use vstd::multiset::group_multiset_axioms;
    broadcast use vstd::seq_lib::group_to_multiset_ensures;
    if t2.len() == 0 {
        assert(tor_row(a, t2) =~= Seq::<int>::empty());
        assert(tor_list(t2, t1.push(a)) =~= Seq::<int>::empty());
        assert(tor_list(t2, t1) =~= Seq::<int>::empty());
    } else {
        let b = t2.last();
        let t2p = t2.drop_last();
        lemma_tor_list_push_right(t2p, t1, a);
        lemma_gcd_symmetric(iabs(a as int), iabs(b as int));
        assert(tor_row(b, t1.push(a)) =~= tor_row(b, t1).push(gcd_nat(iabs(b as int), iabs(a as int)) as int));
        assert(tor_row(a, t2) =~= tor_row(a, t2p).push(gcd_nat(iabs(a as int), iabs(b as int)) as int));
        let g = gcd_nat(iabs(a as int), iabs(b as int)) as int;
        let rb = tor_row(b, t1);
        let ra = tor_row(a, t2p);
        let lp = tor_list(t2p, t1);
        let lpa = tor_list(t2p, t1.push(a));
        assert(t2p.push(b) =~= t2);
        assert(tor_list(t2, t1.push(a)) == lpa + rb.push(g));
        assert(tor_list(t2, t1) == lp + rb);
        assert(rb.push(g) =~= rb + seq![g]);
        assert(ra.push(g) =~= ra + seq![g]);
        assert((lpa + rb.push(g)).to_multiset() =~= lpa.to_multiset().add(rb.push(g).to_multiset()));
        assert((lp + rb).to_multiset() =~= lp.to_multiset().add(rb.to_multiset()));
        assert((rb + seq![g]).to_multiset() =~= rb.to_multiset().add(seq![g].to_multiset()));
        assert((ra + seq![g]).to_multiset() =~= ra.to_multiset().add(seq![g].to_multiset()));
    }
}

/// `Tor(A, B)` and `Tor(B, A)` have the same coefficients up to order.
pub proof fn lemma_tor_list_symmetric(t1: Seq<i64>, t2: Seq<i64>)
    ensures
        tor_list(t1, t2).to_multiset() =~= tor_list(t2, t1).to_multiset(),
    decreases t1.len(),
{
    broadcast use vstd::seq_lib::lemma_multiset_commutative;
    broadcast use vstd::multiset::group_multiset_axioms;
    broadcast use vstd::seq_lib::group_to_multiset_ensures;
    if t1.len() == 0 {
        lemma_tor_list_empty(t2);
        assert(t1 =~= seq![]);
    } else {
        let a = t1.last();
        let t1p = t1.drop_last();
        lemma_tor_list_symmetric(t1p, t2);
        lemma_tor_list_push_right(t2, t1p, a);
        assert(t1p.push(a) =~= t1);
    }
}

/// The torsion of `H_p(X) ⊗ H_q(Y)` and of `H_q(Y) ⊗ H_p(X)` agree up to order.
proof fn lemma_tensor_term_symmetric(hx: Seq<HomologyGroup>, hy: Seq<HomologyGroup>, p: int, q: int)
    ensures
        tensor_term(hx, hy, p, q).to_multiset() =~= tensor_term(hy, hx, q, p).to_multiset(),
        tor_term(hx, hy, p, q).to_multiset() =~= tor_term(hy, hx, q, p).to_multiset(),
{
    broadcast use vstd::seq_lib::lemma_multiset_commutative;
    broadcast use vstd::multiset::group_multiset_axioms;
    broadcast use vstd::seq_lib::group_to_multiset_ensures;
    let i = first_of_dim(hx, p);
    let j = first_of_dim(hy, q);
    if i >= 0 && j >= 0 {
        lemma_tor_list_symmetric(hx[i].torsion@, hy[j].torsion@);
    }
}

proof fn lemma_kunneth_free_reverse(hx: Seq<HomologyGroup>, hy: Seq<HomologyGroup>, n: nat, k: nat)
    requires
        k <= n + 1,
    ensures
        kunneth_free(hy, hx, n as int, k) == kunneth_free(hx, hy, n as int, n + 1) - kunneth_free(hx, hy, n as int, (n + 1 - k) as nat),
    decreases k,
{
    if k > 0 {
        let kk = (k - 1) as nat;
        lemma_kunneth_free_reverse(hx, hy, n, kk);
        let i = first_of_dim(hy, kk as int);
        let j = first_of_dim(hx, n - kk);
        if i >= 0 && j >= 0 {
            assert(hy[i].free_rank * hx[j].free_rank == hx[j].free_rank * hy[i].free_rank) by (nonlinear_arith);
        }
        assert(free_term(hy, hx, kk as int, n - kk) == free_term(hx, hy, n - kk, kk as int));
        assert(kunneth_free(hx, hy, n as int, (n + 1 - kk) as nat) == kunneth_free(hx, hy, n as int, (n - kk) as nat)
            + free_term(hx, hy, n - kk, n - (n - kk)));
    }
}

proof fn lemma_kunneth_tensor_reverse(hx: Seq<HomologyGroup>, hy: Seq<HomologyGroup>, n: nat, k: nat)
    requires
        k <= n + 1,
    ensures
        kunneth_tensor_tor(hy, hx, n as int, k).to_multiset().add(kunneth_tensor_tor(hx, hy, n as int, (n + 1 - k) as nat).to_multiset())
            =~= kunneth_tensor_tor(hx, hy, n as int, n + 1).to_multiset(),
    decreases k,
{
    broadcast use vstd::seq_lib::lemma_multiset_commutative;
    broadcast use vstd::multiset::group_multiset_axioms;
    broadcast use vstd::seq_lib::group_to_multiset_ensures;
    if k == 0 {
        assert(kunneth_tensor_tor(hy, hx, n as int, 0) =~= Seq::<int>::empty());
    } else {
        let kk = (k - 1) as nat;
        lemma_kunneth_tensor_reverse(hx, hy, n, kk);
        lemma_tensor_term_symmetric(hy, hx, kk as int, n - kk);
        let a = kunneth_tensor_tor(hy, hx, n as int, kk);
        let c = tensor_term(hy, hx, kk as int, n - kk);
        let b = kunneth_tensor_tor(hx, hy, n as int, (n - kk) as nat);
        let d = tensor_term(hx, hy, n - kk, kk as int);
        assert(kunneth_tensor_tor(hy, hx, n as int, k) == a + c);
        assert(kunneth_tensor_tor(hx, hy, n as int, (n + 1 - kk) as nat) == b + d);
        assert((a + c).to_multiset() =~= a.to_multiset().add(c.to_multiset()));
        assert((b + d).to_multiset() =~= b.to_multiset().add(d.to_multiset()));
        assert(c.to_multiset() =~= d.to_multiset());
    }
}

proof fn lemma_kunneth_tor_reverse(hx: Seq<HomologyGroup>, hy: Seq<HomologyGroup>, s: nat, k: nat)
    requires
        k <= s + 1,
    ensures
        kunneth_tor(hy, hx, s as int, k).to_multiset().add(kunneth_tor(hx, hy, s as int, (s + 1 - k) as nat).to_multiset())
            =~= kunneth_tor(hx, hy, s as int, s + 1).to_multiset(),
    decreases k,
{
    broadcast use vstd::seq_lib::lemma_multiset_commutative;
    broadcast use vstd::multiset::group_multiset_axioms;
    broadcast use vstd::seq_lib::group_to_multiset_ensures;
    if k == 0 {
        assert(kunneth_tor(hy, hx, s as int, 0) =~= Seq::<int>::empty());
    } else {
        let kk = (k - 1) as nat;
        lemma_kunneth_tor_reverse(hx, hy, s, kk);
        lemma_tensor_term_symmetric(hy, hx, kk as int, s - kk);
        let a = kunneth_tor(hy, hx, s as int, kk);
        let c = tor_term(hy, hx, kk as int, s - kk);
        let b = kunneth_tor(hx, hy, s as int, (s - kk) as nat);
        let d = tor_term(hx, hy, s - kk, kk as int);
        assert(kunneth_tor(hy, hx, s as int, k) == a + c);
        assert(kunneth_tor(hx, hy, s as int, (s + 1 - kk) as nat) == b + d);
        assert((a + c).to_multiset() =~= a.to_multiset().add(c.to_multiset()));
        assert((b + d).to_multiset() =~= b.to_multiset().add(d.to_multiset()));
        assert(c.to_multiset() =~= d.to_multiset());
    }
}

/// Künneth is symmetric in its two spaces: exchanging X and Y keeps the free
/// rank of H_n(X × Y) and its torsion coefficients up to order.
pub proof fn lemma_kunneth_symmetric(hx: Seq<HomologyGroup>, hy: Seq<HomologyGroup>, n: nat)
    ensures
        kunneth_free(hx, hy, n as int, n + 1) == kunneth_free(hy, hx, n as int, n + 1),
        kunneth_torsion(hx, hy, n).to_multiset() =~= kunneth_torsion(hy, hx, n).to_multiset(),
{
    broadcast use vstd::seq_lib::lemma_multiset_commutative;
    broadcast use vstd::multiset::group_multiset_axioms;
    broadcast use vstd::seq_lib::group_to_multiset_ensures;
    lemma_kunneth_free_reverse(hx, hy, n, n + 1);
    lemma_kunneth_tensor_reverse(hx, hy, n, n + 1);
    let t1 = kunneth_tensor_tor(hx, hy, n as int, n + 1);
    let t2 = kunneth_tensor_tor(hy, hx, n as int, n + 1);
    assert(kunneth_tensor_tor(hx, hy, n as int, 0) =~= Seq::<int>::empty());
    assert(t2.to_multiset() =~= t1.to_multiset());
    if n > 0 {
        lemma_kunneth_tor_reverse(hx, hy, (n - 1) as nat, n);
        let r1 = kunneth_tor(hx, hy, n - 1, n);
        let r2 = kunneth_tor(hy, hx, n - 1, n);
        assert(kunneth_tor(hx, hy, n - 1, 0) =~= Seq::<int>::empty());
        assert(r2.to_multiset() =~= r1.to_multiset());
        assert((t1 + r1).to_multiset() =~= t1.to_multiset().add(r1.to_multiset()));
        assert((t2 + r2).to_multiset() =~= t2.to_multiset().add(r2.to_multiset()));
    } else {
        assert(t1 + Seq::<int>::empty() =~= t1);
        assert(t2 + Seq::<int>::empty() =~= t2);
    }
}

/// The free rank of the first group of dimension `d` listed in `hom` (0
/// where none is listed).
pub open spec fn listed_rank(hom: Seq<HomologyGroup>, d: int) -> int {
    let i = first_of_dim(hom, d);
    if i >= 0 { hom[i].free_rank as int } else { 0 }
}

/// `sum_{p < k} rank H_p(X) * rank H_{n-p}(Y)`: the rank of the free part of
/// `⊕ H_p(X) ⊗ H_{n-p}(Y)` over those `p`.
pub open spec fn rank_products(hx: Seq<HomologyGroup>, hy: Seq<HomologyGroup>, n: int, k: nat) -> int
    decreases k,
{
    if k == 0 {
        0
    } else {
        rank_products(hx, hy, n, (k - 1) as nat) + listed_rank(hx, k - 1) * listed_rank(hy, n - (k - 1))
    }
}

/// The free rank of H_n(X × Y) is the sum over `p + q == n` of the products
/// of the free ranks of H_p(X) and H_q(Y), a missing group counting as 0.
pub proof fn lemma_kunneth_free_is_rank_products(hx: Seq<HomologyGroup>, hy: Seq<HomologyGroup>, n: int, k: nat)
    ensures
        kunneth_free(hx, hy, n, k) == rank_products(hx, hy, n, k),
    decreases k,
{
    if k > 0 {
        lemma_kunneth_free_is_rank_products(hx, hy, n, (k - 1) as nat);
        let i = first_of_dim(hx, k - 1);
        let j = first_of_dim(hy, n - (k - 1));
        if i < 0 {
            assert(listed_rank(hx, k - 1) * listed_rank(hy, n - (k - 1)) == 0);
        } else if j < 0 {
            assert(listed_rank(hx, k - 1) * listed_rank(hy, n - (k - 1)) == 0);
        }
    }
}

proof fn lemma_rank_products_points_below(hx: Seq<HomologyGroup>, hy: Seq<HomologyGroup>, n: int, k: nat)
    requires
        hy.len() == 1,
        hy[0].dimension == 0,
        k <= n,
    ensures
        rank_products(hx, hy, n, k) == 0,
    decreases k,
{
    if k > 0 {
        lemma_rank_products_points_below(hx, hy, n, (k - 1) as nat);
        lemma_first_of_dim(hy, n - (k - 1), 1);
        assert(listed_rank(hy, n - (k - 1)) == 0);
        assert(listed_rank(hx, k - 1) * listed_rank(hy, n - (k - 1)) == 0);
    }
}

/// The product with a space of `m` points: where Y has only H_0 = Z^m, the
/// free rank of H_n(X × Y) is `m` times that of H_n(X) (X × pt = X for
/// `m == 1`).
pub proof fn lemma_kunneth_with_points(hx: Seq<HomologyGroup>, hy: Seq<HomologyGroup>, n: nat)
    requires
        hy.len() == 1,
        hy[0].dimension == 0,
    ensures
        kunneth_free(hx, hy, n as int, n + 1) == listed_rank(hx, n as int) * hy[0].free_rank,
{
    lemma_kunneth_free_is_rank_products(hx, hy, n as int, n + 1);
    lemma_rank_products_points_below(hx, hy, n as int, n);
    lemma_first_of_dim(hy, 0, 0);
    assert(listed_rank(hy, 0) == hy[0].free_rank);
}

/// The torsion coefficients of the first group of dimension `d` listed in
/// `hom` (none where no group is listed).
pub open spec fn listed_torsion(hom: Seq<HomologyGroup>, d: int) -> Seq<int> {
    let i = first_of_dim(hom, d);
    if i >= 0 { ints(hom[i].torsion@) } else { seq![] }
}

/// `hom` is the homology of a point: H_0 = Z and nothing else.
pub open spec fn is_point_homology(hom: Seq<HomologyGroup>) -> bool {
    &&& hom.len() == 1
    &&& hom[0].dimension == 0
    &&& hom[0].free_rank == 1
    &&& hom[0].torsion@.len() == 0
}

proof fn lemma_repeat_once(t: Seq<i64>)
    ensures
        repeat_each(t, 1) == ints(t),
    decreases t.len(),
{
    if t.len() > 0 {
        lemma_repeat_once(t.drop_last());
        assert(ints(t) =~= ints(t.drop_last()) + seq![t.last() as int]);
        assert(Seq::new(1nat, |k: int| t.last() as int) =~= seq![t.last() as int]);
    } else {
        assert(ints(t) =~= Seq::<int>::empty());
    }
}

proof fn lemma_point_tensor_below(hx: Seq<HomologyGroup>, hy: Seq<HomologyGroup>, n: int, k: nat)
    requires
        is_point_homology(hy),
        k <= n,
    ensures
        kunneth_tensor_tor(hx, hy, n, k) == Seq::<int>::empty(),
    decreases k,
{
    if k > 0 {
        lemma_point_tensor_below(hx, hy, n, (k - 1) as nat);
        lemma_first_of_dim(hy, n - (k - 1), 1);
        assert(kunneth_tensor_tor(hx, hy, n, k) =~= Seq::<int>::empty());
    }
}

proof fn lemma_point_tor(hx: Seq<HomologyGroup>, hy: Seq<HomologyGroup>, s: int, k: nat)
    requires
        is_point_homology(hy),
    ensures
        kunneth_tor(hx, hy, s, k) == Seq::<int>::empty(),
    decreases k,
{
    if k > 0 {
        lemma_point_tor(hx, hy, s, (k - 1) as nat);
        let q = s - (k - 1);
        let j = first_of_dim(hy, q);
        if q == 0 {
            lemma_first_of_dim(hy, q, 0);
            let i = first_of_dim(hx, k - 1);
            if i >= 0 {
                assert(hy[0].torsion@ =~= Seq::<i64>::empty());
                lemma_tor_list_empty(hx[i].torsion@);
            }
        } else {
            lemma_first_of_dim(hy, q, 1);
        }
        assert(kunneth_tor(hx, hy, s, k) =~= Seq::<int>::empty());
    }
}

/// The product with a point changes nothing: where Y is a point, H_n(X × Y)
/// has the free rank and the torsion coefficients of H_n(X).
pub proof fn lemma_kunneth_with_point(hx: Seq<HomologyGroup>, hy: Seq<HomologyGroup>, n: nat)
    requires
        is_point_homology(hy),
    ensures
        kunneth_free(hx, hy, n as int, n + 1) == listed_rank(hx, n as int),
        kunneth_torsion(hx, hy, n) == listed_torsion(hx, n as int),
{
    lemma_kunneth_with_points(hx, hy, n);
    lemma_point_tensor_below(hx, hy, n as int, n);
    lemma_first_of_dim(hy, 0, 0);
    let i = first_of_dim(hx, n as int);
    if i >= 0 {
        lemma_repeat_once(hx[i].torsion@);
        lemma_tor_list_empty(hx[i].torsion@);
        assert(hy[0].torsion@ =~= Seq::<i64>::empty());
        assert(repeat_each(hy[0].torsion@, hx[i].free_rank as int) =~= Seq::<int>::empty());
        assert(tensor_term(hx, hy, n as int, 0) =~= ints(hx[i].torsion@));
    } else {
        assert(tensor_term(hx, hy, n as int, 0) =~= Seq::<int>::empty());
    }
    assert(kunneth_tensor_tor(hx, hy, n as int, n + 1) =~= listed_torsion(hx, n as int));
    if n > 0 {
        lemma_point_tor(hx, hy, n - 1, n);
    }
    assert(kunneth_torsion(hx, hy, n) =~= listed_torsion(hx, n as int));
}

/// `kunneth` on these inputs stays within `i64` and takes no absolute value
/// of `i64::MIN`.
pub open spec fn kunneth_fits(hx: Seq<HomologyGroup>, hy: Seq<HomologyGroup>, n: nat) -> bool {
    &&& forall|p: nat| p <= n + 1 ==> i64::MIN <= #[trigger] kunneth_free(hx, hy, n as int, p) <= i64::MAX
    &&& forall|p: int| 0 <= p <= n ==> i64::MIN <= #[trigger] free_term(hx, hy, p, n - p) <= i64::MAX
    &&& forall|p: int| 0 <= p <= n ==> #[trigger] tor_term_ok(hx, hy, p, n - p)
    &&& forall|p: int| 0 <= p < n ==> #[trigger] tor_term_ok(hx, hy, p, n - 1 - p)
}

/// Künneth formula: H_n(X × Y) in terms of H_*(X) and H_*(Y).
/// H_n(X × Y) ≅ ⊕_{p+q=n} H_p(X) ⊗ H_q(Y) ⊕ ⊕_{p+q=n-1} Tor(H_p(X), H_q(Y))
pub fn kunneth(hom_x: &[HomologyGroup], hom_y: &[HomologyGroup], n: usize) -> (h: HomologyGroup)
    requires
        kunneth_fits(hom_x@, hom_y@, n as nat),
    ensures
        h.dimension == n,
        h.free_rank == kunneth_free(hom_x@, hom_y@, n as int, (n + 1) as nat),
        ints(h.torsion@) == kunneth_torsion(hom_x@, hom_y@, n as nat),
        h.free_rank == rank_products(hom_x@, hom_y@, n as int, (n + 1) as nat),
{
    let mut free_rank: i64 = 0;
    let mut torsion: Vec<i64> = Vec::new();
    // Free part: ⊕_{p+q=n} H_p(X) ⊗ H_q(Y)
    let mut p: usize = 0;
    loop
        invariant_except_break
            free_rank == kunneth_free(hom_x@, hom_y@, n as int, p as nat),
            ints(torsion@) == kunneth_tensor_tor(hom_x@, hom_y@, n as int, p as nat),
        invariant
            kunneth_fits(hom_x@, hom_y@, n as nat),
            p <= n,
        ensures
            free_rank == kunneth_free(hom_x@, hom_y@, n as int, (n + 1) as nat),
            ints(torsion@) == kunneth_tensor_tor(hom_x@, hom_y@, n as int, (n + 1) as nat),
        decreases n - p,
    {
        let q = n - p;
        let hp = find_dim(hom_x, p);
        let hq = find_dim(hom_y, q);
        assert(i64::MIN <= kunneth_free(hom_x@, hom_y@, n as int, (p + 1) as nat) <= i64::MAX);
        assert(i64::MIN <= free_term(hom_x@, hom_y@, p as int, n - p) <= i64::MAX);
        assert(tor_term_ok(hom_x@, hom_y@, p as int, n - p));
        let ghost before = ints(torsion@);
        if let (Some(i), Some(j)) = (hp, hq) {
            // Tensor product of free parts
            let prod = hom_x[i].free_rank * hom_y[j].free_rank;
            free_rank = free_rank + prod;
            // Z/a ⊗ Z^r and Z^r ⊗ Z/b, then Z/a ⊗ Z/b = Z/gcd(a, b)
            push_repeat(&mut torsion, &hom_x[i].torsion, hom_y[j].free_rank);
            push_repeat(&mut torsion, &hom_y[j].torsion, hom_x[i].free_rank);
            push_tor(&mut torsion, &hom_x[i].torsion, &hom_y[j].torsion);
        }
        assert(ints(torsion@) =~= kunneth_tensor_tor(hom_x@, hom_y@, n as int, (p + 1) as nat));
        if p == n {
            break;
        }
        p += 1;
    }
    // Tor part: ⊕_{p+q=n-1} Tor(H_p(X), H_q(Y))
    let ghost first = ints(torsion@);
    if n > 0 {
        for p in 0..n
            invariant
                kunneth_fits(hom_x@, hom_y@, n as nat),
                n > 0,
                ints(torsion@) == first + kunneth_tor(hom_x@, hom_y@, n - 1, p as nat),
        {
            let q = n - 1 - p;
            let hp = find_dim(hom_x, p);
            let hq = find_dim(hom_y, q);
            assert(tor_term_ok(hom_x@, hom_y@, p as int, n - 1 - p));
            // Tor(Z/m, Z/n) = Z/gcd(m,n)
            if let (Some(i), Some(j)) = (hp, hq) {
                push_tor(&mut torsion, &hom_x[i].torsion, &hom_y[j].torsion);
            }
            assert(ints(torsion@) =~= first + kunneth_tor(hom_x@, hom_y@, n - 1, (p + 1) as nat));
        }
    }
    assert(ints(torsion@) =~= kunneth_torsion(hom_x@, hom_y@, n as nat));
    proof {
        lemma_kunneth_free_is_rank_products(hom_x@, hom_y@, n as int, (n + 1) as nat);
    }
    HomologyGroup { dimension: n, free_rank, torsion }
}

/// Compute all Künneth homology groups for X × Y.
pub fn kunneth_all(hom_x: &[HomologyGroup], hom_y: &[HomologyGroup], max_n: usize) -> (res: Vec<HomologyGroup>)
    requires
        forall|n: nat| n <= max_n ==> #[trigger] kunneth_fits(hom_x@, hom_y@, n),
    ensures
        res@.len() == max_n + 1,
        forall|n: int| 0 <= n <= max_n ==> {
            &&& (#[trigger] res@[n]).dimension == n
            &&& res@[n].free_rank == kunneth_free(hom_x@, hom_y@, n, (n + 1) as nat)
            &&& ints(res@[n].torsion@) == kunneth_torsion(hom_x@, hom_y@, n as nat)
        },
{
    let mut res: Vec<HomologyGroup> = Vec::new();
    let mut n: usize = 0;
    loop
        invariant
            forall|m: nat| m <= max_n ==> #[trigger] kunneth_fits(hom_x@, hom_y@, m),
            n <= max_n,
            res@.len() == n,
            forall|m: int| 0 <= m < n ==> {
                &&& (#[trigger] res@[m]).dimension == m
                &&& res@[m].free_rank == kunneth_free(hom_x@, hom_y@, m, (m + 1) as nat)
                &&& ints(res@[m].torsion@) == kunneth_torsion(hom_x@, hom_y@, m as nat)
            },
        decreases max_n - n,
    {
        assert(kunneth_fits(hom_x@, hom_y@, n as nat));
        res.push(kunneth(hom_x, hom_y, n));
        if n == max_n {
            return res;
        }
        n += 1;
    }
}

/// The number of even coefficients in `t`: each `Z/m` with `m` even has
/// `Hom(Z/m, Z/2) = Ext(Z/m, Z/2) = Z/2`, each with `m` odd gives nothing.
pub open spec fn even_count(t: Seq<int>) -> int
    decreases t.len(),
{
    if t.len() == 0 {
        0
    } else {
        even_count(t.drop_last()) + if t.last() % 2 == 0 { 1int } else { 0int }
    }
}

/// The dimension of H^n(C; Z/2) by the universal coefficient theorem:
/// `Hom(H_n, Z/2) ⊕ Ext(H_{n-1}, Z/2)`, that is the free rank of H_n, one for
/// each even torsion coefficient of H_n, and one for each even torsion
/// coefficient of H_{n-1}.
pub open spec fn z2_rank(ranks: Seq<usize>, maps: Seq<Mat>, n: int) -> int {
    computed_free(ranks, maps, n) + even_count(computed_torsion(ranks, maps, n))
        + if n > 0 { even_count(computed_torsion(ranks, maps, n - 1)) } else { 0 }
}

/// The number of torsion coefficients `m` in `t` with `m` even.
pub open spec fn evens(t: Seq<int>) -> int {
    t.filter(|m: int| m % 2 == 0).len() as int
}

proof fn lemma_even_count_is_evens(t: Seq<int>)
    ensures
        even_count(t) == evens(t),
    decreases t.len(),
{
    if t.len() > 0 {
        lemma_even_count_is_evens(t.drop_last());
        assert(t.drop_last().push(t.last()) =~= t);
        t.drop_last().lemma_filter_len_push(|m: int| m % 2 == 0, t.last());
    } else {
        reveal_with_fuel(Seq::filter, 1);
    }
}

/// Universal coefficients over Z/2: the dimension of H^n(C; Z/2) is the free
/// rank of H_n, plus the number of even torsion coefficients of H_n (each
/// `Hom(Z/m, Z/2) = Z/2`), plus, for `n > 0`, the number of even torsion
/// coefficients of H_{n-1} (each `Ext(Z/m, Z/2) = Z/2`); free and torsion
/// parts add up.
pub proof fn lemma_z2_rank_counts(ranks: Seq<usize>, maps: Seq<Mat>, n: int)
    ensures
        z2_rank(ranks, maps, n) == computed_free(ranks, maps, n) + evens(computed_torsion(ranks, maps, n))
            + if n > 0 { evens(computed_torsion(ranks, maps, n - 1)) } else { 0 },
{
    lemma_even_count_is_evens(computed_torsion(ranks, maps, n));
    if n > 0 {
        lemma_even_count_is_evens(computed_torsion(ranks, maps, n - 1));
    }
}

/// The number of even coefficients of `t`.
fn count_even(t: &Vec<i64>) -> (c: usize)
    ensures
        c == even_count(ints(t@)),
{
    let mut c: usize = 0;
    for i in 0..t.len()
        invariant
            c == even_count(ints(t@.take(i as int))),
            c <= i,
    {
        assert(ints(t@.take(i + 1)).drop_last() =~= ints(t@.take(i as int)));
        assert(ints(t@.take(i + 1)).last() == t@[i as int] as int);
        if t[i] % 2 == 0 {
            c += 1;
        }
    }
    assert(t@.take(t@.len() as int) =~= t@);
    c
}

/// Compute cohomology with Z/2 coefficients from a chain complex:
/// `H^n(C; Z/2) = Hom(H_n, Z/2) ⊕ Ext(H_{n-1}, Z/2)`, a vector space over Z/2
/// reported as its dimension with no torsion. `None` where computing H_n or
/// H_{n-1}, or that dimension, leaves the `i64` range.
pub fn cohomology_z2(complex: &ChainComplex, n: usize) -> (res: Option<CohomologyGroup>)
    ensures
        res is Some <==> homology_fits(complex.ranks@, complex.maps_view(), n as int)
            && (n > 0 ==> homology_fits(complex.ranks@, complex.maps_view(), n - 1))
            && fits_i64(z2_rank(complex.ranks@, complex.maps_view(), n as int)),
        res matches Some(c) ==> c.dimension == n && c.torsion@.len() == 0
            && c.free_rank == z2_rank(complex.ranks@, complex.maps_view(), n as int),
        res matches Some(c) ==> c.free_rank == computed_free(complex.ranks@, complex.maps_view(), n as int)
            + evens(computed_torsion(complex.ranks@, complex.maps_view(), n as int))
            + if n > 0 { evens(computed_torsion(complex.ranks@, complex.maps_view(), n - 1)) } else { 0 },
{
    let ghost ranks = complex.ranks@;
    let ghost maps = complex.maps_view();
    proof {
        lemma_z2_rank_counts(ranks, maps, n as int);
    }
    let hom = match complex.homology(n) {
        Some(h) => h,
        None => {
            return None;
        },
    };
    // Hom(H_n, Z/2): the free part and the even torsion of H_n
    let mut total: i128 = hom.free_rank as i128 + count_even(&hom.torsion) as i128;
    assert(total == computed_free(ranks, maps, n as int) + even_count(computed_torsion(ranks, maps, n as int)));
    // Ext(H_{n-1}, Z/2): the even torsion of H_{n-1}
    if n > 0 {
        let prev = match complex.homology(n - 1) {
            Some(h) => h,
            None => {
                return None;
            },
        };
        total = total + count_even(&prev.torsion) as i128;
        assert(total == z2_rank(ranks, maps, n as int));
    }
    if total < i64::MIN as i128 || total > i64::MAX as i128 {
        return None;
    }
    Some(CohomologyGroup { dimension: n, free_rank: total as i64, torsion: Vec::new() })
}

} // verus!
