//! Chain complexes, boundary operators, and homology computation.

use vstd::prelude::*;
use crate::matrix::{Mat, ZMatrix, col_neg, dmatrix_product, fits_i64, group_zmatrix, identity_mat, mat_mul, product_fits};
use crate::reduction::{Step, reduce_step, round_inv, round_measure};
use crate::rank::{is_kernel_basis, lemma_kernel_basis, lemma_kernel_basis_size, lemma_rank_sum};
use crate::euler::{as_i64, betti_sum};
use crate::snf_run::{
    lemma_position_again, lemma_position_finished, lemma_position_overflow, normalize, position_ok, position_result,
    lemma_snf_diag_shape, run_positions, same_shape, snf_diag, snf_fits, snf_min_dim, snf_run,
};
use crate::text::{decimal, push_decimal, push_signed, signed_decimal};
use crate::smith::{
    is_smith_form, lemma_block_bound, lemma_reduced_is_smith, lemma_reduced_row_neg, lemma_snf_rel_init,
    lemma_snf_row_neg, reduced_upto, snf_rel,
};

verus! {

broadcast use group_zmatrix;

/// Element of Z (integer ring).
pub type Z = i64;

/// A chain complex over Z.
#[derive(Clone, Debug)]
pub struct ChainComplex {
    /// Boundary matrices: boundary_maps[k] is d_{k+1}: C_{k+1} -> C_k.
    pub boundary_maps: Vec<ZMatrix>,
    /// Rank (number of generators) at each dimension.
    pub ranks: Vec<usize>,
}

impl ChainComplex {
    /// Create a chain complex with given ranks and boundary maps.
    pub fn from_ranks_and_maps(ranks: Vec<usize>, boundary_maps: Vec<ZMatrix>) -> (c: Self)
        ensures
            c.ranks@ == ranks@,
            c.boundary_maps@ == boundary_maps@,
    {
        ChainComplex { boundary_maps, ranks }
    }

    /// Create a trivial chain complex.
    pub fn trivial() -> (c: Self)
        ensures
            c.ranks@.len() == 0,
            c.boundary_maps@.len() == 0,
    {
        ChainComplex { boundary_maps: Vec::new(), ranks: Vec::new() }
    }

    /// Compute the Smith normal form of a matrix over Z: `(u, s, v)` with
    /// `s = u * mat * v`, `u` and `v` invertible, `s` diagonal with
    /// non-negative entries each dividing the next. `None` where an
    /// intermediate value of the reduction leaves the `i64` range.
    pub fn smith_normal_form(mat: &ZMatrix) -> (res: Option<(ZMatrix, ZMatrix, ZMatrix)>)
        ensures
            res matches Some((u, s, v)) ==> is_smith_form(mat@, u@, s@, v@),
            mat@.rows == 0 || mat@.cols == 0 ==> res is Some,
            is_zero_mat(mat@) ==> (res matches Some((u, s, v)) && s@ == mat@ && u@ == identity_mat(mat@.rows)
                && v@ == identity_mat(mat@.cols)),
            res is Some <==> snf_fits(mat@),
            res matches Some((u, s, v)) ==> snf_run(mat@) == Some((u@, s@, v@)),
            snf_fits(mat@) ==> smith_witnessed(mat@),
    {
        let m = mat.nrows();
        let n = mat.ncols();
        let mut s = mat.copy_matrix();
        let mut u = ZMatrix::identity(m);
        let mut v = ZMatrix::identity(n);
        let ghost mut ui = identity_mat(m as nat);
        let ghost mut vi = identity_mat(n as nat);
        proof {
            lemma_snf_rel_init(mat@);
        }
        let min_dim = if m < n { m } else { n };
        assert(min_dim == snf_min_dim(mat@));
        for k in 0..min_dim
            invariant
                m == mat@.rows,
                n == mat@.cols,
                min_dim == (if m < n { m } else { n }),
                min_dim == snf_min_dim(mat@),
                snf_rel(mat@, u@, s@, v@, ui, vi),
                reduced_upto(s@, k as int),
                is_zero_mat(mat@) ==> s@ == mat@ && u@ == identity_mat(m as nat) && v@ == identity_mat(n as nat),
                run_positions(mat@, identity_mat(mat@.rows), identity_mat(mat@.cols), 0, min_dim as int)
                    == run_positions(s@, u@, v@, k as int, min_dim as int),
        {
            let ghost mut cur: int = 0;
            let ghost mut fresh: bool = true;
            let ghost xs = s@;
            let ghost xu = u@;
            let ghost xv = v@;
            proof {
                cur = lemma_block_bound(s@, k as int);
            }
            // Repeatedly reduce until position (k, k) divides everything in the block after it
            loop
                invariant_except_break
                    round_inv(mat@, u@, s@, v@, ui, vi, k as int, cur, fresh),
                    is_zero_mat(mat@) ==> s@ == mat@ && u@ == identity_mat(m as nat) && v@ == identity_mat(n as nat),
                    position_ok(xs, xu, xv, k as int) == position_ok(s@, u@, v@, k as int),
                    k < min_dim,
                    min_dim == snf_min_dim(mat@),
                    run_positions(mat@, identity_mat(mat@.rows), identity_mat(mat@.cols), 0, min_dim as int)
                        == run_positions(xs, xu, xv, k as int, min_dim as int),
                    position_ok(s@, u@, v@, k as int) ==> position_result(s@, u@, v@, k as int) == position_result(xs, xu, xv, k as int),
                ensures
                    snf_rel(mat@, u@, s@, v@, ui, vi),
                    reduced_upto(s@, k + 1),
                    is_zero_mat(mat@) ==> s@ == mat@ && u@ == identity_mat(m as nat) && v@ == identity_mat(n as nat),
                    position_ok(xs, xu, xv, k as int),
                    position_result(xs, xu, xv, k as int) == (s@, u@, v@),
                decreases round_measure(cur, fresh),
            {
                let ghost cs = s@;
                let ghost cu = u@;
                let ghost cv = v@;
                let (step, Ghost(ui2), Ghost(vi2), Ghost(c2), Ghost(f2)) = reduce_step(
                    &mut s,
                    &mut u,
                    &mut v,
                    k,
                    Ghost(mat@),
                    Ghost(ui),
                    Ghost(vi),
                    Ghost(cur),
                    Ghost(fresh),
                );
                match step {
                    Step::Overflow => {
                        proof {
                            lemma_position_overflow(cs, cu, cv, k as int);
                            assert(run_positions(xs, xu, xv, k as int, min_dim as int) is None);
                        }
                        return None;
                    },
                    Step::Finished => {
                        proof {
                            lemma_position_finished(cs, cu, cv, k as int, s@, u@, v@);
                            ui = ui2;
                            vi = vi2;
                        }
                        break;
                    },
                    Step::Again => {
                        proof {
                            lemma_position_again(cs, cu, cv, k as int, s@, u@, v@);
                            ui = ui2;
                            vi = vi2;
                            cur = c2;
                            fresh = f2;
                        }
                    },
                }
            }
            assert(run_positions(xs, xu, xv, k as int, min_dim as int) == run_positions(s@, u@, v@, k + 1, min_dim as int));
        }
        let ghost sn = s@;
        let ghost un = u@;
        let ghost vn = v@;
        assert(run_positions(s@, u@, v@, min_dim as int, min_dim as int) == Some((sn, un, vn)));
        // Normalize: make all diagonal entries positive
        for k in 0..min_dim
            invariant
                m == mat@.rows,
                n == mat@.cols,
                min_dim == (if m < n { m } else { n }),
                min_dim == snf_min_dim(mat@),
                snf_rel(mat@, u@, s@, v@, ui, vi),
                reduced_upto(s@, min_dim as int),
                is_zero_mat(mat@) ==> s@ == mat@ && u@ == identity_mat(m as nat) && v@ == identity_mat(n as nat),
                run_positions(mat@, identity_mat(mat@.rows), identity_mat(mat@.cols), 0, min_dim as int) == Some((sn, un, vn)),
                v@ == vn,
                normalize(sn, un, 0, min_dim as int) == normalize(s@, u@, k as int, min_dim as int),
        {
            if s.get(k, k) < 0 {
                let ghost s0 = s@;
                let ghost u0 = u@;
                if !s.row_negate(k) {
                    return None;
                }
                if !u.row_negate(k) {
                    return None;
                }
                proof {
                    lemma_snf_row_neg(mat@, u0, s0, v@, ui, vi, k as int);
                    lemma_reduced_row_neg(s0, min_dim as int, k as int);
                    ui = col_neg(ui, k as int);
                }
            }
        }
        proof {
            lemma_reduced_is_smith(mat@, u@, s@, v@, ui, vi);
            assert(normalize(s@, u@, min_dim as int, min_dim as int) == Some((s@, u@)));
            assert(snf_run(mat@) == Some((u@, s@, v@)));
            assert(snf_diag(mat@) == s@);
            assert(is_smith_form(mat@, u@, snf_diag(mat@), v@));
        }
        Some((u, s, v))
    }
}


/// The entries of an `i64` sequence as integers.
pub open spec fn ints(v: Seq<i64>) -> Seq<int> {
    Seq::new(v.len(), |i: int| v[i] as int)
}

/// The index of the first zero of `d`, or its length where it has none.
pub open spec fn first_zero(d: Seq<int>) -> nat
    decreases d.len(),
{
    if d.len() == 0 || d[0] == 0 {
        0
    } else {
        1 + first_zero(d.drop_first())
    }
}

/// The entries of `d` that differ from 1, in order.
pub open spec fn non_units(d: Seq<int>) -> Seq<int>
    decreases d.len(),
{
    if d.len() == 0 {
        seq![]
    } else if d.last() == 1 {
        non_units(d.drop_last())
    } else {
        non_units(d.drop_last()).push(d.last())
    }
}

/// The rank of a Smith normal form: its number of nonzero diagonal entries.
pub open spec fn snf_rank(s: Mat) -> nat {
    first_zero(s.diagonal())
}

/// The torsion coefficients read off a Smith normal form: its nonzero
/// diagonal entries other than 1.
pub open spec fn snf_torsion(s: Mat) -> Seq<int> {
    non_units(s.diagonal().take(first_zero(s.diagonal()) as int))
}

/// `r` is the dimension of the kernel of `a` read off some Smith normal form.
pub open spec fn is_kernel_dimension(a: Mat, r: int) -> bool {
    exists|u: Mat, s: Mat, v: Mat| #[trigger] is_smith_form(a, u, s, v) && r == a.cols - snf_rank(s)
}

/// `r` is the rank of the image of `a`, read off some Smith normal form.
pub open spec fn is_image_rank(a: Mat, r: int) -> bool {
    exists|u: Mat, s: Mat, v: Mat| #[trigger] is_smith_form(a, u, s, v) && r == snf_rank(s)
}

/// `r` is the rank of the image of `a`, and `t` its torsion coefficients,
/// read off some Smith normal form.
pub open spec fn is_image_rank_and_torsion(a: Mat, r: int, t: Seq<int>) -> bool {
    exists|u: Mat, s: Mat, v: Mat| #[trigger] is_smith_form(a, u, s, v) && r == snf_rank(s) && t == snf_torsion(s)
}

pub proof fn lemma_first_zero(d: Seq<int>, i: int)
    requires
        0 <= i <= d.len(),
        forall|j: int| 0 <= j < i ==> #[trigger] d[j] != 0,
        i == d.len() || d[i] == 0,
    ensures
        first_zero(d) == i,
    decreases d.len(),
{
    if d.len() > 0 && d[0] != 0 {
        let t = d.drop_first();
        assert forall|j: int| 0 <= j < i - 1 implies #[trigger] t[j] != 0 by {
            assert(d[j + 1] != 0);
        }
        lemma_first_zero(t, i - 1);
    }
}

pub proof fn lemma_non_units_push(d: Seq<int>, x: int)
    ensures
        non_units(d.push(x)) == if x == 1 { non_units(d) } else { non_units(d).push(x) },
{
    assert(d.push(x).drop_last() =~= d);
}

/// Number of leading nonzero entries and the leading nonzero entries other
/// than 1.
fn rank_and_torsion_of_diagonal(diag: &Vec<Z>) -> (res: (usize, Vec<Z>))
    ensures
        res.0 == first_zero(ints(diag@)),
        ints(res.1@) == non_units(ints(diag@).take(first_zero(ints(diag@)) as int)),
{
    let ghost d = ints(diag@);
    let mut torsion: Vec<Z> = Vec::new();
    let mut rank: usize = 0;
    let mut i: usize = 0;
    while i < diag.len()
        invariant
            d == ints(diag@),
            i <= diag.len(),
            rank == i,
            forall|j: int| 0 <= j < i ==> #[trigger] d[j] != 0,
            ints(torsion@) == non_units(d.take(i as int)),
        ensures
            i <= diag.len(),
            rank == i,
            forall|j: int| 0 <= j < i ==> #[trigger] d[j] != 0,
            ints(torsion@) == non_units(d.take(i as int)),
            i == diag.len() || d[i as int] == 0,
        decreases diag.len() - i,
    {
        let x = diag[i];
        if x == 0 {
            break;
        }
        rank += 1;
        proof {
            lemma_non_units_push(d.take(i as int), x as int);
            assert(d.take(i as int).push(x as int) =~= d.take(i + 1));
        }
        if x != 1 {
            torsion.push(x);
            assert(ints(torsion@) =~= non_units(d.take(i as int)).push(x as int));
        }
        i += 1;
    }
    proof {
        lemma_first_zero(d, i as int);
    }
    (rank, torsion)
}

impl ChainComplex {
    /// Get diagonal entries from a possibly non-square matrix.
    pub fn diagonal_entries(mat: &ZMatrix) -> (d: Vec<Z>)
        ensures
            ints(d@) == mat@.diagonal(),
    {
        let min_dim = if mat.nrows() < mat.ncols() { mat.nrows() } else { mat.ncols() };
        let mut d: Vec<Z> = Vec::new();
        for i in 0..min_dim
            invariant
                min_dim == (if mat@.rows <= mat@.cols { mat@.rows } else { mat@.cols }),
                d.len() == i,
                ints(d@) == mat@.diagonal().take(i as int),
        {
            let x = mat.get(i, i);
            let ghost before = d@;
            d.push(x);
            proof {
                let t = mat@.diagonal().take(i + 1);
                assert(mat@.diagonal()[i as int] == x);
                assert(before.len() == i);
                assert(d@.len() == i + 1);
                assert forall|j: int| 0 <= j < i + 1 implies #[trigger] ints(d@)[j] == t[j] by {
                    if j < i {
                        assert(ints(before)[j] == mat@.diagonal().take(i as int)[j]);
                        assert(d@[j] == before[j]);
                    } else {
                        assert(d@[j] == x);
                    }
                }
                assert(ints(d@) =~= t);
            }
        }
        assert(mat@.diagonal().take(min_dim as int) =~= mat@.diagonal());
        d
    }

    /// Compute dimension of kernel of a matrix over Z: the number of columns
    /// less the number of nonzero diagonal entries of its Smith normal form.
    /// `None` where the reduction leaves the `i64` range.
    pub fn kernel_dimension(mat: &ZMatrix) -> (res: Option<usize>)
        ensures
            res matches Some(r) ==> is_kernel_dimension(mat@, r as int),
            mat@.rows == 0 || mat@.cols == 0 ==> res is Some,
            is_zero_mat(mat@) ==> res == Some(mat@.cols as usize),
            res is Some <==> snf_fits(mat@),
            res matches Some(r) ==> r == mat@.cols - snf_rank(snf_diag(mat@)),
            res is Some ==> smith_witnessed(mat@),
            res matches Some(r) ==> exists|k: Mat, l: Mat| #[trigger] is_kernel_basis(mat@, k, l) && k.cols == r,
    {
        match Self::smith_normal_form(mat) {
            None => None,
            Some((u, s, v)) => {
                let diag = Self::diagonal_entries(&s);
                let (rank, _torsion) = rank_and_torsion_of_diagonal(&diag);
                proof {
                    lemma_zero_diagonal_rank(mat@, s@, ints(diag@));
                    assert(rank <= s@.diagonal().len()) by {
                        lemma_first_zero_bound(s@.diagonal());
                    }
                    assert(is_smith_form(mat@, u@, s@, v@));
                    lemma_kernel_basis(mat@, u@, s@, v@);
                }
                Some(mat.ncols() - rank)
            },
        }
    }

    /// Compute rank of image of a matrix: the number of nonzero diagonal
    /// entries of its Smith normal form. `None` where the reduction leaves
    /// the `i64` range.
    pub fn image_rank(mat: &ZMatrix) -> (res: Option<usize>)
        ensures
            res matches Some(r) ==> is_image_rank(mat@, r as int),
            mat@.rows == 0 || mat@.cols == 0 ==> res is Some,
            is_zero_mat(mat@) ==> res == Some(0usize),
            res is Some <==> snf_fits(mat@),
            res matches Some(r) ==> r == snf_rank(snf_diag(mat@)),
            res matches Some(r) ==> exists|k: Mat, l: Mat| #[trigger] is_kernel_basis(mat@, k, l) && r + k.cols == mat@.cols,
    {
        match Self::smith_normal_form(mat) {
            None => None,
            Some((u, s, v)) => {
                let diag = Self::diagonal_entries(&s);
                let (rank, _torsion) = rank_and_torsion_of_diagonal(&diag);
                proof {
                    lemma_zero_diagonal_rank(mat@, s@, ints(diag@));
                    assert(is_smith_form(mat@, u@, s@, v@));
                    lemma_kernel_basis(mat@, u@, s@, v@);
                }
                Some(rank)
            },
        }
    }

    /// Compute image rank and torsion coefficients.
    fn image_rank_and_torsion(mat: &ZMatrix) -> (res: Option<(usize, Vec<Z>)>)
        ensures
            res matches Some((r, t)) ==> is_image_rank_and_torsion(mat@, r as int, ints(t@)),
            mat@.rows == 0 || mat@.cols == 0 ==> res is Some,
            is_zero_mat(mat@) ==> (res matches Some((r, t)) && r == 0 && t@.len() == 0),
            res is Some <==> snf_fits(mat@),
            res matches Some((r, t)) ==> r == snf_rank(snf_diag(mat@)) && ints(t@) == snf_torsion(snf_diag(mat@)),
            res is Some ==> smith_witnessed(mat@),
    {
        match Self::smith_normal_form(mat) {
            None => None,
            Some((u, s, v)) => {
                let diag = Self::diagonal_entries(&s);
                let (rank, torsion) = rank_and_torsion_of_diagonal(&diag);
                proof {
                    lemma_zero_diagonal_rank(mat@, s@, ints(diag@));
                    if is_zero_mat(mat@) {
                        assert(ints(torsion@).len() == 0) by {
                            assert(ints(diag@).take(0) =~= Seq::<int>::empty());
                        }
                    }
                    assert(is_smith_form(mat@, u@, s@, v@));
                }
                Some((rank, torsion))
            },
        }
    }
}

/// A zero matrix left unchanged by the reduction has rank 0: its diagonal
/// starts with a zero, or is empty.
proof fn lemma_zero_diagonal_rank(a: Mat, s: Mat, d: Seq<int>)
    requires
        a.wf(),
        d == s.diagonal(),
        is_zero_mat(a) ==> s == a,
    ensures
        is_zero_mat(a) ==> first_zero(d) == 0,
{
    if is_zero_mat(a) && d.len() > 0 {
        assert(d[0] == a.e[0][0]);
    }
}

pub proof fn lemma_first_zero_bound(d: Seq<int>)
    ensures
        first_zero(d) <= d.len(),
    decreases d.len(),
{
    if d.len() > 0 && d[0] != 0 {
        lemma_first_zero_bound(d.drop_first());
    }
}


/// A homology group H_n = Z^free_rank ⊕ Z/t_1 ⊕ Z/t_2 ⊕ ...
#[derive(Debug)]
pub struct HomologyGroup {
    pub dimension: usize,
    pub free_rank: i64,
    pub torsion: Vec<Z>,
}

impl Clone for HomologyGroup {
    fn clone(&self) -> (h: Self)
        ensures
            h.dimension == self.dimension,
            h.free_rank == self.free_rank,
            h.torsion@ == self.torsion@,
    {
        self.copy_group()
    }
}

impl HomologyGroup {
    /// The free rank is zero and there is no torsion.
    pub fn is_trivial(&self) -> (b: bool)
        ensures
            b == (self.free_rank == 0 && self.torsion@.len() == 0),
    {
        self.free_rank == 0 && self.torsion.len() == 0
    }

    /// The free rank, or 0 where it is negative.
    pub fn rank(&self) -> (r: usize)
        ensures
            r == (if self.free_rank > 0 { self.free_rank } else { 0 }) as usize,
    {
        let f = if self.free_rank > 0 { self.free_rank } else { 0 };
        f as usize
    }

    /// The text `H_n = 0` for a trivial group, else `H_n = Z^r` followed by
    /// ` ⊕ Z/t` for each torsion coefficient `t`.
    pub fn to_display_string(&self) -> (s: String)
        ensures
            s@ == homology_text(*self),
    {
        let mut s = String::from_str("H_");
        push_decimal(&mut s, self.dimension as u64);
        if self.is_trivial() {
            s.append(" = 0");
        } else {
            s.append(" = Z^");
            push_signed(&mut s, self.free_rank);
            for i in 0..self.torsion.len()
                invariant
                    s@ == "H_"@ + decimal(self.dimension as nat) + " = Z^"@ + signed_decimal(self.free_rank as int)
                        + torsion_suffix(self.torsion@.take(i as int)),
            {
                let ghost before = s@;
                s.append(" ⊕ Z/");
                push_signed(&mut s, self.torsion[i]);
                assert(self.torsion@.take(i + 1).drop_last() =~= self.torsion@.take(i as int));
                assert(s@ =~= "H_"@ + decimal(self.dimension as nat) + " = Z^"@ + signed_decimal(self.free_rank as int)
                    + torsion_suffix(self.torsion@.take(i + 1)));
            }
            assert(self.torsion@.take(self.torsion@.len() as int) =~= self.torsion@);
        }
        s
    }

    /// A copy with the same dimension, free rank and torsion.
    pub fn copy_group(&self) -> (h: HomologyGroup)
        ensures
            h.dimension == self.dimension,
            h.free_rank == self.free_rank,
            h.torsion@ == self.torsion@,
    {
        let mut torsion: Vec<Z> = Vec::new();
        for i in 0..self.torsion.len()
            invariant
                torsion@ == self.torsion@.take(i as int),
        {
            torsion.push(self.torsion[i]);
            assert(torsion@ =~= self.torsion@.take(i + 1));
        }
        assert(torsion@ =~= self.torsion@);
        HomologyGroup { dimension: self.dimension, free_rank: self.free_rank, torsion }
    }
}

/// ` ⊕ Z/t` for each coefficient `t`, in order.
pub open spec fn torsion_suffix(t: Seq<i64>) -> Seq<char>
    decreases t.len(),
{
    if t.len() == 0 {
        seq![]
    } else {
        torsion_suffix(t.drop_last()) + " ⊕ Z/"@ + signed_decimal(t.last() as int)
    }
}

/// How a homology group is written: `H_n = 0`, or `H_n = Z^r ⊕ Z/t1 ⊕ ...`.
pub open spec fn homology_text(h: HomologyGroup) -> Seq<char> {
    if h.free_rank == 0 && h.torsion@.len() == 0 {
        "H_"@ + decimal(h.dimension as nat) + " = 0"@
    } else {
        "H_"@ + decimal(h.dimension as nat) + " = Z^"@ + signed_decimal(h.free_rank as int) + torsion_suffix(h.torsion@)
    }
}

/// The number of generators in dimension `n` (0 beyond the listed ranks).
pub open spec fn rank_at(ranks: Seq<usize>, n: int) -> int {
    if 0 <= n < ranks.len() { ranks[n] as int } else { 0 }
}

/// `ker` is the dimension of the kernel of `d_n` (all of `C_n` for `n == 0`
/// or where `d_n` is not given).
pub open spec fn kernel_part(ranks: Seq<usize>, maps: Seq<Mat>, n: int, ker: int) -> bool {
    if n == 0 {
        ker == rank_at(ranks, n)
    } else if n - 1 < maps.len() {
        is_kernel_dimension(maps[n - 1], ker)
    } else {
        ker == rank_at(ranks, n)
    }
}

/// `img` and `tors` are the rank and torsion of the image of `d_{n+1}`
/// (nothing where it is not given).
pub open spec fn image_part(maps: Seq<Mat>, n: int, img: int, tors: Seq<int>) -> bool {
    if n < maps.len() {
        is_image_rank_and_torsion(maps[n], img, tors)
    } else {
        img == 0 && tors.len() == 0
    }
}

/// `h` is H_n = ker(d_n) / im(d_{n+1}) of the chain complex with these ranks
/// and boundary maps: trivial where C_n has no generators; else its free rank
/// is `dim ker d_n - rank im d_{n+1}` (each taken as an `i64`) and its torsion
/// the invariant factors of `d_{n+1}` other than 1.
pub open spec fn is_homology(ranks: Seq<usize>, maps: Seq<Mat>, n: int, h: HomologyGroup) -> bool {
    &&& h.dimension == n
    &&& if rank_at(ranks, n) == 0 {
        h.free_rank == 0 && h.torsion@.len() == 0
    } else {
        exists|ker: nat, img: nat|
            #[trigger] kernel_part(ranks, maps, n, ker as int) && #[trigger] image_part(maps, n, img as int, ints(h.torsion@))
                && ker <= usize::MAX && img <= usize::MAX
                && h.free_rank == (ker as usize as i64) - (img as usize as i64)
    }
}

/// The rank of a map as the reduction reads it off its diagonal.
pub open spec fn map_rank(m: Mat) -> int {
    snf_rank(snf_diag(m)) as int
}

/// The dimension of the kernel of d_n that `homology` takes: C_n where d_n is
/// not given (`n == 0`, or past the listed maps), else the number of columns
/// of d_n less its rank.
pub open spec fn kernel_of(ranks: Seq<usize>, maps: Seq<Mat>, n: int) -> int {
    if n == 0 || n - 1 >= maps.len() {
        rank_at(ranks, n)
    } else {
        maps[n - 1].cols - map_rank(maps[n - 1])
    }
}

/// The rank of the image of d_{n+1} (0 where it is not given).
pub open spec fn image_of(maps: Seq<Mat>, n: int) -> int {
    if 0 <= n < maps.len() { map_rank(maps[n]) } else { 0 }
}

/// The torsion coefficients of the image of d_{n+1} (none where it is not given).
pub open spec fn torsion_of(maps: Seq<Mat>, n: int) -> Seq<int> {
    if 0 <= n < maps.len() { snf_torsion(snf_diag(maps[n])) } else { seq![] }
}

/// The free rank of H_n: the kernel dimension less the image rank, each taken
/// as an `i64`.
pub open spec fn free_of(ranks: Seq<usize>, maps: Seq<Mat>, n: int) -> int {
    (kernel_of(ranks, maps, n) as usize as i64) - (image_of(maps, n) as usize as i64)
}

/// H_n can be computed within `i64`: C_n has no generators, or the reductions
/// of d_n and d_{n+1} (where given) stay within `i64` and so does the free rank.
pub open spec fn homology_fits(ranks: Seq<usize>, maps: Seq<Mat>, n: int) -> bool {
    ||| rank_at(ranks, n) == 0
    ||| {
        &&& (n == 0 || n - 1 >= maps.len() || snf_fits(maps[n - 1]))
        &&& (n >= maps.len() || snf_fits(maps[n]))
        &&& fits_i64(free_of(ranks, maps, n))
    }
}

/// `h` is the H_n that `homology` computes: trivial where C_n has no
/// generators, else of free rank `free_of` and torsion `torsion_of`.
pub open spec fn is_computed_homology(ranks: Seq<usize>, maps: Seq<Mat>, n: int, h: HomologyGroup) -> bool {
    &&& h.dimension == n
    &&& if rank_at(ranks, n) == 0 {
        h.free_rank == 0 && h.torsion@.len() == 0
    } else {
        h.free_rank == free_of(ranks, maps, n) && ints(h.torsion@) == torsion_of(maps, n)
    }
}

/// The torsion of H_n as `homology` computes it.
pub open spec fn computed_torsion(ranks: Seq<usize>, maps: Seq<Mat>, n: int) -> Seq<int> {
    if rank_at(ranks, n) == 0 { seq![] } else { torsion_of(maps, n) }
}

/// The free rank of H_n as `homology` computes it.
pub open spec fn computed_free(ranks: Seq<usize>, maps: Seq<Mat>, n: int) -> int {
    if rank_at(ranks, n) == 0 { 0 } else { free_of(ranks, maps, n) }
}

/// The rank of H_n as `betti_numbers` reports it: the free rank that
/// `homology` computes, or 0 where that is not positive.
pub open spec fn computed_betti(ranks: Seq<usize>, maps: Seq<Mat>, n: int) -> usize {
    if rank_at(ranks, n) != 0 && free_of(ranks, maps, n) > 0 { free_of(ranks, maps, n) as usize } else { 0 }
}


/// Rank–nullity: for every matrix, the kernel dimension that
/// `kernel_dimension` reports (columns less the rank) and the image rank that
/// `image_rank` reports, both read off the same reduction, are non-negative
/// and add up to the number of columns; the rank is at most the number of rows.
pub proof fn lemma_rank_nullity(a: Mat)
    ensures
        a.cols - snf_rank(snf_diag(a)) >= 0,
        (a.cols - snf_rank(snf_diag(a))) + snf_rank(snf_diag(a)) == a.cols,
        snf_rank(snf_diag(a)) <= a.rows,
{
    lemma_map_rank_bound(a);
}

/// The kernel dimension is the dimension of the kernel: where the reduction
/// of `a` gives a Smith normal form, every basis of the integer kernel of `a`
/// has exactly `cols - rank` vectors, the value `kernel_dimension` reports,
/// and the image rank `image_rank` reports is `cols` less that number.
pub proof fn lemma_kernel_dimension_is_kernel_rank(a: Mat, k: Mat, l: Mat)
    requires
        a.wf(),
        smith_witnessed(a),
        is_kernel_basis(a, k, l),
    ensures
        k.cols == a.cols - snf_rank(snf_diag(a)),
        snf_rank(snf_diag(a)) + k.cols == a.cols,
{
    let (u, v) = choose|u: Mat, v: Mat| #[trigger] is_smith_form(a, u, snf_diag(a), v);
    lemma_kernel_basis(a, u, snf_diag(a), v);
    let (k0, l0) = choose|k0: Mat, l0: Mat| #[trigger] is_kernel_basis(a, k0, l0) && k0.cols == a.cols - snf_rank(snf_diag(a));
    lemma_kernel_basis_size(a, k, l, k0, l0);
}

/// Each boundary map d_{k+1} (the `k`-th) goes from C_{k+1} to C_k, and the
/// maps end one dimension below the top.
pub open spec fn shapes_consistent(ranks: Seq<usize>, maps: Seq<Mat>) -> bool {
    &&& ranks.len() == maps.len() + 1
    &&& forall|k: int| 0 <= k < maps.len() ==> (#[trigger] maps[k]).rows == ranks[k] && maps[k].cols == ranks[k + 1]
}

/// `sum_{n < k} (-1)^n rank C_n`.
pub open spec fn rank_alt_sum(ranks: Seq<usize>, k: nat) -> int
    decreases k,
{
    if k == 0 {
        0
    } else {
        rank_alt_sum(ranks, (k - 1) as nat) + if (k - 1) % 2 == 0 { rank_at(ranks, k - 1) } else { -rank_at(ranks, k - 1) }
    }
}

/// `sum_{n < k} (-1)^n` (free rank of H_n, as `homology` computes it).
pub open spec fn free_alt_sum(ranks: Seq<usize>, maps: Seq<Mat>, k: nat) -> int
    decreases k,
{
    if k == 0 {
        0
    } else {
        free_alt_sum(ranks, maps, (k - 1) as nat) + if (k - 1) % 2 == 0 {
            computed_free(ranks, maps, k - 1)
        } else {
            -computed_free(ranks, maps, k - 1)
        }
    }
}

/// The rank of d_n (0 for `n == 0` and past the listed maps).
pub open spec fn d_rank(maps: Seq<Mat>, n: int) -> int {
    if 1 <= n <= maps.len() { map_rank(maps[n - 1]) } else { 0 }
}

/// A rank read off the reduction is at most the number of rows and of columns.
pub proof fn lemma_map_rank_bound(m: Mat)
    ensures
        0 <= map_rank(m) <= m.rows,
        map_rank(m) <= m.cols,
{
    lemma_snf_diag_shape(m);
    lemma_first_zero_bound(snf_diag(m).diagonal());
}

/// The free rank of H_n is `rank C_n - rank d_n - rank d_{n+1}`.
pub proof fn lemma_free_rank_split(ranks: Seq<usize>, maps: Seq<Mat>, n: int)
    requires
        shapes_consistent(ranks, maps),
        forall|i: int| 0 <= i < ranks.len() ==> #[trigger] ranks[i] <= i64::MAX,
        0 <= n < ranks.len(),
    ensures
        computed_free(ranks, maps, n) == rank_at(ranks, n) - d_rank(maps, n) - d_rank(maps, n + 1),
{
    if 1 <= n <= maps.len() {
        lemma_map_rank_bound(maps[n - 1]);
        assert(maps[n - 1].cols == ranks[n]);
    }
    if n < maps.len() {
        lemma_map_rank_bound(maps[n]);
        assert(maps[n].rows == ranks[n]);
    }
    if rank_at(ranks, n) != 0 {
        let ker = kernel_of(ranks, maps, n);
        let img = image_of(maps, n);
        assert(0 <= ker <= i64::MAX);
        assert(0 <= img <= i64::MAX);
        assert(ker as usize as i64 == ker);
        assert(img as usize as i64 == img);
    }
}

proof fn lemma_alt_sums(ranks: Seq<usize>, maps: Seq<Mat>, k: nat)
    requires
        shapes_consistent(ranks, maps),
        forall|i: int| 0 <= i < ranks.len() ==> #[trigger] ranks[i] <= i64::MAX,
        k <= ranks.len(),
    ensures
        free_alt_sum(ranks, maps, k) == rank_alt_sum(ranks, k) - if k % 2 == 1 { d_rank(maps, k as int) } else {
            -d_rank(maps, k as int)
        },
    decreases k,
{
    if k > 0 {
        lemma_alt_sums(ranks, maps, (k - 1) as nat);
        lemma_free_rank_split(ranks, maps, k - 1);
    }
}

/// Euler–Poincaré: for a chain complex whose boundary maps chain its ranks,
/// the alternating sum of the free ranks of H_0, ..., H_top that `homology`
/// computes equals the alternating sum of the numbers of generators, the
/// Euler characteristic.
pub proof fn lemma_euler_poincare(ranks: Seq<usize>, maps: Seq<Mat>)
    requires
        shapes_consistent(ranks, maps),
        forall|i: int| 0 <= i < ranks.len() ==> #[trigger] ranks[i] <= i64::MAX,
    ensures
        free_alt_sum(ranks, maps, ranks.len()) == rank_alt_sum(ranks, ranks.len()),
{
    lemma_alt_sums(ranks, maps, ranks.len());
}

/// The reduction of `m` gives a Smith normal form of `m`, with the diagonal
/// matrix `snf_diag(m)`.
pub open spec fn smith_witnessed(m: Mat) -> bool {
    exists|u: Mat, v: Mat| #[trigger] is_smith_form(m, u, snf_diag(m), v)
}

/// Where C_n has generators, the reductions of d_n and d_{n+1} (where given)
/// give Smith normal forms: what computing H_n establishes.
pub open spec fn homology_witnessed(ranks: Seq<usize>, maps: Seq<Mat>, n: int) -> bool {
    rank_at(ranks, n) != 0 ==> {
        &&& (1 <= n <= maps.len() ==> smith_witnessed(maps[n - 1]))
        &&& (0 <= n < maps.len() ==> smith_witnessed(maps[n]))
    }
}

/// Consecutive boundary maps compose to zero: d_k ∘ d_{k+1} = 0.
pub open spec fn boundaries_compose_to_zero(maps: Seq<Mat>) -> bool {
    forall|k: int| 1 <= k < maps.len() ==> #[trigger] is_zero_mat(mat_mul(maps[k - 1], maps[k]))
}

/// Where d_n ∘ d_{n+1} = 0 and both reductions give Smith normal forms, the
/// free rank of H_n is not negative: rank d_n + rank d_{n+1} <= rank C_n.
pub proof fn lemma_free_rank_nonneg(ranks: Seq<usize>, maps: Seq<Mat>, n: int)
    requires
        shapes_consistent(ranks, maps),
        boundaries_compose_to_zero(maps),
        forall|i: int| 0 <= i < ranks.len() ==> #[trigger] ranks[i] <= i64::MAX,
        0 <= n < ranks.len(),
        homology_witnessed(ranks, maps, n),
    ensures
        computed_free(ranks, maps, n) >= 0,
{
    lemma_free_rank_split(ranks, maps, n);
    if rank_at(ranks, n) != 0 {
        if 1 <= n <= maps.len() {
            lemma_map_rank_bound(maps[n - 1]);
            assert(maps[n - 1].cols == ranks[n]);
        }
        if n < maps.len() {
            lemma_map_rank_bound(maps[n]);
            assert(maps[n].rows == ranks[n]);
        }
        if 1 <= n && n < maps.len() {
            let a = maps[n - 1];
            let b = maps[n];
            let (ua, va) = choose|u: Mat, v: Mat| #[trigger] is_smith_form(a, u, snf_diag(a), v);
            let (ub, vb) = choose|u: Mat, v: Mat| #[trigger] is_smith_form(b, u, snf_diag(b), v);
            assert(is_zero_mat(mat_mul(maps[n - 1], maps[n])));
            lemma_rank_sum(a, b, ua, snf_diag(a), va, ub, snf_diag(b), vb);
        }
    }
}

/// Euler–Poincaré with Betti numbers: for a chain complex whose boundary
/// maps chain its ranks and compose to zero, the Betti numbers that
/// `betti_numbers` gives (every H_n computed) have the alternating sum of
/// the numbers of generators as their alternating sum.
pub proof fn lemma_euler_poincare_betti(ranks: Seq<usize>, maps: Seq<Mat>, b: Seq<usize>)
    requires
        shapes_consistent(ranks, maps),
        boundaries_compose_to_zero(maps),
        forall|i: int| 0 <= i < ranks.len() ==> #[trigger] ranks[i] <= i64::MAX,
        b.len() == ranks.len(),
        forall|i: int| 0 <= i < b.len() ==> #[trigger] b[i] == computed_betti(ranks, maps, i),
        forall|i: int| 0 <= i < b.len() ==> #[trigger] homology_witnessed(ranks, maps, i),
    ensures
        betti_sum(b, b.len()) == betti_sum(ranks, b.len()),
{
    lemma_euler_poincare(ranks, maps);
    lemma_betti_sums(ranks, maps, b, b.len());
}

proof fn lemma_betti_sums(ranks: Seq<usize>, maps: Seq<Mat>, b: Seq<usize>, k: nat)
    requires
        shapes_consistent(ranks, maps),
        boundaries_compose_to_zero(maps),
        forall|i: int| 0 <= i < ranks.len() ==> #[trigger] ranks[i] <= i64::MAX,
        b.len() == ranks.len(),
        k <= b.len(),
        forall|i: int| 0 <= i < b.len() ==> #[trigger] b[i] == computed_betti(ranks, maps, i),
        forall|i: int| 0 <= i < b.len() ==> #[trigger] homology_witnessed(ranks, maps, i),
    ensures
        betti_sum(b, k) == free_alt_sum(ranks, maps, k),
        betti_sum(ranks, k) == rank_alt_sum(ranks, k),
    decreases k,
{
    if k > 0 {
        let i = k - 1;
        lemma_betti_sums(ranks, maps, b, (k - 1) as nat);
        lemma_free_rank_split(ranks, maps, i);
        lemma_free_rank_nonneg(ranks, maps, i);
        if 1 <= i <= maps.len() {
            lemma_map_rank_bound(maps[i - 1]);
        }
        if i < maps.len() {
            lemma_map_rank_bound(maps[i]);
        }
        assert(0 <= computed_free(ranks, maps, i) <= i64::MAX);
        assert(b[i] == computed_free(ranks, maps, i));
        assert(as_i64(b[i]) == b[i]);
        assert(as_i64(ranks[i]) == ranks[i]);
    }
}

/// Computing H_n needs no reduction step: C_n has no generators, or each
/// boundary map that H_n reads (d_n and d_{n+1}, where given) is zero.
pub open spec fn homology_needs_no_reduction(ranks: Seq<usize>, maps: Seq<Mat>, n: int) -> bool {
    ||| rank_at(ranks, n) == 0
    ||| {
        &&& (n == 0 || n - 1 >= maps.len() || is_zero_mat(maps[n - 1]))
        &&& (n >= maps.len() || is_zero_mat(maps[n]))
    }
}

/// The rank of a homology group, as `HomologyGroup::rank` gives it.
pub open spec fn betti_of(h: HomologyGroup) -> usize {
    (if h.free_rank > 0 { h.free_rank } else { 0 }) as usize
}

/// `b` is the rank of H_n.
pub open spec fn is_betti_number(ranks: Seq<usize>, maps: Seq<Mat>, n: int, b: usize) -> bool {
    exists|h: HomologyGroup| #[trigger] is_homology(ranks, maps, n, h) && b == betti_of(h)
}

impl ChainComplex {
    /// The boundary maps as mathematical matrices.
    pub open spec fn maps_view(&self) -> Seq<Mat> {
        Seq::new(self.boundary_maps@.len(), |i: int| self.boundary_maps@[i]@)
    }

    /// Compute homology group H_n.
    /// boundary_maps[k] = d_{k+1}: C_{k+1} -> C_k
    /// H_n = ker(d_n) / im(d_{n+1})
    /// d_n = boundary_maps[n-1] for n >= 1, d_0 = 0
    /// `None` where a reduction, or the difference of the two ranks, leaves
    /// the `i64` range.
    pub fn homology(&self, n: usize) -> (res: Option<HomologyGroup>)
        ensures
            res matches Some(h) ==> is_homology(self.ranks@, self.maps_view(), n as int, h),
            rank_at(self.ranks@, n as int) == 0 ==> res is Some,
            homology_needs_no_reduction(self.ranks@, self.maps_view(), n as int) ==> (res matches Some(h)
                && h.torsion@.len() == 0),
            res is Some <==> homology_fits(self.ranks@, self.maps_view(), n as int),
            res matches Some(h) ==> is_computed_homology(self.ranks@, self.maps_view(), n as int, h),
            res is Some ==> homology_witnessed(self.ranks@, self.maps_view(), n as int),
    {
        let rank_cn = if n < self.ranks.len() { self.ranks[n] } else { 0 };
        if rank_cn == 0 {
            return Some(HomologyGroup { dimension: n, free_rank: 0, torsion: Vec::new() });
        }
        // ker(d_n)
        let ker_dim: usize = if n == 0 {
            rank_cn  // d_0 = 0
        } else if n - 1 < self.boundary_maps.len() {
            match Self::kernel_dimension(&self.boundary_maps[n - 1]) {
                Some(k) => k,
                None => {
                    return None;
                },
            }
        } else {
            rank_cn
        };
        // im(d_{n+1}) and torsion
        let (img_dim, torsion): (usize, Vec<Z>) = if n < self.boundary_maps.len() {
            match Self::image_rank_and_torsion(&self.boundary_maps[n]) {
                Some(p) => p,
                None => {
                    return None;
                },
            }
        } else {
            (0, Vec::new())
        };
        let kf = ker_dim as i64;
        let ig = img_dim as i64;
        match kf.checked_sub(ig) {
            Some(free_rank) => {
                let h = HomologyGroup { dimension: n, free_rank, torsion };
                proof {
                    assert(kernel_part(self.ranks@, self.maps_view(), n as int, ker_dim as nat as int));
                    assert(image_part(self.maps_view(), n as int, img_dim as nat as int, ints(h.torsion@)));
                    assert(ker_dim == kernel_of(self.ranks@, self.maps_view(), n as int));
                    assert(img_dim == image_of(self.maps_view(), n as int));
                    assert(ints(torsion@) == torsion_of(self.maps_view(), n as int));
                    assert(kernel_of(self.ranks@, self.maps_view(), n as int) as usize == ker_dim);
                    assert(image_of(self.maps_view(), n as int) as usize == img_dim);
                }
                Some(h)
            },
            None => None,
        }
    }

    /// Compute all homology groups up to max_n.
    pub fn all_homology(&self, max_n: usize) -> (res: Option<Vec<HomologyGroup>>)
        ensures
            res matches Some(hs) ==> hs@.len() == max_n + 1 && forall|i: int|
                0 <= i <= max_n ==> is_homology(self.ranks@, self.maps_view(), i, #[trigger] hs@[i]),
            (forall|i: int| 0 <= i <= max_n ==> #[trigger] homology_needs_no_reduction(self.ranks@, self.maps_view(), i))
                ==> res is Some,
            res is Some <==> forall|i: int| 0 <= i <= max_n ==> #[trigger] homology_fits(self.ranks@, self.maps_view(), i),
            res matches Some(hs) ==> forall|i: int|
                0 <= i <= max_n ==> is_computed_homology(self.ranks@, self.maps_view(), i, #[trigger] hs@[i]),
            res is Some ==> forall|i: int| 0 <= i <= max_n ==> #[trigger] homology_witnessed(self.ranks@, self.maps_view(), i),
    {
        let mut hs: Vec<HomologyGroup> = Vec::new();
        let mut n: usize = 0;
        loop
            invariant
                n <= max_n,
                hs@.len() == n,
                forall|i: int| 0 <= i < n ==> is_homology(self.ranks@, self.maps_view(), i, #[trigger] hs@[i]),
                forall|i: int| 0 <= i < n ==> is_computed_homology(self.ranks@, self.maps_view(), i, #[trigger] hs@[i]),
                forall|i: int| 0 <= i < n ==> #[trigger] homology_fits(self.ranks@, self.maps_view(), i),
                forall|i: int| 0 <= i < n ==> #[trigger] homology_witnessed(self.ranks@, self.maps_view(), i),
            decreases max_n - n,
        {
            match self.homology(n) {
                Some(h) => hs.push(h),
                None => {
                    return None;
                },
            }
            if n == max_n {
                return Some(hs);
            }
            n += 1;
        }
    }

    /// Compute Betti numbers: the ranks of H_0, ..., H_max_n.
    pub fn betti_numbers(&self, max_n: usize) -> (res: Option<Vec<usize>>)
        ensures
            res matches Some(b) ==> b@.len() == max_n + 1 && forall|i: int|
                0 <= i <= max_n ==> is_betti_number(self.ranks@, self.maps_view(), i, #[trigger] b@[i]),
            (forall|i: int| 0 <= i <= max_n ==> #[trigger] homology_needs_no_reduction(self.ranks@, self.maps_view(), i))
                ==> res is Some,
            res is Some <==> forall|i: int| 0 <= i <= max_n ==> #[trigger] homology_fits(self.ranks@, self.maps_view(), i),
            res matches Some(b) ==> forall|i: int| 0 <= i <= max_n ==> #[trigger] b@[i] == computed_betti(self.ranks@, self.maps_view(), i),
            res is Some ==> forall|i: int| 0 <= i <= max_n ==> #[trigger] homology_witnessed(self.ranks@, self.maps_view(), i),
    {
        let hs = match self.all_homology(max_n) {
            Some(hs) => hs,
            None => {
                return None;
            },
        };
        let mut b: Vec<usize> = Vec::new();
        for i in 0..hs.len()
            invariant
                hs@.len() == max_n + 1,
                forall|j: int| 0 <= j <= max_n ==> is_homology(self.ranks@, self.maps_view(), j, #[trigger] hs@[j]),
                forall|j: int| 0 <= j <= max_n ==> is_computed_homology(self.ranks@, self.maps_view(), j, #[trigger] hs@[j]),
                b@.len() == i,
                forall|j: int| 0 <= j < i ==> #[trigger] b@[j] == (if hs@[j].free_rank > 0 { hs@[j].free_rank } else { 0 }) as usize,
        {
            b.push(hs[i].rank());
        }
        proof {
            assert forall|i: int| 0 <= i <= max_n implies is_betti_number(self.ranks@, self.maps_view(), i, #[trigger] b@[i]) by {
                let h = hs@[i];
                assert(is_homology(self.ranks@, self.maps_view(), i, h));
                assert(b@[i] == (if h.free_rank > 0 { h.free_rank } else { 0 }) as usize);
            }
        }
        Some(b)
    }

    /// Every composite of consecutive boundary maps vanishes:
    /// d_k ∘ d_{k+1} = 0, that is `boundary_maps[k - 1] * boundary_maps[k] == 0`.
    pub fn is_valid(&self) -> (b: bool)
        requires
            forall|k: int| 1 <= k < self.boundary_maps@.len() ==> {
                &&& #[trigger] self.boundary_maps@[k - 1]@.cols == self.boundary_maps@[k]@.rows
                &&& product_fits(self.boundary_maps@[k - 1]@, self.boundary_maps@[k]@)
            },
        ensures
            b == forall|k: int| 1 <= k < self.boundary_maps@.len() ==> #[trigger] is_zero_mat(
                mat_mul(self.boundary_maps@[k - 1]@, self.boundary_maps@[k]@),
            ),
    {
        let len = self.boundary_maps.len();
        let mut k: usize = 1;
        while k < len
            invariant
                len == self.boundary_maps@.len(),
                1 <= k,
                k <= len || len == 0,
                forall|j: int| 1 <= j < self.boundary_maps@.len() ==> {
                    &&& #[trigger] self.boundary_maps@[j - 1]@.cols == self.boundary_maps@[j]@.rows
                    &&& product_fits(self.boundary_maps@[j - 1]@, self.boundary_maps@[j]@)
                },
                forall|j: int| 1 <= j < k && j < len ==> #[trigger] is_zero_mat(
                    mat_mul(self.boundary_maps@[j - 1]@, self.boundary_maps@[j]@),
                ),
            decreases len - k,
        {
            assert(self.boundary_maps@[k - 1]@.cols == self.boundary_maps@[k as int]@.rows);
            let product = dmatrix_product(&self.boundary_maps[k - 1], &self.boundary_maps[k]);
            if !all_zero(&product) {
                return false;
            }
            k += 1;
        }
        true
    }
}

/// Every entry is zero.
pub open spec fn is_zero_mat(m: Mat) -> bool {
    forall|i: int, j: int| 0 <= i < m.rows && 0 <= j < m.cols ==> #[trigger] m.e[i][j] == 0
}

fn all_zero(m: &ZMatrix) -> (b: bool)
    ensures
        b == is_zero_mat(m@),
{
    let rows = m.nrows();
    let cols = m.ncols();
    for i in 0..rows
        invariant
            rows == m@.rows,
            cols == m@.cols,
            forall|a: int, c: int| 0 <= a < i && 0 <= c < m@.cols ==> #[trigger] m@.e[a][c] == 0,
    {
        for j in 0..cols
            invariant
                rows == m@.rows,
                cols == m@.cols,
                i < m@.rows,
                forall|a: int, c: int| ((0 <= a < i && 0 <= c < m@.cols) || (a == i && 0 <= c < j)) ==> #[trigger] m@.e[a][c] == 0,
        {
            if m.get(i, j) != 0 {
                assert(!is_zero_mat(m@));
                return false;
            }
        }
    }
    true
}

} // verus!
