//! What a Smith normal form is, and the facts that the reduction keeps.

use vstd::prelude::*;
use crate::matrix::{
    Mat, abs, col_axpy, col_neg, col_swap, identity_mat, lemma_axpy_pair_identity, lemma_mul_col_axpy,
    lemma_mul_col_neg, lemma_mul_col_swap, lemma_mul_identity_left, lemma_mul_identity_right,
    lemma_mul_row_axpy, lemma_mul_row_neg, lemma_mul_row_swap, lemma_neg_pair_identity,
    lemma_swap_pair_identity, mat_mul, row_axpy, row_neg, row_swap,
};

verus! {

/// `c * d`.
pub open spec fn times(c: int, d: int) -> int {
    c * d
}

/// `d` divides `x` (so `0` divides only `0`).
pub open spec fn divides(d: int, x: int) -> bool {
    exists|c: int| #[trigger] times(c, d) == x
}

/// `s == u * a * v`, where `u` and `v` are square, `u` has the right inverse
/// `ui` and `v` the left inverse `vi`.
pub open spec fn snf_rel(a: Mat, u: Mat, s: Mat, v: Mat, ui: Mat, vi: Mat) -> bool {
    &&& a.wf() && u.wf() && s.wf() && v.wf() && ui.wf() && vi.wf()
    &&& u.rows == a.rows && u.cols == a.rows && ui.rows == a.rows && ui.cols == a.rows
    &&& v.rows == a.cols && v.cols == a.cols && vi.rows == a.cols && vi.cols == a.cols
    &&& s.rows == a.rows && s.cols == a.cols
    &&& s == mat_mul(u, mat_mul(a, v))
    &&& mat_mul(u, ui) == identity_mat(a.rows)
    &&& mat_mul(vi, v) == identity_mat(a.cols)
}

/// Rows and columns before `k` hold nothing off the diagonal; their diagonal
/// entries are non-negative, each divides every later diagonal entry and every
/// entry of the block from `(k, k)` on.
pub open spec fn reduced_upto(s: Mat, k: int) -> bool {
    &&& forall|a: int, b: int|
        0 <= a < s.rows && 0 <= b < s.cols && (a < k || b < k) && a != b ==> #[trigger] s.e[a][b] == 0
    &&& forall|a: int| 0 <= a < k ==> #[trigger] s.e[a][a] >= 0
    &&& forall|a: int, i: int, j: int|
        0 <= a < k && k <= i < s.rows && k <= j < s.cols ==> divides(#[trigger] s.e[a][a], #[trigger] s.e[i][j])
    &&& forall|a: int, b: int| 0 <= a < b < k ==> divides(#[trigger] s.e[a][a], #[trigger] s.e[b][b])
}

/// `s` is a Smith normal form of `a` with transforms `u` and `v`:
/// `s == u * a * v` with `u` and `v` invertible, `s` diagonal, its diagonal
/// non-negative, and each diagonal entry dividing the next.
pub open spec fn is_smith_form(a: Mat, u: Mat, s: Mat, v: Mat) -> bool {
    &&& a.wf() && u.wf() && s.wf() && v.wf()
    &&& u.rows == a.rows && u.cols == a.rows
    &&& v.rows == a.cols && v.cols == a.cols
    &&& s.rows == a.rows && s.cols == a.cols
    &&& s == mat_mul(u, mat_mul(a, v))
    &&& exists|ui: Mat| ui.wf() && ui.rows == a.rows && ui.cols == a.rows && #[trigger] mat_mul(u, ui) == identity_mat(a.rows)
    &&& exists|vi: Mat| vi.wf() && vi.rows == a.cols && vi.cols == a.cols && #[trigger] mat_mul(vi, v) == identity_mat(a.cols)
    &&& s.is_diagonal()
    &&& forall|i: int| 0 <= i < s.diagonal().len() ==> #[trigger] s.diagonal()[i] >= 0
    &&& forall|i: int, j: int| 0 <= i < j < s.diagonal().len() ==> divides(#[trigger] s.diagonal()[i], #[trigger] s.diagonal()[j])
}

// ---------------------------------------------------------------------------
// Divisibility
// ---------------------------------------------------------------------------

pub proof fn lemma_divides_axpy(d: int, x: int, y: int, q: int)
    requires
        divides(d, x),
        divides(d, y),
    ensures
        divides(d, x + q * y),
{
    let c1 = choose|c: int| #[trigger] times(c, d) == x;
    let c2 = choose|c: int| #[trigger] times(c, d) == y;
    assert(times(c1 + q * c2, d) == x + q * y) by (nonlinear_arith)
        requires c1 * d == x, c2 * d == y;
}

pub proof fn lemma_divides_neg(d: int, x: int)
    requires
        divides(d, x),
    ensures
        divides(d, -x),
{
    let c = choose|c: int| #[trigger] times(c, d) == x;
    assert(times(-c, d) == -x) by (nonlinear_arith)
        requires c * d == x;
}

pub proof fn lemma_divides_zero(d: int)
    ensures
        divides(d, 0),
{
    assert(times(0, d) == 0);
}

/// For `d > 0`, the truncated remainder `x - q * d` (with `|x - q * d| < d`)
/// vanishes exactly when `d` divides `x`.
pub proof fn lemma_remainder_zero_iff(x: int, d: int, q: int)
    requires
        d > 0,
        -d < x - q * d < d,
    ensures
        (x - q * d == 0) <==> divides(d, x),
{
    if x - q * d == 0 {
        assert(times(q, d) == x);
    }
    if divides(d, x) {
        let c = choose|c: int| #[trigger] times(c, d) == x;
        assert(x - q * d == (c - q) * d) by (nonlinear_arith)
            requires c * d == x;
        if c - q >= 1 {
            assert((c - q) * d >= d) by (nonlinear_arith)
                requires c - q >= 1, d > 0;
        } else if c - q <= -1 {
            assert((c - q) * d <= -d) by (nonlinear_arith)
                requires c - q <= -1, d > 0;
        }
    }
}

// ---------------------------------------------------------------------------
// Keeping `snf_rel` through elementary operations
// ---------------------------------------------------------------------------

pub proof fn lemma_snf_rel_init(a: Mat)
    requires
        a.wf(),
    ensures
        snf_rel(a, identity_mat(a.rows), a, identity_mat(a.cols), identity_mat(a.rows), identity_mat(a.cols)),
{
    lemma_mul_identity_right(a);
    lemma_mul_identity_left(a);
    lemma_mul_identity_left(identity_mat(a.rows));
    lemma_mul_identity_left(identity_mat(a.cols));
}

pub proof fn lemma_snf_row_axpy(a: Mat, u: Mat, s: Mat, v: Mat, ui: Mat, vi: Mat, i: int, k: int, q: int)
    requires
        snf_rel(a, u, s, v, ui, vi),
        0 <= i < a.rows,
        0 <= k < a.rows,
        i != k,
    ensures
        snf_rel(a, row_axpy(u, i, k, q), row_axpy(s, i, k, q), v, col_axpy(ui, k, i, -q), vi),
{
    let p = mat_mul(a, v);
    lemma_mul_row_axpy(u, p, i, k, q);
    lemma_mul_row_axpy(u, col_axpy(ui, k, i, -q), i, k, q);
    lemma_mul_col_axpy(u, ui, k, i, -q);
    lemma_axpy_pair_identity(a.rows, i, k, q);
}

pub proof fn lemma_snf_row_swap(a: Mat, u: Mat, s: Mat, v: Mat, ui: Mat, vi: Mat, i: int, k: int)
    requires
        snf_rel(a, u, s, v, ui, vi),
        0 <= i < a.rows,
        0 <= k < a.rows,
    ensures
        snf_rel(a, row_swap(u, i, k), row_swap(s, i, k), v, col_swap(ui, i, k), vi),
{
    let p = mat_mul(a, v);
    lemma_mul_row_swap(u, p, i, k);
    lemma_mul_row_swap(u, col_swap(ui, i, k), i, k);
    lemma_mul_col_swap(u, ui, i, k);
    lemma_swap_pair_identity(a.rows, i, k);
}

pub proof fn lemma_snf_row_neg(a: Mat, u: Mat, s: Mat, v: Mat, ui: Mat, vi: Mat, i: int)
    requires
        snf_rel(a, u, s, v, ui, vi),
        0 <= i < a.rows,
    ensures
        snf_rel(a, row_neg(u, i), row_neg(s, i), v, col_neg(ui, i), vi),
{
    let p = mat_mul(a, v);
    lemma_mul_row_neg(u, p, i);
    lemma_mul_row_neg(u, col_neg(ui, i), i);
    lemma_mul_col_neg(u, ui, i);
    lemma_neg_pair_identity(a.rows, i);
}

pub proof fn lemma_snf_col_axpy(a: Mat, u: Mat, s: Mat, v: Mat, ui: Mat, vi: Mat, j: int, k: int, q: int)
    requires
        snf_rel(a, u, s, v, ui, vi),
        0 <= j < a.cols,
        0 <= k < a.cols,
        j != k,
    ensures
        snf_rel(a, u, col_axpy(s, j, k, q), col_axpy(v, j, k, q), ui, row_axpy(vi, k, j, -q)),
{
    let p = mat_mul(a, v);
    lemma_mul_col_axpy(a, v, j, k, q);
    lemma_mul_col_axpy(u, p, j, k, q);
    lemma_mul_row_axpy(vi, col_axpy(v, j, k, q), k, j, -q);
    lemma_mul_col_axpy(vi, v, j, k, q);
    lemma_axpy_pair_identity(a.cols, k, j, -q);
    assert(-(-q) == q);
}

pub proof fn lemma_snf_col_swap(a: Mat, u: Mat, s: Mat, v: Mat, ui: Mat, vi: Mat, j: int, k: int)
    requires
        snf_rel(a, u, s, v, ui, vi),
        0 <= j < a.cols,
        0 <= k < a.cols,
    ensures
        snf_rel(a, u, col_swap(s, j, k), col_swap(v, j, k), ui, row_swap(vi, j, k)),
{
    let p = mat_mul(a, v);
    lemma_mul_col_swap(a, v, j, k);
    lemma_mul_col_swap(u, p, j, k);
    lemma_mul_row_swap(vi, col_swap(v, j, k), j, k);
    lemma_mul_col_swap(vi, v, j, k);
    lemma_swap_pair_identity(a.cols, j, k);
}


// ---------------------------------------------------------------------------
// Keeping `reduced_upto` through operations on the trailing block
// ---------------------------------------------------------------------------

pub proof fn lemma_reduced_row_axpy(s: Mat, k: int, i: int, r: int, q: int)
    requires
        s.wf(),
        reduced_upto(s, k),
        0 <= k <= s.cols,
        k <= i < s.rows,
        k <= r < s.rows,
        i != r,
    ensures
        reduced_upto(row_axpy(s, i, r, q), k),
{
    let t = row_axpy(s, i, r, q);
    assert forall|a: int, b: int|
        0 <= a < t.rows && 0 <= b < t.cols && (a < k || b < k) && a != b implies #[trigger] t.e[a][b] == 0 by {
        if a == i {
            assert(s.e[i][b] == 0 && s.e[r][b] == 0);
        }
    }
    assert forall|a: int| 0 <= a < k implies #[trigger] t.e[a][a] >= 0 by {}
    assert forall|a: int, x: int, y: int|
        0 <= a < k && k <= x < t.rows && k <= y < t.cols implies divides(#[trigger] t.e[a][a], #[trigger] t.e[x][y]) by {
        if x == i {
            lemma_divides_axpy(s.e[a][a], s.e[i][y], s.e[r][y], q);
        }
    }
    assert forall|a: int, b: int| 0 <= a < b < k implies divides(#[trigger] t.e[a][a], #[trigger] t.e[b][b]) by {}
}

pub proof fn lemma_reduced_row_swap(s: Mat, k: int, i: int, r: int)
    requires
        s.wf(),
        reduced_upto(s, k),
        0 <= k <= s.cols,
        k <= i < s.rows,
        k <= r < s.rows,
    ensures
        reduced_upto(row_swap(s, i, r), k),
{
    let t = row_swap(s, i, r);
    assert forall|a: int, b: int|
        0 <= a < t.rows && 0 <= b < t.cols && (a < k || b < k) && a != b implies #[trigger] t.e[a][b] == 0 by {
        if a == i {
            assert(s.e[r][b] == 0);
        } else if a == r {
            assert(s.e[i][b] == 0);
        }
    }
    assert forall|a: int| 0 <= a < k implies #[trigger] t.e[a][a] >= 0 by {}
    assert forall|a: int, x: int, y: int|
        0 <= a < k && k <= x < t.rows && k <= y < t.cols implies divides(#[trigger] t.e[a][a], #[trigger] t.e[x][y]) by {
        if x == i {
            assert(divides(s.e[a][a], s.e[r][y]));
        } else if x == r {
            assert(divides(s.e[a][a], s.e[i][y]));
        }
    }
    assert forall|a: int, b: int| 0 <= a < b < k implies divides(#[trigger] t.e[a][a], #[trigger] t.e[b][b]) by {}
}

pub proof fn lemma_reduced_row_neg(s: Mat, k: int, i: int)
    requires
        s.wf(),
        reduced_upto(s, k),
        0 <= k <= i < s.rows,
        k <= s.cols,
    ensures
        reduced_upto(row_neg(s, i), k),
{
    let t = row_neg(s, i);
    assert forall|a: int, b: int|
        0 <= a < t.rows && 0 <= b < t.cols && (a < k || b < k) && a != b implies #[trigger] t.e[a][b] == 0 by {
        if a == i {
            assert(s.e[i][b] == 0);
        }
    }
    assert forall|a: int| 0 <= a < k implies #[trigger] t.e[a][a] >= 0 by {}
    assert forall|a: int, x: int, y: int|
        0 <= a < k && k <= x < t.rows && k <= y < t.cols implies divides(#[trigger] t.e[a][a], #[trigger] t.e[x][y]) by {
        if x == i {
            lemma_divides_neg(s.e[a][a], s.e[i][y]);
        }
    }
    assert forall|a: int, b: int| 0 <= a < b < k implies divides(#[trigger] t.e[a][a], #[trigger] t.e[b][b]) by {}
}

pub proof fn lemma_reduced_col_axpy(s: Mat, k: int, j: int, c: int, q: int)
    requires
        s.wf(),
        reduced_upto(s, k),
        0 <= k <= s.rows,
        k <= j < s.cols,
        k <= c < s.cols,
        j != c,
    ensures
        reduced_upto(col_axpy(s, j, c, q), k),
{
    let t = col_axpy(s, j, c, q);
    assert forall|a: int, b: int|
        0 <= a < t.rows && 0 <= b < t.cols && (a < k || b < k) && a != b implies #[trigger] t.e[a][b] == 0 by {
        if b == j {
            assert(s.e[a][j] == 0 && s.e[a][c] == 0);
        }
    }
    assert forall|a: int| 0 <= a < k implies #[trigger] t.e[a][a] >= 0 by {}
    assert forall|a: int, x: int, y: int|
        0 <= a < k && k <= x < t.rows && k <= y < t.cols implies divides(#[trigger] t.e[a][a], #[trigger] t.e[x][y]) by {
        if y == j {
            lemma_divides_axpy(s.e[a][a], s.e[x][j], s.e[x][c], q);
        }
    }
    assert forall|a: int, b: int| 0 <= a < b < k implies divides(#[trigger] t.e[a][a], #[trigger] t.e[b][b]) by {}
}

pub proof fn lemma_reduced_col_swap(s: Mat, k: int, j: int, c: int)
    requires
        s.wf(),
        reduced_upto(s, k),
        0 <= k <= s.rows,
        k <= j < s.cols,
        k <= c < s.cols,
    ensures
        reduced_upto(col_swap(s, j, c), k),
{
    let t = col_swap(s, j, c);
    assert forall|a: int, b: int|
        0 <= a < t.rows && 0 <= b < t.cols && (a < k || b < k) && a != b implies #[trigger] t.e[a][b] == 0 by {
        if b == j {
            assert(s.e[a][c] == 0);
        } else if b == c {
            assert(s.e[a][j] == 0);
        }
    }
    assert forall|a: int| 0 <= a < k implies #[trigger] t.e[a][a] >= 0 by {}
    assert forall|a: int, x: int, y: int|
        0 <= a < k && k <= x < t.rows && k <= y < t.cols implies divides(#[trigger] t.e[a][a], #[trigger] t.e[x][y]) by {
        if y == j {
            assert(divides(s.e[a][a], s.e[x][c]));
        } else if y == c {
            assert(divides(s.e[a][a], s.e[x][j]));
        }
    }
    assert forall|a: int, b: int| 0 <= a < b < k implies divides(#[trigger] t.e[a][a], #[trigger] t.e[b][b]) by {}
}


// ---------------------------------------------------------------------------
// Finishing a diagonal position
// ---------------------------------------------------------------------------

/// Every entry of the block from `(k, k)` on is zero.
pub open spec fn block_zero(s: Mat, k: int) -> bool {
    forall|i: int, j: int| k <= i < s.rows && k <= j < s.cols ==> #[trigger] s.e[i][j] == 0
}

/// The block from `(k, k)` on is zero, or holds a nonzero entry of absolute
/// value at most `c`.
pub open spec fn small_in_block(s: Mat, k: int, c: int) -> bool {
    block_zero(s, k) || exists|i: int, j: int|
        k <= i < s.rows && k <= j < s.cols && #[trigger] s.e[i][j] != 0 && abs(s.e[i][j]) <= c
}

pub proof fn lemma_finish_zero(s: Mat, k: int)
    requires
        s.wf(),
        reduced_upto(s, k),
        0 <= k < s.rows,
        k < s.cols,
        block_zero(s, k),
    ensures
        reduced_upto(s, k + 1),
{
    assert forall|a: int, b: int|
        0 <= a < s.rows && 0 <= b < s.cols && (a < k + 1 || b < k + 1) && a != b implies #[trigger] s.e[a][b] == 0 by {
        if a >= k && b >= k {
            assert(s.e[a][b] == 0);
        }
    }
    assert forall|a: int, x: int, y: int|
        0 <= a < k + 1 && k + 1 <= x < s.rows && k + 1 <= y < s.cols implies divides(#[trigger] s.e[a][a], #[trigger] s.e[x][y]) by {
        assert(s.e[x][y] == 0);
        lemma_divides_zero(s.e[a][a]);
    }
    assert forall|a: int, b: int| 0 <= a < b < k + 1 implies divides(#[trigger] s.e[a][a], #[trigger] s.e[b][b]) by {
        if b == k {
            assert(s.e[k][k] == 0);
            lemma_divides_zero(s.e[a][a]);
        }
    }
}

pub proof fn lemma_finish_pivot(s: Mat, k: int)
    requires
        s.wf(),
        reduced_upto(s, k),
        0 <= k < s.rows,
        k < s.cols,
        s.e[k][k] > 0,
        forall|i: int| k < i < s.rows ==> #[trigger] s.e[i][k] == 0,
        forall|j: int| k < j < s.cols ==> #[trigger] s.e[k][j] == 0,
        forall|i: int, j: int| k < i < s.rows && k < j < s.cols ==> divides(s.e[k][k], #[trigger] s.e[i][j]),
    ensures
        reduced_upto(s, k + 1),
{
    assert forall|a: int, b: int|
        0 <= a < s.rows && 0 <= b < s.cols && (a < k + 1 || b < k + 1) && a != b implies #[trigger] s.e[a][b] == 0 by {
        if a == k && b > k {
            assert(s.e[k][b] == 0);
        } else if b == k && a > k {
            assert(s.e[a][k] == 0);
        }
    }
    assert forall|a: int, x: int, y: int|
        0 <= a < k + 1 && k + 1 <= x < s.rows && k + 1 <= y < s.cols implies divides(#[trigger] s.e[a][a], #[trigger] s.e[x][y]) by {
        if a == k {
            assert(divides(s.e[k][k], s.e[x][y]));
        } else {
            assert(divides(s.e[a][a], s.e[x][y]));
        }
    }
    assert forall|a: int, b: int| 0 <= a < b < k + 1 implies divides(#[trigger] s.e[a][a], #[trigger] s.e[b][b]) by {
        if b == k {
            assert(divides(s.e[a][a], s.e[k][k]));
        }
    }
}

/// Once every diagonal position is reduced, the result is a Smith normal form.
pub proof fn lemma_reduced_is_smith(a: Mat, u: Mat, s: Mat, v: Mat, ui: Mat, vi: Mat)
    requires
        snf_rel(a, u, s, v, ui, vi),
        reduced_upto(s, if a.rows <= a.cols { a.rows as int } else { a.cols as int }),
    ensures
        is_smith_form(a, u, s, v),
{
    let mn = if a.rows <= a.cols { a.rows as int } else { a.cols as int };
    assert forall|i: int, j: int| 0 <= i < s.rows && 0 <= j < s.cols && i != j implies s.at(i, j) == 0 by {
        assert(i < mn || j < mn);
        assert(s.e[i][j] == 0);
    }
    assert(s.diagonal().len() == mn);
    assert forall|i: int| 0 <= i < s.diagonal().len() implies #[trigger] s.diagonal()[i] >= 0 by {
        assert(s.e[i][i] >= 0);
    }
    assert forall|i: int, j: int| 0 <= i < j < s.diagonal().len() implies divides(#[trigger] s.diagonal()[i], #[trigger] s.diagonal()[j]) by {
        assert(divides(s.e[i][i], s.e[j][j]));
    }
    assert(mat_mul(u, ui) == identity_mat(a.rows));
    assert(mat_mul(vi, v) == identity_mat(a.cols));
}


/// Some bound that `small_in_block` holds for.
pub proof fn lemma_block_bound(s: Mat, k: int) -> (c: int)
    ensures
        c >= 0,
        small_in_block(s, k, c),
{
    if block_zero(s, k) {
        0
    } else {
        let (i, j) = choose|i: int, j: int| k <= i < s.rows && k <= j < s.cols && #[trigger] s.e[i][j] != 0;
        abs(s.e[i][j])
    }
}

} // verus!
