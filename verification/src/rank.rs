//! Linear algebra over the integers that the rank laws need: associativity
//! of the product, a nonzero kernel vector for every matrix with more columns
//! than rows, one-sided inverses of square matrices being two-sided, and the
//! rank inequality `rank(a) + rank(b) <= n` for `a * b == 0`.

use vstd::prelude::*;
use crate::chain_complex::{first_zero, is_zero_mat, lemma_first_zero_bound, snf_rank};
use crate::smith::{divides, is_smith_form, times};
use crate::matrix::{
    Mat, dot, group_zmatrix, identity_mat, lemma_dot_axpy_left, lemma_dot_axpy_right, lemma_dot_congruent,
    lemma_dot_unit_left, lemma_dot_unit_right, lemma_mat_ext, lemma_mul_identity_left, mat_mul, mk,
};

verus! {

/// `m` applied to the vector `y`.
pub open spec fn apply(m: Mat, y: Seq<int>) -> Seq<int> {
    Seq::new(m.rows, |i: int| dot(m.e[i], y, m.cols))
}

/// Every entry of `y` is zero.
pub open spec fn is_zero_vec(y: Seq<int>) -> bool {
    forall|j: int| 0 <= j < y.len() ==> #[trigger] y[j] == 0
}

/// Against a sequence that is zero on the first `n` entries, `dot` is zero.
pub proof fn lemma_dot_zero_left(a: Seq<int>, c: Seq<int>, n: nat)
    requires
        forall|k: int| 0 <= k < n ==> #[trigger] a[k] == 0,
    ensures
        dot(a, c, n) == 0,
    decreases n,
{
    if n > 0 {
        lemma_dot_zero_left(a, c, (n - 1) as nat);
        assert(a[n - 1] * c[n - 1] == 0);
    }
}

pub proof fn lemma_dot_zero_right(a: Seq<int>, c: Seq<int>, n: nat)
    requires
        forall|k: int| 0 <= k < n ==> #[trigger] c[k] == 0,
    ensures
        dot(a, c, n) == 0,
    decreases n,
{
    if n > 0 {
        lemma_dot_zero_right(a, c, (n - 1) as nat);
        assert(a[n - 1] * c[n - 1] == 0);
    }
}

/// Entries past `m` that are zero add nothing.
pub proof fn lemma_dot_zero_tail(a: Seq<int>, c: Seq<int>, m: nat, n: nat)
    requires
        m <= n,
        forall|k: int| m <= k < n ==> #[trigger] c[k] == 0,
    ensures
        dot(a, c, n) == dot(a, c, m),
    decreases n,
{
    if n > m {
        lemma_dot_zero_tail(a, c, m, (n - 1) as nat);
        assert(a[n - 1] * c[n - 1] == 0);
    }
}

/// Against a sequence with one nonzero entry among the first `n`, `dot`
/// picks that entry's product.
pub proof fn lemma_dot_single_left(u: Seq<int>, c: Seq<int>, i: int, n: nat)
    requires
        0 <= i < n,
        forall|k: int| 0 <= k < n && k != i ==> #[trigger] u[k] == 0,
    ensures
        dot(u, c, n) == u[i] * c[i],
    decreases n,
{
    if n - 1 == i {
        lemma_dot_zero_left(u, c, (n - 1) as nat);
    } else {
        lemma_dot_single_left(u, c, i, (n - 1) as nat);
        assert(u[n - 1] * c[n - 1] == 0);
    }
}

pub proof fn lemma_dot_single_right(a: Seq<int>, u: Seq<int>, i: int, n: nat)
    requires
        0 <= i < n,
        forall|k: int| 0 <= k < n && k != i ==> #[trigger] u[k] == 0,
    ensures
        dot(a, u, n) == a[i] * u[i],
    decreases n,
{
    if n - 1 == i {
        lemma_dot_zero_right(a, u, (n - 1) as nat);
    } else {
        lemma_dot_single_right(a, u, i, (n - 1) as nat);
        assert(a[n - 1] * u[n - 1] == 0);
    }
}

/// `dot` is linear: `x == c * a - k * b` gives `c * dot(a) - k * dot(b)`.
pub proof fn lemma_dot_lin2(x: Seq<int>, a: Seq<int>, b: Seq<int>, z: Seq<int>, c: int, k: int, n: nat)
    requires
        forall|j: int| 0 <= j < n ==> #[trigger] x[j] == c * a[j] - k * b[j],
    ensures
        dot(x, z, n) == c * dot(a, z, n) - k * dot(b, z, n),
    decreases n,
{
    if n > 0 {
        let m = (n - 1) as nat;
        lemma_dot_lin2(x, a, b, z, c, k, m);
        let j = n - 1;
        assert(x[j] * z[j] == c * (a[j] * z[j]) - k * (b[j] * z[j])) by (nonlinear_arith)
            requires x[j] == c * a[j] - k * b[j];
        assert(c * dot(a, z, n) == c * dot(a, z, m) + c * (a[j] * z[j])) by (nonlinear_arith)
            requires dot(a, z, n) == dot(a, z, m) + a[j] * z[j];
        assert(k * dot(b, z, n) == k * dot(b, z, m) + k * (b[j] * z[j])) by (nonlinear_arith)
            requires dot(b, z, n) == dot(b, z, m) + b[j] * z[j];
    }
}

/// `dot` scales with its second argument.
pub proof fn lemma_dot_scale_right(a: Seq<int>, y: Seq<int>, z: Seq<int>, c: int, n: nat)
    requires
        forall|j: int| 0 <= j < n ==> #[trigger] y[j] == c * z[j],
    ensures
        dot(a, y, n) == c * dot(a, z, n),
    decreases n,
{
    if n > 0 {
        let m = (n - 1) as nat;
        lemma_dot_scale_right(a, y, z, c, m);
        let j = n - 1;
        assert(a[j] * y[j] == c * (a[j] * z[j])) by (nonlinear_arith)
            requires y[j] == c * z[j];
        assert(c * dot(a, z, n) == c * dot(a, z, m) + c * (a[j] * z[j])) by (nonlinear_arith)
            requires dot(a, z, n) == dot(a, z, m) + a[j] * z[j];
    }
}

/// The first `n` entries of `s` without the one at `p`.
pub open spec fn skip(s: Seq<int>, p: int, n: nat) -> Seq<int> {
    Seq::new((n - 1) as nat, |l: int| if l < p { s[l] } else { s[l + 1] })
}

/// The index in the full sequence of entry `l` of `skip(.., p, ..)`.
pub open spec fn unskip(p: int, l: int) -> int {
    if l < p { l } else { l + 1 }
}

/// `dot` splits into the entry at `p` and the rest.
pub proof fn lemma_dot_skip(a: Seq<int>, b: Seq<int>, p: int, n: nat)
    requires
        0 <= p < n,
    ensures
        dot(a, b, n) == dot(skip(a, p, n), skip(b, p, n), (n - 1) as nat) + a[p] * b[p],
    decreases n,
{
    let m = (n - 1) as nat;
    if m == p {
        lemma_dot_congruent(a, b, skip(a, p, n), skip(b, p, n), m);
    } else {
        lemma_dot_skip(a, b, p, m);
        let mm = (m - 1) as nat;
        lemma_dot_congruent(skip(a, p, m), skip(b, p, m), skip(a, p, n), skip(b, p, n), mm);
    }
}

/// `sum_t (sum_s x[s] y[s][t]) z[t] == sum_s x[s] (sum_t y[s][t] z[t])`.
pub proof fn lemma_dot_swap(x: Seq<int>, y: Mat, z: Seq<int>, n1: nat, n2: nat)
    requires
        n1 <= y.rows,
    ensures
        dot(Seq::new(n2, |t: int| dot(x, y.column(t), n1)), z, n2) == dot(x, Seq::new(n1, |s: int| dot(y.e[s], z, n2)), n1),
    decreases n1,
{
    let lhs = Seq::new(n2, |t: int| dot(x, y.column(t), n1));
    if n1 == 0 {
        lemma_dot_zero_left(lhs, z, n2);
    } else {
        let m = (n1 - 1) as nat;
        lemma_dot_swap(x, y, z, m, n2);
        let prev = Seq::new(n2, |t: int| dot(x, y.column(t), m));
        assert forall|t: int| 0 <= t < n2 implies #[trigger] lhs[t] == prev[t] + x[m as int] * y.e[m as int][t] by {
            assert(y.column(t)[m as int] == y.e[m as int][t]);
        }
        lemma_dot_axpy_left(lhs, prev, y.e[m as int], z, x[m as int], n2);
        let g1 = Seq::new(n1, |s: int| dot(y.e[s], z, n2));
        let g0 = Seq::new(m, |s: int| dot(y.e[s], z, n2));
        lemma_dot_congruent(x, g1, x, g0, m);
    }
}

/// The product of matrices is associative.
pub proof fn lemma_mat_assoc(x: Mat, y: Mat, z: Mat)
    requires
        x.wf(),
        y.wf(),
        z.wf(),
        x.cols == y.rows,
        y.cols == z.rows,
    ensures
        mat_mul(mat_mul(x, y), z) == mat_mul(x, mat_mul(y, z)),
{
    let l = mat_mul(mat_mul(x, y), z);
    let r = mat_mul(x, mat_mul(y, z));
    let yz = mat_mul(y, z);
    let xy = mat_mul(x, y);
    assert forall|i: int, j: int| 0 <= i < x.rows && 0 <= j < z.cols implies #[trigger] l.e[i][j] == r.e[i][j] by {
        lemma_dot_swap(x.e[i], y, z.column(j), x.cols, y.cols);
        lemma_dot_congruent(xy.e[i], z.column(j), Seq::new(y.cols, |t: int| dot(x.e[i], y.column(t), x.cols)), z.column(j), y.cols);
        lemma_dot_congruent(x.e[i], yz.column(j), x.e[i], Seq::new(x.cols, |s: int| dot(y.e[s], z.column(j), y.cols)), x.cols);
    }
    lemma_mat_ext(l, r);
}

/// Applying a product is applying its factors in turn.
pub proof fn lemma_apply_mul(x: Mat, w: Mat, y: Seq<int>)
    requires
        x.wf(),
        w.wf(),
        x.cols == w.rows,
    ensures
        apply(mat_mul(x, w), y) == apply(x, apply(w, y)),
{
    let l = apply(mat_mul(x, w), y);
    let r = apply(x, apply(w, y));
    let xw = mat_mul(x, w);
    assert forall|i: int| 0 <= i < x.rows implies #[trigger] l[i] == r[i] by {
        lemma_dot_swap(x.e[i], w, y, x.cols, w.cols);
        lemma_dot_congruent(xw.e[i], y, Seq::new(w.cols, |t: int| dot(x.e[i], w.column(t), x.cols)), y, w.cols);
        lemma_dot_congruent(x.e[i], apply(w, y), x.e[i], Seq::new(x.cols, |s: int| dot(w.e[s], y, w.cols)), x.cols);
    }
    assert(l =~= r);
}

/// A matrix with more columns than rows sends some nonzero vector to zero.
pub proof fn lemma_wide_kernel(q: Mat) -> (y: Seq<int>)
    requires
        q.wf(),
        q.cols > q.rows,
    ensures
        y.len() == q.cols,
        !is_zero_vec(y),
        forall|i: int| 0 <= i < q.rows ==> #[trigger] dot(q.e[i], y, q.cols) == 0,
    decreases q.rows,
{
    let n = q.cols;
    if q.rows == 0 {
        let y = Seq::new(n, |j: int| if j == 0 { 1int } else { 0int });
        assert(y[0] == 1);
        y
    } else {
        let q0 = q.e[0];
        if forall|l: int| 0 <= l < n ==> #[trigger] q0[l] == 0 {
            let q1 = mk((q.rows - 1) as nat, n, |i: int, j: int| q.e[i + 1][j]);
            let y = lemma_wide_kernel(q1);
            assert forall|i: int| 0 <= i < q.rows implies #[trigger] dot(q.e[i], y, n) == 0 by {
                if i == 0 {
                    lemma_dot_zero_left(q0, y, n);
                } else {
                    lemma_dot_congruent(q.e[i], y, q1.e[i - 1], y, n);
                }
            }
            y
        } else {
            let p = choose|l: int| 0 <= l < n && #[trigger] q0[l] != 0;
            let c = q0[p];
            let m = (n - 1) as nat;
            let q2 = mk((q.rows - 1) as nat, m, |i: int, l: int| c * q.e[i + 1][unskip(p, l)] - q0[unskip(p, l)] * q.e[i + 1][p]);
            let z = lemma_wide_kernel(q2);
            let w = -dot(skip(q0, p, n), z, m);
            let y = Seq::new(n, |l: int| if l == p { w } else if l < p { c * z[l] } else { c * z[l - 1] });
            assert forall|i: int| 0 <= i < q.rows implies #[trigger] dot(q.e[i], y, n) == 0 by {
                let row = q.e[i];
                lemma_dot_skip(row, y, p, n);
                lemma_dot_scale_right(skip(row, p, n), skip(y, p, n), z, c, m);
                let x = Seq::new(m, |l: int| c * skip(row, p, n)[l] - row[p] * skip(q0, p, n)[l]);
                lemma_dot_lin2(x, skip(row, p, n), skip(q0, p, n), z, c, row[p], m);
                assert(dot(q.e[i], y, n) == dot(x, z, m)) by (nonlinear_arith)
                    requires
                        dot(q.e[i], y, n) == dot(skip(row, p, n), skip(y, p, n), m) + row[p] * y[p],
                        dot(skip(row, p, n), skip(y, p, n), m) == c * dot(skip(row, p, n), z, m),
                        dot(x, z, m) == c * dot(skip(row, p, n), z, m) - row[p] * dot(skip(q0, p, n), z, m),
                        y[p] == -dot(skip(q0, p, n), z, m),
                ;
                if i == 0 {
                    assert forall|l: int| 0 <= l < m implies #[trigger] x[l] == 0 by {
                        assert(c * q0[unskip(p, l)] - q0[p] * q0[unskip(p, l)] == 0) by (nonlinear_arith)
                            requires c == q0[p];
                    }
                    lemma_dot_zero_left(x, z, m);
                } else {
                    assert forall|l: int| 0 <= l < m implies #[trigger] x[l] == q2.e[i - 1][l] by {
                        assert(skip(row, p, n)[l] == row[unskip(p, l)]);
                        assert(skip(q0, p, n)[l] == q0[unskip(p, l)]);
                        assert(row[p] * q0[unskip(p, l)] == q0[unskip(p, l)] * row[p]) by (nonlinear_arith);
                    }
                    lemma_dot_congruent(x, z, q2.e[i - 1], z, m);
                }
            }
            let l0 = choose|l: int| 0 <= l < z.len() && #[trigger] z[l] != 0;
            let big = unskip(p, l0);
            assert(y[big] == c * z[l0]);
            assert(c * z[l0] != 0) by (nonlinear_arith)
                requires c != 0, z[l0] != 0;
            y
        }
    }
}

/// A square matrix with a right inverse sends no nonzero vector to zero.
pub proof fn lemma_right_inverse_injective(u: Mat, ui: Mat, y: Seq<int>)
    requires
        u.wf(),
        ui.wf(),
        u.rows == u.cols,
        ui.rows == u.rows,
        ui.cols == u.rows,
        mat_mul(u, ui) == identity_mat(u.rows),
        y.len() == u.rows,
        is_zero_vec(apply(u, y)),
    ensures
        is_zero_vec(y),
{
    let n = u.rows;
    if !is_zero_vec(y) {
        // the columns of `ui` and `y`: n + 1 vectors in n dimensions
        let big = mk(n, n + 1, |i: int, j: int| if j < n { ui.e[i][j] } else { y[i] });
        let z = lemma_wide_kernel(big);
        let zp = z.take(n as int);
        let zn = z[n as int];
        // ui * zp + zn * y == 0
        let v = apply(ui, zp);
        assert forall|i: int| 0 <= i < n implies #[trigger] v[i] + zn * y[i] == 0 by {
            lemma_dot_skip(big.e[i], z, n as int, n + 1);
            lemma_dot_congruent(skip(big.e[i], n as int, n + 1), skip(z, n as int, n + 1), ui.e[i], zp, n);
            assert(dot(big.e[i], z, big.cols) == 0);
            assert(big.e[i][n as int] == y[i]);
            assert(y[i] * zn == zn * y[i]) by (nonlinear_arith);
            assert(v[i] == dot(ui.e[i], zp, n));
        }
        // u * (ui * zp) == zp and u * y == 0, so zp == 0
        lemma_apply_mul(u, ui, zp);
        let iv = apply(identity_mat(n), zp);
        assert(apply(u, v) == iv);
        assert forall|i: int| 0 <= i < n implies #[trigger] zp[i] == 0 by {
            lemma_dot_unit_left(identity_mat(n).e[i], zp, i, n);
            assert(iv[i] == dot(identity_mat(n).e[i], zp, n));
            assert(iv[i] == zp[i]);
            let comb = Seq::new(n, |k: int| v[k] + zn * y[k]);
            lemma_dot_axpy_right(u.e[i], comb, v, y, zn, n);
            assert(dot(u.e[i], comb, n) == dot(u.e[i], v, n) + zn * dot(u.e[i], y, n));
            assert forall|k: int| 0 <= k < n implies #[trigger] comb[k] == 0 by {
                assert(v[k] + zn * y[k] == 0);
            }
            lemma_dot_zero_right(u.e[i], comb, n);
            assert(apply(u, y)[i] == 0);
            assert(apply(u, v)[i] == iv[i]);
            assert(apply(u, v)[i] == dot(u.e[i], v, n));
        }
        // then zn * y == 0 with y nonzero, so zn == 0
        let j0 = choose|j: int| 0 <= j < y.len() && #[trigger] y[j] != 0;
        assert(v[j0] == 0) by {
            lemma_dot_zero_right(ui.e[j0], zp, n);
        }
        assert(zn * y[j0] == 0);
        assert(zn == 0) by (nonlinear_arith)
            requires zn * y[j0] == 0, y[j0] != 0;
        assert(is_zero_vec(z)) by {
            assert forall|j: int| 0 <= j < z.len() implies #[trigger] z[j] == 0 by {
                if j < n {
                    assert(zp[j] == z[j]);
                }
            }
        }
    }
}

/// A right inverse of a square matrix is also a left inverse.
pub proof fn lemma_right_inverse_is_left(u: Mat, ui: Mat)
    requires
        u.wf(),
        ui.wf(),
        u.rows == u.cols,
        ui.rows == u.rows,
        ui.cols == u.rows,
        mat_mul(u, ui) == identity_mat(u.rows),
    ensures
        mat_mul(ui, u) == identity_mat(u.rows),
{
    let n = u.rows;
    let t = mat_mul(ui, u);
    lemma_mat_assoc(u, ui, u);
    lemma_mul_identity_left(u);
    // u * t == u
    assert(mat_mul(u, t) == u);
    let id = identity_mat(n);
    assert forall|i: int, j: int| 0 <= i < n && 0 <= j < n implies #[trigger] t.e[i][j] == id.e[i][j] by {
        let e = id.column(j);
        let col = t.column(j);
        let d = Seq::new(n, |k: int| col[k] + (-1) * e[k]);
        assert forall|r: int| 0 <= r < n implies #[trigger] apply(u, d)[r] == 0 by {
            lemma_dot_axpy_right(u.e[r], d, col, e, -1, n);
            lemma_dot_unit_right(u.e[r], e, j, n);
            assert(dot(u.e[r], col, n) == mat_mul(u, t).e[r][j]);
            assert(mat_mul(u, t).e[r][j] == u.e[r][j]);
        }
        lemma_right_inverse_injective(u, ui, d);
        assert(d[i] == 0);
    }
    lemma_mat_ext(t, id);
}

/// The entries before the first zero are nonzero.
pub proof fn lemma_before_first_zero(d: Seq<int>, i: int)
    requires
        0 <= i < first_zero(d),
    ensures
        d[i] != 0,
    decreases d.len(),
{
    lemma_first_zero_bound(d);
    assert(d.len() > 0 && d[0] != 0);
    if i > 0 {
        lemma_before_first_zero(d.drop_first(), i - 1);
        assert(d.drop_first()[i - 1] == d[i]);
    }
}

/// A product with a zero factor is zero.
pub proof fn lemma_mul_zero(x: Mat, y: Mat)
    requires
        x.wf(),
        y.wf(),
        x.cols == y.rows,
        is_zero_mat(x) || is_zero_mat(y),
    ensures
        is_zero_mat(mat_mul(x, y)),
{
    assert forall|i: int, j: int| 0 <= i < x.rows && 0 <= j < y.cols implies #[trigger] mat_mul(x, y).e[i][j] == 0 by {
        if is_zero_mat(x) {
            lemma_dot_zero_left(x.e[i], y.column(j), x.cols);
        } else {
            lemma_dot_zero_right(x.e[i], y.column(j), x.cols);
        }
    }
}

/// Rank inequality: where `a * b == 0`, the ranks read off Smith normal
/// forms of `a` and of `b` add up to at most the number of columns of `a`.
pub proof fn lemma_rank_sum(a: Mat, b: Mat, ua: Mat, sa: Mat, va: Mat, ub: Mat, sb: Mat, vb: Mat)
    requires
        a.cols == b.rows,
        is_zero_mat(mat_mul(a, b)),
        is_smith_form(a, ua, sa, va),
        is_smith_form(b, ub, sb, vb),
    ensures
        snf_rank(sa) + snf_rank(sb) <= a.cols,
{
    let n = a.cols;
    let ra = snf_rank(sa);
    let rb = snf_rank(sb);
    lemma_first_zero_bound(sa.diagonal());
    lemma_first_zero_bound(sb.diagonal());
    let via = choose|vi: Mat| vi.wf() && vi.rows == a.cols && vi.cols == a.cols && #[trigger] mat_mul(vi, va) == identity_mat(a.cols);
    let uib = choose|ui: Mat| ui.wf() && ui.rows == b.rows && ui.cols == b.rows && #[trigger] mat_mul(ub, ui) == identity_mat(b.rows);
    lemma_right_inverse_is_left(via, va);
    lemma_right_inverse_is_left(ub, uib);
    let w = mat_mul(via, uib);
    let x = mat_mul(ub, va);
    // va * w == uib
    lemma_mat_assoc(va, via, uib);
    lemma_mul_identity_left(uib);
    assert(mat_mul(va, w) == uib);
    // sa * w == ua * (a * uib)
    let av = mat_mul(a, va);
    lemma_mat_assoc(ua, av, w);
    lemma_mat_assoc(a, va, w);
    let sw = mat_mul(sa, w);
    assert(sw == mat_mul(ua, mat_mul(a, uib)));
    // uib * sb == b * vb
    let bv = mat_mul(b, vb);
    lemma_mat_assoc(uib, ub, bv);
    lemma_mul_identity_left(bv);
    assert(mat_mul(uib, sb) == bv);
    // sa * w * sb == 0
    let au = mat_mul(a, uib);
    lemma_mat_assoc(ua, au, sb);
    lemma_mat_assoc(a, uib, sb);
    lemma_mat_assoc(a, b, vb);
    lemma_mul_zero(mat_mul(a, b), vb);
    lemma_mul_zero(ua, mat_mul(a, bv));
    let sws = mat_mul(sw, sb);
    assert(is_zero_mat(sws));
    // hence w is zero on the first ra rows and rb columns
    assert forall|i: int, j: int| 0 <= i < ra && 0 <= j < rb implies #[trigger] w.e[i][j] == 0 by {
        lemma_before_first_zero(sa.diagonal(), i);
        lemma_before_first_zero(sb.diagonal(), j);
        let si = sa.e[i][i];
        let tj = sb.e[j][j];
        assert(sa.diagonal()[i] == si);
        assert(sb.diagonal()[j] == tj);
        assert forall|k: int| 0 <= k < n && k != i implies #[trigger] sa.e[i][k] == 0 by {
            assert(sa.at(i, k) == 0);
        }
        assert forall|t: int| 0 <= t < n implies #[trigger] sw.e[i][t] == si * w.e[i][t] by {
            lemma_dot_single_left(sa.e[i], w.column(t), i, n);
        }
        assert forall|k: int| 0 <= k < n && k != j implies #[trigger] sb.column(j)[k] == 0 by {
            assert(sb.at(k, j) == 0);
        }
        lemma_dot_single_right(sw.e[i], sb.column(j), j, n);
        assert(sws.e[i][j] == sw.e[i][j] * tj);
        assert(sws.e[i][j] == 0);
        assert(w.e[i][j] == 0) by (nonlinear_arith)
            requires si * w.e[i][j] * tj == 0, si != 0, tj != 0;
    }
    // x * w == I
    lemma_mat_assoc(ub, va, w);
    assert(mat_mul(x, w) == identity_mat(n));
    if ra + rb > n {
        let m = (n - ra) as nat;
        let q = mk(m, rb, |i: int, j: int| w.e[i + ra][j]);
        let z = lemma_wide_kernel(q);
        let yh = Seq::new(n, |j: int| if j < rb { z[j] } else { 0int });
        let wy = apply(w, yh);
        assert forall|i: int| 0 <= i < n implies #[trigger] wy[i] == 0 by {
            lemma_dot_zero_tail(w.e[i], yh, rb, n);
            if i < ra {
                lemma_dot_zero_left(w.e[i], yh, rb);
            } else {
                lemma_dot_congruent(w.e[i], yh, q.e[i - ra], z, rb);
                assert(dot(q.e[i - ra], z, q.cols) == 0);
            }
        }
        lemma_apply_mul(x, w, yh);
        let j0 = choose|j: int| 0 <= j < z.len() && #[trigger] z[j] != 0;
        lemma_dot_unit_left(identity_mat(n).e[j0], yh, j0, n);
        lemma_dot_zero_right(x.e[j0], wy, n);
        assert(apply(identity_mat(n), yh)[j0] == yh[j0]);
        assert(apply(x, wy)[j0] == 0);
        assert(yh[j0] == z[j0]);
    }
}

/// `p * q == I_r` with `p` of `r` rows and `m` columns gives `r <= m`.
pub proof fn lemma_dim_bound(p: Mat, q: Mat)
    requires
        p.wf(),
        q.wf(),
        p.cols == q.rows,
        q.cols == p.rows,
        mat_mul(p, q) == identity_mat(p.rows),
    ensures
        p.rows <= p.cols,
{
    let r = p.rows;
    if r > p.cols {
        let y = lemma_wide_kernel(q);
        lemma_apply_mul(p, q, y);
        let qy = apply(q, y);
        let j0 = choose|j: int| 0 <= j < y.len() && #[trigger] y[j] != 0;
        lemma_dot_unit_left(identity_mat(r).e[j0], y, j0, r);
        lemma_dot_zero_right(p.e[j0], qy, p.cols);
        assert(apply(identity_mat(r), y)[j0] == y[j0]);
        assert(apply(p, qy)[j0] == 0);
    }
}

/// Entries `s..n` of `a` and `b`, shifted to the front.
pub open spec fn drop_front(a: Seq<int>, s: nat, n: nat) -> Seq<int> {
    Seq::new((n - s) as nat, |l: int| a[l + s])
}

/// Where `a` is zero on its first `s` entries, `dot` reads only the rest.
pub proof fn lemma_dot_drop_front(a: Seq<int>, b: Seq<int>, s: nat, n: nat)
    requires
        s <= n,
        forall|k: int| 0 <= k < s ==> #[trigger] a[k] == 0,
    ensures
        dot(a, b, n) == dot(drop_front(a, s, n), drop_front(b, s, n), (n - s) as nat),
    decreases n,
{
    if n == s {
        lemma_dot_zero_left(a, b, n);
    } else {
        lemma_dot_drop_front(a, b, s, (n - 1) as nat);
        lemma_dot_congruent(drop_front(a, s, (n - 1) as nat), drop_front(b, s, (n - 1) as nat),
            drop_front(a, s, n), drop_front(b, s, n), (n - 1 - s) as nat);
    }
}

/// The rows of a diagonal `s` from `r` on are zero, where `r` is its rank
/// and every diagonal entry divides the next.
pub proof fn lemma_rows_past_rank_zero(s: Mat, i: int, j: int)
    requires
        s.wf(),
        s.is_diagonal(),
        forall|a: int, b: int| 0 <= a < b < s.diagonal().len() ==> divides(#[trigger] s.diagonal()[a], #[trigger] s.diagonal()[b]),
        snf_rank(s) <= i < s.rows,
        0 <= j < s.cols,
    ensures
        s.e[i][j] == 0,
{
    let d = s.diagonal();
    let r = snf_rank(s) as int;
    if i != j {
        assert(s.at(i, j) == 0);
    } else {
        lemma_first_zero_bound(d);
        lemma_first_zero_at(d);
        if r < i {
            assert(divides(d[r], d[i]));
            let c = choose|c: int| #[trigger] times(c, d[r]) == d[i];
            assert(times(c, d[r]) == c * 0);
        }
        assert(d[i] == s.e[i][i]);
    }
}

/// Where the first zero falls inside `d`, that entry is zero.
pub proof fn lemma_first_zero_at(d: Seq<int>)
    ensures
        first_zero(d) < d.len() ==> d[first_zero(d) as int] == 0,
    decreases d.len(),
{
    if d.len() > 0 && d[0] != 0 {
        lemma_first_zero_at(d.drop_first());
    }
}

/// The indicator vector, over `n` entries, of class `k`.
pub open spec fn indicator(comp: spec_fn(int) -> int, k: int, n: nat) -> Seq<int> {
    Seq::new(n, |x: int| if comp(x) == k { 1int } else { 0int })
}

/// The rank of a matrix whose left kernel is exactly the span of the
/// indicator vectors of `c` classes: `comp` sends each of the `n` rows to
/// its class, `rep(k)` is a row of class `k`; every column sums to zero on
/// each class, and every vector `y` with `y * a == 0` is constant on each
/// class. Then a Smith normal form of `a` has rank `n - c`.
pub proof fn lemma_rank_by_classes(
    a: Mat,
    u: Mat,
    sm: Mat,
    v: Mat,
    c: nat,
    comp: spec_fn(int) -> int,
    rep: spec_fn(int) -> int,
)
    requires
        is_smith_form(a, u, sm, v),
        forall|x: int| 0 <= x < a.rows ==> 0 <= #[trigger] comp(x) < c,
        forall|k: int| 0 <= k < c ==> 0 <= #[trigger] rep(k) < a.rows && comp(rep(k)) == k,
        forall|k: int, j: int| 0 <= k < c && 0 <= j < a.cols ==> #[trigger] dot(indicator(comp, k, a.rows), a.column(j), a.rows) == 0,
        forall|y: Seq<int>| y.len() == a.rows && (forall|j: int| 0 <= j < a.cols ==> #[trigger] dot(y, a.column(j), a.rows) == 0)
            ==> forall|x1: int, x2: int| 0 <= x1 < a.rows && 0 <= x2 < a.rows && comp(x1) == comp(x2) ==> #[trigger] y[x1] == #[trigger] y[x2],
    ensures
        snf_rank(sm) == a.rows - c,
{
    let n = a.rows;
    let ra = snf_rank(sm);
    lemma_first_zero_bound(sm.diagonal());
    let ui = choose|ui: Mat| ui.wf() && ui.rows == a.rows && ui.cols == a.rows && #[trigger] mat_mul(u, ui) == identity_mat(a.rows);
    let vi = choose|vi: Mat| vi.wf() && vi.rows == a.cols && vi.cols == a.cols && #[trigger] mat_mul(vi, v) == identity_mat(a.cols);
    lemma_right_inverse_is_left(u, ui);
    lemma_right_inverse_is_left(vi, v);
    let av = mat_mul(a, v);
    // the class indicators and the class representatives
    let y = mk(c, n, |k: int, x: int| if comp(x) == k { 1int } else { 0int });
    let z = mk(n, c, |x: int, k: int| if x == rep(k) { 1int } else { 0int });
    assert(mat_mul(y, z) == identity_mat(c)) by {
        assert forall|k: int, l: int| 0 <= k < c && 0 <= l < c implies #[trigger] mat_mul(y, z).e[k][l] == identity_mat(c).e[k][l] by {
            lemma_dot_single_right(y.e[k], z.column(l), rep(l), n);
        }
        lemma_mat_ext(mat_mul(y, z), identity_mat(c));
    }
    assert(is_zero_mat(mat_mul(y, a))) by {
        assert forall|k: int, j: int| 0 <= k < c && 0 <= j < a.cols implies #[trigger] mat_mul(y, a).e[k][j] == 0 by {
            lemma_dot_congruent(y.e[k], a.column(j), indicator(comp, k, n), a.column(j), n);
        }
    }
    // c <= n - ra: the indicators, carried by ui, vanish on the first ra columns
    let m1 = mat_mul(y, ui);
    lemma_mat_assoc(m1, u, av);
    lemma_mat_assoc(y, ui, u);
    crate::matrix::lemma_mul_identity_right(y);
    lemma_mat_assoc(y, a, v);
    lemma_mul_zero(mat_mul(y, a), v);
    assert(is_zero_mat(mat_mul(m1, sm)));
    assert forall|k: int, j: int| 0 <= k < c && 0 <= j < ra implies #[trigger] m1.e[k][j] == 0 by {
        lemma_before_first_zero(sm.diagonal(), j);
        assert(sm.diagonal()[j] == sm.e[j][j]);
        assert forall|t: int| 0 <= t < n && t != j implies #[trigger] sm.column(j)[t] == 0 by {
            assert(sm.at(t, j) == 0);
        }
        lemma_dot_single_right(m1.e[k], sm.column(j), j, n);
        assert(mat_mul(m1, sm).e[k][j] == 0);
        assert(m1.e[k][j] == 0) by (nonlinear_arith)
            requires m1.e[k][j] * sm.e[j][j] == 0, sm.e[j][j] != 0;
    }
    let uz = mat_mul(u, z);
    lemma_mat_assoc(m1, u, z);
    assert(mat_mul(m1, uz) == identity_mat(c));
    let mm = (n - ra) as nat;
    let p1 = mk(c, mm, |k: int, j: int| m1.e[k][j + ra]);
    let q1 = mk(mm, c, |j: int, l: int| uz.e[j + ra][l]);
    assert(mat_mul(p1, q1) == identity_mat(c)) by {
        assert forall|k: int, l: int| 0 <= k < c && 0 <= l < c implies #[trigger] mat_mul(p1, q1).e[k][l] == identity_mat(c).e[k][l] by {
            lemma_dot_drop_front(m1.e[k], uz.column(l), ra, n);
            lemma_dot_congruent(drop_front(m1.e[k], ra, n), drop_front(uz.column(l), ra, n), p1.e[k], q1.column(l), mm);
            assert(mat_mul(m1, uz).e[k][l] == identity_mat(c).e[k][l]);
        }
        lemma_mat_ext(mat_mul(p1, q1), identity_mat(c));
    }
    lemma_dim_bound(p1, q1);
    // n - ra <= c: the rows of u past ra vanish on a, so they are constant on classes
    lemma_mat_assoc(u, av, vi);
    lemma_mat_assoc(a, v, vi);
    crate::matrix::lemma_mul_identity_right(a);
    assert(mat_mul(sm, vi) == mat_mul(u, a));
    let ua = mat_mul(u, a);
    assert forall|i: int| ra <= i < n implies #[trigger] u.e[i].len() == n && forall|x1: int, x2: int|
        0 <= x1 < n && 0 <= x2 < n && comp(x1) == comp(x2) ==> #[trigger] u.e[i][x1] == #[trigger] u.e[i][x2] by {
        assert forall|j: int| 0 <= j < a.cols implies #[trigger] dot(u.e[i], a.column(j), n) == 0 by {
            assert forall|t: int| 0 <= t < a.cols implies #[trigger] sm.e[i][t] == 0 by {
                lemma_rows_past_rank_zero(sm, i, t);
            }
            lemma_dot_zero_left(sm.e[i], vi.column(j), a.cols);
            assert(mat_mul(sm, vi).e[i][j] == 0);
            assert(ua.e[i][j] == 0);
        }
    }
    let g = mk(mm, c, |i: int, k: int| u.e[i + ra][rep(k)]);
    let r = mk(mm, n, |i: int, x: int| u.e[i + ra][x]);
    assert(mat_mul(g, y) == r) by {
        assert forall|i: int, x: int| 0 <= i < mm && 0 <= x < n implies #[trigger] mat_mul(g, y).e[i][x] == r.e[i][x] by {
            lemma_dot_single_right(g.e[i], y.column(x), comp(x), c);
            assert(u.e[i + ra].len() == n);
            assert(comp(rep(comp(x))) == comp(x));
            assert(u.e[i + ra][rep(comp(x))] == u.e[i + ra][x]);
        }
        lemma_mat_ext(mat_mul(g, y), r);
    }
    let w = mk(n, mm, |x: int, j: int| ui.e[x][j + ra]);
    assert(mat_mul(r, w) == identity_mat(mm)) by {
        assert forall|i: int, j: int| 0 <= i < mm && 0 <= j < mm implies #[trigger] mat_mul(r, w).e[i][j] == identity_mat(mm).e[i][j] by {
            lemma_dot_congruent(r.e[i], w.column(j), u.e[i + ra], ui.column(j + ra), n);
            assert(mat_mul(u, ui).e[i + ra][j + ra] == identity_mat(n).e[i + ra][j + ra]);
        }
        lemma_mat_ext(mat_mul(r, w), identity_mat(mm));
    }
    lemma_mat_assoc(g, y, w);
    lemma_dim_bound(g, mat_mul(y, w));
}

/// Where `b` is zero on its first `s` entries, `dot` reads only the rest.
pub proof fn lemma_dot_drop_front_right(a: Seq<int>, b: Seq<int>, s: nat, n: nat)
    requires
        s <= n,
        forall|k: int| 0 <= k < s ==> #[trigger] b[k] == 0,
    ensures
        dot(a, b, n) == dot(drop_front(a, s, n), drop_front(b, s, n), (n - s) as nat),
    decreases n,
{
    if n == s {
        lemma_dot_zero_right(a, b, n);
    } else {
        lemma_dot_drop_front_right(a, b, s, (n - 1) as nat);
        lemma_dot_congruent(drop_front(a, s, (n - 1) as nat), drop_front(b, s, (n - 1) as nat),
            drop_front(a, s, n), drop_front(b, s, n), (n - 1 - s) as nat);
    }
}

/// `k` is a basis of the integer kernel of `a`, with `l` reading off
/// coordinates: `a * k == 0`, `l * k == I`, and every integer vector that `a`
/// sends to zero is `k` applied to its coordinates `l * y`.
pub open spec fn is_kernel_basis(a: Mat, k: Mat, l: Mat) -> bool {
    &&& k.wf() && l.wf()
    &&& k.rows == a.cols && l.rows == k.cols && l.cols == a.cols
    &&& is_zero_mat(mat_mul(a, k))
    &&& mat_mul(l, k) == identity_mat(k.cols)
    &&& forall|y: Seq<int>| y.len() == a.cols && #[trigger] is_zero_vec(apply(a, y)) ==> apply(k, apply(l, y)) == y
}

/// A Smith normal form of `a` gives a basis of its kernel: the last
/// `cols - rank` columns of `v`.
pub proof fn lemma_kernel_basis(a: Mat, u: Mat, sm: Mat, v: Mat)
    requires
        is_smith_form(a, u, sm, v),
    ensures
        exists|k: Mat, l: Mat| #[trigger] is_kernel_basis(a, k, l) && k.cols == a.cols - snf_rank(sm),
{
    let n = a.cols;
    let r = snf_rank(sm);
    lemma_first_zero_bound(sm.diagonal());
    let ui = choose|ui: Mat| ui.wf() && ui.rows == a.rows && ui.cols == a.rows && #[trigger] mat_mul(u, ui) == identity_mat(a.rows);
    let vi = choose|vi: Mat| vi.wf() && vi.rows == a.cols && vi.cols == a.cols && #[trigger] mat_mul(vi, v) == identity_mat(a.cols);
    lemma_right_inverse_is_left(u, ui);
    lemma_right_inverse_is_left(vi, v);
    let av = mat_mul(a, v);
    // ui * sm == a * v
    lemma_mat_assoc(ui, u, av);
    lemma_mul_identity_left(av);
    assert(mat_mul(ui, sm) == av);
    // the columns of a * v past the rank are zero
    assert forall|i: int, j: int| 0 <= i < a.rows && r <= j < n implies #[trigger] av.e[i][j] == 0 by {
        assert forall|t: int| 0 <= t < a.rows implies #[trigger] sm.column(j)[t] == 0 by {
            if t == j {
                lemma_rows_past_rank_zero(sm, t, j);
            } else {
                assert(sm.at(t, j) == 0);
            }
        }
        lemma_dot_zero_right(ui.e[i], sm.column(j), a.rows);
    }
    let mm = (n - r) as nat;
    let k = mk(n, mm, |i: int, j: int| v.e[i][j + r]);
    let l = mk(mm, n, |i: int, j: int| vi.e[i + r][j]);
    assert(is_zero_mat(mat_mul(a, k))) by {
        assert forall|i: int, j: int| 0 <= i < a.rows && 0 <= j < mm implies #[trigger] mat_mul(a, k).e[i][j] == 0 by {
            lemma_dot_congruent(a.e[i], k.column(j), a.e[i], v.column(j + r), n);
            assert(av.e[i][j + r] == 0);
        }
    }
    assert(mat_mul(l, k) == identity_mat(mm)) by {
        assert forall|i: int, j: int| 0 <= i < mm && 0 <= j < mm implies #[trigger] mat_mul(l, k).e[i][j] == identity_mat(mm).e[i][j] by {
            lemma_dot_congruent(l.e[i], k.column(j), vi.e[i + r], v.column(j + r), n);
            assert(mat_mul(vi, v).e[i + r][j + r] == identity_mat(n).e[i + r][j + r]);
        }
        lemma_mat_ext(mat_mul(l, k), identity_mat(mm));
    }
    assert forall|y: Seq<int>| y.len() == a.cols && #[trigger] is_zero_vec(apply(a, y)) implies apply(k, apply(l, y)) == y by {
        let z = apply(vi, y);
        // y == v * z
        lemma_apply_mul(v, vi, y);
        assert forall|i: int| 0 <= i < n implies #[trigger] apply(identity_mat(n), y)[i] == y[i] by {
            lemma_dot_unit_left(identity_mat(n).e[i], y, i, n);
        }
        assert(apply(v, z) =~= y);
        // sm * z == u * (a * (v * z)) == 0, so z vanishes below the rank
        lemma_apply_mul(a, v, z);
        lemma_apply_mul(u, av, z);
        assert forall|i: int| 0 <= i < r implies #[trigger] z[i] == 0 by {
            lemma_before_first_zero(sm.diagonal(), i);
            assert(sm.diagonal()[i] == sm.e[i][i]);
            assert forall|t: int| 0 <= t < n && t != i implies #[trigger] sm.e[i][t] == 0 by {
                assert(sm.at(i, t) == 0);
            }
            lemma_dot_single_left(sm.e[i], z, i, n);
            lemma_dot_zero_right(u.e[i], apply(a, y), a.rows);
            assert(apply(sm, z)[i] == apply(u, apply(av, z))[i]);
            assert(apply(sm, z)[i] == sm.e[i][i] * z[i]);
            assert(z[i] == 0) by (nonlinear_arith)
                requires sm.e[i][i] * z[i] == 0, sm.e[i][i] != 0;
        }
        // so y == k * (the coordinates of z past the rank), and those are l * y
        let w = apply(l, y);
        assert forall|j: int| 0 <= j < mm implies #[trigger] w[j] == z[j + r] by {
            lemma_dot_congruent(l.e[j], y, vi.e[j + r], y, n);
        }
        assert forall|i: int| 0 <= i < n implies #[trigger] apply(k, w)[i] == y[i] by {
            lemma_dot_drop_front_right(v.e[i], z, r, n);
            lemma_dot_congruent(drop_front(v.e[i], r, n), drop_front(z, r, n), k.e[i], w, mm);
            assert(apply(v, z)[i] == y[i]);
        }
        assert(apply(k, w) =~= y);
    }
    assert(is_kernel_basis(a, k, l));
}

/// Any two bases of the integer kernel of `a` have the same number of
/// vectors: the dimension of the kernel is well defined.
pub proof fn lemma_kernel_basis_size(a: Mat, k1: Mat, l1: Mat, k2: Mat, l2: Mat)
    requires
        a.wf(),
        is_kernel_basis(a, k1, l1),
        is_kernel_basis(a, k2, l2),
    ensures
        k1.cols == k2.cols,
{
    lemma_kernel_basis_le(a, k1, l1, k2, l2);
    lemma_kernel_basis_le(a, k2, l2, k1, l1);
}

proof fn lemma_kernel_basis_le(a: Mat, k1: Mat, l1: Mat, k2: Mat, l2: Mat)
    requires
        a.wf(),
        is_kernel_basis(a, k1, l1),
        is_kernel_basis(a, k2, l2),
    ensures
        k1.cols <= k2.cols,
{
    let w = mat_mul(l2, k1);
    // k2 * (l2 * k1) == k1: each column of k1 lies in the kernel
    assert(mat_mul(k2, w) == k1) by {
        assert forall|i: int, j: int| 0 <= i < k1.rows && 0 <= j < k1.cols implies #[trigger] mat_mul(k2, w).e[i][j] == k1.e[i][j] by {
            let y = k1.column(j);
            assert forall|r: int| 0 <= r < a.rows implies #[trigger] apply(a, y)[r] == 0 by {
                assert(mat_mul(a, k1).e[r][j] == 0);
            }
            assert(is_zero_vec(apply(a, y)));
            assert(apply(k2, apply(l2, y)) == y);
            lemma_dot_congruent(w.column(j), w.column(j), apply(l2, y), apply(l2, y), k2.cols);
            assert forall|t: int| 0 <= t < k2.cols implies #[trigger] w.column(j)[t] == apply(l2, y)[t] by {}
            lemma_dot_congruent(k2.e[i], w.column(j), k2.e[i], apply(l2, y), k2.cols);
            assert(apply(k2, apply(l2, y))[i] == y[i]);
        }
        lemma_mat_ext(mat_mul(k2, w), k1);
    }
    lemma_mat_assoc(l1, k2, w);
    lemma_dim_bound(mat_mul(l1, k2), w);
}

} // verus!
