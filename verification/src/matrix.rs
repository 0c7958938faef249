//! Integer matrices: the executable type, its mathematical model, and the
//! algebra of elementary row and column operations.

use vstd::prelude::*;

verus! {

/// The mathematical model of an integer matrix: its shape and its entries.
#[verifier::ext_equal]
pub struct Mat {
    pub rows: nat,
    pub cols: nat,
    pub e: Seq<Seq<int>>,
}

/// The matrix of the given shape whose entry `(r, c)` is `f(r, c)`.
pub open spec fn mk(rows: nat, cols: nat, f: spec_fn(int, int) -> int) -> Mat {
    Mat { rows, cols, e: Seq::new(rows, |r: int| Seq::new(cols, |c: int| f(r, c))) }
}

impl Mat {
    /// The entry list has the declared shape.
    pub open spec fn wf(self) -> bool {
        &&& self.e.len() == self.rows
        &&& forall|i: int| 0 <= i < self.rows ==> #[trigger] self.e[i].len() == self.cols
    }

    pub open spec fn at(self, i: int, j: int) -> int {
        self.e[i][j]
    }

    /// Column `j` as a sequence.
    pub open spec fn column(self, j: int) -> Seq<int> {
        Seq::new(self.rows, |k: int| self.e[k][j])
    }

    /// Every entry off the main diagonal is zero.
    pub open spec fn is_diagonal(self) -> bool {
        forall|i: int, j: int| 0 <= i < self.rows && 0 <= j < self.cols && i != j ==> self.at(i, j) == 0
    }

    /// The main diagonal, of length `min(rows, cols)`.
    pub open spec fn diagonal(self) -> Seq<int> {
        Seq::new(if self.rows <= self.cols { self.rows } else { self.cols }, |i: int| self.at(i, i))
    }
}

/// `sum_{k < n} a[k] * b[k]`.
pub open spec fn dot(a: Seq<int>, b: Seq<int>, n: nat) -> int
    decreases n,
{
    if n == 0 {
        0
    } else {
        dot(a, b, (n - 1) as nat) + a[n - 1] * b[n - 1]
    }
}

/// The `rows × cols` matrix whose rows are read in order from `entries`.
pub open spec fn row_major(rows: nat, cols: nat, entries: Seq<i64>) -> Mat {
    mk(rows, cols, |i: int, j: int| entries[i * cols + j] as int)
}

/// The matrix product `a * b` (meaningful when `a.cols == b.rows`).
pub open spec fn mat_mul(a: Mat, b: Mat) -> Mat {
    mk(a.rows, b.cols, |i: int, j: int| dot(a.e[i], b.column(j), a.cols))
}

/// The `n × n` identity matrix.
pub open spec fn identity_mat(n: nat) -> Mat {
    mk(n, n, |i: int, j: int| if i == j { 1 } else { 0 })
}

/// The `rows × cols` zero matrix.
pub open spec fn zero_mat(rows: nat, cols: nat) -> Mat {
    mk(rows, cols, |i: int, j: int| 0)
}

/// Row `i` replaced by `row i + q * row k`.
pub open spec fn row_axpy(m: Mat, i: int, k: int, q: int) -> Mat {
    mk(m.rows, m.cols, |r: int, c: int| if r == i { m.e[i][c] + q * m.e[k][c] } else { m.e[r][c] })
}

/// Rows `i` and `k` exchanged.
pub open spec fn row_swap(m: Mat, i: int, k: int) -> Mat {
    mk(m.rows, m.cols, |r: int, c: int| if r == i { m.e[k][c] } else if r == k { m.e[i][c] } else { m.e[r][c] })
}

/// Row `i` negated.
pub open spec fn row_neg(m: Mat, i: int) -> Mat {
    mk(m.rows, m.cols, |r: int, c: int| if r == i { -m.e[r][c] } else { m.e[r][c] })
}

/// Column `j` replaced by `column j + q * column k`.
pub open spec fn col_axpy(m: Mat, j: int, k: int, q: int) -> Mat {
    mk(m.rows, m.cols, |r: int, c: int| if c == j { m.e[r][j] + q * m.e[r][k] } else { m.e[r][c] })
}

/// Columns `j` and `k` exchanged.
pub open spec fn col_swap(m: Mat, j: int, k: int) -> Mat {
    mk(m.rows, m.cols, |r: int, c: int| if c == j { m.e[r][k] } else if c == k { m.e[r][j] } else { m.e[r][c] })
}

/// Column `j` negated.
pub open spec fn col_neg(m: Mat, j: int) -> Mat {
    mk(m.rows, m.cols, |r: int, c: int| if c == j { -m.e[r][c] } else { m.e[r][c] })
}

/// `x` lies in the range of `i64`.
pub open spec fn fits_i64(x: int) -> bool {
    i64::MIN <= x <= i64::MAX
}

/// Replacing row `i` by `row i - q * row k` keeps every product `q * m[k][c]`
/// and every difference in the range of `i64`.
pub open spec fn row_sub_mul_fits(m: Mat, i: int, k: int, q: int) -> bool {
    forall|c: int| #![trigger m.e[k][c]] 0 <= c < m.cols ==> fits_i64(q * m.e[k][c]) && fits_i64(m.e[i][c] - q * m.e[k][c])
}

/// Replacing column `j` by `column j - q * column k` keeps every product
/// `q * m[r][k]` and every difference in the range of `i64`.
pub open spec fn col_sub_mul_fits(m: Mat, j: int, k: int, q: int) -> bool {
    forall|r: int| #![trigger m.e[r][k]] 0 <= r < m.rows ==> fits_i64(q * m.e[r][k]) && fits_i64(m.e[r][j] - q * m.e[r][k])
}

/// Adding row `i` to row `k` keeps every sum in the range of `i64`.
pub open spec fn row_add_fits(m: Mat, k: int, i: int) -> bool {
    forall|c: int| #![trigger m.e[k][c]] 0 <= c < m.cols ==> fits_i64(m.e[k][c] + m.e[i][c])
}

/// Negating row `k` keeps every entry in the range of `i64`: none is `i64::MIN`.
pub open spec fn row_neg_fits(m: Mat, k: int) -> bool {
    forall|c: int| 0 <= c < m.cols ==> #[trigger] m.e[k][c] != i64::MIN
}

/// `sum_{k < n} |a[k] * b[k]|`.
pub open spec fn abs_dot(a: Seq<int>, b: Seq<int>, n: nat) -> int
    decreases n,
{
    if n == 0 {
        0
    } else {
        abs_dot(a, b, (n - 1) as nat) + abs(a[n - 1] * b[n - 1])
    }
}

pub open spec fn abs(x: int) -> int {
    if x < 0 { -x } else { x }
}

/// Every entry of `a * b` is a sum whose terms have absolute values adding up
/// to at most `i64::MAX`, so no order of evaluation leaves the `i64` range.
pub open spec fn product_fits(a: Mat, b: Mat) -> bool {
    forall|i: int, j: int|
        0 <= i < a.rows && 0 <= j < b.cols ==> #[trigger] abs_dot(a.e[i], b.column(j), a.cols) <= i64::MAX
}

// ---------------------------------------------------------------------------
// Lemmas
// ---------------------------------------------------------------------------

/// Two well-formed models with the same shape and entries are equal.
pub proof fn lemma_mat_ext(a: Mat, b: Mat)
    requires
        a.wf(),
        b.wf(),
        a.rows == b.rows,
        a.cols == b.cols,
        forall|i: int, j: int| 0 <= i < a.rows && 0 <= j < a.cols ==> #[trigger] a.e[i][j] == b.e[i][j],
    ensures
        a == b,
{
    assert forall|i: int| 0 <= i < a.rows implies #[trigger] a.e[i] =~= b.e[i] by {}
    assert(a.e =~= b.e);
}

/// `dot` is linear in its first argument.
pub proof fn lemma_dot_axpy_left(x: Seq<int>, a: Seq<int>, b: Seq<int>, c: Seq<int>, q: int, n: nat)
    requires
        forall|k: int| 0 <= k < n ==> #[trigger] x[k] == a[k] + q * b[k],
    ensures
        dot(x, c, n) == dot(a, c, n) + q * dot(b, c, n),
    decreases n,
{
    if n > 0 {
        lemma_dot_axpy_left(x, a, b, c, q, (n - 1) as nat);
        let k = n - 1;
        assert(x[k] * c[k] == a[k] * c[k] + q * (b[k] * c[k])) by (nonlinear_arith)
            requires x[k] == a[k] + q * b[k];
        assert(q * dot(b, c, n) == q * dot(b, c, (n - 1) as nat) + q * (b[k] * c[k])) by (nonlinear_arith)
            requires dot(b, c, n) == dot(b, c, (n - 1) as nat) + b[k] * c[k];
    }
}

/// `dot` is linear in its second argument.
pub proof fn lemma_dot_axpy_right(a: Seq<int>, y: Seq<int>, b: Seq<int>, c: Seq<int>, q: int, n: nat)
    requires
        forall|k: int| 0 <= k < n ==> #[trigger] y[k] == b[k] + q * c[k],
    ensures
        dot(a, y, n) == dot(a, b, n) + q * dot(a, c, n),
    decreases n,
{
    if n > 0 {
        lemma_dot_axpy_right(a, y, b, c, q, (n - 1) as nat);
        let k = n - 1;
        assert(a[k] * y[k] == a[k] * b[k] + q * (a[k] * c[k])) by (nonlinear_arith)
            requires y[k] == b[k] + q * c[k];
        assert(q * dot(a, c, n) == q * dot(a, c, (n - 1) as nat) + q * (a[k] * c[k])) by (nonlinear_arith)
            requires dot(a, c, n) == dot(a, c, (n - 1) as nat) + a[k] * c[k];
    }
}

/// `dot` only reads the first `n` entries.
pub proof fn lemma_dot_congruent(a1: Seq<int>, b1: Seq<int>, a2: Seq<int>, b2: Seq<int>, n: nat)
    requires
        forall|k: int| 0 <= k < n ==> #[trigger] a1[k] == a2[k],
        forall|k: int| 0 <= k < n ==> #[trigger] b1[k] == b2[k],
    ensures
        dot(a1, b1, n) == dot(a2, b2, n),
    decreases n,
{
    if n > 0 {
        lemma_dot_congruent(a1, b1, a2, b2, (n - 1) as nat);
        assert(a1[n - 1] == a2[n - 1] && b1[n - 1] == b2[n - 1]);
    }
}

/// Against a unit vector, `dot` picks one entry.
pub proof fn lemma_dot_unit_left(u: Seq<int>, c: Seq<int>, i: int, n: nat)
    requires
        0 <= i < n,
        forall|k: int| 0 <= k < n ==> #[trigger] u[k] == if k == i { 1int } else { 0int },
    ensures
        dot(u, c, n) == c[i],
    decreases n,
{
    lemma_dot_unit_left_prefix(u, c, i, n);
}

proof fn lemma_dot_unit_left_prefix(u: Seq<int>, c: Seq<int>, i: int, n: nat)
    requires
        0 <= i,
        forall|k: int| 0 <= k < n ==> #[trigger] u[k] == if k == i { 1int } else { 0int },
    ensures
        dot(u, c, n) == if i < n { c[i] } else { 0 },
    decreases n,
{
    if n > 0 {
        lemma_dot_unit_left_prefix(u, c, i, (n - 1) as nat);
        let k = n - 1;
        if k == i {
            assert(u[k] * c[k] == c[k]);
        } else {
            assert(u[k] * c[k] == 0);
        }
    }
}

pub proof fn lemma_dot_unit_right(a: Seq<int>, u: Seq<int>, i: int, n: nat)
    requires
        0 <= i < n,
        forall|k: int| 0 <= k < n ==> #[trigger] u[k] == if k == i { 1int } else { 0int },
    ensures
        dot(a, u, n) == a[i],
    decreases n,
{
    lemma_dot_unit_right_prefix(a, u, i, n);
}

proof fn lemma_dot_unit_right_prefix(a: Seq<int>, u: Seq<int>, i: int, n: nat)
    requires
        0 <= i,
        forall|k: int| 0 <= k < n ==> #[trigger] u[k] == if k == i { 1int } else { 0int },
    ensures
        dot(a, u, n) == if i < n { a[i] } else { 0 },
    decreases n,
{
    if n > 0 {
        lemma_dot_unit_right_prefix(a, u, i, (n - 1) as nat);
        let k = n - 1;
        if k == i {
            assert(a[k] * u[k] == a[k]);
        } else {
            assert(a[k] * u[k] == 0);
        }
    }
}

/// `I * x == x`.
pub proof fn lemma_mul_identity_left(x: Mat)
    requires
        x.wf(),
    ensures
        mat_mul(identity_mat(x.rows), x) == x,
{
    let p = mat_mul(identity_mat(x.rows), x);
    let id = identity_mat(x.rows);
    assert forall|i: int, j: int| 0 <= i < x.rows && 0 <= j < x.cols implies #[trigger] p.e[i][j] == x.e[i][j] by {
        lemma_dot_unit_left(id.e[i], x.column(j), i, x.rows);
    }
    lemma_mat_ext(p, x);
}

/// `x * I == x`.
pub proof fn lemma_mul_identity_right(x: Mat)
    requires
        x.wf(),
    ensures
        mat_mul(x, identity_mat(x.cols)) == x,
{
    let p = mat_mul(x, identity_mat(x.cols));
    let id = identity_mat(x.cols);
    assert forall|i: int, j: int| 0 <= i < x.rows && 0 <= j < x.cols implies #[trigger] p.e[i][j] == x.e[i][j] by {
        lemma_dot_unit_right(x.e[i], id.column(j), j, x.cols);
    }
    lemma_mat_ext(p, x);
}

/// A row operation on the left factor is the same row operation on the product.
pub proof fn lemma_mul_row_axpy(x: Mat, y: Mat, i: int, k: int, q: int)
    requires
        x.wf(),
        y.wf(),
        x.cols == y.rows,
        0 <= i < x.rows,
        0 <= k < x.rows,
    ensures
        mat_mul(row_axpy(x, i, k, q), y) == row_axpy(mat_mul(x, y), i, k, q),
{
    let l = mat_mul(row_axpy(x, i, k, q), y);
    let r = row_axpy(mat_mul(x, y), i, k, q);
    let xr = row_axpy(x, i, k, q);
    assert forall|a: int, b: int| 0 <= a < x.rows && 0 <= b < y.cols implies #[trigger] l.e[a][b] == r.e[a][b] by {
        if a == i {
            lemma_dot_axpy_left(xr.e[i], x.e[i], x.e[k], y.column(b), q, x.cols);
        } else {
            lemma_dot_congruent(xr.e[a], y.column(b), x.e[a], y.column(b), x.cols);
        }
    }
    lemma_mat_ext(l, r);
}

pub proof fn lemma_mul_row_swap(x: Mat, y: Mat, i: int, k: int)
    requires
        x.wf(),
        y.wf(),
        x.cols == y.rows,
        0 <= i < x.rows,
        0 <= k < x.rows,
    ensures
        mat_mul(row_swap(x, i, k), y) == row_swap(mat_mul(x, y), i, k),
{
    let l = mat_mul(row_swap(x, i, k), y);
    let r = row_swap(mat_mul(x, y), i, k);
    let xs = row_swap(x, i, k);
    assert forall|a: int, b: int| 0 <= a < x.rows && 0 <= b < y.cols implies #[trigger] l.e[a][b] == r.e[a][b] by {
        let src = if a == i { k } else if a == k { i } else { a };
        lemma_dot_congruent(xs.e[a], y.column(b), x.e[src], y.column(b), x.cols);
    }
    lemma_mat_ext(l, r);
}

pub proof fn lemma_mul_row_neg(x: Mat, y: Mat, i: int)
    requires
        x.wf(),
        y.wf(),
        x.cols == y.rows,
        0 <= i < x.rows,
    ensures
        mat_mul(row_neg(x, i), y) == row_neg(mat_mul(x, y), i),
{
    let l = mat_mul(row_neg(x, i), y);
    let r = row_neg(mat_mul(x, y), i);
    let xn = row_neg(x, i);
    assert forall|a: int, b: int| 0 <= a < x.rows && 0 <= b < y.cols implies #[trigger] l.e[a][b] == r.e[a][b] by {
        if a == i {
            lemma_dot_axpy_left(xn.e[i], x.e[i], x.e[i], y.column(b), -2, x.cols);
        } else {
            lemma_dot_congruent(xn.e[a], y.column(b), x.e[a], y.column(b), x.cols);
        }
    }
    lemma_mat_ext(l, r);
}

/// A column operation on the right factor is the same column operation on the product.
pub proof fn lemma_mul_col_axpy(x: Mat, y: Mat, j: int, k: int, q: int)
    requires
        x.wf(),
        y.wf(),
        x.cols == y.rows,
        0 <= j < y.cols,
        0 <= k < y.cols,
    ensures
        mat_mul(x, col_axpy(y, j, k, q)) == col_axpy(mat_mul(x, y), j, k, q),
{
    let l = mat_mul(x, col_axpy(y, j, k, q));
    let r = col_axpy(mat_mul(x, y), j, k, q);
    let yc = col_axpy(y, j, k, q);
    assert forall|a: int, b: int| 0 <= a < x.rows && 0 <= b < y.cols implies #[trigger] l.e[a][b] == r.e[a][b] by {
        if b == j {
            lemma_dot_axpy_right(x.e[a], yc.column(j), y.column(j), y.column(k), q, x.cols);
        } else {
            lemma_dot_congruent(x.e[a], yc.column(b), x.e[a], y.column(b), x.cols);
        }
    }
    lemma_mat_ext(l, r);
}

pub proof fn lemma_mul_col_swap(x: Mat, y: Mat, j: int, k: int)
    requires
        x.wf(),
        y.wf(),
        x.cols == y.rows,
        0 <= j < y.cols,
        0 <= k < y.cols,
    ensures
        mat_mul(x, col_swap(y, j, k)) == col_swap(mat_mul(x, y), j, k),
{
    let l = mat_mul(x, col_swap(y, j, k));
    let r = col_swap(mat_mul(x, y), j, k);
    let ys = col_swap(y, j, k);
    assert forall|a: int, b: int| 0 <= a < x.rows && 0 <= b < y.cols implies #[trigger] l.e[a][b] == r.e[a][b] by {
        let src = if b == j { k } else if b == k { j } else { b };
        lemma_dot_congruent(x.e[a], ys.column(b), x.e[a], y.column(src), x.cols);
    }
    lemma_mat_ext(l, r);
}


pub proof fn lemma_mul_col_neg(x: Mat, y: Mat, j: int)
    requires
        x.wf(),
        y.wf(),
        x.cols == y.rows,
        0 <= j < y.cols,
    ensures
        mat_mul(x, col_neg(y, j)) == col_neg(mat_mul(x, y), j),
{
    let l = mat_mul(x, col_neg(y, j));
    let r = col_neg(mat_mul(x, y), j);
    let yn = col_neg(y, j);
    assert forall|a: int, b: int| 0 <= a < x.rows && 0 <= b < y.cols implies #[trigger] l.e[a][b] == r.e[a][b] by {
        if b == j {
            lemma_dot_axpy_right(x.e[a], yn.column(j), y.column(j), y.column(j), -2, x.cols);
        } else {
            lemma_dot_congruent(x.e[a], yn.column(b), x.e[a], y.column(b), x.cols);
        }
    }
    lemma_mat_ext(l, r);
}

/// `row i += q row k` undoes `col k -= q col i` on the identity.
pub proof fn lemma_axpy_pair_identity(n: nat, i: int, k: int, q: int)
    requires
        0 <= i < n,
        0 <= k < n,
        i != k,
    ensures
        row_axpy(col_axpy(identity_mat(n), k, i, -q), i, k, q) == identity_mat(n),
{
    let l = row_axpy(col_axpy(identity_mat(n), k, i, -q), i, k, q);
    assert forall|a: int, b: int| 0 <= a < n && 0 <= b < n implies #[trigger] l.e[a][b] == identity_mat(n).e[a][b] by {
        if a == i && b == k {
            assert(-q + q * 1 == 0) by (nonlinear_arith);
        }
    }
    lemma_mat_ext(l, identity_mat(n));
}

pub proof fn lemma_swap_pair_identity(n: nat, i: int, k: int)
    requires
        0 <= i < n,
        0 <= k < n,
    ensures
        row_swap(col_swap(identity_mat(n), i, k), i, k) == identity_mat(n),
{
    let l = row_swap(col_swap(identity_mat(n), i, k), i, k);
    assert forall|a: int, b: int| 0 <= a < n && 0 <= b < n implies #[trigger] l.e[a][b] == identity_mat(n).e[a][b] by {}
    lemma_mat_ext(l, identity_mat(n));
}

pub proof fn lemma_neg_pair_identity(n: nat, i: int)
    requires
        0 <= i < n,
    ensures
        row_neg(col_neg(identity_mat(n), i), i) == identity_mat(n),
{
    let l = row_neg(col_neg(identity_mat(n), i), i);
    assert forall|a: int, b: int| 0 <= a < n && 0 <= b < n implies #[trigger] l.e[a][b] == identity_mat(n).e[a][b] by {}
    lemma_mat_ext(l, identity_mat(n));
}

// ---------------------------------------------------------------------------
// The executable matrix
// ---------------------------------------------------------------------------

/// A dense matrix of `i64` entries, stored row by row.
#[derive(Debug)]
pub struct ZMatrix {
    nrows: usize,
    ncols: usize,
    data: Vec<Vec<i64>>,
}

impl View for ZMatrix {
    type V = Mat;

    closed spec fn view(&self) -> Mat {
        mk(self.nrows as nat, self.ncols as nat, |i: int, j: int| self.data@[i]@[j] as int)
    }
}

/// The model of a matrix always has the shape it declares.
pub broadcast proof fn lemma_zmatrix_view_wf(m: ZMatrix)
    ensures
        #[trigger] m@.wf(),
{
}

pub broadcast group group_zmatrix {
    lemma_zmatrix_view_wf,
}

impl Clone for ZMatrix {
    fn clone(&self) -> (m: Self)
        ensures
            m@ == self@,
    {
        self.copy_matrix()
    }
}

impl ZMatrix {
    #[verifier::type_invariant]
    spec fn inv(self) -> bool {
        &&& self.data.len() == self.nrows
        &&& forall|i: int| 0 <= i < self.nrows ==> #[trigger] self.data@[i].len() == self.ncols
    }

    /// Number of rows.
    pub fn nrows(&self) -> (r: usize)
        ensures
            r == self@.rows,
    {
        self.nrows
    }

    /// Number of columns.
    pub fn ncols(&self) -> (c: usize)
        ensures
            c == self@.cols,
    {
        self.ncols
    }

    /// The entry in row `i` and column `j`.
    pub fn get(&self, i: usize, j: usize) -> (x: i64)
        requires
            i < self@.rows,
            j < self@.cols,
        ensures
            x == self@.e[i as int][j as int],
    {
        proof {
            use_type_invariant(self);
            assert(self.data@[i as int].len() == self.ncols);
        }
        self.data[i][j]
    }

    /// The `rows × cols` matrix of zeros.
    pub fn zeros(rows: usize, cols: usize) -> (m: ZMatrix)
        ensures
            m@ == zero_mat(rows as nat, cols as nat),
    {
        let mut data: Vec<Vec<i64>> = Vec::new();
        for i in 0..rows
            invariant
                data.len() == i,
                forall|a: int| 0 <= a < i ==> #[trigger] data@[a]@ == Seq::new(cols as nat, |c: int| 0i64),
        {
            let mut row: Vec<i64> = Vec::new();
            for j in 0..cols
                invariant
                    row@ == Seq::new(j as nat, |c: int| 0i64),
            {
                row.push(0);
                assert(row@ =~= Seq::new((j + 1) as nat, |c: int| 0i64));
            }
            data.push(row);
        }
        let m = ZMatrix { nrows: rows, ncols: cols, data };
        proof {
            lemma_mat_ext(m@, zero_mat(rows as nat, cols as nat));
        }
        m
    }

    /// The `n × n` identity matrix.
    pub fn identity(n: usize) -> (m: ZMatrix)
        ensures
            m@ == identity_mat(n as nat),
    {
        let mut data: Vec<Vec<i64>> = Vec::new();
        for i in 0..n
            invariant
                data.len() == i,
                forall|a: int| 0 <= a < i ==> #[trigger] data@[a]@ == Seq::new(n as nat, |c: int| if c == a { 1i64 } else { 0i64 }),
        {
            let mut row: Vec<i64> = Vec::new();
            for j in 0..n
                invariant
                    row@ == Seq::new(j as nat, |c: int| if c == i { 1i64 } else { 0i64 }),
            {
                if j == i {
                    row.push(1);
                } else {
                    row.push(0);
                }
                assert(row@ =~= Seq::new((j + 1) as nat, |c: int| if c == i { 1i64 } else { 0i64 }));
            }
            data.push(row);
        }
        let m = ZMatrix { nrows: n, ncols: n, data };
        proof {
            lemma_mat_ext(m@, identity_mat(n as nat));
        }
        m
    }

    /// The `rows × cols` matrix whose rows are read in order from `entries`.
    pub fn from_row_slice(rows: usize, cols: usize, entries: &[i64]) -> (m: ZMatrix)
        requires
            entries@.len() == rows * cols,
        ensures
            m@.rows == rows,
            m@.cols == cols,
            forall|i: int, j: int|
                0 <= i < rows && 0 <= j < cols ==> #[trigger] m@.e[i][j] == entries@[i * cols + j],
            m@ == row_major(rows as nat, cols as nat, entries@),
    {
        let total = entries.len();
        let mut data: Vec<Vec<i64>> = Vec::new();
        for i in 0..rows
            invariant
                total == entries@.len(),
                entries@.len() == rows * cols,
                data.len() == i,
                forall|a: int| 0 <= a < i ==> #[trigger] data@[a].len() == cols,
                forall|a: int, c: int| 0 <= a < i && 0 <= c < cols ==> #[trigger] data@[a]@[c] == entries@[a * cols + c],
        {
            let mut row: Vec<i64> = Vec::new();
            for j in 0..cols
                invariant
                    total == entries@.len(),
                    entries@.len() == rows * cols,
                    i < rows,
                    row.len() == j,
                    forall|c: int| 0 <= c < j ==> #[trigger] row@[c] == entries@[i * cols + c],
            {
                proof {
                    lemma_row_major_index(i as int, j as int, rows as int, cols as int);
                }
                row.push(entries[i * cols + j]);
            }
            data.push(row);
        }
        let m = ZMatrix { nrows: rows, ncols: cols, data };
        proof {
            lemma_mat_ext(m@, row_major(rows as nat, cols as nat, entries@));
        }
        m
    }

    /// A copy with the same entries.
    pub fn copy_matrix(&self) -> (m: ZMatrix)
        ensures
            m@ == self@,
    {
        proof {
            use_type_invariant(self);
        }
        let mut data: Vec<Vec<i64>> = Vec::new();
        for i in 0..self.nrows
            invariant
                self.data.len() == self.nrows,
                forall|a: int| 0 <= a < self.nrows ==> #[trigger] self.data@[a].len() == self.ncols,
                data.len() == i,
                forall|a: int| 0 <= a < i ==> #[trigger] data@[a]@ == self.data@[a]@,
                forall|a: int| 0 <= a < i ==> #[trigger] data@[a].len() == self.ncols,
        {
            assert(self.data@[i as int].len() == self.ncols);
            let row = copy_row(&self.data[i]);
            assert(row.len() == self.ncols);
            data.push(row);
        }
        let m = ZMatrix { nrows: self.nrows, ncols: self.ncols, data };
        proof {
            lemma_mat_ext(m@, self@);
        }
        m
    }
}

fn copy_row(r: &Vec<i64>) -> (out: Vec<i64>)
    ensures
        out@ == r@,
{
    let mut out: Vec<i64> = Vec::new();
    for j in 0..r.len()
        invariant
            out@ == r@.subrange(0, j as int),
    {
        out.push(r[j]);
        assert(out@ =~= r@.subrange(0, j + 1));
    }
    assert(out@ =~= r@);
    out
}

proof fn lemma_row_major_index(i: int, j: int, rows: int, cols: int)
    requires
        0 <= i < rows,
        0 <= j < cols,
    ensures
        0 <= i * cols + j < rows * cols,
{
    assert(i * cols + j < rows * cols) by (nonlinear_arith)
        requires 0 <= i < rows, 0 <= j < cols;
    assert(0 <= i * cols) by (nonlinear_arith)
        requires 0 <= i, 0 <= cols;
}


// ---------------------------------------------------------------------------
// Elementary operations, checked against `i64` overflow
// ---------------------------------------------------------------------------

impl ZMatrix {
    /// Row `i` becomes `row i - q * row k`. Returns `false`, leaving the shape
    /// unchanged, where an intermediate value leaves the `i64` range.
    pub(crate) fn row_sub_mul(&mut self, i: usize, k: usize, q: i64) -> (ok: bool)
        requires
            i < old(self)@.rows,
            k < old(self)@.rows,
        ensures
            final(self)@.rows == old(self)@.rows,
            final(self)@.cols == old(self)@.cols,
            ok == row_sub_mul_fits(old(self)@, i as int, k as int, q as int),
            ok ==> final(self)@ == row_axpy(old(self)@, i as int, k as int, -q),
            !ok ==> final(self)@ == old(self)@,
    {
        proof {
            use_type_invariant(&*self);
        }
        let ghost m0 = self@;
        let n = self.ncols;
        let mut row: Vec<i64> = Vec::new();
        assert(self.data@[i as int].len() == n && self.data@[k as int].len() == n);
        for j in 0..n
            invariant
                n == self.ncols,
                i < self.nrows,
                k < self.nrows,
                m0 == self@,
                self.data.len() == self.nrows,
                self.data@[i as int].len() == n,
                self.data@[k as int].len() == n,
                row.len() == j,
                forall|c: int| 0 <= c < j ==> #[trigger] row@[c] == self.data@[i as int]@[c] - q * self.data@[k as int]@[c],
                forall|c: int| #![trigger m0.e[k as int][c]] 0 <= c < j ==> fits_i64(q * m0.e[k as int][c])
                    && fits_i64(m0.e[i as int][c] - q * m0.e[k as int][c]),
        {
            let x = self.data[k][j];
            let y = self.data[i][j];
            assert(m0.e[k as int][j as int] == x && m0.e[i as int][j as int] == y);
            match q.checked_mul(x) {
                Some(p) => match y.checked_sub(p) {
                    Some(v) => row.push(v),
                    None => {
                        assert(!fits_i64(m0.e[i as int][j as int] - q * m0.e[k as int][j as int]));
                        return false;
                    },
                },
                None => {
                    assert(!fits_i64(q * m0.e[k as int][j as int]));
                    return false;
                },
            }
        }
        let ghost old_m = self@;
        let ghost old_data = self.data@;
        self.replace_row(i, row);
        proof {
            let target = row_axpy(old_m, i as int, k as int, -q);
            assert forall|a: int, b: int| 0 <= a < old_m.rows && 0 <= b < old_m.cols implies
                #[trigger] self@.e[a][b] == target.e[a][b] by {
                if a == i {
                    let x = old_data[k as int]@[b] as int;
                    assert(self.data@[a]@[b] == old_data[a]@[b] - q * x);
                    assert((-q) * x == -(q * x)) by (nonlinear_arith);
                } else {
                    assert(self.data@[a] == old_data[a]);
                }
            }
            lemma_mat_ext(self@, target);
        }
        true
    }

    /// The entry in row `i` and column `j` becomes `x`.
    pub(crate) fn set_entry(&mut self, i: usize, j: usize, x: i64)
        requires
            i < old(self)@.rows,
            j < old(self)@.cols,
        ensures
            final(self)@.rows == old(self)@.rows,
            final(self)@.cols == old(self)@.cols,
            forall|a: int, b: int| 0 <= a < old(self)@.rows && 0 <= b < old(self)@.cols ==>
                #[trigger] final(self)@.e[a][b] == if a == i && b == j { x as int } else { old(self)@.e[a][b] },
    {
        proof {
            use_type_invariant(&*self);
        }
        let ghost old_data = self.data@;
        assert(self.data@[i as int].len() == self.ncols);
        let mut row = copy_row(&self.data[i]);
        row.set(j, x);
        self.replace_row(i, row);
        proof {
            assert forall|a: int, b: int| 0 <= a < old(self)@.rows && 0 <= b < old(self)@.cols implies
                #[trigger] self@.e[a][b] == if a == i && b == j { x as int } else { old(self)@.e[a][b] } by {
                if a != i {
                    assert(self.data@[a] == old_data[a]);
                }
            }
        }
    }

    /// Row `i` becomes `row`.
    fn replace_row(&mut self, i: usize, row: Vec<i64>)
        requires
            i < old(self)@.rows,
            row.len() == old(self)@.cols,
        ensures
            final(self).nrows == old(self).nrows,
            final(self).ncols == old(self).ncols,
            final(self).data@ == old(self).data@.update(i as int, row),
    {
        let mut taken = ZMatrix { nrows: 0, ncols: 0, data: Vec::new() };
        std::mem::swap(self, &mut taken);
        proof {
            use_type_invariant(&taken);
        }
        let ZMatrix { nrows, ncols, mut data } = taken;
        data.set(i, row);
        *self = ZMatrix { nrows, ncols, data };
    }
}


impl ZMatrix {
    /// Row `k` becomes `row k + row i`. Returns `false` where a sum leaves the
    /// `i64` range.
    pub(crate) fn row_add(&mut self, k: usize, i: usize) -> (ok: bool)
        requires
            k < old(self)@.rows,
            i < old(self)@.rows,
        ensures
            final(self)@.rows == old(self)@.rows,
            final(self)@.cols == old(self)@.cols,
            ok == row_add_fits(old(self)@, k as int, i as int),
            ok ==> final(self)@ == row_axpy(old(self)@, k as int, i as int, 1),
            !ok ==> final(self)@ == old(self)@,
    {
        proof {
            use_type_invariant(&*self);
        }
        let ghost m0 = self@;
        let n = self.ncols;
        let mut row: Vec<i64> = Vec::new();
        assert(self.data@[i as int].len() == n && self.data@[k as int].len() == n);
        for j in 0..n
            invariant
                n == self.ncols,
                i < self.nrows,
                k < self.nrows,
                m0 == self@,
                self.data.len() == self.nrows,
                self.data@[i as int].len() == n,
                self.data@[k as int].len() == n,
                row.len() == j,
                forall|c: int| 0 <= c < j ==> #[trigger] row@[c] == self.data@[k as int]@[c] + self.data@[i as int]@[c],
                forall|c: int| #![trigger m0.e[k as int][c]] 0 <= c < j ==> fits_i64(m0.e[k as int][c] + m0.e[i as int][c]),
        {
            let x = self.data[k][j];
            let y = self.data[i][j];
            assert(m0.e[k as int][j as int] == x && m0.e[i as int][j as int] == y);
            match x.checked_add(y) {
                Some(v) => row.push(v),
                None => {
                    assert(!fits_i64(m0.e[k as int][j as int] + m0.e[i as int][j as int]));
                    return false;
                },
            }
        }
        let ghost old_m = self@;
        let ghost old_data = self.data@;
        self.replace_row(k, row);
        proof {
            let target = row_axpy(old_m, k as int, i as int, 1);
            assert forall|a: int, b: int| 0 <= a < old_m.rows && 0 <= b < old_m.cols implies
                #[trigger] self@.e[a][b] == target.e[a][b] by {
                if a != k {
                    assert(self.data@[a] == old_data[a]);
                }
            }
            lemma_mat_ext(self@, target);
        }
        true
    }

    /// Row `k` is negated. Returns `false` where an entry is `i64::MIN`.
    pub(crate) fn row_negate(&mut self, k: usize) -> (ok: bool)
        requires
            k < old(self)@.rows,
        ensures
            final(self)@.rows == old(self)@.rows,
            final(self)@.cols == old(self)@.cols,
            ok == row_neg_fits(old(self)@, k as int),
            ok ==> final(self)@ == row_neg(old(self)@, k as int),
            !ok ==> final(self)@ == old(self)@,
    {
        proof {
            use_type_invariant(&*self);
        }
        let ghost m0 = self@;
        let n = self.ncols;
        let mut row: Vec<i64> = Vec::new();
        assert(self.data@[k as int].len() == n);
        for j in 0..n
            invariant
                n == self.ncols,
                k < self.nrows,
                m0 == self@,
                self.data.len() == self.nrows,
                self.data@[k as int].len() == n,
                row.len() == j,
                forall|c: int| 0 <= c < j ==> #[trigger] row@[c] == -self.data@[k as int]@[c],
                forall|c: int| 0 <= c < j ==> #[trigger] m0.e[k as int][c] != i64::MIN,
        {
            let x = self.data[k][j];
            assert(m0.e[k as int][j as int] == x);
            if x == i64::MIN {
                return false;
            }
            row.push(-x);
        }
        let ghost old_m = self@;
        let ghost old_data = self.data@;
        self.replace_row(k, row);
        proof {
            let target = row_neg(old_m, k as int);
            assert forall|a: int, b: int| 0 <= a < old_m.rows && 0 <= b < old_m.cols implies
                #[trigger] self@.e[a][b] == target.e[a][b] by {
                if a != k {
                    assert(self.data@[a] == old_data[a]);
                }
            }
            lemma_mat_ext(self@, target);
        }
        true
    }

    /// Rows `i` and `k` are exchanged.
    pub(crate) fn swap_rows(&mut self, i: usize, k: usize)
        requires
            i < old(self)@.rows,
            k < old(self)@.rows,
        ensures
            final(self)@ == row_swap(old(self)@, i as int, k as int),
    {
        proof {
            use_type_invariant(&*self);
        }
        let ghost old_m = self@;
        let ghost old_data = self.data@;
        assert(self.data@[i as int].len() == self.ncols && self.data@[k as int].len() == self.ncols);
        let ri = copy_row(&self.data[i]);
        let rk = copy_row(&self.data[k]);
        self.replace_row(i, rk);
        self.replace_row(k, ri);
        proof {
            let target = row_swap(old_m, i as int, k as int);
            assert forall|a: int, b: int| 0 <= a < old_m.rows && 0 <= b < old_m.cols implies
                #[trigger] self@.e[a][b] == target.e[a][b] by {
                if a != i && a != k {
                    assert(self.data@[a] == old_data[a]);
                }
            }
            lemma_mat_ext(self@, target);
        }
    }

    /// Column `j` becomes `column j - q * column k`. Returns `false` where an
    /// intermediate value leaves the `i64` range; the shape is kept either way.
    pub(crate) fn col_sub_mul(&mut self, j: usize, k: usize, q: i64) -> (ok: bool)
        requires
            j < old(self)@.cols,
            k < old(self)@.cols,
        ensures
            final(self)@.rows == old(self)@.rows,
            final(self)@.cols == old(self)@.cols,
            ok == col_sub_mul_fits(old(self)@, j as int, k as int, q as int),
            ok ==> final(self)@ == col_axpy(old(self)@, j as int, k as int, -q),
            !ok ==> final(self)@ == old(self)@,
    {
        let ghost old_m = self@;
        let m = self.nrows;
        // every row is checked before any is changed
        for r in 0..m
            invariant
                self@ == old_m,
                self.nrows == m,
                m == old_m.rows,
                self.ncols == old_m.cols,
                j < self.ncols,
                k < self.ncols,
                forall|a: int| #![trigger old_m.e[a][k as int]] 0 <= a < r ==> fits_i64(q * old_m.e[a][k as int])
                    && fits_i64(old_m.e[a][j as int] - q * old_m.e[a][k as int]),
        {
            proof {
                use_type_invariant(&*self);
            }
            assert(self.data@[r as int].len() == self.ncols);
            let x = self.data[r][k];
            let y = self.data[r][j];
            assert(x == old_m.e[r as int][k as int] && y == old_m.e[r as int][j as int]);
            let mut fits = false;
            if let Some(p) = q.checked_mul(x) {
                if let Some(_d) = y.checked_sub(p) {
                    fits = true;
                }
            }
            if !fits {
                assert(!(fits_i64(q * old_m.e[r as int][k as int])
                    && fits_i64(old_m.e[r as int][j as int] - q * old_m.e[r as int][k as int])));
                return false;
            }
        }
        let mut r: usize = 0;
        while r < m
            invariant
                r <= m,
                self.nrows == m,
                m == old_m.rows,
                self.ncols == old_m.cols,
                j < self.ncols,
                k < self.ncols,
                col_sub_mul_fits(old_m, j as int, k as int, q as int),
                forall|a: int, b: int| 0 <= a < m && 0 <= b < old_m.cols ==>
                    #[trigger] self@.e[a][b] == (if a < r && b == j { old_m.e[a][j as int] - q * old_m.e[a][k as int] } else { old_m.e[a][b] }),
            decreases m - r,
        {
            proof {
                use_type_invariant(&*self);
            }
            assert(self.data@[r as int].len() == self.ncols);
            let x = self.data[r][k];
            let y = self.data[r][j];
            assert(self@.e[r as int][k as int] == x && self@.e[r as int][j as int] == y);
            assert(x == old_m.e[r as int][k as int] && y == old_m.e[r as int][j as int]);
            assert(fits_i64(q * old_m.e[r as int][k as int]) && fits_i64(old_m.e[r as int][j as int] - q * old_m.e[r as int][k as int]));
            let v: i64 = y - q * x;
            let mut row = copy_row(&self.data[r]);
            row.set(j, v);
            let ghost before = self.data@;
            let ghost before_m = self@;
            self.replace_row(r, row);
            proof {
                assert forall|a: int, b: int| 0 <= a < m && 0 <= b < old_m.cols implies
                    #[trigger] self@.e[a][b] == (if a < r + 1 && b == j { old_m.e[a][j as int] - q * old_m.e[a][k as int] } else { old_m.e[a][b] }) by {
                    if a != r {
                        assert(self.data@[a] == before[a]);
                        assert(before_m.e[a][b] == self@.e[a][b]);
                    } else {
                        assert(before_m.e[a][b] == before[a]@[b]);
                    }
                }
            }
            r = r + 1;
        }
        proof {
            let target = col_axpy(old_m, j as int, k as int, -q);
            assert forall|a: int, b: int| 0 <= a < old_m.rows && 0 <= b < old_m.cols implies
                #[trigger] self@.e[a][b] == target.e[a][b] by {
                if b == j {
                    let x = old_m.e[a][k as int];
                    assert((-q) * x == -(q * x)) by (nonlinear_arith);
                }
            }
            lemma_mat_ext(self@, target);
        }
        true
    }

    /// Columns `j` and `k` are exchanged.
    pub(crate) fn swap_cols(&mut self, j: usize, k: usize)
        requires
            j < old(self)@.cols,
            k < old(self)@.cols,
        ensures
            final(self)@ == col_swap(old(self)@, j as int, k as int),
    {
        let ghost old_m = self@;
        let m = self.nrows;
        for r in 0..m
            invariant
                self.nrows == m,
                m == old_m.rows,
                self.ncols == old_m.cols,
                j < self.ncols,
                k < self.ncols,
                forall|a: int, b: int| 0 <= a < m && 0 <= b < old_m.cols ==>
                    #[trigger] self@.e[a][b] == (if a < r { col_swap(old_m, j as int, k as int).e[a][b] } else { old_m.e[a][b] }),
        {
            proof {
                use_type_invariant(&*self);
            }
            assert(self.data@[r as int].len() == self.ncols);
            let x = self.data[r][j];
            let y = self.data[r][k];
            let mut row = copy_row(&self.data[r]);
            row.set(j, y);
            row.set(k, x);
            let ghost before = self.data@;
            let ghost before_m = self@;
            self.replace_row(r, row);
            proof {
                assert forall|a: int, b: int| 0 <= a < m && 0 <= b < old_m.cols implies
                    #[trigger] self@.e[a][b] == (if a < r + 1 { col_swap(old_m, j as int, k as int).e[a][b] } else { old_m.e[a][b] }) by {
                    if a != r {
                        assert(self.data@[a] == before[a]);
                        assert(before_m.e[a][b] == self@.e[a][b]);
                    } else {
                        assert(before_m.e[a][b] == before[a]@[b]);
                        assert(before_m.e[a][j as int] == old_m.e[a][j as int]);
                        assert(before_m.e[a][k as int] == old_m.e[a][k as int]);
                        assert(before_m.e[a][b] == old_m.e[a][b]);
                    }
                }
            }
        }
        proof {
            lemma_mat_ext(self@, col_swap(old_m, j as int, k as int));
        }
    }
}


/// The product `a * b`, computed by `nalgebra` as `&x * &y` on the
/// `DMatrix<i64>` copies of `a` and `b`. Its contract claims that `nalgebra`
/// forms each entry as the sum `sum_k a[i][k] * b[k][j]`: the product of
/// dynamically sized integer matrices is evaluated column by column (`gemv`),
/// accumulating one product at a time, so no intermediate exceeds the sum of
/// absolute values that `product_fits` bounds. Shapes that do not chain are
/// left out: `nalgebra` panics on them.
#[verifier::external_body]
pub(crate) fn dmatrix_product(a: &ZMatrix, b: &ZMatrix) -> (c: ZMatrix)
    requires
        a@.cols == b@.rows,
        product_fits(a@, b@),
    ensures
        c@ == mat_mul(a@, b@),
{
    let x = nalgebra::DMatrix::from_row_iterator(a.nrows, a.ncols, a.data.iter().flatten().copied());
    let y = nalgebra::DMatrix::from_row_iterator(b.nrows, b.ncols, b.data.iter().flatten().copied());
    let p = &x * &y;
    let mut data: Vec<Vec<i64>> = Vec::new();
    for i in 0..p.nrows() {
        data.push(p.row(i).iter().copied().collect());
    }
    ZMatrix { nrows: p.nrows(), ncols: p.ncols(), data }
}

} // verus!
