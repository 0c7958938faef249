//! One round of the Smith reduction at a diagonal position.

use vstd::prelude::*;
use crate::matrix::{
    Mat, ZMatrix, abs, col_axpy, col_neg, col_sub_mul_fits, col_swap, group_zmatrix, row_add_fits, row_axpy, row_neg,
    row_neg_fits, row_sub_mul_fits, row_swap,
};
use crate::snf_run::{
    RoundOutcome, before, bad_row, cleared, close_round, col_phase, finish_round, first_bad_row, is_first_pivot,
    lemma_first_bad_row_unique, lemma_pivot_at, pivot_at, round, round_tail, row_phase, trunc_div,
};
use crate::smith::{
    block_zero, divides, lemma_divides_zero, lemma_finish_pivot, lemma_finish_zero, lemma_reduced_col_axpy,
    lemma_reduced_col_swap, lemma_reduced_row_axpy, lemma_reduced_row_neg, lemma_reduced_row_swap,
    lemma_remainder_zero_iff, lemma_snf_col_axpy, lemma_snf_col_swap, lemma_snf_row_axpy, lemma_snf_row_neg,
    lemma_snf_row_swap,
    reduced_upto, small_in_block, snf_rel,
};

verus! {

broadcast use group_zmatrix;

/// The position `(k, k)` holds `c > 0`, the column below it is zero, and some
/// entry to its right is not a multiple of `c`.
pub open spec fn stale(s: Mat, k: int, c: int) -> bool {
    &&& c > 0
    &&& s.e[k][k] == c
    &&& forall|i: int| k < i < s.rows ==> #[trigger] s.e[i][k] == 0
    &&& exists|j: int| k < j < s.cols && !divides(c, #[trigger] s.e[k][j])
}

/// The entry `pv` at `(pr, pc)` has the least nonzero absolute value of the
/// block from `(k, k)` on, and sits at `(k, k)` unless it is strictly smaller
/// than a nonzero `(k, k)`; `pv == 0` only when the block is zero.
pub open spec fn pivot_spec(s: Mat, k: int, pr: int, pc: int, pv: int) -> bool {
    &&& pv == 0 ==> block_zero(s, k)
    &&& pv != 0 ==> {
        &&& k <= pr < s.rows
        &&& k <= pc < s.cols
        &&& s.e[pr][pc] == pv
        &&& forall|i: int, j: int|
            k <= i < s.rows && k <= j < s.cols && #[trigger] s.e[i][j] != 0 ==> abs(pv) <= abs(s.e[i][j])
        &&& s.e[k][k] != 0 ==> (pr == k && pc == k) || abs(pv) < abs(s.e[k][k])
    }
}

/// The block from `(k, k)` on holds `i64::MIN` and, elsewhere in it, another
/// nonzero entry: comparing the absolute values of the two would need
/// `|i64::MIN|`, which `i64` does not hold.
pub open spec fn pivot_search_fails(s: Mat, k: int) -> bool {
    exists|i1: int, j1: int, i2: int, j2: int|
        k <= i1 < s.rows && k <= j1 < s.cols && k <= i2 < s.rows && k <= j2 < s.cols && (i1 != i2 || j1 != j2)
            && #[trigger] s.e[i1][j1] == i64::MIN && #[trigger] s.e[i2][j2] != 0
}

/// Position `(a, b)` comes before `(i, j)` in a row-by-row scan of the block
/// from `(k, k)` on, in a matrix of `n` columns.
pub open spec fn scanned(k: int, n: int, i: int, j: int, a: int, b: int) -> bool {
    (k <= a < i && k <= b < n) || (a == i && k <= b < j)
}

/// The bound on the entries of `s`, `u` and `v` under which a round never
/// leaves the `i64` range: `2^30`.
pub open spec fn round_entry_bound() -> int {
    0x4000_0000
}

/// Every entry of `m` has absolute value at most `b`.
pub open spec fn entries_within(m: Mat, b: int) -> bool {
    forall|i: int, j: int| 0 <= i < m.rows && 0 <= j < m.cols ==> abs(#[trigger] m.e[i][j]) <= b
}

/// Every entry of `s`, `u` and `v` has absolute value at most `2^30`.
pub open spec fn round_start_small(s: Mat, u: Mat, v: Mat) -> bool {
    &&& entries_within(s, round_entry_bound())
    &&& entries_within(u, round_entry_bound())
    &&& entries_within(v, round_entry_bound())
}

/// A product of two numbers of absolute value at most `2^30` has absolute
/// value at most `2^60`.
proof fn lemma_mul_small(x: int, y: int)
    requires
        abs(x) <= 0x4000_0000,
        abs(y) <= 0x4000_0000,
    ensures
        abs(x * y) <= 0x1000_0000_0000_0000,
        (-x) * y == -(x * y),
{
    assert(abs(x * y) == abs(x) * abs(y)) by (nonlinear_arith);
    assert(abs(x) * abs(y) <= 0x4000_0000 * 0x4000_0000) by (nonlinear_arith)
        requires
            0 <= abs(x) <= 0x4000_0000,
            0 <= abs(y) <= 0x4000_0000,
    ;
    assert((-x) * y == -(x * y)) by (nonlinear_arith);
}

/// A quotient `q` with `|q * d| <= |x|` for `d >= 1` is no larger than `x`
/// in absolute value.
proof fn lemma_quotient_small(q: int, d: int, x: int)
    requires
        d >= 1,
        abs(q * d) <= abs(x),
    ensures
        abs(q) <= abs(x),
{
    assert(abs(q) <= abs(q * d)) by (nonlinear_arith)
        requires
            d >= 1,
    ;
}

/// Exchanging two rows, two columns, or negating a row keeps a bound on the
/// entries.
proof fn lemma_within_moves(m: Mat, i: int, k: int, b: int)
    requires
        m.wf(),
        entries_within(m, b),
        0 <= i < m.rows,
        0 <= k < m.rows,
    ensures
        entries_within(row_swap(m, i, k), b),
        entries_within(row_neg(m, i), b),
{
    assert forall|r: int, c: int| 0 <= r < m.rows && 0 <= c < m.cols implies abs(#[trigger] row_swap(m, i, k).e[r][c]) <= b by {
        assert(abs(m.e[i][c]) <= b && abs(m.e[k][c]) <= b && abs(m.e[r][c]) <= b);
    }
    assert forall|r: int, c: int| 0 <= r < m.rows && 0 <= c < m.cols implies abs(#[trigger] row_neg(m, i).e[r][c]) <= b by {
        assert(abs(m.e[r][c]) <= b);
    }
}

proof fn lemma_within_col_swap(m: Mat, j: int, k: int, b: int)
    requires
        m.wf(),
        entries_within(m, b),
        0 <= j < m.cols,
        0 <= k < m.cols,
    ensures
        entries_within(col_swap(m, j, k), b),
{
    assert forall|r: int, c: int| 0 <= r < m.rows && 0 <= c < m.cols implies abs(#[trigger] col_swap(m, j, k).e[r][c]) <= b by {
        assert(abs(m.e[r][j]) <= b && abs(m.e[r][k]) <= b && abs(m.e[r][c]) <= b);
    }
}

/// Subtracting `q` times row `k` from row `i`, with `|q|` and both rows
/// within `2^30`, fits in `i64` and leaves row `i` within `2^30 + 2^60`.
proof fn lemma_row_step_small(m: Mat, i: int, k: int, q: int)
    requires
        m.wf(),
        0 <= i < m.rows,
        0 <= k < m.rows,
        abs(q) <= 0x4000_0000,
        forall|c: int| 0 <= c < m.cols ==> abs(#[trigger] m.e[i][c]) <= 0x4000_0000,
        forall|c: int| 0 <= c < m.cols ==> abs(#[trigger] m.e[k][c]) <= 0x4000_0000,
    ensures
        row_sub_mul_fits(m, i, k, q),
        forall|c: int| 0 <= c < m.cols ==> abs(#[trigger] row_axpy(m, i, k, -q).e[i][c]) <= 0x1000_0000_4000_0000,
{
    assert forall|c: int| 0 <= c < m.cols implies abs(q * m.e[k][c]) <= 0x1000_0000_0000_0000
        && (-q) * m.e[k][c] == -(q * m.e[k][c]) by {
        lemma_mul_small(q, m.e[k][c]);
    }
    assert forall|c: int| 0 <= c < m.cols implies abs(#[trigger] row_axpy(m, i, k, -q).e[i][c]) <= 0x1000_0000_4000_0000 by {
        assert(abs(q * m.e[k][c]) <= 0x1000_0000_0000_0000 && (-q) * m.e[k][c] == -(q * m.e[k][c]));
    }
}

/// Subtracting `q` times column `k` from column `j`, with `|q|` and column
/// `k` within `2^30` and column `j` within `bj`, fits in `i64` and leaves
/// column `j` within `bj + 2^60`.
proof fn lemma_col_step_small(m: Mat, j: int, k: int, q: int, bj: int)
    requires
        m.wf(),
        0 <= j < m.cols,
        0 <= k < m.cols,
        abs(q) <= 0x4000_0000,
        0 <= bj <= 0x1000_0000_4000_0000,
        forall|r: int| 0 <= r < m.rows ==> abs(#[trigger] m.e[r][k]) <= 0x4000_0000,
        forall|r: int| 0 <= r < m.rows ==> abs(#[trigger] m.e[r][j]) <= bj,
    ensures
        col_sub_mul_fits(m, j, k, q),
        forall|r: int| 0 <= r < m.rows ==> abs(#[trigger] col_axpy(m, j, k, -q).e[r][j]) <= bj + 0x1000_0000_0000_0000,
{
    assert forall|r: int| 0 <= r < m.rows implies abs(q * m.e[r][k]) <= 0x1000_0000_0000_0000
        && (-q) * m.e[r][k] == -(q * m.e[r][k]) by {
        lemma_mul_small(q, m.e[r][k]);
    }
    assert forall|r: int| 0 <= r < m.rows implies abs(#[trigger] col_axpy(m, j, k, -q).e[r][j]) <= bj + 0x1000_0000_0000_0000 by {
        assert(abs(q * m.e[r][k]) <= 0x1000_0000_0000_0000 && (-q) * m.e[r][k] == -(q * m.e[r][k]));
        assert(abs(m.e[r][j]) <= bj);
    }
}

/// Truncating division by a positive divisor, as Rust's `/` and `%` compute it.
pub(crate) fn div_trunc(x: i64, d: i64) -> (res: (i64, i64))
    requires
        d > 0,
    ensures
        res.1 == x - res.0 * d,
        -d < res.1 < d,
        (res.1 == 0) <==> divides(d as int, x as int),
        abs(res.0 * d) <= abs(x as int),
        res.0 == trunc_div(x as int, d as int),
{
    let q = x / d;
    let r = x % d;
    proof {
        let qq: int = if x >= 0 { x as int / d as int } else { -((-x) as int / d as int) };
        let rr: int = if x >= 0 { x as int % d as int } else { -((-x) as int % d as int) };
        assert(q == qq);
        assert(r == rr);
        assert(r == x - q * d) by (nonlinear_arith)
            requires
                d > 0,
                q == qq,
                r == rr,
                qq == (if x >= 0 { x as int / d as int } else { -((-x) as int / d as int) }),
                rr == (if x >= 0 { x as int % d as int } else { -((-x) as int % d as int) }),
        ;
        lemma_remainder_zero_iff(x as int, d as int, q as int);
        assert(abs(q * d) <= abs(x as int)) by (nonlinear_arith)
            requires
                r == x - q * d,
                x >= 0 ==> r >= 0,
                x < 0 ==> r <= 0,
                -d < r < d,
                d > 0,
        ;
    }
    (q, r)
}

/// Finds the nonzero entry of least absolute value in the block from `(k, k)`
/// on, scanning row by row and keeping the first of equals. Returns `false`
/// where an absolute value of `i64::MIN` would be needed.
pub(crate) fn find_pivot(s: &ZMatrix, k: usize) -> (res: (bool, usize, usize, i64))
    requires
        k < s@.rows,
        k < s@.cols,
    ensures
        res.0 == !pivot_search_fails(s@, k as int),
        res.0 ==> pivot_spec(s@, k as int, res.1 as int, res.2 as int, res.3 as int),
        res.0 && res.3 != 0 ==> is_first_pivot(s@, k as int, res.1 as int, res.2 as int),
{
    let m = s.nrows();
    let n = s.ncols();
    let mut pivot_row = k;
    let mut pivot_col = k;
    let mut pivot_val: i64 = 0;
    let ghost sm = s@;
    for i in k..m
        invariant
            sm == s@,
            m == sm.rows,
            n == sm.cols,
            k < m,
            k < n,
            pivot_val == 0 ==> forall|a: int, b: int| k <= a < i && k <= b < n ==> #[trigger] sm.e[a][b] == 0,
            pivot_val != 0 ==> {
                &&& pivot_row < i
                &&& k <= pivot_row < m
                &&& k <= pivot_col < n
                &&& sm.e[pivot_row as int][pivot_col as int] == pivot_val
                &&& forall|a: int, b: int|
                    k <= a < i && k <= b < n && #[trigger] sm.e[a][b] != 0 ==> abs(pivot_val as int) <= abs(sm.e[a][b])
                &&& (i > k && sm.e[k as int][k as int] != 0) ==> (pivot_row == k && pivot_col == k)
                    || abs(pivot_val as int) < abs(sm.e[k as int][k as int])
            },
            forall|a1: int, b1: int, a2: int, b2: int|
                scanned(k as int, n as int, i as int, k as int, a1, b1) && scanned(k as int, n as int, i as int, k as int, a2, b2)
                    && (a1 != a2 || b1 != b2) && #[trigger] sm.e[a1][b1] == i64::MIN ==> #[trigger] sm.e[a2][b2] == 0,
            forall|a: int, b: int|
                scanned(k as int, n as int, i as int, k as int, a, b) && #[trigger] sm.e[a][b] == i64::MIN ==> pivot_val == i64::MIN,
            pivot_val != 0 ==> forall|a: int, b: int|
                scanned(k as int, n as int, i as int, k as int, a, b) && before(a, b, pivot_row as int, pivot_col as int)
                    && #[trigger] sm.e[a][b] != 0 ==> abs(pivot_val as int) < abs(sm.e[a][b]),
    {
        for j in k..n
            invariant
                sm == s@,
                m == sm.rows,
                n == sm.cols,
                k <= i < m,
                k < n,
                pivot_val == 0 ==> forall|a: int, b: int|
                    ((k <= a < i && k <= b < n) || (a == i && k <= b < j)) ==> #[trigger] sm.e[a][b] == 0,
                pivot_val != 0 ==> k <= pivot_row < m && k <= pivot_col < n,
                pivot_val != 0 ==> (pivot_row < i || (pivot_row == i && pivot_col < j)),
                pivot_val != 0 ==> sm.e[pivot_row as int][pivot_col as int] == pivot_val,
                pivot_val != 0 ==> forall|a: int, b: int|
                    ((k <= a < i && k <= b < n) || (a == i && k <= b < j)) && #[trigger] sm.e[a][b] != 0
                        ==> abs(pivot_val as int) <= abs(sm.e[a][b]),
                (pivot_val != 0 && (i > k || j > k) && sm.e[k as int][k as int] != 0) ==> (pivot_row == k && pivot_col == k)
                    || abs(pivot_val as int) < abs(sm.e[k as int][k as int]),
                forall|a1: int, b1: int, a2: int, b2: int|
                    scanned(k as int, n as int, i as int, j as int, a1, b1) && scanned(k as int, n as int, i as int, j as int, a2, b2)
                        && (a1 != a2 || b1 != b2) && #[trigger] sm.e[a1][b1] == i64::MIN ==> #[trigger] sm.e[a2][b2] == 0,
                forall|a: int, b: int|
                    scanned(k as int, n as int, i as int, j as int, a, b) && #[trigger] sm.e[a][b] == i64::MIN ==> pivot_val == i64::MIN,
                pivot_val != 0 ==> forall|a: int, b: int|
                    scanned(k as int, n as int, i as int, j as int, a, b) && before(a, b, pivot_row as int, pivot_col as int)
                        && #[trigger] sm.e[a][b] != 0 ==> abs(pivot_val as int) < abs(sm.e[a][b]),
        {
            let val = s.get(i, j);
            if val != 0 {
                if pivot_val == 0 {
                    pivot_val = val;
                    pivot_row = i;
                    pivot_col = j;
                } else {
                    if val == i64::MIN || pivot_val == i64::MIN {
                        proof {
                            let (pr, pc) = (pivot_row as int, pivot_col as int);
                            if val == i64::MIN {
                                assert(sm.e[i as int][j as int] == i64::MIN && sm.e[pr][pc] != 0);
                            } else {
                                assert(sm.e[pr][pc] == i64::MIN && sm.e[i as int][j as int] != 0);
                            }
                        }
                        return (false, pivot_row, pivot_col, pivot_val);
                    }
                    let av = if val < 0 { -val } else { val };
                    let ap = if pivot_val < 0 { -pivot_val } else { pivot_val };
                    assert(av == abs(val as int) && ap == abs(pivot_val as int));
                    if av < ap {
                        pivot_val = val;
                        pivot_row = i;
                        pivot_col = j;
                    }
                }
            }
        }
    }
    (true, pivot_row, pivot_col, pivot_val)
}

/// How a round at a diagonal position ended.
pub(crate) enum Step {
    /// An intermediate value left the `i64` range.
    Overflow,
    /// The position is reduced.
    Finished,
    /// Another round is needed.
    Again,
}

/// `2 * c + (1 if fresh)`, which every further round strictly lowers.
pub open spec fn round_measure(c: int, fresh: bool) -> int {
    2 * c + if fresh { 1int } else { 0int }
}


/// What holds between rounds at position `k`, for the round measure `(c, fresh)`.
pub open spec fn round_inv(a: Mat, u: Mat, s: Mat, v: Mat, ui: Mat, vi: Mat, k: int, c: int, fresh: bool) -> bool {
    &&& snf_rel(a, u, s, v, ui, vi)
    &&& reduced_upto(s, k)
    &&& 0 <= k < a.rows
    &&& k < a.cols
    &&& c >= 0
    &&& small_in_block(s, k, c)
    &&& !fresh ==> stale(s, k, c)
}

/// One round of the reduction at position `k`: bring the least nonzero entry
/// of the trailing block to `(k, k)`, make it positive, reduce its column and
/// its row by it, and, where everything else in the block is a multiple of it,
/// finish; else bring a non-multiple into row `k`.
#[verifier::spinoff_prover]
#[verifier::rlimit(60)]
pub(crate) fn reduce_step(
    s: &mut ZMatrix,
    u: &mut ZMatrix,
    v: &mut ZMatrix,
    k: usize,
    Ghost(a): Ghost<Mat>,
    Ghost(ui): Ghost<Mat>,
    Ghost(vi): Ghost<Mat>,
    Ghost(cur): Ghost<int>,
    Ghost(fresh): Ghost<bool>,
) -> (res: (Step, Ghost<Mat>, Ghost<Mat>, Ghost<int>, Ghost<bool>))
    requires
        round_inv(a, old(u)@, old(s)@, old(v)@, ui, vi, k as int, cur, fresh),
    ensures
        res.0 is Finished ==> snf_rel(a, final(u)@, final(s)@, final(v)@, res.1@, res.2@) && reduced_upto(final(s)@, k + 1),
        res.0 is Again ==> round_inv(a, final(u)@, final(s)@, final(v)@, res.1@, res.2@, k as int, res.3@, res.4@)
            && 0 <= round_measure(res.3@, res.4@) < round_measure(cur, fresh),
        block_zero(old(s)@, k as int) ==> res.0 is Finished && final(s)@ == old(s)@ && final(u)@ == old(u)@
            && final(v)@ == old(v)@,
        round_start_small(old(s)@, old(u)@, old(v)@) ==> !(res.0 is Overflow),
        res.0 is Overflow ==> round(old(s)@, old(u)@, old(v)@, k as int) is Overflow,
        res.0 is Finished ==> round(old(s)@, old(u)@, old(v)@, k as int) == RoundOutcome::Finished(final(s)@, final(u)@, final(v)@),
        res.0 is Again ==> round(old(s)@, old(u)@, old(v)@, k as int) == RoundOutcome::Again(final(s)@, final(u)@, final(v)@),
{
    let ghost mut gui = ui;
    let ghost mut gvi = vi;
    let ghost s_in = s@;
    let ghost u_in = u@;
    let ghost v_in = v@;
    let ghost small = round_start_small(s@, u@, v@);
    let m = s.nrows();
    let n = s.ncols();
    let (ok, pr, pc, pv) = find_pivot(s, k);
    proof {
        if small && pivot_search_fails(s_in, k as int) {
            let (i1, j1, i2, j2) = choose|i1: int, j1: int, i2: int, j2: int|
                k <= i1 < s_in.rows && k <= j1 < s_in.cols && k <= i2 < s_in.rows && k <= j2 < s_in.cols
                    && (i1 != i2 || j1 != j2) && #[trigger] s_in.e[i1][j1] == i64::MIN && #[trigger] s_in.e[i2][j2] != 0;
            assert(abs(s_in.e[i1][j1]) <= round_entry_bound());
        }
    }
    if !ok {
        return (Step::Overflow, Ghost(gui), Ghost(gvi), Ghost(cur), Ghost(fresh));
    }
    proof {
        if pv != 0 {
            assert(s_in.e[pr as int][pc as int] == pv);
            assert(!block_zero(s_in, k as int));
            lemma_pivot_at(s_in, k as int, pr as int, pc as int);
        }
    }
    if pv == 0 {
        proof {
            lemma_finish_zero(s@, k as int);
        }
        return (Step::Finished, Ghost(gui), Ghost(gvi), Ghost(cur), Ghost(fresh));
    }
    proof {
        // the pivot is no larger than the bound carried between rounds
        if block_zero(s_in, k as int) {
            assert(s_in.e[pr as int][pc as int] == 0);
        } else {
            let (i0, j0) = choose|i: int, j: int|
                k <= i < s_in.rows && k <= j < s_in.cols && #[trigger] s_in.e[i][j] != 0 && abs(s_in.e[i][j]) <= cur;
            assert(abs(pv as int) <= abs(s_in.e[i0][j0]));
        }
    }
    // bring the pivot to (k, k)
    if pr != k {
        let ghost s0 = s@;
        let ghost u0 = u@;
        s.swap_rows(k, pr);
        u.swap_rows(k, pr);
        proof {
            if small {
                lemma_within_moves(s0, k as int, pr as int, round_entry_bound());
                lemma_within_moves(u0, k as int, pr as int, round_entry_bound());
            }
            lemma_snf_row_swap(a, u0, s0, v@, gui, gvi, k as int, pr as int);
            lemma_reduced_row_swap(s0, k as int, k as int, pr as int);
            gui = col_swap(gui, k as int, pr as int);
        }
    }
    assert(s@.e[k as int][pc as int] == pv);
    let ghost s1g = s@;
    let ghost u1g = u@;
    assert(s1g == (if pr != k { row_swap(s_in, k as int, pr as int) } else { s_in }));
    assert(u1g == (if pr != k { row_swap(u_in, k as int, pr as int) } else { u_in }));
    if pc != k {
        let ghost s0 = s@;
        let ghost v0 = v@;
        s.swap_cols(k, pc);
        v.swap_cols(k, pc);
        proof {
            if small {
                lemma_within_col_swap(s0, k as int, pc as int, round_entry_bound());
                lemma_within_col_swap(v0, k as int, pc as int, round_entry_bound());
            }
            lemma_snf_col_swap(a, u@, s0, v0, gui, gvi, k as int, pc as int);
            lemma_reduced_col_swap(s0, k as int, k as int, pc as int);
            gvi = row_swap(gvi, k as int, pc as int);
        }
    }
    assert(s@.e[k as int][k as int] == pv);
    let ghost s2g = s@;
    let ghost v2g = v@;
    assert(s2g == (if pc != k { col_swap(s1g, k as int, pc as int) } else { s1g }));
    assert(v2g == (if pc != k { col_swap(v_in, k as int, pc as int) } else { v_in }));
    assert(round(s_in, u_in, v_in, k as int) == (if s2g.e[k as int][k as int] < 0 {
        if row_neg_fits(s2g, k as int) && row_neg_fits(u1g, k as int) {
            round_tail(row_neg(s2g, k as int), row_neg(u1g, k as int), v2g, k as int)
        } else {
            RoundOutcome::Overflow
        }
    } else {
        round_tail(s2g, u1g, v2g, k as int)
    }));
    // make it positive
    if s.get(k, k) < 0 {
        let ghost s0 = s@;
        let ghost u0 = u@;
        proof {
            if small {
                lemma_within_moves(s0, k as int, k as int, round_entry_bound());
                lemma_within_moves(u0, k as int, k as int, round_entry_bound());
            }
        }
        if !s.row_negate(k) {
            return (Step::Overflow, Ghost(gui), Ghost(gvi), Ghost(cur), Ghost(fresh));
        }
        if !u.row_negate(k) {
            return (Step::Overflow, Ghost(gui), Ghost(gvi), Ghost(cur), Ghost(fresh));
        }
        proof {
            lemma_snf_row_neg(a, u0, s0, v@, gui, gvi, k as int);
            lemma_reduced_row_neg(s0, k as int, k as int);
            gui = col_neg(gui, k as int);
        }
    }
    let d = s.get(k, k);
    assert(d > 0 && d == abs(pv as int) && d <= cur);
    let ghost s3g = s@;
    let ghost u3g = u@;
    assert(round(s_in, u_in, v_in, k as int) == round_tail(s3g, u3g, v2g, k as int));
    assert(v@ == v2g);
    assert(small ==> entries_within(s@, round_entry_bound()) && entries_within(u@, round_entry_bound())
        && entries_within(v@, round_entry_bound()));
    proof {
        // when the last round left a non-multiple in row k, the pivot did not move
        if !fresh && d == cur {
            assert(pr == k && pc == k);
            assert(s@ == s_in);
        }
    }
    let mut all_divide = true;
    let ghost mut wit: int = 0;
    // reduce the column below the pivot
    let ghost row_k = s@.e[k as int];
    for i in (k + 1)..m
        invariant
            snf_rel(a, u@, s@, v@, gui, gvi),
            !block_zero(old(s)@, k as int),
            reduced_upto(s@, k as int),
            m == a.rows,
            n == a.cols,
            k < m,
            k < n,
            s@.e[k as int] == row_k,
            row_k[k as int] == d,
            d > 0,
            forall|r: int| k < r < i ==> abs(#[trigger] s@.e[r][k as int]) < d,
            all_divide ==> forall|r: int| k < r < i ==> #[trigger] s@.e[r][k as int] == 0,
            !all_divide ==> k < wit < i && s@.e[wit][k as int] != 0,
            (!fresh && d == cur) ==> s@ == s_in,
            !fresh ==> stale(s_in, k as int, cur),
            small == round_start_small(old(s)@, old(u)@, old(v)@),
            small ==> d <= 0x4000_0000,
            small ==> forall|b: int| 0 <= b < n ==> abs(#[trigger] row_k[b]) <= 0x4000_0000,
            small ==> entries_within(s@, 0x1000_0000_4000_0000) && entries_within(u@, 0x1000_0000_4000_0000)
                && entries_within(v@, 0x4000_0000),
            small ==> forall|r: int, c: int| 0 <= r < m && 0 <= c < n && (r == k || r >= i) ==> abs(#[trigger] s@.e[r][c]) <= 0x4000_0000,
            small ==> forall|r: int, c: int| 0 <= r < m && 0 <= c < m && (r == k || r >= i) ==> abs(#[trigger] u@.e[r][c]) <= 0x4000_0000,
            round(old(s)@, old(u)@, old(v)@, k as int) == round_tail(s3g, u3g, v2g, k as int),
            s3g.e[k as int][k as int] == d,
            s3g.rows == m,
            v@ == v2g,
            col_phase(s3g, u3g, k as int, d as int, k + 1, m as int) == col_phase(s@, u@, k as int, d as int, i as int, m as int),
    {
        let x = s.get(i, k);
        if x != 0 {
            let (q, r) = div_trunc(x, d);
            let ghost s0 = s@;
            let ghost u0 = u@;
            assert(col_phase(s0, u0, k as int, d as int, i as int, m as int) == (if row_sub_mul_fits(s0, i as int, k as int, q as int)
                && row_sub_mul_fits(u0, i as int, k as int, q as int) {
                col_phase(row_axpy(s0, i as int, k as int, -q), row_axpy(u0, i as int, k as int, -q), k as int, d as int, i + 1, m as int)
            } else {
                None
            }));
            proof {
                if small {
                    assert(abs(x as int) <= 0x4000_0000);
                    lemma_quotient_small(q as int, d as int, x as int);
                    lemma_row_step_small(s0, i as int, k as int, q as int);
                    lemma_row_step_small(u0, i as int, k as int, q as int);
                }
            }
            if !s.row_sub_mul(i, k, q) {
                return (Step::Overflow, Ghost(gui), Ghost(gvi), Ghost(cur), Ghost(fresh));
            }
            if !u.row_sub_mul(i, k, q) {
                return (Step::Overflow, Ghost(gui), Ghost(gvi), Ghost(cur), Ghost(fresh));
            }
            proof {
                lemma_snf_row_axpy(a, u0, s0, v@, gui, gvi, i as int, k as int, -q);
                lemma_reduced_row_axpy(s0, k as int, i as int, k as int, -q);
                gui = col_axpy(gui, k as int, i as int, -(-q));
                assert(-(-q) == q);
                assert((-q) * d == -(q * d)) by (nonlinear_arith);
                assert(s@.e[i as int][k as int] == r);
                assert(s@.e[k as int] =~= s0.e[k as int]);
                assert forall|rr: int| k < rr < i implies #[trigger] s@.e[rr][k as int] == s0.e[rr][k as int] by {}
                if (!fresh && d == cur) {
                    assert(s0.e[i as int][k as int] == 0);
                }
                if small {
                    assert forall|r: int, c: int| 0 <= r < m && 0 <= c < n implies abs(#[trigger] s@.e[r][c]) <= 0x1000_0000_4000_0000
                        && ((r == k || r >= i + 1) ==> abs(s@.e[r][c]) <= 0x4000_0000) by {
                        if r != i {
                            assert(s@.e[r][c] == s0.e[r][c]);
                        }
                    }
                    assert forall|r: int, c: int| 0 <= r < m && 0 <= c < m implies abs(#[trigger] u@.e[r][c]) <= 0x1000_0000_4000_0000
                        && ((r == k || r >= i + 1) ==> abs(u@.e[r][c]) <= 0x4000_0000) by {
                        if r != i {
                            assert(u@.e[r][c] == u0.e[r][c]);
                        }
                    }
                }
            }
            if s.get(i, k) != 0 {
                all_divide = false;
                proof {
                    wit = i as int;
                }
            }
        }
    }
    // reduce the row right of the pivot
    let ghost col_k = s@.column(k as int);
    let ghost mut wit_in_col = true;
    proof {
        if small {
            assert forall|r: int| 0 <= r < m implies abs(#[trigger] s@.e[r][k as int]) <= 0x4000_0000 by {
                if r < k {
                    assert(s@.e[r][k as int] == 0);
                } else if r == k {
                    assert(s@.e[r][k as int] == d);
                }
            }
        }
    }
    let ghost s4g = s@;
    let ghost u4g = u@;
    assert(col_phase(s@, u@, k as int, d as int, m as int, m as int) == Some((s@, u@)));
    assert(round(old(s)@, old(u)@, old(v)@, k as int) == finish_round(s4g, u4g, v2g, k as int, d as int));
    for j in (k + 1)..n
        invariant
            snf_rel(a, u@, s@, v@, gui, gvi),
            !block_zero(old(s)@, k as int),
            reduced_upto(s@, k as int),
            m == a.rows,
            n == a.cols,
            k < m,
            k < n,
            s@.e[k as int][k as int] == d,
            d > 0,
            forall|r: int| k < r < m ==> #[trigger] s@.e[r][k as int] == col_k[r],
            forall|r: int| k < r < m ==> abs(#[trigger] col_k[r]) < d,
            forall|b: int| j <= b < n ==> #[trigger] s@.e[k as int][b] == row_k[b],
            forall|b: int| k < b < j ==> abs(#[trigger] s@.e[k as int][b]) < d,
            all_divide ==> forall|r: int| k < r < m ==> #[trigger] col_k[r] == 0,
            all_divide ==> forall|b: int| k < b < j ==> #[trigger] s@.e[k as int][b] == 0,
            all_divide ==> forall|b: int| k < b < j ==> divides(d as int, #[trigger] row_k[b]),
            !all_divide ==> (wit_in_col && k < wit < m && col_k[wit] != 0)
                || (!wit_in_col && k < wit < j && s@.e[k as int][wit] != 0),
            small == round_start_small(old(s)@, old(u)@, old(v)@),
            small ==> forall|b: int| 0 <= b < n ==> abs(#[trigger] row_k[b]) <= 0x4000_0000,
            small ==> entries_within(s@, 0x2000_0000_4000_0000) && entries_within(u@, 0x1000_0000_4000_0000)
                && entries_within(v@, 0x1000_0000_4000_0000),
            small ==> forall|r: int, c: int| 0 <= r < m && 0 <= c < n && c >= j ==> abs(#[trigger] s@.e[r][c]) <= 0x1000_0000_4000_0000,
            small ==> forall|r: int| 0 <= r < m ==> abs(#[trigger] s@.e[r][k as int]) <= 0x4000_0000,
            small ==> forall|r: int, c: int| 0 <= r < n && 0 <= c < n && (c == k || c >= j) ==> abs(#[trigger] v@.e[r][c]) <= 0x4000_0000,
            round(old(s)@, old(u)@, old(v)@, k as int) == finish_round(s4g, u4g, v2g, k as int, d as int),
            s4g.cols == n,
            u@ == u4g,
            row_phase(s4g, v2g, k as int, d as int, k + 1, n as int) == row_phase(s@, v@, k as int, d as int, j as int, n as int),
    {
        let x = s.get(k, j);
        if x != 0 {
            let (q, r) = div_trunc(x, d);
            let ghost s0 = s@;
            let ghost v0 = v@;
            assert(row_phase(s0, v0, k as int, d as int, j as int, n as int) == (if col_sub_mul_fits(s0, j as int, k as int, q as int)
                && col_sub_mul_fits(v0, j as int, k as int, q as int) {
                row_phase(col_axpy(s0, j as int, k as int, -q), col_axpy(v0, j as int, k as int, -q), k as int, d as int, j + 1, n as int)
            } else {
                None
            }));
            proof {
                if small {
                    assert(abs(x as int) <= 0x4000_0000);
                    lemma_quotient_small(q as int, d as int, x as int);
                    lemma_col_step_small(s0, j as int, k as int, q as int, 0x1000_0000_4000_0000);
                    lemma_col_step_small(v0, j as int, k as int, q as int, 0x4000_0000);
                }
            }
            if !s.col_sub_mul(j, k, q) {
                return (Step::Overflow, Ghost(gui), Ghost(gvi), Ghost(cur), Ghost(fresh));
            }
            if !v.col_sub_mul(j, k, q) {
                return (Step::Overflow, Ghost(gui), Ghost(gvi), Ghost(cur), Ghost(fresh));
            }
            proof {
                lemma_snf_col_axpy(a, u@, s0, v0, gui, gvi, j as int, k as int, -q);
                lemma_reduced_col_axpy(s0, k as int, j as int, k as int, -q);
                gvi = row_axpy(gvi, k as int, j as int, -(-q));
                assert(-(-q) == q);
                assert((-q) * d == -(q * d)) by (nonlinear_arith);
                assert(s@.e[k as int][j as int] == r);
                if small {
                    assert forall|rr: int, c: int| 0 <= rr < m && 0 <= c < n implies abs(#[trigger] s@.e[rr][c]) <= 0x2000_0000_4000_0000
                        && (c >= j + 1 ==> abs(s@.e[rr][c]) <= 0x1000_0000_4000_0000)
                        && (c == k ==> abs(s@.e[rr][c]) <= 0x4000_0000) by {
                        if c != j {
                            assert(s@.e[rr][c] == s0.e[rr][c]);
                        }
                    }
                    assert forall|rr: int, c: int| 0 <= rr < n && 0 <= c < n implies abs(#[trigger] v@.e[rr][c]) <= 0x1000_0000_4000_0000
                        && ((c == k || c >= j + 1) ==> abs(v@.e[rr][c]) <= 0x4000_0000) by {
                        if c != j {
                            assert(v@.e[rr][c] == v0.e[rr][c]);
                        }
                    }
                }
            }
            if s.get(k, j) != 0 {
                all_divide = false;
                proof {
                    wit = j as int;
                    wit_in_col = false;
                }
            }
        } else {
            proof {
                lemma_divides_zero(d as int);
            }
        }
    }
    let ghost s5g = s@;
    let ghost v5g = v@;
    assert(row_phase(s@, v@, k as int, d as int, n as int, n as int) == Some((s@, v@)));
    assert(round(old(s)@, old(u)@, old(v)@, k as int) == close_round(s5g, u4g, v5g, k as int, d as int));
    if !all_divide {
        proof {
            if wit_in_col {
                assert(s@.e[wit][k as int] == col_k[wit]);
                assert(!cleared(s5g, k as int));
            } else {
                assert(!cleared(s5g, k as int));
            }
            if wit_in_col {
                assert(s@.e[wit][k as int] != 0 && abs(s@.e[wit][k as int]) <= d - 1);
            } else {
                assert(s@.e[k as int][wit] != 0 && abs(s@.e[k as int][wit]) <= d - 1);
            }
        }
        return (Step::Again, Ghost(gui), Ghost(gvi), Ghost(d - 1), Ghost(true));
    }
    proof {
        if !fresh && d == cur {
            let jj = choose|j: int| k < j < s_in.cols && !divides(cur, #[trigger] s_in.e[k as int][j]);
            assert(divides(d as int, row_k[jj]));
        }
    }
    // look for an entry of the trailing block that the pivot does not divide
    let ghost s_done = s@;
    assert(cleared(s_done, k as int));
    for i in (k + 1)..m
        invariant
            s@ == s_done,
            s_done == s5g,
            cleared(s5g, k as int),
            u@ == u4g,
            v@ == v5g,
            round(old(s)@, old(u)@, old(v)@, k as int) == close_round(s5g, u4g, v5g, k as int, d as int),
            snf_rel(a, u@, s@, v@, gui, gvi),
            !block_zero(old(s)@, k as int),
            reduced_upto(s@, k as int),
            m == a.rows,
            n == a.cols,
            k < m,
            k < n,
            s@.e[k as int][k as int] == d,
            d > 0,
            d <= cur,
            !fresh ==> d < cur,
            forall|r: int| k < r < m ==> #[trigger] s@.e[r][k as int] == 0,
            forall|b: int| k < b < n ==> #[trigger] s@.e[k as int][b] == 0,
            forall|r: int, c: int| k < r < i && k < c < n ==> divides(d as int, #[trigger] s@.e[r][c]),
            small == round_start_small(old(s)@, old(u)@, old(v)@),
            small ==> entries_within(s@, 0x2000_0000_4000_0000) && entries_within(u@, 0x1000_0000_4000_0000),
    {
        for j in (k + 1)..n
            invariant
                s@ == s_done,
                s_done == s5g,
                cleared(s5g, k as int),
                u@ == u4g,
                v@ == v5g,
                round(old(s)@, old(u)@, old(v)@, k as int) == close_round(s5g, u4g, v5g, k as int, d as int),
                snf_rel(a, u@, s@, v@, gui, gvi),
                !block_zero(old(s)@, k as int),
                reduced_upto(s@, k as int),
                m == a.rows,
                n == a.cols,
                k < i < m,
                k < n,
                s@.e[k as int][k as int] == d,
                d > 0,
                d <= cur,
                !fresh ==> d < cur,
                forall|r: int| k < r < m ==> #[trigger] s@.e[r][k as int] == 0,
                forall|b: int| k < b < n ==> #[trigger] s@.e[k as int][b] == 0,
                forall|r: int, c: int| ((k < r < i && k < c < n) || (r == i && k < c < j)) ==> divides(d as int, #[trigger] s@.e[r][c]),
                small == round_start_small(old(s)@, old(u)@, old(v)@),
                small ==> entries_within(s@, 0x2000_0000_4000_0000) && entries_within(u@, 0x1000_0000_4000_0000),
        {
            let x = s.get(i, j);
            if x != 0 {
                let (_q, r) = div_trunc(x, d);
                if r != 0 {
                    let ghost s0 = s@;
                    let ghost u0 = u@;
                    proof {
                        assert(!divides(d as int, s5g.e[i as int][j as int]));
                        assert(bad_row(s5g, k as int, d as int, i as int));
                        assert forall|rr: int| k < rr < i implies !#[trigger] bad_row(s5g, k as int, d as int, rr) by {
                            if bad_row(s5g, k as int, d as int, rr) {
                                let jj = choose|jj: int| k < jj < s5g.cols && !divides(d as int, #[trigger] s5g.e[rr][jj]);
                                assert(divides(d as int, s5g.e[rr][jj]));
                            }
                        }
                        assert(first_bad_row(s5g, k as int, d as int, i as int));
                        let ch = choose|ii: int| first_bad_row(s5g, k as int, d as int, ii);
                        lemma_first_bad_row_unique(s5g, k as int, d as int, ch, i as int);
                    }
                    proof {
                        if small {
                            assert forall|c: int| 0 <= c < n implies abs(#[trigger] s0.e[k as int][c]) <= 0x2000_0000_4000_0000
                                && abs(s0.e[i as int][c]) <= 0x2000_0000_4000_0000 by {}
                            assert forall|c: int| 0 <= c < m implies abs(#[trigger] u0.e[k as int][c]) <= 0x1000_0000_4000_0000
                                && abs(u0.e[i as int][c]) <= 0x1000_0000_4000_0000 by {}
                        }
                    }
                    if !s.row_add(k, i) {
                        return (Step::Overflow, Ghost(gui), Ghost(gvi), Ghost(cur), Ghost(fresh));
                    }
                    if !u.row_add(k, i) {
                        return (Step::Overflow, Ghost(gui), Ghost(gvi), Ghost(cur), Ghost(fresh));
                    }
                    proof {
                        lemma_snf_row_axpy(a, u0, s0, v@, gui, gvi, k as int, i as int, 1);
                        lemma_reduced_row_axpy(s0, k as int, k as int, i as int, 1);
                        gui = col_axpy(gui, i as int, k as int, -1);
                        assert(s@.e[k as int][k as int] == d);
                        assert(s@.e[k as int][j as int] == x);
                        assert forall|rr: int| k < rr < m implies #[trigger] s@.e[rr][k as int] == 0 by {
                            assert(s0.e[rr][k as int] == 0);
                        }
                        assert(!divides(d as int, s@.e[k as int][j as int]));
                    }
                    return (Step::Again, Ghost(gui), Ghost(gvi), Ghost(d as int), Ghost(false));
                }
            } else {
                proof {
                    lemma_divides_zero(d as int);
                }
            }
        }
    }
    proof {
        lemma_finish_pivot(s@, k as int);
        assert forall|ii: int| !#[trigger] first_bad_row(s5g, k as int, d as int, ii) by {
            if first_bad_row(s5g, k as int, d as int, ii) {
                let jj = choose|jj: int| k < jj < s5g.cols && !divides(d as int, #[trigger] s5g.e[ii][jj]);
                assert(divides(d as int, s5g.e[ii][jj]));
            }
        }
    }
    (Step::Finished, Ghost(gui), Ghost(gvi), Ghost(cur), Ghost(fresh))
}

} // verus!
