//! The Smith reduction as a mathematical function: what each round does to
//! `(s, u, v)`, over unbounded integers, and when some step of it would leave
//! the range of `i64`. The executable reduction follows it step for step.

use vstd::prelude::*;
use crate::matrix::{
    Mat, abs, col_axpy, col_sub_mul_fits, col_swap, identity_mat, row_add_fits, row_axpy, row_neg, row_neg_fits,
    row_sub_mul_fits, row_swap,
};
use crate::reduction::pivot_search_fails;
use crate::smith::{block_zero, divides};

verus! {

/// Division truncated toward zero, as Rust's `/` computes it, for `d > 0`.
pub open spec fn trunc_div(x: int, d: int) -> int {
    if x >= 0 { x / d } else { -((-x) / d) }
}

/// Position `(a, b)` comes before `(i, j)` row by row.
pub open spec fn before(a: int, b: int, i: int, j: int) -> bool {
    a < i || (a == i && b < j)
}

/// `(pr, pc)` holds the first, row by row, of the nonzero entries of least
/// absolute value in the block from `(k, k)` on.
pub open spec fn is_first_pivot(s: Mat, k: int, pr: int, pc: int) -> bool {
    &&& k <= pr < s.rows
    &&& k <= pc < s.cols
    &&& s.e[pr][pc] != 0
    &&& forall|a: int, b: int|
        k <= a < s.rows && k <= b < s.cols && #[trigger] s.e[a][b] != 0 ==> abs(s.e[pr][pc]) <= abs(s.e[a][b])
    &&& forall|a: int, b: int|
        k <= a < s.rows && k <= b < s.cols && before(a, b, pr, pc) && #[trigger] s.e[a][b] != 0 ==> abs(s.e[pr][pc]) < abs(
            s.e[a][b],
        )
}

/// The position of the pivot of a nonzero block.
pub open spec fn pivot_at(s: Mat, k: int) -> (int, int) {
    choose|pr: int, pc: int| is_first_pivot(s, k, pr, pc)
}

pub proof fn lemma_first_pivot_unique(s: Mat, k: int, p1: int, c1: int, p2: int, c2: int)
    requires
        is_first_pivot(s, k, p1, c1),
        is_first_pivot(s, k, p2, c2),
    ensures
        p1 == p2 && c1 == c2,
{
    assert(abs(s.e[p1][c1]) <= abs(s.e[p2][c2]));
    assert(abs(s.e[p2][c2]) <= abs(s.e[p1][c1]));
    if before(p1, c1, p2, c2) {
        assert(abs(s.e[p2][c2]) < abs(s.e[p1][c1]));
    } else if before(p2, c2, p1, c1) {
        assert(abs(s.e[p1][c1]) < abs(s.e[p2][c2]));
    }
}

pub proof fn lemma_pivot_at(s: Mat, k: int, pr: int, pc: int)
    requires
        is_first_pivot(s, k, pr, pc),
    ensures
        pivot_at(s, k) == (pr, pc),
{
    let (a, b) = pivot_at(s, k);
    lemma_first_pivot_unique(s, k, a, b, pr, pc);
}

/// Reducing rows `i..m` of column `k` by the pivot `d`: each nonzero entry
/// `x` below it takes `trunc_div(x, d)` times row `k` off its row, in `s` and
/// in `u`; `None` where one of those steps leaves `i64`.
pub open spec fn col_phase(s: Mat, u: Mat, k: int, d: int, i: int, m: int) -> Option<(Mat, Mat)>
    decreases m - i,
{
    if i >= m {
        Some((s, u))
    } else if s.e[i][k] == 0 {
        col_phase(s, u, k, d, i + 1, m)
    } else {
        let q = trunc_div(s.e[i][k], d);
        if row_sub_mul_fits(s, i, k, q) && row_sub_mul_fits(u, i, k, q) {
            col_phase(row_axpy(s, i, k, -q), row_axpy(u, i, k, -q), k, d, i + 1, m)
        } else {
            None
        }
    }
}

/// Reducing columns `j..n` of row `k` by the pivot `d`: each nonzero entry
/// `x` right of it takes `trunc_div(x, d)` times column `k` off its column,
/// in `s` and in `v`; `None` where one of those steps leaves `i64`.
pub open spec fn row_phase(s: Mat, v: Mat, k: int, d: int, j: int, n: int) -> Option<(Mat, Mat)>
    decreases n - j,
{
    if j >= n {
        Some((s, v))
    } else if s.e[k][j] == 0 {
        row_phase(s, v, k, d, j + 1, n)
    } else {
        let q = trunc_div(s.e[k][j], d);
        if col_sub_mul_fits(s, j, k, q) && col_sub_mul_fits(v, j, k, q) {
            row_phase(col_axpy(s, j, k, -q), col_axpy(v, j, k, -q), k, d, j + 1, n)
        } else {
            None
        }
    }
}

/// Column `k` below `(k, k)` and row `k` right of it are zero.
pub open spec fn cleared(s: Mat, k: int) -> bool {
    &&& forall|i: int| k < i < s.rows ==> #[trigger] s.e[i][k] == 0
    &&& forall|j: int| k < j < s.cols ==> #[trigger] s.e[k][j] == 0
}

/// Row `i`, past `k`, holds an entry right of column `k` that `d` does not divide.
pub open spec fn bad_row(s: Mat, k: int, d: int, i: int) -> bool {
    &&& k < i < s.rows
    &&& exists|j: int| k < j < s.cols && !divides(d, #[trigger] s.e[i][j])
}

/// `i` is the first such row.
pub open spec fn first_bad_row(s: Mat, k: int, d: int, i: int) -> bool {
    &&& bad_row(s, k, d, i)
    &&& forall|r: int| k < r < i ==> !#[trigger] bad_row(s, k, d, r)
}

pub proof fn lemma_first_bad_row_unique(s: Mat, k: int, d: int, i1: int, i2: int)
    requires
        first_bad_row(s, k, d, i1),
        first_bad_row(s, k, d, i2),
    ensures
        i1 == i2,
{
    if i1 < i2 {
        assert(!bad_row(s, k, d, i1));
    } else if i2 < i1 {
        assert(!bad_row(s, k, d, i2));
    }
}

/// How a round ends, with the matrices it leaves.
pub enum RoundOutcome {
    Overflow,
    Finished(Mat, Mat, Mat),
    Again(Mat, Mat, Mat),
}

/// One round at position `k` on `(s, u, v)`: stop where an absolute value of
/// `i64::MIN` is needed, or where the block is zero; else bring the pivot to
/// `(k, k)`, make it positive, and go on with `round_tail`.
pub open spec fn round(s: Mat, u: Mat, v: Mat, k: int) -> RoundOutcome {
    if pivot_search_fails(s, k) {
        RoundOutcome::Overflow
    } else if block_zero(s, k) {
        RoundOutcome::Finished(s, u, v)
    } else {
        let (pr, pc) = pivot_at(s, k);
        let s1 = if pr != k { row_swap(s, k, pr) } else { s };
        let u1 = if pr != k { row_swap(u, k, pr) } else { u };
        let s2 = if pc != k { col_swap(s1, k, pc) } else { s1 };
        let v2 = if pc != k { col_swap(v, k, pc) } else { v };
        if s2.e[k][k] < 0 {
            if row_neg_fits(s2, k) && row_neg_fits(u1, k) {
                round_tail(row_neg(s2, k), row_neg(u1, k), v2, k)
            } else {
                RoundOutcome::Overflow
            }
        } else {
            round_tail(s2, u1, v2, k)
        }
    }
}

/// The rest of a round once `(k, k)` holds the positive pivot: reduce its
/// column, then its row.
pub open spec fn round_tail(s: Mat, u: Mat, v: Mat, k: int) -> RoundOutcome {
    let d = s.e[k][k];
    match col_phase(s, u, k, d, k + 1, s.rows as int) {
        None => RoundOutcome::Overflow,
        Some((s4, u4)) => finish_round(s4, u4, v, k, d),
    }
}

/// The rest of a round once the column of the pivot is reduced: reduce its
/// row, then close the round.
pub open spec fn finish_round(s: Mat, u: Mat, v: Mat, k: int, d: int) -> RoundOutcome {
    match row_phase(s, v, k, d, k + 1, s.cols as int) {
        None => RoundOutcome::Overflow,
        Some((s5, v5)) => close_round(s5, u, v5, k, d),
    }
}

/// The end of a round: another round where a remainder was left in the row
/// or column of the pivot; else add the first row holding a non-multiple of
/// the pivot to row `k` and go again; else the position is finished.
pub open spec fn close_round(s: Mat, u: Mat, v: Mat, k: int, d: int) -> RoundOutcome {
    if !cleared(s, k) {
        RoundOutcome::Again(s, u, v)
    } else if exists|i: int| first_bad_row(s, k, d, i) {
        let i = choose|i: int| first_bad_row(s, k, d, i);
        if row_add_fits(s, k, i) && row_add_fits(u, k, i) {
            RoundOutcome::Again(row_axpy(s, k, i, 1), row_axpy(u, k, i, 1), v)
        } else {
            RoundOutcome::Overflow
        }
    } else {
        RoundOutcome::Finished(s, u, v)
    }
}

/// How the rounds at one position end within `fuel` rounds.
pub enum PositionOutcome {
    Overflow,
    Done(Mat, Mat, Mat),
    Stuck,
}

/// Rounds at position `k`, at most `fuel` of them.
pub open spec fn run_position(s: Mat, u: Mat, v: Mat, k: int, fuel: nat) -> PositionOutcome
    decreases fuel,
{
    if fuel == 0 {
        PositionOutcome::Stuck
    } else {
        match round(s, u, v, k) {
            RoundOutcome::Overflow => PositionOutcome::Overflow,
            RoundOutcome::Finished(a, b, c) => PositionOutcome::Done(a, b, c),
            RoundOutcome::Again(a, b, c) => run_position(a, b, c, k, (fuel - 1) as nat),
        }
    }
}

/// The rounds at position `k` finish without leaving `i64`.
pub open spec fn position_ok(s: Mat, u: Mat, v: Mat, k: int) -> bool {
    exists|f: nat| #[trigger] run_position(s, u, v, k, f) is Done
}

/// What the rounds at position `k` finish with.
pub open spec fn position_result(s: Mat, u: Mat, v: Mat, k: int) -> (Mat, Mat, Mat) {
    let f = choose|f: nat| #[trigger] run_position(s, u, v, k, f) is Done;
    match run_position(s, u, v, k, f) {
        PositionOutcome::Done(a, b, c) => (a, b, c),
        _ => (s, u, v),
    }
}

/// Positions `k..end` reduced in turn.
pub open spec fn run_positions(s: Mat, u: Mat, v: Mat, k: int, end: int) -> Option<(Mat, Mat, Mat)>
    decreases end - k,
{
    if k >= end {
        Some((s, u, v))
    } else if position_ok(s, u, v, k) {
        let (a, b, c) = position_result(s, u, v, k);
        run_positions(a, b, c, k + 1, end)
    } else {
        None
    }
}

/// Diagonal entries `k..end` made non-negative by negating their rows of `s`
/// and `u`; `None` where a negated row holds `i64::MIN`.
pub open spec fn normalize(s: Mat, u: Mat, k: int, end: int) -> Option<(Mat, Mat)>
    decreases end - k,
{
    if k >= end {
        Some((s, u))
    } else if s.e[k][k] < 0 {
        if row_neg_fits(s, k) && row_neg_fits(u, k) {
            normalize(row_neg(s, k), row_neg(u, k), k + 1, end)
        } else {
            None
        }
    } else {
        normalize(s, u, k + 1, end)
    }
}

/// The number of diagonal positions of a matrix.
pub open spec fn snf_min_dim(a: Mat) -> int {
    if a.rows <= a.cols { a.rows as int } else { a.cols as int }
}

/// The Smith reduction of `a` as `(u, s, v)`, or `None` where one of its
/// steps leaves the range of `i64`.
pub open spec fn snf_run(a: Mat) -> Option<(Mat, Mat, Mat)> {
    match run_positions(a, identity_mat(a.rows), identity_mat(a.cols), 0, snf_min_dim(a)) {
        None => None,
        Some((s, u, v)) => match normalize(s, u, 0, snf_min_dim(a)) {
            None => None,
            Some((s2, u2)) => Some((u2, s2, v)),
        },
    }
}

/// The Smith reduction of `a` stays within `i64`.
pub open spec fn snf_fits(a: Mat) -> bool {
    snf_run(a) is Some
}

/// The diagonal matrix that the reduction of `a` gives (meaningful where
/// `snf_fits(a)`).
pub open spec fn snf_diag(a: Mat) -> Mat {
    match snf_run(a) {
        Some((u, s, v)) => s,
        None => a,
    }
}

pub proof fn lemma_run_position_unique(s: Mat, u: Mat, v: Mat, k: int, f1: nat, f2: nat)
    requires
        run_position(s, u, v, k, f1) is Done,
        run_position(s, u, v, k, f2) is Done,
    ensures
        run_position(s, u, v, k, f1) == run_position(s, u, v, k, f2),
    decreases f1,
{
    match round(s, u, v, k) {
        RoundOutcome::Again(a, b, c) => {
            lemma_run_position_unique(a, b, c, k, (f1 - 1) as nat, (f2 - 1) as nat);
        },
        _ => {},
    }
}

/// A round that goes again changes neither whether the position finishes
/// nor what it finishes with.
pub proof fn lemma_position_again(s: Mat, u: Mat, v: Mat, k: int, a: Mat, b: Mat, c: Mat)
    requires
        round(s, u, v, k) == RoundOutcome::Again(a, b, c),
    ensures
        position_ok(a, b, c, k) == position_ok(s, u, v, k),
        position_ok(s, u, v, k) ==> position_result(a, b, c, k) == position_result(s, u, v, k),
{
    if position_ok(s, u, v, k) {
        let f = choose|f: nat| #[trigger] run_position(s, u, v, k, f) is Done;
        assert(f > 0);
        assert(run_position(s, u, v, k, f) == run_position(a, b, c, k, (f - 1) as nat));
        assert(run_position(a, b, c, k, (f - 1) as nat) is Done);
        let g = choose|g: nat| #[trigger] run_position(a, b, c, k, g) is Done;
        lemma_run_position_unique(a, b, c, k, g, (f - 1) as nat);
    }
    if position_ok(a, b, c, k) {
        let g = choose|g: nat| #[trigger] run_position(a, b, c, k, g) is Done;
        assert(run_position(s, u, v, k, g + 1) == run_position(a, b, c, k, g));
        assert(run_position(s, u, v, k, g + 1) is Done);
    }
}

/// A round that finishes gives what the position finishes with.
pub proof fn lemma_position_finished(s: Mat, u: Mat, v: Mat, k: int, a: Mat, b: Mat, c: Mat)
    requires
        round(s, u, v, k) == RoundOutcome::Finished(a, b, c),
    ensures
        position_ok(s, u, v, k),
        position_result(s, u, v, k) == (a, b, c),
{
    assert(run_position(s, u, v, k, 1) is Done);
    let f = choose|f: nat| #[trigger] run_position(s, u, v, k, f) is Done;
    lemma_run_position_unique(s, u, v, k, f, 1);
}

/// A round that leaves `i64` stops the position for good.
pub proof fn lemma_position_overflow(s: Mat, u: Mat, v: Mat, k: int)
    requires
        round(s, u, v, k) is Overflow,
    ensures
        !position_ok(s, u, v, k),
{
    assert forall|f: nat| !(#[trigger] run_position(s, u, v, k, f) is Done) by {}
}

/// `b` has the shape of `a`.
pub open spec fn same_shape(a: Mat, b: Mat) -> bool {
    a.rows == b.rows && a.cols == b.cols
}

proof fn lemma_col_phase_shape(s: Mat, u: Mat, k: int, d: int, i: int, m: int)
    ensures
        col_phase(s, u, k, d, i, m) matches Some((s4, u4)) ==> same_shape(s, s4),
    decreases m - i,
{
    if i < m && s.e[i][k] == 0 {
        lemma_col_phase_shape(s, u, k, d, i + 1, m);
    } else if i < m {
        let q = trunc_div(s.e[i][k], d);
        lemma_col_phase_shape(row_axpy(s, i, k, -q), row_axpy(u, i, k, -q), k, d, i + 1, m);
    }
}

proof fn lemma_row_phase_shape(s: Mat, v: Mat, k: int, d: int, j: int, n: int)
    ensures
        row_phase(s, v, k, d, j, n) matches Some((s5, v5)) ==> same_shape(s, s5),
    decreases n - j,
{
    if j < n && s.e[k][j] == 0 {
        lemma_row_phase_shape(s, v, k, d, j + 1, n);
    } else if j < n {
        let q = trunc_div(s.e[k][j], d);
        lemma_row_phase_shape(col_axpy(s, j, k, -q), col_axpy(v, j, k, -q), k, d, j + 1, n);
    }
}

proof fn lemma_round_shape(s: Mat, u: Mat, v: Mat, k: int)
    ensures
        round(s, u, v, k) matches RoundOutcome::Finished(a, b, c) ==> same_shape(s, a),
        round(s, u, v, k) matches RoundOutcome::Again(a, b, c) ==> same_shape(s, a),
{
    if !pivot_search_fails(s, k) && !block_zero(s, k) {
        let (pr, pc) = pivot_at(s, k);
        let s1 = if pr != k { row_swap(s, k, pr) } else { s };
        let u1 = if pr != k { row_swap(u, k, pr) } else { u };
        let s2 = if pc != k { col_swap(s1, k, pc) } else { s1 };
        let v2 = if pc != k { col_swap(v, k, pc) } else { v };
        let s3 = if s2.e[k][k] < 0 { row_neg(s2, k) } else { s2 };
        let u3 = if s2.e[k][k] < 0 { row_neg(u1, k) } else { u1 };
        let d = s3.e[k][k];
        lemma_col_phase_shape(s3, u3, k, d, k + 1, s3.rows as int);
        if let Some((s4, u4)) = col_phase(s3, u3, k, d, k + 1, s3.rows as int) {
            lemma_row_phase_shape(s4, v2, k, d, k + 1, s4.cols as int);
        }
    }
}

proof fn lemma_run_position_shape(s: Mat, u: Mat, v: Mat, k: int, f: nat)
    ensures
        run_position(s, u, v, k, f) matches PositionOutcome::Done(a, b, c) ==> same_shape(s, a),
    decreases f,
{
    lemma_round_shape(s, u, v, k);
    if f > 0 {
        if let RoundOutcome::Again(a, b, c) = round(s, u, v, k) {
            lemma_run_position_shape(a, b, c, k, (f - 1) as nat);
        }
    }
}

proof fn lemma_run_positions_shape(s: Mat, u: Mat, v: Mat, k: int, end: int)
    ensures
        run_positions(s, u, v, k, end) matches Some((a, b, c)) ==> same_shape(s, a),
    decreases end - k,
{
    if k < end && position_ok(s, u, v, k) {
        let f = choose|f: nat| #[trigger] run_position(s, u, v, k, f) is Done;
        lemma_run_position_shape(s, u, v, k, f);
        let (a, b, c) = position_result(s, u, v, k);
        lemma_run_positions_shape(a, b, c, k + 1, end);
    }
}

proof fn lemma_normalize_shape(s: Mat, u: Mat, k: int, end: int)
    ensures
        normalize(s, u, k, end) matches Some((a, b)) ==> same_shape(s, a),
    decreases end - k,
{
    if k < end {
        if s.e[k][k] < 0 {
            lemma_normalize_shape(row_neg(s, k), row_neg(u, k), k + 1, end);
        } else {
            lemma_normalize_shape(s, u, k + 1, end);
        }
    }
}

/// The diagonal matrix of the reduction has the shape of the input.
pub proof fn lemma_snf_diag_shape(a: Mat)
    ensures
        same_shape(a, snf_diag(a)),
{
    lemma_run_positions_shape(a, identity_mat(a.rows), identity_mat(a.cols), 0, snf_min_dim(a));
    if let Some((s, u, v)) = run_positions(a, identity_mat(a.rows), identity_mat(a.cols), 0, snf_min_dim(a)) {
        lemma_normalize_shape(s, u, 0, snf_min_dim(a));
    }
}

} // verus!
