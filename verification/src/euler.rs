//! Euler characteristic computation from Betti numbers.

use vstd::prelude::*;
use crate::text::{decimal, push_decimal};

verus! {

/// A Betti number as the `i64` that `as` makes of it.
pub open spec fn as_i64(b: usize) -> int {
    (b as i64) as int
}

/// `sum_{n < k} (-1)^n b_n`, each `b_n` taken as an `i64`.
pub open spec fn betti_sum(betti: Seq<usize>, k: nat) -> int
    decreases k,
{
    if k == 0 {
        0
    } else if (k - 1) % 2 == 0 {
        betti_sum(betti, (k - 1) as nat) + as_i64(betti[k - 1])
    } else {
        betti_sum(betti, (k - 1) as nat) - as_i64(betti[k - 1])
    }
}

/// `sum_{n < k} (-1)^n r_n`.
pub open spec fn rank_sum(ranks: Seq<i64>, k: nat) -> int
    decreases k,
{
    if k == 0 {
        0
    } else if (k - 1) % 2 == 0 {
        rank_sum(ranks, (k - 1) as nat) + ranks[k - 1]
    } else {
        rank_sum(ranks, (k - 1) as nat) - ranks[k - 1]
    }
}

/// No partial sum of `euler_from_betti` leaves the `i64` range, and no odd
/// term is the negation of `i64::MIN`.
pub open spec fn betti_sum_fits(betti: Seq<usize>) -> bool {
    &&& forall|n: int| 0 <= n < betti.len() && n % 2 == 1 ==> as_i64(#[trigger] betti[n]) != i64::MIN
    &&& forall|k: nat| k <= betti.len() ==> i64::MIN <= #[trigger] betti_sum(betti, k) <= i64::MAX
}

/// Compute Euler characteristic from Betti numbers.
/// χ = Σ_{n=0}^{∞} (-1)^n β_n
pub fn euler_from_betti(betti: &[usize]) -> (chi: i64)
    requires
        betti_sum_fits(betti@),
    ensures
        chi == betti_sum(betti@, betti@.len()),
{
    let mut chi: i64 = 0;
    for n in 0..betti.len()
        invariant
            betti_sum_fits(betti@),
            chi == betti_sum(betti@, n as nat),
    {
        let b = betti[n] as i64;
        assert(i64::MIN <= betti_sum(betti@, (n + 1) as nat) <= i64::MAX);
        if n % 2 == 0 {
            chi = chi + b;
        } else {
            assert(as_i64(betti@[n as int]) != i64::MIN);
            chi = chi - b;
        }
    }
    chi
}

/// No partial sum of `euler_from_homology_ranks` leaves the `i64` range, and
/// no odd term is `i64::MIN`.
pub open spec fn rank_sum_fits(ranks: Seq<i64>) -> bool {
    &&& forall|n: int| 0 <= n < ranks.len() && n % 2 == 1 ==> #[trigger] ranks[n] != i64::MIN
    &&& forall|k: nat| k <= ranks.len() ==> i64::MIN <= #[trigger] rank_sum(ranks, k) <= i64::MAX
}

/// Compute Euler characteristic from homology ranks.
pub fn euler_from_homology_ranks(ranks: &[i64]) -> (chi: i64)
    requires
        rank_sum_fits(ranks@),
    ensures
        chi == rank_sum(ranks@, ranks@.len()),
{
    let mut chi: i64 = 0;
    for n in 0..ranks.len()
        invariant
            rank_sum_fits(ranks@),
            chi == rank_sum(ranks@, n as nat),
    {
        let r = ranks[n];
        assert(i64::MIN <= rank_sum(ranks@, (n + 1) as nat) <= i64::MAX);
        if n % 2 == 0 {
            chi = chi + r;
        } else {
            assert(ranks@[n as int] != i64::MIN);
            chi = chi - r;
        }
    }
    chi
}


// ---------------------------------------------------------------------------
// Binomial coefficients
// ---------------------------------------------------------------------------

/// `C(n, k)`, by Pascal's rule.
pub open spec fn binom(n: nat, k: nat) -> nat
    decreases n,
{
    if k == 0 {
        1
    } else if n == 0 {
        0
    } else {
        binom((n - 1) as nat, (k - 1) as nat) + binom((n - 1) as nat, k)
    }
}

pub proof fn lemma_binom_above(n: nat, k: nat)
    requires
        k > n,
    ensures
        binom(n, k) == 0,
    decreases n,
{
    if n > 0 {
        lemma_binom_above((n - 1) as nat, (k - 1) as nat);
        lemma_binom_above((n - 1) as nat, k);
    }
}

pub proof fn lemma_binom_one(n: nat)
    ensures
        binom(n, 1) == n,
    decreases n,
{
    if n > 0 {
        lemma_binom_one((n - 1) as nat);
        assert(binom((n - 1) as nat, 0) == 1);
    }
}

pub proof fn lemma_binom_all(n: nat)
    ensures
        binom(n, n) == 1,
    decreases n,
{
    if n > 0 {
        lemma_binom_all((n - 1) as nat);
        lemma_binom_above((n - 1) as nat, n);
    }
}

/// `(k + 1) C(n, k + 1) == (n - k) C(n, k)`.
pub proof fn lemma_binom_absorb(n: nat, k: nat)
    requires
        k <= n,
    ensures
        (k + 1) * binom(n, k + 1) == (n - k) * binom(n, k),
    decreases n,
{
    if n == 0 {
        lemma_binom_above(0, 1);
        assert(binom(0, 0) == 1);
        assert(k == 0);
        assert(binom(n, k + 1) == 0);
    } else if k == 0 {
        lemma_binom_one(n);
        assert(binom(n, 0) == 1);
        assert(binom(n, k + 1) == binom(n, 1));
    } else if k == n {
        lemma_binom_above(n, (n + 1) as nat);
        assert((k + 1) * binom(n, k + 1) == 0);
        assert((n - k) * binom(n, k) == 0);
    } else {
        let a = binom((n - 1) as nat, (k - 1) as nat);
        let b = binom((n - 1) as nat, k);
        let c = binom((n - 1) as nat, (k + 1) as nat);
        lemma_binom_absorb((n - 1) as nat, k);
        lemma_binom_absorb((n - 1) as nat, (k - 1) as nat);
        assert(binom(n, k + 1) == b + c);
        assert(binom(n, k) == a + b);
        let kk = k as int;
        let nn = n as int;
        assert((kk + 1) * (b + c) == (nn - kk) * (a + b)) by (nonlinear_arith)
            requires
                (kk + 1) * c == (nn - 1 - kk) * b,
                kk * b == (nn - kk) * a,
        ;
    }
}

/// `C(n, k) == C(n, n - k)`.
pub proof fn lemma_binom_symmetric(n: nat, k: nat)
    requires
        k <= n,
    ensures
        binom(n, k) == binom(n, (n - k) as nat),
    decreases n,
{
    if k == 0 {
        lemma_binom_all(n);
    } else if k == n {
        lemma_binom_all(n);
    } else {
        lemma_binom_symmetric((n - 1) as nat, (k - 1) as nat);
        lemma_binom_symmetric((n - 1) as nat, k);
        assert(binom(n, (n - k) as nat) == binom((n - 1) as nat, (n - k - 1) as nat) + binom((n - 1) as nat, (n - k) as nat));
    }
}

/// The multiplicative computation of `C(n, k)` never leaves `usize`.
pub open spec fn binomial_fits(n: nat, k: nat) -> bool {
    k > n || forall|i: nat| i < k && i < n - k ==> #[trigger] binom(n, i) * (n - i) <= usize::MAX
}

/// `C(n, k)`, computed as `prod_{i < k} (n - i) / (i + 1)` with `k` replaced
/// by `min(k, n - k)`.
fn binomial(n: usize, k: usize) -> (r: usize)
    requires
        binomial_fits(n as nat, k as nat),
    ensures
        r == binom(n as nat, k as nat),
{
    if k > n {
        proof {
            lemma_binom_above(n as nat, k as nat);
        }
        return 0;
    }
    let k2 = if k < n - k { k } else { n - k };
    proof {
        lemma_binom_symmetric(n as nat, k as nat);
    }
    let mut result: usize = 1;
    for i in 0..k2
        invariant
            k <= n,
            k2 <= k,
            k2 <= n - k,
            binomial_fits(n as nat, k as nat),
            result == binom(n as nat, i as nat),
    {
        proof {
            lemma_binom_absorb(n as nat, i as nat);
            assert(binom(n as nat, i as nat) * (n - i) <= usize::MAX);
        }
        let p = result * (n - i);
        proof {
            assert(p == (i + 1) * binom(n as nat, (i + 1) as nat));
            vstd::arithmetic::div_mod::lemma_div_by_multiple(binom(n as nat, (i + 1) as nat) as int, (i + 1) as int);
            let pi = p as int;
            let d = (i + 1) as int;
            let b = binom(n as nat, (i + 1) as nat) as int;
            assert(pi / d == b) by (nonlinear_arith)
                requires
                    pi == d * b,
                    (b * d) / d == b,
            ;
        }
        result = p / (i + 1);
    }
    result
}

/// `sum_{k < m} (-1)^k C(n, k) == (-1)^(m - 1) C(n - 1, m - 1)`.
pub proof fn lemma_alternating_binom_prefix(n: nat, m: nat, betti: Seq<usize>)
    requires
        n >= 1,
        1 <= m <= n + 1,
        betti.len() == n + 1,
        forall|k: int| 0 <= k <= n ==> #[trigger] betti[k] == binom(n, k as nat),
        forall|k: nat| k <= n ==> #[trigger] binom(n, k) <= i64::MAX,
    ensures
        betti_sum(betti, m) == if (m - 1) % 2 == 0 {
            binom((n - 1) as nat, (m - 1) as nat) as int
        } else {
            -(binom((n - 1) as nat, (m - 1) as nat) as int)
        },
    decreases m,
{
    let k = m - 1;
    assert(binom(n, k as nat) <= i64::MAX);
    assert(as_i64(betti[k]) == binom(n, k as nat));
    if m == 1 {
        assert(betti_sum(betti, 0) == 0);
        assert(binom(n, 0) == 1);
        assert(binom((n - 1) as nat, 0) == 1);
    }
    if m > 1 {
        lemma_alternating_binom_prefix(n, (m - 1) as nat, betti);
        assert(binom(n, k as nat) == binom((n - 1) as nat, (k - 1) as nat) + binom((n - 1) as nat, k as nat));
    }
}

/// Euler characteristic info for a space.
#[derive(Clone, Debug)]
pub struct EulerInfo {
    /// Name of the space.
    pub space: String,
    /// Euler characteristic.
    pub euler: i64,
    /// Betti numbers.
    pub betti: Vec<usize>,
}

/// The Betti numbers of `S^n`: two points for `n == 0`, else `Z` in
/// dimensions `0` and `n`.
pub open spec fn sphere_betti(n: nat) -> Seq<usize> {
    Seq::new(n + 1, |i: int| if n == 0 { 2usize } else if i == 0 || i == n { 1usize } else { 0usize })
}

/// The Betti numbers of `CP^n`: one in each even dimension up to `2n`.
pub open spec fn cpn_betti(n: nat) -> Seq<usize> {
    Seq::new(2 * n + 1, |k: int| if k % 2 == 0 { 1usize } else { 0usize })
}

impl EulerInfo {
    /// Euler characteristic of S^n: `χ(S^n) = 1 + (-1)^n`.
    pub fn sphere(n: usize) -> (info: Self)
        requires
            n < usize::MAX,
        ensures
            info.space@ == "S^"@ + decimal(n as nat),
            info.betti@ == sphere_betti(n as nat),
            info.euler == if n % 2 == 0 { 2i64 } else { 0i64 },
    {
        let mut betti: Vec<usize> = Vec::new();
        for i in 0..n + 1
            invariant
                n < usize::MAX,
                betti@ == sphere_betti(n as nat).take(i as int),
        {
            let b: usize = if n == 0 { 2 } else if i == 0 || i == n { 1 } else { 0 };
            betti.push(b);
            assert(betti@ =~= sphere_betti(n as nat).take(i + 1));
        }
        assert(betti@ =~= sphere_betti(n as nat));
        proof {
            lemma_sphere_betti_sum(n as nat);
        }
        let euler = euler_from_betti(&betti);
        let mut space = String::from_str("S^");
        push_decimal(&mut space, n as u64);
        EulerInfo { space, euler, betti }
    }

    /// Euler characteristic of T^n (n-torus): β_k(T^n) = C(n, k), so
    /// `χ(T^n) = 0` for `n >= 1`.
    pub fn torus(n: usize) -> (info: Self)
        requires
            n < usize::MAX,
            forall|k: nat| k <= n ==> binomial_fits(n as nat, k),
            betti_sum_fits(Seq::new((n + 1) as nat, |k: int| binom(n as nat, k as nat) as usize)),
        ensures
            info.space@ == "T^"@ + decimal(n as nat),
            info.betti@.len() == n + 1,
            forall|k: int| 0 <= k <= n ==> #[trigger] info.betti@[k] == binom(n as nat, k as nat),
            info.euler == betti_sum(info.betti@, (n + 1) as nat),
            n >= 1 && (forall|k: nat| k <= n ==> #[trigger] binom(n as nat, k) <= i64::MAX) ==> info.euler == 0,
    {
        // β_k(T^n) = C(n, k)
        let ghost target = Seq::new((n + 1) as nat, |k: int| binom(n as nat, k as nat) as usize);
        let mut betti: Vec<usize> = Vec::new();
        for k in 0..n + 1
            invariant
                n < usize::MAX,
                forall|k: nat| k <= n ==> binomial_fits(n as nat, k),
                target == Seq::new((n + 1) as nat, |k: int| binom(n as nat, k as nat) as usize),
                betti@ == target.take(k as int),
        {
            assert(binomial_fits(n as nat, k as nat));
            let b = binomial(n, k);
            betti.push(b);
            assert(betti@ =~= target.take(k + 1));
        }
        assert(betti@ =~= target);
        let euler = euler_from_betti(&betti);
        proof {
            assert forall|k: int| 0 <= k <= n implies #[trigger] betti@[k] == binom(n as nat, k as nat) by {
                assert(binom(n as nat, k as nat) <= usize::MAX) by {
                    assert(betti@[k] == binom(n as nat, k as nat) as usize);
                    if binom(n as nat, k as nat) > usize::MAX {
                        lemma_binom_fits_usize(n as nat, k as nat);
                    }
                }
            }
            if n >= 1 && (forall|k: nat| k <= n ==> #[trigger] binom(n as nat, k) <= i64::MAX) {
                lemma_alternating_binom_prefix(n as nat, (n + 1) as nat, betti@);
                lemma_binom_above((n - 1) as nat, n as nat);
            }
        }
        let mut space = String::from_str("T^");
        push_decimal(&mut space, n as u64);
        EulerInfo { space, euler, betti }
    }

    /// Euler characteristic of RP².
    pub fn rp2() -> (info: Self)
        ensures
            info.space@ == "RP²"@,
            info.euler == 1,
            info.betti@ == seq![1usize, 0, 0],
    {
        let betti = vec![1usize, 0, 0];
        assert(betti@ =~= seq![1usize, 0, 0]);
        // Over Z: β_0=1, β_1=0, β_2=0
        EulerInfo { space: String::from_str("RP²"), euler: 1, betti }
    }

    /// Euler characteristic of the Klein bottle.
    pub fn klein_bottle() -> (info: Self)
        ensures
            info.space@ == "Klein bottle"@,
            info.euler == 0,
            info.betti@ == seq![1usize, 1, 0],
    {
        let betti = vec![1usize, 1, 0];
        assert(betti@ =~= seq![1usize, 1, 0]);
        EulerInfo { space: String::from_str("Klein bottle"), euler: 0, betti }
    }

    /// Euler characteristic of a point.
    pub fn point() -> (info: Self)
        ensures
            info.space@ == "pt"@,
            info.euler == 1,
            info.betti@ == seq![1usize],
    {
        let betti = vec![1usize];
        assert(betti@ =~= seq![1usize]);
        EulerInfo { space: String::from_str("pt"), euler: 1, betti }
    }

    /// Euler characteristic of CP^n: one cell in each even dimension, so
    /// `χ(CP^n) = n + 1`.
    pub fn cpn(n: usize) -> (info: Self)
        requires
            2 * n < usize::MAX,
            (n as i64) < i64::MAX,
        ensures
            info.space@ == "CP^"@ + decimal(n as nat),
            info.betti@ == cpn_betti(n as nat),
            info.euler == (n as i64) + 1,
    {
        let mut betti: Vec<usize> = Vec::new();
        for k in 0..2 * n + 1
            invariant
                2 * n < usize::MAX,
                betti@ == cpn_betti(n as nat).take(k as int),
        {
            let b: usize = if k % 2 == 0 && k <= 2 * n { 1 } else { 0 };
            betti.push(b);
            assert(betti@ =~= cpn_betti(n as nat).take(k + 1));
        }
        assert(betti@ =~= cpn_betti(n as nat));
        let mut space = String::from_str("CP^");
        push_decimal(&mut space, n as u64);
        EulerInfo { space, euler: n as i64 + 1, betti }
    }
}

/// A value that `binomial` computes fits in `usize` where `binomial_fits` holds.
proof fn lemma_binom_fits_usize(n: nat, k: nat)
    requires
        k <= n,
        binomial_fits(n, k),
    ensures
        binom(n, k) <= usize::MAX,
{
    lemma_binom_symmetric(n, k);
    let k2: nat = if k < n - k { k } else { (n - k) as nat };
    lemma_binom_prefix_fits(n, k, k2);
}

proof fn lemma_binom_prefix_fits(n: nat, k: nat, j: nat)
    requires
        k <= n,
        binomial_fits(n, k),
        j <= k,
        j <= n - k,
    ensures
        binom(n, j) <= usize::MAX,
    decreases j,
{
    if j > 0 {
        let i = (j - 1) as nat;
        lemma_binom_prefix_fits(n, k, i);
        lemma_binom_absorb(n, i);
        assert(binom(n, i) * (n - i) <= usize::MAX);
        assert(j * binom(n, j) <= usize::MAX);
        assert(binom(n, j) <= j * binom(n, j)) by (nonlinear_arith)
            requires j >= 1;
    } else {
        assert(binom(n, 0) == 1);
    }
}

/// The sphere's Betti numbers sum to `1 + (-1)^n`.
proof fn lemma_sphere_betti_sum(n: nat)
    ensures
        betti_sum(sphere_betti(n), n + 1) == if n % 2 == 0 { 2int } else { 0int },
        betti_sum_fits(sphere_betti(n)),
{
    let b = sphere_betti(n);
    if n == 0 {
        assert(as_i64(b[0]) == 2);
        assert(betti_sum(b, 0) == 0);
        assert(betti_sum(b, 1) == 2);
    } else {
        lemma_sphere_prefix(n, n);
        assert(as_i64(b[n as int]) == 1);
    }
    assert forall|k: nat| k <= b.len() implies i64::MIN <= #[trigger] betti_sum(b, k) <= i64::MAX by {
        if n > 0 && k >= 1 {
            if k <= n {
                lemma_sphere_prefix(n, k);
            } else {
                lemma_sphere_prefix(n, n);
                assert(as_i64(b[n as int]) == 1);
            }
        } else if n == 0 && k == 1 {
            assert(as_i64(b[0]) == 2);
        }
    }
}

proof fn lemma_sphere_prefix(n: nat, k: nat)
    requires
        1 <= k <= n,
    ensures
        betti_sum(sphere_betti(n), k) == 1,
    decreases k,
{
    let b = sphere_betti(n);
    if k == 1 {
        assert(as_i64(b[0]) == 1);
        assert(betti_sum(b, 0) == 0);
    } else {
        lemma_sphere_prefix(n, (k - 1) as nat);
        assert(as_i64(b[k - 1]) == 0);
    }
}

} // verus!
