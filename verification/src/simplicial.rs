//! Simplicial complexes and simplicial homology.
//!
//! A simplex is held as the strictly increasing list of its vertices, and
//! the simplices of each dimension as a list in lexicographic order, the
//! order in which sets of vertices compare.

use vstd::prelude::*;
use crate::chain_complex::{
    ChainComplex, HomologyGroup, computed_betti, homology_fits, homology_needs_no_reduction, homology_witnessed,
    is_betti_number, is_computed_homology, is_homology, is_zero_mat, lemma_euler_poincare_betti, rank_at,
    shapes_consistent,
};
use crate::euler::{as_i64, betti_sum, betti_sum_fits};
use crate::matrix::{Mat, ZMatrix, dot, group_zmatrix, lemma_mat_ext, mat_mul, mk};
use crate::text::{decimal, push_decimal};

verus! {

broadcast use group_zmatrix;

/// A vertex index.
pub type Vertex = usize;

/// The entries increase strictly: the list of a set of vertices.
pub open spec fn strictly_sorted(t: Seq<usize>) -> bool {
    forall|i: int, j: int| 0 <= i < j < t.len() ==> t[i] < t[j]
}

/// `a` comes before `b` lexicographically, the two first differing at `k`
/// (or `a` ending there, `b` going on).
pub open spec fn lex_lt_at(a: Seq<usize>, b: Seq<usize>, k: int) -> bool {
    &&& 0 <= k <= a.len()
    &&& k <= b.len()
    &&& forall|i: int| 0 <= i < k ==> a[i] == b[i]
    &&& ((k == a.len() && k < b.len()) || (k < a.len() && k < b.len() && a[k] < b[k]))
}

/// `a` comes before `b` lexicographically.
pub open spec fn lex_lt(a: Seq<usize>, b: Seq<usize>) -> bool {
    exists|k: int| #[trigger] lex_lt_at(a, b, k)
}

/// Each entry comes lexicographically before the next.
pub open spec fn lex_sorted(l: Seq<Seq<usize>>) -> bool {
    forall|i: int, j: int| 0 <= i < j < l.len() ==> lex_lt(#[trigger] l[i], #[trigger] l[j])
}

pub proof fn lemma_lex_irreflexive(a: Seq<usize>)
    ensures
        !lex_lt(a, a),
{
}

pub proof fn lemma_lex_transitive(a: Seq<usize>, b: Seq<usize>, c: Seq<usize>)
    requires
        lex_lt(a, b),
        lex_lt(b, c),
    ensures
        lex_lt(a, c),
{
    let k1 = choose|k: int| lex_lt_at(a, b, k);
    let k2 = choose|k: int| lex_lt_at(b, c, k);
    if k1 <= k2 {
        assert(lex_lt_at(a, c, k1));
    } else {
        assert(lex_lt_at(a, c, k2));
    }
}

pub proof fn lemma_lex_asymmetric(a: Seq<usize>, b: Seq<usize>)
    requires
        lex_lt(a, b),
    ensures
        !lex_lt(b, a),
        a != b,
{
    if lex_lt(b, a) {
        lemma_lex_transitive(a, b, a);
    }
}

/// The views of a list of vertex lists.
pub open spec fn vviews(s: Seq<Vec<usize>>) -> Seq<Seq<usize>> {
    Seq::new(s.len(), |i: int| s[i]@)
}

/// The simplices of every dimension, as lists of vertex lists.
pub open spec fn levels_of(s: Seq<Vec<Vec<usize>>>) -> Seq<Seq<Seq<usize>>> {
    Seq::new(s.len(), |l: int| vviews(s[l]@))
}

/// `t` is a simplex of dimension `l`.
pub open spec fn has(levels: Seq<Seq<Seq<usize>>>, l: int, t: Seq<usize>) -> bool {
    0 <= l < levels.len() && levels[l].contains(t)
}

/// Each dimension lists its simplices in lexicographic order; each simplex is
/// the increasing list of its vertices, of length one more than its
/// dimension (the empty simplex, where present, stands in dimension 0).
pub open spec fn levels_shape(levels: Seq<Seq<Seq<usize>>>) -> bool {
    &&& forall|l: int| 0 <= l < levels.len() ==> lex_sorted(#[trigger] levels[l])
    &&& forall|l: int, t: Seq<usize>| #[trigger] has(levels, l, t) ==> {
        &&& strictly_sorted(t)
        &&& (t.len() == l + 1 || (l == 0 && t.len() == 0))
    }
}

/// Every face of a simplex with at least two vertices is a simplex.
pub open spec fn closed_under_faces(levels: Seq<Seq<Seq<usize>>>) -> bool {
    forall|l: int, t: Seq<usize>, i: int|
        #[trigger] has(levels, l, t) && t.len() >= 2 && 0 <= i < t.len() ==> has(levels, l - 1, #[trigger] t.remove(i))
}

enum LexOrder {
    Less,
    Equal,
    Greater,
}

fn lex_compare(a: &Vec<usize>, b: &Vec<usize>) -> (c: LexOrder)
    ensures
        c is Less ==> lex_lt(a@, b@),
        c is Equal ==> a@ == b@,
        c is Greater ==> lex_lt(b@, a@),
{
    let mut k: usize = 0;
    while k < a.len() && k < b.len()
        invariant
            k <= a.len(),
            k <= b.len(),
            forall|i: int| 0 <= i < k ==> a@[i] == b@[i],
        decreases a.len() - k,
    {
        if a[k] < b[k] {
            assert(lex_lt_at(a@, b@, k as int));
            return LexOrder::Less;
        }
        if a[k] > b[k] {
            assert(lex_lt_at(b@, a@, k as int));
            return LexOrder::Greater;
        }
        k += 1;
    }
    if a.len() == b.len() {
        assert(a@ =~= b@);
        LexOrder::Equal
    } else if a.len() < b.len() {
        assert(lex_lt_at(a@, b@, k as int));
        LexOrder::Less
    } else {
        assert(lex_lt_at(b@, a@, k as int));
        LexOrder::Greater
    }
}

/// Inserting `t` where everything before is smaller and everything after is
/// larger keeps the list in order and adds `t` to its contents.
proof fn lemma_sorted_insert(l: Seq<Seq<usize>>, pos: int, t: Seq<usize>)
    requires
        lex_sorted(l),
        0 <= pos <= l.len(),
        forall|i: int| 0 <= i < pos ==> lex_lt(#[trigger] l[i], t),
        forall|i: int| pos <= i < l.len() ==> lex_lt(t, #[trigger] l[i]),
    ensures
        lex_sorted(l.insert(pos, t)),
        forall|x: Seq<usize>| l.insert(pos, t).contains(x) <==> (l.contains(x) || x == t),
{
    let n = l.insert(pos, t);
    l.insert_ensures(pos, t);
    assert forall|i: int, j: int| 0 <= i < j < n.len() implies lex_lt(#[trigger] n[i], #[trigger] n[j]) by {
        if j < pos {
            assert(n[i] == l[i] && n[j] == l[j]);
        } else if j == pos {
            assert(n[i] == l[i]);
        } else if i < pos {
            assert(n[i] == l[i] && n[j] == l[j - 1]);
            lemma_lex_transitive(l[i], t, l[j - 1]);
        } else if i == pos {
            assert(n[j] == l[j - 1]);
        } else {
            assert(n[i] == l[i - 1] && n[j] == l[j - 1]);
        }
    }
    assert forall|x: Seq<usize>| n.contains(x) <==> (l.contains(x) || x == t) by {
        if n.contains(x) {
            let k = choose|k: int| 0 <= k < n.len() && n[k] == x;
            if k < pos {
                assert(l[k] == x);
            } else if k > pos {
                assert(l[k - 1] == x);
            }
        }
        if l.contains(x) {
            let k = choose|k: int| 0 <= k < l.len() && l[k] == x;
            if k < pos {
                assert(n[k] == x);
            } else {
                assert(n[k + 1] == x);
            }
        }
        if x == t {
            assert(n[pos] == x);
        }
    }
}

/// Where `t` belongs in a lexicographically ordered list: the position of
/// its copy, or the position before which it is to stand.
pub(crate) fn find_slot(level: &Vec<Vec<usize>>, t: &Vec<usize>) -> (r: (usize, bool))
    requires
        lex_sorted(vviews(level@)),
    ensures
        r.0 <= level@.len(),
        r.1 ==> r.0 < level@.len() && level@[r.0 as int]@ == t@,
        !r.1 ==> forall|i: int| 0 <= i < r.0 ==> lex_lt(#[trigger] vviews(level@)[i], t@),
        !r.1 ==> forall|i: int| r.0 <= i < level@.len() ==> lex_lt(t@, #[trigger] vviews(level@)[i]),
{
    let ghost l0 = vviews(level@);
    let mut pos: usize = 0;
    while pos < level.len()
        invariant
            pos <= level@.len(),
            l0 == vviews(level@),
            lex_sorted(l0),
            forall|i: int| 0 <= i < pos ==> lex_lt(#[trigger] l0[i], t@),
        decreases level.len() - pos,
    {
        match lex_compare(&level[pos], t) {
            LexOrder::Less => {
                pos += 1;
            },
            LexOrder::Equal => {
                return (pos, true);
            },
            LexOrder::Greater => {
                proof {
                    assert forall|i: int| pos <= i < l0.len() implies lex_lt(t@, #[trigger] l0[i]) by {
                        if i > pos {
                            assert(lex_lt(l0[pos as int], l0[i]));
                            lemma_lex_transitive(t@, l0[pos as int], l0[i]);
                        }
                    }
                }
                return (pos, false);
            },
        }
    }
    (pos, false)
}

/// Adds `t` to a lexicographically ordered list of vertex lists, unless it
/// is there already.
pub(crate) fn level_insert(level: &mut Vec<Vec<usize>>, t: Vec<usize>)
    requires
        lex_sorted(vviews(old(level)@)),
    ensures
        lex_sorted(vviews(final(level)@)),
        forall|x: Seq<usize>| vviews(final(level)@).contains(x) <==> (vviews(old(level)@).contains(x) || x == t@),
{
    let ghost l0 = vviews(level@);
    let (pos, found) = find_slot(level, &t);
    if found {
        assert forall|x: Seq<usize>| l0.contains(x) <==> (l0.contains(x) || x == t@) by {
            if x == t@ {
                assert(l0[pos as int] == x);
            }
        }
    } else {
        proof {
            lemma_sorted_insert(l0, pos as int, t@);
        }
        let ghost tv = t@;
        level.insert(pos, t);
        assert(vviews(level@) =~= l0.insert(pos as int, tv));
    }
}

/// Adds the simplex `t` in dimension `d`.
fn insert_simplex(simplices: &mut Vec<Vec<Vec<usize>>>, d: usize, t: Vec<usize>)
    requires
        levels_shape(levels_of(old(simplices)@)),
        d < old(simplices)@.len(),
        strictly_sorted(t@),
        t@.len() == d + 1 || (d == 0 && t@.len() == 0),
    ensures
        levels_shape(levels_of(final(simplices)@)),
        final(simplices)@.len() == old(simplices)@.len(),
        forall|l: int, x: Seq<usize>| #[trigger] has(levels_of(final(simplices)@), l, x)
            <==> (has(levels_of(old(simplices)@), l, x) || (l == d && x == t@)),
{
    let ghost old_levels = levels_of(simplices@);
    let ghost tv = t@;
    let mut level = simplices.remove(d);
    assert(vviews(level@) == old_levels[d as int]);
    level_insert(&mut level, t);
    simplices.insert(d, level);
    let ghost new_levels = levels_of(simplices@);
    assert(new_levels =~= old_levels.update(d as int, vviews(level@)));
    assert forall|l: int, x: Seq<usize>| #[trigger] has(new_levels, l, x)
        <==> (has(old_levels, l, x) || (l == d && x == tv)) by {
        if l == d {
            assert(new_levels[l] == vviews(level@));
        } else if 0 <= l < new_levels.len() {
            assert(new_levels[l] == old_levels[l]);
        }
    }
    assert forall|l: int| 0 <= l < new_levels.len() implies lex_sorted(#[trigger] new_levels[l]) by {
        if l != d {
            assert(new_levels[l] == old_levels[l]);
        }
    }
}

/// The distinct entries of `vs`, in increasing order.
fn sorted_distinct(vs: &[usize]) -> (s: Vec<usize>)
    ensures
        strictly_sorted(s@),
        s@.to_set() == vs@.to_set(),
{
    let mut s: Vec<usize> = Vec::new();
    for k in 0..vs.len()
        invariant
            strictly_sorted(s@),
            s@.to_set() == vs@.take(k as int).to_set(),
    {
        let x = vs[k];
        let mut pos: usize = 0;
        while pos < s.len() && s[pos] < x
            invariant
                pos <= s@.len(),
                forall|i: int| 0 <= i < pos ==> s@[i] < x,
            decreases s.len() - pos,
        {
            pos += 1;
        }
        let ghost old_s = s@;
        if pos < s.len() && s[pos] == x {
            assert(s@.to_set() =~= vs@.take(k + 1).to_set()) by {
                assert(vs@.take(k + 1) =~= vs@.take(k as int).push(x));
                assert(old_s.contains(x));
            }
        } else {
            s.insert(pos, x);
            proof { old_s.insert_ensures(pos as int, x); }
            assert(strictly_sorted(s@)) by {
                assert forall|i: int, j: int| 0 <= i < j < s@.len() implies s@[i] < s@[j] by {
                    if j < pos {
                    } else if j == pos {
                    } else if i < pos {
                        assert(s@[j] == old_s[j - 1]);
                        assert(old_s[pos as int] > x);
                        assert(old_s[pos as int] <= old_s[j - 1]);
                    } else if i == pos {
                        assert(s@[j] == old_s[j - 1]);
                        assert(old_s[pos as int] <= old_s[j - 1]);
                    } else {
                        assert(s@[i] == old_s[i - 1] && s@[j] == old_s[j - 1]);
                    }
                }
            }
            assert(s@.to_set() =~= vs@.take(k + 1).to_set()) by {
                assert(vs@.take(k + 1) =~= vs@.take(k as int).push(x));
                broadcast use vstd::seq_lib::lemma_seq_contains_after_push;
                assert forall|y: usize| s@.contains(y) <==> (old_s.contains(y) || y == x) by {
                    if s@.contains(y) {
                        let m = choose|m: int| 0 <= m < s@.len() && s@[m] == y;
                        if m < pos {
                            assert(old_s[m] == y);
                        } else if m > pos {
                            assert(old_s[m - 1] == y);
                        }
                    }
                    if old_s.contains(y) {
                        let m = choose|m: int| 0 <= m < old_s.len() && old_s[m] == y;
                        if m < pos {
                            assert(s@[m] == y);
                        } else {
                            assert(s@[m + 1] == y);
                        }
                    }
                    if y == x {
                        assert(s@[pos as int] == y);
                    }
                }
                assert forall|y: usize| s@.to_set().contains(y) <==> vs@.take(k + 1).to_set().contains(y) by {
                    assert(old_s.to_set().contains(y) <==> vs@.take(k as int).to_set().contains(y));
                    assert(vs@.take(k as int).push(x).contains(y) <==> (vs@.take(k as int).contains(y) || y == x));
                }
            }
        }
    }
    assert(vs@.take(vs@.len() as int) =~= vs@);
    s
}

pub(crate) fn copy_usizes(v: &Vec<usize>) -> (out: Vec<usize>)
    ensures
        out@ == v@,
{
    let mut out: Vec<usize> = Vec::new();
    for i in 0..v.len()
        invariant
            out@ == v@.take(i as int),
    {
        out.push(v[i]);
        assert(out@ =~= v@.take(i + 1));
    }
    assert(out@ =~= v@);
    out
}

/// `x`, of length `l + 1`, is `p` followed by at least one more vertex,
/// increasing, each further vertex drawn from `s[start..]`.
pub open spec fn extends(p: Seq<usize>, s: Seq<usize>, start: int, l: int, x: Seq<usize>) -> bool {
    &&& x.len() == l + 1
    &&& x.len() > p.len()
    &&& x.take(p.len() as int) == p
    &&& strictly_sorted(x)
    &&& forall|m: int| p.len() <= m < x.len() ==> s.subrange(start, s.len() as int).contains(#[trigger] x[m])
}

/// The extensions of `p` whose first further vertex is `s[i]` are `p + [s[i]]`
/// and the extensions of it by vertices after `s[i]`.
proof fn lemma_extension_split(p: Seq<usize>, s: Seq<usize>, start: int, i: int, l: int, x: Seq<usize>)
    requires
        strictly_sorted(s),
        strictly_sorted(p),
        0 <= start <= i < s.len(),
        forall|a: int, j: int| 0 <= a < p.len() && start <= j < s.len() ==> p[a] < s[j],
    ensures
        (extends(p, s, start, l, x) && x[p.len() as int] == s[i])
            <==> ((l == p.len() && x == p.push(s[i])) || extends(p.push(s[i]), s, i + 1, l, x)),
        s.subrange(start, i + 1).contains(x[p.len() as int])
            <==> (s.subrange(start, i).contains(x[p.len() as int]) || x[p.len() as int] == s[i]),
{
    let t = p.push(s[i]);
    let pl = p.len() as int;
    let v = x[pl];
    if extends(p, s, start, l, x) && x[pl] == s[i] {
        if x.len() == pl + 1 {
            assert(x =~= t) by {
                assert forall|a: int| 0 <= a < pl implies x[a] == t[a] by {
                    assert(x.take(pl)[a] == p[a]);
                }
            }
        } else {
            assert(x.take(t.len() as int) =~= t) by {
                assert forall|a: int| 0 <= a < pl implies x[a] == t[a] by {
                    assert(x.take(pl)[a] == p[a]);
                }
            }
            assert forall|m: int| t.len() <= m < x.len() implies s.subrange(i + 1, s.len() as int).contains(#[trigger] x[m]) by {
                assert(s.subrange(start, s.len() as int).contains(x[m]));
                let q = choose|q: int| 0 <= q < s.subrange(start, s.len() as int).len() && #[trigger] s.subrange(start, s.len() as int)[q] == x[m];
                let j = start + q;
                assert(s[j] == x[m]);
                assert(x[pl] < x[m]);
                if j <= i {
                    if j < i {
                        assert(s[j] < s[i]);
                    }
                    assert(false);
                }
                assert(s.subrange(i + 1, s.len() as int)[j - (i + 1)] == x[m]);
            }
        }
    }
    if (l == pl && x == t) || extends(t, s, i + 1, l, x) {
        assert(x.take(pl) =~= p) by {
            if extends(t, s, i + 1, l, x) {
                assert forall|a: int| 0 <= a < pl implies x.take(pl)[a] == p[a] by {
                    assert(x.take(t.len() as int)[a] == t[a]);
                }
            }
        }
        assert(x[pl] == s[i]) by {
            if extends(t, s, i + 1, l, x) {
                assert(x.take(t.len() as int)[pl] == t[pl]);
            }
        }
        assert(s.subrange(start, s.len() as int)[i - start] == s[i]);
        assert forall|m: int| pl <= m < x.len() implies s.subrange(start, s.len() as int).contains(#[trigger] x[m]) by {
            if m > pl {
                assert(s.subrange(i + 1, s.len() as int).contains(x[m]));
                let q = choose|q: int| 0 <= q < s.subrange(i + 1, s.len() as int).len() && #[trigger] s.subrange(i + 1, s.len() as int)[q] == x[m];
                assert(s.subrange(start, s.len() as int)[i + 1 + q - start] == x[m]);
            }
        }
        if x == t {
            assert forall|a: int, b: int| 0 <= a < b < x.len() implies x[a] < x[b] by {
                if b == pl {
                    assert(p[a] < s[i]);
                }
            }
        }
    }
    assert(s.subrange(start, i + 1).contains(v) <==> (s.subrange(start, i).contains(v) || v == s[i])) by {
        if s.subrange(start, i + 1).contains(v) {
            let q = choose|q: int| 0 <= q < s.subrange(start, i + 1).len() && #[trigger] s.subrange(start, i + 1)[q] == v;
            if q < i - start {
                assert(s.subrange(start, i)[q] == v);
            }
        }
        if s.subrange(start, i).contains(v) {
            let q = choose|q: int| 0 <= q < s.subrange(start, i).len() && #[trigger] s.subrange(start, i)[q] == v;
            assert(s.subrange(start, i + 1)[q] == v);
        }
        if v == s[i] {
            assert(s.subrange(start, i + 1)[i - start] == v);
        }
    }
}

/// Adds every extension of `prefix` by further vertices of `s[start..]`,
/// each in its dimension.
fn add_extensions(simplices: &mut Vec<Vec<Vec<usize>>>, s: &Vec<usize>, start: usize, prefix: &Vec<usize>)
    requires
        levels_shape(levels_of(old(simplices)@)),
        strictly_sorted(s@),
        strictly_sorted(prefix@),
        start <= s@.len(),
        forall|a: int, j: int| 0 <= a < prefix@.len() && start <= j < s@.len() ==> prefix@[a] < s@[j],
        prefix@.len() + (s@.len() - start) <= old(simplices)@.len(),
    ensures
        levels_shape(levels_of(final(simplices)@)),
        final(simplices)@.len() == old(simplices)@.len(),
        forall|l: int, x: Seq<usize>| #[trigger] has(levels_of(final(simplices)@), l, x)
            <==> (has(levels_of(old(simplices)@), l, x) || extends(prefix@, s@, start as int, l, x)),
    decreases s@.len() - start,
{
    let ghost a0 = levels_of(simplices@);
    let ghost pl = prefix@.len() as int;
    let mut i = start;
    while i < s.len()
        invariant
            start <= i <= s@.len(),
            a0 == levels_of(old(simplices)@),
            pl == prefix@.len(),
            levels_shape(levels_of(simplices@)),
            simplices@.len() == old(simplices)@.len(),
            strictly_sorted(s@),
            strictly_sorted(prefix@),
            forall|a: int, j: int| 0 <= a < prefix@.len() && start <= j < s@.len() ==> prefix@[a] < s@[j],
            prefix@.len() + (s@.len() - start) <= old(simplices)@.len(),
            forall|l: int, x: Seq<usize>| #[trigger] has(levels_of(simplices@), l, x)
                <==> (has(a0, l, x) || (extends(prefix@, s@, start as int, l, x)
                    && s@.subrange(start as int, i as int).contains(x[pl]))),
        decreases s@.len() - i,
    {
        let ghost c = levels_of(simplices@);
        let mut t = copy_usizes(prefix);
        t.push(s[i]);
        assert(t@ == prefix@.push(s@[i as int]));
        assert(strictly_sorted(t@)) by {
            assert forall|a: int, b: int| 0 <= a < b < t@.len() implies t@[a] < t@[b] by {
                if b == pl {
                    assert(prefix@[a] < s@[i as int]);
                }
            }
        }
        let t2 = copy_usizes(&t);
        insert_simplex(simplices, prefix.len(), t2);
        let ghost c1 = levels_of(simplices@);
        add_extensions(simplices, s, i + 1, &t);
        proof {
            let c2 = levels_of(simplices@);
            assert forall|l: int, x: Seq<usize>| #[trigger] has(c2, l, x)
                <==> (has(a0, l, x) || (extends(prefix@, s@, start as int, l, x)
                    && s@.subrange(start as int, i + 1).contains(x[pl]))) by {
                lemma_extension_split(prefix@, s@, start as int, i as int, l, x);
                assert(has(c2, l, x) <==> (has(c1, l, x) || extends(t@, s@, i + 1, l, x)));
                assert(has(c1, l, x) <==> (has(c, l, x) || (l == pl && x == t@)));
            }
        }
        i += 1;
    }
    proof {
        assert forall|l: int, x: Seq<usize>| #[trigger] has(levels_of(simplices@), l, x)
            <==> (has(a0, l, x) || extends(prefix@, s@, start as int, l, x)) by {
            if extends(prefix@, s@, start as int, l, x) {
                assert(s@.subrange(start as int, s@.len() as int).contains(x[pl]));
            }
        }
    }
}

fn contains_usize(v: &Vec<usize>, x: usize) -> (b: bool)
    ensures
        b == v@.contains(x),
{
    for i in 0..v.len()
        invariant
            forall|j: int| 0 <= j < i ==> v@[j] != x,
    {
        if v[i] == x {
            return true;
        }
    }
    false
}

/// The vertices of a strictly increasing list, one removed, still increase
/// strictly and are among those of the list.
proof fn lemma_remove_sorted(t: Seq<usize>, i: int)
    requires
        strictly_sorted(t),
        0 <= i < t.len(),
    ensures
        strictly_sorted(t.remove(i)),
        t.remove(i).len() == t.len() - 1,
        forall|m: int| 0 <= m < t.remove(i).len() ==> t.contains(#[trigger] t.remove(i)[m]),
{
    let r = t.remove(i);
    t.remove_ensures(i);
    assert forall|a: int, b: int| 0 <= a < b < r.len() implies r[a] < r[b] by {
        let a1 = if a < i { a } else { a + 1 };
        let b1 = if b < i { b } else { b + 1 };
        assert(r[a] == t[a1] && r[b] == t[b1]);
    }
    assert forall|m: int| 0 <= m < r.len() implies t.contains(#[trigger] r[m]) by {
        let m1 = if m < i { m } else { m + 1 };
        assert(r[m] == t[m1]);
    }
}

/// A strictly increasing list of elements of `vs` is no longer than the
/// number of distinct elements of `vs`.
proof fn lemma_sorted_within_len(t: Seq<usize>, vs: Seq<usize>)
    requires
        strictly_sorted(t),
        forall|i: int| 0 <= i < t.len() ==> vs.contains(#[trigger] t[i]),
    ensures
        t.len() <= vs.to_set().len(),
{
    assert(t.no_duplicates()) by {
        assert forall|i: int, j: int| 0 <= i < t.len() && 0 <= j < t.len() && i != j implies t[i] != t[j] by {
            if i < j {
                assert(t[i] < t[j]);
            } else {
                assert(t[j] < t[i]);
            }
        }
    }
    t.unique_seq_to_set();
    assert(t.to_set().subset_of(vs.to_set())) by {
        assert forall|x: usize| t.to_set().contains(x) implies vs.to_set().contains(x) by {
            let k = choose|k: int| 0 <= k < t.len() && t[k] == x;
            assert(vs.contains(t[k]));
        }
    }
    vstd::set_lib::lemma_len_subset(t.to_set(), vs.to_set());
}

/// `t`, in dimension `l`, is among the simplices that adding the simplex on
/// the vertices `vs` brings: a nonempty set of these vertices, or the empty
/// simplex where `vs` is empty.
pub open spec fn added_face(vs: Seq<usize>, l: int, t: Seq<usize>) -> bool {
    ||| (strictly_sorted(t) && t.len() == l + 1 && forall|i: int| 0 <= i < t.len() ==> vs.contains(#[trigger] t[i]))
    ||| (l == 0 && vs.len() == 0 && t.len() == 0)
}

/// The number of dimensions that the simplex on `vs` needs.
pub open spec fn levels_needed(vs: Seq<usize>) -> nat {
    if vs.to_set().len() == 0 { 1 } else { vs.to_set().len() }
}

/// `new` is `old` with the simplex on the vertices `vs` and all its faces
/// added, and as many more dimensions as that simplex needs.
pub open spec fn adds_simplex(old: Seq<Seq<Seq<usize>>>, vs: Seq<usize>, new: Seq<Seq<Seq<usize>>>) -> bool {
    &&& new.len() == if old.len() >= levels_needed(vs) { old.len() } else { levels_needed(vs) }
    &&& forall|l: int, t: Seq<usize>| #[trigger] has(new, l, t) <==> (has(old, l, t) || (0 <= l && added_face(vs, l, t)))
}

/// Two lists in lexicographic order with the same entries are equal.
proof fn lemma_lex_sorted_unique(a: Seq<Seq<usize>>, b: Seq<Seq<usize>>)
    requires
        lex_sorted(a),
        lex_sorted(b),
        forall|x: Seq<usize>| a.contains(x) <==> b.contains(x),
    ensures
        a == b,
    decreases a.len() + b.len(),
{
    if a.len() == 0 {
        if b.len() > 0 {
            assert(b.contains(b[0]));
        }
        assert(b =~= a);
    } else if b.len() == 0 {
        assert(a.contains(a[0]));
    } else {
        assert(a.contains(a[0]));
        assert(b.contains(b[0]));
        let ka = choose|k: int| 0 <= k < b.len() && b[k] == a[0];
        let kb = choose|k: int| 0 <= k < a.len() && a[k] == b[0];
        assert(a[0] == b[0]) by {
            if a[0] != b[0] {
                assert(ka > 0 && kb > 0);
                assert(lex_lt(b[0], b[ka]));
                assert(lex_lt(a[0], a[kb]));
                lemma_lex_asymmetric(b[0], a[0]);
            }
        }
        let ta = a.drop_first();
        let tb = b.drop_first();
        assert forall|x: Seq<usize>| ta.contains(x) <==> tb.contains(x) by {
            if ta.contains(x) {
                let k = choose|k: int| 0 <= k < ta.len() && ta[k] == x;
                assert(a[k + 1] == x);
                assert(a.contains(x));
                let m = choose|m: int| 0 <= m < b.len() && b[m] == x;
                if m == 0 {
                    assert(lex_lt(a[0], a[k + 1]));
                    lemma_lex_irreflexive(x);
                }
                assert(tb[m - 1] == x);
            }
            if tb.contains(x) {
                let k = choose|k: int| 0 <= k < tb.len() && tb[k] == x;
                assert(b[k + 1] == x);
                assert(b.contains(x));
                let m = choose|m: int| 0 <= m < a.len() && a[m] == x;
                if m == 0 {
                    assert(lex_lt(b[0], b[k + 1]));
                    lemma_lex_irreflexive(x);
                }
                assert(ta[m - 1] == x);
            }
        }
        assert(lex_sorted(ta)) by {
            assert forall|i: int, j: int| 0 <= i < j < ta.len() implies lex_lt(#[trigger] ta[i], #[trigger] ta[j]) by {
                assert(lex_lt(a[i + 1], a[j + 1]));
            }
        }
        assert(lex_sorted(tb)) by {
            assert forall|i: int, j: int| 0 <= i < j < tb.len() implies lex_lt(#[trigger] tb[i], #[trigger] tb[j]) by {
                assert(lex_lt(b[i + 1], b[j + 1]));
            }
        }
        lemma_lex_sorted_unique(ta, tb);
        assert(a =~= seq![a[0]] + ta);
        assert(b =~= seq![b[0]] + tb);
    }
}

/// Levels in lexicographic order are determined by the simplices they hold
/// and their number.
pub proof fn lemma_levels_determined(a: Seq<Seq<Seq<usize>>>, b: Seq<Seq<Seq<usize>>>)
    requires
        levels_shape(a),
        levels_shape(b),
        a.len() == b.len(),
        forall|l: int, t: Seq<usize>| has(a, l, t) <==> has(b, l, t),
    ensures
        a == b,
{
    assert forall|l: int| 0 <= l < a.len() implies #[trigger] a[l] == b[l] by {
        assert forall|x: Seq<usize>| a[l].contains(x) <==> b[l].contains(x) by {
            assert(has(a, l, x) <==> has(b, l, x));
        }
        lemma_lex_sorted_unique(a[l], b[l]);
    }
    assert(a =~= b);
}

/// Adding a simplex a second time changes nothing.
pub proof fn lemma_add_simplex_idempotent(
    a: Seq<Seq<Seq<usize>>>,
    vs: Seq<usize>,
    b: Seq<Seq<Seq<usize>>>,
    c: Seq<Seq<Seq<usize>>>,
)
    requires
        levels_shape(b),
        levels_shape(c),
        adds_simplex(a, vs, b),
        adds_simplex(b, vs, c),
    ensures
        c == b,
{
    assert forall|l: int, t: Seq<usize>| has(c, l, t) <==> has(b, l, t) by {
        assert(has(c, l, t) <==> (has(b, l, t) || (0 <= l && added_face(vs, l, t))));
        assert(has(b, l, t) <==> (has(a, l, t) || (0 <= l && added_face(vs, l, t))));
    }
    lemma_levels_determined(c, b);
}

/// The order in which two simplices are added does not matter.
pub proof fn lemma_add_simplex_commutes(
    a: Seq<Seq<Seq<usize>>>,
    vs: Seq<usize>,
    ws: Seq<usize>,
    b1: Seq<Seq<Seq<usize>>>,
    c1: Seq<Seq<Seq<usize>>>,
    b2: Seq<Seq<Seq<usize>>>,
    c2: Seq<Seq<Seq<usize>>>,
)
    requires
        levels_shape(c1),
        levels_shape(c2),
        adds_simplex(a, vs, b1),
        adds_simplex(b1, ws, c1),
        adds_simplex(a, ws, b2),
        adds_simplex(b2, vs, c2),
    ensures
        c1 == c2,
{
    assert forall|l: int, t: Seq<usize>| has(c1, l, t) <==> has(c2, l, t) by {
        assert(has(c1, l, t) <==> (has(b1, l, t) || (0 <= l && added_face(ws, l, t))));
        assert(has(b1, l, t) <==> (has(a, l, t) || (0 <= l && added_face(vs, l, t))));
        assert(has(c2, l, t) <==> (has(b2, l, t) || (0 <= l && added_face(vs, l, t))));
        assert(has(b2, l, t) <==> (has(a, l, t) || (0 <= l && added_face(ws, l, t))));
    }
    lemma_levels_determined(c1, c2);
}

/// A simplicial complex.
#[derive(Clone, Debug)]
pub struct SimplicialComplex {
    /// All simplices, indexed by dimension.
    simplices: Vec<Vec<Vec<Vertex>>>,
    /// All vertices.
    vertices: Vec<Vertex>,
    /// Name for display.
    pub name: String,
}

impl SimplicialComplex {
    /// The simplices of each dimension, in lexicographic order.
    pub closed spec fn levels(&self) -> Seq<Seq<Seq<usize>>> {
        levels_of(self.simplices@)
    }

    /// The name of the complex.
    pub closed spec fn name_view(&self) -> Seq<char> {
        self.name@
    }

    /// The vertices of the complex.
    pub closed spec fn vertex_set(&self) -> Set<usize> {
        self.vertices@.to_set()
    }

    /// The complex is well formed: see `lemma_well_formed`.
    pub closed spec fn wf(&self) -> bool {
        &&& levels_shape(self.levels())
        &&& closed_under_faces(self.levels())
        &&& self.vertices@.no_duplicates()
        &&& forall|v: usize| self.vertex_set().contains(v) <==> #[trigger] has(self.levels(), 0, seq![v])
    }

    /// A well-formed complex lists the simplices of each dimension in
    /// lexicographic order, each as the increasing list of its vertices; it
    /// holds every face of each of its simplices; and its vertices are
    /// exactly its one-vertex simplices.
    pub proof fn lemma_well_formed(&self)
        requires
            self.wf(),
        ensures
            levels_shape(self.levels()),
            closed_under_faces(self.levels()),
            forall|v: usize| self.vertex_set().contains(v) <==> #[trigger] has(self.levels(), 0, seq![v]),
            self.vertex_set().finite(),
    {
    }

    /// Create a new empty simplicial complex.
    pub fn new(name: &str) -> (k: Self)
        ensures
            k.wf(),
            k.levels().len() == 0,
            k.vertex_set() == Set::<usize>::empty(),
            k.name_view() == name@,
    {
        let k = SimplicialComplex { simplices: Vec::new(), vertices: Vec::new(), name: String::from_str(name) };
        assert(k.levels() =~= Seq::<Seq<Seq<usize>>>::empty());
        assert(k.vertex_set() =~= Set::<usize>::empty());
        k
    }

    /// Add a simplex and all its faces.
    pub fn add_simplex(&mut self, vertices: &[Vertex])
        requires
            old(self).wf(),
        ensures
            final(self).wf(),
            adds_simplex(old(self).levels(), vertices@, final(self).levels()),
            final(self).vertex_set() == old(self).vertex_set() + vertices@.to_set(),
            final(self).name_view() == old(self).name_view(),
    {
        let ghost old_levels = self.levels();
        let ghost old_vertices = self.vertices@;
        let s = sorted_distinct(vertices);
        for k in 0..vertices.len()
            invariant
                self.vertices@.no_duplicates(),
                self.vertices@.to_set() == old_vertices.to_set() + vertices@.take(k as int).to_set(),
                self.simplices == old(self).simplices,
                self.name == old(self).name,
        {
            let v = vertices[k];
            let ghost before = self.vertices@;
            if !contains_usize(&self.vertices, v) {
                self.vertices.push(v);
            }
            proof {
                broadcast use vstd::seq_lib::lemma_seq_contains_after_push;
                assert(vertices@.take(k + 1) =~= vertices@.take(k as int).push(v));
                assert forall|y: usize| self.vertices@.to_set().contains(y)
                    <==> (old_vertices.to_set() + vertices@.take(k + 1).to_set()).contains(y) by {
                    assert(before.to_set().contains(y) <==> (old_vertices.to_set() + vertices@.take(k as int).to_set()).contains(y));
                    assert(vertices@.take(k as int).push(v).contains(y) <==> (vertices@.take(k as int).contains(y) || y == v));
                }
                assert(self.vertices@.to_set() =~= old_vertices.to_set() + vertices@.take(k + 1).to_set());
            }
        }
        assert(vertices@.take(vertices@.len() as int) =~= vertices@);
        let dim: usize = if s.len() == 0 { 0 } else { s.len() - 1 };
        let ghost verts_after = self.vertices@;
        while self.simplices.len() <= dim
            invariant
                self.vertices@ == verts_after,
                self.name == old(self).name,
                levels_shape(levels_of(self.simplices@)),
                forall|l: int, t: Seq<usize>| #[trigger] has(levels_of(self.simplices@), l, t) <==> has(old_levels, l, t),
                self.simplices@.len() == if old_levels.len() > dim { old_levels.len() } else {
                    if self.simplices@.len() > old_levels.len() { self.simplices@.len() } else { old_levels.len() }
                },
                self.simplices@.len() <= dim + 1 || self.simplices@.len() == old_levels.len(),
            decreases dim + 1 - self.simplices.len(),
        {
            let ghost before = levels_of(self.simplices@);
            self.simplices.push(Vec::new());
            proof {
                let after = levels_of(self.simplices@);
                assert forall|l: int, t: Seq<usize>| #[trigger] has(after, l, t) <==> has(before, l, t) by {
                    if 0 <= l < before.len() {
                        assert(after[l] == before[l]);
                    }
                    if l == before.len() {
                        assert(after[l] =~= Seq::<Seq<usize>>::empty());
                    }
                }
                assert forall|l: int| 0 <= l < after.len() implies lex_sorted(#[trigger] after[l]) by {
                    if l < before.len() {
                        assert(after[l] == before[l]);
                    }
                }
            }
        }
        let ghost mid = levels_of(self.simplices@);
        proof {
            s@.unique_seq_to_set();
        }
        if s.len() == 0 {
            insert_simplex(&mut self.simplices, 0, Vec::new());
        } else {
            let empty: Vec<usize> = Vec::new();
            add_extensions(&mut self.simplices, &s, 0, &empty);
        }
        proof {
            let new_levels = self.levels();
            assert(s@.no_duplicates()) by {
                assert forall|i: int, j: int| 0 <= i < s@.len() && 0 <= j < s@.len() && i != j implies s@[i] != s@[j] by {
                    if i < j {
                        assert(s@[i] < s@[j]);
                    } else {
                        assert(s@[j] < s@[i]);
                    }
                }
                s@.unique_seq_to_set();
            }
            assert forall|y: usize| s@.contains(y) <==> vertices@.contains(y) by {
                assert(s@.to_set().contains(y) <==> vertices@.to_set().contains(y));
            }
            assert forall|l: int, t: Seq<usize>| #[trigger] has(new_levels, l, t)
                <==> (has(old_levels, l, t) || (0 <= l && added_face(vertices@, l, t))) by {
                assert(has(mid, l, t) <==> has(old_levels, l, t));
                if s@.len() == 0 {
                    assert(vertices@.len() == 0) by {
                        if vertices@.len() > 0 {
                            assert(vertices@.to_set().contains(vertices@[0]));
                        }
                    }
                    if 0 <= l && added_face(vertices@, l, t) {
                        assert(t.len() == 0) by {
                            if t.len() > 0 {
                                assert(vertices@.contains(t[0]));
                            }
                        }
                        assert(t =~= Seq::<usize>::empty());
                    }
                } else {
                    assert(s@.subrange(0, s@.len() as int) =~= s@);
                    assert(vertices@.len() > 0) by {
                        assert(s@.to_set().contains(s@[0]));
                    }
                    if 0 <= l && added_face(vertices@, l, t) {
                        assert(t.take(0) =~= Seq::<usize>::empty());
                        assert(extends(Seq::<usize>::empty(), s@, 0, l, t));
                    }
                    if extends(Seq::<usize>::empty(), s@, 0, l, t) {
                        assert(added_face(vertices@, l, t));
                    }
                }
            }
            assert(new_levels.len() == mid.len());
            assert forall|l: int, t: Seq<usize>, i: int|
                #[trigger] has(new_levels, l, t) && t.len() >= 2 && 0 <= i < t.len()
                    implies has(new_levels, l - 1, #[trigger] t.remove(i)) by {
                if has(old_levels, l, t) {
                    assert(has(old_levels, l - 1, t.remove(i)));
                } else {
                    lemma_remove_sorted(t, i);
                    assert forall|m: int| 0 <= m < t.remove(i).len() implies vertices@.contains(#[trigger] t.remove(i)[m]) by {
                        let x = t.remove(i)[m];
                        assert(t.contains(x));
                        let k = choose|k: int| 0 <= k < t.len() && t[k] == x;
                        assert(vertices@.contains(t[k]));
                    }
                    assert(added_face(vertices@, l - 1, t.remove(i)));
                }
            }
            assert(self.vertex_set() == old(self).vertex_set() + vertices@.to_set());
            assert forall|v: usize| self.vertex_set().contains(v) <==> #[trigger] has(new_levels, 0, seq![v]) by {
                assert(old(self).vertex_set().contains(v) <==> has(old_levels, 0, seq![v]));
                assert(self.vertex_set().contains(v) <==> (old(self).vertex_set().contains(v) || vertices@.contains(v)));
                assert(has(new_levels, 0, seq![v]) <==> (has(old_levels, 0, seq![v]) || added_face(vertices@, 0, seq![v])));
                assert(seq![v][0] == v);
                if added_face(vertices@, 0, seq![v]) {
                    assert(vertices@.contains(seq![v][0]));
                }
                if vertices@.contains(v) {
                    assert(added_face(vertices@, 0, seq![v]));
                }
            }
            assert forall|l: int, t: Seq<usize>| 0 <= l && added_face(vertices@, l, t) implies l < new_levels.len() by {
                if t.len() > 0 {
                    lemma_sorted_within_len(t, vertices@);
                }
            }
        }
    }
}

/// The simplices of dimension `d` (none beyond the listed dimensions).
pub open spec fn level_or_empty(levels: Seq<Seq<Seq<usize>>>, d: int) -> Seq<Seq<usize>> {
    if 0 <= d < levels.len() { levels[d] } else { seq![] }
}

/// The highest dimension listed (0 for an empty complex).
pub open spec fn top_dimension(levels: Seq<Seq<Seq<usize>>>) -> nat {
    if levels.len() == 0 { 0 } else { (levels.len() - 1) as nat }
}

/// `(-1)^i` summed over the positions `i < n` of `s` whose removal leaves `t`.
pub open spec fn face_sign_sum(t: Seq<usize>, s: Seq<usize>, n: nat) -> int
    decreases n,
{
    if n == 0 {
        0
    } else {
        let i = n - 1;
        face_sign_sum(t, s, i as nat) + if s.remove(i) == t {
            if i % 2 == 0 { 1int } else { -1int }
        } else {
            0int
        }
    }
}

/// The coefficient of `t` in the boundary of `s`: `(-1)^i` where `t` is `s`
/// without its `i`-th vertex, 0 where `t` is no face of `s`.
pub open spec fn incidence(t: Seq<usize>, s: Seq<usize>) -> int {
    face_sign_sum(t, s, s.len())
}

/// The matrix of `d_{d+1}: C_{d+1} -> C_d`: a row for each simplex of
/// dimension `d`, a column for each of dimension `d + 1`, both in
/// lexicographic order.
pub open spec fn boundary_mat(levels: Seq<Seq<Seq<usize>>>, d: int) -> Mat {
    let targets = level_or_empty(levels, d);
    let sources = level_or_empty(levels, d + 1);
    mk(targets.len(), sources.len(), |r: int, j: int| incidence(targets[r], sources[j]))
}

/// The number of simplices of each dimension up to the top one.
pub open spec fn complex_ranks(levels: Seq<Seq<Seq<usize>>>) -> Seq<usize> {
    Seq::new(top_dimension(levels) + 1, |d: int| level_or_empty(levels, d).len() as usize)
}

/// The boundary matrices `d_1, ..., d_top`.
pub open spec fn complex_maps(levels: Seq<Seq<Seq<usize>>>) -> Seq<Mat> {
    Seq::new(top_dimension(levels), |d: int| boundary_mat(levels, d))
}

/// Removing two different vertices of a simplex gives two different faces.
proof fn lemma_faces_differ(s: Seq<usize>, i: int, k: int)
    requires
        strictly_sorted(s),
        0 <= i < k < s.len(),
    ensures
        s.remove(i) != s.remove(k),
{
    s.remove_ensures(i);
    s.remove_ensures(k);
    assert(s.remove(i)[i] == s[i + 1]);
    assert(s.remove(k)[i] == s[i]);
}

proof fn lemma_face_sum_zero(t: Seq<usize>, s: Seq<usize>, n: nat)
    requires
        forall|i: int| 0 <= i < n ==> #[trigger] s.remove(i) != t,
    ensures
        face_sign_sum(t, s, n) == 0,
    decreases n,
{
    if n > 0 {
        lemma_face_sum_zero(t, s, (n - 1) as nat);
    }
}

/// Distinct positions of a lexicographically ordered list hold distinct
/// entries.
pub(crate) proof fn lemma_sorted_distinct(l: Seq<Seq<usize>>, a: int, b: int)
    requires
        lex_sorted(l),
        0 <= a < l.len(),
        0 <= b < l.len(),
        l[a] == l[b],
    ensures
        a == b,
{
    if a < b {
        lemma_lex_asymmetric(l[a], l[b]);
    } else if b < a {
        lemma_lex_asymmetric(l[b], l[a]);
    }
}

fn copy_level(level: &Vec<Vec<usize>>) -> (out: Vec<Vec<usize>>)
    ensures
        vviews(out@) == vviews(level@),
{
    let mut out: Vec<Vec<usize>> = Vec::new();
    for i in 0..level.len()
        invariant
            out@.len() == i,
            forall|k: int| 0 <= k < i ==> (#[trigger] out@[k])@ == level@[k]@,
    {
        let row = copy_usizes(&level[i]);
        out.push(row);
    }
    assert(vviews(out@) =~= vviews(level@));
    out
}

pub(crate) fn remove_copy(v: &Vec<usize>, i: usize) -> (out: Vec<usize>)
    requires
        i < v@.len(),
    ensures
        out@ == v@.remove(i as int),
{
    let mut out = copy_usizes(v);
    out.remove(i);
    out
}

impl SimplicialComplex {
    /// Get number of simplices of given dimension.
    pub fn num_simplices(&self, dim: usize) -> (n: usize)
        ensures
            n == level_or_empty(self.levels(), dim as int).len(),
    {
        if dim < self.simplices.len() {
            self.simplices[dim].len()
        } else {
            0
        }
    }

    /// Get the dimension (highest dimension of any simplex).
    pub fn dimension(&self) -> (d: usize)
        ensures
            d == top_dimension(self.levels()),
            d < usize::MAX,
    {
        self.simplices.len().saturating_sub(1)
    }

    /// Get all simplices of given dimension, sorted.
    pub fn simplices_of_dim(&self, dim: usize) -> (res: Vec<Vec<Vertex>>)
        requires
            self.wf(),
        ensures
            vviews(res@) == level_or_empty(self.levels(), dim as int),
            lex_sorted(vviews(res@)),
            forall|i: int| 0 <= i < res@.len() ==> strictly_sorted(#[trigger] res@[i]@)
                && (res@[i]@.len() == dim + 1 || (dim == 0 && res@[i]@.len() == 0)),
    {
        if dim < self.simplices.len() {
            assert(lex_sorted(self.levels()[dim as int]));
            let res = copy_level(&self.simplices[dim]);
            proof {
                assert forall|i: int| 0 <= i < res@.len() implies strictly_sorted(#[trigger] res@[i]@)
                    && (res@[i]@.len() == dim + 1 || (dim == 0 && res@[i]@.len() == 0)) by {
                    assert(vviews(res@)[i] == res@[i]@);
                    assert(self.levels()[dim as int].contains(res@[i]@));
                    assert(has(self.levels(), dim as int, res@[i]@));
                }
            }
            res
        } else {
            let res: Vec<Vec<Vertex>> = Vec::new();
            assert(vviews(res@) =~= Seq::<Seq<usize>>::empty());
            res
        }
    }

    /// Build the boundary matrix for dimension n+1 -> n.
    /// boundary_maps[n] represents d_{n+1}: C_{n+1} -> C_n.
    fn boundary_matrix(&self, dim: usize) -> (m: ZMatrix)
        requires
            self.wf(),
            dim < usize::MAX,
        ensures
            m@ == boundary_mat(self.levels(), dim as int),
    {
        // Boundary map d_{dim+1}: C_{dim+1} -> C_{dim}
        let targets = self.simplices_of_dim(dim);
        let sources = self.simplices_of_dim(dim + 1);
        let ghost tv = vviews(targets@);
        let ghost sv = vviews(sources@);
        let ghost spec_m = boundary_mat(self.levels(), dim as int);
        if sources.len() == 0 || targets.len() == 0 {
            let z = ZMatrix::zeros(targets.len(), sources.len());
            proof {
                lemma_mat_ext(z@, spec_m);
            }
            return z;
        }
        proof {
            assert forall|j: int| 0 <= j < sv.len() implies strictly_sorted(#[trigger] sv[j]) by {
                assert(has(self.levels(), dim + 1, sv[j]));
            }
        }
        let mut mat = ZMatrix::zeros(targets.len(), sources.len());
        for j in 0..sources.len()
            invariant
                tv == vviews(targets@),
                sv == vviews(sources@),
                lex_sorted(tv),
                forall|c: int| 0 <= c < sv.len() ==> strictly_sorted(#[trigger] sv[c]),
                mat@.rows == tv.len(),
                mat@.cols == sv.len(),
                forall|r: int, c: int| 0 <= r < tv.len() && 0 <= c < sv.len() ==>
                    #[trigger] mat@.e[r][c] == if c < j { incidence(tv[r], sv[c]) } else { 0 },
        {
            let simplex = &sources[j];
            assert(simplex@ == sv[j as int]);
            for i in 0..simplex.len()
                invariant
                    tv == vviews(targets@),
                    sv == vviews(sources@),
                    simplex@ == sv[j as int],
                    j < sv.len(),
                    lex_sorted(tv),
                    strictly_sorted(sv[j as int]),
                    mat@.rows == tv.len(),
                    mat@.cols == sv.len(),
                    forall|r: int, c: int| 0 <= r < tv.len() && 0 <= c < sv.len() ==>
                        #[trigger] mat@.e[r][c] == if c < j { incidence(tv[r], sv[c]) } else if c == j {
                            face_sign_sum(tv[r], sv[c], i as nat)
                        } else { 0 },
            {
                let face = remove_copy(simplex, i);
                let (row, found) = find_slot(&targets, &face);
                let ghost sgn: int = if i % 2 == 0 { 1 } else { -1 };
                if found {
                    proof {
                        assert forall|k: int| 0 <= k < i implies #[trigger] sv[j as int].remove(k) != tv[row as int] by {
                            lemma_faces_differ(sv[j as int], k, i as int);
                        }
                        lemma_face_sum_zero(tv[row as int], sv[j as int], i as nat);
                    }
                    let cur = mat.get(row, j);
                    let sign: i64 = if i % 2 == 0 { 1 } else { -1 };
                    mat.set_entry(row, j, cur + sign);
                    proof {
                        assert forall|r: int, c: int| 0 <= r < tv.len() && 0 <= c < sv.len() implies
                            #[trigger] mat@.e[r][c] == if c < j { incidence(tv[r], sv[c]) } else if c == j {
                                face_sign_sum(tv[r], sv[c], (i + 1) as nat)
                            } else { 0 } by {
                            if c == j && r != row {
                                if sv[c].remove(i as int) == tv[r] {
                                    lemma_sorted_distinct(tv, r, row as int);
                                }
                            }
                        }
                    }
                } else {
                    proof {
                        assert forall|r: int, c: int| 0 <= r < tv.len() && 0 <= c < sv.len() implies
                            #[trigger] mat@.e[r][c] == if c < j { incidence(tv[r], sv[c]) } else if c == j {
                                face_sign_sum(tv[r], sv[c], (i + 1) as nat)
                            } else { 0 } by {
                            if c == j {
                                if r < row {
                                    lemma_lex_asymmetric(tv[r], face@);
                                } else {
                                    lemma_lex_asymmetric(face@, tv[r]);
                                }
                            }
                        }
                    }
                }
            }
        }
        proof {
            lemma_mat_ext(mat@, spec_m);
        }
        mat
    }

    /// Build the chain complex for this simplicial complex.
    pub fn chain_complex(&self) -> (c: ChainComplex)
        requires
            self.wf(),
        ensures
            c.ranks@ == complex_ranks(self.levels()),
            c.maps_view() == complex_maps(self.levels()),
            forall|k: int| 1 <= k < c.maps_view().len() ==> #[trigger] is_zero_mat(
                mat_mul(c.maps_view()[k - 1], c.maps_view()[k]),
            ),
    {
        let max_dim = self.dimension();
        let mut boundary_maps: Vec<ZMatrix> = Vec::new();
        let mut ranks: Vec<usize> = Vec::new();
        let ghost target_ranks = complex_ranks(self.levels());
        for d in 0..max_dim + 1
            invariant
                max_dim == top_dimension(self.levels()),
                target_ranks == complex_ranks(self.levels()),
                ranks@ == target_ranks.take(d as int),
        {
            ranks.push(self.num_simplices(d));
            assert(ranks@ =~= target_ranks.take(d + 1));
        }
        assert(ranks@ =~= target_ranks);
        for d in 0..max_dim
            invariant
                self.wf(),
                max_dim == top_dimension(self.levels()),
                boundary_maps@.len() == d,
                forall|k: int| 0 <= k < d ==> (#[trigger] boundary_maps@[k])@ == boundary_mat(self.levels(), k),
        {
            boundary_maps.push(self.boundary_matrix(d));
        }
        let c = ChainComplex::from_ranks_and_maps(ranks, boundary_maps);
        assert(c.maps_view() =~= complex_maps(self.levels()));
        proof {
            assert forall|k: int| 1 <= k < c.maps_view().len() implies #[trigger] is_zero_mat(
                mat_mul(c.maps_view()[k - 1], c.maps_view()[k]),
            ) by {
                lemma_boundary_of_boundary(self.levels(), k - 1);
            }
        }
        c
    }

    /// Compute homology group H_n (`None` where the computation leaves the
    /// `i64` range).
    pub fn homology(&self, n: usize) -> (res: Option<HomologyGroup>)
        requires
            self.wf(),
        ensures
            res matches Some(h) ==> is_homology(complex_ranks(self.levels()), complex_maps(self.levels()), n as int, h),
            rank_at(complex_ranks(self.levels()), n as int) == 0 ==> res is Some,
            res is Some <==> homology_fits(complex_ranks(self.levels()), complex_maps(self.levels()), n as int),
            res matches Some(h) ==> is_computed_homology(complex_ranks(self.levels()), complex_maps(self.levels()), n as int, h),
    {
        self.chain_complex().homology(n)
    }

    /// Compute all homology groups up to the dimension of the complex.
    pub fn all_homology(&self) -> (res: Option<Vec<HomologyGroup>>)
        requires
            self.wf(),
        ensures
            res matches Some(hs) ==> hs@.len() == top_dimension(self.levels()) + 1 && forall|i: int|
                0 <= i <= top_dimension(self.levels()) ==> is_homology(complex_ranks(self.levels()),
                    complex_maps(self.levels()), i, #[trigger] hs@[i]),
            (forall|i: int| 0 <= i <= top_dimension(self.levels()) ==> #[trigger] homology_needs_no_reduction(
                complex_ranks(self.levels()), complex_maps(self.levels()), i)) ==> res is Some,
            res is Some <==> forall|i: int| 0 <= i <= top_dimension(self.levels()) ==> #[trigger] homology_fits(complex_ranks(self.levels()), complex_maps(self.levels()), i),
            res matches Some(hs) ==> forall|i: int|
                0 <= i <= top_dimension(self.levels()) ==> is_computed_homology(complex_ranks(self.levels()), complex_maps(self.levels()), i, #[trigger] hs@[i]),
            res is Some ==> forall|i: int|
                0 <= i <= top_dimension(self.levels()) ==> #[trigger] homology_witnessed(complex_ranks(self.levels()), complex_maps(self.levels()), i),
    {
        self.chain_complex().all_homology(self.dimension())
    }

    /// Compute Betti numbers.
    pub fn betti_numbers(&self) -> (res: Option<Vec<usize>>)
        requires
            self.wf(),
        ensures
            res matches Some(b) ==> b@.len() == top_dimension(self.levels()) + 1 && forall|i: int|
                0 <= i <= top_dimension(self.levels()) ==> is_betti_number(complex_ranks(self.levels()),
                    complex_maps(self.levels()), i, #[trigger] b@[i]),
            (forall|i: int| 0 <= i <= top_dimension(self.levels()) ==> #[trigger] homology_needs_no_reduction(
                complex_ranks(self.levels()), complex_maps(self.levels()), i)) ==> res is Some,
            res is Some <==> forall|i: int| 0 <= i <= top_dimension(self.levels()) ==> #[trigger] homology_fits(complex_ranks(self.levels()), complex_maps(self.levels()), i),
            res matches Some(b) ==> forall|i: int|
                0 <= i <= top_dimension(self.levels()) ==> #[trigger] b@[i] == computed_betti(complex_ranks(self.levels()), complex_maps(self.levels()), i),
            res is Some ==> forall|i: int|
                0 <= i <= top_dimension(self.levels()) ==> #[trigger] homology_witnessed(complex_ranks(self.levels()), complex_maps(self.levels()), i),
    {
        self.chain_complex().betti_numbers(self.dimension())
    }

    /// Euler characteristic: χ = Σ (-1)^n * (number of n-simplices).
    pub fn euler_characteristic(&self) -> (chi: i64)
        requires
            betti_sum_fits(complex_ranks(self.levels())),
        ensures
            chi == betti_sum(complex_ranks(self.levels()), top_dimension(self.levels()) + 1),
    {
        let ghost ranks = complex_ranks(self.levels());
        let top = self.dimension();
        let mut chi: i64 = 0;
        for d in 0..top + 1
            invariant
                top == top_dimension(self.levels()),
                ranks == complex_ranks(self.levels()),
                betti_sum_fits(ranks),
                chi == betti_sum(ranks, d as nat),
        {
            let n_d = self.num_simplices(d);
            let count = n_d as i64;
            assert(ranks[d as int] == n_d);
            assert(i64::MIN <= betti_sum(ranks, (d + 1) as nat) <= i64::MAX);
            if d % 2 == 0 {
                chi = chi + count;
            } else {
                assert(count != i64::MIN);
                chi = chi - count;
            }
        }
        chi
    }

    /// Number of vertices.
    pub fn num_vertices(&self) -> (n: usize)
        requires
            self.wf(),
        ensures
            n == self.vertex_set().len(),
    {
        proof {
            self.vertices@.unique_seq_to_set();
        }
        self.vertices.len()
    }

    /// Number of edges.
    pub fn num_edges(&self) -> (n: usize)
        ensures
            n == level_or_empty(self.levels(), 1).len(),
    {
        self.num_simplices(1)
    }
}

/// The complex holds exactly the faces of the simplices `gens`.
pub open spec fn generated_by(levels: Seq<Seq<Seq<usize>>>, gens: Seq<Seq<usize>>) -> bool {
    forall|l: int, t: Seq<usize>| #[trigger] has(levels, l, t)
        <==> (0 <= l && exists|g: int| 0 <= g < gens.len() && #[trigger] added_face(gens[g], l, t))
}

/// The number of dimensions that the first `k` of `gens` need.
pub open spec fn gens_levels(gens: Seq<Seq<usize>>, k: nat) -> nat
    decreases k,
{
    if k == 0 {
        0
    } else {
        let p = gens_levels(gens, (k - 1) as nat);
        let q = levels_needed(gens[k - 1]);
        if p >= q { p } else { q }
    }
}

/// The vertex `v` is a vertex of one of `gens`.
pub open spec fn in_some(gens: Seq<Seq<usize>>, v: usize) -> bool {
    exists|g: int| 0 <= g < gens.len() && #[trigger] gens[g].contains(v)
}

/// A simplex on strictly increasing vertices needs as many dimensions as it
/// has vertices.
pub proof fn lemma_levels_needed_sorted(t: Seq<usize>)
    requires
        strictly_sorted(t),
        t.len() > 0,
    ensures
        levels_needed(t) == t.len(),
{
    assert(t.no_duplicates()) by {
        assert forall|i: int, j: int| 0 <= i < t.len() && 0 <= j < t.len() && i != j implies t[i] != t[j] by {
            if i < j {
                assert(t[i] < t[j]);
            } else {
                assert(t[j] < t[i]);
            }
        }
    }
    t.unique_seq_to_set();
}

/// The complex with the given name made of the simplices `gens` and their
/// faces, added in order.
fn complex_from(name: &str, gens: &Vec<Vec<usize>>) -> (k: SimplicialComplex)
    ensures
        k.wf(),
        k.name_view() == name@,
        generated_by(k.levels(), vviews(gens@)),
        k.levels().len() == gens_levels(vviews(gens@), gens@.len() as nat),
        forall|v: usize| k.vertex_set().contains(v) <==> in_some(vviews(gens@), v),
{
    let ghost gv = vviews(gens@);
    let mut k = SimplicialComplex::new(name);
    for g in 0..gens.len()
        invariant
            gv == vviews(gens@),
            k.wf(),
            k.name_view() == name@,
            forall|l: int, t: Seq<usize>| #[trigger] has(k.levels(), l, t)
                <==> (0 <= l && exists|h: int| 0 <= h < g && #[trigger] added_face(gv[h], l, t)),
            k.levels().len() == gens_levels(gv, g as nat),
            forall|v: usize| k.vertex_set().contains(v) <==> exists|h: int| 0 <= h < g && #[trigger] gv[h].contains(v),
    {
        let ghost before = k.levels();
        let ghost before_vs = k.vertex_set();
        k.add_simplex(gens[g].as_slice());
        proof {
            assert(gens@[g as int]@ == gv[g as int]);
            assert forall|l: int, t: Seq<usize>| #[trigger] has(k.levels(), l, t)
                <==> (0 <= l && exists|h: int| 0 <= h < g + 1 && #[trigger] added_face(gv[h], l, t)) by {
                if 0 <= l && exists|h: int| 0 <= h < g + 1 && #[trigger] added_face(gv[h], l, t) {
                    let h = choose|h: int| 0 <= h < g + 1 && #[trigger] added_face(gv[h], l, t);
                    if h < g {
                        assert(has(before, l, t));
                    }
                }
            }
            assert forall|v: usize| k.vertex_set().contains(v) <==> exists|h: int| 0 <= h < g + 1 && #[trigger] gv[h].contains(v) by {
                assert(k.vertex_set().contains(v) <==> (before_vs.contains(v) || gv[g as int].to_set().contains(v)));
                if exists|h: int| 0 <= h < g + 1 && #[trigger] gv[h].contains(v) {
                    let h = choose|h: int| 0 <= h < g + 1 && #[trigger] gv[h].contains(v);
                    if h < g {
                        assert(before_vs.contains(v));
                    }
                }
            }
        }
    }
    k
}

// ============ Construction helpers for well-known spaces ============

/// Build a simplicial complex homeomorphic to S^1 (circle): the three edges
/// of a triangle.
pub fn circle() -> (k: SimplicialComplex)
    ensures
        k.wf(),
        k.name_view() == "S^1"@,
        generated_by(k.levels(), seq![seq![0usize, 1], seq![1usize, 2], seq![0usize, 2]]),
        k.levels().len() == 2,
{
    // Triangle: 3 vertices, 3 edges
    let gens: Vec<Vec<usize>> = vec![vec![0, 1], vec![1, 2], vec![0, 2]];
    let k = complex_from("S^1", &gens);
    proof {
        assert(vviews(gens@) =~= seq![seq![0usize, 1], seq![1usize, 2], seq![0usize, 2]]);
        let gv = vviews(gens@);
        lemma_levels_needed_sorted(gv[0]);
        lemma_levels_needed_sorted(gv[1]);
        lemma_levels_needed_sorted(gv[2]);
        reveal_with_fuel(gens_levels, 4);
    }
    k
}

/// The four triangles bounding a tetrahedron.
pub open spec fn sphere_2_triangles() -> Seq<Seq<usize>> {
    seq![seq![0usize, 1, 2], seq![0usize, 1, 3], seq![0usize, 2, 3], seq![1usize, 2, 3]]
}

/// Build S^2 (2-sphere) as the boundary of a tetrahedron.
pub fn sphere_2() -> (k: SimplicialComplex)
    ensures
        k.wf(),
        k.name_view() == "S^2"@,
        generated_by(k.levels(), sphere_2_triangles()),
        k.levels().len() == gens_levels(sphere_2_triangles(), sphere_2_triangles().len()),
{
    // 4 vertices, 4 triangles (boundary of tetrahedron)
    let gens: Vec<Vec<usize>> = vec![vec![0, 1, 2], vec![0, 1, 3], vec![0, 2, 3], vec![1, 2, 3]];
    assert(vviews(gens@) =~= sphere_2_triangles());
    complex_from("S^2", &gens)
}

/// The chain complex of a simplicial complex, with at most `isize::MAX`
/// simplices in each dimension, has its boundary maps chain its ranks.
proof fn lemma_complex_shapes(levels: Seq<Seq<Seq<usize>>>)
    requires
        forall|d: int| 0 <= d <= top_dimension(levels) ==> #[trigger] level_or_empty(levels, d).len() <= isize::MAX,
    ensures
        shapes_consistent(complex_ranks(levels), complex_maps(levels)),
        forall|i: int| 0 <= i < complex_ranks(levels).len() ==> #[trigger] complex_ranks(levels)[i] <= i64::MAX,
        forall|i: int| 0 <= i < complex_ranks(levels).len() ==> #[trigger] complex_ranks(levels)[i] == level_or_empty(levels, i).len(),
{
    let ranks = complex_ranks(levels);
    let maps = complex_maps(levels);
    assert forall|i: int| 0 <= i < ranks.len() implies #[trigger] ranks[i] == level_or_empty(levels, i).len() by {
        assert(level_or_empty(levels, i).len() <= isize::MAX);
    }
    assert forall|k: int| 0 <= k < maps.len() implies (#[trigger] maps[k]).rows == ranks[k] && maps[k].cols == ranks[k + 1] by {
        assert(ranks[k] == level_or_empty(levels, k).len());
        assert(ranks[k + 1] == level_or_empty(levels, k + 1).len());
    }
}

/// Euler–Poincaré for a simplicial complex (with at most `isize::MAX`
/// simplices in each dimension): the Betti numbers that `betti_numbers`
/// gives have the same alternating sum as the numbers of simplices, the
/// Euler characteristic that `euler_characteristic` gives.
pub proof fn lemma_simplicial_euler_poincare(levels: Seq<Seq<Seq<usize>>>, b: Seq<usize>)
    requires
        levels_shape(levels),
        closed_under_faces(levels),
        forall|d: int| 0 <= d <= top_dimension(levels) ==> #[trigger] level_or_empty(levels, d).len() <= isize::MAX,
        b.len() == top_dimension(levels) + 1,
        forall|i: int| 0 <= i < b.len() ==> #[trigger] b[i] == computed_betti(complex_ranks(levels), complex_maps(levels), i),
        forall|i: int| 0 <= i < b.len() ==> #[trigger] homology_witnessed(complex_ranks(levels), complex_maps(levels), i),
    ensures
        betti_sum(b, b.len()) == betti_sum(complex_ranks(levels), b.len()),
{
    let maps = complex_maps(levels);
    lemma_complex_shapes(levels);
    assert forall|k: int| 1 <= k < maps.len() implies #[trigger] is_zero_mat(mat_mul(maps[k - 1], maps[k])) by {
        lemma_boundary_of_boundary(levels, k - 1);
    }
    lemma_euler_poincare_betti(complex_ranks(levels), maps, b);
}

/// The fourteen triangles of the 7-vertex torus: `{i, i+1, i+3}` and
/// `{i, i+2, i+3}` for each `i` modulo 7.
pub open spec fn torus_triangles() -> Seq<Seq<usize>> {
    seq![seq![0usize, 1, 3], seq![0usize, 1, 5], seq![0usize, 2, 3], seq![0usize, 2, 6], seq![0usize, 4, 5], seq![0usize, 4, 6], seq![1usize, 2, 4], seq![1usize, 2, 6], seq![1usize, 3, 4], seq![1usize, 5, 6], seq![2usize, 3, 5], seq![2usize, 4, 5], seq![3usize, 4, 6], seq![3usize, 5, 6]]
}

/// Build a torus T^2 as a simplicial complex (the minimal, 7-vertex
/// triangulation).
pub fn torus() -> (k: SimplicialComplex)
    ensures
        k.wf(),
        k.name_view() == "T^2"@,
        generated_by(k.levels(), torus_triangles()),
        k.levels().len() == gens_levels(torus_triangles(), torus_triangles().len()),
{
    // 7 vertices, 21 edges, 14 triangles
    let gens: Vec<Vec<usize>> = vec![vec![0, 1, 3], vec![0, 1, 5], vec![0, 2, 3], vec![0, 2, 6], vec![0, 4, 5], vec![0, 4, 6], vec![1, 2, 4], vec![1, 2, 6], vec![1, 3, 4], vec![1, 5, 6], vec![2, 3, 5], vec![2, 4, 5], vec![3, 4, 6], vec![3, 5, 6]];
    assert(vviews(gens@) =~= torus_triangles());
    complex_from("T^2", &gens)
}

/// The ten triangles of the 6-vertex projective plane.
pub open spec fn rp2_triangles() -> Seq<Seq<usize>> {
    seq![seq![0usize, 1, 2], seq![0usize, 1, 5], seq![0usize, 2, 3], seq![0usize, 3, 4], seq![0usize, 4, 5], seq![1usize, 2, 4], seq![1usize, 3, 4], seq![1usize, 3, 5], seq![2usize, 3, 5], seq![2usize, 4, 5]]
}

/// Build the real projective plane RP².
pub fn rp2() -> (k: SimplicialComplex)
    ensures
        k.wf(),
        k.name_view() == "RP²"@,
        generated_by(k.levels(), rp2_triangles()),
        k.levels().len() == gens_levels(rp2_triangles(), rp2_triangles().len()),
{
    // 6 vertices, 15 edges, 10 triangles
    let gens: Vec<Vec<usize>> = vec![vec![0, 1, 2], vec![0, 1, 5], vec![0, 2, 3], vec![0, 3, 4], vec![0, 4, 5], vec![1, 2, 4], vec![1, 3, 4], vec![1, 3, 5], vec![2, 3, 5], vec![2, 4, 5]];
    assert(vviews(gens@) =~= rp2_triangles());
    complex_from("RP²", &gens)
}

/// The eighteen triangles of a 9-vertex Klein bottle: a 3 × 3 grid whose
/// columns wrap straight and whose rows wrap with a flip.
pub open spec fn klein_bottle_triangles() -> Seq<Seq<usize>> {
    seq![seq![0usize, 1, 4], seq![0usize, 1, 8], seq![0usize, 2, 3], seq![0usize, 2, 6], seq![0usize, 3, 4], seq![0usize, 6, 8], seq![1usize, 2, 5], seq![1usize, 2, 7], seq![1usize, 4, 5], seq![1usize, 7, 8], seq![2usize, 3, 5], seq![2usize, 6, 7], seq![3usize, 4, 7], seq![3usize, 5, 6], seq![3usize, 6, 7], seq![4usize, 5, 8], seq![4usize, 7, 8], seq![5usize, 6, 8]]
}

/// Build the Klein bottle.
pub fn klein_bottle() -> (k: SimplicialComplex)
    ensures
        k.wf(),
        k.name_view() == "Klein bottle"@,
        generated_by(k.levels(), klein_bottle_triangles()),
        k.levels().len() == gens_levels(klein_bottle_triangles(), klein_bottle_triangles().len()),
{
    // 9 vertices, 27 edges, 18 triangles
    let gens: Vec<Vec<usize>> = vec![vec![0, 1, 4], vec![0, 1, 8], vec![0, 2, 3], vec![0, 2, 6], vec![0, 3, 4], vec![0, 6, 8], vec![1, 2, 5], vec![1, 2, 7], vec![1, 4, 5], vec![1, 7, 8], vec![2, 3, 5], vec![2, 6, 7], vec![3, 4, 7], vec![3, 5, 6], vec![3, 6, 7], vec![4, 5, 8], vec![4, 7, 8], vec![5, 6, 8]];
    assert(vviews(gens@) =~= klein_bottle_triangles());
    complex_from("Klein bottle", &gens)
}

/// The triangles of the Möbius strip.
pub open spec fn mobius_triangles() -> Seq<Seq<usize>> {
    seq![seq![0usize, 1, 3], seq![1usize, 3, 4], seq![1usize, 2, 4], seq![2usize, 4, 5], seq![0usize, 2, 5]]
}

/// Build the Möbius strip.
pub fn mobius_strip() -> (k: SimplicialComplex)
    ensures
        k.wf(),
        k.name_view() == "Möbius strip"@,
        generated_by(k.levels(), mobius_triangles()),
        k.levels().len() == gens_levels(mobius_triangles(), mobius_triangles().len()),
{
    // Möbius strip triangulation
    let gens: Vec<Vec<usize>> = vec![vec![0, 1, 3], vec![1, 3, 4], vec![1, 2, 4], vec![2, 4, 5], vec![0, 2, 5]];
    assert(vviews(gens@) =~= mobius_triangles());
    complex_from("Möbius strip", &gens)
}

/// The `n + 2` faces of the `(n + 1)`-simplex on `0..=n+1`: face `i` omits
/// the vertex `i`.
pub open spec fn sphere_faces(n: nat) -> Seq<Seq<usize>> {
    Seq::new(n + 2, |i: int| Seq::new(n + 1, |m: int| if m < i { m as usize } else { (m + 1) as usize }))
}

/// Build S^n for arbitrary n using the boundary of an (n+1)-simplex.
pub fn sphere_n(n: usize) -> (k: SimplicialComplex)
    requires
        n + 2 <= usize::MAX,
    ensures
        k.wf(),
        k.name_view() == "S^"@ + decimal(n as nat),
        generated_by(k.levels(), sphere_faces(n as nat)),
        k.levels().len() == gens_levels(sphere_faces(n as nat), (n + 2) as nat),
{
    let mut name = String::from_str("S^");
    push_decimal(&mut name, n as u64);
    // The boundary of an (n+1)-simplex is homeomorphic to S^n
    // We need n+2 vertices
    let mut vertices: Vec<usize> = Vec::new();
    for v in 0..n + 2
        invariant
            vertices@ == Seq::new(v as nat, |m: int| m as usize),
    {
        vertices.push(v);
        assert(vertices@ =~= Seq::new((v + 1) as nat, |m: int| m as usize));
    }
    let ghost faces = sphere_faces(n as nat);
    // Add all (n)-simplices (i.e., all faces of dimension n of the (n+1)-simplex)
    // Each is obtained by removing one vertex
    let mut gens: Vec<Vec<usize>> = Vec::new();
    for i in 0..n + 2
        invariant
            n + 2 <= usize::MAX,
            vertices@ == Seq::new((n + 2) as nat, |m: int| m as usize),
            faces == sphere_faces(n as nat),
            gens@.len() == i,
            forall|g: int| 0 <= g < i ==> (#[trigger] gens@[g])@ == faces[g],
    {
        let mut face: Vec<usize> = Vec::new();
        for j in 0..vertices.len()
            invariant
                vertices@ == Seq::new((n + 2) as nat, |m: int| m as usize),
                i < n + 2,
                face@ == Seq::new((if j <= i { j as int } else { j - 1 }) as nat,
                    |m: int| if m < i { m as usize } else { (m + 1) as usize }),
        {
            let v = vertices[j];
            if v != i {
                face.push(v);
            }
            assert(face@ =~= Seq::new((if j + 1 <= i { j + 1 } else { j as int }) as nat,
                |m: int| if m < i { m as usize } else { (m + 1) as usize }));
        }
        assert(face@ =~= faces[i as int]);
        gens.push(face);
    }
    assert(vviews(gens@) =~= faces);
    complex_from(name.as_str(), &gens)
}

/// Build a single point.
pub fn point() -> (k: SimplicialComplex)
    ensures
        k.wf(),
        k.name_view() == "pt"@,
        generated_by(k.levels(), seq![seq![0usize]]),
        k.levels().len() == 1,
{
    let gens: Vec<Vec<usize>> = vec![vec![0]];
    let k = complex_from("pt", &gens);
    proof {
        assert(gens@[0]@ =~= seq![0usize]);
        assert(vviews(gens@) =~= seq![seq![0usize]]);
        lemma_levels_needed_sorted(seq![0usize]);
        reveal_with_fuel(gens_levels, 2);
    }
    k
}

/// Build a line segment (contractible).
pub fn interval() -> (k: SimplicialComplex)
    ensures
        k.wf(),
        k.name_view() == "I"@,
        generated_by(k.levels(), seq![seq![0usize, 1]]),
        k.levels().len() == 2,
{
    let gens: Vec<Vec<usize>> = vec![vec![0, 1]];
    let k = complex_from("I", &gens);
    proof {
        assert(vviews(gens@) =~= seq![seq![0usize, 1]]);
        lemma_levels_needed_sorted(seq![0usize, 1]);
        reveal_with_fuel(gens_levels, 2);
    }
    k
}

/// Build a solid triangle (disk, contractible).
pub fn disk() -> (k: SimplicialComplex)
    ensures
        k.wf(),
        k.name_view() == "D^2"@,
        generated_by(k.levels(), seq![seq![0usize, 1, 2]]),
        k.levels().len() == 3,
{
    let gens: Vec<Vec<usize>> = vec![vec![0, 1, 2]];
    let k = complex_from("D^2", &gens);
    proof {
        assert(vviews(gens@) =~= seq![seq![0usize, 1, 2]]);
        lemma_levels_needed_sorted(seq![0usize, 1, 2]);
        reveal_with_fuel(gens_levels, 2);
    }
    k
}
// ---------------------------------------------------------------------------
// The boundary of a boundary vanishes
// ---------------------------------------------------------------------------

proof fn lemma_face_sum_single(t: Seq<usize>, s: Seq<usize>, i: int, n: nat)
    requires
        strictly_sorted(s),
        0 <= i < s.len(),
        s.remove(i) == t,
        n <= s.len(),
    ensures
        face_sign_sum(t, s, n) == if n > i { if i % 2 == 0 { 1int } else { -1int } } else { 0int },
    decreases n,
{
    if n > 0 {
        lemma_face_sum_single(t, s, i, (n - 1) as nat);
        let k = n - 1;
        if k < i {
            lemma_faces_differ(s, k, i);
        } else if k > i {
            lemma_faces_differ(s, i, k);
        }
    }
}

/// The face of `s` without its `i`-th vertex has incidence `(-1)^i`.
proof fn lemma_incidence_at(t: Seq<usize>, s: Seq<usize>, i: int)
    requires
        strictly_sorted(s),
        0 <= i < s.len(),
        s.remove(i) == t,
    ensures
        incidence(t, s) == if i % 2 == 0 { 1int } else { -1int },
{
    lemma_face_sum_single(t, s, i, s.len());
}

/// A nonzero incidence comes from a face.
proof fn lemma_incidence_nonzero(t: Seq<usize>, s: Seq<usize>)
    requires
        incidence(t, s) != 0,
    ensures
        exists|i: int| 0 <= i < s.len() && #[trigger] s.remove(i) == t,
{
    if !exists|i: int| 0 <= i < s.len() && #[trigger] s.remove(i) == t {
        lemma_face_sum_zero(t, s, s.len());
    }
}

/// Removing positions `p < q` in either order gives the same list.
proof fn lemma_remove_twice(s: Seq<usize>, p: int, q: int)
    requires
        0 <= p < q < s.len(),
    ensures
        s.remove(p).remove(q - 1) == s.remove(q).remove(p),
        forall|k: int| 0 <= k < s.len() - 2 ==> #[trigger] s.remove(q).remove(p)[k]
            == if k < p { s[k] } else if k < q - 1 { s[k + 1] } else { s[k + 2] },
{
    s.remove_ensures(p);
    s.remove_ensures(q);
    s.remove(p).remove_ensures(q - 1);
    s.remove(q).remove_ensures(p);
    assert(s.remove(p).remove(q - 1) =~= s.remove(q).remove(p));
}

/// The vertex at position `a` is no vertex of a face of `s` without it.
proof fn lemma_removed_vertex_absent(s: Seq<usize>, a: int, b: int)
    requires
        strictly_sorted(s),
        0 <= a < s.len(),
        0 <= b < s.len() - 1,
    ensures
        !s.remove(a).remove(b).contains(s[a]),
{
    s.remove_ensures(a);
    s.remove(a).remove_ensures(b);
    if s.remove(a).remove(b).contains(s[a]) {
        let m = choose|m: int| 0 <= m < s.remove(a).remove(b).len() && s.remove(a).remove(b)[m] == s[a];
        let m1 = if m < b { m } else { m + 1 };
        assert(s.remove(a)[m1] == s[a]);
        let k = if m1 < a { m1 } else { m1 + 1 };
        assert(s[k] == s[a]);
        if k < a {
            assert(s[k] < s[a]);
        } else {
            assert(s[a] < s[k]);
        }
    }
}

/// `t` is `s` without the vertices at positions `p < q`, and `f` is `s`
/// without one of them.
pub open spec fn two_removal(s: Seq<usize>, t: Seq<usize>, f: Seq<usize>, p: int, q: int) -> bool {
    &&& 0 <= p < q < s.len()
    &&& t == s.remove(q).remove(p)
    &&& (f == s.remove(p) || f == s.remove(q))
}

/// A nonzero term `[t : f] [f : s]` comes from removing two vertices of `s`.
proof fn lemma_nonzero_term(t: Seq<usize>, f: Seq<usize>, s: Seq<usize>)
    requires
        strictly_sorted(s),
        incidence(t, f) != 0,
        incidence(f, s) != 0,
    ensures
        exists|p: int, q: int| #[trigger] two_removal(s, t, f, p, q),
{
    lemma_incidence_nonzero(f, s);
    lemma_incidence_nonzero(t, f);
    let a = choose|a: int| 0 <= a < s.len() && #[trigger] s.remove(a) == f;
    let b = choose|b: int| 0 <= b < f.len() && #[trigger] f.remove(b) == t;
    s.remove_ensures(a);
    if b >= a {
        lemma_remove_twice(s, a, b + 1);
        assert(two_removal(s, t, f, a, b + 1));
    } else {
        assert(two_removal(s, t, f, b, a));
    }
}

/// The two removals that give `t` from `s` are unique: any face `f` of `s`
/// with `t` a face of `f` misses `s[p]` or `s[q]`.
proof fn lemma_two_removal_unique(s: Seq<usize>, t: Seq<usize>, f: Seq<usize>, p: int, q: int, p2: int, q2: int)
    requires
        strictly_sorted(s),
        two_removal(s, t, s.remove(p), p, q),
        two_removal(s, t, f, p2, q2),
    ensures
        f == s.remove(p) || f == s.remove(q),
{
    let a = if f == s.remove(p2) { p2 } else { q2 };
    assert(!t.contains(s[a])) by {
        if a == p2 {
            lemma_remove_twice(s, p2, q2);
            lemma_removed_vertex_absent(s, p2, q2 - 1);
        } else {
            lemma_removed_vertex_absent(s, q2, p2);
        }
    }
    if a != p && a != q {
        lemma_remove_twice(s, p, q);
        let k = if a < p { a } else if a < q { a - 1 } else { a - 2 };
        assert(t[k] == s[a]);
    }
}

/// `sum_{j < n} [t : m_j] [m_j : s]`.
pub open spec fn incidence_path_sum(t: Seq<usize>, m: Seq<Seq<usize>>, s: Seq<usize>, n: nat) -> int
    decreases n,
{
    if n == 0 {
        0
    } else {
        incidence_path_sum(t, m, s, (n - 1) as nat) + incidence(t, m[n - 1]) * incidence(m[n - 1], s)
    }
}

proof fn lemma_path_sum_two(t: Seq<usize>, m: Seq<Seq<usize>>, s: Seq<usize>, n: nat, j1: int, j2: int)
    requires
        j1 != j2,
        0 <= j1,
        0 <= j2,
        forall|k: int| 0 <= k < n && k != j1 && k != j2 ==> #[trigger] (incidence(t, m[k]) * incidence(m[k], s)) == 0,
    ensures
        incidence_path_sum(t, m, s, n) == (if j1 < n { incidence(t, m[j1]) * incidence(m[j1], s) } else { 0 })
            + (if j2 < n { incidence(t, m[j2]) * incidence(m[j2], s) } else { 0 }),
    decreases n,
{
    if n > 0 {
        lemma_path_sum_two(t, m, s, (n - 1) as nat, j1, j2);
        if n - 1 != j1 && n - 1 != j2 {
            assert(incidence(t, m[n - 1]) * incidence(m[n - 1], s) == 0);
        }
    }
}

proof fn lemma_path_sum_zero(t: Seq<usize>, m: Seq<Seq<usize>>, s: Seq<usize>, n: nat)
    requires
        forall|k: int| 0 <= k < n ==> #[trigger] (incidence(t, m[k]) * incidence(m[k], s)) == 0,
    ensures
        incidence_path_sum(t, m, s, n) == 0,
    decreases n,
{
    if n > 0 {
        lemma_path_sum_zero(t, m, s, (n - 1) as nat);
        assert(incidence(t, m[n - 1]) * incidence(m[n - 1], s) == 0);
    }
}

proof fn lemma_product_zero_factor(x: int, y: int)
    requires
        x * y != 0,
    ensures
        x != 0,
        y != 0,
{
    if x == 0 || y == 0 {
        assert(x * y == 0) by (nonlinear_arith)
            requires x == 0 || y == 0;
    }
}

/// Summed over the simplices `m` of the middle dimension (each listed once,
/// among them every face of `s`), the incidences from `s` down to `t`
/// cancel.
proof fn lemma_path_sum_cancels(t: Seq<usize>, m: Seq<Seq<usize>>, s: Seq<usize>)
    requires
        strictly_sorted(s),
        s.len() >= 2,
        lex_sorted(m),
        forall|i: int| 0 <= i < s.len() ==> m.contains(#[trigger] s.remove(i)),
        forall|j: int| 0 <= j < m.len() ==> strictly_sorted(#[trigger] m[j]),
    ensures
        incidence_path_sum(t, m, s, m.len()) == 0,
{
    if exists|p: int, q: int| #[trigger] two_removal(s, t, s.remove(p), p, q) {
        let (p, q) = choose|p: int, q: int| #[trigger] two_removal(s, t, s.remove(p), p, q);
        lemma_remove_twice(s, p, q);
        let m1 = s.remove(p);
        let m2 = s.remove(q);
        assert(m.contains(m1));
        assert(m.contains(m2));
        let j1 = choose|j: int| 0 <= j < m.len() && m[j] == m1;
        let j2 = choose|j: int| 0 <= j < m.len() && m[j] == m2;
        lemma_faces_differ(s, p, q);
        assert forall|j: int| 0 <= j < m.len() && j != j1 && j != j2 implies
            #[trigger] (incidence(t, m[j]) * incidence(m[j], s)) == 0 by {
            if incidence(t, m[j]) * incidence(m[j], s) != 0 {
                lemma_product_zero_factor(incidence(t, m[j]), incidence(m[j], s));
                lemma_nonzero_term(t, m[j], s);
                let (p2, q2) = choose|p2: int, q2: int| #[trigger] two_removal(s, t, m[j], p2, q2);
                lemma_two_removal_unique(s, t, m[j], p, q, p2, q2);
                if m[j] == m1 {
                    lemma_sorted_distinct(m, j, j1);
                } else {
                    lemma_sorted_distinct(m, j, j2);
                }
            }
        }
        lemma_path_sum_two(t, m, s, m.len(), j1, j2);
        lemma_remove_sorted(s, p);
        lemma_remove_sorted(s, q);
        lemma_incidence_at(m1, s, p);
        lemma_incidence_at(m2, s, q);
        lemma_incidence_at(t, m1, q - 1);
        lemma_incidence_at(t, m2, p);
        let x1 = incidence(t, m1);
        let y1 = incidence(m1, s);
        let x2 = incidence(t, m2);
        let y2 = incidence(m2, s);
        assert(x1 * y1 + x2 * y2 == 0) by (nonlinear_arith)
            requires
                x1 == (if (q - 1) % 2 == 0 { 1int } else { -1int }),
                y1 == (if p % 2 == 0 { 1int } else { -1int }),
                x2 == (if p % 2 == 0 { 1int } else { -1int }),
                y2 == (if q % 2 == 0 { 1int } else { -1int });
    } else {
        assert forall|j: int| 0 <= j < m.len() implies #[trigger] (incidence(t, m[j]) * incidence(m[j], s)) == 0 by {
            if incidence(t, m[j]) * incidence(m[j], s) != 0 {
                lemma_product_zero_factor(incidence(t, m[j]), incidence(m[j], s));
                lemma_nonzero_term(t, m[j], s);
                let (p2, q2) = choose|p2: int, q2: int| #[trigger] two_removal(s, t, m[j], p2, q2);
                lemma_remove_twice(s, p2, q2);
                assert(two_removal(s, t, s.remove(p2), p2, q2));
            }
        }
        lemma_path_sum_zero(t, m, s, m.len());
    }
}

proof fn lemma_dot_is_path_sum(x: Seq<int>, y: Seq<int>, t: Seq<usize>, m: Seq<Seq<usize>>, s: Seq<usize>, n: nat)
    requires
        n <= m.len(),
        forall|j: int| 0 <= j < n ==> #[trigger] x[j] == incidence(t, m[j]),
        forall|j: int| 0 <= j < n ==> #[trigger] y[j] == incidence(m[j], s),
    ensures
        dot(x, y, n) == incidence_path_sum(t, m, s, n),
    decreases n,
{
    if n > 0 {
        lemma_dot_is_path_sum(x, y, t, m, s, (n - 1) as nat);
        assert(x[n - 1] == incidence(t, m[n - 1]));
        assert(y[n - 1] == incidence(m[n - 1], s));
    }
}

/// Entry `(r, c)` of `d_{d+1} ∘ d_{d+2}` is zero.
proof fn lemma_boundary_entry_zero(levels: Seq<Seq<Seq<usize>>>, d: int, r: int, c: int)
    requires
        levels_shape(levels),
        closed_under_faces(levels),
        0 <= d,
        d + 2 < levels.len(),
        0 <= r < levels[d].len(),
        0 <= c < levels[d + 2].len(),
    ensures
        dot(boundary_mat(levels, d).e[r], boundary_mat(levels, d + 1).column(c), levels[d + 1].len()) == 0,
{
    let t = levels[d][r];
    let s = levels[d + 2][c];
    let m = levels[d + 1];
    assert(has(levels, d + 2, s));
    assert(strictly_sorted(s) && s.len() == d + 3);
    assert forall|i: int| 0 <= i < s.len() implies m.contains(#[trigger] s.remove(i)) by {
        assert(has(levels, d + 1, s.remove(i)));
    }
    assert forall|j: int| 0 <= j < m.len() implies strictly_sorted(#[trigger] m[j]) by {
        assert(has(levels, d + 1, m[j]));
    }
    assert(lex_sorted(levels[d + 1]));
    lemma_path_sum_cancels(t, m, s);
    lemma_dot_is_path_sum(boundary_mat(levels, d).e[r], boundary_mat(levels, d + 1).column(c), t, m, s, m.len());
}

/// The boundary of a boundary vanishes: in a complex holding every face of
/// its simplices, `d_{d+1} ∘ d_{d+2} = 0` for every `d`.
pub proof fn lemma_boundary_of_boundary(levels: Seq<Seq<Seq<usize>>>, d: int)
    requires
        levels_shape(levels),
        closed_under_faces(levels),
        0 <= d,
    ensures
        is_zero_mat(mat_mul(boundary_mat(levels, d), boundary_mat(levels, d + 1))),
{
    let prod = mat_mul(boundary_mat(levels, d), boundary_mat(levels, d + 1));
    assert forall|i: int, j: int| 0 <= i < prod.rows && 0 <= j < prod.cols implies #[trigger] prod.e[i][j] == 0 by {
        if d + 2 < levels.len() {
            lemma_boundary_entry_zero(levels, d, i, j);
        }
    }
}

} // verus!
