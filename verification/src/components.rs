//! H_0 of the clique complex of a network counts its connected components.

use vstd::prelude::*;
use crate::chain_complex::{
    HomologyGroup, free_of, homology_witnessed, image_of, is_computed_homology, kernel_of, map_rank, rank_at, smith_witnessed,
};
use crate::matrix::{Mat, dot, lemma_dot_axpy_right, lemma_dot_unit_right};
use crate::network::{
    Connection, adjacent, connected, is_clique_complex, is_component_split, joins, last_index, listed, network_homology_spec,
    respects, splits_by,
};
use crate::rank::{indicator, lemma_dot_zero_right, lemma_rank_by_classes};
use crate::simplicial::{boundary_mat, complex_maps, complex_ranks, face_sign_sum, incidence, level_or_empty, lex_lt, lex_lt_at,
    lex_sorted, top_dimension};
use crate::snf_run::snf_diag;

verus! {

/// Lexicographic order on one-vertex lists is the order of their vertices.
proof fn lemma_lex_single(a: Seq<usize>, b: Seq<usize>)
    requires
        a.len() == 1,
        b.len() == 1,
        lex_lt(a, b),
    ensures
        a[0] < b[0],
{
    let k = choose|k: int| #[trigger] lex_lt_at(a, b, k);
}

/// In a sorted list of exactly the one-vertex lists `[v]`, `v < n`, entry `r`
/// is `[r]`.
proof fn lemma_level0_entry(l0: Seq<Seq<usize>>, n: nat, r: int)
    requires
        lex_sorted(l0),
        forall|t: Seq<usize>| #[trigger] l0.contains(t) <==> (t.len() == 1 && t[0] < n),
        n <= isize::MAX,
        0 <= r < l0.len(),
    ensures
        l0[r].len() == 1,
        l0[r][0] == r,
    decreases r,
{
    assert(l0.contains(l0[r]));
    if r > 0 {
        lemma_level0_entry(l0, n, r - 1);
        assert(l0.contains(l0[r - 1]));
        lemma_lex_single(l0[r - 1], l0[r]);
    }
    if l0[r][0] > r {
        let t = seq![r as usize];
        assert(l0.contains(t));
        let idx = choose|idx: int| 0 <= idx < l0.len() && l0[idx] == t;
        if idx < r {
            lemma_level0_entry(l0, n, idx);
        } else if idx > r {
            lemma_lex_single(l0[r], l0[idx]);
        }
    }
}

/// The agents' level of a clique complex is `[0], [1], ..., [n - 1]`.
pub proof fn lemma_level0_canonical(ids: Seq<Seq<char>>, conns: Seq<Connection>, max_dim: nat, levels: Seq<Seq<Seq<usize>>>)
    requires
        is_clique_complex(ids, conns, max_dim, levels),
        ids.len() <= isize::MAX,
    ensures
        levels[0] == Seq::new(ids.len(), |i: int| seq![i as usize]),
{
    let l0 = levels[0];
    let n = ids.len();
    assert forall|r: int| 0 <= r < l0.len() implies #[trigger] l0[r] == seq![r as usize] by {
        lemma_level0_entry(l0, n, r);
        assert(l0[r] =~= seq![r as usize]);
    }
    if l0.len() < n {
        let t = seq![l0.len() as usize];
        assert(l0.contains(t));
        let idx = choose|idx: int| 0 <= idx < l0.len() && l0[idx] == t;
        assert(l0[idx] == seq![idx as usize]);
    } else if l0.len() > n {
        assert(l0.contains(l0[n as int]));
        assert(l0[n as int] == seq![n as usize]);
    }
    assert(l0 =~= Seq::new(n, |i: int| seq![i as usize]));
}

/// The class of each agent position under a component split, and a member
/// of each class.
pub open spec fn class_of(members: Seq<Seq<int>>, x: int) -> int {
    choose|k: int| 0 <= k < members.len() && #[trigger] member_of(members[k], x)
}

/// `x` is one of `m`.
pub open spec fn member_of(m: Seq<int>, x: int) -> bool {
    exists|p: int| 0 <= p < m.len() && #[trigger] m[p] == x
}

proof fn lemma_class_of(ids: Seq<Seq<char>>, conns: Seq<Connection>, members: Seq<Seq<int>>, comps: Seq<Seq<Seq<char>>>, x: int)
    requires
        splits_by(ids, conns, members, comps),
        0 <= x < ids.len(),
    ensures
        0 <= class_of(members, x) < members.len(),
        member_of(members[class_of(members, x)], x),
{
    assert(listed(members, x));
    let (k, p) = choose|k: int, p: int| 0 <= k < members.len() && 0 <= p < members[k].len() && #[trigger] members[k][p] == x;
    assert(member_of(members[k], x));
}

/// Two positions are connected exactly where they share a class.
proof fn lemma_class_connected(ids: Seq<Seq<char>>, conns: Seq<Connection>, members: Seq<Seq<int>>, comps: Seq<Seq<Seq<char>>>, x: int, y: int)
    requires
        splits_by(ids, conns, members, comps),
        0 <= x < ids.len(),
        0 <= y < ids.len(),
    ensures
        connected(ids, conns, x, y) <==> class_of(members, x) == class_of(members, y),
{
    lemma_class_of(ids, conns, members, comps, x);
    lemma_class_of(ids, conns, members, comps, y);
    let k = class_of(members, x);
    let l = class_of(members, y);
    let p = choose|p: int| 0 <= p < members[k].len() && #[trigger] members[k][p] == x;
    let q = choose|q: int| 0 <= q < members[l].len() && #[trigger] members[l][q] == y;
    assert(connected(ids, conns, members[k][p], members[l][q]) <==> k == l);
}

/// Joined agents are connected.
proof fn lemma_adjacent_connected(ids: Seq<Seq<char>>, conns: Seq<Connection>, a: int, b: int)
    requires
        adjacent(ids, conns, a, b),
    ensures
        connected(ids, conns, a, b),
{
    let c = choose|c: int| 0 <= c < conns.len() && #[trigger] joins(ids, conns[c], a, b);
    assert forall|f: spec_fn(int) -> int| #[trigger] respects(ids, conns, f) implies f(a) == f(b) by {
        let x = last_index(ids, conns[c].from@);
        let y = last_index(ids, conns[c].to@);
        assert(x >= 0 && y >= 0 ==> f(x) == f(y));
    }
}

/// The column of d_1 for the edge `[t0, t1]`: `e_{t1} - e_{t0}`.
proof fn lemma_edge_column(t: Seq<usize>, n: nat, col: Seq<int>)
    requires
        n <= isize::MAX,
        t.len() == 2,
        t[0] < n,
        t[1] < n,
        col.len() == n,
        forall|r: int| 0 <= r < n ==> #[trigger] col[r] == incidence(seq![r as usize], t),
    ensures
        forall|y: Seq<int>| #[trigger] dot(y, col, n) == y[t[1] as int] - y[t[0] as int],
{
    let e1 = Seq::new(n, |r: int| if r == t[1] { 1int } else { 0int });
    let e0 = Seq::new(n, |r: int| if r == t[0] { 1int } else { 0int });
    assert forall|r: int| 0 <= r < n implies #[trigger] col[r] == e1[r] + (-1) * e0[r] by {
        let s = seq![r as usize];
        assert(s[0] == r);
        if t[1] == r {
            assert(t.remove(0) =~= s);
        } else {
            assert(t.remove(0)[0] != s[0]);
        }
        if t[0] == r {
            assert(t.remove(1) =~= s);
        } else {
            assert(t.remove(1)[0] != s[0]);
        }
        assert(incidence(s, t) == face_sign_sum(s, t, 2));
        assert(face_sign_sum(s, t, 1) == face_sign_sum(s, t, 0) + if t.remove(0) == s { 1int } else { 0int });
    }
    assert forall|y: Seq<int>| #[trigger] dot(y, col, n) == y[t[1] as int] - y[t[0] as int] by {
        lemma_dot_axpy_right(y, col, e1, e0, -1, n);
        lemma_dot_unit_right(y, e1, t[1] as int, n);
        lemma_dot_unit_right(y, e0, t[0] as int, n);
    }
}

/// Column `j` of `d1` is `e_{t1} - e_{t0}` for the joined pair `t = l1[j]`.
pub open spec fn edge_col(ids: Seq<Seq<char>>, conns: Seq<Connection>, l1: Seq<Seq<usize>>, d1: Mat, n: nat, j: int) -> bool {
    let t = l1[j];
    &&& t.len() == 2 && t[0] < n && t[1] < n
    &&& adjacent(ids, conns, t[0] as int, t[1] as int)
    &&& forall|y: Seq<int>| #[trigger] dot(y, d1.column(j), n) == y[t[1] as int] - y[t[0] as int]
}

/// The rank of d_1 of a clique complex is the number of agents less the
/// number of components.
pub proof fn lemma_d1_rank(
    ids: Seq<Seq<char>>,
    conns: Seq<Connection>,
    max_dim: nat,
    levels: Seq<Seq<Seq<usize>>>,
    comps: Seq<Seq<Seq<char>>>,
)
    requires
        is_clique_complex(ids, conns, max_dim, levels),
        ids.len() <= isize::MAX,
        is_component_split(ids, conns, comps),
        smith_witnessed(complex_maps(levels)[0]),
    ensures
        map_rank(complex_maps(levels)[0]) == ids.len() - comps.len(),
{
    let n = ids.len();
    lemma_level0_canonical(ids, conns, max_dim, levels);
    let members = choose|members: Seq<Seq<int>>| #[trigger] splits_by(ids, conns, members, comps);
    let d1 = complex_maps(levels)[0];
    assert(d1 == boundary_mat(levels, 0));
    let l0 = levels[0];
    let l1 = levels[1];
    assert(level_or_empty(levels, 0) == l0);
    assert(level_or_empty(levels, 1) == l1);
    assert(d1.rows == n);
    let c = members.len();
    let comp = |x: int| class_of(members, x);
    let rep = |k: int| members[k][0];
    assert forall|x: int| 0 <= x < d1.rows implies 0 <= #[trigger] comp(x) < c by {
        lemma_class_of(ids, conns, members, comps, x);
    }
    assert forall|k: int| 0 <= k < c implies 0 <= #[trigger] rep(k) < d1.rows && comp(rep(k)) == k by {
        assert(members[k].len() > 0);
        lemma_class_of(ids, conns, members, comps, rep(k));
        let kk = class_of(members, rep(k));
        let p = choose|p: int| 0 <= p < members[kk].len() && #[trigger] members[kk][p] == rep(k);
        assert(connected(ids, conns, members[k][0], members[kk][p]) <==> k == kk);
        assert(connected(ids, conns, rep(k), rep(k)));
    }
    // every column is e_{t1} - e_{t0} for an edge [t0, t1]
    assert forall|j: int| 0 <= j < d1.cols implies #[trigger] edge_col(ids, conns, l1, d1, n, j) by {
        let t = l1[j];
        assert(l1.contains(t));
        let c0 = choose|c: int| 0 <= c < conns.len() && #[trigger] joins(ids, conns[c], t[0] as int, t[1] as int);
        crate::network::lemma_last_index_bound(ids, conns[c0].from@);
        crate::network::lemma_last_index_bound(ids, conns[c0].to@);
        assert forall|r: int| 0 <= r < n implies #[trigger] d1.column(j)[r] == incidence(seq![r as usize], t) by {
            assert(l0[r] == seq![r as usize]);
        }
        lemma_edge_column(t, n, d1.column(j));
    }
    // columns sum to zero on each class
    assert forall|k: int, j: int| 0 <= k < c && 0 <= j < d1.cols implies #[trigger] dot(indicator(comp, k, d1.rows), d1.column(j), d1.rows) == 0 by {
        let t = l1[j];
        assert(edge_col(ids, conns, l1, d1, n, j));
        lemma_adjacent_connected(ids, conns, t[0] as int, t[1] as int);
        lemma_class_connected(ids, conns, members, comps, t[0] as int, t[1] as int);
        let ind = indicator(comp, k, d1.rows);
        assert(dot(ind, d1.column(j), n) == ind[t[1] as int] - ind[t[0] as int]);
    }
    // a vector that vanishes on every column is constant on each class
    assert forall|y: Seq<int>| y.len() == d1.rows && (forall|j: int| 0 <= j < d1.cols ==> #[trigger] dot(y, d1.column(j), d1.rows) == 0)
        implies forall|x1: int, x2: int| 0 <= x1 < d1.rows && 0 <= x2 < d1.rows && comp(x1) == comp(x2) ==> #[trigger] y[x1] == #[trigger] y[x2] by {
        let f = |x: int| y[x];
        assert forall|cc: int| 0 <= cc < conns.len() implies {
            let a = last_index(ids, (#[trigger] conns[cc]).from@);
            let b = last_index(ids, conns[cc].to@);
            a >= 0 && b >= 0 ==> f(a) == f(b)
        } by {
            let a = last_index(ids, conns[cc].from@);
            let b = last_index(ids, conns[cc].to@);
            if a >= 0 && b >= 0 {
                crate::network::lemma_last_index_bound(ids, conns[cc].from@);
                crate::network::lemma_last_index_bound(ids, conns[cc].to@);
                let lo = if a <= b { a } else { b };
                let hi = if a <= b { b } else { a };
                assert(joins(ids, conns[cc], lo, hi));
                assert(adjacent(ids, conns, lo, hi));
                let t = seq![lo as usize, hi as usize];
                assert(l1.contains(t));
                let j = choose|j: int| 0 <= j < l1.len() && l1[j] == t;
                assert(edge_col(ids, conns, l1, d1, n, j));
                assert(dot(y, d1.column(j), n) == y[hi] - y[lo]);
            }
        }
        assert(respects(ids, conns, f));
        assert forall|x1: int, x2: int| 0 <= x1 < d1.rows && 0 <= x2 < d1.rows && comp(x1) == comp(x2) implies #[trigger] y[x1] == #[trigger] y[x2] by {
            lemma_class_connected(ids, conns, members, comps, x1, x2);
            assert(f(x1) == f(x2));
        }
    }
    let (u, v) = choose|u: Mat, v: Mat| #[trigger] crate::smith::is_smith_form(d1, u, snf_diag(d1), v);
    lemma_rank_by_classes(d1, u, snf_diag(d1), v, c, comp, rep);
}

/// H_0 of the clique complex of a network has as free rank the number of
/// connected components of the network.
pub proof fn lemma_network_h0(
    ids: Seq<Seq<char>>,
    conns: Seq<Connection>,
    max_dim: nat,
    hs: Seq<HomologyGroup>,
    comps: Seq<Seq<Seq<char>>>,
)
    requires
        network_homology_spec(ids, conns, max_dim, hs),
        0 < ids.len() <= isize::MAX,
        is_component_split(ids, conns, comps),
    ensures
        hs.len() > 0,
        hs[0].free_rank == comps.len(),
{
    let levels = choose|levels: Seq<Seq<Seq<usize>>>| #[trigger] is_clique_complex(ids, conns, max_dim, levels)
        && crate::network::clique_homology(max_dim, levels, hs);
    let ranks = complex_ranks(levels);
    let maps = complex_maps(levels);
    lemma_level0_canonical(ids, conns, max_dim, levels);
    assert(levels.len() >= 2);
    assert(level_or_empty(levels, 0) == levels[0]);
    assert(ranks[0] == ids.len());
    assert(rank_at(ranks, 0) == ids.len());
    assert(is_computed_homology(ranks, maps, 0, hs[0]));
    assert(homology_witnessed(ranks, maps, 0));
    assert(maps.len() >= 1);
    lemma_d1_rank(ids, conns, max_dim, levels, comps);
    crate::chain_complex::lemma_map_rank_bound(maps[0]);
    let ker = kernel_of(ranks, maps, 0);
    let img = image_of(maps, 0);
    assert(ker == ids.len());
    assert(img == ids.len() - comps.len());
    let members = choose|members: Seq<Seq<int>>| #[trigger] splits_by(ids, conns, members, comps);
    assert(ker as usize as i64 == ker);
    assert(img as usize as i64 == img);
}

} // verus!
