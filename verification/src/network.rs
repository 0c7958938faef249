//! Agent network topology analysis using algebraic topology.

use vstd::prelude::*;
use std::collections::HashMap;
use crate::chain_complex::{
    ChainComplex, HomologyGroup, betti_of, computed_betti, homology_fits, homology_needs_no_reduction, homology_witnessed, is_computed_homology,
    is_homology,
    rank_at,
};
use crate::euler::{as_i64, betti_sum, betti_sum_fits, euler_from_betti};
use crate::text::{decimal, push_decimal, push_signed, signed_decimal};
use crate::matrix::{ZMatrix, group_zmatrix, lemma_mat_ext, mk};
use crate::simplicial::{
    boundary_mat, closed_under_faces, complex_maps, complex_ranks, copy_usizes, face_sign_sum, find_slot, has, incidence,
    lemma_boundary_of_boundary, lemma_lex_asymmetric, lemma_sorted_distinct, level_or_empty, levels_of, levels_shape,
    lex_lt_at, lex_sorted, level_insert, remove_copy, strictly_sorted, top_dimension, vviews,
};
use crate::chain_complex::is_zero_mat;
use crate::matrix::mat_mul;

verus! {

broadcast use group_zmatrix;

/// An agent in the network.
#[derive(Clone, Debug)]
pub struct Agent {
    /// Agent identifier.
    pub id: String,
    /// Metadata.
    pub metadata: HashMap<String, String>,
}

/// A connection between agents.
#[derive(Clone, Debug)]
pub struct Connection {
    /// Source agent.
    pub from: String,
    /// Target agent.
    pub to: String,
}

/// An agent network topology.
#[derive(Clone, Debug)]
pub struct AgentNetwork {
    /// Agents (vertices).
    pub agents: Vec<Agent>,
    /// Connections (edges).
    pub connections: Vec<Connection>,
    /// Whether connections are bidirectional.
    pub bidirectional: bool,
}

/// The identifiers of the agents, in order.
pub open spec fn agent_ids(agents: Seq<Agent>) -> Seq<Seq<char>> {
    Seq::new(agents.len(), |i: int| agents[i].id@)
}

/// The position of the last agent with identifier `name`, or -1 where there
/// is none: a name stands for the last agent that carries it.
pub open spec fn last_index(ids: Seq<Seq<char>>, name: Seq<char>) -> int
    decreases ids.len(),
{
    if ids.len() == 0 {
        -1
    } else if ids.last() == name {
        ids.len() - 1
    } else {
        last_index(ids.drop_last(), name)
    }
}

/// The connection joins the agents at positions `u` and `v` (either way).
pub open spec fn joins(ids: Seq<Seq<char>>, c: Connection, u: int, v: int) -> bool {
    let a = last_index(ids, c.from@);
    let b = last_index(ids, c.to@);
    &&& a >= 0
    &&& b >= 0
    &&& ((a == u && b == v) || (a == v && b == u))
}

/// `f` takes the same value at both ends of every connection between
/// agents.
pub open spec fn respects(ids: Seq<Seq<char>>, conns: Seq<Connection>, f: spec_fn(int) -> int) -> bool {
    forall|c: int| 0 <= c < conns.len() ==> {
        let a = last_index(ids, (#[trigger] conns[c]).from@);
        let b = last_index(ids, conns[c].to@);
        a >= 0 && b >= 0 ==> f(a) == f(b)
    }
}

/// The agents at positions `i` and `j` lie in one connected component:
/// every function that agrees across each connection agrees on them.
pub open spec fn connected(ids: Seq<Seq<char>>, conns: Seq<Connection>, i: int, j: int) -> bool {
    forall|f: spec_fn(int) -> int| #[trigger] respects(ids, conns, f) ==> f(i) == f(j)
}

/// `members` splits the agent positions into the connected components: each
/// component listed once, its positions increasing, the components in the
/// order of their first positions, every position in one of them; `comps`
/// holds the identifiers at these positions.
pub open spec fn splits_by(ids: Seq<Seq<char>>, conns: Seq<Connection>, members: Seq<Seq<int>>, comps: Seq<Seq<Seq<char>>>) -> bool {
    &&& comps.len() == members.len()
    &&& forall|k: int| 0 <= k < members.len() ==> {
        &&& (#[trigger] members[k]).len() > 0
        &&& comps[k].len() == members[k].len()
        &&& forall|p: int| 0 <= p < members[k].len() ==> 0 <= #[trigger] members[k][p] < ids.len()
        &&& forall|p: int| 0 <= p < members[k].len() ==> comps[k][p] == ids[#[trigger] members[k][p]]
        &&& forall|p: int, q: int| 0 <= p < q < members[k].len() ==> members[k][p] < members[k][q]
    }
    &&& forall|k: int, l: int| 0 <= k < l < members.len() ==> (#[trigger] members[k])[0] < (#[trigger] members[l])[0]
    &&& forall|i: int| 0 <= i < ids.len() ==> #[trigger] listed(members, i)
    &&& forall|k: int, p: int, l: int, q: int|
        0 <= k < members.len() && 0 <= p < members[k].len() && 0 <= l < members.len() && 0 <= q < members[l].len() ==>
            (connected(ids, conns, #[trigger] members[k][p], #[trigger] members[l][q]) <==> k == l)
}

/// The position `i` is one of `members`.
pub open spec fn listed(members: Seq<Seq<int>>, i: int) -> bool {
    exists|k: int, p: int| 0 <= k < members.len() && 0 <= p < members[k].len() && #[trigger] members[k][p] == i
}

/// `comps` lists the connected components of the agents, as the identifiers
/// of their agents.
pub open spec fn is_component_split(ids: Seq<Seq<char>>, conns: Seq<Connection>, comps: Seq<Seq<Seq<char>>>) -> bool {
    exists|members: Seq<Seq<int>>| #[trigger] splits_by(ids, conns, members, comps)
}

/// The views of a list of lists of strings.
pub open spec fn string_lists(v: Seq<Vec<String>>) -> Seq<Seq<Seq<char>>> {
    Seq::new(v.len(), |k: int| Seq::new(v[k]@.len(), |p: int| v[k]@[p]@))
}

pub(crate) proof fn lemma_last_index_bound(ids: Seq<Seq<char>>, name: Seq<char>)
    ensures
        -1 <= last_index(ids, name) < ids.len(),
        last_index(ids, name) >= 0 ==> ids[last_index(ids, name)] == name,
    decreases ids.len(),
{
    if ids.len() > 0 && ids.last() != name {
        lemma_last_index_bound(ids.drop_last(), name);
    }
}

proof fn lemma_last_index(ids: Seq<Seq<char>>, name: Seq<char>, i: int)
    requires
        -1 <= i < ids.len(),
        i >= 0 ==> ids[i] == name,
        forall|j: int| i < j < ids.len() ==> #[trigger] ids[j] != name,
    ensures
        last_index(ids, name) == i,
    decreases ids.len(),
{
    if ids.len() > 0 && i < ids.len() - 1 {
        assert(ids.last() != name);
        let t = ids.drop_last();
        assert forall|j: int| i < j < t.len() implies #[trigger] t[j] != name by {
            assert(ids[j] != name);
        }
        lemma_last_index(t, name, i);
    }
}

impl AgentNetwork {
    /// Create a new empty network.
    pub fn new() -> (net: Self)
        ensures
            net.agents@.len() == 0,
            net.connections@.len() == 0,
            net.bidirectional,
    {
        AgentNetwork { agents: Vec::new(), connections: Vec::new(), bidirectional: true }
    }

    /// Add an agent.
    pub fn add_agent(&mut self, id: &str)
        ensures
            final(self).agents@.len() == old(self).agents@.len() + 1,
            final(self).agents@.drop_last() == old(self).agents@,
            final(self).agents@.last().id@ == id@,
            final(self).agents@.last().metadata@ == Map::<String, String>::empty(),
            final(self).connections@ == old(self).connections@,
            final(self).bidirectional == old(self).bidirectional,
    {
        self.agents.push(Agent { id: String::from_str(id), metadata: HashMap::new() });
        assert(self.agents@.drop_last() =~= old(self).agents@);
    }

    /// Add a connection.
    pub fn connect(&mut self, from: &str, to: &str)
        ensures
            final(self).connections@.len() == old(self).connections@.len() + 1,
            final(self).connections@.drop_last() == old(self).connections@,
            final(self).connections@.last().from@ == from@,
            final(self).connections@.last().to@ == to@,
            final(self).agents@ == old(self).agents@,
            final(self).bidirectional == old(self).bidirectional,
    {
        self.connections.push(Connection { from: String::from_str(from), to: String::from_str(to) });
        assert(self.connections@.drop_last() =~= old(self).connections@);
    }

    /// The position of the last agent named `name`.
    fn agent_index(&self, name: &String) -> (r: Option<usize>)
        ensures
            match r {
                Some(i) => i == last_index(agent_ids(self.agents@), name@) && i < self.agents@.len(),
                None => last_index(agent_ids(self.agents@), name@) == -1,
            },
    {
        let ghost ids = agent_ids(self.agents@);
        let mut i = self.agents.len();
        while i > 0
            invariant
                i <= self.agents@.len(),
                ids == agent_ids(self.agents@),
                forall|j: int| i <= j < ids.len() ==> #[trigger] ids[j] != name@,
            decreases i,
        {
            if self.agents[i - 1].id == *name {
                proof {
                    lemma_last_index(ids, name@, i - 1);
                }
                return Some(i - 1);
            }
            i -= 1;
        }
        proof {
            lemma_last_index(ids, name@, -1);
        }
        None
    }
}

/// The labelling as a function on positions.
pub open spec fn label_fn(label: Seq<usize>) -> spec_fn(int) -> int {
    |i: int| label[i] as int
}

/// Agents sharing a label share the value of every function that agrees
/// across each connection.
pub open spec fn labels_minimal(ids: Seq<Seq<char>>, conns: Seq<Connection>, label: Seq<usize>) -> bool {
    forall|f: spec_fn(int) -> int| #[trigger] respects(ids, conns, f) ==> forall|i: int, j: int|
        0 <= i < label.len() && 0 <= j < label.len() && #[trigger] label[i] == #[trigger] label[j] ==> f(i) == f(j)
}

/// `label` names the connected components: agents joined by a connection
/// share a label, and a label only groups agents that are connected.
pub open spec fn is_component_labelling(ids: Seq<Seq<char>>, conns: Seq<Connection>, label: Seq<usize>) -> bool {
    &&& label.len() == ids.len()
    &&& forall|i: int| 0 <= i < label.len() ==> #[trigger] label[i] < label.len()
    &&& respects(ids, conns, label_fn(label))
    &&& labels_minimal(ids, conns, label)
}

proof fn lemma_respects_prefix(ids: Seq<Seq<char>>, conns: Seq<Connection>, c: int, f: spec_fn(int) -> int)
    requires
        0 <= c < conns.len(),
        respects(ids, conns.take(c + 1), f),
    ensures
        respects(ids, conns.take(c), f),
{
    assert forall|d: int| 0 <= d < conns.take(c).len() implies {
        let a = last_index(ids, (#[trigger] conns.take(c)[d]).from@);
        let b = last_index(ids, conns.take(c)[d].to@);
        a >= 0 && b >= 0 ==> f(a) == f(b)
    } by {
        assert(conns.take(c)[d] == conns.take(c + 1)[d]);
    }
}

proof fn lemma_connected_iff_label(ids: Seq<Seq<char>>, conns: Seq<Connection>, label: Seq<usize>, x: int, y: int)
    requires
        is_component_labelling(ids, conns, label),
        0 <= x < label.len(),
        0 <= y < label.len(),
    ensures
        connected(ids, conns, x, y) <==> label[x] == label[y],
{
    if connected(ids, conns, x, y) {
        assert(respects(ids, conns, label_fn(label)));
        assert(label_fn(label)(x) == label_fn(label)(y));
    }
    if label[x] == label[y] {
        assert forall|f: spec_fn(int) -> int| #[trigger] respects(ids, conns, f) implies f(x) == f(y) by {}
    }
}

/// Merges the class of `a` into that of `b`: every entry equal to
/// `label[a]` becomes `label[b]`.
fn merge_labels(label: &mut Vec<usize>, a: usize, b: usize)
    requires
        a < old(label)@.len(),
        b < old(label)@.len(),
    ensures
        final(label)@.len() == old(label)@.len(),
        forall|i: int| 0 <= i < old(label)@.len() ==> #[trigger] final(label)@[i]
            == if old(label)@[i] == old(label)@[a as int] { old(label)@[b as int] } else { old(label)@[i] },
{
    let la = label[a];
    let lb = label[b];
    if la != lb {
        let len = label.len();
        for k in 0..len
            invariant
                len == old(label)@.len(),
                label@.len() == old(label)@.len(),
                la == old(label)@[a as int],
                lb == old(label)@[b as int],
                forall|i: int| 0 <= i < k ==> #[trigger] label@[i]
                    == if old(label)@[i] == la { lb } else { old(label)@[i] },
                forall|i: int| k <= i < label@.len() ==> #[trigger] label@[i] == old(label)@[i],
        {
            if label[k] == la {
                label.set(k, lb);
            }
        }
    }
}

/// After merging at a connection joining `a` and `b`, the labelling names the
/// components of one more connection.
proof fn lemma_merge_step(
    ids: Seq<Seq<char>>,
    conns: Seq<Connection>,
    c: int,
    old_label: Seq<usize>,
    new_label: Seq<usize>,
    a: int,
    b: int,
)
    requires
        0 <= c < conns.len(),
        is_component_labelling(ids, conns.take(c), old_label),
        0 <= a < old_label.len(),
        0 <= b < old_label.len(),
        a == last_index(ids, conns[c].from@),
        b == last_index(ids, conns[c].to@),
        new_label.len() == old_label.len(),
        forall|i: int| 0 <= i < old_label.len() ==> #[trigger] new_label[i]
            == if old_label[i] == old_label[a] { old_label[b] } else { old_label[i] },
    ensures
        is_component_labelling(ids, conns.take(c + 1), new_label),
        new_label[a] == new_label[b],
{
    let next = conns.take(c + 1);
    let prev = conns.take(c);
    assert forall|d: int| 0 <= d < next.len() implies {
        let x = last_index(ids, (#[trigger] next[d]).from@);
        let y = last_index(ids, next[d].to@);
        x >= 0 && y >= 0 ==> label_fn(new_label)(x) == label_fn(new_label)(y)
    } by {
        if d < c {
            assert(next[d] == prev[d]);
            let x = last_index(ids, prev[d].from@);
            let y = last_index(ids, prev[d].to@);
            lemma_last_index_bound(ids, prev[d].from@);
            lemma_last_index_bound(ids, prev[d].to@);
            if x >= 0 && y >= 0 {
                assert(label_fn(old_label)(x) == label_fn(old_label)(y));
                assert(new_label[x] == if old_label[x] == old_label[a] { old_label[b] } else { old_label[x] });
                assert(new_label[y] == if old_label[y] == old_label[a] { old_label[b] } else { old_label[y] });
            }
        } else {
            assert(next[d] == conns[c]);
            assert(new_label[a] == old_label[b]);
            assert(new_label[b] == old_label[b]);
        }
    }
    assert(new_label[a] == old_label[b]);
    assert(new_label[b] == old_label[b]);
    assert forall|f: spec_fn(int) -> int| #[trigger] respects(ids, next, f) implies forall|i: int, j: int|
        0 <= i < new_label.len() && 0 <= j < new_label.len() && #[trigger] new_label[i] == #[trigger] new_label[j] ==> f(i) == f(j) by {
        lemma_respects_prefix(ids, conns, c, f);
        assert(respects(ids, prev, f));
        assert(next[c] == conns[c]);
        assert(f(a) == f(b));
        assert forall|i: int, j: int|
            0 <= i < new_label.len() && 0 <= j < new_label.len() && #[trigger] new_label[i] == #[trigger] new_label[j] implies f(i) == f(j) by {
            if old_label[i] == old_label[j] {
            } else {
                if old_label[i] == old_label[a] {
                    assert(f(i) == f(a));
                    assert(old_label[j] == old_label[b]);
                    assert(f(j) == f(b));
                } else {
                    assert(old_label[j] == old_label[a]);
                    assert(f(j) == f(a));
                    assert(old_label[i] == old_label[b]);
                    assert(f(i) == f(b));
                }
            }
        }
    }
}

impl AgentNetwork {
    /// A label for each agent, shared exactly by the agents of one connected
    /// component.
    fn component_labels(&self) -> (label: Vec<usize>)
        ensures
            is_component_labelling(agent_ids(self.agents@), self.connections@, label@),
    {
        let ghost ids = agent_ids(self.agents@);
        let ghost conns = self.connections@;
        let n = self.agents.len();
        let mut label: Vec<usize> = Vec::new();
        for i in 0..n
            invariant
                n == ids.len(),
                label@.len() == i,
                forall|j: int| 0 <= j < i ==> #[trigger] label@[j] == j,
        {
            label.push(i);
        }
        proof {
            assert(conns.take(0) =~= Seq::<Connection>::empty());
            assert forall|f: spec_fn(int) -> int| #[trigger] respects(ids, conns.take(0), f) implies forall|i: int, j: int|
                0 <= i < label@.len() && 0 <= j < label@.len() && #[trigger] label@[i] == #[trigger] label@[j] ==> f(i) == f(j) by {}
        }
        for c in 0..self.connections.len()
            invariant
                ids == agent_ids(self.agents@),
                conns == self.connections@,
                n == ids.len(),
                is_component_labelling(ids, conns.take(c as int), label@),
        {
            let ia = self.agent_index(&self.connections[c].from);
            let ib = self.agent_index(&self.connections[c].to);
            match (ia, ib) {
                (Some(a), Some(b)) => {
                    let ghost before = label@;
                    merge_labels(&mut label, a, b);
                    proof {
                        lemma_merge_step(ids, conns, c as int, before, label@, a as int, b as int);
                    }
                    if self.bidirectional {
                        let ghost mid = label@;
                        merge_labels(&mut label, a, b);
                        assert(label@ =~= mid);
                    }
                },
                _ => {
                    proof {
                        let next = conns.take(c + 1);
                        let prev = conns.take(c as int);
                        assert forall|d: int| 0 <= d < next.len() implies {
                            let x = last_index(ids, (#[trigger] next[d]).from@);
                            let y = last_index(ids, next[d].to@);
                            x >= 0 && y >= 0 ==> label_fn(label@)(x) == label_fn(label@)(y)
                        } by {
                            if d < c {
                                assert(next[d] == prev[d]);
                                let x = last_index(ids, prev[d].from@);
                                let y = last_index(ids, prev[d].to@);
                            }
                        }
                        assert forall|f: spec_fn(int) -> int| #[trigger] respects(ids, next, f) implies forall|i: int, j: int|
                            0 <= i < label@.len() && 0 <= j < label@.len() && #[trigger] label@[i] == #[trigger] label@[j] ==> f(i) == f(j) by {
                            lemma_respects_prefix(ids, conns, c as int, f);
                        }
                    }
                },
            }
        }
        assert(conns.take(conns.len() as int) =~= conns);
        label
    }
}

fn position_of(v: &Vec<usize>, x: usize) -> (r: Option<usize>)
    ensures
        match r {
            Some(k) => k < v@.len() && v@[k as int] == x,
            None => forall|k: int| 0 <= k < v@.len() ==> #[trigger] v@[k] != x,
        },
{
    for k in 0..v.len()
        invariant
            forall|j: int| 0 <= j < k ==> #[trigger] v@[j] != x,
    {
        if v[k] == x {
            return Some(k);
        }
    }
    None
}

impl AgentNetwork {
    /// Compute connected components: the identifiers of the agents of each
    /// component, in agent order, the components in the order of their
    /// first agents.
    pub fn connected_components(&self) -> (comps: Vec<Vec<String>>)
        ensures
            is_component_split(agent_ids(self.agents@), self.connections@, string_lists(comps@)),
    {
        let ghost ids = agent_ids(self.agents@);
        let ghost conns = self.connections@;
        let label = self.component_labels();
        let n = self.agents.len();
        let mut comps: Vec<Vec<String>> = Vec::new();
        let mut comp_label: Vec<usize> = Vec::new();
        let ghost mut members: Seq<Seq<int>> = seq![];
        for i in 0..n
            invariant
                n == ids.len(),
                ids == agent_ids(self.agents@),
                label@.len() == n,
                is_component_labelling(ids, conns, label@),
                comps@.len() == members.len(),
                comp_label@.len() == members.len(),
                forall|k: int| 0 <= k < members.len() ==> {
                    &&& (#[trigger] members[k]).len() > 0
                    &&& comps@[k]@.len() == members[k].len()
                    &&& forall|p: int| 0 <= p < members[k].len() ==> 0 <= #[trigger] members[k][p] < i
                    &&& forall|p: int| 0 <= p < members[k].len() ==> comps@[k]@[p]@ == ids[#[trigger] members[k][p]]
                    &&& forall|p: int, q: int| 0 <= p < q < members[k].len() ==> members[k][p] < members[k][q]
                    &&& forall|p: int| 0 <= p < members[k].len() ==> label@[#[trigger] members[k][p]] == comp_label@[k]
                },
                forall|k: int, l: int| 0 <= k < l < members.len() ==> (#[trigger] members[k])[0] < (#[trigger] members[l])[0],
                forall|k: int, l: int| 0 <= k < l < members.len() ==> #[trigger] comp_label@[k] != #[trigger] comp_label@[l],
                forall|x: int| 0 <= x < i ==> #[trigger] listed(members, x),
        {
            let l = label[i];
            let id = self.agents[i].id.clone();
            assert(id@ == ids[i as int]);
            match position_of(&comp_label, l) {
                Some(k) => {
                    let ghost old_comps = comps@;
                    let ghost old_members = members;
                    let mut group = comps.remove(k);
                    group.push(id);
                    comps.insert(k, group);
                    proof {
                        members = members.update(k as int, members[k as int].push(i as int));
                        assert forall|x: int| 0 <= x < i + 1 implies #[trigger] listed(members, x) by {
                            if x < i {
                                assert(listed(old_members, x));
                                let (k2, p2) = choose|k2: int, p2: int| 0 <= k2 < old_members.len()
                                    && 0 <= p2 < old_members[k2].len() && #[trigger] old_members[k2][p2] == x;
                                assert(members[k2][p2] == x);
                            } else {
                                assert(members[k as int][old_members[k as int].len() as int] == x);
                            }
                        }
                        assert forall|k2: int| 0 <= k2 < members.len() && k2 != k implies
                            #[trigger] comps@[k2] == old_comps[k2] by {}
                    }
                },
                None => {
                    let ghost old_members = members;
                    comp_label.push(l);
                    let mut group: Vec<String> = Vec::new();
                    group.push(id);
                    comps.push(group);
                    proof {
                        members = members.push(seq![i as int]);
                        assert forall|x: int| 0 <= x < i + 1 implies #[trigger] listed(members, x) by {
                            if x < i {
                                assert(listed(old_members, x));
                                let (k2, p2) = choose|k2: int, p2: int| 0 <= k2 < old_members.len()
                                    && 0 <= p2 < old_members[k2].len() && #[trigger] old_members[k2][p2] == x;
                                assert(members[k2][p2] == x);
                            } else {
                                assert(members[old_members.len() as int][0] == x);
                            }
                        }
                    }
                },
            }
        }
        proof {
            let comps_v = string_lists(comps@);
            assert forall|k: int, p: int, l2: int, q: int|
                0 <= k < members.len() && 0 <= p < members[k].len() && 0 <= l2 < members.len() && 0 <= q < members[l2].len() implies
                    (connected(ids, conns, #[trigger] members[k][p], #[trigger] members[l2][q]) <==> k == l2) by {
                lemma_connected_iff_label(ids, conns, label@, members[k][p], members[l2][q]);
                if k < l2 {
                    assert(comp_label@[k] != comp_label@[l2]);
                } else if l2 < k {
                    assert(comp_label@[l2] != comp_label@[k]);
                }
            }
            assert(splits_by(ids, conns, members, comps_v));
        }
        comps
    }

    /// Number of connected components.
    pub fn num_components(&self) -> (n: usize)
        ensures
            exists|comps: Seq<Seq<Seq<char>>>| #[trigger] is_component_split(agent_ids(self.agents@), self.connections@, comps)
                && n == comps.len(),
    {
        let comps = self.connected_components();
        comps.len()
    }

    /// Check if network is fully connected: it has exactly one component.
    pub fn is_connected_when_complete(&self) -> (b: bool)
        ensures
            exists|comps: Seq<Seq<Seq<char>>>| #[trigger] is_component_split(agent_ids(self.agents@), self.connections@, comps)
                && b == (comps.len() == 1),
    {
        self.num_components() == 1
    }
}

/// The agents at positions `u` and `v` are joined by some connection.
pub open spec fn adjacent(ids: Seq<Seq<char>>, conns: Seq<Connection>, u: int, v: int) -> bool {
    exists|c: int| 0 <= c < conns.len() && #[trigger] joins(ids, conns[c], u, v)
}

/// `edges` lists, as `(smaller, larger)` pairs, exactly the pairs of agents
/// joined by a connection.
pub open spec fn edges_ok(ids: Seq<Seq<char>>, conns: Seq<Connection>, edges: Seq<(usize, usize)>) -> bool {
    &&& forall|e: int| 0 <= e < edges.len() ==> (#[trigger] edges[e]).0 <= edges[e].1
        && adjacent(ids, conns, edges[e].0 as int, edges[e].1 as int)
    &&& forall|u: int, v: int| #[trigger] adjacent(ids, conns, u, v) && u <= v ==> exists|e: int|
        0 <= e < edges.len() && #[trigger] edges[e] == (u as usize, v as usize)
}

proof fn lemma_adjacent_symmetric(ids: Seq<Seq<char>>, conns: Seq<Connection>, u: int, v: int)
    ensures
        adjacent(ids, conns, u, v) <==> adjacent(ids, conns, v, u),
{
    if adjacent(ids, conns, u, v) {
        let c = choose|c: int| 0 <= c < conns.len() && #[trigger] joins(ids, conns[c], u, v);
        assert(joins(ids, conns[c], v, u));
    }
    if adjacent(ids, conns, v, u) {
        let c = choose|c: int| 0 <= c < conns.len() && #[trigger] joins(ids, conns[c], v, u);
        assert(joins(ids, conns[c], u, v));
    }
}

/// The vertices of `t` come in nondecreasing order.
pub open spec fn sorted_vertices(t: Seq<usize>) -> bool {
    forall|i: int, j: int| 0 <= i <= j < t.len() ==> t[i] <= t[j]
}

/// `t` is the simplex `s` grown by the agent `v`: `v` is not in `s` and is
/// joined to each vertex of `s`, and `t` is `s` with `v` put in its place.
pub open spec fn grows_by(ids: Seq<Seq<char>>, conns: Seq<Connection>, s: Seq<usize>, v: usize, t: Seq<usize>) -> bool {
    &&& v < ids.len()
    &&& !s.contains(v)
    &&& forall|m: int| 0 <= m < s.len() ==> #[trigger] adjacent(ids, conns, s[m] as int, v as int)
    &&& sorted_vertices(t)
    &&& exists|p: int| 0 <= p <= s.len() && t == #[trigger] s.insert(p, v)
}

/// `levels` holds the simplices of the clique complex of the network, in
/// lexicographic order, in the dimensions `0..=max(max_dim, 1)`: the
/// agents; the joined pairs; and in each higher dimension the simplices of
/// the one below grown by one agent joined to all their vertices.
pub open spec fn is_clique_complex(ids: Seq<Seq<char>>, conns: Seq<Connection>, max_dim: nat, levels: Seq<Seq<Seq<usize>>>) -> bool {
    &&& levels.len() == if max_dim >= 2 { max_dim + 1 } else { 2 }
    &&& forall|d: int| 0 <= d < levels.len() ==> lex_sorted(#[trigger] levels[d])
    &&& forall|t: Seq<usize>| #[trigger] levels[0].contains(t) <==> (t.len() == 1 && t[0] < ids.len())
    &&& forall|t: Seq<usize>| #[trigger] levels[1].contains(t)
        <==> (t.len() == 2 && t[0] <= t[1] && adjacent(ids, conns, t[0] as int, t[1] as int))
    &&& forall|d: int, t: Seq<usize>| 2 <= d < levels.len() ==> (#[trigger] levels[d].contains(t) <==> (t.len() == d + 1
        && exists|a: int, v: usize| 0 <= a < levels[d - 1].len() && #[trigger] grows_by(ids, conns, levels[d - 1][a], v, t)))
}

fn edge_in(edges: &Vec<(usize, usize)>, u: usize, v: usize) -> (b: bool)
    ensures
        b == exists|e: int| 0 <= e < edges@.len() && #[trigger] edges@[e] == (u, v),
{
    for e in 0..edges.len()
        invariant
            forall|f: int| 0 <= f < e ==> #[trigger] edges@[f] != (u, v),
    {
        let (a, b) = edges[e];
        if a == u && b == v {
            assert(edges@[e as int] == (u, v));
            return true;
        }
    }
    false
}

impl AgentNetwork {
    /// The joined pairs of agents, each as `(smaller, larger)`.
    fn edge_list(&self) -> (edges: Vec<(usize, usize)>)
        ensures
            edges_ok(agent_ids(self.agents@), self.connections@, edges@),
    {
        let ghost ids = agent_ids(self.agents@);
        let ghost conns = self.connections@;
        let mut edges: Vec<(usize, usize)> = Vec::new();
        for c in 0..self.connections.len()
            invariant
                ids == agent_ids(self.agents@),
                conns == self.connections@,
                forall|e: int| 0 <= e < edges@.len() ==> (#[trigger] edges@[e]).0 <= edges@[e].1
                    && adjacent(ids, conns, edges@[e].0 as int, edges@[e].1 as int),
                forall|d: int, u: int, v: int| 0 <= d < c && #[trigger] joins(ids, conns[d], u, v) && u <= v ==> exists|e: int|
                    0 <= e < edges@.len() && #[trigger] edges@[e] == (u as usize, v as usize),
        {
            let ia = self.agent_index(&self.connections[c].from);
            let ib = self.agent_index(&self.connections[c].to);
            let ghost before = edges@;
            if let (Some(a), Some(b)) = (ia, ib) {
                let lo = if a <= b { a } else { b };
                let hi = if a <= b { b } else { a };
                assert(joins(ids, conns[c as int], lo as int, hi as int));
                edges.push((lo, hi));
                assert(edges@[before.len() as int] == (lo, hi));
            }
            proof {
                assert forall|e: int| 0 <= e < edges@.len() implies (#[trigger] edges@[e]).0 <= edges@[e].1
                    && adjacent(ids, conns, edges@[e].0 as int, edges@[e].1 as int) by {
                    if e < before.len() {
                        assert(edges@[e] == before[e]);
                    } else {
                        assert(joins(ids, conns[c as int], edges@[e].0 as int, edges@[e].1 as int));
                    }
                }
                assert forall|d: int, u: int, v: int| 0 <= d < c + 1 && #[trigger] joins(ids, conns[d], u, v) && u <= v implies exists|e: int|
                    0 <= e < edges@.len() && #[trigger] edges@[e] == (u as usize, v as usize) by {
                    if d < c {
                        let e = choose|e: int| 0 <= e < before.len() && #[trigger] before[e] == (u as usize, v as usize);
                        assert(edges@[e] == before[e]);
                    } else {
                        lemma_last_index_bound(ids, conns[d].from@);
                        lemma_last_index_bound(ids, conns[d].to@);
                        assert(edges@[before.len() as int] == (u as usize, v as usize));
                    }
                }
            }
        }
        proof {
            assert forall|u: int, v: int| #[trigger] adjacent(ids, conns, u, v) && u <= v implies exists|e: int|
                0 <= e < edges@.len() && #[trigger] edges@[e] == (u as usize, v as usize) by {
                let d = choose|d: int| 0 <= d < conns.len() && #[trigger] joins(ids, conns[d], u, v);
            }
        }
        edges
    }
}

/// Whether the agents `u` and `v` are joined, read from the edge list.
fn joined(edges: &Vec<(usize, usize)>, u: usize, v: usize, Ghost(ids): Ghost<Seq<Seq<char>>>, Ghost(conns): Ghost<Seq<Connection>>) -> (b: bool)
    requires
        edges_ok(ids, conns, edges@),
    ensures
        b == adjacent(ids, conns, u as int, v as int),
{
    let lo = if u <= v { u } else { v };
    let hi = if u <= v { v } else { u };
    let r = edge_in(edges, lo, hi);
    proof {
        lemma_adjacent_symmetric(ids, conns, u as int, v as int);
        if r {
            let e = choose|e: int| 0 <= e < edges@.len() && #[trigger] edges@[e] == (lo, hi);
            assert(adjacent(ids, conns, edges@[e].0 as int, edges@[e].1 as int));
        }
        if adjacent(ids, conns, lo as int, hi as int) {
            assert(exists|e: int| 0 <= e < edges@.len() && #[trigger] edges@[e] == (lo as int as usize, hi as int as usize));
        }
    }
    r
}

/// Inserting a vertex not in a sorted list at either of two places that keep
/// the list sorted gives the same list.
proof fn lemma_sorted_insert_unique(s: Seq<usize>, v: usize, p: int, q: int)
    requires
        0 <= p <= s.len(),
        0 <= q <= s.len(),
        !s.contains(v),
        sorted_vertices(s.insert(p, v)),
        sorted_vertices(s.insert(q, v)),
    ensures
        s.insert(p, v) == s.insert(q, v),
{
    s.insert_ensures(p, v);
    s.insert_ensures(q, v);
    if p < q {
        assert(s.insert(q, v)[p] == s[p]);
        assert(s.insert(q, v)[q] == v);
        assert(s.insert(p, v)[p + 1] == s[p]);
        assert(s[p] == v);
        assert(false);
    } else if q < p {
        assert(s.insert(p, v)[q] == s[q]);
        assert(s.insert(p, v)[p] == v);
        assert(s.insert(q, v)[q + 1] == s[q]);
        assert(s[q] == v);
        assert(false);
    }
}

fn contains_vertex(s: &Vec<usize>, v: usize) -> (b: bool)
    ensures
        b == s@.contains(v),
{
    for i in 0..s.len()
        invariant
            forall|j: int| 0 <= j < i ==> s@[j] != v,
    {
        if s[i] == v {
            return true;
        }
    }
    false
}

/// `s` with `v` put after the entries no larger than it.
fn insert_vertex(s: &Vec<usize>, v: usize) -> (t: Vec<usize>)
    requires
        sorted_vertices(s@),
    ensures
        sorted_vertices(t@),
        exists|p: int| 0 <= p <= s@.len() && t@ == #[trigger] s@.insert(p, v),
{
    let mut p: usize = 0;
    while p < s.len() && s[p] <= v
        invariant
            p <= s@.len(),
            forall|i: int| 0 <= i < p ==> s@[i] <= v,
        decreases s.len() - p,
    {
        p += 1;
    }
    let mut t = copy_usizes(s);
    t.insert(p, v);
    proof {
        s@.insert_ensures(p as int, v);
        assert forall|i: int, j: int| 0 <= i <= j < t@.len() implies t@[i] <= t@[j] by {
            if j < p {
            } else if j == p {
                if i < p {
                    assert(s@[i] <= v);
                }
            } else if i < p {
                assert(s@[i] <= s@[j - 1]);
            } else if i == p {
                assert(p < s@.len());
                assert(s@[p as int] > v);
                assert(s@[p as int] <= s@[j - 1]);
            } else {
                assert(s@[i - 1] <= s@[j - 1]);
            }
        }
        assert(t@ == s@.insert(p as int, v));
    }
    t
}

/// Every vertex of `s` is joined to `v`.
fn joined_to_all(edges: &Vec<(usize, usize)>, s: &Vec<usize>, v: usize, Ghost(ids): Ghost<Seq<Seq<char>>>, Ghost(conns): Ghost<Seq<Connection>>) -> (b: bool)
    requires
        edges_ok(ids, conns, edges@),
    ensures
        b == forall|m: int| 0 <= m < s@.len() ==> #[trigger] adjacent(ids, conns, s@[m] as int, v as int),
{
    for m in 0..s.len()
        invariant
            edges_ok(ids, conns, edges@),
            forall|k: int| 0 <= k < m ==> #[trigger] adjacent(ids, conns, s@[k] as int, v as int),
    {
        if !joined(edges, s[m], v, Ghost(ids), Ghost(conns)) {
            return false;
        }
    }
    true
}

/// The simplices of dimension `dim` grown from those of `prev`, in
/// lexicographic order.
fn grow_level(
    prev: &Vec<Vec<usize>>,
    n: usize,
    dim: usize,
    edges: &Vec<(usize, usize)>,
    Ghost(ids): Ghost<Seq<Seq<char>>>,
    Ghost(conns): Ghost<Seq<Connection>>,
) -> (level: Vec<Vec<usize>>)
    requires
        edges_ok(ids, conns, edges@),
        n == ids.len(),
        forall|a: int| 0 <= a < prev@.len() ==> sorted_vertices(#[trigger] prev@[a]@),
    ensures
        lex_sorted(vviews(level@)),
        forall|t: Seq<usize>| #[trigger] vviews(level@).contains(t) <==> (t.len() == dim + 1
            && exists|a: int, v: usize| 0 <= a < prev@.len() && #[trigger] grows_by(ids, conns, vviews(prev@)[a], v, t)),
{
    let ghost pv = vviews(prev@);
    let mut level: Vec<Vec<usize>> = Vec::new();
    for a in 0..prev.len()
        invariant
            edges_ok(ids, conns, edges@),
            n == ids.len(),
            pv == vviews(prev@),
            forall|b: int| 0 <= b < prev@.len() ==> sorted_vertices(#[trigger] prev@[b]@),
            lex_sorted(vviews(level@)),
            forall|t: Seq<usize>| #[trigger] vviews(level@).contains(t) <==> (t.len() == dim + 1
                && exists|b: int, v: usize| 0 <= b < a && #[trigger] grows_by(ids, conns, pv[b], v, t)),
    {
        let s = &prev[a];
        assert(s@ == pv[a as int]);
        for v in 0..n
            invariant
                edges_ok(ids, conns, edges@),
                n == ids.len(),
                pv == vviews(prev@),
                s@ == pv[a as int],
                a < prev@.len(),
                sorted_vertices(s@),
                lex_sorted(vviews(level@)),
                forall|t: Seq<usize>| #[trigger] vviews(level@).contains(t) <==> (t.len() == dim + 1
                    && ((exists|b: int, w: usize| 0 <= b < a && #[trigger] grows_by(ids, conns, pv[b], w, t))
                        || (exists|w: usize| w < v && #[trigger] grows_by(ids, conns, pv[a as int], w, t)))),
        {
            let ghost before = vviews(level@);
            let mut added = false;
            let ghost mut tv: Seq<usize> = seq![];
            if !contains_vertex(s, v) {
                if joined_to_all(edges, s, v, Ghost(ids), Ghost(conns)) {
                    let t = insert_vertex(s, v);
                    if t.len() - 1 == dim {
                        proof {
                            tv = t@;
                        }
                        added = true;
                        level_insert(&mut level, t);
                    }
                }
            }
            proof {
                assert forall|t: Seq<usize>| #[trigger] grows_by(ids, conns, pv[a as int], v, t) && t.len() == dim + 1
                    implies added && t == tv by {
                    let p = choose|p: int| 0 <= p <= s@.len() && t == #[trigger] s@.insert(p, v);
                    let q = choose|q: int| 0 <= q <= s@.len() && tv == #[trigger] s@.insert(q, v);
                    lemma_sorted_insert_unique(s@, v, p, q);
                }
                assert forall|t: Seq<usize>| #[trigger] vviews(level@).contains(t) <==> (t.len() == dim + 1
                    && ((exists|b: int, w: usize| 0 <= b < a && #[trigger] grows_by(ids, conns, pv[b], w, t))
                        || (exists|w: usize| w < v + 1 && #[trigger] grows_by(ids, conns, pv[a as int], w, t)))) by {
                    if added && t == tv {
                        assert(grows_by(ids, conns, pv[a as int], v, t));
                    }
                    if exists|w: usize| w < v + 1 && #[trigger] grows_by(ids, conns, pv[a as int], w, t) {
                        let w = choose|w: usize| w < v + 1 && #[trigger] grows_by(ids, conns, pv[a as int], w, t);
                        if w < v {
                            assert(exists|w2: usize| w2 < v && #[trigger] grows_by(ids, conns, pv[a as int], w2, t));
                        }
                    }
                }
            }
        }
        proof {
            assert forall|t: Seq<usize>| #[trigger] vviews(level@).contains(t) <==> (t.len() == dim + 1
                && exists|b: int, v: usize| 0 <= b < a + 1 && #[trigger] grows_by(ids, conns, pv[b], v, t)) by {
                if exists|b: int, v: usize| 0 <= b < a + 1 && #[trigger] grows_by(ids, conns, pv[b], v, t) {
                    let (b, v) = choose|b: int, v: usize| 0 <= b < a + 1 && #[trigger] grows_by(ids, conns, pv[b], v, t);
                    if b == a {
                        assert(v < n);
                        assert(exists|w: usize| w < n && #[trigger] grows_by(ids, conns, pv[a as int], w, t));
                    } else {
                        assert(exists|b2: int, w: usize| 0 <= b2 < a && #[trigger] grows_by(ids, conns, pv[b2], w, t));
                    }
                }
                if exists|w: usize| w < n && #[trigger] grows_by(ids, conns, pv[a as int], w, t) {
                    let w = choose|w: usize| w < n && #[trigger] grows_by(ids, conns, pv[a as int], w, t);
                    assert(exists|b2: int, w2: usize| 0 <= b2 < a + 1 && #[trigger] grows_by(ids, conns, pv[b2], w2, t));
                }
                if exists|b: int, w: usize| 0 <= b < a && #[trigger] grows_by(ids, conns, pv[b], w, t) {
                    let (b, w) = choose|b: int, w: usize| 0 <= b < a && #[trigger] grows_by(ids, conns, pv[b], w, t);
                    assert(exists|b2: int, w2: usize| 0 <= b2 < a + 1 && #[trigger] grows_by(ids, conns, pv[b2], w2, t));
                }
            }
        }
    }
    level
}

impl AgentNetwork {
    /// The simplices of the clique complex of the network, each dimension in
    /// lexicographic order.
    fn clique_levels(&self, max_dim: usize) -> (levels: Vec<Vec<Vec<usize>>>)
        ensures
            is_clique_complex(agent_ids(self.agents@), self.connections@, max_dim as nat, levels_of(levels@)),
    {
        let ghost ids = agent_ids(self.agents@);
        let ghost conns = self.connections@;
        let n = self.agents.len();
        let edges = self.edge_list();
        // 0-simplices
        let mut s0: Vec<Vec<usize>> = Vec::new();
        for i in 0..n
            invariant
                n == ids.len(),
                s0@.len() == i,
                forall|j: int| 0 <= j < i ==> (#[trigger] s0@[j])@ == seq![j as usize],
        {
            let mut t: Vec<usize> = Vec::new();
            t.push(i);
            s0.push(t);
        }
        proof {
            let v0 = vviews(s0@);
            assert forall|i: int, j: int| 0 <= i < j < v0.len() implies crate::simplicial::lex_lt(#[trigger] v0[i], #[trigger] v0[j]) by {
                assert(lex_lt_at(v0[i], v0[j], 0));
            }
            assert forall|t: Seq<usize>| #[trigger] v0.contains(t) <==> (t.len() == 1 && t[0] < ids.len()) by {
                if t.len() == 1 && t[0] < ids.len() {
                    assert(v0[t[0] as int] =~= t);
                }
            }
        }
        // 1-simplices
        let mut s1: Vec<Vec<usize>> = Vec::new();
        for e in 0..edges.len()
            invariant
                edges_ok(ids, conns, edges@),
                lex_sorted(vviews(s1@)),
                forall|t: Seq<usize>| #[trigger] vviews(s1@).contains(t) <==> exists|f: int|
                    0 <= f < e && t == seq![edges@[f].0, edges@[f].1],
        {
            let (u, v) = edges[e];
            let mut t: Vec<usize> = Vec::new();
            t.push(u);
            t.push(v);
            assert(t@ =~= seq![edges@[e as int].0, edges@[e as int].1]);
            level_insert(&mut s1, t);
        }
        proof {
            assert forall|t: Seq<usize>| #[trigger] vviews(s1@).contains(t)
                <==> (t.len() == 2 && t[0] <= t[1] && adjacent(ids, conns, t[0] as int, t[1] as int)) by {
                if vviews(s1@).contains(t) {
                    let f = choose|f: int| 0 <= f < edges@.len() && t == seq![edges@[f].0, edges@[f].1];
                    assert(adjacent(ids, conns, edges@[f].0 as int, edges@[f].1 as int));
                }
                if t.len() == 2 && t[0] <= t[1] && adjacent(ids, conns, t[0] as int, t[1] as int) {
                    let f = choose|f: int| 0 <= f < edges@.len() && #[trigger] edges@[f] == (t[0] as int as usize, t[1] as int as usize);
                    assert(t =~= seq![edges@[f].0, edges@[f].1]);
                }
            }
        }
        let mut levels: Vec<Vec<Vec<usize>>> = Vec::new();
        levels.push(s0);
        levels.push(s1);
        proof {
            let lv = levels_of(levels@);
            assert(lv[0] == vviews(s0@));
            assert(lv[1] == vviews(s1@));
            assert forall|d: int, a: int| 0 <= d < levels@.len() && 0 <= a < levels@[d]@.len() implies
                sorted_vertices(#[trigger] levels@[d]@[a]@) by {
                if d == 0 {
                    assert(levels@[0]@[a]@ == seq![a as usize]);
                } else {
                    assert(vviews(s1@)[a] == levels@[1]@[a]@);
                    assert(vviews(s1@).contains(levels@[1]@[a]@));
                }
            }
        }
        if max_dim >= 2 {
            let mut dim: usize = 2;
            loop
                invariant_except_break
                    2 <= dim <= max_dim,
                    levels@.len() == dim,
                invariant
                    max_dim >= 2,
                    edges_ok(ids, conns, edges@),
                    n == ids.len(),
                    levels@.len() >= 2,
                    levels@.len() <= max_dim + 1,
                    levels_of(levels@)[0] == vviews(s0@),
                    levels_of(levels@)[1] == vviews(s1@),
                    forall|d: int| 0 <= d < levels@.len() ==> lex_sorted(#[trigger] levels_of(levels@)[d]),
                    forall|d: int, a: int| 0 <= d < levels@.len() && 0 <= a < levels@[d]@.len() ==> sorted_vertices(#[trigger] levels@[d]@[a]@),
                    forall|d: int, t: Seq<usize>| 2 <= d < levels@.len() ==> (#[trigger] levels_of(levels@)[d].contains(t) <==> (t.len() == d + 1
                        && exists|a: int, v: usize| 0 <= a < levels_of(levels@)[d - 1].len() && #[trigger] grows_by(ids, conns, levels_of(levels@)[d - 1][a], v, t))),
                ensures
                    levels@.len() == max_dim + 1,
                decreases max_dim - dim,
            {
                let ghost before = levels@;
                proof {
                    assert forall|a: int| 0 <= a < levels@[dim - 1]@.len() implies sorted_vertices(#[trigger] levels@[dim - 1]@[a]@) by {}
                }
                let level = grow_level(&levels[dim - 1], n, dim, &edges, Ghost(ids), Ghost(conns));
                let ghost lvl = vviews(level@);
                levels.push(level);
                proof {
                    let lv = levels_of(levels@);
                    assert forall|d: int| 0 <= d < before.len() implies #[trigger] lv[d] == levels_of(before)[d] by {
                        assert(levels@[d] == before[d]);
                    }
                    assert(lv[dim as int] == lvl);
                    assert(levels_of(before)[dim - 1] == vviews(before[dim - 1]@));
                    assert forall|d: int, t: Seq<usize>| 2 <= d < levels@.len() implies (#[trigger] lv[d].contains(t) <==> (t.len() == d + 1
                        && exists|a: int, v: usize| 0 <= a < lv[d - 1].len() && #[trigger] grows_by(ids, conns, lv[d - 1][a], v, t))) by {
                        if d < dim {
                            assert(lv[d] == levels_of(before)[d]);
                            assert(lv[d - 1] == levels_of(before)[d - 1]);
                        } else {
                            assert(lv[d - 1] == levels_of(before)[d - 1]);
                        }
                    }
                    assert forall|d: int, a: int| 0 <= d < levels@.len() && 0 <= a < levels@[d]@.len() implies sorted_vertices(#[trigger] levels@[d]@[a]@) by {
                        if d == dim {
                            assert(lvl.contains(levels@[d]@[a]@)) by {
                                assert(lvl[a] == levels@[d]@[a]@);
                            }
                            let (b, v) = choose|b: int, v: usize| 0 <= b < vviews(before[dim - 1]@).len()
                                && #[trigger] grows_by(ids, conns, vviews(before[dim - 1]@)[b], v, levels@[d]@[a]@);
                        } else {
                            assert(levels@[d] == before[d]);
                        }
                    }
                }
                if dim == max_dim {
                    break;
                }
                dim += 1;
            }
        }
        proof {
            let lv = levels_of(levels@);
            assert(lv[0] == vviews(s0@));
            assert(lv[1] == vviews(s1@));
        }
        levels
    }
}

/// A sum of `n` signs lies between `-n` and `n`.
proof fn lemma_face_sign_sum_bound(t: Seq<usize>, s: Seq<usize>, n: nat)
    ensures
        -(n as int) <= face_sign_sum(t, s, n) <= n,
    decreases n,
{
    if n > 0 {
        lemma_face_sign_sum_bound(t, s, (n - 1) as nat);
    }
}

/// The matrix whose entry `(r, j)` is the incidence number of `targets[r]`
/// in the boundary of `sources[j]`; `None` where an entry leaves the `i64`
/// range.
fn incidence_matrix(targets: &Vec<Vec<usize>>, sources: &Vec<Vec<usize>>) -> (res: Option<ZMatrix>)
    requires
        lex_sorted(vviews(targets@)),
    ensures
        res matches Some(m) ==> m@ == mk(targets@.len() as nat, sources@.len() as nat,
            |r: int, j: int| incidence(vviews(targets@)[r], vviews(sources@)[j])),
        (forall|j: int| 0 <= j < sources@.len() ==> #[trigger] sources@[j].len() <= i64::MAX) ==> res is Some,
{
    let ghost tv = vviews(targets@);
    let ghost sv = vviews(sources@);
    let ghost spec_m = mk(targets@.len() as nat, sources@.len() as nat, |r: int, j: int| incidence(tv[r], sv[j]));
    let mut mat = ZMatrix::zeros(targets.len(), sources.len());
    for j in 0..sources.len()
        invariant
            tv == vviews(targets@),
            sv == vviews(sources@),
            lex_sorted(tv),
            mat@.rows == tv.len(),
            mat@.cols == sv.len(),
            forall|r: int, c: int| 0 <= r < tv.len() && 0 <= c < sv.len() ==>
                #[trigger] mat@.e[r][c] == if c < j { incidence(tv[r], sv[c]) } else { 0 },
    {
        let simplex = &sources[j];
        assert(simplex@ == sv[j as int]);
        for i in 0..simplex.len()
            invariant
                tv == vviews(targets@),
                sv == vviews(sources@),
                simplex@ == sv[j as int],
                j < sv.len(),
                lex_sorted(tv),
                mat@.rows == tv.len(),
                mat@.cols == sv.len(),
                forall|r: int, c: int| 0 <= r < tv.len() && 0 <= c < sv.len() ==>
                    #[trigger] mat@.e[r][c] == if c < j { incidence(tv[r], sv[c]) } else if c == j {
                        face_sign_sum(tv[r], sv[c], i as nat)
                    } else { 0 },
        {
            let face = remove_copy(simplex, i);
            let (row, found) = find_slot(targets, &face);
            if found {
                let cur = mat.get(row, j);
                let sign: i64 = if i % 2 == 0 { 1 } else { -1 };
                match cur.checked_add(sign) {
                    Some(next) => {
                        mat.set_entry(row, j, next);
                    },
                    None => {
                        proof {
                            lemma_face_sign_sum_bound(tv[row as int], sv[j as int], i as nat);
                            assert(sources@[j as int].len() > i64::MAX);
                        }
                        return None;
                    },
                }
                proof {
                    assert forall|r: int, c: int| 0 <= r < tv.len() && 0 <= c < sv.len() implies
                        #[trigger] mat@.e[r][c] == if c < j { incidence(tv[r], sv[c]) } else if c == j {
                            face_sign_sum(tv[r], sv[c], (i + 1) as nat)
                        } else { 0 } by {
                        if c == j && r != row {
                            if sv[c].remove(i as int) == tv[r] {
                                lemma_sorted_distinct(tv, r, row as int);
                            }
                        }
                    }
                }
            } else {
                proof {
                    assert forall|r: int, c: int| 0 <= r < tv.len() && 0 <= c < sv.len() implies
                        #[trigger] mat@.e[r][c] == if c < j { incidence(tv[r], sv[c]) } else if c == j {
                            face_sign_sum(tv[r], sv[c], (i + 1) as nat)
                        } else { 0 } by {
                        if c == j {
                            if r < row {
                                lemma_lex_asymmetric(tv[r], face@);
                            } else {
                                lemma_lex_asymmetric(face@, tv[r]);
                            }
                        }
                    }
                }
            }
        }
    }
    proof {
        lemma_mat_ext(mat@, spec_m);
    }
    Some(mat)
}

/// Without connections, no level of the clique complex above the agents
/// holds a simplex.
proof fn lemma_unjoined_level_empty(ids: Seq<Seq<char>>, conns: Seq<Connection>, max_dim: nat, levels: Seq<Seq<Seq<usize>>>, d: int)
    requires
        is_clique_complex(ids, conns, max_dim, levels),
        conns.len() == 0,
        1 <= d < levels.len(),
    ensures
        levels[d].len() == 0,
    decreases d,
{
    if d >= 2 {
        lemma_unjoined_level_empty(ids, conns, max_dim, levels, d - 1);
    }
    if levels[d].len() > 0 {
        let t = levels[d][0];
        assert(levels[d].contains(t));
        if d == 1 {
            assert(!adjacent(ids, conns, t[0] as int, t[1] as int));
        }
    }
}

/// Without connections, every homology group of the clique complex up to
/// `max_dim` needs no reduction, and those above dimension 0 are on no
/// generators.
proof fn lemma_unjoined_homology(ids: Seq<Seq<char>>, conns: Seq<Connection>, max_dim: nat, levels: Seq<Seq<Seq<usize>>>)
    requires
        is_clique_complex(ids, conns, max_dim, levels),
        conns.len() == 0,
    ensures
        forall|i: int| 1 <= i ==> #[trigger] rank_at(complex_ranks(levels), i) == 0,
        forall|i: int| 0 <= i <= max_dim ==> #[trigger] homology_needs_no_reduction(complex_ranks(levels), complex_maps(levels), i),
{
    assert forall|d: int| 1 <= d < levels.len() implies #[trigger] levels[d].len() == 0 by {
        lemma_unjoined_level_empty(ids, conns, max_dim, levels, d);
    }
    assert forall|i: int| 1 <= i implies #[trigger] rank_at(complex_ranks(levels), i) == 0 by {
        if i < complex_ranks(levels).len() {
            assert(levels[i].len() == 0);
        }
    }
    assert forall|i: int| 0 <= i <= max_dim implies #[trigger] homology_needs_no_reduction(complex_ranks(levels), complex_maps(levels), i) by {
        if i == 0 {
            assert(levels[1].len() == 0);
            assert(is_zero_mat(complex_maps(levels)[0]));
        } else {
            assert(rank_at(complex_ranks(levels), i) == 0);
        }
    }
}

/// Every clique complex of the network up to dimension 3 has Betti numbers
/// (as `homology` computes them) whose alternating sum stays within `i64`.
pub open spec fn network_euler_fits(ids: Seq<Seq<char>>, conns: Seq<Connection>) -> bool {
    forall|levels: Seq<Seq<Seq<usize>>>| #[trigger] is_clique_complex(ids, conns, 3, levels)
        ==> betti_sum_fits(Seq::new(4, |i: int| computed_betti(complex_ranks(levels), complex_maps(levels), i)))
}

proof fn lemma_analyze_euler_fits(ids: Seq<Seq<char>>, conns: Seq<Connection>, hs: Seq<HomologyGroup>, betti: Seq<usize>)
    requires
        network_homology_spec(ids, conns, 3, hs),
        network_euler_fits(ids, conns),
        ids.len() > 0,
        betti.len() == hs.len(),
        forall|j: int| 0 <= j < hs.len() ==> #[trigger] betti[j] == betti_of(hs[j]),
    ensures
        betti_sum_fits(betti),
{
    let levels = choose|levels: Seq<Seq<Seq<usize>>>| #[trigger] is_clique_complex(ids, conns, 3, levels)
        && clique_homology(3, levels, hs);
    assert forall|i: int| 0 <= i < 4 implies #[trigger] betti[i] == computed_betti(complex_ranks(levels), complex_maps(levels), i) by {
        assert(is_computed_homology(complex_ranks(levels), complex_maps(levels), i, hs[i]));
    }
    assert(betti =~= Seq::new(4, |i: int| computed_betti(complex_ranks(levels), complex_maps(levels), i)));
}

/// Without agents, or without connections, the Betti numbers of the clique
/// complex up to dimension 3 give an Euler characteristic in the `i64` range.
#[verifier::spinoff_prover]
#[verifier::rlimit(30)]
proof fn lemma_unjoined_betti_fits(ids: Seq<Seq<char>>, conns: Seq<Connection>, hs: Seq<HomologyGroup>, betti: Seq<usize>)
    requires
        network_homology_spec(ids, conns, 3, hs),
        ids.len() == 0 || conns.len() == 0,
        betti.len() == hs.len(),
        forall|j: int| 0 <= j < hs.len() ==> #[trigger] betti[j] == betti_of(hs[j]),
    ensures
        betti_sum_fits(betti),
{
    if ids.len() == 0 {
        assert(betti.len() == 0);
        assert forall|k: nat| k <= betti.len() implies i64::MIN <= #[trigger] betti_sum(betti, k) <= i64::MAX by {
            assert(k == 0);
        }
    } else {
        let levels = choose|levels: Seq<Seq<Seq<usize>>>| #[trigger] is_clique_complex(ids, conns, 3, levels)
            && clique_homology(3, levels, hs);
        lemma_unjoined_homology(ids, conns, 3, levels);
        assert forall|i: int| 1 <= i < 4 implies #[trigger] betti[i] == 0 by {
            assert(is_homology(complex_ranks(levels), complex_maps(levels), i, hs[i]));
            assert(rank_at(complex_ranks(levels), i) == 0);
        }
        let b0 = betti[0];
        assert(b0 <= i64::MAX);
        assert(as_i64(b0) == b0);
        assert(as_i64(0usize) == 0);
        assert(betti_sum(betti, 0) == 0);
        assert(betti_sum(betti, 1) == b0);
        assert(betti_sum(betti, 2) == b0);
        assert(betti_sum(betti, 3) == b0);
        assert(betti_sum(betti, 4) == b0);
        assert forall|k: nat| k <= betti.len() implies i64::MIN <= #[trigger] betti_sum(betti, k) <= i64::MAX by {
            assert(k <= 4);
        }
    }
}

/// `hs` is H_0, ..., H_max_dim of the clique complex of the network (none
/// for a network without agents).
pub open spec fn network_homology_spec(ids: Seq<Seq<char>>, conns: Seq<Connection>, max_dim: nat, hs: Seq<HomologyGroup>) -> bool {
    if ids.len() == 0 {
        hs.len() == 0
    } else {
        exists|levels: Seq<Seq<Seq<usize>>>| #[trigger] is_clique_complex(ids, conns, max_dim, levels)
            && clique_homology(max_dim, levels, hs)
    }
}

/// `hs` is H_0, ..., H_max_dim of the complex with these levels, as
/// `homology` computes them.
pub open spec fn clique_homology(max_dim: nat, levels: Seq<Seq<Seq<usize>>>, hs: Seq<HomologyGroup>) -> bool {
    &&& hs.len() == max_dim + 1
    &&& forall|i: int| 0 <= i <= max_dim ==> is_homology(complex_ranks(levels), complex_maps(levels), i, #[trigger] hs[i])
    &&& forall|i: int| 0 <= i <= max_dim ==> is_computed_homology(complex_ranks(levels), complex_maps(levels), i, #[trigger] hs[i])
    &&& forall|i: int| 0 <= i <= max_dim ==> #[trigger] homology_witnessed(complex_ranks(levels), complex_maps(levels), i)
}

/// Every clique complex of the network up to `max_dim` has each of H_0, ...,
/// H_max_dim computable within `i64`.
pub open spec fn network_homology_fits(ids: Seq<Seq<char>>, conns: Seq<Connection>, max_dim: nat) -> bool {
    forall|levels: Seq<Seq<Seq<usize>>>| #[trigger] is_clique_complex(ids, conns, max_dim, levels)
        ==> forall|i: int| 0 <= i <= max_dim ==> #[trigger] homology_fits(complex_ranks(levels), complex_maps(levels), i)
}

impl AgentNetwork {
    /// Compute the homology of the network (viewed as a simplicial complex):
    /// the clique complex, whose simplices are the sets of pairwise joined
    /// agents. `None` where the computation leaves the `i64` range.
    pub fn network_homology(&self, max_dim: usize) -> (res: Option<Vec<HomologyGroup>>)
        ensures
            res matches Some(hs) ==> network_homology_spec(agent_ids(self.agents@), self.connections@, max_dim as nat, hs@),
            self.agents@.len() == 0 ==> res is Some,
            self.connections@.len() == 0 ==> res is Some,
            max_dim + 2 <= i64::MAX && network_homology_fits(agent_ids(self.agents@), self.connections@, max_dim as nat)
                ==> res is Some,
            res matches Some(hs) ==> 0 < self.agents@.len() <= isize::MAX ==> forall|comps: Seq<Seq<Seq<char>>>|
                #[trigger] is_component_split(agent_ids(self.agents@), self.connections@, comps) ==> hs@.len() > 0
                    && hs@[0].free_rank == comps.len(),
    {
        let n = self.agents.len();
        if n == 0 {
            let hs: Vec<HomologyGroup> = Vec::new();
            return Some(hs);
        }
        let levels = self.clique_levels(max_dim);
        let ghost lv = levels_of(levels@);
        proof {
            if self.connections@.len() == 0 {
                lemma_unjoined_homology(agent_ids(self.agents@), self.connections@, max_dim as nat, lv);
                assert forall|e: int| 1 <= e < lv.len() implies #[trigger] lv[e].len() == 0 by {
                    lemma_unjoined_level_empty(agent_ids(self.agents@), self.connections@, max_dim as nat, lv, e);
                }
            }
        }
        // Build chain complex
        let mut ranks: Vec<usize> = Vec::new();
        for d in 0..levels.len()
            invariant
                lv == levels_of(levels@),
                levels@.len() >= 2,
                ranks@ == complex_ranks(lv).take(d as int),
        {
            ranks.push(levels[d].len());
            assert(ranks@ =~= complex_ranks(lv).take(d + 1));
        }
        assert(ranks@ =~= complex_ranks(lv));
        let mut boundary_maps: Vec<ZMatrix> = Vec::new();
        for d in 0..levels.len() - 1
            invariant
                lv == levels_of(levels@),
                levels@.len() >= 2,
                is_clique_complex(agent_ids(self.agents@), self.connections@, max_dim as nat, lv),
                self.agents@.len() > 0,
                boundary_maps@.len() == d,
                forall|k: int| 0 <= k < d ==> (#[trigger] boundary_maps@[k])@ == boundary_mat(lv, k),
                self.connections@.len() == 0 ==> forall|e: int| 1 <= e < lv.len() ==> #[trigger] lv[e].len() == 0,
                lv.len() <= max_dim + 2,
        {
            proof {
                if max_dim + 2 <= i64::MAX {
                    assert forall|jj: int| 0 <= jj < levels@[d + 1]@.len() implies #[trigger] levels@[d + 1]@[jj]@.len() <= i64::MAX by {
                        let t = lv[d + 1][jj];
                        assert(t == levels@[d + 1]@[jj]@);
                        assert(lv[d + 1].contains(t));
                    }
                }
            }
            assert(lex_sorted(lv[d as int]));
            assert(lv[d + 1] == vviews(levels@[d + 1]@));
            assert(levels@[d + 1]@.len() == lv[d + 1].len());
            assert(lv[d as int] == vviews(levels@[d as int]@));
            match incidence_matrix(&levels[d], &levels[d + 1]) {
                Some(m) => {
                    assert(m@ == boundary_mat(lv, d as int));
                    boundary_maps.push(m);
                },
                None => {
                    return None;
                },
            }
        }
        let cc = ChainComplex::from_ranks_and_maps(ranks, boundary_maps);
        assert(cc.maps_view() =~= complex_maps(lv));
        let res = cc.all_homology(max_dim);
        assert(is_clique_complex(agent_ids(self.agents@), self.connections@, max_dim as nat, lv));
        proof {
            if res is Some && 0 < self.agents@.len() <= isize::MAX {
                let hs = res->0;
                assert(network_homology_spec(agent_ids(self.agents@), self.connections@, max_dim as nat, hs@));
                assert forall|comps: Seq<Seq<Seq<char>>>| #[trigger] is_component_split(agent_ids(self.agents@), self.connections@, comps)
                    implies hs@.len() > 0 && hs@[0].free_rank == comps.len() by {
                    crate::components::lemma_network_h0(agent_ids(self.agents@), self.connections@, max_dim as nat, hs@, comps);
                }
            }
        }
        res
    }
}

/// Analysis of a network topology.
#[derive(Clone, Debug)]
pub struct NetworkAnalysis {
    /// Number of agents.
    pub num_agents: usize,
    /// Number of connections.
    pub num_connections: usize,
    /// Number of connected components.
    pub num_components: usize,
    /// Betti numbers.
    pub betti_numbers: Vec<usize>,
    /// Euler characteristic.
    pub euler_characteristic: i64,
    /// Homology groups.
    pub homology_groups: Vec<HomologyGroup>,
    /// Connected components.
    pub components: Vec<Vec<String>>,
    /// Whether the network is connected.
    pub is_connected: bool,
    /// Number of 1-dimensional holes (loops).
    pub holes_1d: usize,
    /// Number of 2-dimensional voids.
    pub voids_2d: usize,
    /// Number of 3-dimensional voids.
    pub voids_3d: usize,
}

/// The `i`-th Betti number, 0 beyond the list.
pub open spec fn betti_at(b: Seq<usize>, i: int) -> usize {
    if 0 <= i < b.len() { b[i] } else { 0 }
}

/// Whether `euler_from_betti` can take `betti` without leaving the `i64`
/// range.
fn betti_sum_in_range(betti: &Vec<usize>) -> (b: bool)
    ensures
        b == betti_sum_fits(betti@),
{
    let mut acc: i128 = 0;
    for n in 0..betti.len()
        invariant
            acc == betti_sum(betti@, n as nat),
            forall|m: int| 0 <= m < n && m % 2 == 1 ==> as_i64(#[trigger] betti@[m]) != i64::MIN,
            forall|k: nat| k <= n ==> i64::MIN <= #[trigger] betti_sum(betti@, k) <= i64::MAX,
    {
        let term = betti[n] as i64;
        if n % 2 == 0 {
            acc = acc + term as i128;
        } else {
            if term == i64::MIN {
                assert(!betti_sum_fits(betti@)) by {
                    assert(as_i64(betti@[n as int]) == i64::MIN);
                }
                return false;
            }
            acc = acc - term as i128;
        }
        if acc < i64::MIN as i128 || acc > i64::MAX as i128 {
            assert(!betti_sum_fits(betti@)) by {
                assert(betti_sum(betti@, (n + 1) as nat) == acc);
            }
            return false;
        }
        assert forall|k: nat| k <= n + 1 implies i64::MIN <= #[trigger] betti_sum(betti@, k) <= i64::MAX by {
            if k == n + 1 {
                assert(betti_sum(betti@, k) == acc);
            }
        }
    }
    true
}

impl AgentNetwork {
    /// Analyze the network topology: its components, and the homology of
    /// its clique complex up to dimension 3 with the Betti numbers and Euler
    /// characteristic it gives. `None` where the homology or the Euler
    /// characteristic leaves the `i64` range.
    pub fn analyze(&self) -> (res: Option<NetworkAnalysis>)
        ensures
            res matches Some(a) ==> {
                &&& a.num_agents == self.agents@.len()
                &&& a.num_connections == self.connections@.len()
                &&& is_component_split(agent_ids(self.agents@), self.connections@, string_lists(a.components@))
                &&& a.num_components == a.components@.len()
                &&& a.is_connected == (a.num_components == 1)
                &&& network_homology_spec(agent_ids(self.agents@), self.connections@, 3, a.homology_groups@)
                &&& a.betti_numbers@.len() == a.homology_groups@.len()
                &&& forall|i: int| 0 <= i < a.betti_numbers@.len() ==> #[trigger] a.betti_numbers@[i] == betti_of(a.homology_groups@[i])
                &&& a.euler_characteristic == betti_sum(a.betti_numbers@, a.betti_numbers@.len())
                &&& a.holes_1d == betti_at(a.betti_numbers@, 1)
                &&& a.voids_2d == betti_at(a.betti_numbers@, 2)
                &&& a.voids_3d == betti_at(a.betti_numbers@, 3)
            },
            self.agents@.len() == 0 || self.connections@.len() == 0 ==> res is Some,
            res matches Some(a) ==> 0 < self.agents@.len() <= isize::MAX ==> a.homology_groups@[0].free_rank == a.num_components
                && a.betti_numbers@[0] == a.num_components,
            network_homology_fits(agent_ids(self.agents@), self.connections@, 3)
                && network_euler_fits(agent_ids(self.agents@), self.connections@) ==> res is Some,
    {
        let components = self.connected_components();
        let num_components = components.len();
        let homology = match self.network_homology(3) {
            Some(h) => h,
            None => {
                return None;
            },
        };
        let mut betti: Vec<usize> = Vec::new();
        for i in 0..homology.len()
            invariant
                betti@.len() == i,
                forall|j: int| 0 <= j < i ==> #[trigger] betti@[j] == betti_of(homology@[j]),
        {
            betti.push(homology[i].rank());
        }
        proof {
            if self.agents@.len() == 0 || self.connections@.len() == 0 {
                lemma_unjoined_betti_fits(agent_ids(self.agents@), self.connections@, homology@, betti@);
            } else if network_euler_fits(agent_ids(self.agents@), self.connections@) {
                lemma_analyze_euler_fits(agent_ids(self.agents@), self.connections@, homology@, betti@);
            }
        }
        if !betti_sum_in_range(&betti) {
            return None;
        }
        let euler = euler_from_betti(&betti);
        let holes_1d = if betti.len() > 1 { betti[1] } else { 0 };
        let voids_2d = if betti.len() > 2 { betti[2] } else { 0 };
        let voids_3d = if betti.len() > 3 { betti[3] } else { 0 };
        Some(NetworkAnalysis {
            num_agents: self.agents.len(),
            num_connections: self.connections.len(),
            num_components,
            betti_numbers: betti,
            euler_characteristic: euler,
            homology_groups: homology,
            components,
            is_connected: num_components == 1,
            holes_1d,
            voids_2d,
            voids_3d,
        })
    }
}

/// The numbers separated by `", "`.
pub open spec fn joined_numbers(v: Seq<usize>) -> Seq<char>
    decreases v.len(),
{
    if v.len() == 0 {
        seq![]
    } else if v.len() == 1 {
        decimal(v[0] as nat)
    } else {
        joined_numbers(v.drop_last()) + ", "@ + decimal(v.last() as nat)
    }
}

/// How the analysis is written, one line per figure.
pub open spec fn analysis_text(a: NetworkAnalysis) -> Seq<char> {
    "Network Analysis:\n"@
        + "  Agents: "@ + decimal(a.num_agents as nat) + "\n"@
        + "  Connections: "@ + decimal(a.num_connections as nat) + "\n"@
        + "  Connected: "@ + (if a.is_connected { "yes"@ } else { "no"@ }) + "\n"@
        + "  Components: "@ + decimal(a.num_components as nat) + "\n"@
        + "  Betti numbers: ["@ + joined_numbers(a.betti_numbers@) + "]\n"@
        + "  Euler characteristic: "@ + signed_decimal(a.euler_characteristic as int) + "\n"@
        + "  1D holes: "@ + decimal(a.holes_1d as nat) + "\n"@
        + "  2D voids: "@ + decimal(a.voids_2d as nat) + "\n"@
        + "  3D voids: "@ + decimal(a.voids_3d as nat) + "\n"@
}

impl NetworkAnalysis {
    /// The analysis written out, one line per figure.
    pub fn to_display_string(&self) -> (s: String)
        ensures
            s@ == analysis_text(*self),
    {
        let mut s = String::from_str("Network Analysis:\n");
        s.append("  Agents: ");
        push_decimal(&mut s, self.num_agents as u64);
        s.append("\n");
        s.append("  Connections: ");
        push_decimal(&mut s, self.num_connections as u64);
        s.append("\n");
        s.append("  Connected: ");
        if self.is_connected {
            s.append("yes");
        } else {
            s.append("no");
        }
        s.append("\n");
        s.append("  Components: ");
        push_decimal(&mut s, self.num_components as u64);
        s.append("\n");
        let ghost head = s@;
        s.append("  Betti numbers: [");
        for i in 0..self.betti_numbers.len()
            invariant
                s@ == head + "  Betti numbers: ["@ + joined_numbers(self.betti_numbers@.take(i as int)),
        {
            if i > 0 {
                s.append(", ");
            }
            push_decimal(&mut s, self.betti_numbers[i] as u64);
            proof {
                let t = self.betti_numbers@.take(i + 1);
                assert(t.drop_last() =~= self.betti_numbers@.take(i as int));
                if i == 0 {
                    assert(self.betti_numbers@.take(0) =~= Seq::<usize>::empty());
                    assert(joined_numbers(self.betti_numbers@.take(0)) =~= Seq::<char>::empty());
                }
                assert(s@ =~= head + "  Betti numbers: ["@ + joined_numbers(t));
            }
        }
        assert(self.betti_numbers@.take(self.betti_numbers@.len() as int) =~= self.betti_numbers@);
        s.append("]\n");
        s.append("  Euler characteristic: ");
        push_signed(&mut s, self.euler_characteristic);
        s.append("\n");
        s.append("  1D holes: ");
        push_decimal(&mut s, self.holes_1d as u64);
        s.append("\n");
        s.append("  2D voids: ");
        push_decimal(&mut s, self.voids_2d as u64);
        s.append("\n");
        s.append("  3D voids: ");
        push_decimal(&mut s, self.voids_3d as u64);
        s.append("\n");
        assert(s@ =~= analysis_text(*self));
        s
    }
}

/// Two strictly increasing lists with the same entries are equal.
proof fn lemma_increasing_unique(a: Seq<int>, b: Seq<int>)
    requires
        forall|i: int, j: int| 0 <= i < j < a.len() ==> a[i] < a[j],
        forall|i: int, j: int| 0 <= i < j < b.len() ==> b[i] < b[j],
        forall|x: int| a.contains(x) <==> b.contains(x),
    ensures
        a == b,
    decreases a.len() + b.len(),
{
    if a.len() == 0 {
        if b.len() > 0 {
            assert(b.contains(b[0]));
        }
        assert(b =~= a);
    } else if b.len() == 0 {
        assert(a.contains(a[0]));
    } else {
        assert(a.contains(a[0]));
        assert(b.contains(b[0]));
        let ka = choose|k: int| 0 <= k < b.len() && b[k] == a[0];
        let kb = choose|k: int| 0 <= k < a.len() && a[k] == b[0];
        assert(a[0] == b[0]) by {
            if a[0] != b[0] {
                assert(ka > 0 && kb > 0);
                assert(b[0] < b[ka]);
                assert(a[0] < a[kb]);
            }
        }
        let ta = a.drop_first();
        let tb = b.drop_first();
        assert forall|x: int| ta.contains(x) <==> tb.contains(x) by {
            if ta.contains(x) {
                let k = choose|k: int| 0 <= k < ta.len() && ta[k] == x;
                assert(a[k + 1] == x);
                assert(a.contains(x));
                let m = choose|m: int| 0 <= m < b.len() && b[m] == x;
                if m == 0 {
                    assert(a[0] < a[k + 1]);
                }
                assert(tb[m - 1] == x);
            }
            if tb.contains(x) {
                let k = choose|k: int| 0 <= k < tb.len() && tb[k] == x;
                assert(b[k + 1] == x);
                assert(b.contains(x));
                let m = choose|m: int| 0 <= m < a.len() && a[m] == x;
                if m == 0 {
                    assert(b[0] < b[k + 1]);
                }
                assert(ta[m - 1] == x);
            }
        }
        lemma_increasing_unique(ta, tb);
        assert(a =~= seq![a[0]] + ta);
        assert(b =~= seq![b[0]] + tb);
    }
}

/// The first positions of the components: the positions that come first in
/// their component.
proof fn lemma_split_firsts(ids: Seq<Seq<char>>, conns: Seq<Connection>, members: Seq<Seq<int>>, comps: Seq<Seq<Seq<char>>>, x: int)
    requires
        splits_by(ids, conns, members, comps),
    ensures
        Seq::new(members.len(), |k: int| members[k][0]).contains(x)
            <==> (0 <= x < ids.len() && forall|y: int| 0 <= y < x ==> !connected(ids, conns, y, x)),
{
    let firsts = Seq::new(members.len(), |k: int| members[k][0]);
    if firsts.contains(x) {
        let k = choose|k: int| 0 <= k < firsts.len() && firsts[k] == x;
        assert(members[k].len() > 0);
        assert(0 <= members[k][0] < ids.len());
        assert forall|y: int| 0 <= y < x implies !connected(ids, conns, y, x) by {
            if connected(ids, conns, y, x) {
                assert(listed(members, y));
                let (l, q) = choose|l: int, q: int| 0 <= l < members.len() && 0 <= q < members[l].len() && #[trigger] members[l][q] == y;
                assert(connected(ids, conns, members[l][q], members[k][0]));
                assert(l == k);
                if q > 0 {
                    assert(members[k][0] < members[k][q]);
                }
            }
        }
    }
    if 0 <= x < ids.len() && forall|y: int| 0 <= y < x ==> !connected(ids, conns, y, x) {
        assert(listed(members, x));
        let (k, p) = choose|k: int, p: int| 0 <= k < members.len() && 0 <= p < members[k].len() && #[trigger] members[k][p] == x;
        assert(connected(ids, conns, members[k][0], members[k][p]));
        if p > 0 {
            assert(members[k][0] < members[k][p]);
            assert(0 <= members[k][0]);
            assert(!connected(ids, conns, members[k][0], x));
        }
        assert(firsts[k] == x);
    }
}

/// The connected components of a network are determined: there is only one
/// way to list them as `connected_components` does.
pub proof fn lemma_component_split_unique(
    ids: Seq<Seq<char>>,
    conns: Seq<Connection>,
    c1: Seq<Seq<Seq<char>>>,
    c2: Seq<Seq<Seq<char>>>,
)
    requires
        is_component_split(ids, conns, c1),
        is_component_split(ids, conns, c2),
    ensures
        c1 == c2,
{
    let m1 = choose|m: Seq<Seq<int>>| #[trigger] splits_by(ids, conns, m, c1);
    let m2 = choose|m: Seq<Seq<int>>| #[trigger] splits_by(ids, conns, m, c2);
    let f1 = Seq::new(m1.len(), |k: int| m1[k][0]);
    let f2 = Seq::new(m2.len(), |k: int| m2[k][0]);
    assert forall|x: int| f1.contains(x) <==> f2.contains(x) by {
        lemma_split_firsts(ids, conns, m1, c1, x);
        lemma_split_firsts(ids, conns, m2, c2, x);
    }
    assert forall|i: int, j: int| 0 <= i < j < f1.len() implies f1[i] < f1[j] by {
        assert(m1[i][0] < m1[j][0]);
    }
    assert forall|i: int, j: int| 0 <= i < j < f2.len() implies f2[i] < f2[j] by {
        assert(m2[i][0] < m2[j][0]);
    }
    lemma_increasing_unique(f1, f2);
    assert forall|k: int| 0 <= k < m1.len() implies #[trigger] m1[k] == m2[k] by {
        assert(f1[k] == f2[k]);
        assert forall|y: int| m1[k].contains(y) <==> m2[k].contains(y) by {
            assert(m1[k][0] == m2[k][0]);
            if m1[k].contains(y) {
                let p = choose|p: int| 0 <= p < m1[k].len() && m1[k][p] == y;
                assert(connected(ids, conns, m1[k][p], m1[k][0]));
                assert(0 <= y < ids.len());
                assert(listed(m2, y));
                let (l, q) = choose|l: int, q: int| 0 <= l < m2.len() && 0 <= q < m2[l].len() && #[trigger] m2[l][q] == y;
                assert(connected(ids, conns, m2[l][q], m2[k][0]) <==> l == k);
                assert(m2[k][q] == y);
            }
            if m2[k].contains(y) {
                let p = choose|p: int| 0 <= p < m2[k].len() && m2[k][p] == y;
                assert(connected(ids, conns, m2[k][p], m2[k][0]));
                assert(0 <= y < ids.len());
                assert(listed(m1, y));
                let (l, q) = choose|l: int, q: int| 0 <= l < m1.len() && 0 <= q < m1[l].len() && #[trigger] m1[l][q] == y;
                assert(connected(ids, conns, m1[l][q], m1[k][0]) <==> l == k);
                assert(m1[k][q] == y);
            }
        }
        assert forall|i: int, j: int| 0 <= i < j < m1[k].len() implies m1[k][i] < m1[k][j] by {}
        assert forall|i: int, j: int| 0 <= i < j < m2[k].len() implies m2[k][i] < m2[k][j] by {}
        lemma_increasing_unique(m1[k], m2[k]);
    }
    assert forall|k: int| 0 <= k < c1.len() implies #[trigger] c1[k] == c2[k] by {
        assert(m1[k] == m2[k]);
        assert(m1.len() == m2.len());
        assert(c1[k].len() == m1[k].len() && c2[k].len() == m2[k].len());
        assert forall|p: int| 0 <= p < c1[k].len() implies c1[k][p] == c2[k][p] by {
            assert(c1[k][p] == ids[m1[k][p]]);
            assert(c2[k][p] == ids[m2[k][p]]);
        }
        assert(c1[k] =~= c2[k]);
    }
    assert(c1 =~= c2);
}

// ---------------------------------------------------------------------------
// The clique complex is a simplicial complex
// ---------------------------------------------------------------------------

/// No connection joins an agent to itself.
pub open spec fn no_self_loops(ids: Seq<Seq<char>>, conns: Seq<Connection>) -> bool {
    forall|u: int| !#[trigger] adjacent(ids, conns, u, u)
}

proof fn lemma_adjacent_in_range(ids: Seq<Seq<char>>, conns: Seq<Connection>, u: int, v: int)
    requires
        adjacent(ids, conns, u, v),
    ensures
        0 <= u < ids.len(),
        0 <= v < ids.len(),
{
    let c = choose|c: int| 0 <= c < conns.len() && #[trigger] joins(ids, conns[c], u, v);
    lemma_last_index_bound(ids, conns[c].from@);
    lemma_last_index_bound(ids, conns[c].to@);
}

/// A sorted list of distinct vertices increases strictly.
proof fn lemma_sorted_insert_strict(s: Seq<usize>, v: usize, p: int)
    requires
        strictly_sorted(s),
        !s.contains(v),
        0 <= p <= s.len(),
        sorted_vertices(s.insert(p, v)),
    ensures
        strictly_sorted(s.insert(p, v)),
{
    let t = s.insert(p, v);
    s.insert_ensures(p, v);
    assert forall|i: int, j: int| 0 <= i < j < t.len() implies t[i] < t[j] by {
        assert(t[i] <= t[j]);
        if t[i] == t[j] {
            if i == p {
                let k = if j < p { j } else { j - 1 };
                assert(s[k] == v);
            } else if j == p {
                assert(s[i] == v);
            } else {
                let a = if i < p { i } else { i - 1 };
                let b = if j < p { j } else { j - 1 };
                assert(a < b);
                assert(s[a] < s[b]);
            }
        }
    }
}

/// A face of `s` with `v` put in, other than `s` itself, is a face of `s`
/// with `v` put in.
proof fn lemma_remove_from_insert(s: Seq<usize>, v: usize, p: int, i: int)
    requires
        0 <= p <= s.len(),
        0 <= i <= s.len(),
        i != p,
    ensures
        i < p ==> s.insert(p, v).remove(i) == s.remove(i).insert(p - 1, v),
        i > p ==> s.insert(p, v).remove(i) == s.remove(i - 1).insert(p, v),
{
    s.insert_ensures(p, v);
    if i < p {
        s.remove_ensures(i);
        s.remove(i).insert_ensures(p - 1, v);
        s.insert(p, v).remove_ensures(i);
        assert(s.insert(p, v).remove(i) =~= s.remove(i).insert(p - 1, v));
    } else {
        s.remove_ensures(i - 1);
        s.remove(i - 1).insert_ensures(p, v);
        s.insert(p, v).remove_ensures(i);
        assert(s.insert(p, v).remove(i) =~= s.remove(i - 1).insert(p, v));
    }
}

/// Without self-joined agents, the simplices of each dimension of the clique
/// complex are strictly increasing vertex lists of the right length, and
/// each face of one of them is in the dimension below.
proof fn lemma_clique_level(ids: Seq<Seq<char>>, conns: Seq<Connection>, max_dim: nat, levels: Seq<Seq<Seq<usize>>>, l: int)
    requires
        is_clique_complex(ids, conns, max_dim, levels),
        no_self_loops(ids, conns),
        0 <= l < levels.len(),
    ensures
        forall|t: Seq<usize>| #[trigger] levels[l].contains(t) ==> strictly_sorted(t) && t.len() == l + 1,
        forall|t: Seq<usize>, i: int| #[trigger] levels[l].contains(t) && t.len() >= 2 && 0 <= i < t.len()
            ==> levels[l - 1].contains(#[trigger] t.remove(i)),
    decreases l,
{
    if l == 0 {
    } else if l == 1 {
        assert forall|t: Seq<usize>| #[trigger] levels[1].contains(t) implies strictly_sorted(t) && t.len() == 2 by {
            assert(t[0] != t[1]);
        }
        assert forall|t: Seq<usize>, i: int| #[trigger] levels[1].contains(t) && t.len() >= 2 && 0 <= i < t.len()
            implies levels[0].contains(#[trigger] t.remove(i)) by {
            lemma_adjacent_in_range(ids, conns, t[0] as int, t[1] as int);
            t.remove_ensures(i);
        }
    } else {
        lemma_clique_level(ids, conns, max_dim, levels, l - 1);
        assert forall|t: Seq<usize>| #[trigger] levels[l].contains(t) implies strictly_sorted(t) && t.len() == l + 1 by {
            let (a, v) = choose|a: int, v: usize| 0 <= a < levels[l - 1].len() && #[trigger] grows_by(ids, conns, levels[l - 1][a], v, t);
            let s = levels[l - 1][a];
            assert(levels[l - 1].contains(s));
            let p = choose|p: int| 0 <= p <= s.len() && t == #[trigger] s.insert(p, v);
            lemma_sorted_insert_strict(s, v, p);
        }
        assert forall|t: Seq<usize>, i: int| #[trigger] levels[l].contains(t) && t.len() >= 2 && 0 <= i < t.len()
            implies levels[l - 1].contains(#[trigger] t.remove(i)) by {
            let (a, v) = choose|a: int, v: usize| 0 <= a < levels[l - 1].len() && #[trigger] grows_by(ids, conns, levels[l - 1][a], v, t);
            let s = levels[l - 1][a];
            assert(levels[l - 1].contains(s));
            let p = choose|p: int| 0 <= p <= s.len() && t == #[trigger] s.insert(p, v);
            if i == p {
                s.insert_ensures(p, v);
                t.remove_ensures(i);
                assert(t.remove(i) =~= s);
            } else {
                lemma_remove_from_insert(s, v, p, i);
                let i2 = if i < p { i } else { i - 1 };
                let p2 = if i < p { p - 1 } else { p };
                let f = s.remove(i2);
                s.remove_ensures(i2);
                assert(t.remove(i) == f.insert(p2, v));
                // `f` is a simplex one dimension down, and `v` is joined to all of it.
                assert(levels[l - 2].contains(f));
                assert(!f.contains(v)) by {
                    if f.contains(v) {
                        let k = choose|k: int| 0 <= k < f.len() && f[k] == v;
                        let k2 = if k < i2 { k } else { k + 1 };
                        assert(s[k2] == v);
                    }
                }
                assert forall|m: int| 0 <= m < f.len() implies #[trigger] adjacent(ids, conns, f[m] as int, v as int) by {
                    let m2 = if m < i2 { m } else { m + 1 };
                    assert(f[m] == s[m2]);
                    assert(adjacent(ids, conns, s[m2] as int, v as int));
                }
                assert(sorted_vertices(t.remove(i))) by {
                    t.remove_ensures(i);
                    assert forall|x: int, y: int| 0 <= x <= y < t.remove(i).len() implies t.remove(i)[x] <= t.remove(i)[y] by {
                        let x2 = if x < i { x } else { x + 1 };
                        let y2 = if y < i { y } else { y + 1 };
                        assert(t[x2] <= t[y2]);
                    }
                }
                if l == 2 {
                    // `f` is a single agent, and the face the pair of it and `v`.
                    let w = t.remove(i);
                    f.insert_ensures(p2, v);
                    assert(w.len() == 2);
                    lemma_sorted_insert_strict(f, v, p2);
                    assert(f.len() == 1);
                    assert(adjacent(ids, conns, f[0] as int, v as int));
                    lemma_adjacent_symmetric(ids, conns, f[0] as int, v as int);
                    if p2 == 0 {
                        assert(w[0] == v && w[1] == f[0]);
                    } else {
                        assert(w[0] == f[0] && w[1] == v);
                    }
                    assert(adjacent(ids, conns, w[0] as int, w[1] as int));
                } else {
                    let a2 = choose|a2: int| 0 <= a2 < levels[l - 2].len() && #[trigger] levels[l - 2][a2] == f;
                    assert(grows_by(ids, conns, levels[l - 2][a2], v, t.remove(i)));
                    assert(t.remove(i).len() == l);
                }
            }
        }
    }
}

/// Without self-joined agents, the clique complex of a network is a
/// simplicial complex: its simplices are strictly increasing vertex lists
/// and it holds every face of each of them.
pub proof fn lemma_clique_complex_is_simplicial(ids: Seq<Seq<char>>, conns: Seq<Connection>, max_dim: nat, levels: Seq<Seq<Seq<usize>>>)
    requires
        is_clique_complex(ids, conns, max_dim, levels),
        no_self_loops(ids, conns),
    ensures
        levels_shape(levels),
        closed_under_faces(levels),
{
    assert forall|l: int, t: Seq<usize>| #[trigger] has(levels, l, t) implies strictly_sorted(t)
        && (t.len() == l + 1 || (l == 0 && t.len() == 0)) by {
        lemma_clique_level(ids, conns, max_dim, levels, l);
    }
    assert forall|l: int, t: Seq<usize>, i: int|
        #[trigger] has(levels, l, t) && t.len() >= 2 && 0 <= i < t.len() implies has(levels, l - 1, #[trigger] t.remove(i)) by {
        lemma_clique_level(ids, conns, max_dim, levels, l);
        if l == 0 {
            assert(t.len() == 1);
        }
    }
}

/// Without self-joined agents, consecutive boundary maps of the clique
/// complex compose to zero.
pub proof fn lemma_clique_boundary_of_boundary(
    ids: Seq<Seq<char>>,
    conns: Seq<Connection>,
    max_dim: nat,
    levels: Seq<Seq<Seq<usize>>>,
    d: int,
)
    requires
        is_clique_complex(ids, conns, max_dim, levels),
        no_self_loops(ids, conns),
        0 <= d,
    ensures
        is_zero_mat(mat_mul(boundary_mat(levels, d), boundary_mat(levels, d + 1))),
{
    lemma_clique_complex_is_simplicial(ids, conns, max_dim, levels);
    lemma_boundary_of_boundary(levels, d);
}

/// The vertices of `t` are agents, each two of them joined by a connection.
pub open spec fn is_clique(ids: Seq<Seq<char>>, conns: Seq<Connection>, t: Seq<usize>) -> bool {
    &&& forall|i: int| 0 <= i < t.len() ==> #[trigger] t[i] < ids.len()
    &&& forall|i: int, j: int| 0 <= i < j < t.len() ==> #[trigger] adjacent(ids, conns, t[i] as int, t[j] as int)
}

/// Without self-joined agents, the simplices of dimension `d` of the clique
/// complex are exactly the cliques of `d + 1` agents, each listed once as the
/// increasing list of its agents.
#[verifier::spinoff_prover]
pub proof fn lemma_clique_levels_are_cliques(
    ids: Seq<Seq<char>>,
    conns: Seq<Connection>,
    max_dim: nat,
    levels: Seq<Seq<Seq<usize>>>,
    d: int,
)
    requires
        is_clique_complex(ids, conns, max_dim, levels),
        no_self_loops(ids, conns),
        0 <= d < levels.len(),
    ensures
        forall|t: Seq<usize>| #[trigger] levels[d].contains(t)
            <==> (strictly_sorted(t) && t.len() == d + 1 && is_clique(ids, conns, t)),
    decreases d,
{
    lemma_clique_level(ids, conns, max_dim, levels, d);
    if d == 0 {
    } else if d == 1 {
        assert forall|t: Seq<usize>| #[trigger] levels[1].contains(t)
            <==> (strictly_sorted(t) && t.len() == 2 && is_clique(ids, conns, t)) by {
            if levels[1].contains(t) {
                lemma_adjacent_in_range(ids, conns, t[0] as int, t[1] as int);
                assert forall|i: int, j: int| 0 <= i < j < t.len() implies #[trigger] adjacent(ids, conns, t[i] as int, t[j] as int) by {
                    assert(i == 0 && j == 1);
                }
            }
            if strictly_sorted(t) && t.len() == 2 && is_clique(ids, conns, t) {
                assert(adjacent(ids, conns, t[0] as int, t[1] as int));
            }
        }
    } else {
        lemma_clique_levels_are_cliques(ids, conns, max_dim, levels, d - 1);
        assert forall|t: Seq<usize>| #[trigger] levels[d].contains(t)
            <==> (strictly_sorted(t) && t.len() == d + 1 && is_clique(ids, conns, t)) by {
            if levels[d].contains(t) {
                let (a, v) = choose|a: int, v: usize| 0 <= a < levels[d - 1].len() && #[trigger] grows_by(ids, conns, levels[d - 1][a], v, t);
                let s = levels[d - 1][a];
                assert(levels[d - 1].contains(s));
                let p = choose|p: int| 0 <= p <= s.len() && t == #[trigger] s.insert(p, v);
                s.insert_ensures(p, v);
                assert forall|i: int| 0 <= i < t.len() implies #[trigger] t[i] < ids.len() by {
                    if i < p {
                        assert(t[i] == s[i]);
                    } else if i > p {
                        assert(t[i] == s[i - 1]);
                    }
                }
                assert forall|i: int, j: int| 0 <= i < j < t.len() implies #[trigger] adjacent(ids, conns, t[i] as int, t[j] as int) by {
                    let i2 = if i < p { i } else { i - 1 };
                    let j2 = if j < p { j } else { j - 1 };
                    if i == p {
                        assert(t[j] == s[j2]);
                        assert(adjacent(ids, conns, s[j2] as int, v as int));
                        lemma_adjacent_symmetric(ids, conns, s[j2] as int, v as int);
                    } else if j == p {
                        assert(t[i] == s[i2]);
                        assert(adjacent(ids, conns, s[i2] as int, v as int));
                    } else {
                        assert(t[i] == s[i2] && t[j] == s[j2]);
                        assert(i2 < j2);
                        assert(adjacent(ids, conns, s[i2] as int, s[j2] as int));
                    }
                }
            }
            if strictly_sorted(t) && t.len() == d + 1 && is_clique(ids, conns, t) {
                let s = t.drop_last();
                let v = t.last();
                assert(s.insert(d, v) =~= t);
                assert(is_clique(ids, conns, s)) by {
                    assert forall|i: int, j: int| 0 <= i < j < s.len() implies #[trigger] adjacent(ids, conns, s[i] as int, s[j] as int) by {
                        assert(adjacent(ids, conns, t[i] as int, t[j] as int));
                    }
                    assert forall|i: int| 0 <= i < s.len() implies #[trigger] s[i] < ids.len() by {
                        assert(t[i] < ids.len());
                    }
                }
                assert(levels[d - 1].contains(s));
                let a = choose|a: int| 0 <= a < levels[d - 1].len() && #[trigger] levels[d - 1][a] == s;
                assert(!s.contains(v)) by {
                    if s.contains(v) {
                        let k = choose|k: int| 0 <= k < s.len() && s[k] == v;
                        assert(t[k] < t[d]);
                    }
                }
                assert forall|m: int| 0 <= m < s.len() implies #[trigger] adjacent(ids, conns, s[m] as int, v as int) by {
                    assert(adjacent(ids, conns, t[m] as int, t[d] as int));
                }
                assert(t[d] < ids.len());
                assert(grows_by(ids, conns, levels[d - 1][a], v, t));
            }
        }
    }
}

} // verus!
