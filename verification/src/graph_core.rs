//! The core graph layer: nodes and edges over dense integer identifiers,
//! with cycle detection and reachability traversal.

use vstd::prelude::*;

use crate::errors::GraphError;
use crate::model::GraphModel;
use crate::model::closed_under_edges;
use crate::model::cycle_free;
use crate::model::has_cycle;
use crate::model::is_cycle;
use crate::model::lemma_all_finished_no_cycle;
use crate::model::lemma_finished_node_not_on_cycle;
use crate::model::lemma_push_to_set;
use crate::model::lemma_seq_push_contains;
use crate::model::lemma_reachable_in_closed;
use crate::model::lemma_reaches_self;
use crate::model::lemma_reaches_step;
use crate::model::lemma_unvisited_monotone;
use crate::model::lemma_unvisited_same;
use crate::model::lemma_unvisited_shrinks;
use crate::model::on_cycle;
use crate::model::reaches;
use crate::model::visit_order;

verus! {

broadcast use vstd::set::group_set_axioms, vstd::seq_lib::seq_to_set_is_finite;

/// The identifier a node is registered under: a small dense integer when the
/// keyed layer allocates it.
pub type NodeID = usize;

/// A registered node: its identifier and its outgoing edges, kept as a
/// duplicate-free collection of target identifiers.
pub struct Node {
    id: NodeID,
    children: Vec<NodeID>,
}

/// The nodes whose exploration has finished: visited and no longer on the
/// active search path.
spec fn finished_set(visited: Seq<usize>, rec_stack: Seq<usize>) -> Set<usize> {
    visited.to_set().difference(rec_stack.to_set())
}

/// What holds of the search state between calls of the cycle search: the
/// active path is duplicate-free, lies inside the visited set, follows
/// edges, and the finished nodes can neither leave their set by an edge nor
/// lie on any closed walk.
spec fn dfs_invariant(m: GraphModel, visited: Seq<usize>, rec_stack: Seq<usize>) -> bool {
    &&& rec_stack.no_duplicates()
    &&& forall|i: int| 0 <= i < rec_stack.len() ==> visited.contains(#[trigger] rec_stack[i])
    &&& forall|i: int|
        0 <= i < rec_stack.len() - 1 ==> #[trigger] m.edges.contains(
            (rec_stack[i], rec_stack[i + 1]),
        )
    &&& closed_under_edges(m, finished_set(visited, rec_stack))
    &&& cycle_free(m, finished_set(visited, rec_stack))
}

/// Returns whether `x` occurs in `v`.
fn contains_id(v: &Vec<NodeID>, x: NodeID) -> (b: bool)
    ensures
        b == v@.contains(x),
{
    let mut i: usize = 0;
    while i < v.len()
        invariant
            i <= v.len(),
            forall|j: int| 0 <= j < i ==> v@[j] != x,
        decreases v.len() - i,
    {
        if v[i] == x {
            assert(v@[i as int] == x);
            return true;
        }
        i += 1;
    }
    assert(!v@.contains(x));
    false
}

/// Returns the first position of `x` in `v`, when there is one.
fn index_of(v: &Vec<NodeID>, x: NodeID) -> (r: Option<usize>)
    ensures
        match r {
            Some(i) => i < v@.len() && v@[i as int] == x,
            None => !v@.contains(x),
        },
        r is Some <==> v@.contains(x),
{
    let mut i: usize = 0;
    while i < v.len()
        invariant
            i <= v.len(),
            forall|j: int| 0 <= j < i ==> v@[j] != x,
        decreases v.len() - i,
    {
        if v[i] == x {
            assert(v@[i as int] == x);
            return Some(i);
        }
        i += 1;
    }
    assert(!v@.contains(x));
    None
}

impl Node {
    /// The identifier this node was registered under.
    pub closed spec fn node_id(&self) -> NodeID {
        self.id
    }

    /// The targets of this node's outgoing edges.
    pub closed spec fn children_set(&self) -> Set<NodeID> {
        self.children@.to_set()
    }

    /// Creates a node with no outgoing edges.
    pub fn new(id: NodeID) -> (n: Node)
        ensures
            n.node_id() == id,
            n.children_set() == Set::<NodeID>::empty(),
    {
        let n = Node { id, children: Vec::new() };
        proof {
            assert(n.children@.to_set() =~= Set::<NodeID>::empty());
        }
        n
    }

    /// Records an outgoing edge to `id`, reporting whether that exact edge
    /// was already present. A duplicate edge is not stored twice.
    pub fn add_edge(&mut self, id: NodeID) -> (already: bool)
        ensures
            already == old(self).children_set().contains(id),
            final(self).node_id() == old(self).node_id(),
            final(self).children_set() == old(self).children_set().insert(id),
    {
        let ret = contains_id(&self.children, id);
        if !ret {
            self.children.push(id);
            proof {
                lemma_push_to_set(old(self).children@, id);
            }
        } else {
            proof {
                assert(old(self).children_set().insert(id) =~= old(self).children_set());
            }
        }
        ret
    }
}

/// The core graph: a collection of nodes with pairwise distinct identifiers.
pub struct GraphCore {
    nodes: Vec<Node>,
}

impl View for GraphCore {
    type V = GraphModel;

    /// The mathematical graph this value represents.
    closed spec fn view(&self) -> GraphModel {
        GraphModel {
            nodes: self.nodes@.map_values(|n: Node| n.node_id()).to_set(),
            edges: Set::new(
                |e: (usize, usize)|
                    exists|i: int|
                        0 <= i < self.nodes@.len() && (#[trigger] self.nodes@[i]).node_id() == e.0
                            && self.nodes@[i].children_set().contains(e.1),
            ),
        }
    }
}

impl GraphCore {
    /// Identifiers are pairwise distinct.
    pub closed spec fn wf(&self) -> bool {
        forall|i: int, j: int|
            0 <= i < j < self.nodes@.len() ==> (#[trigger] self.nodes@[i]).node_id() != (
            #[trigger] self.nodes@[j]).node_id()
    }

    /// An identifier is registered exactly when some slot holds it.
    proof fn lemma_nodes_contains(&self, id: usize)
        ensures
            self@.nodes.contains(id) <==> exists|i: int|
                0 <= i < self.nodes@.len() && (#[trigger] self.nodes@[i]).node_id() == id,
    {
        let mapped = self.nodes@.map_values(|n: Node| n.node_id());
        if exists|i: int| 0 <= i < self.nodes@.len() && (#[trigger] self.nodes@[i]).node_id()
            == id {
            let i = choose|i: int|
                0 <= i < self.nodes@.len() && (#[trigger] self.nodes@[i]).node_id() == id;
            assert(mapped[i] == id);
            assert(mapped.contains(id));
        }
        if mapped.contains(id) {
            let i = choose|i: int| 0 <= i < mapped.len() && mapped[i] == id;
            assert(self.nodes@[i].node_id() == id);
        }
    }

    /// Two slots holding the same identifier are the same slot.
    proof fn lemma_index_unique(&self, i: int, j: int)
        requires
            self.wf(),
            0 <= i < self.nodes@.len(),
            0 <= j < self.nodes@.len(),
            self.nodes@[i].node_id() == self.nodes@[j].node_id(),
        ensures
            i == j,
    {
    }

    /// The edges leaving the node in slot `i` are exactly its recorded
    /// children.
    proof fn lemma_edges_at(&self, i: int)
        requires
            self.wf(),
            0 <= i < self.nodes@.len(),
        ensures
            forall|b: usize|
                self@.edges.contains((self.nodes@[i].node_id(), b)) <==> (
                #[trigger] self.nodes@[i].children_set().contains(b)),
    {
        assert forall|b: usize|
            self@.edges.contains((self.nodes@[i].node_id(), b)) <==> (
            #[trigger] self.nodes@[i].children_set().contains(b)) by {
            if self@.edges.contains((self.nodes@[i].node_id(), b)) {
                let j = choose|j: int|
                    0 <= j < self.nodes@.len() && (#[trigger] self.nodes@[j]).node_id()
                        == self.nodes@[i].node_id() && self.nodes@[j].children_set().contains(b);
                self.lemma_index_unique(i, j);
            }
        }
    }

    /// The model of a well-formed core graph is itself well-formed.
    pub proof fn lemma_model_wf(&self)
        ensures
            self@.wf(),
    {
        let mapped = self.nodes@.map_values(|n: Node| n.node_id());
        assert(self@.nodes.finite());
        assert forall|e: (usize, usize)| #[trigger] self@.edges.contains(e) implies self@
            .nodes.contains(e.0) by {
            let i = choose|i: int|
                0 <= i < self.nodes@.len() && (#[trigger] self.nodes@[i]).node_id() == e.0
                    && self.nodes@[i].children_set().contains(e.1);
            assert(mapped[i] == e.0);
            assert(mapped.contains(e.0));
        }
    }

    /// Returns the slot holding `id`, when there is one.
    #[verifier::loop_isolation(false)]
    fn find_index(&self, id: NodeID) -> (r: Option<usize>)
        requires
            self.wf(),
        ensures
            match r {
                Some(i) => i < self.nodes@.len() && self.nodes@[i as int].node_id() == id,
                None => !self@.nodes.contains(id),
            },
            r is Some <==> self@.nodes.contains(id),
    {
        proof {
            self.lemma_nodes_contains(id);
        }
        let mut i: usize = 0;
        while i < self.nodes.len()
            invariant
                i <= self.nodes@.len(),
                forall|j: int| 0 <= j < i ==> (#[trigger] self.nodes@[j]).node_id() != id,
            decreases self.nodes@.len() - i,
        {
            if self.nodes[i].id == id {
                assert((#[trigger] self.nodes@[i as int]).node_id() == id);
                return Some(i);
            }
            i += 1;
        }
        None
    }

    /// Creates an empty graph.
    pub fn new() -> (g: GraphCore)
        ensures
            g.wf(),
            g@ == GraphModel::empty(),
    {
        let g = GraphCore { nodes: Vec::new() };
        proof {
            assert(g.nodes@.map_values(|n: Node| n.node_id()).to_set() =~= Set::<usize>::empty());
            assert(g@.edges =~= Set::<(usize, usize)>::empty());
            assert(g@ == GraphModel::empty());
        }
        g
    }

    /// Registers a node under `new_id`, failing without any change when the
    /// identifier is already present.
    pub fn add_node(&mut self, new_id: NodeID) -> (r: Result<(), GraphError<NodeID>>)
        requires
            old(self).wf(),
        ensures
            final(self).wf(),
            match r {
                Ok(()) => !old(self)@.nodes.contains(new_id) && final(self)@.nodes == old(
                    self,
                )@.nodes.insert(new_id) && final(self)@.edges == old(self)@.edges,
                Err(e) => e == GraphError::DuplicateNode(new_id) && old(self)@.nodes.contains(
                    new_id,
                ) && *final(self) == *old(self),
            },
    {
        match self.find_index(new_id) {
            Some(_) => Err(GraphError::DuplicateNode(new_id)),
            None => {
                proof {
                    self.lemma_nodes_contains(new_id);
                }
                let n = Node::new(new_id);
                self.nodes.push(n);
                proof {
                    let prev = old(self).nodes@;
                    let now = self.nodes@;
                    let f = |n: Node| n.node_id();
                    assert(now == prev.push(n));
                    assert(now.map_values(f) =~= prev.map_values(f).push(new_id));
                    lemma_push_to_set(prev.map_values(f), new_id);
                    assert(self@.nodes == old(self)@.nodes.insert(new_id));
                    assert forall|e: (usize, usize)|
                        self@.edges.contains(e) <==> old(self)@.edges.contains(e) by {
                        if self@.edges.contains(e) {
                            let i = choose|i: int|
                                0 <= i < now.len() && (#[trigger] now[i]).node_id() == e.0
                                    && now[i].children_set().contains(e.1);
                            if i < prev.len() {
                                assert(old(self)@.edges.contains(e));
                            } else {
                                assert(now[i].children_set() == Set::<NodeID>::empty());
                                assert(false);
                            }
                        }
                        if old(self)@.edges.contains(e) {
                            let i = choose|i: int|
                                0 <= i < prev.len() && (#[trigger] prev[i]).node_id() == e.0
                                    && prev[i].children_set().contains(e.1);
                            assert(now[i] == prev[i]);
                            assert(self@.edges.contains(e));
                        }
                    }
                    assert(self@.edges =~= old(self)@.edges);
                }
                Ok(())
            },
        }
    }

    /// Records a directed edge, reporting whether that exact edge was already
    /// present. The starting node must have been registered.
    pub fn add_edge(&mut self, from_id: NodeID, to_id: NodeID) -> (already: bool)
        requires
            old(self).wf(),
            old(self)@.nodes.contains(from_id),
        ensures
            final(self).wf(),
            already == old(self)@.edges.contains((from_id, to_id)),
            final(self)@.nodes == old(self)@.nodes,
            final(self)@.edges == old(self)@.edges.insert((from_id, to_id)),
    {
        let i = match self.find_index(from_id) {
            Some(i) => i,
            None => vstd::pervasive::unreached(),
        };
        proof {
            self.lemma_edges_at(i as int);
        }
        let node = &mut self.nodes[i];
        let already = node.add_edge(to_id);
        proof {
            let prev = old(self).nodes@;
            let now = self.nodes@;
            let f = |n: Node| n.node_id();
            assert(now == prev.update(i as int, now[i as int]));
            assert(now[i as int].node_id() == from_id);
            assert(now.map_values(f) =~= prev.map_values(f));
            assert(self@.nodes == old(self)@.nodes);
            assert forall|e: (usize, usize)|
                self@.edges.contains(e) <==> (old(self)@.edges.contains(e) || e == (
                from_id,
                to_id,
            )) by {
                if self@.edges.contains(e) {
                    let j = choose|j: int|
                        0 <= j < now.len() && (#[trigger] now[j]).node_id() == e.0
                            && now[j].children_set().contains(e.1);
                    if j == i as int {
                        if e.1 != to_id {
                            assert(prev[j].children_set().contains(e.1));
                            assert(old(self)@.edges.contains(e));
                        }
                    } else {
                        assert(prev[j] == now[j]);
                        assert(old(self)@.edges.contains(e));
                    }
                }
                if old(self)@.edges.contains(e) {
                    let j = choose|j: int|
                        0 <= j < prev.len() && (#[trigger] prev[j]).node_id() == e.0
                            && prev[j].children_set().contains(e.1);
                    if j == i as int {
                        assert(now[j].children_set().contains(e.1));
                    } else {
                        assert(now[j] == prev[j]);
                    }
                    assert(self@.edges.contains(e));
                }
                if e == (from_id, to_id) {
                    assert(now[i as int].children_set().contains(to_id));
                    assert(self@.edges.contains(e));
                }
            }
            assert(self@.edges =~= old(self)@.edges.insert((from_id, to_id)));
        }
        already
    }

    /// One call of the depth-first cycle search: explores `node`, extending
    /// `visited` and restoring `rec_stack`, and on success leaves a witness
    /// closed walk in `cycle`.
    #[verifier::loop_isolation(false)]
    fn has_cycle_dfs(
        &self,
        node: NodeID,
        visited: &mut Vec<NodeID>,
        rec_stack: &mut Vec<NodeID>,
        cycle: &mut Vec<NodeID>,
    ) -> (found: bool)
        requires
            self.wf(),
            dfs_invariant(self@, old(visited)@, old(rec_stack)@),
            old(rec_stack)@.len() > 0 ==> self@.edges.contains((old(rec_stack)@.last(), node)),
        ensures
            found ==> is_cycle(self@, final(cycle)@) && final(cycle)@.drop_last().no_duplicates(),
            !found ==> {
                &&& final(rec_stack)@ == old(rec_stack)@
                &&& !final(rec_stack)@.contains(node)
                &&& old(visited)@.to_set().subset_of(final(visited)@.to_set())
                &&& final(visited)@.contains(node)
                &&& dfs_invariant(self@, final(visited)@, final(rec_stack)@)
            },
        decreases self@.nodes.difference(old(visited)@.to_set()).len(),
    {
        proof {
            self.lemma_model_wf();
        }
        let ghost v0 = visited@;
        let ghost rs0 = rec_stack@;
        if let Some(pos) = index_of(rec_stack, node) {
            let mut c: Vec<NodeID> = Vec::new();
            let mut k = pos;
            while k < rec_stack.len()
                invariant
                    pos <= k <= rs0.len(),
                    c@ == rs0.subrange(pos as int, k as int),
                decreases rs0.len() - k,
            {
                c.push(rec_stack[k]);
                proof {
                    assert(c@ =~= rs0.subrange(pos as int, k as int + 1));
                }
                k += 1;
            }
            c.push(node);
            *cycle = c;
            proof {
                let s = cycle@;
                let tail = rs0.subrange(pos as int, rs0.len() as int);
                assert(s == tail.push(node));
                assert(s.len() == rs0.len() - pos + 1 >= 2);
                assert(s.first() == rs0[pos as int] == node);
                assert(s.last() == node);
                assert forall|i: int| 0 <= i < s.len() - 1 implies #[trigger] self@.edges.contains(
                    (s[i], s[i + 1]),
                ) by {
                    if i < s.len() - 2 {
                        assert(s[i] == rs0[pos + i] && s[i + 1] == rs0[pos + i + 1]);
                        assert(self@.edges.contains((rs0[pos + i], rs0[pos + i + 1])));
                    } else {
                        assert(s[i] == rs0[rs0.len() - 1] == rs0.last());
                        assert(s[i + 1] == node);
                    }
                }
                assert(is_cycle(self@, s));
                assert(s.drop_last() =~= tail);
                assert forall|i: int, j: int|
                    0 <= i < tail.len() && 0 <= j < tail.len() && i != j implies tail[i] != tail[j]
                    by {
                    assert(tail[i] == rs0[pos + i] && tail[j] == rs0[pos + j]);
                }
            }
            return true;
        }
        if contains_id(visited, node) {
            return false;
        }
        visited.push(node);
        rec_stack.push(node);
        proof {
            lemma_push_to_set(v0, node);
            lemma_push_to_set(rs0, node);
            assert(!rs0.contains(node));
            assert(!v0.contains(node));
            assert forall|i: int, j: int|
                0 <= i < rec_stack@.len() && 0 <= j < rec_stack@.len() && i != j implies rec_stack@[i]
                != rec_stack@[j] by {
                if i < rs0.len() && j < rs0.len() {
                    assert(rs0[i] != rs0[j]);
                } else if i == rs0.len() {
                    assert(rec_stack@[j] == rs0[j]);
                    assert(v0.contains(rs0[j]));
                } else if j == rs0.len() {
                    assert(rec_stack@[i] == rs0[i]);
                    assert(v0.contains(rs0[i]));
                }
            }
            assert(rec_stack@.no_duplicates());
            assert forall|i: int|
                0 <= i < rec_stack@.len() - 1 implies #[trigger] self@.edges.contains(
                (rec_stack@[i], rec_stack@[i + 1]),
            ) by {
                if i < rs0.len() - 1 {
                    assert(rec_stack@[i] == rs0[i] && rec_stack@[i + 1] == rs0[i + 1]);
                    assert(self@.edges.contains((rs0[i], rs0[i + 1])));
                } else {
                    assert(rec_stack@[i] == rs0.last() && rec_stack@[i + 1] == node);
                }
            }
            assert forall|i: int| 0 <= i < rec_stack@.len() implies visited@.contains(
                #[trigger] rec_stack@[i],
            ) by {
                if i < rs0.len() {
                    assert(rec_stack@[i] == rs0[i]);
                    assert(v0.contains(rs0[i]));
                    let k = choose|k: int| 0 <= k < v0.len() && v0[k] == rs0[i];
                    assert(visited@[k] == rs0[i]);
                } else {
                    assert(rec_stack@[i] == node);
                    assert(visited@[v0.len() as int] == node);
                }
            }
            assert(finished_set(visited@, rec_stack@) =~= finished_set(v0, rs0));
            assert(dfs_invariant(self@, visited@, rec_stack@));
        }
        let ghost v1 = visited@;
        let ghost rs1 = rec_stack@;
        let idx_opt = self.find_index(node);
        if let Some(i) = idx_opt {
            proof {
                self.lemma_edges_at(i as int);
            }
            let mut j: usize = 0;
            while j < self.nodes[i].children.len()
                invariant
                    j <= self.nodes@[i as int].children@.len(),
                    rec_stack@ == rs1,
                    v1.to_set().subset_of(visited@.to_set()),
                    dfs_invariant(self@, visited@, rec_stack@),
                    forall|k: int|
                        0 <= k < j ==> finished_set(visited@, rec_stack@).contains(
                            #[trigger] self.nodes@[i as int].children@[k],
                        ),
                decreases self.nodes@[i as int].children@.len() - j,
            {
                let child = self.nodes[i].children[j];
                proof {
                    assert(self.nodes@[i as int].children@[j as int] == child);
                    assert(self.nodes@[i as int].children_set().contains(child));
                    assert(rec_stack@.last() == node);
                    assert(self@.edges.contains((node, child)));
                    assert(self@.nodes.contains(node)) by {
                        self.lemma_nodes_contains(node);
                    }
                    lemma_unvisited_shrinks(self@.nodes, v0.to_set(), node);
                    lemma_unvisited_monotone(self@.nodes, v0.to_set().insert(node), visited@.to_set());
                }
                let ghost v_before = visited@;
                if self.has_cycle_dfs(child, visited, rec_stack, cycle) {
                    return true;
                }
                proof {
                    assert(finished_set(visited@, rec_stack@).contains(child));
                    assert forall|k: int| 0 <= k < j + 1 implies finished_set(
                        visited@,
                        rec_stack@,
                    ).contains(#[trigger] self.nodes@[i as int].children@[k]) by {
                        if k < j {
                            assert(finished_set(v_before, rec_stack@).contains(
                                self.nodes@[i as int].children@[k],
                            ));
                            assert(v_before.to_set().subset_of(visited@.to_set()));
                        }
                    }
                }
                j += 1;
            }
            let _ = rec_stack.pop();
            proof {
                assert(rec_stack@ =~= rs0);
                let fin1 = finished_set(visited@, rs1);
                let fin = finished_set(visited@, rs0);
                assert(fin =~= fin1.insert(node));
                assert forall|w: usize| #[trigger] self@.edges.contains((node, w)) implies fin1
                    .contains(w) by {
                    assert(self.nodes@[i as int].children_set().contains(w));
                    assert(self.nodes@[i as int].children@.contains(w));
                    let k = choose|k: int|
                        0 <= k < self.nodes@[i as int].children@.len() && self.nodes@[i as int].children@[k]
                            == w;
                    assert(fin1.contains(self.nodes@[i as int].children@[k]));
                }
                lemma_finished_node_not_on_cycle(self@, fin1, node);
                assert(closed_under_edges(self@, fin)) by {
                    assert forall|a: usize, b: usize|
                        fin.contains(a) && #[trigger] self@.edges.contains((a, b)) implies fin
                        .contains(b) by {
                        if a == node {
                            assert(fin1.contains(b));
                        } else {
                            assert(fin1.contains(a));
                            assert(fin1.contains(b));
                        }
                    }
                }
                assert forall|v: usize| #[trigger] fin.contains(v) implies !on_cycle(self@, v) by {
                    if v != node {
                        assert(fin1.contains(v));
                    }
                }
                assert(cycle_free(self@, fin));
                assert(dfs_invariant(self@, visited@, rec_stack@));
                assert(visited@.contains(node)) by {
                    assert(v1.to_set().contains(node));
                }
            }
            false
        } else {
            let _ = rec_stack.pop();
            proof {
                assert(rec_stack@ =~= rs0);
                let fin1 = finished_set(v1, rs1);
                let fin = finished_set(v1, rs0);
                assert(fin =~= fin1.insert(node));
                assert forall|w: usize| #[trigger] self@.edges.contains((node, w)) implies fin1
                    .contains(w) by {
                    assert(self@.nodes.contains(node));
                    assert(false);
                }
                lemma_finished_node_not_on_cycle(self@, fin1, node);
                assert(closed_under_edges(self@, fin)) by {
                    assert forall|a: usize, b: usize|
                        fin.contains(a) && #[trigger] self@.edges.contains((a, b)) implies fin
                        .contains(b) by {
                        if a == node {
                            assert(self@.nodes.contains(node));
                            assert(false);
                        } else {
                            assert(fin1.contains(a));
                            assert(fin1.contains(b));
                        }
                    }
                }
                assert forall|v: usize| #[trigger] fin.contains(v) implies !on_cycle(self@, v) by {
                    if v != node {
                        assert(fin1.contains(v));
                    }
                }
                assert(cycle_free(self@, fin));
                assert(dfs_invariant(self@, visited@, rec_stack@));
                assert(visited@.contains(node)) by {
                    assert(v1.to_set().contains(node));
                }
            }
            false
        }
    }

    /// Scans the whole graph for a cycle. The answer is `Some` exactly when
    /// a closed walk exists, and the witness is a closed walk whose nodes,
    /// apart from the repeated endpoint, are pairwise distinct.
    #[verifier::loop_isolation(false)]
    pub fn detect_cycle(&self) -> (r: Option<Vec<NodeID>>)
        requires
            self.wf(),
        ensures
            match r {
                Some(c) => is_cycle(self@, c@) && c@.drop_last().no_duplicates(),
                None => !has_cycle(self@),
            },
            r is Some <==> has_cycle(self@),
    {
        proof {
            self.lemma_model_wf();
        }
        let mut visited: Vec<NodeID> = Vec::new();
        let mut rec_stack: Vec<NodeID> = Vec::new();
        let mut cycle: Vec<NodeID> = Vec::new();
        proof {
            assert(finished_set(visited@, rec_stack@) =~= Set::<usize>::empty());
            assert(dfs_invariant(self@, visited@, rec_stack@));
        }
        let mut idx: usize = 0;
        while idx < self.nodes.len()
            invariant
                idx <= self.nodes@.len(),
                rec_stack@ == Seq::<NodeID>::empty(),
                dfs_invariant(self@, visited@, rec_stack@),
                forall|k: int|
                    0 <= k < idx ==> visited@.contains((#[trigger] self.nodes@[k]).node_id()),
            decreases self.nodes@.len() - idx,
        {
            let id = self.nodes[idx].id;
            let ghost v_before = visited@;
            if !contains_id(&visited, id) {
                if self.has_cycle_dfs(id, &mut visited, &mut rec_stack, &mut cycle) {
                    proof {
                        assert(is_cycle(self@, cycle@));
                        assert(has_cycle(self@));
                    }
                    return Some(cycle);
                }
            }
            proof {
                assert(visited@.contains(id));
                assert forall|k: int| 0 <= k < idx + 1 implies visited@.contains(
                    (#[trigger] self.nodes@[k]).node_id(),
                ) by {
                    if k < idx {
                        let x = self.nodes@[k].node_id();
                        assert(v_before.contains(x));
                        assert(v_before.to_set().contains(x));
                        assert(v_before.to_set().subset_of(visited@.to_set()));
                        assert(visited@.to_set().contains(x));
                    }
                }
            }
            idx += 1;
        }
        proof {
            let fin = finished_set(visited@, rec_stack@);
            assert forall|v: usize| #[trigger] self@.nodes.contains(v) implies fin.contains(v) by {
                self.lemma_nodes_contains(v);
                let k = choose|k: int|
                    0 <= k < self.nodes@.len() && (#[trigger] self.nodes@[k]).node_id() == v;
                assert(visited@.contains(self.nodes@[k].node_id()));
                assert(!rec_stack@.to_set().contains(v));
            }
            lemma_all_finished_no_cycle(self@, fin);
        }
        None
    }

    /// Visits every node reachable from `start` exactly once, depth first,
    /// and returns the identifiers in first-visit order, beginning with
    /// `start`. An unregistered `start` yields no visits and no error.
    #[verifier::loop_isolation(false)]
    pub fn traverse(&self, start: NodeID) -> (order: Vec<NodeID>)
        requires
            self.wf(),
        ensures
            !self@.nodes.contains(start) ==> order@.len() == 0,
            self@.nodes.contains(start) ==> visit_order(self@, start, order@),
    {
        proof {
            self.lemma_model_wf();
            lemma_reaches_self(self@, start);
        }
        if self.find_index(start).is_none() {
            return Vec::new();
        }
        let mut visited: Vec<NodeID> = Vec::new();
        let mut stack: Vec<NodeID> = Vec::new();
        stack.push(start);
        proof {
            assert(stack@ =~= seq![start]);
            assert(stack@[0] == start);
            assert(stack@.contains(start));
        }
        while stack.len() > 0
            invariant
                visited@.no_duplicates(),
                forall|k: int| 0 <= k < visited@.len() ==> reaches(self@, start, #[trigger] visited@[k]),
                forall|k: int| 0 <= k < stack@.len() ==> reaches(self@, start, #[trigger] stack@[k]),
                forall|u: usize, w: usize|
                    visited@.contains(u) && #[trigger] self@.edges.contains((u, w))
                        ==> visited@.contains(w) || stack@.contains(w),
                visited@.contains(start) || stack@.contains(start),
                visited@.len() == 0 ==> stack@ == seq![start],
                visited@.len() > 0 ==> visited@[0] == start,
            decreases self@.nodes.difference(visited@.to_set()).len(), stack@.len(),
        {
            let ghost stack0 = stack@;
            let ghost v0 = visited@;
            let node = match stack.pop() {
                Some(n) => n,
                None => vstd::pervasive::unreached(),
            };
            proof {
                assert(node == stack0.last());
                assert(stack0.contains(node));
            }
            if !contains_id(&visited, node) {
                visited.push(node);
                proof {
                    lemma_push_to_set(v0, node);
                    assert(visited@[v0.len() as int] == node);
                    assert(visited@.contains(node));
                    assert forall|k: int| 0 <= k < visited@.len() implies reaches(
                        self@,
                        start,
                        #[trigger] visited@[k],
                    ) by {
                        if k < v0.len() {
                            assert(visited@[k] == v0[k]);
                        } else {
                            assert(visited@[k] == node);
                        }
                    }
                    if v0.len() == 0 {
                        assert(stack0 == seq![start]);
                        assert(node == start);
                    }
                    assert forall|a: int, b: int|
                        0 <= a < visited@.len() && 0 <= b < visited@.len() && a != b implies visited@[a]
                        != visited@[b] by {
                        if a < v0.len() && b < v0.len() {
                            assert(visited@[a] == v0[a] && visited@[b] == v0[b]);
                        } else if a == v0.len() {
                            assert(visited@[a] == node && visited@[b] == v0[b]);
                            if v0[b] == node {
                                assert(v0.contains(node));
                                assert(false);
                            }
                        } else {
                            assert(visited@[b] == node && visited@[a] == v0[a]);
                            if v0[a] == node {
                                assert(v0.contains(node));
                                assert(false);
                            }
                        }
                    }
                    assert(visited@.no_duplicates());
                }
                let idx_opt = self.find_index(node);
                if let Some(i) = idx_opt {
                    proof {
                        self.lemma_edges_at(i as int);
                        assert(self@.nodes.contains(node)) by {
                            self.lemma_nodes_contains(node);
                        }
                        lemma_unvisited_shrinks(self@.nodes, v0.to_set(), node);
                    }
                    let ghost base = stack@;
                    let ghost ch = self.nodes@[i as int].children@;
                    let mut j: usize = 0;
                    while j < self.nodes[i].children.len()
                        invariant
                            j <= ch.len(),
                            stack@ == base + ch.subrange(0, j as int),
                        decreases ch.len() - j,
                    {
                        let child = self.nodes[i].children[j];
                        stack.push(child);
                        proof {
                            assert(stack@ =~= base + ch.subrange(0, j as int + 1));
                        }
                        j += 1;
                    }
                    proof {
                        assert(stack@ == base + ch);
                        assert forall|k: int| 0 <= k < stack@.len() implies reaches(
                            self@,
                            start,
                            #[trigger] stack@[k],
                        ) by {
                            if k < base.len() {
                                assert(stack@[k] == base[k] == stack0[k]);
                            } else {
                                let w = ch[k - base.len()];
                                assert(stack@[k] == w);
                                assert(ch.contains(w));
                                assert(self.nodes@[i as int].children_set().contains(w));
                                assert(self@.edges.contains((node, w)));
                                lemma_reaches_step(self@, start, node, w);
                            }
                        }
                        assert forall|u: usize, w: usize|
                            visited@.contains(u) && #[trigger] self@.edges.contains((u, w)) implies (
                        visited@.contains(w) || stack@.contains(w)) by {
                            if u == node {
                                assert(self.nodes@[i as int].children_set().contains(w));
                                assert(ch.contains(w));
                                let k = choose|k: int| 0 <= k < ch.len() && ch[k] == w;
                                assert(stack@[base.len() + k] == w);
                                assert(stack@.contains(w));
                            } else {
                                lemma_seq_push_contains(v0, node, u);
                                assert(v0.contains(u));
                                if !visited@.contains(w) {
                                    lemma_seq_push_contains(v0, node, w);
                                    assert(!v0.contains(w));
                                    assert(stack0.contains(w));
                                    let k = choose|k: int| 0 <= k < stack0.len() && stack0[k] == w;
                                    if k < stack0.len() - 1 {
                                        assert(stack@[k] == base[k] == stack0[k]);
                                        assert(stack@.contains(w));
                                    } else {
                                        assert(w == node);
                                        assert(visited@.contains(node));
                                        assert(false);
                                    }
                                }
                            }
                        }
                    }
                } else {
                    proof {
                        lemma_unvisited_same(self@.nodes, v0.to_set(), node);
                        assert forall|u: usize, w: usize|
                            visited@.contains(u) && #[trigger] self@.edges.contains((u, w)) implies (
                        visited@.contains(w) || stack@.contains(w)) by {
                            if u == node {
                                assert(self@.nodes.contains(node));
                                assert(false);
                            } else {
                                lemma_seq_push_contains(v0, node, u);
                                assert(v0.contains(u));
                                if !visited@.contains(w) {
                                    lemma_seq_push_contains(v0, node, w);
                                    assert(!v0.contains(w));
                                    assert(stack0.contains(w));
                                    let k = choose|k: int| 0 <= k < stack0.len() && stack0[k] == w;
                                    if k < stack0.len() - 1 {
                                        assert(stack@[k] == stack0[k]);
                                        assert(stack@.contains(w));
                                    } else {
                                        assert(w == node);
                                        assert(visited@.contains(node));
                                        assert(false);
                                    }
                                }
                            }
                        }
                    }
                }
            } else {
                proof {
                    assert(visited@.contains(node));
                    assert forall|u: usize, w: usize|
                        visited@.contains(u) && #[trigger] self@.edges.contains((u, w)) implies (
                    visited@.contains(w) || stack@.contains(w)) by {
                        if !visited@.contains(w) {
                            assert(stack0.contains(w));
                            let k = choose|k: int| 0 <= k < stack0.len() && stack0[k] == w;
                            if k < stack0.len() - 1 {
                                assert(stack@[k] == stack0[k]);
                                assert(stack@.contains(w));
                            } else {
                                assert(w == node);
                                assert(visited@.contains(w));
                                assert(false);
                            }
                        }
                    }
                }
            }
            proof {
                if !visited@.contains(start) {
                    assert(visited@.contains(node));
                    if v0.contains(start) {
                        let k = choose|k: int| 0 <= k < v0.len() && v0[k] == start;
                        assert(visited@[k] == start);
                        assert(false);
                    }
                    assert(stack0.contains(start));
                    let k = choose|k: int| 0 <= k < stack0.len() && stack0[k] == start;
                    if k < stack0.len() - 1 {
                        assert(stack@[k] == stack0[k]);
                        assert(stack@.contains(start));
                    } else {
                        assert(start == node);
                        assert(false);
                    }
                }
            }
        }
        proof {
            assert(visited@.contains(start));
            assert(closed_under_edges(self@, visited@.to_set()));
            assert forall|v: usize| #[trigger] reaches(self@, start, v) implies visited@.contains(
                v,
            ) by {
                lemma_reachable_in_closed(self@, visited@.to_set(), start, v);
            }
            assert(visit_order(self@, start, visited@));
        }
        visited
    }
}

} // verus!
