//! The mathematical model of a directed graph, and the lemmas about walks,
//! cycles and reachability that the executable layers are verified against.

use vstd::prelude::*;
use vstd::set_lib::lemma_len_subset;
use vstd::set_lib::lemma_set_subset_finite;

verus! {

broadcast use vstd::set::group_set_axioms;

/// A directed graph as mathematics sees it: a finite set of registered node
/// identifiers and a set of directed edges. An edge always starts at a
/// registered node; its target may be an identifier that was never registered
/// (the core layer does not validate targets).
pub struct GraphModel {
    pub nodes: Set<usize>,
    pub edges: Set<(usize, usize)>,
}

impl GraphModel {
    /// The graph with no nodes and no edges.
    pub open spec fn empty() -> GraphModel {
        GraphModel { nodes: Set::empty(), edges: Set::empty() }
    }

    /// Every edge starts at a registered node, and there are finitely many
    /// nodes.
    pub open spec fn wf(self) -> bool {
        &&& self.nodes.finite()
        &&& forall|e: (usize, usize)| #[trigger] self.edges.contains(e) ==> self.nodes.contains(e.0)
    }
}

/// `s` is a closed walk: it has at least one edge, starts and ends at the
/// same node, and follows an edge of `m` at every step.
pub open spec fn is_cycle(m: GraphModel, s: Seq<usize>) -> bool {
    &&& s.len() >= 2
    &&& s.first() == s.last()
    &&& forall|i: int| 0 <= i < s.len() - 1 ==> #[trigger] m.edges.contains((s[i], s[i + 1]))
}

/// Some closed walk exists in `m`.
pub open spec fn has_cycle(m: GraphModel) -> bool {
    exists|s: Seq<usize>| is_cycle(m, s)
}

/// Node `v` lies on some closed walk of `m`.
pub open spec fn on_cycle(m: GraphModel, v: usize) -> bool {
    exists|s: Seq<usize>| is_cycle(m, s) && s.contains(v)
}

/// `s` is a walk: nonempty, and following an edge of `m` at every step.
pub open spec fn is_path(m: GraphModel, s: Seq<usize>) -> bool {
    &&& s.len() >= 1
    &&& forall|i: int| 0 <= i < s.len() - 1 ==> #[trigger] m.edges.contains((s[i], s[i + 1]))
}

/// Node `b` can be reached from node `a` by following edges of `m`. Every
/// node reaches itself by the one-node walk.
pub open spec fn reaches(m: GraphModel, a: usize, b: usize) -> bool {
    exists|s: Seq<usize>| is_path(m, s) && s.first() == a && s.last() == b
}

/// No edge leaves the set `f`.
pub open spec fn closed_under_edges(m: GraphModel, f: Set<usize>) -> bool {
    forall|a: usize, b: usize|
        f.contains(a) && #[trigger] m.edges.contains((a, b)) ==> f.contains(b)
}

/// No member of `f` lies on a closed walk of `m`.
pub open spec fn cycle_free(m: GraphModel, f: Set<usize>) -> bool {
    forall|v: usize| #[trigger] f.contains(v) ==> !on_cycle(m, v)
}

/// `s` is a valid visit order for a traversal of `m` from `start`: it
/// begins at `start` and lists each node reachable from `start` exactly
/// once, and nothing else.
pub open spec fn visit_order(m: GraphModel, start: usize, s: Seq<usize>) -> bool {
    &&& s.no_duplicates()
    &&& forall|v: usize|
        #![trigger s.contains(v)]
        #![trigger reaches(m, start, v)]
        s.contains(v) <==> reaches(m, start, v)
    &&& s.len() > 0
    &&& s[0] == start
}

/// A node reached from `a` is `a` itself or the target of some edge.
pub proof fn lemma_reached_is_edge_target(m: GraphModel, a: usize, b: usize)
    requires
        reaches(m, a, b),
    ensures
        b == a || exists|x: usize| #[trigger] m.edges.contains((x, b)),
{
    let s = choose|s: Seq<usize>| is_path(m, s) && s.first() == a && s.last() == b;
    if s.len() == 1 {
        assert(b == a);
    } else {
        let k = s.len() - 2;
        assert(0 <= k < s.len() - 1);
        assert(m.edges.contains((s[k], s[k + 1])));
        assert(s[k + 1] == b);
    }
}

/// Reachability is reflexive.
pub proof fn lemma_reaches_self(m: GraphModel, a: usize)
    ensures
        reaches(m, a, a),
{
    let s = seq![a];
    assert(is_path(m, s));
    assert(s.first() == a && s.last() == a);
}

/// Reachability extends along an edge.
pub proof fn lemma_reaches_step(m: GraphModel, a: usize, b: usize, c: usize)
    requires
        reaches(m, a, b),
        m.edges.contains((b, c)),
    ensures
        reaches(m, a, c),
{
    let s = choose|s: Seq<usize>| is_path(m, s) && s.first() == a && s.last() == b;
    let t = s.push(c);
    assert forall|i: int| 0 <= i < t.len() - 1 implies #[trigger] m.edges.contains(
        (t[i], t[i + 1]),
    ) by {
        if i < s.len() - 1 {
            assert(t[i] == s[i] && t[i + 1] == s[i + 1]);
        } else {
            assert(t[i] == s.last() && t[i + 1] == c);
        }
    }
    assert(is_path(m, t));
    assert(t.first() == a && t.last() == c);
}

/// A closed walk can be rotated so that it starts (and ends) at the node
/// found at any chosen position.
pub proof fn lemma_cycle_rotate(m: GraphModel, s: Seq<usize>, i: int)
    requires
        is_cycle(m, s),
        0 <= i < s.len() - 1,
    ensures
        is_cycle(m, s.subrange(i, s.len() as int) + s.subrange(1, i + 1)),
        (s.subrange(i, s.len() as int) + s.subrange(1, i + 1)).first() == s[i],
        (s.subrange(i, s.len() as int) + s.subrange(1, i + 1)).contains(s[i]),
{
    let n = s.len() as int;
    let t = s.subrange(i, n) + s.subrange(1, i + 1);
    assert(t.len() == n);
    assert(t.first() == s[i]);
    assert(t.last() == if i == 0 { s[n - 1] } else { s[i] });
    assert(t.last() == s[i]);
    assert forall|j: int| 0 <= j < t.len() - 1 implies #[trigger] m.edges.contains(
        (t[j], t[j + 1]),
    ) by {
        if j < n - i - 1 {
            assert(t[j] == s[i + j] && t[j + 1] == s[i + j + 1]);
            assert(m.edges.contains((s[i + j], s[i + j + 1])));
        } else if j == n - i - 1 {
            assert(t[j] == s[n - 1] && t[j + 1] == s[1]);
            assert(s[n - 1] == s[0]);
            assert(m.edges.contains((s[0], s[1])));
        } else {
            let k = j - (n - i) + 1;
            assert(t[j] == s[k] && t[j + 1] == s[k + 1]);
            assert(m.edges.contains((s[k], s[k + 1])));
        }
    }
    assert(t.contains(s[i])) by {
        assert(t[0] == s[i]);
    }
}

/// A node on a closed walk has a successor that is also on a closed walk.
pub proof fn lemma_on_cycle_successor(m: GraphModel, v: usize)
    requires
        on_cycle(m, v),
    ensures
        exists|w: usize| #[trigger] m.edges.contains((v, w)) && on_cycle(m, w),
{
    let s = choose|s: Seq<usize>| is_cycle(m, s) && s.contains(v);
    let j = choose|j: int| 0 <= j < s.len() && s[j] == v;
    let i = if j == s.len() - 1 { 0int } else { j };
    assert(s[i] == v);
    lemma_cycle_rotate(m, s, i);
    let t = s.subrange(i, s.len() as int) + s.subrange(1, i + 1);
    let w = t[1];
    assert(m.edges.contains((t[0], t[1])));
    assert(m.edges.contains((v, w)));
    if t.len() == 2 {
        assert(w == t.last() == v);
        assert(on_cycle(m, w));
    } else {
        lemma_cycle_rotate(m, t, 1);
        let u = t.subrange(1, t.len() as int) + t.subrange(1, 2);
        assert(is_cycle(m, u) && u.contains(w));
        assert(on_cycle(m, w));
    }
}

/// A node whose successors all lie in a cycle-free set is itself on no
/// closed walk.
pub proof fn lemma_finished_node_not_on_cycle(m: GraphModel, f: Set<usize>, v: usize)
    requires
        cycle_free(m, f),
        forall|w: usize| #[trigger] m.edges.contains((v, w)) ==> f.contains(w),
    ensures
        !on_cycle(m, v),
{
    if on_cycle(m, v) {
        lemma_on_cycle_successor(m, v);
        let w = choose|w: usize| #[trigger] m.edges.contains((v, w)) && on_cycle(m, w);
        assert(f.contains(w));
        assert(false);
    }
}

/// If every registered node lies in a cycle-free set, the graph has no
/// cycle at all.
pub proof fn lemma_all_finished_no_cycle(m: GraphModel, f: Set<usize>)
    requires
        m.wf(),
        cycle_free(m, f),
        forall|v: usize| #[trigger] m.nodes.contains(v) ==> f.contains(v),
    ensures
        !has_cycle(m),
{
    if has_cycle(m) {
        let s = choose|s: Seq<usize>| is_cycle(m, s);
        assert(is_cycle(m, s));
        assert(0 <= 0 < s.len() - 1);
        assert(m.edges.contains((s[0int], s[0int + 1])));
        assert(m.edges.contains((s[0], s[1])));
        assert(m.nodes.contains(s[0]));
        assert(s.contains(s[0])) by {
            assert(s[0] == s[0]);
        }
        assert(on_cycle(m, s[0]));
        assert(f.contains(s[0]));
        assert(false);
    }
}

/// A walk that starts inside an edge-closed set ends inside it.
pub proof fn lemma_path_stays_in_closed(m: GraphModel, f: Set<usize>, s: Seq<usize>)
    requires
        closed_under_edges(m, f),
        is_path(m, s),
        f.contains(s.first()),
    ensures
        f.contains(s.last()),
    decreases s.len(),
{
    if s.len() > 1 {
        let p = s.drop_last();
        assert(is_path(m, p)) by {
            assert(forall|i: int|
                0 <= i < p.len() - 1 ==> #[trigger] m.edges.contains((p[i], p[i + 1]))
                    == m.edges.contains((s[i], s[i + 1])));
        }
        lemma_path_stays_in_closed(m, f, p);
        let k = s.len() - 2;
        assert(0 <= k < s.len() - 1);
        assert(m.edges.contains((s[k], s[k + 1])));
        assert(p.last() == s[k]);
        assert(s.last() == s[k + 1]);
    }
}

/// Everything reachable from a member of an edge-closed set is a member.
pub proof fn lemma_reachable_in_closed(m: GraphModel, f: Set<usize>, a: usize, b: usize)
    requires
        closed_under_edges(m, f),
        f.contains(a),
        reaches(m, a, b),
    ensures
        f.contains(b),
{
    let s = choose|s: Seq<usize>| is_path(m, s) && s.first() == a && s.last() == b;
    lemma_path_stays_in_closed(m, f, s);
}

/// Growing the visited set cannot grow the count of unvisited nodes.
pub proof fn lemma_unvisited_monotone(nodes: Set<usize>, v1: Set<usize>, v2: Set<usize>)
    requires
        nodes.finite(),
        v1.subset_of(v2),
    ensures
        nodes.difference(v2).len() <= nodes.difference(v1).len(),
{
    lemma_set_subset_finite(nodes, nodes.difference(v1));
    lemma_set_subset_finite(nodes, nodes.difference(v2));
    lemma_len_subset(nodes.difference(v2), nodes.difference(v1));
}

/// Visiting a registered, unvisited node strictly shrinks the count of
/// unvisited nodes.
pub proof fn lemma_unvisited_shrinks(nodes: Set<usize>, visited: Set<usize>, v: usize)
    requires
        nodes.finite(),
        nodes.contains(v),
        !visited.contains(v),
    ensures
        nodes.difference(visited.insert(v)).len() < nodes.difference(visited).len(),
{
    let d1 = nodes.difference(visited);
    let d2 = nodes.difference(visited.insert(v));
    lemma_set_subset_finite(nodes, d1);
    assert(d2 =~= d1.remove(v));
    assert(d1.contains(v));
    assert(d1.remove(v).len() == d1.len() - 1);
}

/// Visiting a node that is not registered leaves the count of unvisited
/// nodes unchanged.
pub proof fn lemma_unvisited_same(nodes: Set<usize>, visited: Set<usize>, v: usize)
    requires
        !nodes.contains(v),
    ensures
        nodes.difference(visited.insert(v)) == nodes.difference(visited),
{
    assert(nodes.difference(visited.insert(v)) =~= nodes.difference(visited));
}

/// The elements of a pushed sequence are the old elements and the new one.
pub proof fn lemma_seq_push_contains<A>(s: Seq<A>, x: A, y: A)
    ensures
        s.push(x).contains(y) <==> (s.contains(y) || y == x),
{
    if s.push(x).contains(y) {
        let k = choose|k: int| 0 <= k < s.push(x).len() && s.push(x)[k] == y;
        if k < s.len() {
            assert(s[k] == y);
        }
    }
    if s.contains(y) {
        let k = choose|k: int| 0 <= k < s.len() && s[k] == y;
        assert(s.push(x)[k] == y);
    }
    if y == x {
        assert(s.push(x)[s.len() as int] == y);
    }
}

/// Pushing onto a sequence inserts into the set of its elements.
pub proof fn lemma_push_to_set<A>(s: Seq<A>, x: A)
    ensures
        s.push(x).to_set() == s.to_set().insert(x),
{
    assert forall|y: A| s.push(x).to_set().contains(y) <==> s.to_set().insert(x).contains(
        y,
    ) by {
        if s.push(x).contains(y) {
            let i = choose|i: int| 0 <= i < s.push(x).len() && s.push(x)[i] == y;
            if i < s.len() {
                assert(s[i] == y);
            }
        }
        if s.contains(y) {
            let i = choose|i: int| 0 <= i < s.len() && s[i] == y;
            assert(s.push(x)[i] == y);
        }
        if y == x {
            assert(s.push(x)[s.len() as int] == x);
        }
    }
    assert(s.push(x).to_set() =~= s.to_set().insert(x));
}

} // verus!
