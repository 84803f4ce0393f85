//! The integer-keyed graph: the keyed layer specialized to `usize` keys,
//! with cycle reports given in internal identifiers.

use vstd::prelude::*;
use vstd::laws_eq::obeys_eq;
use vstd::std_specs::cmp::PartialEqSpec;

use crate::errors::GraphError;
use crate::graph_core::NodeID;
use crate::keyed::Graph;
use crate::keyed::eq_reliable;
use crate::model::GraphModel;
use crate::model::has_cycle;
use crate::model::is_cycle;

verus! {

broadcast use vstd::laws_eq::group_laws_eq;

/// A directed graph whose nodes are named by caller-supplied `usize` keys:
/// a thin specialization of the generic keyed graph. Cycle detection
/// reports internal identifiers, which [`UsizeGraph::get_node_by_id`]
/// translates back to keys.
pub struct UsizeGraph {
    inner: Graph<usize>,
}

impl UsizeGraph {
    /// The registered keys, in registration order; the key at position `i`
    /// owns identifier `i`.
    pub closed spec fn key_seq(&self) -> Seq<usize> {
        self.inner.key_seq()
    }

    /// The identifier-level graph this value represents.
    pub closed spec fn model(&self) -> GraphModel {
        self.inner.model()
    }

    /// Whether `k` is a registered key.
    pub open spec fn has_key(&self, k: usize) -> bool {
        self.key_seq().contains(k)
    }

    /// The identifier owned by the registered key `k`.
    pub open spec fn key_id(&self, k: usize) -> int {
        choose|i: int| 0 <= i < self.key_seq().len() && self.key_seq()[i] == k
    }

    /// The invariant of the wrapped keyed graph.
    pub closed spec fn wf(&self) -> bool {
        self.inner.wf()
    }

    /// For `usize` keys, key membership in the two layers coincides.
    proof fn lemma_has_key_eq(&self, k: usize)
        ensures
            self.inner.has_key(k) <==> self.has_key(k),
    {
        if self.inner.has_key(k) {
            let i = choose|i: int|
                0 <= i < self.inner.key_seq().len() && (#[trigger] self.inner.key_seq()[i]).eq_spec(
                    &k,
                );
            assert(self.key_seq()[i] == k);
        }
        if self.has_key(k) {
            let i = choose|i: int| 0 <= i < self.key_seq().len() && self.key_seq()[i] == k;
            assert((#[trigger] self.inner.key_seq()[i]).eq_spec(&k));
        }
    }

    /// For `usize` keys, the two layers agree on the identifier of a key.
    proof fn lemma_key_id_eq(&self, k: usize)
        requires
            self.wf(),
            self.has_key(k),
        ensures
            self.inner.key_id(k) == self.key_id(k),
            0 <= self.key_id(k) < self.key_seq().len(),
            self.key_seq()[self.key_id(k)] == k,
    {
        let i = self.key_id(k);
        assert(0 <= i < self.key_seq().len() && self.key_seq()[i] == k);
        assert(self.inner.key_seq()[i].eq_spec(&k));
        self.inner.lemma_key_id_is(k, i);
    }

    /// Creates an empty integer-keyed graph.
    pub fn new() -> (g: UsizeGraph)
        ensures
            g.wf(),
            g.key_seq() == Seq::<usize>::empty(),
            g.model() == GraphModel::empty(),
    {
        proof {
            assert(obeys_eq::<usize>());
            assert(eq_reliable::<usize>());
        }
        UsizeGraph { inner: Graph::new() }
    }

    /// Returns the key owning identifier `id`, when the identifier has been
    /// allocated.
    pub fn get_node_by_id(&self, id: &NodeID) -> (r: Option<&usize>)
        requires
            self.wf(),
        ensures
            match r {
                Some(k) => *id < self.key_seq().len() && *k == self.key_seq()[*id as int],
                None => *id >= self.key_seq().len(),
            },
    {
        self.inner.get_node_by_id(id)
    }

    /// Registers `u` as a new node, allocating the next identifier for it.
    /// Fails, changing nothing, when `u` is already registered.
    pub fn add_node(&mut self, u: usize) -> (r: Result<(), GraphError<usize>>)
        requires
            old(self).wf(),
        ensures
            final(self).wf(),
            match r {
                Ok(()) => {
                    &&& !old(self).has_key(u)
                    &&& final(self).key_seq() == old(self).key_seq().push(u)
                    &&& final(self).model().nodes == old(self).model().nodes.insert(
                        old(self).key_seq().len() as usize,
                    )
                    &&& final(self).model().edges == old(self).model().edges
                },
                Err(e) => {
                    &&& e == GraphError::<usize>::DuplicateNode(u)
                    &&& old(self).has_key(u)
                    &&& *final(self) == *old(self)
                },
            },
    {
        proof {
            old(self).lemma_has_key_eq(u);
        }
        self.inner.add_node(u)
    }

    /// Records a directed edge between the nodes owning the two keys,
    /// reporting whether that exact edge was already present. Fails,
    /// changing nothing and naming the offending key, when either key is
    /// unregistered; an unregistered `u_from` is reported first.
    pub fn add_edge(&mut self, u_from: &usize, u_to: &usize) -> (r: Result<
        bool,
        GraphError<usize>,
    >)
        requires
            old(self).wf(),
        ensures
            final(self).wf(),
            final(self).key_seq() == old(self).key_seq(),
            final(self).model().nodes == old(self).model().nodes,
            r is Ok <==> old(self).has_key(*u_from) && old(self).has_key(*u_to),
            match r {
                Ok(already) => ({
                    let fi = old(self).key_id(*u_from) as usize;
                    let ti = old(self).key_id(*u_to) as usize;
                    &&& already == old(self).model().edges.contains((fi, ti))
                    &&& final(self).model().edges == old(self).model().edges.insert((fi, ti))
                }),
                Err(e) => {
                    &&& *final(self) == *old(self)
                    &&& (!old(self).has_key(*u_from) ==> e == GraphError::<usize>::UnknownNode(
                        *u_from,
                    ))
                    &&& (old(self).has_key(*u_from) && !old(self).has_key(*u_to) ==> e
                        == GraphError::<usize>::UnknownNode(*u_to))
                },
            },
    {
        proof {
            old(self).lemma_has_key_eq(*u_from);
            old(self).lemma_has_key_eq(*u_to);
            if old(self).has_key(*u_from) {
                old(self).lemma_key_id_eq(*u_from);
            }
            if old(self).has_key(*u_to) {
                old(self).lemma_key_id_eq(*u_to);
            }
        }
        self.inner.add_edge(u_from, u_to)
    }

    /// Searches the whole graph for a cycle. The answer is `Some` exactly
    /// when one exists; the witness is a closed walk over internal
    /// identifiers whose nodes, apart from the repeated endpoint, are
    /// pairwise distinct.
    pub fn detect_cycle(&self) -> (r: Option<Vec<NodeID>>)
        requires
            self.wf(),
        ensures
            r is Some <==> has_cycle(self.model()),
            match r {
                Some(c) => is_cycle(self.model(), c@) && c@.drop_last().no_duplicates(),
                None => !has_cycle(self.model()),
            },
    {
        self.inner.detect_cycle_ids()
    }
}

} // verus!
