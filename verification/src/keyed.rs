//! The keyed graph layer: translates between arbitrary caller-supplied keys
//! and the dense integer identifiers of the core graph, keeping the two in
//! bijection.

use vstd::prelude::*;
use vstd::laws_eq::obeys_eq;
use vstd::laws_eq::obeys_eq_spec_properties;
use vstd::pervasive::cloned;
use vstd::std_specs::cmp::PartialEqSpec;
use vstd::std_specs::vec::spec_vec_len;

use crate::errors::GraphError;
use crate::graph_core::GraphCore;
use crate::graph_core::NodeID;
use crate::model::GraphModel;
use crate::model::has_cycle;
use crate::model::is_cycle;
use crate::model::lemma_reached_is_edge_target;
use crate::model::visit_order;

verus! {

/// Equality on the key type can be relied on: the executable `==` follows
/// its specification, and that specification is reflexive, symmetric and
/// transitive.
pub open spec fn eq_reliable<T: PartialEq>() -> bool {
    &&& obeys_eq::<T>()
    &&& forall|x: T| #[trigger] x.eq_spec(&x)
}

/// A directed graph whose nodes are named by arbitrary caller-supplied
/// keys. Key number `i` in registration order owns identifier `i` in the
/// wrapped core graph, so the key-to-identifier mapping is a bijection by
/// construction.
pub struct Graph<T> {
    keys: Vec<T>,
    core: GraphCore,
}

impl<T: PartialEq> Graph<T> {
    /// The registered keys, in registration order; the key at position `i`
    /// owns identifier `i`.
    pub closed spec fn key_seq(&self) -> Seq<T> {
        self.keys@
    }

    /// The identifier-level graph this value represents.
    pub closed spec fn model(&self) -> GraphModel {
        self.core@
    }

    /// Whether some registered key equals `k`.
    pub open spec fn has_key(&self, k: T) -> bool {
        exists|i: int| 0 <= i < self.key_seq().len() && (#[trigger] self.key_seq()[i]).eq_spec(&k)
    }

    /// The identifier owned by the registered key that equals `k`.
    pub open spec fn key_id(&self, k: T) -> int {
        choose|i: int| 0 <= i < self.key_seq().len() && (#[trigger] self.key_seq()[i]).eq_spec(&k)
    }

    /// The invariant: equality on `T` is reliable, the core graph is
    /// well-formed, no two registered keys are equal, and the core graph
    /// holds exactly the identifiers owned by registered keys, with every
    /// edge endpoint among them.
    pub closed spec fn wf(&self) -> bool {
        &&& eq_reliable::<T>()
        &&& self.core.wf()
        &&& forall|i: int, j: int|
            #![trigger self.keys@[i], self.keys@[j]]
            0 <= i < j < self.keys@.len() ==> !self.keys@[i].eq_spec(&self.keys@[j])
        &&& forall|id: usize| #[trigger] self.core@.nodes.contains(id) <==> id < self.keys@.len()
        &&& forall|e: (usize, usize)| #[trigger]
            self.core@.edges.contains(e) ==> e.0 < self.keys@.len() && e.1 < self.keys@.len()
    }

    /// The slot found for a key is the only one that equals it.
    pub proof fn lemma_key_id_is(&self, k: T, i: int)
        requires
            self.wf(),
            0 <= i < self.key_seq().len(),
            self.key_seq()[i].eq_spec(&k),
        ensures
            self.has_key(k),
            self.key_id(k) == i,
    {
        reveal(obeys_eq_spec_properties);
        assert(self.has_key(k));
        let j = self.key_id(k);
        assert(0 <= j < self.key_seq().len() && self.key_seq()[j].eq_spec(&k));
        if i != j {
            let a = self.key_seq()[i];
            let b = self.key_seq()[j];
            assert(k.eq_spec(&b));
            assert(a.eq_spec(&b));
            if i < j {
                assert(!self.keys@[i].eq_spec(&self.keys@[j]));
            } else {
                assert(!self.keys@[j].eq_spec(&self.keys@[i]));
                assert(b.eq_spec(&a));
            }
            assert(false);
        }
    }

    /// Returns the identifier owned by `k`, when `k` is registered.
    fn find_key(&self, k: &T) -> (r: Option<usize>)
        requires
            self.wf(),
        ensures
            match r {
                Some(i) => i < self.key_seq().len() && self.key_seq()[i as int].eq_spec(k)
                    && self.key_id(*k) == i,
                None => !self.has_key(*k),
            },
            r is Some <==> self.has_key(*k),
    {
        let mut i: usize = 0;
        while i < self.keys.len()
            invariant
                self.wf(),
                i <= self.keys@.len(),
                forall|j: int| 0 <= j < i ==> !(#[trigger] self.keys@[j]).eq_spec(k),
            decreases self.keys@.len() - i,
        {
            if self.keys[i] == *k {
                proof {
                    self.lemma_key_id_is(*k, i as int);
                }
                return Some(i);
            }
            i += 1;
        }
        assert(!self.has_key(*k));
        None
    }

    /// Creates an empty keyed graph.
    pub fn new() -> (g: Graph<T>)
        requires
            eq_reliable::<T>(),
        ensures
            g.wf(),
            g.key_seq() == Seq::<T>::empty(),
            g.model() == GraphModel::empty(),
    {
        let g = Graph { keys: Vec::new(), core: GraphCore::new() };
        g
    }

    /// Returns the key owning identifier `id`, when the identifier has been
    /// allocated.
    pub fn get_node_by_id(&self, id: &NodeID) -> (r: Option<&T>)
        requires
            self.wf(),
        ensures
            match r {
                Some(k) => *id < self.key_seq().len() && *k == self.key_seq()[*id as int],
                None => *id >= self.key_seq().len(),
            },
    {
        if *id < self.keys.len() {
            Some(&self.keys[*id])
        } else {
            None
        }
    }

    /// Registers `u` as a new node, allocating the next identifier for it.
    /// Fails, changing nothing, when an equal key is already registered.
    pub fn add_node(&mut self, u: T) -> (r: Result<(), GraphError<T>>)
        requires
            old(self).wf(),
        ensures
            final(self).wf(),
            match r {
                Ok(()) => {
                    &&& !old(self).has_key(u)
                    &&& final(self).key_seq() == old(self).key_seq().push(u)
                    &&& final(self).model().nodes == old(self).model().nodes.insert(
                        old(self).key_seq().len() as usize,
                    )
                    &&& final(self).model().edges == old(self).model().edges
                },
                Err(e) => {
                    &&& e == GraphError::<T>::DuplicateNode(u)
                    &&& old(self).has_key(u)
                    &&& *final(self) == *old(self)
                },
            },
    {
        match self.find_key(&u) {
            Some(_) => Err(GraphError::DuplicateNode(u)),
            None => {
                let id = self.keys.len();
                self.keys.push(u);
                proof {
                    assert(!old(self).core@.nodes.contains(id));
                }
                let res = self.core.add_node(id);
                proof {
                    assert forall|i: int, j: int|
                        #![trigger self.keys@[i], self.keys@[j]]
                        0 <= i < j < self.keys@.len() implies !self.keys@[i].eq_spec(
                        &self.keys@[j],
                    ) by {
                        if j < id {
                            assert(self.keys@[i] == old(self).keys@[i]);
                            assert(self.keys@[j] == old(self).keys@[j]);
                        } else {
                            assert(j == id && self.keys@[j] == u);
                            assert(self.keys@[i] == old(self).keys@[i]);
                            if old(self).keys@[i].eq_spec(&u) {
                                assert((#[trigger] old(self).key_seq()[i]).eq_spec(&u));
                                assert(old(self).has_key(u));
                                assert(false);
                            }
                        }
                    }
                    assert forall|n: usize| #[trigger]
                        self.core@.nodes.contains(n) <==> n < self.keys@.len() by {
                        assert(self.core@.nodes == old(self).core@.nodes.insert(id));
                    }
                }
                match res {
                    Ok(()) => Ok(()),
                    Err(_) => vstd::pervasive::unreached(),
                }
            },
        }
    }

    /// Reports a cycle at the identifier level, as the core graph sees it.
    pub(crate) fn detect_cycle_ids(&self) -> (r: Option<Vec<NodeID>>)
        requires
            self.wf(),
        ensures
            r is Some <==> has_cycle(self.model()),
            match r {
                Some(c) => is_cycle(self.model(), c@) && c@.drop_last().no_duplicates(),
                None => !has_cycle(self.model()),
            },
    {
        self.core.detect_cycle()
    }
}

impl<T: PartialEq + Clone> Graph<T> {
    /// Records a directed edge between the nodes owning the two keys,
    /// reporting whether that exact edge was already present. Fails,
    /// changing nothing and naming the offending key, when either key is
    /// unregistered; an unregistered `u_from` is reported first.
    pub fn add_edge(&mut self, u_from: &T, u_to: &T) -> (r: Result<bool, GraphError<T>>)
        requires
            old(self).wf(),
        ensures
            final(self).wf(),
            final(self).key_seq() == old(self).key_seq(),
            final(self).model().nodes == old(self).model().nodes,
            r is Ok <==> old(self).has_key(*u_from) && old(self).has_key(*u_to),
            match r {
                Ok(already) => ({
                    let fi = old(self).key_id(*u_from) as usize;
                    let ti = old(self).key_id(*u_to) as usize;
                    &&& already == old(self).model().edges.contains((fi, ti))
                    &&& final(self).model().edges == old(self).model().edges.insert((fi, ti))
                }),
                Err(e) => *final(self) == *old(self) && (match e {
                    GraphError::UnknownNode(k) => {
                        ||| !old(self).has_key(*u_from) && cloned(*u_from, k)
                        ||| old(self).has_key(*u_from) && !old(self).has_key(*u_to) && cloned(
                            *u_to,
                            k,
                        )
                    },
                    GraphError::DuplicateNode(_) => false,
                }),
            },
    {
        let from_id = match self.find_key(u_from) {
            Some(i) => i,
            None => {
                return Err(GraphError::UnknownNode(u_from.clone()));
            },
        };
        let to_id = match self.find_key(u_to) {
            Some(i) => i,
            None => {
                return Err(GraphError::UnknownNode(u_to.clone()));
            },
        };
        let already = self.core.add_edge(from_id, to_id);
        proof {
            assert forall|e: (usize, usize)| #[trigger]
                self.core@.edges.contains(e) implies e.0 < self.keys@.len() && e.1
                < self.keys@.len() by {
                if e != (from_id, to_id) {
                    assert(old(self).core@.edges.contains(e));
                }
            }
        }
        Ok(already)
    }
}

impl<T: PartialEq> Graph<T> {
    /// `c` is a witness cycle translated to keys: some identifier-level
    /// closed walk, whose nodes apart from the repeated endpoint are
    /// pairwise distinct, maps position by position to the keys of `c`.
    pub open spec fn is_key_cycle(&self, c: Seq<T>) -> bool {
        exists|s: Seq<usize>|
            {
                &&& is_cycle(self.model(), s)
                &&& s.drop_last().no_duplicates()
                &&& s.len() == c.len()
                &&& forall|i: int|
                    0 <= i < s.len() ==> (#[trigger] s[i]) < self.key_seq().len() && c[i]
                        == self.key_seq()[s[i] as int]
            }
    }

    /// Searches the whole graph for a cycle; the answer is `Some` exactly
    /// when one exists, and the witness is a closed walk translated back to
    /// keys.
    pub fn detect_cycle(&self) -> (r: Option<Vec<&T>>)
        requires
            self.wf(),
        ensures
            r is Some <==> has_cycle(self.model()),
            match r {
                Some(c) => self.is_key_cycle(c@.map_values(|k: &T| *k)),
                None => !has_cycle(self.model()),
            },
    {
        match self.detect_cycle_ids() {
            None => None,
            Some(ids) => {
                proof {
                    assert forall|k: int| 0 <= k < ids@.len() implies (#[trigger] ids@[k])
                        < self.keys@.len() by {
                        if k < ids@.len() - 1 {
                            assert(self.core@.edges.contains((ids@[k], ids@[k + 1])));
                        } else {
                            assert(ids@[k] == ids@.last() == ids@.first());
                            assert(self.core@.edges.contains((ids@[0], ids@[0int + 1])));
                        }
                    }
                }
                let mut out: Vec<&T> = Vec::new();
                let mut i: usize = 0;
                while i < ids.len()
                    invariant
                        self.wf(),
                        i <= ids@.len(),
                        out@.len() == i,
                        forall|k: int| 0 <= k < ids@.len() ==> (#[trigger] ids@[k]) < self.keys@.len(),
                        forall|k: int|
                            0 <= k < i ==> *(#[trigger] out@[k]) == self.key_seq()[ids@[k] as int],
                    decreases ids@.len() - i,
                {
                    let id = ids[i];
                    out.push(&self.keys[id]);
                    i += 1;
                }
                proof {
                    let c = out@.map_values(|k: &T| *k);
                    let s = ids@;
                    assert(s.drop_last().no_duplicates());
                    assert forall|k: int|
                        0 <= k < s.len() implies (#[trigger] s[k]) < self.key_seq().len() && c[k]
                        == self.key_seq()[s[k] as int] by {
                        assert(c[k] == *out@[k]);
                    }
                    assert(self.is_key_cycle(c));
                }
                Some(out)
            },
        }
    }

    /// Visits every node reachable from the node owning `start` exactly
    /// once, depth first, and returns the visited keys in first-visit
    /// order. An unregistered `start` yields no visits and no error.
    pub fn traverse(&self, start: &T) -> (r: Vec<&T>)
        requires
            self.wf(),
        ensures
            !self.has_key(*start) ==> r@.len() == 0,
            self.has_key(*start) ==> exists|s: Seq<usize>|
                {
                    &&& visit_order(self.model(), self.key_id(*start) as usize, s)
                    &&& s.len() == r@.len()
                    &&& forall|i: int|
                        0 <= i < s.len() ==> (#[trigger] s[i]) < self.key_seq().len() && *r@[i]
                            == self.key_seq()[s[i] as int]
                },
    {
        match self.find_key(start) {
            None => Vec::new(),
            Some(sid) => {
                let ids = self.core.traverse(sid);
                proof {
                    assert(self.model().nodes.contains(sid));
                    assert(visit_order(self.model(), sid, ids@));
                    assert forall|k: int| 0 <= k < ids@.len() implies (#[trigger] ids@[k])
                        < self.keys@.len() by {
                        assert(ids@.contains(ids@[k]));
                        lemma_reached_is_edge_target(self.model(), sid, ids@[k]);
                        if ids@[k] != sid {
                            let x = choose|x: usize| #[trigger]
                                self.core@.edges.contains((x, ids@[k]));
                            assert(self.core@.edges.contains((x, ids@[k])));
                        }
                    }
                }
                let mut out: Vec<&T> = Vec::new();
                let mut i: usize = 0;
                while i < ids.len()
                    invariant
                        self.wf(),
                        i <= ids@.len(),
                        out@.len() == i,
                        forall|k: int| 0 <= k < ids@.len() ==> (#[trigger] ids@[k]) < self.keys@.len(),
                        forall|k: int|
                            0 <= k < i ==> *(#[trigger] out@[k]) == self.key_seq()[ids@[k] as int],
                    decreases ids@.len() - i,
                {
                    let id = ids[i];
                    out.push(&self.keys[id]);
                    i += 1;
                }
                proof {
                    let s = ids@;
                    assert(s.len() == out@.len());
                    assert forall|i2: int|
                        0 <= i2 < s.len() implies (#[trigger] s[i2]) < self.key_seq().len() && *out@[i2]
                        == self.key_seq()[s[i2] as int] by {}
                }
                out
            },
        }
    }
}

/// Keys that are not equal never share an identifier: the key-to-identifier
/// mapping is injective.
pub proof fn lemma_key_ids_injective<T: PartialEq>(g: Graph<T>, a: T, b: T)
    requires
        g.wf(),
        g.has_key(a),
        g.has_key(b),
        !a.eq_spec(&b),
    ensures
        g.key_id(a) != g.key_id(b),
{
    reveal(obeys_eq_spec_properties);
    let i = g.key_id(a);
    let j = g.key_id(b);
    assert(0 <= i < g.key_seq().len() && g.key_seq()[i].eq_spec(&a));
    assert(0 <= j < g.key_seq().len() && g.key_seq()[j].eq_spec(&b));
    if i == j {
        let x = g.key_seq()[i];
        assert(a.eq_spec(&x));
        assert(a.eq_spec(&b));
        assert(false);
    }
}

/// A traversal translated back to keys visits no key twice: distinct
/// identifiers in the visit order carry keys that are not equal.
pub proof fn lemma_visit_keys_distinct<T: PartialEq>(g: Graph<T>, s: Seq<usize>, c: Seq<T>)
    requires
        g.wf(),
        s.no_duplicates(),
        s.len() == c.len(),
        forall|i: int|
            0 <= i < s.len() ==> (#[trigger] s[i]) < g.key_seq().len() && c[i] == g.key_seq()[s[i] as int],
    ensures
        forall|i: int, j: int|
            #![trigger c[i], c[j]]
            0 <= i < j < c.len() ==> !c[i].eq_spec(&c[j]),
{
    reveal(obeys_eq_spec_properties);
    assert forall|i: int, j: int|
        #![trigger c[i], c[j]]
        0 <= i < j < c.len() implies !c[i].eq_spec(&c[j]) by {
        let a = s[i] as int;
        let b = s[j] as int;
        assert(s[i] != s[j]);
        assert(g.key_seq() == g.keys@);
        assert(c[i] == g.keys@[a] && c[j] == g.keys@[b]);
        if a < b {
            assert(!g.keys@[a].eq_spec(&g.keys@[b]));
        } else {
            assert(!g.keys@[b].eq_spec(&g.keys@[a]));
            if c[i].eq_spec(&c[j]) {
                assert(c[j].eq_spec(&c[i]));
                assert(false);
            }
        }
    }
}

/// A witness cycle translated to keys is closed: it has at least two
/// entries and starts and ends with the same key.
pub proof fn lemma_key_cycle_closed<T: PartialEq>(g: Graph<T>, c: Seq<T>)
    requires
        g.is_key_cycle(c),
    ensures
        c.len() >= 2,
        c.first() == c.last(),
{
    let s = choose|s: Seq<usize>|
        {
            &&& is_cycle(g.model(), s)
            &&& s.drop_last().no_duplicates()
            &&& s.len() == c.len()
            &&& forall|i: int|
                0 <= i < s.len() ==> (#[trigger] s[i]) < g.key_seq().len() && c[i]
                    == g.key_seq()[s[i] as int]
        };
    assert(s[0] == s[s.len() - 1]);
    assert(c[0] == g.key_seq()[s[0] as int]);
    assert(c[s.len() - 1] == g.key_seq()[s[s.len() - 1] as int]);
}

/// The key store is a vector, so the number of registered keys always fits
/// in `usize`.
pub proof fn lemma_key_count_bounded<T: PartialEq>(g: Graph<T>)
    ensures
        g.key_seq().len() <= usize::MAX,
{
    broadcast use vstd::std_specs::vec::axiom_spec_len;

    assert(spec_vec_len(&g.keys) == g.keys@.len());
}

/// A registered key stays registered under any later growth of the key
/// sequence: registration is never undone.
pub proof fn lemma_has_key_prefix<T: PartialEq>(g1: Graph<T>, g2: Graph<T>, u: T)
    requires
        g1.key_seq().is_prefix_of(g2.key_seq()),
        g1.has_key(u),
    ensures
        g2.has_key(u),
{
    let i = choose|i: int|
        0 <= i < g1.key_seq().len() && (#[trigger] g1.key_seq()[i]).eq_spec(&u);
    assert(g2.key_seq()[i] == g1.key_seq()[i]);
}

/// Right after a successful registration of `u`, the graph has the key
/// `u`: so registering an equal key again always fails from then on.
pub proof fn lemma_added_key_present<T: PartialEq>(g1: Graph<T>, g2: Graph<T>, u: T)
    requires
        eq_reliable::<T>(),
        g2.key_seq() == g1.key_seq().push(u),
    ensures
        g2.has_key(u),
{
    let i = g1.key_seq().len() as int;
    assert(g2.key_seq()[i] == u);
    assert(u.eq_spec(&u));
}

} // verus!
