//! The dependency graph: a node set with a forward and a backward
//! adjacency index, kept acyclic by every insertion.
use crate::adjacency::{
    add_to_entry, layers_of, lemma_key_iff_edge, map_edges, no_empty_sets, nodes_without_key,
    reachable_from, set_views,
};
use crate::layering::{edges_point_to_earlier_layers, is_layering, lemma_layering_orders_edges};
use crate::reach::{
    has_in_edge, has_out_edge, is_acyclic, is_walk, lemma_new_edge_keeps_acyclic, lemma_no_edges_no_reach,
    lemma_reaches_trans, lemma_reversed_acyclic, lemma_reversed_reaches, reaches, reversed,
};
use std::collections::{HashMap, HashSet};
use std::hash::Hash;
use vstd::laws_eq::obeys_concrete_eq;
use vstd::prelude::*;
use vstd::std_specs::hash::obeys_key_model;

verus! {

broadcast use vstd::std_specs::hash::group_hash_axioms;

/// Why an edge was refused.
#[derive(Debug, Clone, Copy, PartialEq, Eq)]
pub enum DependencyError {
    /// The edge would join a node to itself.
    SelfReference,
    /// The target already depends on the source, so the edge would close a cycle.
    CircularDependency,
}

/// What the graph asks of a node type: its hash and its `==` agree with
/// identity.
pub open spec fn is_node_type<T: PartialEq>() -> bool {
    obeys_key_model::<T>() && obeys_concrete_eq::<T>()
}

/// A directed acyclic graph of dependencies between nodes of type `T`.
pub struct AcyclicDependencyGraph<T> {
    nodes: HashSet<T>,
    forward_dependencies: HashMap<T, HashSet<T>>,
    backward_dependencies: HashMap<T, HashSet<T>>,
}

impl<T: Eq + Hash + Copy> AcyclicDependencyGraph<T> {
    /// Every node the graph knows.
    pub closed spec fn node_set(&self) -> Set<T> {
        self.nodes@
    }

    /// Every edge `(from, to)`: `from` depends directly on `to`.
    pub closed spec fn edges(&self) -> Set<(T, T)> {
        map_edges(self.forward_dependencies@)
    }

    /// The backward index mirrors the forward one, every edge joins known
    /// nodes, no node reaches itself, and no index keeps an empty set.
    pub closed spec fn wf(&self) -> bool {
        &&& is_node_type::<T>()
        &&& self.nodes@.finite()
        &&& forall|a: T, b: T| #[trigger]
            self.edges().contains((a, b)) ==> self.nodes@.contains(a) && self.nodes@.contains(b)
        &&& map_edges(self.backward_dependencies@) == reversed(self.edges())
        &&& is_acyclic(self.edges())
        &&& no_empty_sets(self.forward_dependencies@)
        &&& no_empty_sets(self.backward_dependencies@)
    }

    /// An empty graph.
    pub fn new() -> (g: Self)
        requires
            is_node_type::<T>(),
        ensures
            g.wf(),
            g.node_set() == Set::<T>::empty(),
            g.edges() == Set::<(T, T)>::empty(),
    {
        let g = AcyclicDependencyGraph {
            nodes: HashSet::new(),
            forward_dependencies: HashMap::new(),
            backward_dependencies: HashMap::new(),
        };
        proof {
            assert(g.edges() =~= Set::<(T, T)>::empty());
            assert(map_edges(g.backward_dependencies@) =~= reversed(g.edges()));
            assert forall|a: T| !#[trigger] reaches(g.edges(), a, a) by {
                lemma_no_edges_no_reach(a, a);
            }
        }
        g
    }

    /// The nodes that depend on nothing.
    pub fn get_leaves(&self) -> (r: HashSet<T>)
        requires
            self.wf(),
        ensures
            r@ == self.node_set().filter(|n: T| !has_out_edge(self.edges(), n)),
    {
        let r = nodes_without_key(&self.nodes, &self.forward_dependencies);
        proof {
            assert forall|n: T| self.forward_dependencies@.contains_key(n) <==> has_out_edge(self.edges(), n) by {
                lemma_key_iff_edge(self.forward_dependencies@, n);
            }
            assert(r@ =~= self.node_set().filter(|n: T| !has_out_edge(self.edges(), n)));
        }
        r
    }

    /// The nodes that nothing depends on.
    pub fn get_roots(&self) -> (r: HashSet<T>)
        requires
            self.wf(),
        ensures
            r@ == self.node_set().filter(|n: T| !has_in_edge(self.edges(), n)),
    {
        let r = nodes_without_key(&self.nodes, &self.backward_dependencies);
        proof {
            assert forall|n: T| self.backward_dependencies@.contains_key(n) <==> has_in_edge(self.edges(), n) by {
                lemma_key_iff_edge(self.backward_dependencies@, n);
                let rev = map_edges(self.backward_dependencies@);
                if has_in_edge(self.edges(), n) {
                    let m = choose|m: T| #[trigger] self.edges().contains((m, n));
                    assert(rev.contains((n, m)));
                }
                if has_out_edge(rev, n) {
                    let m = choose|m: T| #[trigger] rev.contains((n, m));
                    assert(self.edges().contains((m, n)));
                }
            }
            assert(r@ =~= self.node_set().filter(|n: T| !has_in_edge(self.edges(), n)));
        }
        r
    }

    /// Every node that `node` depends on, directly or through other nodes.
    /// None of them depends back on `node`.
    pub fn get_forward_dependencies(&self, node: T) -> (r: HashSet<T>)
        requires
            self.wf(),
        ensures
            r@ == Set::new(|y: T| reaches(self.edges(), node, y)),
            forall|y: T| #[trigger] r@.contains(y) ==> !reaches(self.edges(), y, node),
    {
        let r = reachable_from(&self.forward_dependencies, node, Ghost(self.nodes@));
        proof {
            assert forall|y: T| #[trigger] r@.contains(y) implies !reaches(self.edges(), y, node) by {
                if reaches(self.edges(), y, node) {
                    lemma_reaches_trans(self.edges(), node, y, node);
                }
            }
        }
        r
    }

    /// Every node that depends on `node`, directly or through other nodes.
    /// `node` depends on none of them.
    pub fn get_backward_dependencies(&self, node: T) -> (r: HashSet<T>)
        requires
            self.wf(),
        ensures
            r@ == Set::new(|y: T| reaches(self.edges(), y, node)),
            forall|y: T| #[trigger] r@.contains(y) ==> !reaches(self.edges(), node, y),
    {
        proof {
            assert forall|a: T, b: T| #[trigger]
                map_edges(self.backward_dependencies@).contains((a, b)) implies self.nodes@.contains(b) by {
                assert(self.edges().contains((b, a)));
            }
        }
        let r = reachable_from(&self.backward_dependencies, node, Ghost(self.nodes@));
        proof {
            assert forall|y: T| r@.contains(y) <==> reaches(self.edges(), y, node) by {
                lemma_reversed_reaches(self.edges(), node, y);
            }
            assert(r@ =~= Set::new(|y: T| reaches(self.edges(), y, node)));
            assert forall|y: T| #[trigger] r@.contains(y) implies !reaches(self.edges(), node, y) by {
                if reaches(self.edges(), node, y) {
                    lemma_reaches_trans(self.edges(), y, node, y);
                }
            }
        }
        r
    }

    /// The nodes in layers: the first holds the leaves, and each later one
    /// holds every remaining node whose dependencies all stand in earlier
    /// layers. Every node stands in exactly one layer, and every dependency
    /// of a node stands in a strictly earlier layer than the node.
    pub fn get_forward_dependency_topological_layers(&self) -> (r: Vec<HashSet<T>>)
        requires
            self.wf(),
        ensures
            is_layering(self.node_set(), self.edges(), set_views(r@)),
            edges_point_to_earlier_layers(self.edges(), set_views(r@)),
    {
        let r = layers_of(&self.nodes, &self.forward_dependencies);
        proof {
            lemma_layering_orders_edges(self.node_set(), self.edges(), set_views(r@));
        }
        r
    }

    /// The nodes in layers, in the other direction: the first holds the
    /// roots, and each later one holds every remaining node whose dependents
    /// all stand in earlier layers. Every node stands in exactly one layer,
    /// and every dependent of a node stands in a strictly earlier layer than
    /// the node.
    pub fn get_backward_dependency_topological_layers(&self) -> (r: Vec<HashSet<T>>)
        requires
            self.wf(),
        ensures
            is_layering(self.node_set(), reversed(self.edges()), set_views(r@)),
            edges_point_to_earlier_layers(reversed(self.edges()), set_views(r@)),
    {
        proof {
            lemma_reversed_acyclic(self.edges());
            assert forall|a: T, b: T| #[trigger]
                map_edges(self.backward_dependencies@).contains((a, b)) implies self.nodes@.contains(a)
                && self.nodes@.contains(b) by {
                assert(self.edges().contains((b, a)));
            }
        }
        let r = layers_of(&self.nodes, &self.backward_dependencies);
        proof {
            lemma_layering_orders_edges(self.node_set(), reversed(self.edges()), set_views(r@));
        }
        r
    }

    /// Whether `source` depends on `target`, directly or through other nodes.
    pub fn depends_on(&self, source: T, target: T) -> (r: bool)
        requires
            self.wf(),
        ensures
            r == reaches(self.edges(), source, target),
    {
        self.get_forward_dependencies(source).contains(&target)
    }

    /// Records that `from` depends directly on `to`. The edge is refused,
    /// and the graph left as it was, when it would join a node to itself or
    /// close a cycle.
    pub fn depend_on(&mut self, from: T, to: T) -> (r: Result<(), DependencyError>)
        requires
            old(self).wf(),
        ensures
            final(self).wf(),
            from == to ==> r == Err::<(), DependencyError>(DependencyError::SelfReference),
            from != to && reaches(old(self).edges(), to, from) ==> r == Err::<(), DependencyError>(
                DependencyError::CircularDependency,
            ),
            r is Err ==> *final(self) == *old(self),
            r is Ok <==> from != to && !reaches(old(self).edges(), to, from),
            r is Ok ==> final(self).node_set() == old(self).node_set().insert(from).insert(to),
            r is Ok ==> final(self).edges() == old(self).edges().insert((from, to)),
    {
        proof {
            reveal(obeys_concrete_eq);
        }
        if from == to {
            return Err(DependencyError::SelfReference);
        }
        if self.depends_on(to, from) {
            return Err(DependencyError::CircularDependency);
        }
        let ghost old_edges = self.edges();
        self.nodes.insert(from);
        self.nodes.insert(to);
        add_to_entry(&mut self.forward_dependencies, from, to);
        add_to_entry(&mut self.backward_dependencies, to, from);
        proof {
            lemma_new_edge_keeps_acyclic(old_edges, from, to);
            assert(map_edges(self.backward_dependencies@) =~= reversed(self.edges()));
        }
        Ok(())
    }
}

/// An edge that would close a cycle is refused as circular: once the edges
/// hold a walk `p` from `p[0]` to its last node, `p[0]` reaches that node and
/// differs from it, so `depend_on(last, p[0])` returns `CircularDependency`.
pub proof fn lemma_closing_edge_is_circular<T: Eq + Hash + Copy>(
    g: AcyclicDependencyGraph<T>,
    p: Seq<T>,
)
    requires
        g.wf(),
        is_walk(g.edges(), p),
    ensures
        reaches(g.edges(), p[0], p.last()),
        p.last() != p[0],
{
    assert(!reaches(g.edges(), p[0], p[0]));
}

} // verus!
