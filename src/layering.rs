//! Topological layers: each layer holds every node not yet placed whose
//! edges all lead to nodes placed in earlier layers.
use vstd::prelude::*;

verus! {

/// The nodes of `nodes` outside `done` whose edges all lead into `done`.
#[verifier::opaque]
pub open spec fn ready<T>(nodes: Set<T>, edges: Set<(T, T)>, done: Set<T>) -> Set<T> {
    nodes.filter(
        |n: T| !done.contains(n) && forall|m: T| #[trigger] edges.contains((n, m)) ==> done.contains(m),
    )
}

/// The union of the first `k` layers.
pub open spec fn placed<T>(layers: Seq<Set<T>>, k: int) -> Set<T>
    decreases k,
{
    if k <= 0 {
        Set::empty()
    } else {
        placed(layers, k - 1).union(layers[k - 1])
    }
}

/// `layers` is the layered order of `nodes` under `edges`: layer `k` is
/// exactly what is ready once the layers before it are placed, no layer is
/// empty, and together the layers hold every node.
pub open spec fn is_layering<T>(nodes: Set<T>, edges: Set<(T, T)>, layers: Seq<Set<T>>) -> bool {
    &&& forall|k: int|
        0 <= k < layers.len() ==> #[trigger] layers[k] == ready(nodes, edges, placed(layers, k))
    &&& forall|k: int| 0 <= k < layers.len() ==> !(#[trigger] layers[k]).is_empty()
    &&& placed(layers, layers.len() as int) == nodes
}

/// For every edge `(a, b)`, the layer of `b` comes strictly before the
/// layer of `a`.
pub open spec fn edges_point_to_earlier_layers<T>(edges: Set<(T, T)>, layers: Seq<Set<T>>) -> bool {
    forall|i: int, j: int, a: T, b: T|
        0 <= i < layers.len() && 0 <= j < layers.len() && #[trigger] layers[i].contains(a)
            && #[trigger] layers[j].contains(b) && #[trigger] edges.contains((a, b)) ==> j < i
}

pub proof fn lemma_placed_push<T>(layers: Seq<Set<T>>, x: Set<T>, k: int)
    requires
        0 <= k <= layers.len(),
    ensures
        placed(layers.push(x), k) == placed(layers, k),
    decreases k,
{
    if k > 0 {
        lemma_placed_push(layers, x, k - 1);
        assert(layers.push(x)[k - 1] == layers[k - 1]);
    }
}

pub proof fn lemma_placed_members<T>(layers: Seq<Set<T>>, k: int, x: T)
    requires
        0 <= k <= layers.len(),
    ensures
        placed(layers, k).contains(x) <==> exists|j: int| 0 <= j < k && #[trigger] layers[j].contains(x),
    decreases k,
{
    if k > 0 {
        lemma_placed_members(layers, k - 1, x);
        if layers[k - 1].contains(x) {
            assert(layers[k - 1].contains(x));
        }
    }
}

/// Each node of a layering stands in one layer only.
pub proof fn lemma_layers_disjoint<T>(
    nodes: Set<T>,
    edges: Set<(T, T)>,
    layers: Seq<Set<T>>,
    i: int,
    j: int,
    x: T,
)
    requires
        is_layering(nodes, edges, layers),
        0 <= i < j < layers.len(),
        layers[i].contains(x),
    ensures
        !layers[j].contains(x),
{
    lemma_placed_members(layers, j, x);
    assert(layers[j] == ready(nodes, edges, placed(layers, j)));
    reveal(ready);
}

/// In a layering, every edge leads from a later layer to an earlier one.
pub proof fn lemma_layering_orders_edges<T>(
    nodes: Set<T>,
    edges: Set<(T, T)>,
    layers: Seq<Set<T>>,
)
    requires
        is_layering(nodes, edges, layers),
    ensures
        edges_point_to_earlier_layers(edges, layers),
{
    assert forall|i: int, j: int, a: T, b: T|
        0 <= i < layers.len() && 0 <= j < layers.len() && #[trigger] layers[i].contains(a)
            && #[trigger] layers[j].contains(b) && #[trigger] edges.contains(
            (a, b),
        ) implies j < i by {
        assert(layers[i] == ready(nodes, edges, placed(layers, i)));
        reveal(ready);
        assert(placed(layers, i).contains(b));
        lemma_placed_members(layers, i, b);
        let j2 = choose|j2: int| 0 <= j2 < i && #[trigger] layers[j2].contains(b);
        if j < j2 {
            lemma_layers_disjoint(nodes, edges, layers, j, j2, b);
        } else if j2 < j {
            lemma_layers_disjoint(nodes, edges, layers, j2, j, b);
        }
    }
}

proof fn lemma_same_prefix_same_placed<T>(l1: Seq<Set<T>>, l2: Seq<Set<T>>, k: int)
    requires
        0 <= k <= l1.len(),
        k <= l2.len(),
        forall|j: int| 0 <= j < k ==> l1[j] == l2[j],
    ensures
        placed(l1, k) == placed(l2, k),
    decreases k,
{
    if k > 0 {
        lemma_same_prefix_same_placed(l1, l2, k - 1);
    }
}

proof fn lemma_layerings_agree_up_to<T>(
    nodes: Set<T>,
    edges: Set<(T, T)>,
    l1: Seq<Set<T>>,
    l2: Seq<Set<T>>,
    k: int,
)
    requires
        is_layering(nodes, edges, l1),
        is_layering(nodes, edges, l2),
        0 <= k <= l1.len(),
        k <= l2.len(),
    ensures
        forall|j: int| 0 <= j < k ==> l1[j] == l2[j],
    decreases k,
{
    if k > 0 {
        lemma_layerings_agree_up_to(nodes, edges, l1, l2, k - 1);
        lemma_same_prefix_same_placed(l1, l2, k - 1);
        assert(l1[k - 1] == ready(nodes, edges, placed(l1, k - 1)));
        assert(l2[k - 1] == ready(nodes, edges, placed(l2, k - 1)));
    }
}

proof fn lemma_layering_not_longer<T>(
    nodes: Set<T>,
    edges: Set<(T, T)>,
    l1: Seq<Set<T>>,
    l2: Seq<Set<T>>,
)
    requires
        is_layering(nodes, edges, l1),
        is_layering(nodes, edges, l2),
    ensures
        l2.len() <= l1.len(),
{
    if l1.len() < l2.len() {
        let k = l1.len() as int;
        lemma_layerings_agree_up_to(nodes, edges, l1, l2, k);
        lemma_same_prefix_same_placed(l1, l2, k);
        assert(l2[k] == ready(nodes, edges, nodes));
        reveal(ready);
        assert(ready(nodes, edges, nodes) =~= Set::empty());
        assert(!l2[k].is_empty());
    }
}

/// The layered order of a graph is unique: two layerings of the same nodes
/// and edges are equal.
pub proof fn lemma_layering_unique<T>(
    nodes: Set<T>,
    edges: Set<(T, T)>,
    l1: Seq<Set<T>>,
    l2: Seq<Set<T>>,
)
    requires
        is_layering(nodes, edges, l1),
        is_layering(nodes, edges, l2),
    ensures
        l1 == l2,
{
    lemma_layering_not_longer(nodes, edges, l1, l2);
    lemma_layering_not_longer(nodes, edges, l2, l1);
    lemma_layerings_agree_up_to(nodes, edges, l1, l2, l1.len() as int);
    assert(l1 =~= l2);
}

} // verus!
