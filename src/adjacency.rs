//! Adjacency maps from a node to the set of its neighbours, and the
//! traversals the graph runs over them.
use crate::layering::{is_layering, lemma_placed_push, placed, ready};
use crate::reach::{
    has_out_edge, is_acyclic, lemma_acyclic_has_sink, lemma_closed_set_holds_reach,
    lemma_edge_reaches, lemma_reaches_subset, lemma_reaches_then_edge, reaches,
};
use std::collections::{HashMap, HashSet};
use std::hash::Hash;
use vstd::prelude::*;
use vstd::set_lib::lemma_len_subset;
use vstd::std_specs::hash::obeys_key_model;
use vstd::std_specs::iter::IteratorSpec;

verus! {

broadcast use vstd::std_specs::hash::group_hash_axioms;

/// The edges `(k, v)` of an adjacency map: `v` stands in the set of `k`.
pub open spec fn map_edges<T>(m: Map<T, HashSet<T>>) -> Set<(T, T)> {
    Set::new(|e: (T, T)| m.contains_key(e.0) && m[e.0]@.contains(e.1))
}

/// No key of an adjacency map is mapped to an empty set.
pub open spec fn no_empty_sets<T>(m: Map<T, HashSet<T>>) -> bool {
    forall|k: T| #[trigger] m.contains_key(k) ==> m[k]@ != Set::<T>::empty()
}

/// Adds `value` to the set of `key`, creating the set if `key` has none.
pub(crate) fn add_to_entry<T: Eq + Hash + Copy>(map: &mut HashMap<T, HashSet<T>>, key: T, value: T)
    requires
        obeys_key_model::<T>(),
        no_empty_sets(old(map)@),
    ensures
        map_edges(final(map)@) == map_edges(old(map)@).insert((key, value)),
        no_empty_sets(final(map)@),
{
    let mut set: HashSet<T> = match map.remove(&key) {
        Some(s) => s,
        None => HashSet::new(),
    };
    set.insert(value);
    map.insert(key, set);
    proof {
        assert(map@[key]@.contains(value));
        assert(map_edges(map@) =~= map_edges(old(map)@).insert((key, value)));
    }
}

/// With no empty sets, a node is a key of an adjacency map exactly when it
/// has an edge there.
pub(crate) proof fn lemma_key_iff_edge<T>(m: Map<T, HashSet<T>>, n: T)
    requires
        no_empty_sets(m),
    ensures
        m.contains_key(n) <==> has_out_edge(map_edges(m), n),
{
    if m.contains_key(n) {
        let s = m[n]@;
        if !exists|v: T| s.contains(v) {
            assert(s =~= Set::<T>::empty());
        }
        let v = choose|v: T| s.contains(v);
        assert(map_edges(m).contains((n, v)));
    }
}

/// The members of `nodes` that are not keys of `map`.
pub(crate) fn nodes_without_key<T: Eq + Hash + Copy>(nodes: &HashSet<T>, map: &HashMap<T, HashSet<T>>) -> (r:
    HashSet<T>)
    requires
        obeys_key_model::<T>(),
    ensures
        r@ == nodes@.filter(|n: T| !map@.contains_key(n)),
{
    let mut r: HashSet<T> = HashSet::new();
    let ghost keys = nodes.iter().remaining().unref();
    for node in it: nodes.iter()
        invariant
            obeys_key_model::<T>(),
            it.seq().unref() == keys,
            keys.to_set() == nodes@,
            forall|y: T|
                r@.contains(y) <==> !map@.contains_key(y) && exists|j: int|
                    0 <= j < it.index() && #[trigger] keys[j] == y,
    {
        proof {
            assert(keys[it.index() as int] == *node);
        }
        if !map.contains_key(node) {
            r.insert(*node);
        }
    }
    proof {
        assert forall|y: T| nodes@.contains(y) && !map@.contains_key(y) implies r@.contains(y) by {
            assert(keys.to_set().contains(y));
            let j = choose|j: int| 0 <= j < keys.len() && keys[j] == y;
        }
        assert forall|y: T| r@.contains(y) implies nodes@.contains(y) by {
            let j = choose|j: int| 0 <= j < keys.len() && #[trigger] keys[j] == y;
            assert(keys.to_set().contains(keys[j]));
        }
        assert(r@ =~= nodes@.filter(|n: T| !map@.contains_key(n)));
    }
    r
}

/// The views of a sequence of hash sets.
pub open spec fn set_views<T>(v: Seq<HashSet<T>>) -> Seq<Set<T>> {
    v.map_values(|s: HashSet<T>| s@)
}

/// Whether every edge of `map` that leaves `n` leads into `done`.
pub(crate) fn targets_within<T: Eq + Hash + Copy>(map: &HashMap<T, HashSet<T>>, n: T, done: &HashSet<T>) -> (r:
    bool)
    requires
        obeys_key_model::<T>(),
    ensures
        r == forall|m: T| #[trigger] map_edges(map@).contains((n, m)) ==> done@.contains(m),
{
    match map.get(&n) {
        None => true,
        Some(deps) => {
            let mut within = true;
            let ghost keys = deps.iter().remaining().unref();
            for d in it: deps.iter()
                invariant
                    obeys_key_model::<T>(),
                    it.seq().unref() == keys,
                    keys.to_set() == deps@,
                    within <==> forall|j: int| 0 <= j < it.index() ==> done@.contains(#[trigger] keys[j]),
            {
                proof {
                    assert(keys[it.index() as int] == *d);
                }
                if !done.contains(d) {
                    within = false;
                }
            }
            proof {
                if within {
                    assert forall|m: T| #[trigger] map_edges(map@).contains((n, m)) implies done@.contains(m) by {
                        assert(keys.to_set().contains(m));
                        let j = choose|j: int| 0 <= j < keys.len() && keys[j] == m;
                    }
                } else {
                    let j = choose|j: int| 0 <= j < keys.len() && !done@.contains(#[trigger] keys[j]);
                    assert(keys.to_set().contains(keys[j]));
                    assert(map_edges(map@).contains((n, keys[j])));
                }
            }
            within
        },
    }
}

/// The members of `nodes` outside `done` whose edges in `map` all lead into
/// `done`.
pub(crate) fn ready_nodes<T: Eq + Hash + Copy>(
    nodes: &HashSet<T>,
    map: &HashMap<T, HashSet<T>>,
    done: &HashSet<T>,
) -> (r: HashSet<T>)
    requires
        obeys_key_model::<T>(),
    ensures
        r@ == ready(nodes@, map_edges(map@), done@),
{
    let ghost edges = map_edges(map@);
    let mut r: HashSet<T> = HashSet::new();
    let ghost keys = nodes.iter().remaining().unref();
    for node in it: nodes.iter()
        invariant
            obeys_key_model::<T>(),
            edges == map_edges(map@),
            it.seq().unref() == keys,
            keys.to_set() == nodes@,
            forall|y: T|
                r@.contains(y) <==> (!done@.contains(y) && (forall|m: T|
                    #[trigger] edges.contains((y, m)) ==> done@.contains(m))) && exists|j: int|
                    0 <= j < it.index() && #[trigger] keys[j] == y,
    {
        proof {
            assert(keys[it.index() as int] == *node);
        }
        if !done.contains(node) && targets_within(map, *node, done) {
            r.insert(*node);
        }
    }
    proof {
        reveal(ready);
        let want = ready(nodes@, edges, done@);
        assert forall|y: T| want.contains(y) implies r@.contains(y) by {
            assert(keys.to_set().contains(y));
            let j = choose|j: int| 0 <= j < keys.len() && keys[j] == y;
        }
        assert forall|y: T| r@.contains(y) implies want.contains(y) by {
            let j = choose|j: int| 0 <= j < keys.len() && #[trigger] keys[j] == y;
            assert(keys.to_set().contains(keys[j]));
        }
        assert(r@ =~= want);
    }
    r
}

/// Nothing is ready only once everything is placed: acyclic edges always
/// leave some unplaced node with all its edges into what is placed.
proof fn lemma_ready_empty_only_when_done<T>(nodes: Set<T>, edges: Set<(T, T)>, done: Set<T>)
    requires
        nodes.finite(),
        done.subset_of(nodes),
        forall|a: T, b: T| #[trigger] edges.contains((a, b)) ==> nodes.contains(a) && nodes.contains(b),
        is_acyclic(edges),
        ready(nodes, edges, done) == Set::<T>::empty(),
    ensures
        done == nodes,
{
    reveal(ready);
    let rest = nodes.difference(done);
    if rest != Set::<T>::empty() {
        let a = rest.choose();
        if !rest.contains(a) {
            assert(rest =~= Set::<T>::empty());
        }
        let inner = edges.filter(|e: (T, T)| rest.contains(e.0) && rest.contains(e.1));
        assert forall|x: T| !#[trigger] reaches(inner, x, x) by {
            if reaches(inner, x, x) {
                lemma_reaches_subset(inner, edges, x, x);
            }
        }
        let s = lemma_acyclic_has_sink(inner, rest, a);
        assert forall|m: T| #[trigger] edges.contains((s, m)) implies done.contains(m) by {
            assert(!inner.contains((s, m)));
        }
        assert(ready(nodes, edges, done).contains(s));
    }
    assert forall|y: T| nodes.contains(y) implies done.contains(y) by {
        if !done.contains(y) {
            assert(nodes.difference(done).contains(y));
        }
    }
    assert(done =~= nodes);
}

/// Adds every member of `more` to `set`.
pub(crate) fn insert_all<T: Eq + Hash + Copy>(set: &mut HashSet<T>, more: &HashSet<T>)
    requires
        obeys_key_model::<T>(),
    ensures
        final(set)@ == old(set)@.union(more@),
{
    let ghost keys = more.iter().remaining().unref();
    for n in it: more.iter()
        invariant
            obeys_key_model::<T>(),
            it.seq().unref() == keys,
            keys.to_set() == more@,
            forall|y: T|
                set@.contains(y) <==> old(set)@.contains(y) || exists|j: int|
                    0 <= j < it.index() && #[trigger] keys[j] == y,
    {
        proof {
            assert(keys[it.index() as int] == *n);
        }
        set.insert(*n);
    }
    proof {
        assert forall|y: T| set@.contains(y) <==> old(set)@.contains(y) || more@.contains(y) by {
            if more@.contains(y) {
                assert(keys.to_set().contains(y));
                let j = choose|j: int| 0 <= j < keys.len() && keys[j] == y;
            }
            if set@.contains(y) && !old(set)@.contains(y) {
                let j = choose|j: int| 0 <= j < keys.len() && #[trigger] keys[j] == y;
                assert(keys.to_set().contains(keys[j]));
            }
        }
        assert(set@ =~= old(set)@.union(more@));
    }
}

/// The layered order of `nodes` under the edges of `map`.
pub(crate) fn layers_of<T: Eq + Hash + Copy>(nodes: &HashSet<T>, map: &HashMap<T, HashSet<T>>) -> (r: Vec<
    HashSet<T>,
>)
    requires
        obeys_key_model::<T>(),
        nodes@.finite(),
        forall|a: T, b: T| #[trigger]
            map_edges(map@).contains((a, b)) ==> nodes@.contains(a) && nodes@.contains(b),
        is_acyclic(map_edges(map@)),
    ensures
        is_layering(nodes@, map_edges(map@), set_views(r@)),
{
    let ghost edges = map_edges(map@);
    let mut layers: Vec<HashSet<T>> = Vec::new();
    let mut done: HashSet<T> = HashSet::new();
    let mut layer = ready_nodes(nodes, map, &done);
    proof {
        reveal(ready);
        assert(done@ =~= placed(set_views(layers@), 0));
    }
    while layer.len() > 0
        invariant
            obeys_key_model::<T>(),
            nodes@.finite(),
            edges == map_edges(map@),
            forall|a: T, b: T| #[trigger]
                edges.contains((a, b)) ==> nodes@.contains(a) && nodes@.contains(b),
            is_acyclic(edges),
            done@.subset_of(nodes@),
            done@ == placed(set_views(layers@), layers@.len() as int),
            forall|k: int|
                0 <= k < layers@.len() ==> #[trigger] set_views(layers@)[k] == ready(
                    nodes@,
                    edges,
                    placed(set_views(layers@), k),
                ),
            forall|k: int| 0 <= k < layers@.len() ==> !(#[trigger] set_views(layers@)[k]).is_empty(),
            layer@ == ready(nodes@, edges, done@),
        decreases nodes@.len() - done@.len(),
    {
        let ghost done_before = done@;
        let ghost views_before = set_views(layers@);
        proof {
            reveal(ready);
            lemma_len_subset(layer@, nodes@);
            assert(layer@.finite());
        }
        insert_all(&mut done, &layer);
        proof {
            let x = layer@.choose();
            if !layer@.contains(x) {
                assert(layer@ =~= Set::<T>::empty());
            }
            assert(!done_before.contains(x));
            lemma_len_subset(done_before, nodes@);
            lemma_len_subset(done@, nodes@);
            lemma_len_subset(done_before.insert(x), done@);
        }
        let ghost last = layer@;
        layers.push(layer);
        proof {
            let views = set_views(layers@);
            assert(views =~= views_before.push(last));
            assert forall|k: int| 0 <= k <= views_before.len() implies placed(views, k) == placed(
                views_before,
                k,
            ) by {
                lemma_placed_push(views_before, last, k);
            }
            assert(placed(views, views.len() as int) == placed(views_before, views_before.len() as int).union(
                views[views_before.len() as int],
            ));
            assert forall|k: int| 0 <= k < views.len() implies #[trigger] views[k] == ready(
                nodes@,
                edges,
                placed(views, k),
            ) by {
                if k < views_before.len() {
                    assert(views[k] == views_before[k]);
                }
            }
            assert forall|k: int| 0 <= k < views.len() implies !(#[trigger] views[k]).is_empty() by {
                if k < views_before.len() {
                    assert(views[k] == views_before[k]);
                } else {
                    assert(last.contains(last.choose()) || last =~= Set::<T>::empty());
                    lemma_len_subset(last, nodes@);
                }
            }
        }
        layer = ready_nodes(nodes, map, &done);
    }
    proof {
        reveal(ready);
        lemma_len_subset(layer@, nodes@);
        assert(layer@ =~= Set::<T>::empty());
        lemma_ready_empty_only_when_done(nodes@, edges, done@);
    }
    layers
}

/// Every node that `start` reaches along the edges of `map`.
pub(crate) fn reachable_from<T: Eq + Hash + Copy>(
    map: &HashMap<T, HashSet<T>>,
    start: T,
    Ghost(bound): Ghost<Set<T>>,
) -> (r: HashSet<T>)
    requires
        obeys_key_model::<T>(),
        bound.finite(),
        forall|a: T, b: T| #[trigger] map_edges(map@).contains((a, b)) ==> bound.contains(b),
    ensures
        r@ == Set::new(|y: T| reaches(map_edges(map@), start, y)),
{
    let ghost edges = map_edges(map@);
    let mut out: HashSet<T> = HashSet::new();
    let mut pending: Vec<T> = Vec::new();
    pending.push(start);
    assert(pending@[0] == start);
    while pending.len() > 0
        invariant
            obeys_key_model::<T>(),
            bound.finite(),
            edges == map_edges(map@),
            forall|a: T, b: T| #[trigger] edges.contains((a, b)) ==> bound.contains(b),
            out@.subset_of(bound),
            forall|y: T| #[trigger] out@.contains(y) ==> reaches(edges, start, y),
            forall|i: int|
                0 <= i < pending@.len() ==> (pending@[i] == start || out@.contains(#[trigger] pending@[i])),
            forall|x: T, y: T|
                (x == start || out@.contains(x)) && !pending@.contains(x) && #[trigger] edges.contains(
                    (x, y),
                ) ==> out@.contains(y),
        decreases bound.len() - out@.len(), pending.len(),
    {
        let ghost old_pending = pending@;
        let n = pending.pop().unwrap();
        let ghost rest = pending@;
        let ghost out_before = out@;
        proof {
            assert(old_pending == rest.push(n));
            assert(n == start || out@.contains(n)) by {
                assert(old_pending[old_pending.len() - 1] == n);
            }
            lemma_len_subset(out@, bound);
        }
        match map.get(&n) {
            Some(deps) => {
                let ghost keys = deps.iter().remaining().unref();
                for d in it: deps.iter()
                    invariant
                        obeys_key_model::<T>(),
                        bound.finite(),
                        edges == map_edges(map@),
                        forall|a: T, b: T| #[trigger] edges.contains((a, b)) ==> bound.contains(b),
                        it.seq().unref() == keys,
                        keys.to_set() == deps@,
                        map@.contains_key(n),
                        map@[n] == *deps,
                        n == start || reaches(edges, start, n),
                        out_before.subset_of(out@),
                        out@.subset_of(bound),
                        forall|y: T| #[trigger] out@.contains(y) ==> reaches(edges, start, y),
                        forall|j: int| 0 <= j < it.index() ==> out@.contains(#[trigger] keys[j]),
                        pending@.len() >= rest.len(),
                        forall|i: int| 0 <= i < rest.len() ==> pending@[i] == #[trigger] rest[i],
                        forall|i: int|
                            rest.len() <= i < pending@.len() ==> out@.contains(#[trigger] pending@[i])
                                && !out_before.contains(pending@[i]),
                        pending@.len() + out_before.len() == rest.len() + out@.len(),
                        forall|y: T|
                            #[trigger] out@.contains(y) && !out_before.contains(y) ==> pending@.contains(y),
                {
                    proof {
                        assert(keys[it.index() as int] == *d);
                        assert(deps@.contains(*d)) by {
                            assert(keys.to_set().contains(keys[it.index() as int]));
                        }
                        assert(edges.contains((n, *d)));
                        if n == start {
                            lemma_edge_reaches(edges, n, *d);
                        } else {
                            lemma_reaches_then_edge(edges, start, n, *d);
                        }
                        lemma_len_subset(out@, bound);
                    }
                    let ghost pending_now = pending@;
                    if out.insert(*d) {
                        pending.push(*d);
                    }
                    proof {
                        assert forall|y: T| #[trigger]
                            out@.contains(y) && !out_before.contains(y) implies pending@.contains(y) by {
                            if pending_now.contains(y) {
                                let i = choose|i: int| 0 <= i < pending_now.len() && pending_now[i] == y;
                                assert(pending@[i] == y);
                            } else {
                                assert(pending@[pending@.len() - 1] == y);
                            }
                        }
                    }
                }
            },
            None => {},
        }
        proof {
            lemma_len_subset(out@, bound);
            assert forall|i: int| 0 <= i < pending@.len() implies (pending@[i] == start
                || out@.contains(#[trigger] pending@[i])) by {
                if i < rest.len() {
                    assert(pending@[i] == rest[i]);
                    assert(old_pending[i] == rest[i]);
                }
            }
            assert forall|x: T, y: T|
                (x == start || out@.contains(x)) && !pending@.contains(x) && #[trigger] edges.contains(
                    (x, y),
                ) implies out@.contains(y) by {
                if x == n {
                    let ks = map@[n]@;
                    assert(ks.contains(y));
                    let keys = map@[n].iter().remaining().unref();
                    assert(keys.to_set() == ks);
                    assert(keys.to_set().contains(y));
                    let j = choose|j: int| 0 <= j < keys.len() && keys[j] == y;
                    assert(out@.contains(keys[j]));
                } else {
                    if !(x == start || out_before.contains(x)) {
                        assert(out@.contains(x) && !out_before.contains(x));
                        assert(pending@.contains(x));
                    }
                    if old_pending.contains(x) {
                        let i = choose|i: int| 0 <= i < old_pending.len() && old_pending[i] == x;
                        assert(pending@[i] == x);
                    }
                    assert(out_before.contains(y));
                }
            }
        }
    }
    proof {
        assert forall|y: T| reaches(edges, start, y) implies out@.contains(y) by {
            lemma_closed_set_holds_reach(edges, out@, start, y);
        }
        assert(out@ =~= Set::new(|y: T| reaches(edges, start, y)));
    }
    out
}

} // verus!
