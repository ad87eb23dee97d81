//! Reachability over a set of directed edges, and the layered order of an
//! acyclic edge set.
use vstd::prelude::*;
use vstd::set_lib::lemma_len_subset;

verus! {

/// `p` is a walk of at least one edge: each element is joined to the next
/// one by an edge `(from, to)`.
pub open spec fn is_walk<T>(edges: Set<(T, T)>, p: Seq<T>) -> bool {
    &&& p.len() >= 2
    &&& forall|i: int| 0 <= i < p.len() - 1 ==> #[trigger] edges.contains((p[i], p[i + 1]))
}

/// `b` can be reached from `a` by following one or more edges.
pub open spec fn reaches<T>(edges: Set<(T, T)>, a: T, b: T) -> bool {
    exists|p: Seq<T>| #[trigger] is_walk(edges, p) && p[0] == a && p.last() == b
}

/// No node reaches itself.
pub open spec fn is_acyclic<T>(edges: Set<(T, T)>) -> bool {
    forall|a: T| !#[trigger] reaches(edges, a, a)
}

/// The same edges, each turned around.
pub open spec fn reversed<T>(edges: Set<(T, T)>) -> Set<(T, T)> {
    Set::new(|e: (T, T)| edges.contains((e.1, e.0)))
}

/// `n` has at least one outgoing edge.
pub open spec fn has_out_edge<T>(edges: Set<(T, T)>, n: T) -> bool {
    exists|m: T| #[trigger] edges.contains((n, m))
}

/// `n` has at least one incoming edge.
pub open spec fn has_in_edge<T>(edges: Set<(T, T)>, n: T) -> bool {
    exists|m: T| #[trigger] edges.contains((m, n))
}

/// Without edges nothing is reached.
pub proof fn lemma_no_edges_no_reach<T>(a: T, b: T)
    ensures
        !reaches(Set::<(T, T)>::empty(), a, b),
{
    if reaches(Set::<(T, T)>::empty(), a, b) {
        let p = choose|p: Seq<T>| #[trigger] is_walk(Set::<(T, T)>::empty(), p) && p[0] == a && p.last() == b;
        let z: int = 0;
        assert(Set::<(T, T)>::empty().contains((p[z], p[z + 1])));
    }
}

/// Walks of a subset of the edges are walks of all of them.
pub proof fn lemma_reaches_subset<T>(sub: Set<(T, T)>, edges: Set<(T, T)>, a: T, b: T)
    requires
        sub.subset_of(edges),
        reaches(sub, a, b),
    ensures
        reaches(edges, a, b),
{
    let p = choose|p: Seq<T>| #[trigger] is_walk(sub, p) && p[0] == a && p.last() == b;
    assert forall|i: int| 0 <= i < p.len() - 1 implies #[trigger] edges.contains((p[i], p[i + 1])) by {
        assert(sub.contains((p[i], p[i + 1])));
    }
    assert(is_walk(edges, p));
}

pub proof fn lemma_edge_reaches<T>(edges: Set<(T, T)>, a: T, b: T)
    requires
        edges.contains((a, b)),
    ensures
        reaches(edges, a, b),
{
    let p = seq![a, b];
    let z: int = 0;
    assert(edges.contains((p[z], p[z + 1])));
    assert(is_walk(edges, p));
}

pub proof fn lemma_reaches_trans<T>(edges: Set<(T, T)>, a: T, b: T, c: T)
    requires
        reaches(edges, a, b),
        reaches(edges, b, c),
    ensures
        reaches(edges, a, c),
{
    let p1 = choose|p: Seq<T>| #[trigger] is_walk(edges, p) && p[0] == a && p.last() == b;
    let p2 = choose|p: Seq<T>| #[trigger] is_walk(edges, p) && p[0] == b && p.last() == c;
    let tail = p2.subrange(1, p2.len() as int);
    let q = p1 + tail;
    assert forall|i: int| 0 <= i < q.len() - 1 implies #[trigger] edges.contains((q[i], q[i + 1])) by {
        if i < p1.len() - 1 {
            assert(edges.contains((p1[i], p1[i + 1])));
        } else if i == p1.len() - 1 {
            let z: int = 0;
            assert(edges.contains((p2[z], p2[z + 1])));
        } else {
            let j = i - p1.len() + 1;
            assert(edges.contains((p2[j], p2[j + 1])));
        }
    }
    assert(is_walk(edges, q));
}

pub proof fn lemma_reaches_then_edge<T>(edges: Set<(T, T)>, a: T, b: T, c: T)
    requires
        reaches(edges, a, b),
        edges.contains((b, c)),
    ensures
        reaches(edges, a, c),
{
    lemma_edge_reaches(edges, b, c);
    lemma_reaches_trans(edges, a, b, c);
}

proof fn lemma_walk_stays_in<T>(edges: Set<(T, T)>, c: Set<T>, a: T, p: Seq<T>, i: int)
    requires
        forall|x: T, y: T|
            (x == a || c.contains(x)) && #[trigger] edges.contains((x, y)) ==> c.contains(y),
        is_walk(edges, p),
        p[0] == a,
        1 <= i < p.len(),
    ensures
        c.contains(p[i]),
    decreases i,
{
    if i > 1 {
        lemma_walk_stays_in(edges, c, a, p, i - 1);
    }
    let k = i - 1;
    assert(edges.contains((p[k], p[k + 1])));
}

/// A set that holds everything one edge away from `a` or from its own
/// members holds everything that `a` reaches.
pub proof fn lemma_closed_set_holds_reach<T>(edges: Set<(T, T)>, c: Set<T>, a: T, b: T)
    requires
        forall|x: T, y: T|
            (x == a || c.contains(x)) && #[trigger] edges.contains((x, y)) ==> c.contains(y),
        reaches(edges, a, b),
    ensures
        c.contains(b),
{
    let p = choose|p: Seq<T>| #[trigger] is_walk(edges, p) && p[0] == a && p.last() == b;
    lemma_walk_stays_in(edges, c, a, p, p.len() - 1);
}

/// Walks of the reversed edges are the original walks read backwards.
pub proof fn lemma_reversed_reaches<T>(edges: Set<(T, T)>, a: T, b: T)
    ensures
        reaches(reversed(edges), a, b) <==> reaches(edges, b, a),
{
    let r = reversed(edges);
    if reaches(edges, b, a) {
        let p = choose|p: Seq<T>| #[trigger] is_walk(edges, p) && p[0] == b && p.last() == a;
        let q = p.reverse();
        assert forall|i: int| 0 <= i < q.len() - 1 implies #[trigger] r.contains((q[i], q[i + 1])) by {
            let j = p.len() - 2 - i;
            assert(edges.contains((p[j], p[j + 1])));
        }
        assert(is_walk(r, q));
    }
    if reaches(r, a, b) {
        let p = choose|p: Seq<T>| #[trigger] is_walk(r, p) && p[0] == a && p.last() == b;
        let q = p.reverse();
        assert forall|i: int| 0 <= i < q.len() - 1 implies #[trigger] edges.contains((q[i], q[i + 1])) by {
            let j = p.len() - 2 - i;
            assert(r.contains((p[j], p[j + 1])));
        }
        assert(is_walk(edges, q));
    }
}

pub proof fn lemma_reversed_acyclic<T>(edges: Set<(T, T)>)
    requires
        is_acyclic(edges),
    ensures
        is_acyclic(reversed(edges)),
{
    assert forall|a: T| !#[trigger] reaches(reversed(edges), a, a) by {
        lemma_reversed_reaches(edges, a, a);
    }
}

/// `a == b`, or `a` reaches `b`.
pub open spec fn reaches_or_is<T>(edges: Set<(T, T)>, a: T, b: T) -> bool {
    a == b || reaches(edges, a, b)
}

proof fn lemma_new_edge_walk<T>(edges: Set<(T, T)>, f: T, t: T, p: Seq<T>, i: int)
    requires
        is_walk(edges.insert((f, t)), p),
        1 <= i < p.len(),
    ensures
        reaches(edges, p[0], p[i]) || (reaches_or_is(edges, p[0], f) && reaches_or_is(
            edges,
            t,
            p[i],
        )),
    decreases i,
{
    let e = edges.insert((f, t));
    let k = i - 1;
    assert(e.contains((p[k], p[k + 1])));
    if i > 1 {
        lemma_new_edge_walk(edges, f, t, p, i - 1);
    }
    if (p[i - 1], p[i]) == (f, t) {
        if i > 1 && reaches(edges, p[0], p[i - 1]) {
        }
    } else {
        assert(edges.contains((p[i - 1], p[i])));
        if i == 1 {
            lemma_edge_reaches(edges, p[0], p[1]);
        } else if reaches(edges, p[0], p[i - 1]) {
            lemma_reaches_then_edge(edges, p[0], p[i - 1], p[i]);
        } else if t == p[i - 1] {
            lemma_edge_reaches(edges, t, p[i]);
        } else {
            lemma_reaches_then_edge(edges, t, p[i - 1], p[i]);
        }
    }
}

/// A node reached once the edge `(f, t)` is added was reached before, or
/// is reached through `f` and then `t`.
pub proof fn lemma_reaches_with_new_edge<T>(edges: Set<(T, T)>, f: T, t: T, a: T, b: T)
    requires
        reaches(edges.insert((f, t)), a, b),
    ensures
        reaches(edges, a, b) || (reaches_or_is(edges, a, f) && reaches_or_is(edges, t, b)),
{
    let p = choose|p: Seq<T>| #[trigger] is_walk(edges.insert((f, t)), p) && p[0] == a && p.last() == b;
    lemma_new_edge_walk(edges, f, t, p, p.len() - 1);
}

/// Adding the edge `(f, t)` keeps the edges acyclic when `t` does not
/// already reach `f`.
pub proof fn lemma_new_edge_keeps_acyclic<T>(edges: Set<(T, T)>, f: T, t: T)
    requires
        is_acyclic(edges),
        f != t,
        !reaches(edges, t, f),
    ensures
        is_acyclic(edges.insert((f, t))),
{
    assert forall|a: T| !#[trigger] reaches(edges.insert((f, t)), a, a) by {
        if reaches(edges.insert((f, t)), a, a) {
            lemma_reaches_with_new_edge(edges, f, t, a, a);
            assert(!reaches(edges, a, a));
            if t != a && a != f {
                lemma_reaches_trans(edges, t, a, f);
            }
        }
    }
}

/// In a finite, acyclic set of nodes closed under the edges, following
/// edges from any member ends at a member with no outgoing edge.
pub proof fn lemma_acyclic_has_sink<T>(edges: Set<(T, T)>, s: Set<T>, a: T) -> (sink: T)
    requires
        s.finite(),
        s.contains(a),
        forall|x: T, y: T| s.contains(x) && #[trigger] edges.contains((x, y)) ==> s.contains(y),
        is_acyclic(edges),
    ensures
        s.contains(sink),
        forall|y: T| !edges.contains((sink, y)),
    decreases s.filter(|y: T| reaches(edges, a, y)).len(),
{
    if exists|y: T| edges.contains((a, y)) {
        let b = choose|y: T| edges.contains((a, y));
        let ra = s.filter(|y: T| reaches(edges, a, y));
        let rb = s.filter(|y: T| reaches(edges, b, y));
        lemma_edge_reaches(edges, a, b);
        assert forall|y: T| rb.contains(y) implies ra.remove(b).contains(y) by {
            lemma_reaches_trans(edges, a, b, y);
            assert(!reaches(edges, b, b));
        }
        lemma_len_subset(rb, ra.remove(b));
        lemma_acyclic_has_sink(edges, s, b)
    } else {
        a
    }
}

} // verus!
