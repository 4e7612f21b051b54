//! Walks in an adjacency map, and the order in which a breadth-first search
//! meets them.
//!
//! A graph is modelled as a map from each node to the sequence of its
//! neighbours, in the order in which they were recorded. Everything here is
//! ghost code: definitions that the contracts of the graph speak of, and the
//! facts about them that the proofs need.

use vstd::prelude::*;

verus! {

/// The neighbours listed for `a`, or nothing if `a` is not a node of `g`.
pub open spec fn neighbors<T>(g: Map<T, Seq<T>>, a: T) -> Seq<T> {
    if g.dom().contains(a) {
        g[a]
    } else {
        Seq::empty()
    }
}

/// The graph `g` with `b` appended to the neighbours of `a` and then `a`
/// appended to the neighbours of `b`. Nodes that were unknown become known.
/// Nothing is deduplicated: for `a == b` the node gains itself twice.
pub open spec fn with_edge<T>(g: Map<T, Seq<T>>, a: T, b: T) -> Map<T, Seq<T>> {
    let forth = g.insert(a, neighbors(g, a).push(b));
    forth.insert(b, neighbors(forth, b).push(a))
}

/// `b` is listed as a neighbour of the node `a`.
pub open spec fn has_edge<T>(g: Map<T, Seq<T>>, a: T, b: T) -> bool {
    g.dom().contains(a) && g[a].contains(b)
}

/// Every listed neighbour is itself a node, and lists the node it is listed by.
pub open spec fn is_undirected<T>(g: Map<T, Seq<T>>) -> bool {
    forall|a: T, b: T| #[trigger] has_edge(g, a, b) ==> has_edge(g, b, a)
}

/// `p` is a non-empty sequence of nodes of `g` in which each node is listed as
/// a neighbour of the one before it.
pub open spec fn is_walk<T>(g: Map<T, Seq<T>>, p: Seq<T>) -> bool {
    &&& p.len() > 0
    &&& forall|i: int| 0 <= i < p.len() ==> g.dom().contains(#[trigger] p[i])
    &&& forall|i: int| #![trigger p[i]] 0 <= i < p.len() - 1 ==> has_edge(g, p[i], p[i + 1])
}

/// `p` is a walk of `g` that starts at `s` and ends at `d`.
pub open spec fn connects<T>(g: Map<T, Seq<T>>, s: T, d: T, p: Seq<T>) -> bool {
    is_walk(g, p) && p.first() == s && p.last() == d
}

/// Some walk of `g` leads from `s` to `d`. Both are then nodes of `g`.
pub open spec fn reachable<T>(g: Map<T, Seq<T>>, s: T, d: T) -> bool {
    exists|p: Seq<T>| connects(g, s, d, p)
}

/// Position `j` of `l` holds `x`, and `y` occurs neither there nor earlier.
pub open spec fn listed_before_at<T>(l: Seq<T>, x: T, y: T, j: int) -> bool {
    &&& 0 <= j < l.len()
    &&& l[j] == x
    &&& forall|k: int| 0 <= k <= j ==> l[k] != y
}

/// The first occurrence of `x` in `l` comes before any occurrence of `y`.
pub open spec fn listed_before<T>(l: Seq<T>, x: T, y: T) -> bool {
    exists|j: int| listed_before_at(l, x, y, j)
}

/// `p` and `q` agree on their first `k` nodes, and at position `k` the node
/// of `p` is listed before the node of `q` among the neighbours of the node
/// that both come from.
pub open spec fn branches_first_at<T>(g: Map<T, Seq<T>>, p: Seq<T>, q: Seq<T>, k: int) -> bool {
    &&& 0 < k < p.len()
    &&& k < q.len()
    &&& forall|i: int| 0 <= i < k ==> p[i] == q[i]
    &&& listed_before(neighbors(g, p[k - 1]), p[k], q[k])
}

/// The order in which a breadth-first search that visits neighbours as they
/// are listed meets two sequences of nodes: the shorter one first, and of two
/// of the same length the one that takes the earlier-listed neighbour where
/// they first differ.
pub open spec fn precedes<T>(g: Map<T, Seq<T>>, p: Seq<T>, q: Seq<T>) -> bool {
    ||| p.len() < q.len()
    ||| p.len() == q.len() && exists|k: int| branches_first_at(g, p, q, k)
}

/// `p` leads from `s` to `d` and precedes every other walk that does. It is
/// therefore a shortest walk from `s` to `d`, and among the shortest the one
/// that a breadth-first search in listing order finds.
pub open spec fn is_first_shortest_path<T>(g: Map<T, Seq<T>>, s: T, d: T, p: Seq<T>) -> bool {
    &&& connects(g, s, d, p)
    &&& forall|q: Seq<T>| #[trigger] connects(g, s, d, q) && q != p ==> precedes(g, p, q)
}

/// If `x` is listed before `y` and `y` before `z`, then `x` is listed before `z`.
pub proof fn lemma_listed_before_transitive<T>(l: Seq<T>, x: T, y: T, z: T)
    requires
        listed_before(l, x, y),
        listed_before(l, y, z),
    ensures
        listed_before(l, x, z),
{
    let j = choose|j: int| listed_before_at(l, x, y, j);
    let k = choose|k: int| listed_before_at(l, y, z, k);
    assert(j < k) by {
        if k <= j {
            assert(l[k] != y);
        }
    }
    assert(listed_before_at(l, x, z, j));
}

/// No two nodes are each listed before the other.
pub proof fn lemma_listed_before_asymmetric<T>(l: Seq<T>, x: T, y: T)
    requires
        listed_before(l, x, y),
    ensures
        !listed_before(l, y, x),
        x != y,
{
    let j = choose|j: int| listed_before_at(l, x, y, j);
    assert(l[j] != y);
    if listed_before(l, y, x) {
        let k = choose|k: int| listed_before_at(l, y, x, k);
        if j <= k {
            assert(l[j] != x);
        } else {
            assert(l[k] != y);
        }
    }
}

/// The search order is transitive.
pub proof fn lemma_precedes_transitive<T>(g: Map<T, Seq<T>>, p: Seq<T>, q: Seq<T>, r: Seq<T>)
    requires
        precedes(g, p, q),
        precedes(g, q, r),
    ensures
        precedes(g, p, r),
{
    if p.len() == q.len() && q.len() == r.len() {
        let a = choose|k: int| branches_first_at(g, p, q, k);
        let b = choose|k: int| branches_first_at(g, q, r, k);
        if a < b {
            assert(q[a] == r[a]);
            assert(p[a - 1] == q[a - 1]);
            assert(branches_first_at(g, p, r, a));
        } else if b < a {
            assert(p[b] == q[b]);
            assert(p[b - 1] == q[b - 1]);
            assert(branches_first_at(g, p, r, b));
        } else {
            assert(p[a - 1] == q[a - 1]);
            lemma_listed_before_transitive(neighbors(g, p[a - 1]), p[a], q[a], r[a]);
            assert(branches_first_at(g, p, r, a));
        }
    }
}

/// No two sequences each precede the other, and none precedes itself.
pub proof fn lemma_precedes_asymmetric<T>(g: Map<T, Seq<T>>, p: Seq<T>, q: Seq<T>)
    requires
        precedes(g, p, q),
    ensures
        !precedes(g, q, p),
        p != q,
{
    if p.len() == q.len() {
        let a = choose|k: int| branches_first_at(g, p, q, k);
        lemma_listed_before_asymmetric(neighbors(g, p[a - 1]), p[a], q[a]);
        if precedes(g, q, p) {
            let b = choose|k: int| branches_first_at(g, q, p, k);
            lemma_listed_before_asymmetric(neighbors(g, q[b - 1]), q[b], p[b]);
            if a < b {
                assert(q[a] == p[a]);
            } else if b < a {
                assert(p[b] == q[b]);
            } else {
                assert(p[a - 1] == q[a - 1]);
            }
        }
    }
}

/// Appending one node to each of two sequences keeps their order.
pub proof fn lemma_precedes_extended<T>(g: Map<T, Seq<T>>, p: Seq<T>, q: Seq<T>, x: T, y: T)
    requires
        precedes(g, p, q),
    ensures
        precedes(g, p.push(x), q.push(y)),
{
    if p.len() == q.len() {
        let k = choose|k: int| branches_first_at(g, p, q, k);
        assert(p.push(x)[k - 1] == p[k - 1]);
        assert(p.push(x)[k] == p[k]);
        assert(q.push(y)[k] == q[k]);
        assert(branches_first_at(g, p.push(x), q.push(y), k));
    }
}

/// A walk of two or more nodes is a shorter walk followed by one edge.
pub proof fn lemma_walk_without_last<T>(g: Map<T, Seq<T>>, p: Seq<T>)
    requires
        is_walk(g, p),
        p.len() >= 2,
    ensures
        is_walk(g, p.drop_last()),
        p.drop_last().first() == p.first(),
        has_edge(g, p.drop_last().last(), p.last()),
        p == p.drop_last().push(p.last()),
{
    let front = p.drop_last();
    assert forall|i: int| 0 <= i < front.len() implies g.dom().contains(#[trigger] front[i]) by {
        assert(front[i] == p[i]);
    }
    assert forall|i: int| #![trigger front[i]] 0 <= i < front.len() - 1 implies has_edge(
        g,
        front[i],
        front[i + 1],
    ) by {
        assert(front[i] == p[i]);
        assert(front[i + 1] == p[i + 1]);
    }
    assert(front.last() == p[p.len() - 2]);
    assert(p =~= front.push(p.last()));
}

/// A walk followed by an edge from its last node is a walk.
pub proof fn lemma_walk_with_edge<T>(g: Map<T, Seq<T>>, p: Seq<T>, w: T)
    requires
        is_walk(g, p),
        has_edge(g, p.last(), w),
        g.dom().contains(w),
    ensures
        is_walk(g, p.push(w)),
        p.push(w).first() == p.first(),
        p.push(w).last() == w,
{
    let longer = p.push(w);
    assert forall|i: int| 0 <= i < longer.len() implies g.dom().contains(#[trigger] longer[i]) by {
        if i < p.len() {
            assert(longer[i] == p[i]);
        }
    }
    assert forall|i: int| #![trigger longer[i]] 0 <= i < longer.len() - 1 implies has_edge(
        g,
        longer[i],
        longer[i + 1],
    ) by {
        assert(longer[i] == p[i]);
        if i + 1 < p.len() {
            assert(longer[i + 1] == p[i + 1]);
        }
    }
}

} // verus!
