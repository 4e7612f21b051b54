//! A graph under another naming of its nodes.
//!
//! Where each node has a name of its own, the graph on the names has the same
//! walks in the same search order, so what was found on one graph holds on
//! the other.

use crate::paths::{
    branches_first_at, connects, has_edge, is_first_shortest_path, is_walk, listed_before,
    listed_before_at, neighbors, precedes, reachable,
};
use vstd::prelude::*;

verus! {

/// No two nodes in `nodes` have the same name under `f`.
pub open spec fn injective_on<A, B>(nodes: Set<A>, f: spec_fn(A) -> B) -> bool {
    forall|a: A, b: A|
        nodes.contains(a) && nodes.contains(b) && #[trigger] f(a) == #[trigger] f(b) ==> a == b
}

/// Every listed neighbour is itself a node.
pub open spec fn is_closed<A>(g: Map<A, Seq<A>>) -> bool {
    forall|a: A, b: A| #[trigger] has_edge(g, a, b) ==> g.dom().contains(b)
}

/// `a` is a node of `g` with the name `b`.
pub open spec fn named<A, B>(g: Map<A, Seq<A>>, f: spec_fn(A) -> B, a: A, b: B) -> bool {
    g.dom().contains(a) && f(a) == b
}

/// A node of `g` with the name `b`, if there is one.
pub open spec fn origin<A, B>(g: Map<A, Seq<A>>, f: spec_fn(A) -> B, b: B) -> A {
    choose|a: A| named(g, f, a, b)
}

/// The graph on the names of the nodes of `g`: each name lists the names of
/// the neighbours that its node lists, in the same order.
pub open spec fn renamed<A, B>(g: Map<A, Seq<A>>, f: spec_fn(A) -> B) -> Map<B, Seq<B>> {
    Map::new(
        |b: B| exists|a: A| named(g, f, a, b),
        |b: B| g[origin(g, f, b)].map_values(f),
    )
}

/// What the renamed graph holds for the name of a node.
pub proof fn lemma_renamed_node<A, B>(g: Map<A, Seq<A>>, f: spec_fn(A) -> B, a: A)
    requires
        injective_on(g.dom(), f),
        g.dom().contains(a),
    ensures
        renamed(g, f).dom().contains(f(a)),
        origin(g, f, f(a)) == a,
        renamed(g, f)[f(a)] == g[a].map_values(f),
{
    assert(named(g, f, a, f(a)));
}

/// Every node of the renamed graph is the name of a node.
pub proof fn lemma_renamed_origin<A, B>(g: Map<A, Seq<A>>, f: spec_fn(A) -> B, b: B)
    requires
        renamed(g, f).dom().contains(b),
    ensures
        g.dom().contains(origin(g, f, b)),
        f(origin(g, f, b)) == b,
{
}

/// An edge between two nodes is an edge between their names.
proof fn lemma_renamed_edge<A, B>(g: Map<A, Seq<A>>, f: spec_fn(A) -> B, a: A, b: A)
    requires
        injective_on(g.dom(), f),
        has_edge(g, a, b),
    ensures
        has_edge(renamed(g, f), f(a), f(b)),
{
    lemma_renamed_node(g, f, a);
    let j = choose|j: int| 0 <= j < g[a].len() && g[a][j] == b;
    assert(g[a].map_values(f)[j] == f(b));
}

/// An edge between the names of two nodes is an edge between the nodes.
proof fn lemma_renamed_edge_origin<A, B>(g: Map<A, Seq<A>>, f: spec_fn(A) -> B, a: A, b: A)
    requires
        injective_on(g.dom(), f),
        is_closed(g),
        g.dom().contains(a),
        g.dom().contains(b),
        has_edge(renamed(g, f), f(a), f(b)),
    ensures
        has_edge(g, a, b),
{
    lemma_renamed_node(g, f, a);
    let named_list = g[a].map_values(f);
    let j = choose|j: int| 0 <= j < named_list.len() && named_list[j] == f(b);
    assert(has_edge(g, a, g[a][j]));
    assert(f(g[a][j]) == f(b));
}

/// The names of the nodes of a walk are a walk of the renamed graph.
pub proof fn lemma_renamed_walk<A, B>(g: Map<A, Seq<A>>, f: spec_fn(A) -> B, p: Seq<A>)
    requires
        injective_on(g.dom(), f),
        is_walk(g, p),
    ensures
        is_walk(renamed(g, f), p.map_values(f)),
{
    let h = renamed(g, f);
    let q = p.map_values(f);
    assert forall|i: int| 0 <= i < q.len() implies h.dom().contains(#[trigger] q[i]) by {
        assert(g.dom().contains(p[i]));
        lemma_renamed_node(g, f, p[i]);
    }
    assert forall|i: int| #![trigger q[i]] 0 <= i < q.len() - 1 implies has_edge(
        h,
        q[i],
        q[i + 1],
    ) by {
        assert(has_edge(g, p[i], p[i + 1]));
        lemma_renamed_edge(g, f, p[i], p[i + 1]);
    }
}

/// A walk of the renamed graph is made of the names of the nodes of a walk.
pub proof fn lemma_renamed_walk_origin<A, B>(g: Map<A, Seq<A>>, f: spec_fn(A) -> B, q: Seq<B>)
    requires
        injective_on(g.dom(), f),
        is_closed(g),
        is_walk(renamed(g, f), q),
    ensures
        is_walk(g, q.map_values(|b: B| origin(g, f, b))),
        q.map_values(|b: B| origin(g, f, b)).map_values(f) == q,
{
    let h = renamed(g, f);
    let p = q.map_values(|b: B| origin(g, f, b));
    assert forall|i: int| 0 <= i < p.len() implies g.dom().contains(#[trigger] p[i]) && f(p[i])
        == q[i] by {
        assert(h.dom().contains(q[i]));
        lemma_renamed_origin(g, f, q[i]);
    }
    assert forall|i: int| #![trigger p[i]] 0 <= i < p.len() - 1 implies has_edge(
        g,
        p[i],
        p[i + 1],
    ) by {
        assert(g.dom().contains(p[i]) && f(p[i]) == q[i]);
        assert(g.dom().contains(p[i + 1]) && f(p[i + 1]) == q[i + 1]);
        assert(has_edge(h, q[i], q[i + 1]));
        lemma_renamed_edge_origin(g, f, p[i], p[i + 1]);
    }
    assert(p.map_values(f) =~= q);
}

/// Two walks are met by a search in the order in which it meets their names.
pub proof fn lemma_renamed_precedes<A, B>(
    g: Map<A, Seq<A>>,
    f: spec_fn(A) -> B,
    p: Seq<A>,
    q: Seq<A>,
)
    requires
        injective_on(g.dom(), f),
        is_closed(g),
        is_walk(g, p),
        is_walk(g, q),
        precedes(g, p, q),
    ensures
        precedes(renamed(g, f), p.map_values(f), q.map_values(f)),
{
    if p.len() == q.len() {
        let h = renamed(g, f);
        let pn = p.map_values(f);
        let qn = q.map_values(f);
        let k = choose|k: int| branches_first_at(g, p, q, k);
        let u = p[k - 1];
        assert(g.dom().contains(u));
        lemma_renamed_node(g, f, u);
        let j = choose|j: int| listed_before_at(g[u], p[k], q[k], j);
        let named_list = g[u].map_values(f);
        assert(listed_before_at(named_list, pn[k], qn[k], j)) by {
            assert forall|m: int| 0 <= m <= j implies named_list[m] != qn[k] by {
                assert(g[u][m] != q[k]);
                assert(has_edge(g, u, g[u][m]));
                assert(g.dom().contains(q[k]));
            }
        }
        assert(pn[k - 1] == f(u));
        assert(neighbors(h, pn[k - 1]) == named_list);
        assert(listed_before(neighbors(h, pn[k - 1]), pn[k], qn[k]));
        assert(branches_first_at(h, pn, qn, k));
    }
}

/// The names along the first shortest path between two nodes are the first
/// shortest path between their names.
pub proof fn lemma_renamed_first_shortest_path<A, B>(
    g: Map<A, Seq<A>>,
    f: spec_fn(A) -> B,
    s: A,
    d: A,
    p: Seq<A>,
)
    requires
        injective_on(g.dom(), f),
        is_closed(g),
        is_first_shortest_path(g, s, d, p),
    ensures
        is_first_shortest_path(renamed(g, f), f(s), f(d), p.map_values(f)),
{
    let h = renamed(g, f);
    let pn = p.map_values(f);
    lemma_renamed_walk(g, f, p);
    assert(g.dom().contains(p[0]));
    assert(g.dom().contains(p[p.len() - 1]));
    assert forall|qn: Seq<B>| #[trigger] connects(h, f(s), f(d), qn) && qn != pn implies precedes(
        h,
        pn,
        qn,
    ) by {
        let q = qn.map_values(|b: B| origin(g, f, b));
        lemma_renamed_walk_origin(g, f, qn);
        assert(q.first() == s) by {
            lemma_renamed_node(g, f, s);
        }
        assert(q.last() == d) by {
            lemma_renamed_node(g, f, d);
        }
        assert(connects(g, s, d, q));
        lemma_renamed_precedes(g, f, p, q);
    }
}

/// Where no walk joins two nodes, none joins their names.
pub proof fn lemma_renamed_unreachable<A, B>(g: Map<A, Seq<A>>, f: spec_fn(A) -> B, s: A, d: A)
    requires
        injective_on(g.dom(), f),
        is_closed(g),
        g.dom().contains(s),
        g.dom().contains(d),
        !reachable(g, s, d),
    ensures
        !reachable(renamed(g, f), f(s), f(d)),
{
    let h = renamed(g, f);
    let from = f(s);
    let to = f(d);
    if reachable(h, from, to) {
        let qn = choose|qn: Seq<B>| connects(h, from, to, qn);
        let q = qn.map_values(|b: B| origin(g, f, b));
        lemma_renamed_walk_origin(g, f, qn);
        lemma_renamed_node(g, f, s);
        lemma_renamed_node(g, f, d);
        assert(connects(g, s, d, q));
    }
}

} // verus!
