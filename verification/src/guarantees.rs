//! What holds of every graph and every query.
//!
//! Each statement is over the graph as callers see it: a map from each known
//! node to the neighbours listed for it. `with_edge` is what adding an edge
//! makes of a graph, and `is_first_shortest_path` is what a query returns
//! where a path exists.

use crate::paths::{
    connects, has_edge, is_first_shortest_path, is_undirected, is_walk, lemma_precedes_asymmetric,
    neighbors, precedes, reachable, with_edge,
};
use vstd::prelude::*;

verus! {

/// A query has one answer: a graph, a source and a destination have at most
/// one first shortest path. Whether there is one depends on the graph, the
/// source and the destination alone, so the same edges added in the same
/// order give the same answer every time.
pub proof fn lemma_answer_is_unique<T>(g: Map<T, Seq<T>>, s: T, d: T, p: Seq<T>, q: Seq<T>)
    requires
        is_first_shortest_path(g, s, d, p),
        is_first_shortest_path(g, s, d, q),
    ensures
        p == q,
{
    if p != q {
        assert(precedes(g, p, q));
        assert(precedes(g, q, p));
        lemma_precedes_asymmetric(g, p, q);
    }
}

/// From a known node to itself the path is the node alone.
pub proof fn lemma_path_to_itself<T>(g: Map<T, Seq<T>>, x: T)
    requires
        g.dom().contains(x),
    ensures
        reachable(g, x, x),
        is_first_shortest_path(g, x, x, seq![x]),
{
    let stay = seq![x];
    assert forall|q: Seq<T>| #[trigger] connects(g, x, x, q) && q != stay implies precedes(
        g,
        stay,
        q,
    ) by {
        if q.len() == 1 {
            assert(q =~= stay);
        }
    }
    assert(connects(g, x, x, stay));
}

/// No path leads from or to a node that is not known.
pub proof fn lemma_unknown_is_unreachable<T>(g: Map<T, Seq<T>>, s: T, d: T)
    requires
        !g.dom().contains(s) || !g.dom().contains(d),
    ensures
        !reachable(g, s, d),
{
    if reachable(g, s, d) {
        let p = choose|p: Seq<T>| connects(g, s, d, p);
        assert(g.dom().contains(p[0]));
        assert(g.dom().contains(p[p.len() - 1]));
    }
}

/// Adding an edge makes its two ends known and no other node, and appends to
/// the neighbours listed: what was listed stays, in its place.
pub proof fn lemma_edges_are_kept<T>(g: Map<T, Seq<T>>, a: T, b: T, x: T)
    requires
        g.dom().contains(x),
    ensures
        with_edge(g, a, b).dom() == g.dom().insert(a).insert(b),
        g[x].is_prefix_of(with_edge(g, a, b)[x]),
        x != a && x != b ==> with_edge(g, a, b)[x] == g[x],
{
    assert(with_edge(g, a, b).dom() =~= g.dom().insert(a).insert(b));
}

/// After an edge is added both its ends are known. Where they differ, the
/// path from one to the other is the edge; where they are the same node, it
/// is that node alone.
pub proof fn lemma_edge_is_path<T>(g: Map<T, Seq<T>>, a: T, b: T)
    ensures
        with_edge(g, a, b).dom().contains(a),
        with_edge(g, a, b).dom().contains(b),
        has_edge(with_edge(g, a, b), a, b),
        has_edge(with_edge(g, a, b), b, a),
        a != b ==> is_first_shortest_path(with_edge(g, a, b), a, b, seq![a, b]),
        a == b ==> is_first_shortest_path(with_edge(g, a, b), a, b, seq![a]),
{
    let h = with_edge(g, a, b);
    assert(has_edge(h, a, b)) by {
        assert(h[a][h[a].len() - 1] == b);
    }
    assert(has_edge(h, b, a)) by {
        assert(h[b][h[b].len() - 1] == a);
    }
    if a == b {
        lemma_path_to_itself(h, a);
    } else {
        let edge = seq![a, b];
        assert(is_walk(h, edge));
        assert forall|q: Seq<T>| #[trigger] connects(h, a, b, q) && q != edge implies precedes(
            h,
            edge,
            q,
        ) by {
            if q.len() == 2 {
                assert(q =~= edge);
            }
        }
    }
}

/// The path returned is no longer than any walk from the source to the
/// destination.
pub proof fn lemma_path_is_shortest<T>(g: Map<T, Seq<T>>, s: T, d: T, p: Seq<T>, q: Seq<T>)
    requires
        is_first_shortest_path(g, s, d, p),
        connects(g, s, d, q),
    ensures
        p.len() <= q.len(),
{
}

/// The path returned starts at the source, ends at the destination, and
/// each of its nodes is listed as a neighbour of the node before it.
pub proof fn lemma_path_follows_edges<T>(g: Map<T, Seq<T>>, s: T, d: T, p: Seq<T>, i: int)
    requires
        is_first_shortest_path(g, s, d, p),
        0 <= i < p.len() - 1,
    ensures
        p.first() == s,
        p.last() == d,
        has_edge(g, p[i], p[i + 1]),
{
    assert(has_edge(g, p[i], p[i + 1]));
}

/// A walk does not leave a set of nodes that no edge leads out of.
proof fn lemma_walk_stays_inside<T>(g: Map<T, Seq<T>>, p: Seq<T>, inside: Set<T>, i: int)
    requires
        is_walk(g, p),
        inside.contains(p[0]),
        forall|x: T, y: T| inside.contains(x) && #[trigger] has_edge(g, x, y) ==> inside.contains(y),
        0 <= i < p.len(),
    ensures
        inside.contains(p[i]),
    decreases i,
{
    if i > 0 {
        lemma_walk_stays_inside(g, p, inside, i - 1);
        let from = p[i - 1];
        assert(has_edge(g, from, p[i - 1 + 1]));
    }
}

/// An edge between two nodes that were not known makes a part of the graph
/// of its own: no path leads from a node that was known to either of them,
/// nor from either of them to a node that was known.
pub proof fn lemma_new_edge_stays_apart<T>(g: Map<T, Seq<T>>, a: T, b: T, s: T)
    requires
        is_undirected(g),
        !g.dom().contains(a),
        !g.dom().contains(b),
        g.dom().contains(s),
    ensures
        !reachable(with_edge(g, a, b), s, a),
        !reachable(with_edge(g, a, b), s, b),
        !reachable(with_edge(g, a, b), a, s),
        !reachable(with_edge(g, a, b), b, s),
{
    let h = with_edge(g, a, b);
    let known = g.dom();
    let added = set![a, b];
    assert forall|x: T, y: T| known.contains(x) && #[trigger] has_edge(h, x, y) implies known.contains(
        y,
    ) by {
        assert(h[x] == g[x]);
        assert(has_edge(g, x, y));
        assert(has_edge(g, y, x));
    }
    assert forall|x: T, y: T| added.contains(x) && #[trigger] has_edge(h, x, y) implies added.contains(
        y,
    ) by {
        let k = choose|k: int| 0 <= k < h[x].len() && h[x][k] == y;
        if a == b {
            assert(h[a] =~= seq![a, a]);
        } else {
            assert(h[a] =~= seq![b]);
            assert(h[b] =~= seq![a]);
        }
    }
    assert forall|t: T| added.contains(t) implies !reachable(h, s, t) && !reachable(h, t, s) by {
        if reachable(h, s, t) {
            let p = choose|p: Seq<T>| connects(h, s, t, p);
            lemma_walk_stays_inside(h, p, known, p.len() - 1);
        }
        if reachable(h, t, s) {
            let p = choose|p: Seq<T>| connects(h, t, s, p);
            lemma_walk_stays_inside(h, p, added, p.len() - 1);
        }
    }
    assert(added.contains(a));
    assert(added.contains(b));
}

/// Adding an edge keeps a graph undirected.
pub proof fn lemma_with_edge_undirected<T>(g: Map<T, Seq<T>>, a: T, b: T)
    requires
        is_undirected(g),
    ensures
        is_undirected(with_edge(g, a, b)),
{
    let h = with_edge(g, a, b);
    lemma_edge_is_path(g, a, b);
    assert forall|x: T, y: T| #[trigger] has_edge(h, x, y) implies has_edge(h, y, x) by {
        let k = choose|k: int| 0 <= k < h[x].len() && h[x][k] == y;
        if !(x == a && y == b) && !(x == b && y == a) {
            assert(g.dom().contains(x) && 0 <= k < g[x].len() && g[x][k] == y) by {
                if x == a && x == b {
                    assert(h[x] =~= neighbors(g, x).push(b).push(a));
                } else if x == a {
                    assert(h[x] =~= neighbors(g, x).push(b));
                } else if x == b {
                    assert(h[x] =~= neighbors(g, x).push(a));
                }
            }
            assert(has_edge(g, x, y));
            assert(has_edge(g, y, x));
            let m = choose|m: int| 0 <= m < g[y].len() && g[y][m] == x;
            assert(h[y][m] == x);
        }
    }
}

} // verus!
