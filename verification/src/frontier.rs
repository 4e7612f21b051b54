//! What a breadth-first search knows while it runs.
//!
//! The search keeps the walks it has found in the order in which it found
//! them: `order`. The nodes they end at are `seen`, and the first `done` of
//! them have had all their neighbours looked at. `search_inv` says what holds
//! of these between any two steps, and the lemmas show that each step of the
//! search keeps it.

use crate::paths::{
    branches_first_at, connects, has_edge, is_first_shortest_path, is_walk, lemma_precedes_extended,
    lemma_precedes_transitive, lemma_walk_with_edge, lemma_walk_without_last, listed_before_at,
    precedes, reachable,
};
use crate::guarantees::lemma_path_to_itself;
use vstd::prelude::*;
use vstd::set_lib::lemma_len_subset;

verus! {

/// `q` is a walk of `g` that starts at `s`.
pub open spec fn starts_at<T>(g: Map<T, Seq<T>>, s: T, q: Seq<T>) -> bool {
    is_walk(g, q) && q.first() == s
}

/// The walk found as number `i` ends at `v`.
pub open spec fn found_at<T>(order: Seq<Seq<T>>, i: int, v: T) -> bool {
    0 <= i < order.len() && order[i].last() == v
}

/// The state of a search from `s`, between two of its steps.
#[verifier::opaque]
pub open spec fn search_inv<T>(
    g: Map<T, Seq<T>>,
    s: T,
    order: Seq<Seq<T>>,
    seen: Set<T>,
    done: int,
) -> bool {
    &&& 0 <= done <= order.len()
    &&& order.len() > 0
    &&& order[0] == seq![s]
    &&& seen.finite()
    &&& seen.len() == order.len()
    // Each walk found is the first shortest path to the node it ends at.
    &&& forall|i: int|
        0 <= i < order.len() ==> is_first_shortest_path(
            g,
            s,
            (#[trigger] order[i]).last(),
            order[i],
        )
    // The walks were found in search order.
    &&& forall|i: int, j: int|
        0 <= i < j < order.len() ==> precedes(g, #[trigger] order[i], #[trigger] order[j])
    // The nodes seen are the nodes that the walks found end at.
    &&& forall|i: int| 0 <= i < order.len() ==> seen.contains((#[trigger] order[i]).last())
    &&& forall|v: T| #[trigger] seen.contains(v) ==> exists|i: int| found_at(order, i, v)
    // Every walk to a node not yet seen comes after all the walks found.
    &&& forall|i: int, q: Seq<T>|
        0 <= i < order.len() && #[trigger] starts_at(g, s, q) && !seen.contains(q.last())
            ==> precedes(g, #[trigger] order[i], q)
    // The neighbours of the nodes that are done have all been seen.
    &&& forall|i: int, w: T|
        0 <= i < done && #[trigger] has_edge(g, order[i].last(), w) ==> seen.contains(w)
}

/// A search starts with the walk that stays at `s`, and `s` seen.
pub proof fn lemma_search_starts<T>(g: Map<T, Seq<T>>, s: T)
    requires
        g.dom().contains(s),
    ensures
        search_inv(g, s, seq![seq![s]], set![s], 0),
{
    reveal(search_inv);
    let order = seq![seq![s]];
    let seen = set![s];
    lemma_path_to_itself(g, s);
    assert(found_at(order, 0, s));
    assert forall|i: int, q: Seq<T>|
        0 <= i < order.len() && #[trigger] starts_at(g, s, q) && !seen.contains(
            q.last(),
        ) implies precedes(g, #[trigger] order[i], q) by {
        if q.len() == 1 {
            assert(q.last() == q.first());
        }
    }
}

/// While the neighbours of the walk at `done` are looked at in listing order:
/// a walk from `s` to a node not yet seen, other than the walk at `done`
/// followed by its first unseen neighbour, comes after that one.
proof fn lemma_later_walk<T>(
    g: Map<T, Seq<T>>,
    s: T,
    order: Seq<Seq<T>>,
    seen: Set<T>,
    done: int,
    j: int,
    q: Seq<T>,
)
    requires
        search_inv(g, s, order, seen, done),
        done < order.len(),
        0 <= j < g[order[done].last()].len(),
        !seen.contains(g[order[done].last()][j]),
        forall|k: int| 0 <= k < j ==> seen.contains(#[trigger] g[order[done].last()][k]),
        starts_at(g, s, q),
        !seen.contains(q.last()),
        q != order[done].push(g[order[done].last()][j]),
    ensures
        precedes(g, order[done].push(g[order[done].last()][j]), q),
{
    reveal(search_inv);
    let head = order[done];
    let u = head.last();
    let w = g[u][j];
    let z = q.last();
    assert(g.dom().contains(u)) by {
        assert(g.dom().contains(head[head.len() - 1]));
    }
    if q.len() == 1 {
        assert(q.last() == q.first());
        assert(seen.contains(order[0].last()));
        assert(false);
    }
    let front = q.drop_last();
    lemma_walk_without_last(g, q);
    let from = front.last();
    if seen.contains(from) {
        let i = choose|i: int| found_at(order, i, from);
        if i < done {
            assert(has_edge(g, order[i].last(), z));
        } else if i == done {
            assert(connects(g, s, u, front));
            if front == head {
                assert(z != w);
                let k = head.len() as int;
                let longer = head.push(w);
                assert(listed_before_at(g[u], w, z, j)) by {
                    assert forall|m: int| 0 <= m <= j implies g[u][m] != z by {
                        if m < j {
                            assert(seen.contains(g[u][m]));
                        }
                    }
                }
                assert(longer[k - 1] == u);
                assert(branches_first_at(g, longer, q, k));
            } else {
                lemma_precedes_extended(g, head, front, w, z);
            }
        } else {
            assert(precedes(g, order[done], order[i]));
            assert(connects(g, s, order[i].last(), front));
            if front != order[i] {
                lemma_precedes_transitive(g, head, order[i], front);
            }
            lemma_precedes_extended(g, head, front, w, z);
        }
    } else {
        assert(starts_at(g, s, front));
        assert(precedes(g, order[done], front));
        lemma_precedes_extended(g, head, front, w, z);
    }
}

/// What the search knows of the walk it found as number `i`.
pub proof fn lemma_search_found<T>(
    g: Map<T, Seq<T>>,
    s: T,
    order: Seq<Seq<T>>,
    seen: Set<T>,
    done: int,
    i: int,
)
    requires
        search_inv(g, s, order, seen, done),
        0 <= i < order.len(),
    ensures
        0 <= done <= order.len(),
        is_first_shortest_path(g, s, order[i].last(), order[i]),
        seen.contains(order[i].last()),
{
    reveal(search_inv);
}

/// The search finds a walk: position `j` among the neighbours of the node
/// that the walk at `done` ends at holds a node not yet seen, and all before
/// it are seen.
pub proof fn lemma_search_finds<T>(
    g: Map<T, Seq<T>>,
    s: T,
    order: Seq<Seq<T>>,
    seen: Set<T>,
    done: int,
    j: int,
)
    requires
        search_inv(g, s, order, seen, done),
        done < order.len(),
        0 <= j < g[order[done].last()].len(),
        !seen.contains(g[order[done].last()][j]),
        forall|k: int| 0 <= k < j ==> seen.contains(#[trigger] g[order[done].last()][k]),
        g.dom().contains(g[order[done].last()][j]),
    ensures
        search_inv(
            g,
            s,
            order.push(order[done].push(g[order[done].last()][j])),
            seen.insert(g[order[done].last()][j]),
            done,
        ),
{
    reveal(search_inv);
    let head = order[done];
    let u = head.last();
    let w = g[u][j];
    let longer = head.push(w);
    let order2 = order.push(longer);
    let seen2 = seen.insert(w);
    let m = order.len() as int;
    assert(g.dom().contains(u)) by {
        assert(g.dom().contains(head[head.len() - 1]));
    }
    assert(has_edge(g, u, w)) by {
        assert(g[u][j] == w);
    }
    lemma_walk_with_edge(g, head, w);
    assert(starts_at(g, s, longer));
    assert(is_first_shortest_path(g, s, w, longer)) by {
        assert forall|q: Seq<T>| #[trigger] connects(g, s, w, q) && q != longer implies precedes(
            g,
            longer,
            q,
        ) by {
            lemma_later_walk(g, s, order, seen, done, j, q);
        }
    }
    assert forall|i: int| 0 <= i < order2.len() implies is_first_shortest_path(
        g,
        s,
        (#[trigger] order2[i]).last(),
        order2[i],
    ) by {
        if i < m {
            assert(order2[i] == order[i]);
        }
    }
    assert forall|i: int, k: int| 0 <= i < k < order2.len() implies precedes(
        g,
        #[trigger] order2[i],
        #[trigger] order2[k],
    ) by {
        assert(order2[i] == order[i]);
        if k < m {
            assert(order2[k] == order[k]);
        }
    }
    assert forall|i: int| 0 <= i < order2.len() implies seen2.contains(
        (#[trigger] order2[i]).last(),
    ) by {
        if i < m {
            assert(order2[i] == order[i]);
        }
    }
    assert forall|v: T| #[trigger] seen2.contains(v) implies exists|i: int|
        found_at(order2, i, v) by {
        if v == w {
            assert(found_at(order2, m, v));
        } else {
            let i = choose|i: int| found_at(order, i, v);
            assert(order2[i] == order[i]);
            assert(found_at(order2, i, v));
        }
    }
    assert forall|i: int, q: Seq<T>|
        0 <= i < order2.len() && #[trigger] starts_at(g, s, q) && !seen2.contains(
            q.last(),
        ) implies precedes(g, #[trigger] order2[i], q) by {
        if i < m {
            assert(order2[i] == order[i]);
        } else {
            lemma_later_walk(g, s, order, seen, done, j, q);
        }
    }
    assert forall|i: int, x: T| 0 <= i < done && #[trigger] has_edge(
        g,
        order2[i].last(),
        x,
    ) implies seen2.contains(x) by {
        assert(order2[i] == order[i]);
    }
}

/// The search is done with a walk once all neighbours of the node it ends at
/// are seen.
pub proof fn lemma_search_advances<T>(
    g: Map<T, Seq<T>>,
    s: T,
    order: Seq<Seq<T>>,
    seen: Set<T>,
    done: int,
)
    requires
        search_inv(g, s, order, seen, done),
        done < order.len(),
        forall|k: int|
            0 <= k < g[order[done].last()].len() ==> seen.contains(
                #[trigger] g[order[done].last()][k],
            ),
    ensures
        search_inv(g, s, order, seen, done + 1),
{
    reveal(search_inv);
    let u = order[done].last();
    assert forall|i: int, w: T| 0 <= i < done + 1 && #[trigger] has_edge(
        g,
        order[i].last(),
        w,
    ) implies seen.contains(w) by {
        if i == done {
            let k = choose|k: int| 0 <= k < g[u].len() && g[u][k] == w;
            assert(seen.contains(g[u][k]));
        }
    }
}

/// Once the search is done with every walk it found, each node of a walk from
/// `s` is seen.
proof fn lemma_walk_stays_seen<T>(
    g: Map<T, Seq<T>>,
    s: T,
    order: Seq<Seq<T>>,
    seen: Set<T>,
    q: Seq<T>,
    n: int,
)
    requires
        search_inv(g, s, order, seen, order.len() as int),
        starts_at(g, s, q),
        0 <= n < q.len(),
    ensures
        seen.contains(q[n]),
    decreases n,
{
    reveal(search_inv);
    if n == 0 {
        assert(seen.contains(order[0].last()));
    } else {
        lemma_walk_stays_seen(g, s, order, seen, q, n - 1);
        let from = q[n - 1];
        let i = choose|i: int| found_at(order, i, from);
        assert(has_edge(g, from, q[n - 1 + 1]));
        assert(has_edge(g, order[i].last(), q[n]));
    }
}

/// A search that is done with every walk it found has found a walk to each
/// node that can be reached from `s`.
pub proof fn lemma_search_exhausted<T>(
    g: Map<T, Seq<T>>,
    s: T,
    order: Seq<Seq<T>>,
    seen: Set<T>,
    d: T,
)
    requires
        search_inv(g, s, order, seen, order.len() as int),
        reachable(g, s, d),
    ensures
        exists|i: int| found_at(order, i, d),
{
    reveal(search_inv);
    let q = choose|q: Seq<T>| connects(g, s, d, q);
    lemma_walk_stays_seen(g, s, order, seen, q, q.len() - 1);
}

/// A search finds no more walks than the graph has nodes.
pub proof fn lemma_search_bounded<T>(
    g: Map<T, Seq<T>>,
    s: T,
    order: Seq<Seq<T>>,
    seen: Set<T>,
    done: int,
)
    requires
        search_inv(g, s, order, seen, done),
        g.dom().finite(),
    ensures
        order.len() <= g.dom().len(),
{
    reveal(search_inv);
    assert forall|v: T| seen.contains(v) implies g.dom().contains(v) by {
        let i = choose|i: int| found_at(order, i, v);
        let p = order[i];
        assert(connects(g, s, p.last(), p));
        assert(g.dom().contains(p[p.len() - 1]));
    }
    lemma_len_subset(seen, g.dom());
}

} // verus!
