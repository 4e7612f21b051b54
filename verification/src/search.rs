//! Breadth-first search over adjacency lists of node numbers.

use crate::frontier::{
    found_at, lemma_search_advances, lemma_search_bounded, lemma_search_exhausted,
    lemma_search_finds, lemma_search_found, lemma_search_starts, search_inv,
};
use crate::paths::{is_first_shortest_path, reachable};
use std::collections::VecDeque;
use vstd::prelude::*;

verus! {

/// The graph on the node numbers below `lists.len()` in which node `i` has the
/// neighbours `lists[i]`.
pub open spec fn numbered_graph(lists: Seq<Vec<usize>>) -> Map<usize, Seq<usize>> {
    Map::new(|i: usize| i < lists.len(), |i: usize| lists[i as int]@)
}

/// Every neighbour in `lists` is a node number below `lists.len()`.
pub open spec fn lists_closed(lists: Seq<Vec<usize>>) -> bool {
    forall|i: int, j: int|
        0 <= i < lists.len() && 0 <= j < lists[i]@.len() ==> (#[trigger] lists[i]@[j])
            < lists.len()
}

/// The node numbers that are marked in `visited`.
pub open spec fn marked(visited: Seq<bool>) -> Set<usize> {
    Set::new(|v: usize| v < visited.len() && visited[v as int])
}

/// The node numbers below `n`.
pub open spec fn numbers_below(n: nat) -> Set<usize> {
    Set::new(|v: usize| v < n)
}

/// There are `n` node numbers below `n`.
proof fn lemma_numbers_below(n: nat)
    requires
        n <= usize::MAX,
    ensures
        numbers_below(n).finite(),
        numbers_below(n).len() == n,
    decreases n,
{
    if n == 0 {
        assert(numbers_below(n) =~= Set::<usize>::empty());
    } else {
        let m = (n - 1) as nat;
        lemma_numbers_below(m);
        assert(numbers_below(n) =~= numbers_below(m).insert(m as usize));
    }
}

/// The first shortest path from `source` to `destination`, if one can be
/// reached from the other.
///
/// The queue holds whole paths. A node is marked when a path to it is first
/// queued, so each node is the end of at most one queued path.
pub fn first_shortest_path(lists: &Vec<Vec<usize>>, source: usize, destination: usize) -> (result:
    Option<Vec<usize>>)
    requires
        lists_closed(lists@),
        source < lists.len(),
        destination < lists.len(),
    ensures
        match result {
            Some(path) => is_first_shortest_path(
                numbered_graph(lists@),
                source,
                destination,
                path@,
            ),
            None => !reachable(numbered_graph(lists@), source, destination),
        },
{
    let n: usize = lists.len();
    let ghost g = numbered_graph(lists@);
    let mut visited: Vec<bool> = vec![false; n];
    visited.set(source, true);
    let mut start: Vec<usize> = Vec::new();
    start.push(source);
    let mut queue: VecDeque<Vec<usize>> = VecDeque::new();
    queue.push_back(start);
    let ghost mut order: Seq<Seq<usize>> = seq![seq![source]];
    let ghost mut done: int = 0;
    proof {
        lemma_search_starts(g, source);
        assert(marked(visited@) =~= set![source]);
        assert(start@ =~= seq![source]);
        assert(g.dom() =~= numbers_below(n as nat));
        lemma_numbers_below(n as nat);
    }
    loop
        invariant
            n == lists.len(),
            g == numbered_graph(lists@),
            g.dom().finite(),
            g.dom().len() == n,
            lists_closed(lists@),
            visited.len() == n,
            0 <= done <= order.len(),
            search_inv(g, source, order, marked(visited@), done),
            queue@.len() == order.len() - done,
            forall|k: int| 0 <= k < queue@.len() ==> (#[trigger] queue@[k])@ == order[done + k],
            forall|i: int| 0 <= i < done ==> (#[trigger] order[i]).last() != destination,
        decreases n - done,
    {
        proof {
            lemma_search_bounded(g, source, order, marked(visited@), done);
        }
        let path = match queue.pop_front() {
            Some(path) => path,
            None => {
                proof {
                    if reachable(g, source, destination) {
                        lemma_search_exhausted(g, source, order, marked(visited@), destination);
                        let i = choose|i: int| found_at(order, i, destination);
                        assert(order[i].last() != destination);
                    }
                }
                return None;
            },
        };
        proof {
            lemma_search_found(g, source, order, marked(visited@), done, done);
        }
        let last: usize = path[path.len() - 1];
        if last == destination {
            return Some(path);
        }
        assert(g.dom().contains(last)) by {
            assert(g.dom().contains(path@[path@.len() - 1]));
        }
        let neighbors = &lists[last];
        let mut j: usize = 0;
        while j < neighbors.len()
            invariant
                n == lists.len(),
                g == numbered_graph(lists@),
                lists_closed(lists@),
                visited.len() == n,
                0 <= done < order.len(),
                search_inv(g, source, order, marked(visited@), done),
                path@ == order[done],
                last == path@.last(),
                last < n,
                neighbors@ == lists@[last as int]@,
                neighbors@ == g[last],
                j <= neighbors.len(),
                forall|k: int| 0 <= k < j ==> marked(visited@).contains(#[trigger] neighbors@[k]),
                queue@.len() == order.len() - done - 1,
                forall|k: int|
                    0 <= k < queue@.len() ==> (#[trigger] queue@[k])@ == order[done + 1 + k],
                forall|i: int| 0 <= i <= done ==> (#[trigger] order[i]).last() != destination,
            decreases neighbors.len() - j,
        {
            let next: usize = neighbors[j];
            assert(next < n);
            if !visited[next] {
                let ghost seen = marked(visited@);
                let ghost queued = queue@;
                visited.set(next, true);
                let mut longer = path.clone();
                longer.push(next);
                queue.push_back(longer);
                proof {
                    assert(longer@ =~= path@.push(next));
                    lemma_search_finds(g, source, order, seen, done, j as int);
                    assert(marked(visited@) =~= seen.insert(next));
                    order = order.push(path@.push(next));
                    assert forall|k: int| 0 <= k < queue@.len() implies (#[trigger] queue@[k])@
                        == order[done + 1 + k] by {
                        if k < queued.len() {
                            assert(queue@[k] == queued[k]);
                        }
                    }
                }
            }
            j += 1;
        }
        proof {
            lemma_search_advances(g, source, order, marked(visited@), done);
            done = done + 1;
        }
    }
}

} // verus!
