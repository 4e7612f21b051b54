//! The graph of named nodes.
//!
//! Each name is given a number when it is first seen, and the adjacency lists
//! hold numbers. What callers see is the graph on the names: a map from each
//! known name to the names of its neighbours, in the order in which the edges
//! were added.

use crate::paths::{
    connects, has_edge, is_first_shortest_path, is_undirected, reachable, with_edge,
};
use crate::relabel::{
    injective_on, is_closed, lemma_renamed_first_shortest_path, lemma_renamed_node,
    lemma_renamed_origin, lemma_renamed_unreachable, origin, renamed,
};
use crate::search::{first_shortest_path, lists_closed, numbered_graph};
use vstd::prelude::*;

verus! {

/// The name of each node number.
spec fn label_of(names: Seq<String>) -> spec_fn(usize) -> Seq<char> {
    |i: usize| names[i as int]@
}

/// No two node numbers have the same name.
spec fn names_distinct(names: Seq<String>) -> bool {
    forall|i: int, j: int|
        0 <= i < j < names.len() ==> (#[trigger] names[i])@ != (#[trigger] names[j])@
}

/// Each node number that a list holds has, in its own list, the number of
/// that list.
spec fn lists_symmetric(lists: Seq<Vec<usize>>) -> bool {
    forall|i: int, k: int|
        0 <= i < lists.len() && 0 <= k < lists[i]@.len() ==> lists[(#[trigger] lists[i]@[k]) as int]@.contains(
            i as usize,
        )
}

/// There is a list for each name, the names differ, and the lists hold node
/// numbers.
spec fn parts_ok(names: Seq<String>, lists: Seq<Vec<usize>>) -> bool {
    &&& names.len() == lists.len()
    &&& names.len() <= usize::MAX
    &&& names_distinct(names)
    &&& lists_closed(lists)
}

/// The graph on the names that `names` and `lists` stand for.
spec fn graph_of(names: Seq<String>, lists: Seq<Vec<usize>>) -> Map<
    Seq<char>,
    Seq<Seq<char>>,
> {
    renamed(numbered_graph(lists), label_of(names))
}

/// The graph `g` with `a` as a node, without neighbours if it is new.
spec fn with_node<T>(g: Map<T, Seq<T>>, a: T) -> Map<T, Seq<T>> {
    if g.dom().contains(a) {
        g
    } else {
        g.insert(a, Seq::empty())
    }
}

/// The graph `g` with `b` appended to the neighbours of its node `a`.
spec fn with_neighbor<T>(g: Map<T, Seq<T>>, a: T, b: T) -> Map<T, Seq<T>> {
    g.insert(a, g[a].push(b))
}

/// Adding an edge is making both ends nodes and then appending each to the
/// neighbours of the other.
proof fn lemma_with_edge_in_steps<T>(g: Map<T, Seq<T>>, a: T, b: T)
    ensures
        with_neighbor(with_neighbor(with_node(with_node(g, a), b), a, b), b, a) == with_edge(
            g,
            a,
            b,
        ),
{
    let both = with_node(with_node(g, a), b);
    let forth = with_neighbor(both, a, b);
    let back = with_neighbor(forth, b, a);
    let edge = with_edge(g, a, b);
    assert(back.dom() =~= edge.dom());
    assert forall|k: T| back.dom().contains(k) implies #[trigger] back[k] == edge[k] by {
        if k == a && k == b {
            assert(back[k] =~= edge[k]);
        } else if k == a {
            assert(back[k] =~= edge[k]);
        } else if k == b {
            assert(back[k] =~= edge[k]);
        }
    }
    assert(back =~= edge);
}

/// Names that differ and lists of node numbers make a naming under which
/// graphs can be compared.
proof fn lemma_parts(names: Seq<String>, lists: Seq<Vec<usize>>)
    requires
        parts_ok(names, lists),
    ensures
        injective_on(numbered_graph(lists).dom(), label_of(names)),
        is_closed(numbered_graph(lists)),
{
    let g = numbered_graph(lists);
    let f = label_of(names);
    assert forall|a: usize, b: usize|
        g.dom().contains(a) && g.dom().contains(b) && #[trigger] f(a) == #[trigger] f(
            b,
        ) implies a == b by {
        if a < b {
            assert(names[a as int]@ != names[b as int]@);
        } else if b < a {
            assert(names[b as int]@ != names[a as int]@);
        }
    }
    assert forall|a: usize, b: usize| #[trigger] has_edge(g, a, b) implies g.dom().contains(b) by {
        let k = choose|k: int| 0 <= k < g[a].len() && g[a][k] == b;
        assert(lists[a as int]@[k] < lists.len());
    }
}

/// What the graph on the names holds for the name of node number `i`.
proof fn lemma_graph_of_node(names: Seq<String>, lists: Seq<Vec<usize>>, i: usize)
    requires
        parts_ok(names, lists),
        i < names.len(),
    ensures
        graph_of(names, lists).dom().contains(names[i as int]@),
        graph_of(names, lists)[names[i as int]@] == lists[i as int]@.map_values(label_of(names)),
        origin(numbered_graph(lists), label_of(names), names[i as int]@) == i,
{
    lemma_parts(names, lists);
    lemma_renamed_node(numbered_graph(lists), label_of(names), i);
}

/// Each node of the graph on the names is the name of a node number.
proof fn lemma_graph_of_name(names: Seq<String>, lists: Seq<Vec<usize>>, name: Seq<char>) -> (i:
    usize)
    requires
        parts_ok(names, lists),
        graph_of(names, lists).dom().contains(name),
    ensures
        i < names.len(),
        names[i as int]@ == name,
{
    lemma_renamed_origin(numbered_graph(lists), label_of(names), name);
    origin(numbered_graph(lists), label_of(names), name)
}

/// A new name with an empty list is a new node without neighbours.
proof fn lemma_graph_with_node(names: Seq<String>, lists: Seq<Vec<usize>>, s: String, v: Vec<usize>)
    requires
        parts_ok(names, lists),
        forall|i: int| 0 <= i < names.len() ==> (#[trigger] names[i])@ != s@,
        v@.len() == 0,
        names.len() < usize::MAX,
    ensures
        parts_ok(names.push(s), lists.push(v)),
        graph_of(names.push(s), lists.push(v)) == graph_of(names, lists).insert(s@, Seq::empty()),
        !graph_of(names, lists).dom().contains(s@),
        lists_symmetric(lists) ==> lists_symmetric(lists.push(v)),
{
    let n = names.len() as usize;
    let names2 = names.push(s);
    let lists2 = lists.push(v);
    let before = graph_of(names, lists);
    let after = graph_of(names2, lists2);
    let target = before.insert(s@, Seq::empty());
    assert(parts_ok(names2, lists2)) by {
        assert forall|i: int, j: int|
            0 <= i < lists2.len() && 0 <= j < lists2[i]@.len() implies (#[trigger] lists2[i]@[j])
            < lists2.len() by {
            assert(lists2[i] == lists[i]);
            assert(lists[i]@[j] < lists.len());
        }
    }
    if before.dom().contains(s@) {
        let i = lemma_graph_of_name(names, lists, s@);
        assert(names[i as int]@ != s@);
    }
    assert forall|k: Seq<char>| after.dom().contains(k) <==> target.dom().contains(k) by {
        if after.dom().contains(k) {
            let i = lemma_graph_of_name(names2, lists2, k);
            if i < n {
                assert(names2[i as int] == names[i as int]);
                lemma_graph_of_node(names, lists, i);
            }
        }
        if target.dom().contains(k) {
            if k == s@ {
                lemma_graph_of_node(names2, lists2, n);
            } else {
                let i = lemma_graph_of_name(names, lists, k);
                assert(names2[i as int] == names[i as int]);
                lemma_graph_of_node(names2, lists2, i);
            }
        }
    }
    assert(after.dom() =~= target.dom());
    assert forall|k: Seq<char>| after.dom().contains(k) implies #[trigger] after[k] == target[k] by {
        let i = lemma_graph_of_name(names2, lists2, k);
        lemma_graph_of_node(names2, lists2, i);
        if i < n {
            assert(names2[i as int] == names[i as int]);
            lemma_graph_of_node(names, lists, i);
            let old_list = lists[i as int]@;
            assert(lists2[i as int] == lists[i as int]);
            assert forall|m: int| 0 <= m < old_list.len() implies old_list.map_values(
                label_of(names2),
            )[m] == old_list.map_values(label_of(names))[m] by {
                assert(lists[i as int]@[m] < n);
                assert(names2[old_list[m] as int] == names[old_list[m] as int]);
            }
            assert(old_list.map_values(label_of(names2)) =~= old_list.map_values(label_of(names)));
        } else {
            assert(lists2[i as int]@.map_values(label_of(names2)) =~= Seq::empty());
        }
    }
    assert(after =~= target);
    if lists_symmetric(lists) {
        assert forall|i: int, k: int|
            0 <= i < lists2.len() && 0 <= k < lists2[i]@.len() implies lists2[(
            #[trigger] lists2[i]@[k]) as int]@.contains(i as usize) by {
            assert(lists2[i] == lists[i]);
            let j = lists[i]@[k];
            assert(j < n);
            assert(lists2[j as int] == lists[j as int]);
        }
    }
}

/// One more node number at the end of a list is one more neighbour at the
/// end of the list of names.
proof fn lemma_graph_with_neighbor(
    names: Seq<String>,
    lists: Seq<Vec<usize>>,
    lists2: Seq<Vec<usize>>,
    i: usize,
    j: usize,
)
    requires
        parts_ok(names, lists),
        i < names.len(),
        j < names.len(),
        lists2.len() == lists.len(),
        lists2[i as int]@ == lists[i as int]@.push(j),
        forall|x: int| 0 <= x < lists.len() && x != i ==> #[trigger] lists2[x] == lists[x],
    ensures
        parts_ok(names, lists2),
        graph_of(names, lists2) == with_neighbor(
            graph_of(names, lists),
            names[i as int]@,
            names[j as int]@,
        ),
{
    let before = graph_of(names, lists);
    let after = graph_of(names, lists2);
    let target = with_neighbor(before, names[i as int]@, names[j as int]@);
    let f = label_of(names);
    assert(parts_ok(names, lists2)) by {
        assert forall|x: int, k: int|
            0 <= x < lists2.len() && 0 <= k < lists2[x]@.len() implies (#[trigger] lists2[x]@[k])
            < lists2.len() by {
            if x == i {
                if k < lists[x]@.len() {
                    assert(lists[x]@[k] < lists.len());
                }
            } else {
                assert(lists2[x] == lists[x]);
                assert(lists[x]@[k] < lists.len());
            }
        }
    }
    lemma_graph_of_node(names, lists, i);
    assert forall|k: Seq<char>| after.dom().contains(k) <==> target.dom().contains(k) by {
        if after.dom().contains(k) {
            let x = lemma_graph_of_name(names, lists2, k);
            lemma_graph_of_node(names, lists, x);
        }
        if target.dom().contains(k) {
            let x = lemma_graph_of_name(names, lists, k);
            lemma_graph_of_node(names, lists2, x);
        }
    }
    assert(after.dom() =~= target.dom());
    assert forall|k: Seq<char>| after.dom().contains(k) implies #[trigger] after[k] == target[k] by {
        let x = lemma_graph_of_name(names, lists2, k);
        lemma_graph_of_node(names, lists2, x);
        lemma_graph_of_node(names, lists, x);
        if x == i {
            assert(lists2[i as int]@.map_values(f) =~= lists[i as int]@.map_values(f).push(
                names[j as int]@,
            ));
        } else {
            assert(lists2[x as int] == lists[x as int]);
            if names[x as int]@ == names[i as int]@ {
                if x < i {
                    assert(names[x as int]@ != names[i as int]@);
                } else {
                    assert(names[i as int]@ != names[x as int]@);
                }
            }
        }
    }
    assert(after =~= target);
}

/// Where the lists are symmetric, the graph on the names is undirected.
proof fn lemma_graph_undirected(names: Seq<String>, lists: Seq<Vec<usize>>)
    requires
        parts_ok(names, lists),
        lists_symmetric(lists),
    ensures
        is_undirected(graph_of(names, lists)),
{
    let h = graph_of(names, lists);
    let f = label_of(names);
    assert forall|a: Seq<char>, b: Seq<char>| #[trigger] has_edge(h, a, b) implies has_edge(
        h,
        b,
        a,
    ) by {
        let i = lemma_graph_of_name(names, lists, a);
        lemma_graph_of_node(names, lists, i);
        let named_list = lists[i as int]@.map_values(f);
        let k = choose|k: int| 0 <= k < named_list.len() && named_list[k] == b;
        let j = lists[i as int]@[k];
        assert(j < lists.len());
        lemma_graph_of_node(names, lists, j);
        let m = choose|m: int| 0 <= m < lists[j as int]@.len() && lists[j as int]@[m] == i;
        assert(lists[j as int]@.map_values(f)[m] == a);
    }
}

/// The node number of `name`, if it is known.
fn position(names: &Vec<String>, name: &String) -> (found: Option<usize>)
    ensures
        match found {
            Some(i) => i < names.len() && names[i as int]@ == name@,
            None => forall|k: int| 0 <= k < names.len() ==> (#[trigger] names[k])@ != name@,
        },
{
    let mut i: usize = 0;
    while i < names.len()
        invariant
            i <= names.len(),
            forall|k: int| 0 <= k < i ==> (#[trigger] names[k])@ != name@,
        decreases names.len() - i,
    {
        if names[i] == *name {
            return Some(i);
        }
        i += 1;
    }
    None
}

/// The node number of `name`, which becomes a node without neighbours if it
/// is not yet known.
fn intern(names: &mut Vec<String>, lists: &mut Vec<Vec<usize>>, name: String) -> (i: usize)
    requires
        parts_ok(old(names)@, old(lists)@),
    ensures
        parts_ok(final(names)@, final(lists)@),
        i < final(names).len(),
        final(names)@[i as int]@ == name@,
        old(names).len() <= final(names).len(),
        forall|k: int| 0 <= k < old(names).len() ==> final(names)@[k] == old(names)@[k],
        graph_of(final(names)@, final(lists)@) == with_node(
            graph_of(old(names)@, old(lists)@),
            name@,
        ),
        lists_symmetric(old(lists)@) ==> lists_symmetric(final(lists)@),
{
    match position(names, &name) {
        Some(i) => {
            proof {
                lemma_graph_of_node(names@, lists@, i);
            }
            i
        },
        None => {
            let i: usize = names.len();
            let ghost known = names@;
            let ghost listed = lists@;
            names.push(name);
            lists.push(Vec::new());
            proof {
                assert(names.len() == known.len() + 1);
                lemma_graph_with_node(known, listed, names@[i as int], lists@[i as int]);
                assert(names@ =~= known.push(names@[i as int]));
                assert(lists@ =~= listed.push(lists@[i as int]));
            }
            i
        },
    }
}

/// The names of the node numbers in `numbers`, in the same order.
fn names_along(names: &Vec<String>, numbers: &Vec<usize>) -> (path: Vec<String>)
    requires
        forall|k: int| 0 <= k < numbers.len() ==> (#[trigger] numbers[k]) < names.len(),
    ensures
        path.deep_view() == numbers@.map_values(label_of(names@)),
{
    let mut path: Vec<String> = Vec::new();
    let mut k: usize = 0;
    while k < numbers.len()
        invariant
            k <= numbers.len(),
            path.len() == k,
            forall|m: int| 0 <= m < numbers.len() ==> (#[trigger] numbers[m]) < names.len(),
            forall|m: int| 0 <= m < k ==> (#[trigger] path[m])@ == names[numbers[m] as int]@,
        decreases numbers.len() - k,
    {
        path.push(names[numbers[k]].clone());
        k += 1;
    }
    assert(path.deep_view() =~= numbers@.map_values(label_of(names@)));
    path
}

/// An undirected graph of named nodes.
///
/// A node is known once it has been an end of an added edge. Edges are kept
/// as they are added: the same edge twice is listed twice, and an edge from a
/// node to itself lists the node twice among its own neighbours.
#[derive(Debug)]
pub struct Graph {
    names: Vec<String>,
    lists: Vec<Vec<usize>>,
}

impl View for Graph {
    type V = Map<Seq<char>, Seq<Seq<char>>>;

    /// Each known name with the names of its neighbours, in the order in
    /// which the edges were added.
    closed spec fn view(&self) -> Map<Seq<char>, Seq<Seq<char>>> {
        graph_of(self.names@, self.lists@)
    }
}

impl Default for Graph {
    /// The graph without nodes.
    fn default() -> (graph: Self)
        ensures
            graph@ == Map::<Seq<char>, Seq<Seq<char>>>::empty(),
    {
        Graph::new()
    }
}

impl Graph {
    #[verifier::type_invariant]
    spec fn well_formed(&self) -> bool {
        parts_ok(self.names@, self.lists@) && lists_symmetric(self.lists@)
    }

    /// The graph without nodes.
    pub fn new() -> (graph: Self)
        ensures
            graph@ == Map::<Seq<char>, Seq<Seq<char>>>::empty(),
            is_undirected(graph@),
    {
        let graph = Graph { names: Vec::new(), lists: Vec::new() };
        proof {
            if exists|k: Seq<char>| graph@.dom().contains(k) {
                let k = choose|k: Seq<char>| graph@.dom().contains(k);
                let i = lemma_graph_of_name(graph.names@, graph.lists@, k);
            }
            assert(graph@ =~= Map::<Seq<char>, Seq<Seq<char>>>::empty());
        }
        graph
    }

    /// Adds an edge between `node1` and `node2`: makes both known, appends
    /// `node2` to the neighbours of `node1`, and then `node1` to the
    /// neighbours of `node2`.
    pub fn add_edge(&mut self, node1: &str, node2: &str)
        ensures
            final(self)@ == with_edge(old(self)@, node1@, node2@),
            is_undirected(final(self)@),
    {
        proof {
            use_type_invariant(&*self);
        }
        let mut whole = Graph::new();
        std::mem::swap(self, &mut whole);
        let Graph { names, lists } = whole;
        let mut names = names;
        let mut lists = lists;
        let i: usize = intern(&mut names, &mut lists, node1.to_owned());
        let j: usize = intern(&mut names, &mut lists, node2.to_owned());
        let ghost lists_a = lists@;
        lists[i].push(j);
        let ghost lists_b = lists@;
        lists[j].push(i);
        proof {
            lemma_graph_with_neighbor(names@, lists_a, lists_b, i, j);
            lemma_graph_with_neighbor(names@, lists_b, lists@, j, i);
            lemma_with_edge_in_steps(old(self)@, node1@, node2@);
            let lists_c = lists@;
            assert forall|x: int, k: int|
                0 <= x < lists_c.len() && 0 <= k < lists_c[x]@.len() implies lists_c[(
                #[trigger] lists_c[x]@[k]) as int]@.contains(x as usize) by {
                let y = lists_c[x]@[k];
                if k < lists_a[x]@.len() {
                    assert(lists_a[x]@[k] == y);
                    let m = choose|m: int|
                        0 <= m < lists_a[y as int]@.len() && lists_a[y as int]@[m] == x;
                    assert(lists_c[y as int]@[m] == x);
                } else if x == i && k == lists_a[x]@.len() {
                    assert(y == j);
                    assert(lists_c[j as int]@[lists_c[j as int]@.len() - 1] == i);
                } else {
                    assert(x == j);
                    assert(y == i);
                    if i == j {
                        assert(lists_c[i as int]@[lists_c[i as int]@.len() - 1] == i);
                    } else {
                        assert(lists_c[i as int]@[lists_c[i as int]@.len() - 1] == j);
                    }
                }
            }
            lemma_graph_undirected(names@, lists@);
        }
        *self = Graph { names, lists };
    }

    /// The shortest path from `source` to `destination`, as a breadth-first
    /// search finds it that looks at neighbours in the order in which the
    /// edges were added: the names of the nodes along it, `source` first and
    /// `destination` last. `None` if either is not known, or if no path
    /// leads from one to the other.
    ///
    /// The first clause says of the graph itself what every graph keeps.
    pub fn bfs_shortest_path(&self, source: &str, destination: &str) -> (result: Option<
        Vec<String>,
    >)
        ensures
            is_undirected(self@),
            result is Some <==> reachable(self@, source@, destination@),
            result matches Some(path) ==> is_first_shortest_path(
                self@,
                source@,
                destination@,
                path.deep_view(),
            ),
            !self@.dom().contains(source@) || !self@.dom().contains(destination@) ==> result
                is None,
    {
        proof {
            use_type_invariant(self);
            lemma_graph_undirected(self.names@, self.lists@);
            lemma_parts(self.names@, self.lists@);
            if reachable(self@, source@, destination@) {
                let p = choose|p: Seq<Seq<char>>| connects(self@, source@, destination@, p);
                assert(self@.dom().contains(p[0]));
                assert(self@.dom().contains(p[p.len() - 1]));
            }
            if self@.dom().contains(source@) {
                let i = lemma_graph_of_name(self.names@, self.lists@, source@);
            }
            if self@.dom().contains(destination@) {
                let i = lemma_graph_of_name(self.names@, self.lists@, destination@);
            }
        }
        let from = position(&self.names, &source.to_owned());
        let to = position(&self.names, &destination.to_owned());
        match (from, to) {
            (Some(s), Some(d)) => {
                let ghost g = numbered_graph(self.lists@);
                let ghost f = label_of(self.names@);
                match first_shortest_path(&self.lists, s, d) {
                    Some(numbers) => {
                        proof {
                            lemma_renamed_first_shortest_path(g, f, s, d, numbers@);
                            assert forall|k: int| 0 <= k < numbers.len() implies (
                            #[trigger] numbers[k]) < self.names.len() by {
                                assert(g.dom().contains(numbers@[k]));
                            }
                        }
                        Some(names_along(&self.names, &numbers))
                    },
                    None => {
                        proof {
                            lemma_renamed_unreachable(g, f, s, d);
                        }
                        None
                    },
                }
            },
            _ => None,
        }
    }
}

} // verus!
