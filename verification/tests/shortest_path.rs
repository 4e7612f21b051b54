use bfs_graph::Graph;

fn sample_graph() -> Graph {
    let mut graph = Graph::new();
    graph.add_edge("RouterA", "Switch1");
    graph.add_edge("RouterA", "RouterB");
    graph.add_edge("RouterB", "Switch2");
    graph.add_edge("RouterB", "RouterC");
    graph.add_edge("RouterC", "Server1");
    graph.add_edge("RouterC", "Server2");
    graph.add_edge("Switch1", "PC1");
    graph.add_edge("Switch1", "PC2");
    graph.add_edge("Switch2", "PC3");
    graph
}

#[test]
fn test_shortest_path_exists() {
    let graph = sample_graph();
    let path = graph.bfs_shortest_path("PC1", "Server2").unwrap();
    assert_eq!(
        path,
        vec!["PC1", "Switch1", "RouterA", "RouterB", "RouterC", "Server2"]
    );
}

#[test]
fn test_no_path() {
    let mut graph = sample_graph();
    // An isolated node with no connections
    graph.add_edge("Isolated", "Nowhere");
    let path = graph.bfs_shortest_path("PC1", "Isolated");
    assert!(path.is_none());
}

#[test]
fn test_source_or_destination_not_in_graph() {
    let graph = sample_graph();
    assert!(graph.bfs_shortest_path("Nonexistent", "PC1").is_none());
    assert!(graph.bfs_shortest_path("PC1", "Ghost").is_none());
}

#[test]
fn test_trivial_path() {
    let graph = sample_graph();
    let path = graph.bfs_shortest_path("PC1", "PC1").unwrap();
    assert_eq!(path, vec!["PC1"]);
}

#[test]
fn empty_graph_knows_no_node() {
    let graph = Graph::new();
    assert!(graph.bfs_shortest_path("A", "A").is_none());
    assert!(graph.bfs_shortest_path("A", "B").is_none());
    let graph = Graph::default();
    assert!(graph.bfs_shortest_path("", "").is_none());
}

#[test]
fn both_ends_unknown_is_none() {
    let graph = sample_graph();
    assert!(graph.bfs_shortest_path("Nonexistent", "Ghost").is_none());
}

#[test]
fn same_edges_same_answer() {
    let first = sample_graph();
    let second = sample_graph();
    let expected = vec!["PC3", "Switch2", "RouterB", "RouterA", "Switch1", "PC2"];
    for _ in 0..3 {
        assert_eq!(first.bfs_shortest_path("PC3", "PC2").unwrap(), expected);
        assert_eq!(second.bfs_shortest_path("PC3", "PC2").unwrap(), expected);
    }
}

#[test]
fn every_known_node_reaches_itself() {
    let graph = sample_graph();
    for name in [
        "RouterA", "RouterB", "RouterC", "Switch1", "Switch2", "Server1", "Server2", "PC1",
        "PC2", "PC3",
    ] {
        assert_eq!(graph.bfs_shortest_path(name, name).unwrap(), vec![name]);
    }
}

#[test]
fn added_edge_is_the_path_both_ways() {
    let mut graph = Graph::new();
    graph.add_edge("A", "B");
    assert_eq!(graph.bfs_shortest_path("A", "B").unwrap(), vec!["A", "B"]);
    assert_eq!(graph.bfs_shortest_path("B", "A").unwrap(), vec!["B", "A"]);
    assert_eq!(graph.bfs_shortest_path("A", "A").unwrap(), vec!["A"]);
    assert_eq!(graph.bfs_shortest_path("B", "B").unwrap(), vec!["B"]);
}

#[test]
fn edge_added_to_a_larger_graph_is_the_path() {
    let mut graph = sample_graph();
    graph.add_edge("PC1", "Server2");
    assert_eq!(
        graph.bfs_shortest_path("PC1", "Server2").unwrap(),
        vec!["PC1", "Server2"]
    );
    assert_eq!(
        graph.bfs_shortest_path("Server2", "PC1").unwrap(),
        vec!["Server2", "PC1"]
    );
}

#[test]
fn self_loop_makes_the_node_known() {
    let mut graph = Graph::new();
    graph.add_edge("X", "X");
    assert_eq!(graph.bfs_shortest_path("X", "X").unwrap(), vec!["X"]);
    graph.add_edge("X", "Y");
    assert_eq!(graph.bfs_shortest_path("X", "Y").unwrap(), vec!["X", "Y"]);
    assert_eq!(graph.bfs_shortest_path("Y", "X").unwrap(), vec!["Y", "X"]);
}

#[test]
fn shorter_route_wins() {
    let mut graph = Graph::new();
    graph.add_edge("S", "A");
    graph.add_edge("A", "B");
    graph.add_edge("B", "C");
    graph.add_edge("C", "D");
    graph.add_edge("S", "X");
    graph.add_edge("X", "D");
    assert_eq!(graph.bfs_shortest_path("S", "D").unwrap(), vec!["S", "X", "D"]);
    assert_eq!(graph.bfs_shortest_path("D", "S").unwrap(), vec!["D", "X", "S"]);
    assert_eq!(
        graph.bfs_shortest_path("A", "D").unwrap(),
        vec!["A", "S", "X", "D"]
    );
}

#[test]
fn equal_routes_follow_the_order_of_the_edges() {
    let mut graph = Graph::new();
    graph.add_edge("A", "B");
    graph.add_edge("A", "C");
    graph.add_edge("B", "D");
    graph.add_edge("C", "D");
    assert_eq!(graph.bfs_shortest_path("A", "D").unwrap(), vec!["A", "B", "D"]);
    assert_eq!(graph.bfs_shortest_path("D", "A").unwrap(), vec!["D", "B", "A"]);

    let mut graph = Graph::new();
    graph.add_edge("A", "C");
    graph.add_edge("A", "B");
    graph.add_edge("B", "D");
    graph.add_edge("C", "D");
    assert_eq!(graph.bfs_shortest_path("A", "D").unwrap(), vec!["A", "C", "D"]);
    assert_eq!(graph.bfs_shortest_path("D", "A").unwrap(), vec!["D", "B", "A"]);
}

#[test]
fn earlier_branch_decides_before_later_ones() {
    // Two routes of three edges from Start to End. They part at Start, so the
    // one through the neighbour of Start that was listed first is returned,
    // whatever the order further on.
    let mut graph = Graph::new();
    graph.add_edge("Start", "Left");
    graph.add_edge("Start", "Right");
    graph.add_edge("Right", "RightOn");
    graph.add_edge("Left", "LeftOn");
    graph.add_edge("RightOn", "End");
    graph.add_edge("LeftOn", "End");
    assert_eq!(
        graph.bfs_shortest_path("Start", "End").unwrap(),
        vec!["Start", "Left", "LeftOn", "End"]
    );
    assert_eq!(
        graph.bfs_shortest_path("End", "Start").unwrap(),
        vec!["End", "RightOn", "Right", "Start"]
    );
}

#[test]
fn repeated_edge_changes_no_answer() {
    let mut graph = sample_graph();
    graph.add_edge("RouterA", "RouterB");
    graph.add_edge("RouterB", "RouterA");
    graph.add_edge("Switch1", "PC1");
    assert_eq!(
        graph.bfs_shortest_path("PC1", "Server2").unwrap(),
        vec!["PC1", "Switch1", "RouterA", "RouterB", "RouterC", "Server2"]
    );
    assert_eq!(
        graph.bfs_shortest_path("RouterA", "RouterB").unwrap(),
        vec!["RouterA", "RouterB"]
    );
}

#[test]
fn returned_path_follows_added_edges() {
    let edges = [
        ("RouterA", "Switch1"),
        ("RouterA", "RouterB"),
        ("RouterB", "Switch2"),
        ("RouterB", "RouterC"),
        ("RouterC", "Server1"),
        ("RouterC", "Server2"),
        ("Switch1", "PC1"),
        ("Switch1", "PC2"),
        ("Switch2", "PC3"),
    ];
    let graph = sample_graph();
    let path = graph.bfs_shortest_path("PC2", "Server1").unwrap();
    assert_eq!(path.first().unwrap(), "PC2");
    assert_eq!(path.last().unwrap(), "Server1");
    assert_eq!(path.len(), 6);
    for pair in path.windows(2) {
        let forth = edges.contains(&(pair[0].as_str(), pair[1].as_str()));
        let back = edges.contains(&(pair[1].as_str(), pair[0].as_str()));
        assert!(forth || back);
    }
}

#[test]
fn new_component_is_out_of_reach_both_ways() {
    let mut graph = sample_graph();
    graph.add_edge("Isolated", "Nowhere");
    assert!(graph.bfs_shortest_path("PC1", "Nowhere").is_none());
    assert!(graph.bfs_shortest_path("Isolated", "PC1").is_none());
    assert!(graph.bfs_shortest_path("Nowhere", "Server2").is_none());
    assert_eq!(
        graph.bfs_shortest_path("Isolated", "Nowhere").unwrap(),
        vec!["Isolated", "Nowhere"]
    );
    // Joining the two parts makes them reach each other.
    graph.add_edge("Nowhere", "PC1");
    assert_eq!(
        graph.bfs_shortest_path("Isolated", "Switch1").unwrap(),
        vec!["Isolated", "Nowhere", "PC1", "Switch1"]
    );
}

#[test]
fn names_are_compared_exactly() {
    let mut graph = Graph::new();
    graph.add_edge("node", "Node");
    assert_eq!(
        graph.bfs_shortest_path("node", "Node").unwrap(),
        vec!["node", "Node"]
    );
    assert!(graph.bfs_shortest_path("NODE", "node").is_none());
    assert!(graph.bfs_shortest_path("node ", "Node").is_none());
}

#[test]
fn empty_name_is_a_name() {
    let mut graph = Graph::new();
    graph.add_edge("", "A");
    graph.add_edge("A", "B");
    assert_eq!(graph.bfs_shortest_path("", "B").unwrap(), vec!["", "A", "B"]);
    assert_eq!(graph.bfs_shortest_path("", "").unwrap(), vec![""]);
}

#[test]
fn cycle_is_searched_once() {
    let mut graph = Graph::new();
    graph.add_edge("A", "B");
    graph.add_edge("B", "C");
    graph.add_edge("C", "A");
    graph.add_edge("C", "D");
    assert_eq!(graph.bfs_shortest_path("A", "D").unwrap(), vec!["A", "C", "D"]);
    assert_eq!(graph.bfs_shortest_path("B", "D").unwrap(), vec!["B", "C", "D"]);
    assert!(graph.bfs_shortest_path("A", "E").is_none());
}

#[test]
fn graph_can_be_printed_for_debugging() {
    let graph = sample_graph();
    assert!(format!("{:?}", graph).contains("PC1"));
}
