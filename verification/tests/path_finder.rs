use maxflow::graph::{Graph, Node};

fn build(edges: &[(&str, &str, i32)]) -> Graph {
    let mut graph = Graph::new();
    for (source, dest, weight) in edges {
        graph.add_edge(source.to_string(), dest.to_string(), *weight);
    }
    graph
}

fn names(graph: &Graph, path: &[usize]) -> Vec<String> {
    path.iter().map(|id| graph.node_name(*id).unwrap()).collect()
}

fn search(graph: &Graph, from: &str, to: &str) -> Option<Vec<String>> {
    let start = graph.lookup_node(from).unwrap();
    let goal = graph.lookup_node(to).unwrap();
    graph
        .breadth_first_search(start, |node: &Node| node.id == goal)
        .map(|path| names(graph, &path))
}

#[test]
fn search_finds_the_single_edge() {
    let graph = build(&[("s", "t", 7)]);
    assert_eq!(search(&graph, "s", "t"), Some(vec![String::from("s"), String::from("t")]));
}

#[test]
fn search_from_a_goal_returns_the_start_alone() {
    let graph = build(&[("s", "t", 7), ("t", "s", 7)]);
    let s = graph.lookup_node("s").unwrap();
    assert_eq!(graph.breadth_first_search(s, |node: &Node| node.id == s), Some(vec![s]));
    assert_eq!(graph.breadth_first_search(s, |_node: &Node| true), Some(vec![s]));
}

#[test]
fn search_reports_that_no_path_exists() {
    let graph = build(&[("s", "a", 1), ("b", "t", 1)]);
    assert_eq!(search(&graph, "s", "t"), None);
}

#[test]
fn search_does_not_run_against_an_edge() {
    let graph = build(&[("t", "s", 5)]);
    assert_eq!(search(&graph, "s", "t"), None);
}

#[test]
fn search_skips_edges_without_residual_capacity() {
    let mut graph = build(&[("s", "a", 2), ("a", "t", 2), ("s", "b", 1), ("b", "c", 1), ("c", "t", 1)]);
    let s = graph.lookup_node("s").unwrap();
    let a = graph.lookup_node("a").unwrap();
    assert_eq!(search(&graph, "s", "t").unwrap(), ["s", "a", "t"]);
    graph.increase_flow(s, a, 2);
    assert_eq!(search(&graph, "s", "t").unwrap(), ["s", "b", "c", "t"]);
}

#[test]
fn search_treats_zero_and_negative_capacity_as_closed() {
    let graph = build(&[("s", "a", 0), ("s", "b", -3), ("a", "t", 1), ("b", "t", 1)]);
    assert_eq!(search(&graph, "s", "t"), None);
    assert_eq!(search(&graph, "s", "a"), None);
    assert_eq!(search(&graph, "s", "b"), None);
}

#[test]
fn search_returns_a_path_with_the_fewest_edges() {
    let graph = build(&[
        ("s", "a", 1),
        ("a", "b", 1),
        ("b", "c", 1),
        ("c", "t", 1),
        ("s", "d", 1),
        ("d", "t", 1),
    ]);
    assert_eq!(search(&graph, "s", "t").unwrap(), ["s", "d", "t"]);
}

#[test]
fn search_prefers_the_edge_added_first_among_equals() {
    let graph = build(&[("s", "a", 1), ("s", "b", 1), ("a", "t", 1), ("b", "t", 1)]);
    assert_eq!(search(&graph, "s", "t").unwrap(), ["s", "a", "t"]);
    let graph = build(&[("s", "b", 1), ("s", "a", 1), ("a", "t", 1), ("b", "t", 1)]);
    assert_eq!(search(&graph, "s", "t").unwrap(), ["s", "b", "t"]);
}

#[test]
fn search_asks_nodes_in_the_order_of_discovery() {
    let graph = build(&[("s", "a", 1), ("s", "b", 1), ("a", "c", 1), ("b", "d", 1), ("c", "e", 1)]);
    let s = graph.lookup_node("s").unwrap();
    let mut asked: Vec<String> = Vec::new();
    let found = graph.breadth_first_search(s, |node: &Node| {
        asked.push(node.name.clone());
        false
    });
    assert_eq!(found, None);
    assert_eq!(asked, ["s", "a", "b", "c", "d", "e"]);
}

#[test]
fn search_stops_at_the_first_accepted_node() {
    let graph = build(&[("s", "a", 1), ("s", "b", 1), ("a", "c", 1), ("b", "d", 1)]);
    let s = graph.lookup_node("s").unwrap();
    let mut asked: Vec<String> = Vec::new();
    let found = graph.breadth_first_search(s, |node: &Node| {
        asked.push(node.name.clone());
        node.name == "b" || node.name == "c"
    });
    assert_eq!(names(&graph, &found.unwrap()), ["s", "b"]);
    assert_eq!(asked, ["s", "a", "b"]);
}

#[test]
fn search_survives_a_cycle_through_the_start() {
    let graph = build(&[("s", "a", 1), ("a", "s", 1), ("a", "t", 1)]);
    assert_eq!(search(&graph, "s", "t").unwrap(), ["s", "a", "t"]);
    assert_eq!(search(&graph, "a", "s").unwrap(), ["a", "s"]);
}

#[test]
fn search_asks_each_node_once_in_a_cycle() {
    let graph = build(&[("a", "b", 1), ("b", "c", 1), ("c", "a", 1), ("c", "b", 1)]);
    let a = graph.lookup_node("a").unwrap();
    let mut asked: usize = 0;
    let found = graph.breadth_first_search(a, |_node: &Node| {
        asked += 1;
        false
    });
    assert_eq!(found, None);
    assert_eq!(asked, 3);
}

#[test]
fn search_follows_a_loop_on_one_node_nowhere() {
    let graph = build(&[("a", "a", 3), ("a", "b", 1)]);
    assert_eq!(search(&graph, "a", "b").unwrap(), ["a", "b"]);
}

#[test]
fn search_uses_a_later_parallel_edge_that_is_open() {
    let mut graph = build(&[("s", "t", 2), ("s", "t", 3)]);
    let s = graph.lookup_node("s").unwrap();
    let t = graph.lookup_node("t").unwrap();
    graph.increase_flow(s, t, 2);
    assert_eq!(search(&graph, "s", "t").unwrap(), ["s", "t"]);
}

#[test]
fn search_path_has_no_node_twice() {
    let graph = build(&[
        ("s", "a", 1),
        ("a", "b", 1),
        ("b", "a", 1),
        ("b", "s", 1),
        ("b", "c", 1),
        ("c", "t", 1),
    ]);
    let path = search(&graph, "s", "t").unwrap();
    assert_eq!(path, ["s", "a", "b", "c", "t"]);
    let mut sorted = path.clone();
    sorted.sort();
    sorted.dedup();
    assert_eq!(sorted.len(), path.len());
}
