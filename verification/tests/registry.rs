use maxflow::graph::{Graph, Node};

fn build(edges: &[(&str, &str, i32)]) -> Graph {
    let mut graph = Graph::new();
    for (source, dest, weight) in edges {
        graph.add_edge(source.to_string(), dest.to_string(), *weight);
    }
    graph
}

#[test]
fn new_graph_has_no_nodes() {
    let graph = Graph::new();
    assert_eq!(graph.node_count(), 0);
    assert_eq!(graph.lookup_node("s"), None);
    assert_eq!(graph.node_name(0), None);
}

#[test]
fn node_new_keeps_its_parts() {
    let node = Node::new(3, String::from("c"), vec![(1, 2, 5), (0, 0, 7)]);
    assert_eq!(node.id, 3);
    assert_eq!(node.name, "c");
    assert_eq!(node.neighbors, vec![(1, 2, 5), (0, 0, 7)]);
}

#[test]
fn ensure_node_assigns_dense_ids_in_first_seen_order() {
    let mut graph = Graph::new();
    assert_eq!(graph.ensure_node(String::from("x")), 0);
    assert_eq!(graph.ensure_node(String::from("y")), 1);
    assert_eq!(graph.ensure_node(String::from("z")), 2);
    assert_eq!(graph.node_count(), 3);
    assert_eq!(graph.node_at(1).id, 1);
    assert_eq!(graph.node_at(1).name, "y");
    assert!(graph.node_at(1).neighbors.is_empty());
}

#[test]
fn ensure_node_returns_the_existing_id() {
    let mut graph = Graph::new();
    assert_eq!(graph.ensure_node(String::from("x")), 0);
    assert_eq!(graph.ensure_node(String::from("y")), 1);
    assert_eq!(graph.ensure_node(String::from("x")), 0);
    assert_eq!(graph.ensure_node(String::from("y")), 1);
    assert_eq!(graph.node_count(), 2);
}

#[test]
fn ensure_node_accepts_the_empty_name() {
    let mut graph = Graph::new();
    assert_eq!(graph.ensure_node(String::new()), 0);
    assert_eq!(graph.ensure_node(String::new()), 0);
    assert_eq!(graph.lookup_node(""), Some(0));
}

#[test]
fn names_differ_by_case_and_length() {
    let mut graph = Graph::new();
    assert_eq!(graph.ensure_node(String::from("a")), 0);
    assert_eq!(graph.ensure_node(String::from("A")), 1);
    assert_eq!(graph.ensure_node(String::from("aa")), 2);
    assert_eq!(graph.lookup_node("A"), Some(1));
    assert_eq!(graph.lookup_node("aa"), Some(2));
    assert_eq!(graph.lookup_node("aaa"), None);
}

#[test]
fn add_edge_registers_the_destination_first() {
    let graph = build(&[("s", "a", 10)]);
    assert_eq!(graph.node_count(), 2);
    assert_eq!(graph.lookup_node("a"), Some(0));
    assert_eq!(graph.lookup_node("s"), Some(1));
    assert_eq!(graph.node_at(1).neighbors, vec![(0, 0, 10)]);
    assert!(graph.node_at(0).neighbors.is_empty());
}

#[test]
fn add_edge_starts_without_flow() {
    let graph = build(&[("s", "a", 10), ("a", "t", 5), ("s", "t", 3)]);
    for id in 0..graph.node_count() {
        for edge in graph.node_at(id).neighbors.iter() {
            assert_eq!(edge.1, 0);
        }
    }
}

#[test]
fn add_edge_keeps_parallel_edges_apart() {
    let graph = build(&[("s", "t", 4), ("s", "t", 6)]);
    let s = graph.lookup_node("s").unwrap();
    let t = graph.lookup_node("t").unwrap();
    assert_eq!(graph.node_at(s).neighbors, vec![(t, 0, 4), (t, 0, 6)]);
}

#[test]
fn add_edge_accepts_a_loop_on_one_node() {
    let graph = build(&[("a", "a", 2)]);
    assert_eq!(graph.node_count(), 1);
    assert_eq!(graph.node_at(0).neighbors, vec![(0, 0, 2)]);
}

#[test]
fn add_edge_accepts_zero_and_negative_capacity() {
    let graph = build(&[("s", "a", 0), ("s", "b", -7)]);
    let s = graph.lookup_node("s").unwrap();
    let a = graph.lookup_node("a").unwrap();
    let b = graph.lookup_node("b").unwrap();
    assert_eq!(graph.node_at(s).neighbors, vec![(a, 0, 0), (b, 0, -7)]);
}

#[test]
fn lookup_node_finds_known_names_only() {
    let graph = build(&[("s", "a", 10), ("a", "t", 5)]);
    assert_eq!(graph.lookup_node("a"), Some(0));
    assert_eq!(graph.lookup_node("s"), Some(1));
    assert_eq!(graph.lookup_node("t"), Some(2));
    assert_eq!(graph.lookup_node("u"), None);
    assert_eq!(graph.lookup_node(""), None);
}

#[test]
fn node_name_gives_the_name_or_nothing() {
    let graph = build(&[("s", "a", 10)]);
    assert_eq!(graph.node_name(0), Some(String::from("a")));
    assert_eq!(graph.node_name(1), Some(String::from("s")));
    assert_eq!(graph.node_name(2), None);
    assert_eq!(graph.node_name(usize::MAX), None);
}

#[test]
fn lookup_and_node_name_are_inverse() {
    let graph = build(&[("s", "a", 1), ("a", "b", 1), ("b", "t", 1)]);
    for id in 0..graph.node_count() {
        let name = graph.node_name(id).unwrap();
        assert_eq!(graph.lookup_node(&name), Some(id));
    }
}

#[test]
fn flow_out_sums_the_edges_of_the_node() {
    let graph = build(&[("s", "a", 10), ("s", "b", 5), ("a", "b", 3)]);
    let s = graph.lookup_node("s").unwrap();
    let a = graph.lookup_node("a").unwrap();
    let b = graph.lookup_node("b").unwrap();
    assert_eq!(graph.flow_out(s), (0, 15));
    assert_eq!(graph.flow_out(a), (0, 3));
    assert_eq!(graph.flow_out(b), (0, 0));
}

#[test]
fn flow_in_sums_every_edge_that_leads_to_the_node() {
    let graph = build(&[("s", "a", 10), ("s", "b", 5), ("a", "b", 3), ("b", "a", 2)]);
    let s = graph.lookup_node("s").unwrap();
    let a = graph.lookup_node("a").unwrap();
    let b = graph.lookup_node("b").unwrap();
    assert_eq!(graph.flow_in(s), (0, 0));
    assert_eq!(graph.flow_in(a), (0, 12));
    assert_eq!(graph.flow_in(b), (0, 8));
}

#[test]
fn flow_in_counts_each_parallel_edge() {
    let mut graph = build(&[("s", "t", 4), ("s", "t", 6), ("u", "t", 1)]);
    let s = graph.lookup_node("s").unwrap();
    let t = graph.lookup_node("t").unwrap();
    assert_eq!(graph.flow_in(t), (0, 11));
    graph.increase_flow(s, t, 3);
    assert_eq!(graph.flow_in(t), (3, 11));
    assert_eq!(graph.flow_out(s), (3, 10));
}

#[test]
fn flow_in_of_an_unknown_node_is_nothing() {
    let graph = build(&[("s", "t", 4)]);
    assert_eq!(graph.flow_in(17), (0, 0));
}

#[test]
fn totals_add_negative_capacities() {
    let graph = build(&[("s", "t", 4), ("s", "t", -6)]);
    let s = graph.lookup_node("s").unwrap();
    let t = graph.lookup_node("t").unwrap();
    assert_eq!(graph.flow_out(s), (0, -2));
    assert_eq!(graph.flow_in(t), (0, -2));
}

#[test]
fn totals_are_exact_where_a_partial_sum_leaves_the_range() {
    let graph = build(&[("s", "t", i32::MAX), ("s", "t", 5), ("s", "t", -10)]);
    let s = graph.lookup_node("s").unwrap();
    let t = graph.lookup_node("t").unwrap();
    assert_eq!(graph.flow_out(s), (0, i32::MAX - 5));
    assert_eq!(graph.flow_in(t), (0, i32::MAX - 5));
}
