use maxflow::graph::Graph;

fn build(edges: &[(&str, &str, i32)]) -> Graph {
    let mut graph = Graph::new();
    for (source, dest, weight) in edges {
        graph.add_edge(source.to_string(), dest.to_string(), *weight);
    }
    graph
}

fn ids(graph: &Graph, names: &[&str]) -> Vec<usize> {
    names.iter().map(|name| graph.lookup_node(name).unwrap()).collect()
}

fn edges_of(graph: &Graph) -> Vec<Vec<(usize, i32, i32)>> {
    (0..graph.node_count()).map(|id| graph.node_at(id).neighbors.clone()).collect()
}

fn rounds(graph: &mut Graph, source: usize, sink: usize) -> usize {
    let mut count = 0;
    while graph.augment(source, sink) {
        count += 1;
    }
    count
}

fn assert_within_capacity(graph: &Graph) {
    for edges in edges_of(graph) {
        for (_, flow, capacity) in edges {
            assert!(0 <= flow && flow <= capacity);
        }
    }
}

fn two_routes() -> Graph {
    build(&[("s", "a", 10), ("a", "t", 5), ("s", "b", 5), ("b", "t", 10)])
}

#[test]
fn two_routes_carry_ten() {
    let mut graph = two_routes();
    let s = graph.lookup_node("s").unwrap();
    let t = graph.lookup_node("t").unwrap();
    assert_eq!(graph.cal_flow(s, t), 10);
}

#[test]
fn two_routes_saturate_at_five_each() {
    let mut graph = two_routes();
    let v = ids(&graph, &["s", "a", "b", "t"]);
    let (s, a, b, t) = (v[0], v[1], v[2], v[3]);
    graph.cal_flow(s, t);
    assert_eq!(graph.node_at(s).neighbors, vec![(a, 5, 10), (b, 5, 5)]);
    assert_eq!(graph.node_at(a).neighbors, vec![(t, 5, 5)]);
    assert_eq!(graph.node_at(b).neighbors, vec![(t, 5, 10)]);
}

#[test]
fn two_routes_take_two_rounds() {
    let mut graph = two_routes();
    let s = graph.lookup_node("s").unwrap();
    let t = graph.lookup_node("t").unwrap();
    assert_eq!(rounds(&mut graph, s, t), 2);
    assert_eq!(graph.flow_out(s).0, 10);
}

#[test]
fn single_edge_carries_seven_in_one_round() {
    let mut graph = build(&[("s", "t", 7)]);
    let s = graph.lookup_node("s").unwrap();
    let t = graph.lookup_node("t").unwrap();
    assert!(graph.augment(s, t));
    assert_eq!(graph.node_at(s).neighbors, vec![(t, 7, 7)]);
    assert!(!graph.augment(s, t));
    assert_eq!(graph.cal_flow(s, t), 7);
}

#[test]
fn single_edge_max_flow_is_seven() {
    let mut graph = build(&[("s", "t", 7)]);
    let s = graph.lookup_node("s").unwrap();
    let t = graph.lookup_node("t").unwrap();
    assert_eq!(graph.cal_flow(s, t), 7);
    assert_eq!(graph.flow_in(t), (7, 7));
}

#[test]
fn disconnected_sink_gets_nothing_in_no_round() {
    let mut graph = build(&[("s", "a", 4), ("b", "t", 4)]);
    let s = graph.lookup_node("s").unwrap();
    let t = graph.lookup_node("t").unwrap();
    let before = edges_of(&graph);
    assert!(!graph.augment(s, t));
    assert_eq!(graph.cal_flow(s, t), 0);
    assert_eq!(edges_of(&graph), before);
}

#[test]
fn source_as_sink_returns_its_outflow_in_no_round() {
    let mut graph = build(&[("s", "a", 4), ("a", "s", 4), ("s", "s", 2)]);
    let s = graph.lookup_node("s").unwrap();
    let a = graph.lookup_node("a").unwrap();
    let before = edges_of(&graph);
    assert!(!graph.augment(s, s));
    assert_eq!(graph.cal_flow(s, s), 0);
    assert_eq!(edges_of(&graph), before);
    graph.increase_flow(s, a, 3);
    let before = edges_of(&graph);
    assert!(!graph.augment(s, s));
    assert_eq!(graph.cal_flow(s, s), 3);
    assert_eq!(edges_of(&graph), before);
}

#[test]
fn unknown_sink_gets_nothing() {
    let mut graph = build(&[("s", "a", 4)]);
    let s = graph.lookup_node("s").unwrap();
    assert_eq!(graph.cal_flow(s, 99), 0);
}

#[test]
fn second_run_changes_nothing() {
    let mut graph = build(&[
        ("s", "a", 10),
        ("s", "b", 4),
        ("a", "b", 3),
        ("a", "t", 6),
        ("b", "t", 8),
    ]);
    let s = graph.lookup_node("s").unwrap();
    let t = graph.lookup_node("t").unwrap();
    let first = graph.cal_flow(s, t);
    let after_first = edges_of(&graph);
    assert!(!graph.augment(s, t));
    let second = graph.cal_flow(s, t);
    assert_eq!(first, 13);
    assert_eq!(second, first);
    assert_eq!(edges_of(&graph), after_first);
}

#[test]
fn flow_is_conserved_at_inner_nodes() {
    let mut graph = build(&[
        ("s", "a", 10),
        ("s", "b", 4),
        ("a", "b", 3),
        ("a", "t", 6),
        ("b", "t", 8),
        ("b", "c", 5),
        ("c", "t", 2),
    ]);
    let s = graph.lookup_node("s").unwrap();
    let t = graph.lookup_node("t").unwrap();
    let total = graph.cal_flow(s, t);
    for id in 0..graph.node_count() {
        if id != s && id != t {
            assert_eq!(graph.flow_in(id).0, graph.flow_out(id).0);
        }
    }
    assert_eq!(total, graph.flow_out(s).0);
    assert_eq!(total, graph.flow_in(t).0);
    assert_eq!(graph.flow_in(s).0, 0);
    assert_eq!(graph.flow_out(t).0, 0);
    assert_within_capacity(&graph);
}

#[test]
fn flow_stays_within_capacity_after_every_round() {
    let mut graph = build(&[
        ("s", "a", 3),
        ("s", "b", 2),
        ("a", "b", 1),
        ("a", "t", 2),
        ("b", "t", 3),
        ("s", "t", 1),
    ]);
    let s = graph.lookup_node("s").unwrap();
    let t = graph.lookup_node("t").unwrap();
    assert_within_capacity(&graph);
    let mut last = 0;
    while graph.augment(s, t) {
        assert_within_capacity(&graph);
        let now = graph.flow_out(s).0;
        assert!(now > last);
        last = now;
    }
    assert_eq!(last, 6);
}

#[test]
fn shortest_route_first() {
    let mut graph = build(&[("s", "a", 5), ("a", "b", 5), ("b", "t", 5), ("s", "t", 1)]);
    let v = ids(&graph, &["s", "a", "b", "t"]);
    let (s, a, t) = (v[0], v[1], v[3]);
    assert!(graph.augment(s, t));
    assert_eq!(graph.node_at(s).neighbors, vec![(a, 0, 5), (t, 1, 1)]);
    assert!(graph.augment(s, t));
    assert_eq!(graph.node_at(s).neighbors, vec![(a, 5, 5), (t, 1, 1)]);
    assert!(!graph.augment(s, t));
    assert_eq!(graph.cal_flow(s, t), 6);
}

#[test]
fn flow_is_never_taken_back() {
    let mut graph = build(&[
        ("s", "a", 1),
        ("a", "b", 1),
        ("b", "t", 1),
        ("a", "p", 1),
        ("p", "q", 1),
        ("q", "t", 1),
        ("s", "r", 1),
        ("r", "u", 1),
        ("u", "b", 1),
    ]);
    let s = graph.lookup_node("s").unwrap();
    let t = graph.lookup_node("t").unwrap();
    assert_eq!(rounds(&mut graph, s, t), 1);
    assert_eq!(graph.cal_flow(s, t), 1);
}

#[test]
fn saturated_first_parallel_edge_ends_the_rounds() {
    let mut graph = build(&[("s", "t", 2), ("s", "t", 3)]);
    let s = graph.lookup_node("s").unwrap();
    let t = graph.lookup_node("t").unwrap();
    assert!(graph.augment(s, t));
    assert_eq!(graph.node_at(s).neighbors, vec![(t, 2, 2), (t, 0, 3)]);
    assert!(!graph.augment(s, t));
    assert_eq!(graph.cal_flow(s, t), 2);
}

#[test]
fn zero_capacity_carries_nothing() {
    let mut graph = build(&[("s", "t", 0)]);
    let s = graph.lookup_node("s").unwrap();
    let t = graph.lookup_node("t").unwrap();
    assert_eq!(rounds(&mut graph, s, t), 0);
    assert_eq!(graph.cal_flow(s, t), 0);
}

#[test]
fn negative_capacity_carries_nothing() {
    let mut graph = build(&[("s", "a", -4), ("a", "t", 9), ("s", "t", 2)]);
    let v = ids(&graph, &["s", "a", "t"]);
    let (s, a, t) = (v[0], v[1], v[2]);
    assert_eq!(graph.cal_flow(s, t), 2);
    assert_eq!(graph.node_at(s).neighbors, vec![(a, 0, -4), (t, 2, 2)]);
    assert_eq!(graph.node_at(a).neighbors, vec![(t, 0, 9)]);
}

#[test]
fn negative_first_parallel_edge_ends_the_rounds() {
    let mut graph = build(&[("s", "t", -4), ("s", "t", 3)]);
    let s = graph.lookup_node("s").unwrap();
    let t = graph.lookup_node("t").unwrap();
    assert!(!graph.augment(s, t));
    assert_eq!(graph.cal_flow(s, t), 0);
    assert_eq!(graph.node_at(s).neighbors, vec![(t, 0, -4), (t, 0, 3)]);
}

#[test]
fn residual_capacity_reads_the_first_edge() {
    let mut graph = build(&[("s", "t", 4), ("s", "t", 9), ("s", "a", 6)]);
    let v = ids(&graph, &["s", "a", "t"]);
    let (s, a, t) = (v[0], v[1], v[2]);
    assert_eq!(graph.residual_capacity(s, t), 4);
    assert_eq!(graph.residual_capacity(s, a), 6);
    graph.increase_flow(s, t, 3);
    assert_eq!(graph.residual_capacity(s, t), 1);
    graph.increase_flow(s, t, 1);
    assert_eq!(graph.residual_capacity(s, t), 0);
}

#[test]
fn residual_capacity_of_a_negative_edge_is_negative() {
    let graph = build(&[("s", "t", -4)]);
    let s = graph.lookup_node("s").unwrap();
    let t = graph.lookup_node("t").unwrap();
    assert_eq!(graph.residual_capacity(s, t), -4);
}

#[test]
fn increase_flow_changes_the_first_edge_only() {
    let mut graph = build(&[("s", "t", 4), ("s", "t", 9), ("s", "a", 6), ("a", "t", 1)]);
    let v = ids(&graph, &["s", "a", "t"]);
    let (s, a, t) = (v[0], v[1], v[2]);
    graph.increase_flow(s, t, 3);
    assert_eq!(graph.node_at(s).neighbors, vec![(t, 3, 4), (t, 0, 9), (a, 0, 6)]);
    assert_eq!(graph.node_at(a).neighbors, vec![(t, 0, 1)]);
    graph.increase_flow(s, t, -2);
    assert_eq!(graph.node_at(s).neighbors, vec![(t, 1, 4), (t, 0, 9), (a, 0, 6)]);
}

#[test]
fn find_min_of_path_takes_the_least_residual() {
    let graph = build(&[("s", "a", 10), ("a", "b", 3), ("b", "t", 8)]);
    let path = ids(&graph, &["s", "a", "b", "t"]);
    assert_eq!(graph.find_min_of_path(&path), Some(3));
    assert_eq!(graph.find_min_of_path(&path[..2].to_vec()), Some(10));
    assert_eq!(graph.find_min_of_path(&path[2..].to_vec()), Some(8));
}

#[test]
fn find_min_of_path_is_undefined_below_two_nodes() {
    let graph = build(&[("s", "a", 10)]);
    let s = graph.lookup_node("s").unwrap();
    assert_eq!(graph.find_min_of_path(&vec![s]), None);
    assert_eq!(graph.find_min_of_path(&Vec::new()), None);
}

#[test]
fn add_flow_in_path_raises_every_edge_of_the_path() {
    let mut graph = build(&[("s", "a", 10), ("a", "b", 3), ("b", "t", 8), ("s", "b", 1)]);
    let v = ids(&graph, &["s", "a", "b", "t"]);
    let (s, a, b, t) = (v[0], v[1], v[2], v[3]);
    graph.add_flow_in_path(&v, 2);
    assert_eq!(graph.node_at(s).neighbors, vec![(a, 2, 10), (b, 0, 1)]);
    assert_eq!(graph.node_at(a).neighbors, vec![(b, 2, 3)]);
    assert_eq!(graph.node_at(b).neighbors, vec![(t, 2, 8)]);
    graph.add_flow_in_path(&vec![s], 5);
    graph.add_flow_in_path(&Vec::new(), 5);
    assert_eq!(graph.flow_out(s), (2, 11));
}

#[test]
fn add_flow_in_path_may_pass_an_edge_twice() {
    let mut graph = build(&[("a", "b", 4), ("b", "a", 4)]);
    let v = ids(&graph, &["a", "b"]);
    let (a, b) = (v[0], v[1]);
    graph.add_flow_in_path(&vec![a, b, a, b], 2);
    assert_eq!(graph.node_at(a).neighbors, vec![(b, 4, 4)]);
    assert_eq!(graph.node_at(b).neighbors, vec![(a, 2, 4)]);
}

#[test]
fn large_capacities_do_not_overflow() {
    let mut graph = build(&[("s", "a", i32::MAX), ("a", "t", i32::MAX)]);
    let s = graph.lookup_node("s").unwrap();
    let t = graph.lookup_node("t").unwrap();
    assert_eq!(graph.cal_flow(s, t), i32::MAX);
}

#[test]
fn flow_is_no_more_than_a_cut_holds() {
    let lists: [&[(&str, &str, i32)]; 3] = [
        &[("s", "a", 10), ("a", "t", 5), ("s", "b", 5), ("b", "t", 10)],
        &[("s", "a", 3), ("s", "b", 2), ("a", "b", 1), ("a", "t", 2), ("b", "t", 3), ("s", "t", 1)],
        &[("s", "a", 1), ("a", "b", 1), ("b", "t", 1), ("a", "p", 1), ("p", "t", 1), ("s", "b", 1)],
    ];
    for list in lists {
        let mut graph = build(list);
        let s = graph.lookup_node("s").unwrap();
        let t = graph.lookup_node("t").unwrap();
        let total = graph.cal_flow(s, t);
        assert!(total <= graph.flow_out(s).1);
        assert!(total <= graph.flow_in(t).1);
        let a = graph.lookup_node("a").unwrap();
        let mut across = 0;
        for id in [s, a] {
            for (target, _, capacity) in graph.node_at(id).neighbors.iter() {
                if *target != s && *target != a {
                    across += capacity;
                }
            }
        }
        assert!(total <= across);
    }
}
