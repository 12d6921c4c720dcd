use maxflow::graph::Graph;
use maxflow::render::{push_integer, push_natural};
use maxflow::sample::{
    capacity_from_byte, draft_edges, edge_list_text, name_from_samples, random_capacity,
    random_edge_list, random_string, without_loops,
};
use maxflow::text::{parse_capacity, parse_edge_list, split_text};

fn edge(source: &str, dest: &str, weight: i32) -> (String, String, i32) {
    (String::from(source), String::from(dest), weight)
}

fn integer_text(value: i32) -> String {
    let mut text = String::new();
    push_integer(&mut text, value);
    text
}

#[test]
fn split_text_cuts_at_every_separator() {
    assert_eq!(split_text("a,b,c", ','), ["a", "b", "c"]);
    assert_eq!(split_text("a,,c", ','), ["a", "", "c"]);
    assert_eq!(split_text(",a,", ','), ["", "a", ""]);
    assert_eq!(split_text(",", ','), ["", ""]);
    assert_eq!(split_text("abc", ','), ["abc"]);
    assert_eq!(split_text("", ','), [""]);
}

#[test]
fn split_text_agrees_with_std() {
    for text in ["s,a,10\na,t,5\n", "\n\n", "x", "é,ü\nß", "a\r\nb"] {
        let lines: Vec<&str> = text.split('\n').collect();
        assert_eq!(split_text(text, '\n'), lines);
        let fields: Vec<&str> = text.split(',').collect();
        assert_eq!(split_text(text, ','), fields);
    }
}

#[test]
fn parse_capacity_reads_decimal_numbers() {
    assert_eq!(parse_capacity("0"), Some(0));
    assert_eq!(parse_capacity("7"), Some(7));
    assert_eq!(parse_capacity("10"), Some(10));
    assert_eq!(parse_capacity("007"), Some(7));
    assert_eq!(parse_capacity("+12"), Some(12));
    assert_eq!(parse_capacity("-12"), Some(-12));
    assert_eq!(parse_capacity("-0"), Some(0));
    assert_eq!(parse_capacity("2147483647"), Some(i32::MAX));
    assert_eq!(parse_capacity("-2147483648"), Some(i32::MIN));
    assert_eq!(parse_capacity("0000000000000000000000000000012"), Some(12));
}

#[test]
fn parse_capacity_rejects_what_is_no_number() {
    for text in ["", "+", "-", "--1", "+-1", "-+1", "1-", "1+1", " 1", "1 ", "1\r", "1.0", "1e3",
        "1_000", "0x10", "a", "١٢", "１２"]
    {
        assert_eq!(parse_capacity(text), None, "{:?}", text);
    }
}

#[test]
fn parse_capacity_rejects_what_does_not_fit() {
    assert_eq!(parse_capacity("2147483648"), None);
    assert_eq!(parse_capacity("+2147483648"), None);
    assert_eq!(parse_capacity("-2147483649"), None);
    assert_eq!(parse_capacity("99999999999999999999999999999999"), None);
    assert_eq!(parse_capacity("-99999999999999999999999999999999"), None);
    assert_eq!(parse_capacity("21474836470"), None);
}

#[test]
fn parse_capacity_agrees_with_std() {
    for text in ["", "+", "-", "5", "+5", "-5", "05", "2147483647", "2147483648", "-2147483648",
        "-2147483649", "12a", "a12", " 12", "1 2", "--5", "+0", "-0", "000", "4294967296"]
    {
        assert_eq!(parse_capacity(text), text.parse::<i32>().ok(), "{:?}", text);
    }
}

#[test]
fn parse_edge_list_reads_one_edge_per_line() {
    assert_eq!(
        parse_edge_list("s,a,10\na,t,5\ns,b,5\nb,t,10\n"),
        [edge("s", "a", 10), edge("a", "t", 5), edge("s", "b", 5), edge("b", "t", 10)]
    );
}

#[test]
fn parse_edge_list_passes_over_other_lines() {
    assert_eq!(parse_edge_list(""), []);
    assert_eq!(parse_edge_list("\n\n"), []);
    assert_eq!(parse_edge_list("s,t"), []);
    assert_eq!(parse_edge_list("s,t,"), []);
    assert_eq!(parse_edge_list("s,t,x"), []);
    assert_eq!(parse_edge_list("s,t, 5"), []);
    assert_eq!(parse_edge_list("s,t,5\r\n"), []);
    assert_eq!(parse_edge_list("s,t,5000000000"), []);
    assert_eq!(parse_edge_list("# edges\ns,t,5\nnonsense\nt,u,-1"), [edge("s", "t", 5), edge("t", "u", -1)]);
}

#[test]
fn parse_edge_list_keeps_names_as_written() {
    assert_eq!(parse_edge_list(" s ,t t,5"), [edge(" s ", "t t", 5)]);
    assert_eq!(parse_edge_list(",,5"), [edge("", "", 5)]);
    assert_eq!(parse_edge_list("é,ü,+3"), [edge("é", "ü", 3)]);
}

#[test]
fn parse_edge_list_ignores_further_fields() {
    assert_eq!(parse_edge_list("s,t,5,zzz,9"), [edge("s", "t", 5)]);
    assert_eq!(parse_edge_list("s,t,5,"), [edge("s", "t", 5)]);
}

#[test]
fn from_edges_adds_them_in_order() {
    let edges = vec![edge("s", "a", 10), edge("a", "t", 5), edge("s", "t", 1)];
    let graph = Graph::from_edges(&edges);
    let mut by_hand = Graph::new();
    for (source, dest, weight) in edges.iter() {
        by_hand.add_edge(source.clone(), dest.clone(), *weight);
    }
    assert_eq!(graph.node_count(), 3);
    for id in 0..3 {
        assert_eq!(graph.node_name(id), by_hand.node_name(id));
        assert_eq!(graph.node_at(id).neighbors, by_hand.node_at(id).neighbors);
    }
    assert_eq!(graph.lookup_node("a"), Some(0));
    assert_eq!(graph.node_at(1).neighbors, vec![(0, 0, 10), (2, 0, 1)]);
}

#[test]
fn from_edges_of_nothing_is_empty() {
    assert_eq!(Graph::from_edges(&Vec::new()).node_count(), 0);
}

#[test]
fn push_natural_writes_decimal_digits() {
    for value in [0u64, 1, 9, 10, 11, 99, 100, 1234567890, u64::MAX] {
        let mut text = String::from(">");
        push_natural(&mut text, value);
        assert_eq!(text, format!(">{}", value));
    }
}

#[test]
fn push_integer_writes_the_sign() {
    assert_eq!(integer_text(0), "0");
    assert_eq!(integer_text(5), "5");
    assert_eq!(integer_text(-5), "-5");
    assert_eq!(integer_text(120), "120");
    assert_eq!(integer_text(i32::MAX), "2147483647");
    assert_eq!(integer_text(i32::MIN), "-2147483648");
}

#[test]
fn to_diagram_lists_every_edge() {
    let mut graph = Graph::from_edges(&vec![edge("s", "a", 10), edge("a", "t", 5), edge("s", "t", -3)]);
    assert_eq!(
        graph.to_diagram(),
        "```mermaid\nstateDiagram-v2\na --> t: 0/5\ns --> a: 0/10\ns --> t: 0/-3\n```"
    );
    let s = graph.lookup_node("s").unwrap();
    let t = graph.lookup_node("t").unwrap();
    graph.cal_flow(s, t);
    assert_eq!(
        graph.to_diagram(),
        "```mermaid\nstateDiagram-v2\na --> t: 5/5\ns --> a: 5/10\ns --> t: 0/-3\n```"
    );
}

#[test]
fn to_diagram_of_nothing_is_an_empty_block() {
    assert_eq!(Graph::new().to_diagram(), "```mermaid\nstateDiagram-v2\n```");
}

#[test]
fn to_listing_names_the_nodes_first() {
    let graph = Graph::from_edges(&vec![edge("s", "a", 10), edge("a", "t", 5)]);
    assert_eq!(
        graph.to_listing(),
        "[0]=a, [1]=s, [2]=t, \n\ta --> t\t : 0/5\n\ts --> a\t : 0/10\n"
    );
    assert_eq!(Graph::new().to_listing(), "\n");
}

#[test]
fn name_from_samples_picks_letters_by_last_digit() {
    assert_eq!(name_from_samples(&vec![b'A', b'z', b'0', b'9', 200, 255, 7]), "fcihafh");
    assert_eq!(name_from_samples(&Vec::new()), "");
    for sample in 0..=255u8 {
        let expected = ((sample % 10 + 65) as char).to_ascii_lowercase().to_string();
        assert_eq!(name_from_samples(&vec![sample]), expected);
    }
}

#[test]
fn random_string_has_the_length_asked_for() {
    for n in [0usize, 1, 2, 17, 300] {
        let name = random_string(n);
        assert_eq!(name.chars().count(), n);
        assert!(name.chars().all(|letter| ('a'..='j').contains(&letter)));
    }
}

#[test]
fn capacity_from_byte_is_the_remainder() {
    assert_eq!(capacity_from_byte(0), 0);
    assert_eq!(capacity_from_byte(19), 19);
    assert_eq!(capacity_from_byte(20), 0);
    assert_eq!(capacity_from_byte(255), 15);
    for _ in 0..200 {
        let capacity = random_capacity();
        assert!((0..20).contains(&capacity));
    }
}

#[test]
fn without_loops_drops_edges_that_lead_back() {
    let edges = vec![edge("a", "a", 1), edge("a", "b", 2), edge("s", "s", 3), edge("b", "a", 4), edge("", "", 5)];
    assert_eq!(without_loops(&edges), [edge("a", "b", 2), edge("b", "a", 4)]);
    assert_eq!(without_loops(&Vec::new()), []);
}

#[test]
fn draft_edges_lays_out_twenty_edges() {
    let names: Vec<String> = (0..30).map(|i| format!("n{}", i)).collect();
    let bytes: Vec<u8> = (0..20).map(|i| (i * 13) as u8).collect();
    let edges = draft_edges(&names, &bytes);
    assert_eq!(edges.len(), 20);
    assert_eq!(edges[0], edge("n0", "n1", 0));
    assert_eq!(edges[1], edge("n2", "n3", 13));
    assert_eq!(edges[9], edge("n18", "n19", 17));
    assert_eq!(edges[10], edge("s", "n20", 10));
    assert_eq!(edges[14], edge("s", "n24", 2));
    assert_eq!(edges[15], edge("n25", "t", 15));
    assert_eq!(edges[19], edge("n29", "t", 7));
}

#[test]
fn draft_edges_keeps_loops() {
    let names: Vec<String> = (0..30).map(|_| String::from("a")).collect();
    let bytes: Vec<u8> = vec![255; 20];
    let edges = draft_edges(&names, &bytes);
    assert_eq!(edges.len(), 20);
    assert_eq!(edges[3], edge("a", "a", 15));
    assert_eq!(without_loops(&edges).len(), 10);
}

#[test]
fn random_edge_list_is_plausible() {
    for _ in 0..50 {
        let edges = random_edge_list();
        assert!(edges.len() <= 20);
        for (source, dest, weight) in edges.iter() {
            assert_ne!(source, dest);
            assert!((0..20).contains(weight));
            assert!(source == "s" || (source.len() == 1 && ("a"..="j").contains(&source.as_str())));
            assert!(dest == "t" || (dest.len() == 1 && ("a"..="j").contains(&dest.as_str())));
        }
        assert!(edges.iter().filter(|e| e.0 == "s").count() <= 5);
        assert!(edges.iter().filter(|e| e.1 == "t").count() <= 5);
    }
}

#[test]
fn edge_list_text_writes_one_line_per_edge() {
    let edges = vec![edge("s", "a", 10), edge("a", "t", -5), edge("", "x y", 0)];
    assert_eq!(edge_list_text(&edges), "s,a,10\na,t,-5\n,x y,0\n");
    assert_eq!(edge_list_text(&Vec::new()), "");
}

#[test]
fn edge_list_text_reads_back() {
    let edges = vec![edge("s", "a", 10), edge("a", "t", -5), edge("b", "b", i32::MIN), edge("c", "d", i32::MAX)];
    assert_eq!(parse_edge_list(&edge_list_text(&edges)), edges);
    for _ in 0..20 {
        let edges = random_edge_list();
        assert_eq!(parse_edge_list(&edge_list_text(&edges)), edges);
    }
}
