use reachability::graph::{Edge, Graph};
use reachability::label::label_less;

fn graph_of(pairs: &[(&str, &str)]) -> Graph {
    let mut edges: Vec<Edge> = Vec::new();
    for (s, d) in pairs {
        edges.push(Edge::new(s, d));
    }
    Graph::new(edges)
}

fn strings(items: &[&str]) -> Vec<String> {
    items.iter().map(|s| s.to_string()).collect()
}

#[test]
fn edge_new_copies_both_labels() {
    let e = Edge::new("left", "right");
    assert_eq!(e.src, "left");
    assert_eq!(e.dest, "right");
}

#[test]
fn build_empty_graph_has_no_vertices() {
    let g = Graph::new(Vec::new());
    assert_eq!(g.vertex_count(), 0);
    assert_eq!(g.vertex_labels(), Vec::<String>::new());
    assert!(g.get_adj_matrix().is_empty());
    assert!(g.get_path_matrix().is_empty());
}

#[test]
fn build_creates_both_ends_of_every_edge() {
    let g = graph_of(&[("A", "B"), ("C", "D"), ("B", "E")]);
    assert_eq!(g.vertex_count(), 5);
    assert_eq!(g.vertex_labels(), strings(&["A", "B", "C", "D", "E"]));
    assert_eq!(g.neighbors("A"), Some(strings(&["B"])));
    assert_eq!(g.neighbors("B"), Some(strings(&["E"])));
    assert_eq!(g.neighbors("C"), Some(strings(&["D"])));
    assert_eq!(g.neighbors("D"), Some(strings(&[])));
    assert_eq!(g.neighbors("E"), Some(strings(&[])));
}

#[test]
fn build_drops_self_loop_of_new_source() {
    let g = graph_of(&[("A", "A")]);
    assert_eq!(g.vertex_count(), 1);
    assert_eq!(g.neighbors("A"), Some(strings(&[])));
}

#[test]
fn build_drops_repeated_edges() {
    let g = graph_of(&[("A", "B"), ("A", "C"), ("A", "B"), ("A", "A"), ("A", "C")]);
    assert_eq!(g.vertex_count(), 3);
    assert_eq!(g.neighbors("A"), Some(strings(&["B", "C"])));
}

#[test]
fn build_equals_adding_edges_one_by_one() {
    let pairs = [("D", "A"), ("A", "B"), ("D", "B"), ("B", "B"), ("D", "A"), ("C", "D")];
    let built = graph_of(&pairs);
    let mut grown = Graph::new(Vec::new());
    for (s, d) in pairs {
        grown.add_edge(s, d);
    }
    assert_eq!(built.vertex_labels(), grown.vertex_labels());
    for l in built.vertex_labels() {
        assert_eq!(built.neighbors(&l), grown.neighbors(&l));
    }
}

#[test]
fn neighbors_keep_insertion_order() {
    let g = graph_of(&[("M", "Z"), ("M", "A"), ("M", "Q"), ("M", "B")]);
    assert_eq!(g.neighbors("M"), Some(strings(&["Z", "A", "Q", "B"])));
}

#[test]
fn neighbors_of_unknown_label_is_none() {
    let g = graph_of(&[("A", "B")]);
    assert_eq!(g.neighbors("C"), None);
    assert_eq!(g.neighbors(""), None);
    assert_eq!(g.neighbors("AB"), None);
}

#[test]
fn add_edge_to_new_source_starts_its_list() {
    let mut g = Graph::new(Vec::new());
    g.add_edge("X", "Y");
    assert_eq!(g.vertex_count(), 2);
    assert_eq!(g.neighbors("X"), Some(strings(&["Y"])));
    assert_eq!(g.neighbors("Y"), Some(strings(&[])));
}

#[test]
fn add_edge_appends_to_known_source() {
    let mut g = graph_of(&[("A", "B")]);
    g.add_edge("A", "C");
    assert_eq!(g.vertex_count(), 3);
    assert_eq!(g.neighbors("A"), Some(strings(&["B", "C"])));
    assert_eq!(g.neighbors("C"), Some(strings(&[])));
}

#[test]
fn add_present_edge_changes_nothing() {
    let mut g = graph_of(&[("A", "B"), ("B", "C"), ("A", "C")]);
    let labels = g.vertex_labels();
    let lists: Vec<Option<Vec<String>>> = labels.iter().map(|l| g.neighbors(l)).collect();
    g.add_edge("A", "B");
    g.add_edge("A", "C");
    g.add_edge("B", "C");
    assert_eq!(g.vertex_count(), 3);
    assert_eq!(g.vertex_labels(), labels);
    let after: Vec<Option<Vec<String>>> = labels.iter().map(|l| g.neighbors(l)).collect();
    assert_eq!(after, lists);
}

#[test]
fn add_self_loop_creates_isolated_vertex() {
    let mut g = graph_of(&[("A", "B")]);
    g.add_edge("L", "L");
    assert_eq!(g.vertex_count(), 3);
    assert_eq!(g.neighbors("L"), Some(strings(&[])));
}

#[test]
fn add_self_loop_on_known_vertex_keeps_its_list() {
    let mut g = graph_of(&[("A", "B"), ("A", "C")]);
    g.add_edge("A", "A");
    assert_eq!(g.vertex_count(), 3);
    assert_eq!(g.neighbors("A"), Some(strings(&["B", "C"])));
}

#[test]
fn add_edge_reverse_direction_is_a_new_edge() {
    let mut g = graph_of(&[("A", "B")]);
    g.add_edge("B", "A");
    assert_eq!(g.vertex_count(), 2);
    assert_eq!(g.neighbors("A"), Some(strings(&["B"])));
    assert_eq!(g.neighbors("B"), Some(strings(&["A"])));
}

#[test]
fn vertex_labels_are_in_lexicographic_order() {
    let g = graph_of(&[("b", "AB"), ("B", "A"), ("", "a"), ("Zed", "Z"), ("\u{e9}", "z")]);
    let labels = g.vertex_labels();
    assert_eq!(labels, strings(&["", "A", "AB", "B", "Z", "Zed", "a", "b", "z", "\u{e9}"]));
    let mut sorted = labels.clone();
    sorted.sort();
    assert_eq!(labels, sorted);
    assert_eq!(g.vertex_count(), 10);
}

#[test]
fn vertex_count_counts_distinct_labels() {
    let mut g = Graph::new(Vec::new());
    for (s, d) in [("A", "B"), ("B", "A"), ("A", "A"), ("C", "A"), ("A", "C")] {
        g.add_edge(s, d);
    }
    assert_eq!(g.vertex_count(), 3);
    assert_eq!(g.vertex_count(), g.vertex_labels().len());
}

#[test]
fn many_vertices_stay_sorted_and_found() {
    let mut g = Graph::new(Vec::new());
    let names: Vec<String> = (0..60u32).map(|i| format!("v{}", (i * 37) % 60)).collect();
    for w in names.windows(2) {
        g.add_edge(&w[0], &w[1]);
    }
    let labels = g.vertex_labels();
    let mut sorted = names.clone();
    sorted.sort();
    assert_eq!(labels, sorted);
    for w in names.windows(2) {
        assert_eq!(g.neighbors(&w[0]), Some(vec![w[1].clone()]));
    }
    assert_eq!(g.neighbors(&names[59]), Some(Vec::new()));
}

#[test]
fn label_less_is_the_order_of_strings() {
    let samples = ["", "A", "AA", "AB", "B", "a", "ab", "abc", "b", "z", "\u{e9}", "\u{4e2d}", "\u{1f600}"];
    for a in samples {
        for b in samples {
            assert_eq!(label_less(a, b), a < b);
        }
    }
    assert!(label_less("A", "B"));
    assert!(!label_less("B", "A"));
    assert!(!label_less("A", "A"));
    assert!(label_less("A", "AA"));
    assert!(!label_less("AA", "A"));
}
