use reachability::graph::Graph;

fn first_letters(n: u8) -> Vec<String> {
    (0..n).map(|i| ((b'A' + i) as char).to_string()).collect()
}

#[test]
fn add_letter_edge_names_vertices_by_one_character() {
    let mut g = Graph::new(Vec::new());
    g.add_letter_edge('A', 'B');
    g.add_letter_edge('A', 'Z');
    g.add_letter_edge('Q', 'Q');
    assert_eq!(g.vertex_labels(), vec!["A", "B", "Q", "Z"]);
    assert_eq!(g.neighbors("A"), Some(vec!["B".to_string(), "Z".to_string()]));
    assert_eq!(g.neighbors("Q"), Some(Vec::new()));
}

#[test]
fn random_edges_stay_within_the_letters_asked_for() {
    let allowed = first_letters(5);
    for _ in 0..20 {
        let mut g = Graph::new(Vec::new());
        g.gen_rand_nodes(40, 5);
        let labels = g.vertex_labels();
        assert!(!labels.is_empty());
        assert!(labels.len() <= 5);
        for l in &labels {
            assert!(allowed.contains(l));
            for n in g.neighbors(l).unwrap() {
                assert!(allowed.contains(&n));
                assert_ne!(&n, l);
            }
        }
    }
}

#[test]
fn random_edges_use_at_most_the_whole_alphabet() {
    let allowed = first_letters(26);
    let mut g = Graph::new(Vec::new());
    g.gen_rand_nodes(500, 1000);
    let labels = g.vertex_labels();
    assert!(labels.len() <= 26);
    for l in &labels {
        assert!(allowed.contains(l));
    }
}

#[test]
fn random_edges_draw_more_than_one_letter() {
    let mut g = Graph::new(Vec::new());
    g.gen_rand_nodes(400, 26);
    assert!(g.vertex_count() > 1);
    let with_successors = g.vertex_labels().iter().filter(|l| !g.neighbors(l).unwrap().is_empty()).count();
    assert!(with_successors > 0);
}

#[test]
fn random_edges_over_one_letter_give_one_isolated_vertex() {
    let mut g = Graph::new(Vec::new());
    g.gen_rand_nodes(10, 1);
    assert_eq!(g.vertex_labels(), vec!["A"]);
    assert_eq!(g.neighbors("A"), Some(Vec::new()));
}

#[test]
fn no_random_edges_leave_the_graph_as_it_was() {
    let mut g = Graph::new(Vec::new());
    g.add_edge("x", "y");
    g.gen_rand_nodes(0, 0);
    g.gen_rand_nodes(0, 12);
    assert_eq!(g.vertex_labels(), vec!["x", "y"]);
    assert_eq!(g.neighbors("x"), Some(vec!["y".to_string()]));
}

#[test]
fn random_edges_keep_earlier_vertices() {
    let mut g = Graph::new(Vec::new());
    g.add_edge("start", "A");
    g.gen_rand_nodes(30, 4);
    assert_eq!(g.neighbors("start"), Some(vec!["A".to_string()]));
    assert!(g.vertex_count() >= 2);
    assert!(g.vertex_count() <= 5);
}
