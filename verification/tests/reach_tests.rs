use reachability::graph::{Edge, Graph};
use reachability::matrix::Matrix;
use reachability::reach::GraphError;

fn graph_from(pairs: &[(&str, &str)]) -> Graph {
    let mut edges: Vec<Edge> = Vec::new();
    for (s, d) in pairs {
        edges.push(Edge::new(s, d));
    }
    Graph::new(edges)
}

fn at(m: &Matrix, row: &str, col: &str) -> bool {
    let (_, cells) = m.iter().find(|r| r.0 == row).unwrap();
    cells.iter().find(|c| c.0 == col).unwrap().1
}

fn flags(m: &Matrix) -> Vec<Vec<u8>> {
    m.iter().map(|r| r.1.iter().map(|c| c.1 as u8).collect()).collect()
}

fn path(g: &Graph, a: &str, b: &str) -> Result<bool, GraphError> {
    g.has_path(a.to_string(), b.to_string())
}

#[test]
fn has_path_follows_one_edge() {
    let g = graph_from(&[("A", "B")]);
    assert_eq!(path(&g, "A", "B"), Ok(true));
}

#[test]
fn has_path_follows_a_chain() {
    let g = graph_from(&[("A", "B"), ("B", "C"), ("C", "D")]);
    assert_eq!(path(&g, "A", "D"), Ok(true));
    assert_eq!(path(&g, "B", "D"), Ok(true));
    assert_eq!(path(&g, "D", "A"), Ok(false));
    assert_eq!(path(&g, "C", "B"), Ok(false));
}

#[test]
fn has_path_from_a_vertex_to_itself() {
    let g = graph_from(&[("A", "B")]);
    assert_eq!(path(&g, "A", "A"), Ok(true));
    assert_eq!(path(&g, "B", "B"), Ok(true));
}

#[test]
fn has_path_is_not_symmetric() {
    let g = graph_from(&[("A", "B")]);
    let m = g.get_path_matrix();
    assert!(at(&m, "A", "B"));
    assert!(!at(&m, "B", "A"));
    assert_eq!(path(&g, "A", "B"), Ok(true));
    assert_eq!(path(&g, "B", "A"), Ok(false));
}

#[test]
fn has_path_rejects_unknown_vertices() {
    let g = graph_from(&[("A", "B")]);
    assert_eq!(path(&g, "A", "C"), Err(GraphError::UnknownVertex));
    assert_eq!(path(&g, "C", "A"), Err(GraphError::UnknownVertex));
    assert_eq!(path(&g, "C", "D"), Err(GraphError::UnknownVertex));
    assert_eq!(path(&g, "C", "C"), Err(GraphError::UnknownVertex));
    let empty = Graph::new(Vec::new());
    assert_eq!(path(&empty, "A", "A"), Err(GraphError::UnknownVertex));
}

#[test]
fn has_path_terminates_on_cycles() {
    let g = graph_from(&[("A", "B"), ("B", "A"), ("B", "C"), ("C", "B"), ("D", "A")]);
    assert_eq!(path(&g, "A", "C"), Ok(true));
    assert_eq!(path(&g, "C", "A"), Ok(true));
    assert_eq!(path(&g, "A", "D"), Ok(false));
    assert_eq!(path(&g, "D", "C"), Ok(true));
}

#[test]
fn has_path_through_branching_graph() {
    let g = graph_from(&[
        ("root", "l"),
        ("root", "r"),
        ("l", "ll"),
        ("l", "lr"),
        ("r", "rl"),
        ("rl", "leaf"),
        ("other", "leaf"),
    ]);
    assert_eq!(path(&g, "root", "leaf"), Ok(true));
    assert_eq!(path(&g, "l", "leaf"), Ok(false));
    assert_eq!(path(&g, "root", "other"), Ok(false));
    assert_eq!(path(&g, "other", "leaf"), Ok(true));
    assert_eq!(path(&g, "leaf", "root"), Ok(false));
}

#[test]
fn four_cycle_makes_all_mutually_reachable() {
    let g = graph_from(&[("A", "B"), ("B", "C"), ("C", "D"), ("D", "A")]);
    let reach = g.get_path_matrix();
    for x in ["A", "B", "C", "D"] {
        for y in ["A", "B", "C", "D"] {
            assert!(at(&reach, x, y));
            assert_eq!(path(&g, x, y), Ok(true));
        }
    }
    let adj = g.get_adj_matrix();
    assert!(!at(&adj, "A", "C"));
    assert_eq!(
        flags(&adj),
        vec![vec![1, 1, 0, 0], vec![0, 1, 1, 0], vec![0, 0, 1, 1], vec![1, 0, 0, 1]]
    );
    assert_eq!(flags(&reach), vec![vec![1; 4]; 4]);
}

#[test]
fn disconnected_vertex_reaches_only_itself() {
    let mut g = graph_from(&[("A", "B")]);
    g.add_edge("C", "C");
    let reach = g.get_path_matrix();
    assert!(!at(&reach, "A", "C"));
    assert!(!at(&reach, "C", "A"));
    assert!(at(&reach, "C", "C"));
    assert_eq!(flags(&reach), vec![vec![1, 1, 0], vec![0, 1, 0], vec![0, 0, 1]]);
    assert_eq!(path(&g, "A", "C"), Ok(false));
    assert_eq!(path(&g, "C", "A"), Ok(false));
    assert_eq!(path(&g, "C", "C"), Ok(true));
}

#[test]
fn diagonal_is_set_in_both_matrices() {
    let mut g = graph_from(&[("A", "B"), ("B", "C")]);
    g.add_edge("lonely", "lonely");
    assert_eq!(g.neighbors("lonely"), Some(Vec::new()));
    let adj = g.get_adj_matrix();
    let reach = g.get_path_matrix();
    for l in g.vertex_labels() {
        assert!(at(&adj, &l, &l));
        assert!(at(&reach, &l, &l));
    }
    assert!(at(&adj, "C", "C"));
    assert!(at(&reach, "C", "C"));
}

#[test]
fn adjacency_matrix_shows_single_steps_only() {
    let g = graph_from(&[("A", "B"), ("B", "C"), ("A", "D")]);
    let adj = g.get_adj_matrix();
    assert_eq!(
        flags(&adj),
        vec![vec![1, 1, 0, 1], vec![0, 1, 1, 0], vec![0, 0, 1, 0], vec![0, 0, 0, 1]]
    );
    let reach = g.get_path_matrix();
    assert_eq!(
        flags(&reach),
        vec![vec![1, 1, 1, 1], vec![0, 1, 1, 0], vec![0, 0, 1, 0], vec![0, 0, 0, 1]]
    );
}

#[test]
fn matrices_are_labelled_in_label_order() {
    let g = graph_from(&[("d", "b"), ("c", "a"), ("b", "c")]);
    let labels = g.vertex_labels();
    assert_eq!(labels, vec!["a", "b", "c", "d"]);
    for m in [g.get_adj_matrix(), g.get_path_matrix()] {
        assert_eq!(m.len(), 4);
        let rows: Vec<String> = m.iter().map(|r| r.0.clone()).collect();
        assert_eq!(rows, labels);
        for (_, cells) in &m {
            let cols: Vec<String> = cells.iter().map(|c| c.0.clone()).collect();
            assert_eq!(cols, labels);
        }
    }
}

#[test]
fn matrices_are_snapshots() {
    let mut g = graph_from(&[("A", "B")]);
    let before = g.get_path_matrix();
    g.add_edge("B", "A");
    let after = g.get_path_matrix();
    assert_eq!(flags(&before), vec![vec![1, 1], vec![0, 1]]);
    assert_eq!(flags(&after), vec![vec![1, 1], vec![1, 1]]);
}

#[test]
fn reachability_matrix_is_transitive() {
    let g = graph_from(&[
        ("A", "B"),
        ("B", "C"),
        ("C", "A"),
        ("C", "D"),
        ("E", "F"),
        ("F", "E"),
        ("G", "A"),
        ("D", "H"),
    ]);
    let m = flags(&g.get_path_matrix());
    let n = m.len();
    assert_eq!(n, 8);
    for a in 0..n {
        for b in 0..n {
            for c in 0..n {
                if m[a][b] == 1 && m[b][c] == 1 {
                    assert_eq!(m[a][c], 1);
                }
            }
        }
    }
    assert_eq!(m[0], vec![1, 1, 1, 1, 0, 0, 0, 1]);
    assert_eq!(m[3], vec![0, 0, 0, 1, 0, 0, 0, 1]);
    assert_eq!(m[4], vec![0, 0, 0, 0, 1, 1, 0, 0]);
    assert_eq!(m[6], vec![1, 1, 1, 1, 0, 0, 1, 1]);
    assert_eq!(m[7], vec![0, 0, 0, 0, 0, 0, 0, 1]);
}

#[test]
fn reachability_matrix_agrees_with_has_path() {
    let g = graph_from(&[("A", "B"), ("B", "C"), ("D", "B"), ("C", "E"), ("E", "C"), ("F", "F")]);
    let m = g.get_path_matrix();
    for a in g.vertex_labels() {
        for b in g.vertex_labels() {
            assert_eq!(Ok(at(&m, &a, &b)), g.has_path(a.clone(), b.clone()));
        }
    }
}

#[test]
fn dfs_flags_what_it_enters() {
    let g = graph_from(&[("A", "B"), ("B", "C"), ("D", "A"), ("E", "E")]);
    let mut visited = vec![false; 5];
    let mut found = false;
    g.DFS("A".to_string(), "C".to_string(), &mut found, &mut visited);
    assert!(found);
    assert_eq!(visited, vec![true, true, true, false, false]);
}

#[test]
fn dfs_does_not_enter_flagged_vertices() {
    let g = graph_from(&[("A", "B"), ("B", "C"), ("A", "D")]);
    let mut visited = vec![false, true, false, false];
    let mut found = false;
    g.DFS("A".to_string(), "C".to_string(), &mut found, &mut visited);
    assert!(!found);
    assert_eq!(visited, vec![true, true, false, true]);
}

#[test]
fn dfs_starts_even_from_a_flagged_vertex() {
    let g = graph_from(&[("A", "B"), ("B", "C")]);
    let mut visited = vec![true, false, false];
    let mut found = false;
    g.DFS("A".to_string(), "A".to_string(), &mut found, &mut visited);
    assert!(found);
    assert_eq!(visited, vec![true, true, true]);
}

#[test]
fn dfs_leaves_a_found_path_found() {
    let g = graph_from(&[("A", "B"), ("C", "C")]);
    let mut visited = vec![false; 3];
    let mut found = true;
    g.DFS("A".to_string(), "C".to_string(), &mut found, &mut visited);
    assert!(found);
    assert_eq!(visited, vec![true, true, false]);
}

#[test]
fn dfs_with_destination_outside_the_graph() {
    let g = graph_from(&[("A", "B")]);
    let mut visited = vec![false; 2];
    let mut found = false;
    g.DFS("A".to_string(), "nowhere".to_string(), &mut found, &mut visited);
    assert!(!found);
    assert_eq!(visited, vec![true, true]);
}

#[test]
fn long_chain_is_traversed_without_recursion() {
    let mut g = Graph::new(Vec::new());
    let names: Vec<String> = (0..3000u32).map(|i| format!("{:05}", i)).collect();
    for w in names.windows(2) {
        g.add_edge(&w[0], &w[1]);
    }
    assert_eq!(g.has_path(names[0].clone(), names[2999].clone()), Ok(true));
    assert_eq!(g.has_path(names[2999].clone(), names[0].clone()), Ok(false));
}
