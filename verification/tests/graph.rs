use graph_coloring::graph::Graph;
use graph_coloring::lists::{append_copy, contains, retain_absent};

fn path(n: usize) -> Graph {
    let mut graph = Graph::new(n);
    for v in 1..n {
        assert!(graph.add_edge(v - 1, v));
    }
    graph
}

#[test]
fn new_graph_has_no_edges() {
    let graph = Graph::new(3);
    assert_eq!(graph.num_vertices(), 3);
    for u in 0..3 {
        for v in 0..3 {
            assert!(!graph.has_edge(u, v));
        }
        assert_eq!(graph.get_neighbors(u), Vec::<usize>::new());
    }
    assert_eq!(
        graph.adjacency_matrix(),
        &vec![vec![false; 3], vec![false; 3], vec![false; 3]]
    );
}

#[test]
fn graph_without_vertices() {
    let graph = Graph::new(0);
    assert_eq!(graph.num_vertices(), 0);
    assert!(!graph.has_edge(0, 0));
}

#[test]
fn add_edge_is_symmetric() {
    let mut graph = Graph::new(3);
    assert!(graph.add_edge(0, 2));
    assert!(graph.has_edge(0, 2));
    assert!(graph.has_edge(2, 0));
    assert!(!graph.has_edge(0, 1));
    assert!(!graph.has_edge(1, 2));
    assert_eq!(
        graph.adjacency_matrix(),
        &vec![
            vec![false, false, true],
            vec![false, false, false],
            vec![true, false, false]
        ]
    );
}

#[test]
fn add_edge_rejects_loops_and_strangers() {
    let mut graph = Graph::new(3);
    assert!(!graph.add_edge(1, 1));
    assert!(!graph.add_edge(0, 3));
    assert!(!graph.add_edge(3, 0));
    assert!(!graph.has_edge(1, 1));
    assert!(!graph.has_edge(0, 3));
    assert_eq!(graph.num_vertices(), 3);
    assert_eq!(graph.get_neighbors(0), Vec::<usize>::new());
}

#[test]
fn add_edges_from_matrix_skips_what_is_no_edge() {
    let mut graph = Graph::new(3);
    // a set diagonal entry, a one-sided entry, a short row and a row too many
    let matrix = vec![
        vec![true, true, false, true],
        vec![false, false],
        vec![false, false, false],
        vec![true, true, true],
    ];
    graph.add_edges_from_matrix(matrix);
    assert!(graph.has_edge(0, 1));
    assert!(graph.has_edge(1, 0));
    assert!(!graph.has_edge(0, 0));
    assert!(!graph.has_edge(0, 2));
    assert!(!graph.has_edge(1, 2));
    assert_eq!(graph.num_vertices(), 3);
}

#[test]
fn add_edges_from_matrix_keeps_earlier_edges() {
    let mut graph = Graph::new(3);
    assert!(graph.add_edge(1, 2));
    graph.add_edges_from_matrix(vec![
        vec![false, true, false],
        vec![true, false, false],
        vec![false, false, false],
    ]);
    assert!(graph.has_edge(1, 2));
    assert!(graph.has_edge(0, 1));
    assert!(!graph.has_edge(0, 2));
}

#[test]
fn neighbors_come_in_ascending_order() {
    let mut graph = Graph::new(5);
    assert!(graph.add_edge(2, 4));
    assert!(graph.add_edge(2, 0));
    assert!(graph.add_edge(3, 2));
    assert_eq!(graph.get_neighbors(2), vec![0, 3, 4]);
    assert_eq!(graph.get_neighbors(0), vec![2]);
    assert_eq!(graph.get_neighbors(1), Vec::<usize>::new());
}

#[test]
fn degree_in_list_counts_each_neighbor_once() {
    let graph = path(4);
    // 1 is adjacent to 0 and 2; repetitions and strangers in the list count nothing more
    assert_eq!(graph.get_degree_in_list(&1, &[0, 0, 2, 2, 2, 7]), 2);
    assert_eq!(graph.get_degree_in_list(&1, &[0, 3, 1]), 1);
    assert_eq!(graph.get_degree_in_list(&1, &[3]), 0);
    assert_eq!(graph.get_degree_in_list(&1, &[]), 0);
    assert_eq!(graph.get_degree_in_list(&0, &[0, 1, 2, 3]), 1);
}

#[test]
fn list_helpers() {
    assert!(contains(&[4, 2, 9], 9));
    assert!(!contains(&[4, 2, 9], 3));
    assert!(!contains(&[], 0));
    assert_eq!(retain_absent(&[5, 1, 4, 1, 3], &[1, 3, 8]), vec![5, 4]);
    assert_eq!(retain_absent(&[5, 1, 4], &[]), vec![5, 1, 4]);
    assert_eq!(retain_absent(&[], &[1]), Vec::<usize>::new());
    let mut target = vec![7, 8];
    append_copy(&mut target, &[8, 1]);
    assert_eq!(target, vec![7, 8, 8, 1]);
}
