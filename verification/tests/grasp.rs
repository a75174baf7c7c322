use graph_coloring::algorithms::candidates::get_n_largest_degree;
use graph_coloring::algorithms::{check_viability, get_coloring_from_class_list};
use graph_coloring::algorithms::construction::count_remaining_edges;
use graph_coloring::algorithms::grasp::grasp;
use graph_coloring::algorithms::local_search::{get_forbidden, local_search};
use graph_coloring::graph::Graph;
use std::collections::HashSet;

/// The edges of the Mycielski graph on 11 vertices, with vertices numbered
/// from 1.
fn myciel3_edges() -> Vec<(usize, usize)> {
    vec![
        (1, 2),
        (1, 4),
        (1, 7),
        (1, 9),
        (2, 3),
        (2, 6),
        (2, 8),
        (3, 5),
        (3, 7),
        (3, 10),
        (4, 5),
        (4, 6),
        (4, 10),
        (5, 8),
        (5, 9),
        (6, 11),
        (7, 11),
        (8, 11),
        (9, 11),
        (10, 11),
    ]
}

fn graph_from_edges(n: usize, edges: &[(usize, usize)]) -> Graph {
    let mut graph = Graph::new(n);
    for (u, v) in edges {
        assert!(graph.add_edge(u - 1, v - 1));
    }
    graph
}

fn myciel3() -> Graph {
    graph_from_edges(11, &myciel3_edges())
}

/// The Mycielski graph on 23 vertices, built from the one on 11: every vertex
/// `v` gets a twin `v + 11` joined to the neighbours of `v`, and vertex 23 is
/// joined to every twin.
fn myciel4() -> Graph {
    let base = myciel3_edges();
    let mut edges = base.clone();
    for (u, v) in &base {
        edges.push((*u, v + 11));
        edges.push((*v, u + 11));
    }
    for twin in 12..23 {
        edges.push((twin, 23));
    }
    assert_eq!(edges.len(), 71);
    graph_from_edges(23, &edges)
}

#[test]
fn test_get_n_largest_degree() {
    let graph = myciel3();
    // Use a subset to filter,
    // i.e., use an induced subgraph
    let set_subset = vec![10, 3, 4, 5];
    let largest_degrees = get_n_largest_degree(&3, &graph, &set_subset, None);

    assert_eq!(largest_degrees, vec![3, 5, 4]);

    // "Don't" use the subset to filter: the subset holds all vertices
    let set_entire_graph: Vec<usize> = (0..graph.num_vertices()).collect();
    let largest_degrees = get_n_largest_degree(&5, &graph, &set_entire_graph, None);

    assert_eq!(largest_degrees, vec![10, 0, 1, 2, 3]);

    // Asking for more elements than the subset holds gives the whole subset
    let n_larger_than_subset = set_subset.len() + 1;
    let largest_degrees = get_n_largest_degree(&n_larger_than_subset, &graph, &set_subset, None);

    assert_eq!(largest_degrees.len(), set_subset.len());

    // Asking for more elements than the graph has vertices gives all of them
    let too_many_elements = set_entire_graph.len() + 1;
    let largest_degrees =
        get_n_largest_degree(&too_many_elements, &graph, &set_entire_graph, None);

    assert_eq!(largest_degrees.len(), set_entire_graph.len());
}

#[test]
fn test_count_remaining_edges() {
    let graph = myciel3();
    let list = vec![0, 1, 2];
    let num_edges = count_remaining_edges(&graph, &list);
    assert_eq!(num_edges, 2);
}

#[test]
fn test_grasp() {
    // Asserts GRASP provides a solution
    let graph = myciel4();
    let num_vertices = graph.num_vertices();
    let (_, class_colors) = grasp(&graph, 10, 5, 5);

    let coloring = get_coloring_from_class_list(num_vertices, &class_colors);

    assert!(check_viability(&graph, &coloring));
}

#[test]
fn test_get_forbidden() {
    // The complete graph
    let mut graph = Graph::new(5);
    let adjacency_matrix = vec![
        vec![false, true, true, true, true],
        vec![true, false, true, true, true],
        vec![true, true, false, true, true],
        vec![true, true, true, false, true],
        vec![true, true, true, true, false],
    ];
    let color_classes = vec![vec![0], vec![1], vec![2, 3, 4]];

    graph.add_edges_from_matrix(adjacency_matrix);
    let (count, forbidden) = get_forbidden(&graph, &color_classes);

    assert_eq!(forbidden, HashSet::from([2, 3, 4]));
    assert_eq!(count, 3)
}

#[test]
fn test_local_search() {
    // Basically a linked list colored as 1---2---2---3
    let mut graph = Graph::new(4);
    let adjacency_matrix = vec![
        vec![false, true, false, false],
        vec![true, false, true, false],
        vec![false, true, false, true],
        vec![false, false, true, false],
    ];
    let mut color_classes = vec![vec![0], vec![1, 2], vec![3]];

    graph.add_edges_from_matrix(adjacency_matrix);

    let num_forbidden = local_search(&graph, &mut color_classes);

    assert_eq!(num_forbidden, 0);
}
