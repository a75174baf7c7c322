use graph_coloring::algorithms::coloring::{
    check_viability, count_forbidden_per_vertex, get_coloring_from_class_list,
};
use graph_coloring::algorithms::local_search::{
    best_color, get_forbidden, local_search, recolor_vertex,
};
use graph_coloring::graph::Graph;
use std::collections::HashSet;

fn path4() -> Graph {
    let mut graph = Graph::new(4);
    assert!(graph.add_edge(0, 1));
    assert!(graph.add_edge(1, 2));
    assert!(graph.add_edge(2, 3));
    graph
}

fn complete(n: usize) -> Graph {
    let mut graph = Graph::new(n);
    for u in 0..n {
        for v in (u + 1)..n {
            assert!(graph.add_edge(u, v));
        }
    }
    graph
}

#[test]
fn coloring_numbers_classes_from_one() {
    let class_list = vec![vec![2], vec![0, 3], vec![]];
    assert_eq!(get_coloring_from_class_list(5, &class_list), vec![2, 0, 1, 2, 0]);
    assert_eq!(get_coloring_from_class_list(0, &[]), Vec::<usize>::new());
    assert_eq!(get_coloring_from_class_list(2, &[]), vec![0, 0]);
}

#[test]
fn coloring_takes_the_last_class_of_a_vertex() {
    let class_list = vec![vec![0, 1], vec![1]];
    assert_eq!(get_coloring_from_class_list(2, &class_list), vec![1, 2]);
}

#[test]
fn forbidden_per_vertex_counts_same_colored_neighbors() {
    let graph = complete(3);
    assert_eq!(count_forbidden_per_vertex(&graph, &[1, 1, 1], 0), 2);
    assert_eq!(count_forbidden_per_vertex(&graph, &[1, 2, 1], 0), 1);
    assert_eq!(count_forbidden_per_vertex(&graph, &[1, 2, 1], 1), 0);
    assert_eq!(count_forbidden_per_vertex(&graph, &[0, 0, 3], 1), 1);
}

#[test]
fn viability_wants_both_ends_colored_and_different() {
    let graph = path4();
    assert!(check_viability(&graph, &[1, 2, 1, 2]));
    assert!(!check_viability(&graph, &[1, 2, 2, 1]));
    assert!(!check_viability(&graph, &[1, 2, 1, 0]));
    assert!(!check_viability(&graph, &[0, 1, 2, 1]));
    // an uncolored vertex without edges is no fault
    let lonely = Graph::new(2);
    assert!(check_viability(&lonely, &[0, 0]));
    assert!(check_viability(&Graph::new(0), &[]));
}

#[test]
fn forbidden_counts_each_edge_once() {
    let graph = complete(4);
    let (count, ends) = get_forbidden(&graph, &[vec![0, 1, 2, 3]]);
    assert_eq!(count, 6);
    assert_eq!(ends, HashSet::from([0, 1, 2, 3]));
    let (count, ends) = get_forbidden(&graph, &[vec![0], vec![1], vec![2], vec![3]]);
    assert_eq!(count, 0);
    assert_eq!(ends, HashSet::new());
}

#[test]
fn forbidden_counts_edges_between_uncolored_vertices() {
    let graph = path4();
    // 2 and 3 are in no class, so both have the color 0
    let (count, ends) = get_forbidden(&graph, &[vec![0], vec![1]]);
    assert_eq!(count, 1);
    assert_eq!(ends, HashSet::from([2, 3]));
}

#[test]
fn best_color_prefers_the_fewest_conflicts() {
    let graph = path4();
    let mut colors = vec![1, 2, 2, 3];
    // vertex 1: color 1 meets vertex 0, color 2 meets vertex 2, color 3 meets nobody
    assert_eq!(best_color(&graph, &mut colors, 1, 3), (3, 0));
    assert_eq!(colors, vec![1, 2, 2, 3]);
    // vertex 2: color 1 is the first that meets nobody
    assert_eq!(best_color(&graph, &mut colors, 2, 3), (1, 0));
    assert_eq!(colors, vec![1, 2, 2, 3]);
}

#[test]
fn best_color_keeps_the_present_color_on_a_tie() {
    let graph = path4();
    let mut colors = vec![3, 2, 2, 3];
    // vertex 0 meets nobody with its color 3, and neither with color 1
    assert_eq!(best_color(&graph, &mut colors, 0, 3), (3, 0));
    // with no color to try the present color stays
    assert_eq!(best_color(&graph, &mut colors, 1, 0), (2, 1));
    assert_eq!(colors, vec![3, 2, 2, 3]);
}

#[test]
fn best_color_takes_the_earliest_of_equal_colors() {
    let graph = complete(3);
    let mut colors = vec![1, 1, 1];
    // colors 2, 3 and 4 all leave vertex 0 without conflict
    assert_eq!(best_color(&graph, &mut colors, 0, 4), (2, 0));
}

#[test]
fn recolor_moves_the_vertex_to_the_end_of_its_new_class() {
    let graph = path4();
    let mut class_list = vec![vec![0], vec![1, 2], vec![3]];
    assert_eq!(recolor_vertex(&graph, &mut class_list, 1), Some(3));
    assert_eq!(class_list, vec![vec![0], vec![2], vec![3, 1]]);

    let mut class_list = vec![vec![0], vec![1, 2], vec![3]];
    assert_eq!(recolor_vertex(&graph, &mut class_list, 2), Some(1));
    assert_eq!(class_list, vec![vec![0, 2], vec![1], vec![3]]);
}

#[test]
fn recolor_leaves_a_vertex_that_cannot_improve() {
    let graph = path4();
    let mut class_list = vec![vec![0], vec![1, 2], vec![3]];
    assert_eq!(recolor_vertex(&graph, &mut class_list, 0), None);
    assert_eq!(class_list, vec![vec![0], vec![1, 2], vec![3]]);

    let graph = complete(2);
    let mut class_list = vec![vec![0, 1]];
    assert_eq!(recolor_vertex(&graph, &mut class_list, 0), None);
    assert_eq!(class_list, vec![vec![0, 1]]);
}

#[test]
fn recolor_may_open_an_empty_class() {
    let graph = complete(2);
    let mut class_list = vec![vec![0, 1], vec![]];
    assert_eq!(recolor_vertex(&graph, &mut class_list, 1), Some(2));
    assert_eq!(class_list, vec![vec![0], vec![1]]);
}

#[test]
fn local_search_leaves_a_proper_list_alone() {
    let graph = path4();
    let mut class_list = vec![vec![0, 2], vec![1, 3], vec![]];
    assert_eq!(local_search(&graph, &mut class_list), 0);
    assert_eq!(class_list, vec![vec![0, 2], vec![1, 3], vec![]]);
}

#[test]
fn local_search_repairs_the_path() {
    let graph = path4();
    for _ in 0..50 {
        let mut class_list = vec![vec![0], vec![1, 2], vec![3]];
        assert_eq!(local_search(&graph, &mut class_list), 0);
        // one of the two vertices in conflict has moved, nothing else
        assert!(
            class_list == vec![vec![0], vec![2], vec![3, 1]]
                || class_list == vec![vec![0, 2], vec![1], vec![3]]
        );
    }
}

#[test]
fn local_search_gives_up_where_nothing_improves() {
    let graph = complete(3);
    let mut class_list = vec![vec![0, 1], vec![2]];
    assert_eq!(local_search(&graph, &mut class_list), 1);
    assert_eq!(class_list, vec![vec![0, 1], vec![2]]);
}

#[test]
fn local_search_does_nothing_on_a_single_vertex_pair_without_draws() {
    // with fewer than two vertices no draw is made at all
    let graph = Graph::new(1);
    let mut class_list = vec![vec![0]];
    assert_eq!(local_search(&graph, &mut class_list), 0);
    assert_eq!(class_list, vec![vec![0]]);
}

#[test]
fn local_search_never_adds_forbidden_edges() {
    let graph = complete(5);
    for _ in 0..20 {
        let mut class_list = vec![vec![0, 1, 2], vec![3, 4], vec![]];
        let (before, _) = get_forbidden(&graph, &class_list);
        assert_eq!(before, 4);
        let after = local_search(&graph, &mut class_list);
        assert!(after <= before);
        assert_eq!(after, get_forbidden(&graph, &class_list).0);
        let mut members: Vec<usize> = class_list.concat();
        members.sort();
        assert_eq!(members, vec![0, 1, 2, 3, 4]);
        assert!(!class_list[0].is_empty() && !class_list[1].is_empty());
    }
}
