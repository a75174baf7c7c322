use graph_coloring::algorithms::candidates::get_n_largest_degree;
use graph_coloring::algorithms::coloring::{check_viability, get_coloring_from_class_list};
use graph_coloring::algorithms::construction::{
    admit_vertex, assign_color, build_class, commit_if_better, construction_phase,
    count_remaining_edges,
};
use graph_coloring::algorithms::grasp::{grasp, grasp_trial, keep_better};
use graph_coloring::algorithms::improvement::{improve_phase, merge_classes, two_smallest};
use graph_coloring::graph::Graph;

fn graph_from_edges(n: usize, edges: &[(usize, usize)]) -> Graph {
    let mut graph = Graph::new(n);
    for (u, v) in edges {
        assert!(graph.add_edge(*u, *v));
    }
    graph
}

/// The Mycielski graph on 11 vertices, with vertices numbered from 0.
fn myciel3() -> Graph {
    graph_from_edges(
        11,
        &[
            (0, 1),
            (0, 3),
            (0, 6),
            (0, 8),
            (1, 2),
            (1, 5),
            (1, 7),
            (2, 4),
            (2, 6),
            (2, 9),
            (3, 4),
            (3, 5),
            (3, 9),
            (4, 7),
            (4, 8),
            (5, 10),
            (6, 10),
            (7, 10),
            (8, 10),
            (9, 10),
        ],
    )
}

fn complete(n: usize) -> Graph {
    let mut graph = Graph::new(n);
    for u in 0..n {
        for v in (u + 1)..n {
            assert!(graph.add_edge(u, v));
        }
    }
    graph
}

fn path4() -> Graph {
    graph_from_edges(4, &[(0, 1), (1, 2), (2, 3)])
}

/// Panics unless `class_list` is a proper coloring of `graph` with `k`
/// colors: one slot for each vertex, the first `k` inhabited and the others
/// empty, every vertex in exactly one class, no class with two adjacent
/// vertices.
fn assert_valid(graph: &Graph, k: usize, class_list: &[Vec<usize>]) {
    let n = graph.num_vertices();
    assert!(k <= n);
    assert_eq!(class_list.len(), n);
    for (c, class) in class_list.iter().enumerate() {
        assert_eq!(class.is_empty(), c >= k);
        for u in class {
            for v in class {
                assert!(!graph.has_edge(*u, *v));
            }
        }
    }
    let mut members: Vec<usize> = class_list.concat();
    members.sort();
    assert_eq!(members, (0..n).collect::<Vec<usize>>());
    let coloring = get_coloring_from_class_list(n, class_list);
    assert!(check_viability(graph, &coloring));
}

#[test]
fn ranking_against_a_list() {
    let graph = myciel3();
    // 5 and 6 are adjacent to 10, 0 is not
    assert_eq!(get_n_largest_degree(&2, &graph, &[6, 0, 5], Some(&[10])), vec![5, 6]);
    assert_eq!(get_n_largest_degree(&3, &graph, &[6, 0, 5], Some(&[10])), vec![5, 6, 0]);
    // against 1 and 3 vertex 0 has degree 2, vertex 5 has degree 2, vertex 6 has degree 0
    assert_eq!(get_n_largest_degree(&3, &graph, &[6, 5, 0], Some(&[1, 3, 3])), vec![0, 5, 6]);
}

#[test]
fn ranking_skips_strangers_and_repetitions() {
    let graph = path4();
    assert_eq!(get_n_largest_degree(&4, &graph, &[3, 9, 3, 1], None), vec![1, 3]);
    assert_eq!(get_n_largest_degree(&0, &graph, &[0, 1], None), Vec::<usize>::new());
    assert_eq!(get_n_largest_degree(&2, &graph, &[], None), Vec::<usize>::new());
}

#[test]
fn remaining_edges_of_whole_graph_and_of_nothing() {
    let graph = myciel3();
    let all: Vec<usize> = (0..11).collect();
    assert_eq!(count_remaining_edges(&graph, &all), 20);
    assert_eq!(count_remaining_edges(&graph, &[]), 0);
    assert_eq!(count_remaining_edges(&graph, &[4]), 0);
    assert_eq!(count_remaining_edges(&graph, &[10, 5, 6, 7, 8, 9]), 5);
}

#[test]
fn admit_vertex_rules_out_the_neighbors() {
    let graph = path4();
    let mut class = vec![];
    let mut admissible = vec![3, 2, 1, 0];
    let mut inadmissible = vec![];
    admit_vertex(&graph, 1, &mut class, &mut admissible, &mut inadmissible);
    assert_eq!(class, vec![1]);
    assert_eq!(admissible, vec![3]);
    assert_eq!(inadmissible, vec![0, 2]);
    admit_vertex(&graph, 3, &mut class, &mut admissible, &mut inadmissible);
    assert_eq!(class, vec![1, 3]);
    assert_eq!(admissible, Vec::<usize>::new());
    assert_eq!(inadmissible, vec![0, 2, 2]);
}

#[test]
fn greedy_class_with_a_single_candidate() {
    let graph = myciel3();
    let all: Vec<usize> = (0..11).collect();
    // 10 has the highest degree; of the five vertices left, all with two
    // neighbours ruled out, 0 comes first; then 2 and 4 tie and 2 comes first
    assert_eq!(build_class(&graph, &all, 1), vec![10, 0, 2]);
    // no two of these are adjacent: 5 comes first by its index, and after it
    // the vertex with the most neighbours among those of the vertices taken
    assert_eq!(build_class(&graph, &[5, 6, 7, 8, 9], 1), vec![5, 7, 8, 6, 9]);
    assert_eq!(build_class(&graph, &[], 1), Vec::<usize>::new());
}

#[test]
fn random_class_is_independent_and_cannot_grow() {
    let graph = myciel3();
    let pool = vec![0, 1, 2, 3, 4, 5, 6, 7, 9];
    for _ in 0..30 {
        let class = build_class(&graph, &pool, 3);
        assert!(!class.is_empty());
        for u in &class {
            assert!(pool.contains(u));
            assert_eq!(class.iter().filter(|v| *v == u).count(), 1);
            for v in &class {
                assert!(!graph.has_edge(*u, *v));
            }
        }
        for u in &pool {
            assert!(class.contains(u) || class.iter().any(|v| graph.has_edge(*u, *v)));
        }
    }
}

#[test]
fn commit_only_on_a_strictly_better_score() {
    let graph = complete(3);
    let mut min = usize::MAX;
    let mut class_list = vec![vec![], vec![], vec![]];
    assert!(commit_if_better(&graph, &[0, 1, 2], vec![0], &mut min, &mut class_list, 1));
    assert_eq!(min, 1);
    assert_eq!(class_list, vec![vec![0], vec![], vec![]]);
    // the same score again does not replace the class
    assert!(!commit_if_better(&graph, &[0, 1, 2], vec![1], &mut min, &mut class_list, 1));
    assert_eq!(min, 1);
    assert_eq!(class_list, vec![vec![0], vec![], vec![]]);
    // a better one does, in the slot of its color
    let path = path4();
    let mut min = 2;
    let mut class_list = vec![vec![9], vec![8], vec![], vec![]];
    assert!(commit_if_better(&path, &[0, 1, 2, 3], vec![1, 3], &mut min, &mut class_list, 2));
    assert_eq!(min, 0);
    assert_eq!(class_list, vec![vec![9], vec![1, 3], vec![], vec![]]);
}

#[test]
fn first_trial_of_a_class_is_always_kept() {
    let graph = complete(3);
    let mut min = usize::MAX;
    let mut class_list = vec![vec![], vec![], vec![]];
    assign_color(&[0, 1, 2], 2, &graph, &mut min, &mut class_list, 1);
    assert_eq!(min, 1);
    assert_eq!(class_list[0].len(), 1);
    assert_eq!(class_list[1], Vec::<usize>::new());
    // no later trial can do better on a complete graph
    let kept = class_list.clone();
    assign_color(&[0, 1, 2], 2, &graph, &mut min, &mut class_list, 1);
    assert_eq!(min, 1);
    assert_eq!(class_list, kept);
}

#[test]
fn construction_gives_a_proper_coloring() {
    let graph = myciel3();
    for _ in 0..10 {
        let (k, class_list) = construction_phase(&graph, 3, 4);
        assert_valid(&graph, k, &class_list);
        // every vertex of a later class has a neighbour in each earlier class
        for c in 0..k {
            for d in (c + 1)..k {
                for v in &class_list[d] {
                    assert!(class_list[c].iter().any(|u| graph.has_edge(*u, *v)));
                }
            }
        }
    }
}

#[test]
fn construction_with_a_single_candidate_is_fully_greedy() {
    let graph = myciel3();
    let (k, class_list) = construction_phase(&graph, 2, 1);
    // every trial gives the same class, so the result never varies
    assert_eq!(class_list[0], vec![10, 0, 2]);
    assert_valid(&graph, k, &class_list);
    for _ in 0..5 {
        assert_eq!(construction_phase(&graph, 1, 1), (k, class_list.clone()));
    }
}

#[test]
fn two_smallest_prefers_the_later_of_equal_classes() {
    let class_list = vec![vec![0, 1], vec![2], vec![3], vec![4, 5, 6], vec![]];
    assert_eq!(two_smallest(&class_list, 4), (2, 1));
    assert_eq!(two_smallest(&class_list, 2), (1, 0));
    assert_eq!(two_smallest(&class_list, 5), (4, 2));
    let class_list = vec![vec![0], vec![1, 2], vec![3, 4]];
    assert_eq!(two_smallest(&class_list, 3), (0, 2));
}

#[test]
fn merge_puts_the_merged_class_first() {
    let class_list = vec![vec![0], vec![1, 2], vec![3], vec![], vec![]];
    assert_eq!(merge_classes(&class_list, 2, 0), vec![vec![3, 0], vec![1, 2]]);
    assert_eq!(merge_classes(&class_list, 0, 1), vec![vec![0, 1, 2], vec![3]]);
    let class_list = vec![vec![4], vec![5]];
    assert_eq!(merge_classes(&class_list, 1, 0), vec![vec![5, 4]]);
}

#[test]
fn improvement_merges_everything_without_edges() {
    let graph = Graph::new(4);
    let mut k = 4;
    let mut class_list = vec![vec![0], vec![1], vec![2], vec![3]];
    improve_phase(&graph, &mut k, &mut class_list);
    assert_eq!(k, 1);
    assert_eq!(class_list, vec![vec![3, 2, 1, 0], vec![], vec![], vec![]]);
    // a second run has nothing left to merge
    improve_phase(&graph, &mut k, &mut class_list);
    assert_eq!(k, 1);
    assert_eq!(class_list, vec![vec![3, 2, 1, 0], vec![], vec![], vec![]]);
}

#[test]
fn improvement_stops_where_a_merge_cannot_be_repaired() {
    let graph = complete(3);
    let mut k = 3;
    let mut class_list = vec![vec![0], vec![1], vec![2]];
    improve_phase(&graph, &mut k, &mut class_list);
    assert_eq!(k, 3);
    assert_eq!(class_list, vec![vec![0], vec![1], vec![2]]);
}

#[test]
fn improvement_adopts_a_merge_that_needs_no_repair() {
    let graph = path4();
    let mut k = 3;
    let mut class_list = vec![vec![0, 2], vec![1], vec![3], vec![]];
    // the two smallest classes, those of 3 and of 1, merge without conflict;
    // the two classes left cannot merge
    improve_phase(&graph, &mut k, &mut class_list);
    assert_eq!(k, 2);
    assert_eq!(class_list, vec![vec![3, 1], vec![0, 2], vec![], vec![]]);
}

#[test]
fn improvement_never_adds_a_class() {
    let graph = myciel3();
    for _ in 0..10 {
        let (built, mut class_list) = construction_phase(&graph, 2, 3);
        let mut k = built;
        improve_phase(&graph, &mut k, &mut class_list);
        assert!(k <= built);
        assert!(k >= 1);
        assert_valid(&graph, k, &class_list);
    }
}

#[test]
fn keep_better_keeps_the_earlier_on_a_tie() {
    let mut num_colors = 3;
    let mut best = vec![vec![0], vec![1], vec![2]];
    assert!(!keep_better(&mut num_colors, &mut best, 3, vec![vec![2], vec![1], vec![0]]));
    assert_eq!(num_colors, 3);
    assert_eq!(best, vec![vec![0], vec![1], vec![2]]);
    assert!(!keep_better(&mut num_colors, &mut best, 4, vec![]));
    assert_eq!(num_colors, 3);
    assert!(keep_better(&mut num_colors, &mut best, 2, vec![vec![0, 2], vec![1], vec![]]));
    assert_eq!(num_colors, 2);
    assert_eq!(best, vec![vec![0, 2], vec![1], vec![]]);
}

#[test]
fn grasp_returns_a_partition_into_independent_classes() {
    let graph = myciel3();
    for _ in 0..5 {
        let (k, class_list) = grasp(&graph, 4, 3, 3);
        assert_valid(&graph, k, &class_list);
        // the graph has a triangle-free odd cycle, so two colors are not enough
        assert!(k >= 3);
    }
}

#[test]
fn grasp_trial_returns_a_proper_coloring() {
    let graph = myciel3();
    let (k, class_list) = grasp_trial(&graph, 2, 2);
    assert_valid(&graph, k, &class_list);
}

#[test]
fn grasp_with_a_single_candidate() {
    let graph = myciel3();
    let (k, class_list) = grasp(&graph, 3, 2, 1);
    assert_valid(&graph, k, &class_list);
}

#[test]
fn grasp_without_edges_uses_one_color() {
    let graph = Graph::new(6);
    let (k, class_list) = grasp(&graph, 2, 2, 2);
    assert_eq!(k, 1);
    assert_valid(&graph, k, &class_list);
    assert_eq!(class_list[0].len(), 6);
}

#[test]
fn grasp_on_a_complete_graph_uses_a_color_for_each_vertex() {
    let graph = complete(5);
    let (k, class_list) = grasp(&graph, 3, 2, 2);
    assert_eq!(k, 5);
    assert_valid(&graph, k, &class_list);
    for class in &class_list {
        assert_eq!(class.len(), 1);
    }
}

#[test]
fn grasp_on_a_triangle_uses_three_colors() {
    let graph = complete(3);
    for _ in 0..20 {
        let (k, class_list) = grasp(&graph, 1, 1, 1);
        assert_eq!(k, 3);
        assert_valid(&graph, k, &class_list);
    }
}

#[test]
fn grasp_on_a_path_uses_two_colors() {
    let graph = path4();
    for _ in 0..20 {
        let (k, class_list) = grasp(&graph, 1, 1, 1);
        assert_eq!(k, 2);
        assert_valid(&graph, k, &class_list);
    }
}

#[test]
fn grasp_on_the_smallest_graphs() {
    let (k, class_list) = grasp(&Graph::new(1), 1, 1, 1);
    assert_eq!((k, class_list), (1, vec![vec![0]]));
    let (k, class_list) = grasp(&Graph::new(0), 1, 1, 1);
    assert_eq!((k, class_list), (0, vec![]));
}
