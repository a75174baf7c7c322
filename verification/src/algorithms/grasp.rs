//! The search itself: independent restarts of construction and improvement,
//! of which the one with the fewest colors is returned.

use crate::algorithms::coloring::{
    classes, color_of, in_class, is_colored, lemma_color_of_member, lemma_color_of_range,
    valid_coloring,
};
use crate::algorithms::conflicts::{forbidden_edges, in_conflict, lemma_no_forbidden_edges};
use crate::algorithms::construction::construction_phase;
use crate::algorithms::improvement::{improve_phase, merge_blocked};
use crate::graph::Graph;
use vstd::prelude::*;

verus! {

/// No list of different numbers below `k` is longer than `k`.
pub proof fn lemma_pigeonhole(holes: Seq<int>, k: nat)
    requires
        holes.no_duplicates(),
        forall|i: int| 0 <= i < holes.len() ==> 0 <= #[trigger] holes[i] < k,
    ensures
        holes.len() <= k,
    decreases k,
{
    if holes.len() > 0 {
        assert(0 <= holes[0] < k);
        let top = k - 1;
        if exists|p: int| 0 <= p < holes.len() && holes[p] == top {
            let p = choose|p: int| 0 <= p < holes.len() && holes[p] == top;
            let rest = holes.remove(p);
            assert forall|i: int| 0 <= i < rest.len() implies 0 <= #[trigger] rest[i] < top by {
                let source = if i < p {
                    i
                } else {
                    i + 1
                };
                assert(rest[i] == holes[source]);
                assert(holes[source] != holes[p]);
            }
            assert(rest.no_duplicates()) by {
                assert forall|i: int, j: int|
                    0 <= i < rest.len() && 0 <= j < rest.len() && i != j implies rest[i]
                    != rest[j] by {
                    let a = if i < p {
                        i
                    } else {
                        i + 1
                    };
                    let b = if j < p {
                        j
                    } else {
                        j + 1
                    };
                    assert(rest[i] == holes[a] && rest[j] == holes[b]);
                }
            }
            lemma_pigeonhole(rest, top as nat);
        } else {
            assert forall|i: int| 0 <= i < holes.len() implies 0 <= #[trigger] holes[i] < top by {}
            lemma_pigeonhole(holes, top as nat);
        }
    }
}

/// In a graph without edges the improvement phase stops only at a single
/// class, which then holds every vertex.
pub proof fn lemma_edgeless_single_class(graph: &Graph, cs: Seq<Seq<usize>>, k: nat)
    requires
        graph.wf(),
        graph.edgeless(),
        graph.order() >= 1,
        valid_coloring(graph, cs, k),
        merge_blocked(graph, cs, k),
    ensures
        k == 1,
        forall|v: int| 0 <= v < graph.order() ==> in_class(cs, 0, v),
{
    assert forall|colors: Seq<usize>| forbidden_edges(graph, colors) == 0 by {
        lemma_no_forbidden_edges(graph, colors);
        assert forall|v: int| !in_conflict(graph, colors, v) by {
            if in_conflict(graph, colors, v) {
                let u = choose|u: int| #[trigger] graph.adjacent(v, u) && colors[u] == colors[v];
            }
        }
    }
    assert forall|v: int| 0 <= v < graph.order() implies in_class(cs, 0, v) && k >= 1 by {
        assert(is_colored(cs, v));
        let c = choose|c: int| in_class(cs, c, v);
        let i = choose|i: int| 0 <= i < cs[c].len() && cs[c][i] == v;
        assert(cs[c].len() > 0);
    }
    assert(is_colored(cs, 0));
}

/// A proper coloring of a complete graph gives every vertex a class of its
/// own, and so has as many classes as the graph has vertices.
pub proof fn lemma_complete_all_singletons(graph: &Graph, cs: Seq<Seq<usize>>, k: nat)
    requires
        graph.wf(),
        graph.complete(),
        valid_coloring(graph, cs, k),
    ensures
        k == graph.order(),
        forall|c: int| 0 <= c < k ==> (#[trigger] cs[c]).len() == 1,
{
    let n = graph.order();
    assert forall|c: int| 0 <= c < cs.len() implies (#[trigger] cs[c]).len() <= 1 by {
        if cs[c].len() >= 2 {
            let u = cs[c][0];
            let v = cs[c][1];
            assert(u != v);
            assert(u < n && v < n);
            assert(graph.adjacent(u as int, v as int));
        }
    }
    let holes = Seq::new(n, |v: int| color_of(cs, v) - 1);
    assert forall|v: int| 0 <= v < n implies 0 <= #[trigger] holes[v] < k && in_class(
        cs,
        holes[v],
        v,
    ) by {
        lemma_color_of_range(cs, v);
        assert(is_colored(cs, v));
        let c = choose|c: int| in_class(cs, c, v);
        lemma_color_of_member(cs, c, v);
        let i = choose|i: int| 0 <= i < cs[c].len() && cs[c][i] == v;
        assert(cs[c].len() > 0);
    }
    assert(holes.no_duplicates()) by {
        assert forall|u: int, v: int| 0 <= u < n && 0 <= v < n && u != v implies holes[u]
            != holes[v] by {
            if holes[u] == holes[v] {
                let c = holes[u];
                assert(in_class(cs, c, u) && in_class(cs, c, v));
                let i = choose|i: int| 0 <= i < cs[c].len() && cs[c][i] == u;
                let j = choose|j: int| 0 <= j < cs[c].len() && cs[c][j] == v;
                assert(cs[c].len() <= 1);
            }
        }
    }
    lemma_pigeonhole(holes, k);
}

/// One restart: a greedy randomized construction followed by the improvement
/// phase. Returns the number of colors and the class list.
pub fn grasp_trial(graph: &Graph, color_iterations: i32, color_list_size: usize) -> (found: (
    usize,
    Vec<Vec<usize>>,
))
    requires
        graph.wf(),
        color_iterations >= 1,
        color_list_size >= 1,
    ensures
        valid_coloring(graph, classes(found.1@), found.0 as nat),
        merge_blocked(graph, classes(found.1@), found.0 as nat),
{
    let built = construction_phase(graph, color_iterations, color_list_size);
    assert(valid_coloring(graph, classes(built.1@), built.0 as nat));
    let mut num_color_classes = built.0;
    let mut class_list = built.1;
    improve_phase(graph, &mut num_color_classes, &mut class_list);
    (num_color_classes, class_list)
}

/// Replaces the best coloring kept so far by the coloring of a later restart
/// if that one has strictly fewer colors. Returns whether it was replaced.
pub fn keep_better(
    num_colors: &mut usize,
    best_class_list: &mut Vec<Vec<usize>>,
    num_color_classes: usize,
    class_list: Vec<Vec<usize>>,
) -> (replaced: bool)
    ensures
        replaced == (num_color_classes < *old(num_colors)),
        *final(num_colors) <= *old(num_colors),
        replaced ==> *final(num_colors) == num_color_classes && *final(best_class_list)
            == class_list,
        !replaced ==> *final(num_colors) == *old(num_colors) && *final(best_class_list) == *old(
            best_class_list,
        ),
{
    if num_color_classes < *num_colors {
        *best_class_list = class_list;
        *num_colors = num_color_classes;
        true
    } else {
        false
    }
}

/// Colors `graph` with few colors: runs `grasp_iterations` independent
/// restarts and returns the number of colors and the class list of the
/// restart with the fewest colors, the earliest such on a tie.
///
/// The class list has one slot for each vertex; the classes of the colors in
/// use come first and the remaining slots are empty. Every vertex stands in
/// exactly one class, and no class holds two adjacent vertices. The
/// improvement phase of the restart that is returned ended because fewer than
/// two classes were left or the merge of its two smallest classes has a
/// forbidden edge. A graph without edges gets one color and a complete graph
/// one color for each vertex.
pub fn grasp(
    graph: &Graph,
    grasp_iterations: i32,
    color_iterations: i32,
    color_list_size: usize,
) -> (best: (usize, Vec<Vec<usize>>))
    requires
        graph.wf(),
        grasp_iterations >= 1,
        color_iterations >= 1,
        color_list_size >= 1,
    ensures
        valid_coloring(graph, classes(best.1@), best.0 as nat),
        merge_blocked(graph, classes(best.1@), best.0 as nat),
        graph.edgeless() && graph.order() >= 1 ==> best.0 == 1,
        graph.complete() ==> best.0 == graph.order(),
{
    let first = grasp_trial(graph, color_iterations, color_list_size);
    let mut num_colors = first.0;
    let mut best_class_list = first.1;
    let mut restart: i32 = 1;
    while restart < grasp_iterations
        invariant
            graph.wf(),
            color_iterations >= 1,
            color_list_size >= 1,
            1 <= restart,
            valid_coloring(graph, classes(best_class_list@), num_colors as nat),
            merge_blocked(graph, classes(best_class_list@), num_colors as nat),
        decreases grasp_iterations - restart,
    {
        let found = grasp_trial(graph, color_iterations, color_list_size);
        keep_better(&mut num_colors, &mut best_class_list, found.0, found.1);
        restart += 1;
    }
    proof {
        let cs = classes(best_class_list@);
        if graph.edgeless() && graph.order() >= 1 {
            lemma_edgeless_single_class(graph, cs, num_colors as nat);
        }
        if graph.complete() {
            lemma_complete_all_singletons(graph, cs, num_colors as nat);
        }
    }
    (num_colors, best_class_list)
}

} // verus!
