//! Forbidden edges: edges whose two ends carry the same color.

use crate::algorithms::coloring::{
    color_of, coloring, forbidden_at, in_class, is_colored, legal, lemma_color_of_member,
    lemma_color_of_range, lemma_coloring_entry, partitions, proper, same_colored_below,
    valid_coloring,
};
use crate::graph::Graph;
use vstd::prelude::*;

verus! {

/// The number of forbidden edges among the vertices below `bound`, each edge
/// counted once, at its greater end.
pub open spec fn conflicts_below(graph: &Graph, colors: Seq<usize>, bound: nat) -> nat
    decreases bound,
{
    if bound == 0 {
        0
    } else {
        conflicts_below(graph, colors, (bound - 1) as nat) + same_colored_below(
            graph,
            colors,
            bound - 1,
            (bound - 1) as nat,
        )
    }
}

/// The number of forbidden edges of the graph under `colors`.
pub open spec fn forbidden_edges(graph: &Graph, colors: Seq<usize>) -> nat {
    conflicts_below(graph, colors, graph.order())
}

/// Whether `v` is an end of a forbidden edge.
pub open spec fn in_conflict(graph: &Graph, colors: Seq<usize>, v: int) -> bool {
    exists|u: int| #[trigger] graph.adjacent(v, u) && colors[u] == colors[v]
}

/// The vertices that are an end of a forbidden edge.
pub open spec fn forbidden_set(graph: &Graph, colors: Seq<usize>) -> Set<usize> {
    Set::new(|v: usize| in_conflict(graph, colors, v as int))
}

/// A vertex has no same-colored neighbour below `bound` exactly when its
/// count there is zero.
pub proof fn lemma_same_colored_zero(graph: &Graph, colors: Seq<usize>, v: int, bound: nat)
    ensures
        same_colored_below(graph, colors, v, bound) == 0 <==> forall|u: int|
            0 <= u < bound && #[trigger] graph.adjacent(v, u) ==> colors[u] != colors[v],
    decreases bound,
{
    if bound > 0 {
        lemma_same_colored_zero(graph, colors, v, (bound - 1) as nat);
    }
}

/// No edge is forbidden among the vertices below `bound` exactly when no two
/// adjacent vertices there share a color.
pub proof fn lemma_conflicts_zero(graph: &Graph, colors: Seq<usize>, bound: nat)
    ensures
        conflicts_below(graph, colors, bound) == 0 <==> forall|v: int, u: int|
            0 <= u < v < bound && #[trigger] graph.adjacent(v, u) ==> colors[u] != colors[v],
    decreases bound,
{
    if bound > 0 {
        lemma_conflicts_zero(graph, colors, (bound - 1) as nat);
        lemma_same_colored_zero(graph, colors, bound - 1, (bound - 1) as nat);
    }
}

/// The forbidden-edge count is zero exactly when no vertex is in conflict.
pub proof fn lemma_no_forbidden_edges(graph: &Graph, colors: Seq<usize>)
    requires
        graph.wf(),
    ensures
        forbidden_edges(graph, colors) == 0 <==> forall|v: int| !in_conflict(graph, colors, v),
{
    let n = graph.order();
    lemma_conflicts_zero(graph, colors, n);
    if forbidden_edges(graph, colors) == 0 {
        assert forall|v: int| !in_conflict(graph, colors, v) by {
            if in_conflict(graph, colors, v) {
                let u = choose|u: int| #[trigger] graph.adjacent(v, u) && colors[u] == colors[v];
                assert(graph@[v][u] == graph@[u][v]);
                assert(graph@[v].len() == n && graph@[u].len() == n);
                assert(!graph@[v][v]);
                if u < v {
                    assert(graph.adjacent(v, u));
                } else {
                    assert(graph.adjacent(u, v));
                }
            }
        }
    } else {
        let (v, u) = choose|v: int, u: int|
            0 <= u < v < n && #[trigger] graph.adjacent(v, u) && colors[u] == colors[v];
        assert(in_conflict(graph, colors, v));
    }
}

/// Recoloring `v` changes the count of another vertex `w` only through the
/// edge between them.
pub proof fn lemma_recolor_elsewhere(
    graph: &Graph,
    colors: Seq<usize>,
    v: int,
    color: usize,
    w: int,
    bound: nat,
)
    requires
        0 <= v < colors.len(),
        0 <= w < colors.len(),
        w != v,
        bound <= colors.len(),
    ensures
        same_colored_below(graph, colors.update(v, color), w, bound) + (if v < bound
            && graph.adjacent(w, v) && colors[v] == colors[w] {
            1nat
        } else {
            0nat
        }) == same_colored_below(graph, colors, w, bound) + (if v < bound && graph.adjacent(w, v)
            && color == colors[w] {
            1nat
        } else {
            0nat
        }),
    decreases bound,
{
    if bound > 0 {
        lemma_recolor_elsewhere(graph, colors, v, color, w, (bound - 1) as nat);
    }
}

/// Recoloring `v` changes the number of forbidden edges below `bound` by the
/// change in the number of same-colored neighbours of `v` there.
pub proof fn lemma_recolor_conflicts(
    graph: &Graph,
    colors: Seq<usize>,
    v: int,
    color: usize,
    bound: nat,
)
    requires
        graph.wf(),
        colors.len() == graph.order(),
        0 <= v < colors.len(),
        bound <= colors.len(),
    ensures
        bound <= v ==> conflicts_below(graph, colors.update(v, color), bound) == conflicts_below(
            graph,
            colors,
            bound,
        ),
        bound > v ==> conflicts_below(graph, colors.update(v, color), bound) + same_colored_below(
            graph,
            colors,
            v,
            bound,
        ) == conflicts_below(graph, colors, bound) + same_colored_below(
            graph,
            colors.update(v, color),
            v,
            bound,
        ),
    decreases bound,
{
    if bound > 0 {
        let m = (bound - 1) as nat;
        let recolored = colors.update(v, color);
        lemma_recolor_conflicts(graph, colors, v, color, m);
        if m != v {
            lemma_recolor_elsewhere(graph, colors, v, color, m as int, m);
        }
        if m > v {
            assert(graph@[v].len() == graph.order() && graph@[m as int].len() == graph.order());
            assert(graph@[v][m as int] == graph@[m as int][v]);
            assert(graph.adjacent(v, m as int) == graph.adjacent(m as int, v));
        }
        if m == v {
            assert(!graph@[v][v]);
            assert(!graph.adjacent(v, v));
        }
    }
}

/// Recoloring one vertex changes the number of forbidden edges by the change
/// in the number of its same-colored neighbours.
pub proof fn lemma_recolor_forbidden_edges(
    graph: &Graph,
    colors: Seq<usize>,
    v: int,
    color: usize,
)
    requires
        graph.wf(),
        colors.len() == graph.order(),
        0 <= v < colors.len(),
    ensures
        forbidden_edges(graph, colors.update(v, color)) + forbidden_at(graph, colors, v)
            == forbidden_edges(graph, colors) + forbidden_at(graph, colors.update(v, color), v),
{
    lemma_recolor_conflicts(graph, colors, v, color, graph.order());
}

/// A coloring without uncolored vertices is legal exactly when it has no
/// forbidden edge.
pub proof fn lemma_legal_iff_no_forbidden_edges(graph: &Graph, colors: Seq<usize>)
    requires
        graph.wf(),
        forall|v: int| 0 <= v < graph.order() ==> colors[v] != 0,
    ensures
        legal(graph, colors) <==> forbidden_edges(graph, colors) == 0,
{
    lemma_no_forbidden_edges(graph, colors);
    if forbidden_edges(graph, colors) == 0 {
        assert forall|u: int, v: int| #[trigger] graph.adjacent(u, v) implies colors[u] != colors[v]
            && colors[u] != 0 by {
            assert(!in_conflict(graph, colors, u));
        }
    }
}

/// A class list in which every vertex occurs exactly once is proper exactly
/// when its coloring has no forbidden edge.
pub proof fn lemma_proper_iff_no_forbidden_edges(graph: &Graph, cs: Seq<Seq<usize>>)
    requires
        graph.wf(),
        partitions(cs, graph.order()),
        cs.len() <= usize::MAX,
    ensures
        proper(graph, cs) <==> forbidden_edges(graph, coloring(graph.order(), cs)) == 0,
{
    let n = graph.order();
    let colors = coloring(n, cs);
    lemma_no_forbidden_edges(graph, colors);
    if forbidden_edges(graph, colors) == 0 {
        assert forall|c: int, i: int, j: int|
            0 <= c < cs.len() && 0 <= i < cs[c].len() && 0 <= j < cs[c].len() implies !graph.adjacent(
            #[trigger] cs[c][i] as int,
            #[trigger] cs[c][j] as int,
        ) by {
            let u = cs[c][i] as int;
            let v = cs[c][j] as int;
            if graph.adjacent(u, v) {
                assert(in_class(cs, c, u) && in_class(cs, c, v));
                lemma_color_of_member(cs, c, u);
                lemma_color_of_member(cs, c, v);
                lemma_coloring_entry(n, cs, u);
                lemma_coloring_entry(n, cs, v);
                assert(in_conflict(graph, colors, u));
            }
        }
    }
    if proper(graph, cs) {
        assert forall|v: int| !in_conflict(graph, colors, v) by {
            if in_conflict(graph, colors, v) {
                let u = choose|u: int| #[trigger] graph.adjacent(v, u) && colors[u] == colors[v];
                lemma_coloring_entry(n, cs, u);
                lemma_coloring_entry(n, cs, v);
                lemma_color_of_range(cs, u);
                lemma_color_of_range(cs, v);
                assert(is_colored(cs, v));
                let c = color_of(cs, v) - 1;
                assert(in_class(cs, c, v) && in_class(cs, c, u));
                let i = choose|i: int| 0 <= i < cs[c].len() && cs[c][i] == v;
                let j = choose|j: int| 0 <= j < cs[c].len() && cs[c][j] == u;
                assert(!graph.adjacent(cs[c][i] as int, cs[c][j] as int));
            }
        }
    }
}

/// The coloring that a proper class list describes is legal: the two ends of
/// every edge are colored, and differently.
pub proof fn lemma_valid_coloring_is_legal(graph: &Graph, cs: Seq<Seq<usize>>, k: nat)
    requires
        graph.wf(),
        valid_coloring(graph, cs, k),
    ensures
        legal(graph, coloring(graph.order(), cs)),
        forbidden_edges(graph, coloring(graph.order(), cs)) == 0,
{
    let n = graph.order();
    let colors = coloring(n, cs);
    graph.lemma_order_fits();
    lemma_proper_iff_no_forbidden_edges(graph, cs);
    assert forall|v: int| 0 <= v < n implies colors[v] != 0 by {
        assert(is_colored(cs, v));
        lemma_color_of_range(cs, v);
        lemma_coloring_entry(n, cs, v);
    }
    lemma_legal_iff_no_forbidden_edges(graph, colors);
}

} // verus!
