//! Local search: repairing an improper class list by moving single vertices
//! to a color with fewer conflicts.

use crate::algorithms::coloring::{
    classes, color_of, coloring, count_forbidden_per_vertex, distinct_entries, entries_below,
    forbidden_at, get_coloring_from_class_list, in_class, is_colored, lemma_color_of_member,
    lemma_color_of_range, lemma_coloring_entry, same_colored_below,
};
use crate::algorithms::conflicts::{
    conflicts_below, forbidden_edges, forbidden_set, in_conflict, lemma_no_forbidden_edges,
    lemma_recolor_forbidden_edges, lemma_same_colored_zero,
};
use crate::algorithms::random::pick_at_random;
use crate::graph::{rows_of, Graph};
use crate::lists::occurs_in;
use std::collections::HashSet;
use vstd::prelude::*;

verus! {

broadcast use vstd::std_specs::hash::group_hash_axioms;

/// Whether the pair of `a` and `b` comes before row `row`, column `column`
/// when the pairs below the diagonal are walked row by row.
pub open spec fn pair_walked(a: int, b: int, row: int, column: int) -> bool {
    (b < a && (a < row || (a == row && b < column))) || (a < b && (b < row || (b == row && a
        < column)))
}

/// Whether `v` is an end of a forbidden edge among the pairs walked so far.
pub open spec fn conflict_walked(
    graph: &Graph,
    colors: Seq<usize>,
    v: int,
    row: int,
    column: int,
) -> bool {
    exists|u: int| #[trigger]
        graph.adjacent(v, u) && colors[u] == colors[v] && pair_walked(v, u, row, column)
}

/// The number of forbidden edges under the coloring that `class_list`
/// describes, and the set of their ends.
pub fn get_forbidden(graph: &Graph, class_list: &[Vec<usize>]) -> (forbidden: (
    usize,
    HashSet<usize>,
))
    requires
        graph.wf(),
        entries_below(classes(class_list@), graph.order()),
    ensures
        forbidden.0 == forbidden_edges(graph, coloring(graph.order(), classes(class_list@))),
        forbidden.1@ == forbidden_set(graph, coloring(graph.order(), classes(class_list@))),
{
    let n = graph.num_vertices();
    let matrix = graph.adjacency_matrix();
    let colors = get_coloring_from_class_list(n, class_list);
    let mut count: usize = 0;
    let mut ends: HashSet<usize> = HashSet::new();
    let mut j: usize = 0;
    while j < n
        invariant
            j <= n,
            n == graph.order(),
            graph.wf(),
            rows_of(matrix) == graph@,
            colors@.len() == n,
            count == conflicts_below(graph, colors@, j as nat),
            count <= j * n,
            forall|x: usize|
                ends@.contains(x) <==> conflict_walked(graph, colors@, x as int, j as int, 0),
        decreases n - j,
    {
        let mut i: usize = 0;
        assert(matrix@[j as int]@ == graph@[j as int]);
        assert(graph@[j as int].len() == n);
        while i < j
            invariant
                i <= j,
                j < n,
                n == graph.order(),
                graph.wf(),
                rows_of(matrix) == graph@,
                matrix@[j as int]@ == graph@[j as int],
                graph@[j as int].len() == n,
                colors@.len() == n,
                count == conflicts_below(graph, colors@, j as nat) + same_colored_below(
                    graph,
                    colors@,
                    j as int,
                    i as nat,
                ),
                count <= j * n + i,
                forall|x: usize|
                    ends@.contains(x) <==> conflict_walked(
                        graph,
                        colors@,
                        x as int,
                        j as int,
                        i as int,
                    ),
            decreases j - i,
        {
            assert(j * n + n <= n * n) by (nonlinear_arith)
                requires
                    j < n,
            ;
            let ghost before = ends@;
            if matrix[j][i] && colors[i] == colors[j] {
                count += 1;
                ends.insert(i);
                ends.insert(j);
            }
            proof {
                let cs = colors@;
                let hit = graph.adjacent(j as int, i as int) && cs[i as int] == cs[j as int];
                assert(graph@[i as int].len() == n);
                assert(graph@[j as int][i as int] == graph@[i as int][j as int]);
                assert forall|x: usize| ends@.contains(x) <==> conflict_walked(
                    graph,
                    cs,
                    x as int,
                    j as int,
                    i + 1,
                ) by {
                    if conflict_walked(graph, cs, x as int, j as int, i as int) {
                        let u = choose|u: int| #[trigger]
                            graph.adjacent(x as int, u) && cs[u] == cs[x as int] && pair_walked(
                                x as int,
                                u,
                                j as int,
                                i as int,
                            );
                        assert(pair_walked(x as int, u, j as int, i + 1));
                    }
                    if hit && x == i {
                        assert(graph.adjacent(i as int, j as int));
                        assert(pair_walked(i as int, j as int, j as int, i + 1));
                    }
                    if hit && x == j {
                        assert(pair_walked(j as int, i as int, j as int, i + 1));
                    }
                    if conflict_walked(graph, cs, x as int, j as int, i + 1) {
                        let u = choose|u: int| #[trigger]
                            graph.adjacent(x as int, u) && cs[u] == cs[x as int] && pair_walked(
                                x as int,
                                u,
                                j as int,
                                i + 1,
                            );
                        if !pair_walked(x as int, u, j as int, i as int) {
                            assert((x == j && u == i) || (x == i && u == j));
                        }
                    }
                }
            }
            i += 1;
        }
        proof {
            let cs = colors@;
            assert forall|x: usize| ends@.contains(x) <==> conflict_walked(
                graph,
                cs,
                x as int,
                j + 1,
                0,
            ) by {
                if conflict_walked(graph, cs, x as int, j as int, j as int) {
                    let u = choose|u: int| #[trigger]
                        graph.adjacent(x as int, u) && cs[u] == cs[x as int] && pair_walked(
                            x as int,
                            u,
                            j as int,
                            j as int,
                        );
                    assert(pair_walked(x as int, u, j + 1, 0));
                }
                if conflict_walked(graph, cs, x as int, j + 1, 0) {
                    let u = choose|u: int| #[trigger]
                        graph.adjacent(x as int, u) && cs[u] == cs[x as int] && pair_walked(
                            x as int,
                            u,
                            j + 1,
                            0,
                        );
                    assert(pair_walked(x as int, u, j as int, j as int));
                }
            }
            assert(j * n + j <= (j + 1) * n) by (nonlinear_arith)
                requires
                    j < n,
            ;
        }
        j += 1;
    }
    proof {
        let cs = colors@;
        assert forall|x: usize| ends@.contains(x) <==> in_conflict(graph, cs, x as int) by {
            if conflict_walked(graph, cs, x as int, n as int, 0) {
                let u = choose|u: int| #[trigger]
                    graph.adjacent(x as int, u) && cs[u] == cs[x as int] && pair_walked(
                        x as int,
                        u,
                        n as int,
                        0,
                    );
                assert(in_conflict(graph, cs, x as int));
            }
            if in_conflict(graph, cs, x as int) {
                let u = choose|u: int| #[trigger]
                    graph.adjacent(x as int, u) && cs[u] == cs[x as int];
                assert(!graph@[u][u]);
                assert(pair_walked(x as int, u, n as int, 0));
            }
        }
        assert(ends@ =~= forbidden_set(graph, cs));
    }
    (count, ends)
}

/// The number of same-colored neighbours that `v` would have with the color
/// `color`, all other vertices keeping theirs.
pub open spec fn count_with(graph: &Graph, colors: Seq<usize>, v: int, color: usize) -> nat {
    forbidden_at(graph, colors.update(v, color), v)
}

/// Whether `best` is the color that the scan for `v` settles on: the color
/// with the fewest same-colored neighbours among the present color of `v` and
/// the colors `1..=num_colors`, where the present color wins every tie and an
/// earlier color wins a tie against a later one.
pub open spec fn is_best_color(
    graph: &Graph,
    colors: Seq<usize>,
    v: int,
    num_colors: nat,
    best: usize,
) -> bool {
    let count = count_with(graph, colors, v, best);
    &&& best == colors[v] || 1 <= best <= num_colors
    &&& count <= forbidden_at(graph, colors, v)
    &&& forall|i: usize|
        1 <= i <= num_colors ==> count <= #[trigger] count_with(graph, colors, v, i)
    &&& best != colors[v] ==> count < forbidden_at(graph, colors, v) && forall|i: usize|
        1 <= i < best ==> count < #[trigger] count_with(graph, colors, v, i)
}

/// Scans the colors `1..=num_colors` for the one that leaves `vertex` with
/// the fewest same-colored neighbours, and returns it with that number.
pub fn best_color(
    graph: &Graph,
    colors: &mut Vec<usize>,
    vertex: usize,
    num_colors: usize,
) -> (best: (usize, usize))
    requires
        graph.wf(),
        old(colors)@.len() == graph.order(),
        vertex < graph.order(),
    ensures
        final(colors)@ == old(colors)@,
        is_best_color(graph, old(colors)@, vertex as int, num_colors as nat, best.0),
        best.1 == count_with(graph, old(colors)@, vertex as int, best.0),
{
    let ghost given = colors@;
    let present_color = colors[vertex];
    let present_count = count_forbidden_per_vertex(graph, colors.as_slice(), vertex);
    let mut best_count = present_count;
    let mut best_color = present_color;
    let mut i: usize = 0;
    assert(given.update(vertex as int, present_color) == given);
    while i < num_colors
        invariant
            i <= num_colors,
            graph.wf(),
            vertex < graph.order(),
            given.len() == graph.order(),
            colors@.len() == given.len(),
            forall|w: int| 0 <= w < given.len() && w != vertex ==> colors@[w] == given[w],
            present_color == given[vertex as int],
            present_count == forbidden_at(graph, given, vertex as int),
            best_count == count_with(graph, given, vertex as int, best_color),
            is_best_color(graph, given, vertex as int, i as nat, best_color),
        decreases num_colors - i,
    {
        i += 1;
        colors[vertex] = i;
        assert(colors@ == given.update(vertex as int, i));
        let new_count = count_forbidden_per_vertex(graph, colors.as_slice(), vertex);
        if new_count < best_count {
            best_count = new_count;
            best_color = i;
        }
    }
    colors[vertex] = present_color;
    assert(colors@ == given);
    (best_color, best_count)
}

/// The class list in which `v` has left the class at index `from` and stands
/// at the end of the class at index `to`.
pub open spec fn move_member(cs: Seq<Seq<usize>>, v: usize, from: int, to: int) -> Seq<
    Seq<usize>,
> {
    let taken = cs.update(from, cs[from].remove_value(v));
    taken.update(to, taken[to].push(v))
}

/// What a move does to a class list in which no vertex occurs twice: the
/// moved vertex is a member of its new class alone, every other vertex stays
/// where it was, and the coloring changes at the moved vertex only.
pub proof fn lemma_move_member(cs: Seq<Seq<usize>>, n: nat, v: usize, from: int, to: int)
    requires
        entries_below(cs, n),
        distinct_entries(cs),
        in_class(cs, from, v as int),
        0 <= to < cs.len(),
        to != from,
        cs.len() <= usize::MAX,
    ensures
        move_member(cs, v, from, to).len() == cs.len(),
        entries_below(move_member(cs, v, from, to), n),
        distinct_entries(move_member(cs, v, from, to)),
        forall|c: int, w: int|
            in_class(move_member(cs, v, from, to), c, w) == (if w == v {
                c == to
            } else {
                in_class(cs, c, w)
            }),
        forall|w: int| is_colored(move_member(cs, v, from, to), w) == is_colored(cs, w),
        v < n ==> coloring(n, move_member(cs, v, from, to)) == coloring(n, cs).update(
            v as int,
            (to + 1) as usize,
        ),
        forall|c: int|
            0 <= c < cs.len() && c != from ==> move_member(cs, v, from, to)[c].len()
                >= cs[c].len(),
{
    let moved = move_member(cs, v, from, to);
    let source = cs[from];
    let p = choose|p: int| 0 <= p < source.len() && source[p] == v;
    source.index_of_first_ensures(v);
    let first = source.index_of_first(v);
    assert(first == Some(p)) by {
        if first is None {
            assert(source.contains(v));
        } else {
            assert(source[first.unwrap()] == source[p]);
        }
    }
    assert(moved[from] == source.remove(p));
    assert(moved[to] == cs[to].push(v));
    assert(forall|c: int| 0 <= c < cs.len() && c != from && c != to ==> moved[c] == cs[c]);
    assert forall|k: int| 0 <= k < moved[from].len() implies #[trigger] moved[from][k] == source[if k
        < p {
        k
    } else {
        k + 1
    }] by {}
    assert forall|c: int, w: int|
        in_class(moved, c, w) == (if w == v {
            c == to
        } else {
            in_class(cs, c, w)
        }) by {
        if 0 <= c < cs.len() {
            if c == from {
                if occurs_in(moved[c], w) {
                    let k = choose|k: int| 0 <= k < moved[c].len() && moved[c][k] == w;
                    let k0 = if k < p {
                        k
                    } else {
                        k + 1
                    };
                    assert(source[k0] == w);
                    assert(source[k0] == source[p] ==> k0 == p);
                }
                if occurs_in(source, w) && w != v {
                    let k0 = choose|k0: int| 0 <= k0 < source.len() && source[k0] == w;
                    let k = if k0 < p {
                        k0
                    } else {
                        k0 - 1
                    };
                    assert(moved[c][k] == w);
                }
            } else if c == to {
                if occurs_in(moved[c], w) && w != v {
                    let k = choose|k: int| 0 <= k < moved[c].len() && moved[c][k] == w;
                    assert(cs[c][k] == w);
                }
                if occurs_in(cs[c], w) {
                    let k = choose|k: int| 0 <= k < cs[c].len() && cs[c][k] == w;
                    assert(moved[c][k] == w);
                    assert(cs[c][k] == source[p] ==> c == from);
                }
                assert(moved[c][cs[c].len() as int] == v);
            } else {
                if occurs_in(cs[c], w) {
                    let k = choose|k: int| 0 <= k < cs[c].len() && cs[c][k] == w;
                    assert(cs[c][k] == source[p] ==> c == from);
                }
            }
        }
    }
    assert forall|c: int, i: int|
        0 <= c < moved.len() && 0 <= i < moved[c].len() implies #[trigger] moved[c][i] < n by {
        if c == from {
            assert(moved[c][i] == source[if i < p { i } else { i + 1 }]);
        } else if c == to {
            if i < cs[c].len() {
                assert(moved[c][i] == cs[c][i]);
            } else {
                assert(moved[c][i] == source[p]);
            }
        } else {
            assert(moved[c][i] == cs[c][i]);
        }
    }
    assert forall|c: int, i: int, d: int, j: int|
        0 <= c < moved.len() && 0 <= i < moved[c].len() && 0 <= d < moved.len() && 0 <= j
            < moved[d].len() && #[trigger] moved[c][i] == #[trigger] moved[d][j] implies c == d
            && i == j by {
        let (c0, i0) = if c == from {
            (c, if i < p { i } else { i + 1 })
        } else if c == to && i == cs[c].len() {
            (from, p)
        } else {
            (c, i)
        };
        let (d0, j0) = if d == from {
            (d, if j < p { j } else { j + 1 })
        } else if d == to && j == cs[d].len() {
            (from, p)
        } else {
            (d, j)
        };
        assert(moved[c][i] == cs[c0][i0]);
        assert(moved[d][j] == cs[d0][j0]);
        assert(cs[c0][i0] == cs[d0][j0]);
    }
    assert forall|w: int| is_colored(moved, w) == is_colored(cs, w) by {
        if is_colored(moved, w) {
            let c = choose|c: int| in_class(moved, c, w);
            if w == v {
                assert(in_class(cs, from, w));
            } else {
                assert(in_class(cs, c, w));
            }
        }
        if is_colored(cs, w) {
            let c = choose|c: int| in_class(cs, c, w);
            if w == v {
                assert(in_class(moved, to, w));
            } else {
                assert(in_class(moved, c, w));
            }
        }
    }
    if v < n {
        let before = coloring(n, cs);
        let after = coloring(n, moved);
        assert forall|w: int| 0 <= w < n implies after[w] == before.update(
            v as int,
            (to + 1) as usize,
        )[w] by {
            lemma_color_of_range(cs, w);
            lemma_color_of_range(moved, w);
            if w == v {
                assert(in_class(moved, to, w));
                lemma_color_of_member(moved, to, w);
            } else if color_of(cs, w) > 0 {
                let c = color_of(cs, w) - 1;
                assert(in_class(moved, c, w));
                lemma_color_of_member(moved, c, w);
            } else {
                if color_of(moved, w) > 0 {
                    assert(in_class(cs, color_of(moved, w) - 1, w));
                }
            }
        }
        assert(after =~= before.update(v as int, (to + 1) as usize));
    }
}

/// The index at which `vertex` stands in `class`.
fn position_of(class: &Vec<usize>, vertex: usize) -> (position: usize)
    requires
        occurs_in(class@, vertex as int),
    ensures
        position < class@.len(),
        class@[position as int] == vertex,
        forall|k: int| 0 <= k < position ==> class@[k] != vertex,
{
    let len = class.len();
    let mut position: usize = 0;
    while class[position] != vertex
        invariant
            position < len,
            len == class@.len(),
            occurs_in(class@, vertex as int),
            forall|k: int| 0 <= k < position ==> class@[k] != vertex,
        decreases class@.len() - position,
    {
        proof {
            let k = choose|k: int| 0 <= k < class@.len() && class@[k] == vertex;
            assert(k > position);
        }
        position += 1;
    }
    position
}

/// Moves `vertex` to the color that leaves it with the fewest same-colored
/// neighbours, if that is an improvement, and returns the color it moved to.
///
/// The colors `1..=class_list.len()` are tried; `vertex` keeps its color, and
/// `None` is returned, unless one of them gives strictly fewer same-colored
/// neighbours than it has now.
pub fn recolor_vertex(graph: &Graph, class_list: &mut Vec<Vec<usize>>, vertex: usize) -> (target:
    Option<usize>)
    requires
        graph.wf(),
        entries_below(classes(old(class_list)@), graph.order()),
        distinct_entries(classes(old(class_list)@)),
        vertex < graph.order(),
        is_colored(classes(old(class_list)@), vertex as int),
    ensures
        ({
            let before = classes(old(class_list)@);
            let colors = coloring(graph.order(), before);
            match target {
                Some(color) => {
                    &&& color != colors[vertex as int]
                    &&& is_best_color(graph, colors, vertex as int, before.len(), color)
                    &&& classes(final(class_list)@) == move_member(
                        before,
                        vertex,
                        colors[vertex as int] - 1,
                        color - 1,
                    )
                },
                None => {
                    &&& is_best_color(
                        graph,
                        colors,
                        vertex as int,
                        before.len(),
                        colors[vertex as int],
                    )
                    &&& final(class_list)@ == old(class_list)@
                },
            }
        }),
{
    let n = graph.num_vertices();
    let ghost before = classes(class_list@);
    let mut colors = get_coloring_from_class_list(n, class_list.as_slice());
    let ghost given = colors@;
    let present_color = colors[vertex];
    let present_count = count_forbidden_per_vertex(graph, colors.as_slice(), vertex);
    let best = best_color(graph, &mut colors, vertex, class_list.len());
    proof {
        lemma_color_of_range(before, vertex as int);
        assert(given.update(vertex as int, present_color) == given);
    }
    if best.1 < present_count {
        let from = present_color - 1;
        let to = best.0 - 1;
        assert(class_list@[from as int]@ == before[from as int]);
        let position = position_of(&class_list[from], vertex);
        proof {
            let source = before[from as int];
            source.index_of_first_ensures(vertex);
            let first = source.index_of_first(vertex);
            assert(first == Some(position as int)) by {
                if first is None {
                    assert(source.contains(vertex));
                }
            }
        }
        class_list[from].remove(position);
        class_list[to].push(vertex);
        assert(classes(class_list@) =~= move_member(before, vertex, from as int, to as int));
        Some(best.0)
    } else {
        None
    }
}

/// Every edge has an end that is a member of some class.
pub open spec fn edges_touch_colored(graph: &Graph, cs: Seq<Seq<usize>>) -> bool {
    forall|u: int, v: int| #[trigger]
        graph.adjacent(u, v) ==> is_colored(cs, u) || is_colored(cs, v)
}

/// Whether `v` is an end of a forbidden edge that no color `1..=num_colors`
/// would leave with fewer same-colored neighbours than it has.
pub open spec fn is_stuck(graph: &Graph, colors: Seq<usize>, v: int, num_colors: nat) -> bool {
    in_conflict(graph, colors, v) && is_best_color(graph, colors, v, num_colors, colors[v])
}

/// The members of `set` below `n`, in ascending order.
fn members_below(set: &HashSet<usize>, n: usize) -> (members: Vec<usize>)
    ensures
        forall|k: int|
            0 <= k < members@.len() ==> (#[trigger] members@[k]) < n && set@.contains(members@[k]),
        forall|v: usize| v < n && set@.contains(v) ==> occurs_in(members@, v as int),
{
    let mut members: Vec<usize> = Vec::new();
    let mut v: usize = 0;
    while v < n
        invariant
            v <= n,
            forall|k: int|
                0 <= k < members@.len() ==> (#[trigger] members@[k]) < v && set@.contains(
                    members@[k],
                ),
            forall|w: usize| w < v && set@.contains(w) ==> occurs_in(members@, w as int),
        decreases n - v,
    {
        if set.contains(&v) {
            let ghost earlier = members@;
            members.push(v);
            proof {
                assert(members@[earlier.len() as int] == v);
                assert forall|w: usize| w < v + 1 && set@.contains(w) implies occurs_in(
                    members@,
                    w as int,
                ) by {
                    if w < v {
                        let k = choose|k: int| 0 <= k < earlier.len() && earlier[k] == w;
                        assert(members@[k] == w);
                    }
                }
            }
        }
        v += 1;
    }
    members
}

/// Tries to repair an improper class list: as long as forbidden edges remain,
/// a random end of one is moved to the color that leaves it with the fewest
/// same-colored neighbours, and the search gives up after `n / 2` draws in a
/// row that improve nothing. Returns the number of forbidden edges left.
///
/// Vertices only change class: no class gains or loses a vertex otherwise,
/// no inhabited class is emptied, and the number of forbidden edges never
/// grows. A list without forbidden edges is left as it is. Where edges stay
/// forbidden in a graph of two or more vertices, the last draw found a
/// vertex in conflict that no recoloring improves.
pub fn local_search(graph: &Graph, class_list: &mut Vec<Vec<usize>>) -> (remaining: usize)
    requires
        graph.wf(),
        entries_below(classes(old(class_list)@), graph.order()),
        distinct_entries(classes(old(class_list)@)),
        edges_touch_colored(graph, classes(old(class_list)@)),
    ensures
        remaining == forbidden_edges(
            graph,
            coloring(graph.order(), classes(final(class_list)@)),
        ),
        remaining <= forbidden_edges(graph, coloring(graph.order(), classes(old(class_list)@))),
        forbidden_edges(graph, coloring(graph.order(), classes(old(class_list)@))) == 0
            ==> final(class_list)@ == old(class_list)@,
        final(class_list)@.len() == old(class_list)@.len(),
        entries_below(classes(final(class_list)@), graph.order()),
        distinct_entries(classes(final(class_list)@)),
        forall|v: int|
            is_colored(classes(final(class_list)@), v) == is_colored(
                classes(old(class_list)@),
                v,
            ),
        forall|c: int|
            0 <= c < old(class_list)@.len() && old(class_list)@[c]@.len() > 0 ==> (
            #[trigger] final(class_list)@[c])@.len() > 0,
        remaining > 0 && graph.order() >= 2 ==> exists|v: int| #[trigger]
            is_stuck(
                graph,
                coloring(graph.order(), classes(final(class_list)@)),
                v,
                final(class_list)@.len(),
            ),
{
    let n = graph.num_vertices();
    let ceiling = n / 2;
    let ghost given = classes(class_list@);
    let found = get_forbidden(graph, class_list.as_slice());
    let mut forbidden_count = found.0;
    let mut forbidden_vertices = members_below(&found.1, n);
    let mut no_improvement: usize = 0;
    while forbidden_count > 0 && no_improvement < ceiling
        invariant
            graph.wf(),
            n == graph.order(),
            ceiling == n / 2,
            no_improvement <= ceiling,
            given == classes(old(class_list)@),
            class_list@.len() == given.len(),
            entries_below(classes(class_list@), n as nat),
            distinct_entries(classes(class_list@)),
            edges_touch_colored(graph, given),
            forall|v: int| is_colored(classes(class_list@), v) == is_colored(given, v),
            forall|c: int|
                0 <= c < given.len() && given[c].len() > 0 ==> (#[trigger] class_list@[c])@.len()
                    > 0,
            forbidden_count == forbidden_edges(graph, coloring(n as nat, classes(class_list@))),
            forbidden_count <= forbidden_edges(graph, coloring(n as nat, given)),
            forbidden_edges(graph, coloring(n as nat, given)) == 0 ==> class_list@ == old(
                class_list
            )@,
            forall|k: int|
                0 <= k < forbidden_vertices@.len() ==> (#[trigger] forbidden_vertices@[k]) < n
                    && in_conflict(
                    graph,
                    coloring(n as nat, classes(class_list@)),
                    forbidden_vertices@[k] as int,
                ),
            forall|v: usize|
                v < n && in_conflict(graph, coloring(n as nat, classes(class_list@)), v as int)
                    ==> occurs_in(forbidden_vertices@, v as int),
            no_improvement > 0 ==> exists|v: int| #[trigger]
                is_stuck(
                    graph,
                    coloring(n as nat, classes(class_list@)),
                    v,
                    class_list@.len() as nat,
                ),
        decreases forbidden_count, ceiling - no_improvement,
    {
        let ghost cs = classes(class_list@);
        let ghost colors = coloring(n as nat, cs);
        let picked = pick_at_random(&forbidden_vertices);
        proof {
            assert(cs.len() == class_list.len());
            lemma_no_forbidden_edges(graph, colors);
            let w = choose|w: int| in_conflict(graph, colors, w);
            let u = choose|u: int| #[trigger] graph.adjacent(w, u) && colors[u] == colors[w];
            assert(occurs_in(forbidden_vertices@, w as usize as int));
        }
        let vertex = picked.unwrap();
        proof {
            let k = choose|k: int|
                0 <= k < forbidden_vertices@.len() && forbidden_vertices@[k] == vertex;
            assert(in_conflict(graph, colors, forbidden_vertices@[k] as int));
            let u = choose|u: int| #[trigger]
                graph.adjacent(vertex as int, u) && colors[u] == colors[vertex as int];
            lemma_color_of_range(cs, vertex as int);
            lemma_color_of_range(cs, u);
            lemma_coloring_entry(n as nat, cs, vertex as int);
            lemma_coloring_entry(n as nat, cs, u);
            if !is_colored(cs, vertex as int) {
                assert(forall|c: int| !in_class(cs, c, vertex as int));
                assert(color_of(cs, vertex as int) == 0) by {
                    if color_of(cs, vertex as int) > 0 {
                        assert(in_class(cs, color_of(cs, vertex as int) - 1, vertex as int));
                    }
                }
                assert(color_of(cs, u) == 0);
                assert(forall|c: int| !in_class(cs, c, u));
                assert(!is_colored(cs, u));
                assert(!is_colored(given, u) && !is_colored(given, vertex as int));
            }
        }
        let target = recolor_vertex(graph, class_list, vertex);
        match target {
            Some(color) => {
                proof {
                    let from = colors[vertex as int] - 1;
                    let to = color - 1;
                    lemma_color_of_range(cs, vertex as int);
                    lemma_coloring_entry(n as nat, cs, vertex as int);
                    assert(color_of(cs, vertex as int) > 0) by {
                        let c = choose|c: int| in_class(cs, c, vertex as int);
                        assert(in_class(cs, c, vertex as int));
                    }
                    lemma_move_member(cs, n as nat, vertex, from, to);
                    lemma_recolor_forbidden_edges(graph, colors, vertex as int, color);
                    lemma_same_colored_zero(graph, colors, vertex as int, n as nat);
                    let u = choose|u: int|
                        0 <= u < n && #[trigger] graph.adjacent(vertex as int, u) && colors[u]
                            == colors[vertex as int];
                    assert(!graph@[u][u]);
                    lemma_color_of_range(cs, u);
                    lemma_coloring_entry(n as nat, cs, u);
                    assert(in_class(cs, from, u));
                    let moved = classes(class_list@);
                    assert(in_class(moved, from, u));
                    assert(moved[from] == class_list@[from]@);
                    assert forall|c: int| 0 <= c < given.len() && given[c].len() > 0 implies (
                    #[trigger] class_list@[c])@.len() > 0 by {
                        assert(moved[c] == class_list@[c]@);
                        assert(cs[c].len() > 0);
                    }
                }
                no_improvement = 0;
                let again = get_forbidden(graph, class_list.as_slice());
                forbidden_count = again.0;
                forbidden_vertices = members_below(&again.1, n);
            },
            None => {
                proof {
                    assert(is_stuck(graph, colors, vertex as int, class_list@.len() as nat));
                }
                no_improvement += 1;
            },
        }
    }
    proof {
        if forbidden_count > 0 && n >= 2 {
            assert(no_improvement > 0);
        }
    }
    forbidden_count
}

} // verus!
