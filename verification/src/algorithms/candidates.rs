//! The restricted candidate list: the vertices of highest degree among those
//! still eligible for the class under construction.

use crate::graph::Graph;
use crate::lists::{contains, occurs_in};
use vstd::prelude::*;

verus! {

/// The list that degrees are measured against: `list` where one is given,
/// `subset` itself otherwise.
pub open spec fn measured_against(subset: Seq<usize>, list: Option<&[usize]>) -> Seq<usize> {
    match list {
        Some(given) => given@,
        None => subset,
    }
}

/// Whether `u` comes before `v` in the ranking by degree against `list`: it
/// has the greater degree, or the same degree and the smaller index.
pub open spec fn ranks_before(graph: &Graph, list: Seq<usize>, u: int, v: int) -> bool {
    graph.degree_in(u, list) > graph.degree_in(v, list) || (graph.degree_in(u, list)
        == graph.degree_in(v, list) && u < v)
}

/// Whether `v` is a vertex of the graph that occurs in `subset`.
pub open spec fn eligible(graph: &Graph, subset: Seq<usize>, v: int) -> bool {
    0 <= v < graph.order() && occurs_in(subset, v)
}

/// Whether `ranking` lists the `count` first vertices of `subset` in the
/// ranking by degree against `list`, or all of them where there are fewer.
pub open spec fn top_ranked(
    graph: &Graph,
    subset: Seq<usize>,
    list: Seq<usize>,
    count: nat,
    ranking: Seq<usize>,
) -> bool {
    &&& ranking.len() <= count
    &&& forall|i: int|
        0 <= i < ranking.len() ==> eligible(graph, subset, #[trigger] ranking[i] as int)
    &&& forall|i: int, j: int|
        0 <= i < j < ranking.len() ==> ranks_before(
            graph,
            list,
            #[trigger] ranking[i] as int,
            #[trigger] ranking[j] as int,
        )
    &&& forall|v: int| #[trigger]
        eligible(graph, subset, v) && !occurs_in(ranking, v) ==> ranking.len() == count
            && forall|i: int|
            0 <= i < ranking.len() ==> ranks_before(graph, list, #[trigger] ranking[i] as int, v)
}

/// The (at most) `n` vertices of `subset` with the highest degree, highest
/// first; of two vertices of one degree the one with the smaller index comes
/// first. Degrees are measured against `list`, or against `subset` itself
/// where no list is given.
pub fn get_n_largest_degree(
    n: &usize,
    graph: &Graph,
    subset: &[usize],
    list: Option<&[usize]>,
) -> (ranking: Vec<usize>)
    requires
        graph.wf(),
    ensures
        top_ranked(graph, subset@, measured_against(subset@, list), *n as nat, ranking@),
{
    let reference: &[usize] = match list {
        Some(given) => given,
        None => subset,
    };
    let ghost against = reference@;
    let num_vertices = graph.num_vertices();
    let mut degrees: Vec<usize> = Vec::new();
    let mut open: Vec<bool> = Vec::new();
    let mut v: usize = 0;
    while v < num_vertices
        invariant
            v <= num_vertices,
            num_vertices == graph.order(),
            graph.wf(),
            against == reference@,
            degrees@.len() == v,
            open@.len() == v,
            forall|w: int| 0 <= w < v ==> #[trigger] degrees@[w] == graph.degree_in(w, against),
            forall|w: int| 0 <= w < v ==> #[trigger] open@[w] == occurs_in(subset@, w),
        decreases num_vertices - v,
    {
        degrees.push(graph.get_degree_in_list(&v, reference));
        open.push(contains(subset, v));
        v += 1;
    }
    let mut ranking: Vec<usize> = Vec::new();
    let mut exhausted = false;
    while ranking.len() < *n && !exhausted
        invariant
            num_vertices == graph.order(),
            degrees@.len() == num_vertices,
            open@.len() == num_vertices,
            ranking@.len() <= *n,
            forall|w: int|
                0 <= w < num_vertices ==> #[trigger] degrees@[w] == graph.degree_in(w, against),
            forall|w: int|
                0 <= w < num_vertices ==> #[trigger] open@[w] == (occurs_in(subset@, w)
                    && !occurs_in(ranking@, w)),
            forall|i: int|
                0 <= i < ranking@.len() ==> eligible(graph, subset@, #[trigger] ranking@[i] as int),
            forall|i: int, j: int|
                0 <= i < j < ranking@.len() ==> ranks_before(
                    graph,
                    against,
                    #[trigger] ranking@[i] as int,
                    #[trigger] ranking@[j] as int,
                ),
            forall|i: int, w: int|
                0 <= i < ranking@.len() && 0 <= w < num_vertices && #[trigger] open@[w]
                    ==> ranks_before(graph, against, #[trigger] ranking@[i] as int, w),
            exhausted ==> forall|w: int| 0 <= w < num_vertices ==> !#[trigger] open@[w],
        decreases *n - ranking@.len(), (if exhausted { 0int } else { 1int }),
    {
        let mut found = false;
        let mut best: usize = 0;
        let mut w: usize = 0;
        while w < num_vertices
            invariant
                w <= num_vertices,
                num_vertices == graph.order(),
                degrees@.len() == num_vertices,
                open@.len() == num_vertices,
                forall|x: int|
                    0 <= x < num_vertices ==> #[trigger] degrees@[x] == graph.degree_in(x, against),
                !found ==> forall|x: int| 0 <= x < w ==> !#[trigger] open@[x],
                found ==> best < w && open@[best as int],
                found ==> forall|x: int|
                    0 <= x < w && #[trigger] open@[x] && x != best ==> ranks_before(
                        graph,
                        against,
                        best as int,
                        x,
                    ),
            decreases num_vertices - w,
        {
            if open[w] && (!found || degrees[w] > degrees[best]) {
                best = w;
                found = true;
            }
            w += 1;
        }
        if found {
            let ghost earlier = ranking@;
            let ghost was_open = open@;
            ranking.push(best);
            open[best] = false;
            proof {
                assert(ranking@[earlier.len() as int] == best);
                assert forall|x: int| 0 <= x < num_vertices implies #[trigger] open@[x] == (
                occurs_in(subset@, x) && !occurs_in(ranking@, x)) by {
                    assert(was_open[x] == (occurs_in(subset@, x) && !occurs_in(earlier, x)));
                    if occurs_in(earlier, x) {
                        let k = choose|k: int| 0 <= k < earlier.len() && earlier[k] == x;
                        assert(ranking@[k] == x);
                    }
                    if occurs_in(ranking@, x) && x != best {
                        let k = choose|k: int| 0 <= k < ranking@.len() && ranking@[k] == x;
                        assert(earlier[k] == x);
                    }
                }
                assert forall|i: int, j: int| 0 <= i < j < ranking@.len() implies ranks_before(
                    graph,
                    against,
                    #[trigger] ranking@[i] as int,
                    #[trigger] ranking@[j] as int,
                ) by {
                    if j == earlier.len() {
                        assert(earlier[i] == ranking@[i]);
                        assert(was_open[best as int]);
                    } else {
                        assert(earlier[i] == ranking@[i] && earlier[j] == ranking@[j]);
                    }
                }
                assert forall|i: int, x: int|
                    0 <= i < ranking@.len() && 0 <= x < num_vertices
                        && #[trigger] open@[x] implies ranks_before(
                    graph,
                    against,
                    #[trigger] ranking@[i] as int,
                    x,
                ) by {
                    assert(was_open[x]);
                    if i < earlier.len() {
                        assert(earlier[i] == ranking@[i]);
                    }
                }
                assert forall|i: int| 0 <= i < ranking@.len() implies eligible(
                    graph,
                    subset@,
                    #[trigger] ranking@[i] as int,
                ) by {
                    if i < earlier.len() {
                        assert(earlier[i] == ranking@[i]);
                    } else {
                        assert(was_open[best as int]);
                    }
                }
            }
        } else {
            exhausted = true;
        }
    }
    proof {
        assert forall|v: int| #[trigger]
            eligible(graph, subset@, v) && !occurs_in(ranking@, v) implies ranking@.len() == *n
            && forall|i: int|
            0 <= i < ranking@.len() ==> ranks_before(
                graph,
                against,
                #[trigger] ranking@[i] as int,
                v,
            ) by {
            assert(open@[v]);
        }
    }
    ranking
}

} // verus!
