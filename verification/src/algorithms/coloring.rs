//! Class lists and the colorings they describe.
//!
//! A class list is a sequence of color classes; the members of class `c`
//! carry the color `c + 1`, and a vertex that occurs in no class has the
//! color `0`, which stands for "uncolored".

use crate::graph::Graph;
use crate::lists::occurs_in;
use vstd::prelude::*;

verus! {

/// The classes of a class list as plain sequences.
pub open spec fn classes(class_list: Seq<Vec<usize>>) -> Seq<Seq<usize>> {
    Seq::new(class_list.len(), |c: int| class_list[c]@)
}

/// Whether `v` is a member of the class at index `c`.
pub open spec fn in_class(cs: Seq<Seq<usize>>, c: int, v: int) -> bool {
    0 <= c < cs.len() && occurs_in(cs[c], v)
}

/// The color of `v`: one more than the index of the last class that holds
/// `v`, or `0` where no class does.
pub open spec fn color_of(cs: Seq<Seq<usize>>, v: int) -> nat
    decreases cs.len(),
{
    if cs.len() == 0 {
        0
    } else if occurs_in(cs.last(), v) {
        cs.len()
    } else {
        color_of(cs.drop_last(), v)
    }
}

/// The coloring of the vertices `0..n` that a class list describes.
pub open spec fn coloring(n: nat, cs: Seq<Seq<usize>>) -> Seq<usize> {
    Seq::new(n, |v: int| color_of(cs, v) as usize)
}

/// Every entry of every class is a vertex index below `n`.
pub open spec fn entries_below(cs: Seq<Seq<usize>>, n: nat) -> bool {
    forall|c: int, i: int| 0 <= c < cs.len() && 0 <= i < cs[c].len() ==> #[trigger] cs[c][i] < n
}

/// No vertex occurs twice, neither within a class nor in two classes.
pub open spec fn distinct_entries(cs: Seq<Seq<usize>>) -> bool {
    forall|c: int, i: int, d: int, j: int|
        0 <= c < cs.len() && 0 <= i < cs[c].len() && 0 <= d < cs.len() && 0 <= j < cs[d].len()
            && #[trigger] cs[c][i] == #[trigger] cs[d][j] ==> c == d && i == j
}

/// Whether `v` is a member of some class.
pub open spec fn is_colored(cs: Seq<Seq<usize>>, v: int) -> bool {
    exists|c: int| in_class(cs, c, v)
}

/// Every vertex index below `n` is a member of some class.
pub open spec fn covers(cs: Seq<Seq<usize>>, n: nat) -> bool {
    forall|v: int| 0 <= v < n ==> #[trigger] is_colored(cs, v)
}

/// Every vertex index below `n` occurs exactly once in the class list, and
/// nothing else occurs.
pub open spec fn partitions(cs: Seq<Seq<usize>>, n: nat) -> bool {
    entries_below(cs, n) && distinct_entries(cs) && covers(cs, n)
}

/// No class holds two adjacent vertices.
pub open spec fn proper(graph: &Graph, cs: Seq<Seq<usize>>) -> bool {
    forall|c: int, i: int, j: int|
        0 <= c < cs.len() && 0 <= i < cs[c].len() && 0 <= j < cs[c].len() ==> !graph.adjacent(
            #[trigger] cs[c][i] as int,
            #[trigger] cs[c][j] as int,
        )
}

/// The first `k` classes are inhabited and all later ones are empty.
pub open spec fn packed(cs: Seq<Seq<usize>>, k: nat) -> bool {
    &&& k <= cs.len()
    &&& forall|c: int| 0 <= c < k ==> (#[trigger] cs[c]).len() > 0
    &&& forall|c: int| k <= c < cs.len() ==> (#[trigger] cs[c]).len() == 0
}

/// The class list is a proper coloring of `graph` with `k` colors: it has one
/// slot for each vertex, of which the first `k` are inhabited, every vertex
/// occurs exactly once, and no class holds two adjacent vertices.
pub open spec fn valid_coloring(graph: &Graph, cs: Seq<Seq<usize>>, k: nat) -> bool {
    &&& cs.len() == graph.order()
    &&& packed(cs, k)
    &&& partitions(cs, graph.order())
    &&& proper(graph, cs)
}

/// No edge joins two vertices of one color, and no end of an edge is
/// uncolored.
pub open spec fn legal(graph: &Graph, colors: Seq<usize>) -> bool {
    forall|u: int, v: int| #[trigger]
        graph.adjacent(u, v) ==> colors[u] != colors[v] && colors[u] != 0
}

/// The number of vertices below `bound` that are adjacent to `v` and share
/// its color.
pub open spec fn same_colored_below(graph: &Graph, colors: Seq<usize>, v: int, bound: nat) -> nat
    decreases bound,
{
    if bound == 0 {
        0
    } else {
        same_colored_below(graph, colors, v, (bound - 1) as nat) + if graph.adjacent(v, bound - 1)
            && colors[bound - 1] == colors[v] {
            1nat
        } else {
            0nat
        }
    }
}

/// The number of neighbours of `v` that share its color.
pub open spec fn forbidden_at(graph: &Graph, colors: Seq<usize>, v: int) -> nat {
    same_colored_below(graph, colors, v, graph.order())
}

/// A color is zero or names a class.
pub proof fn lemma_color_of_range(cs: Seq<Seq<usize>>, v: int)
    ensures
        color_of(cs, v) <= cs.len(),
        color_of(cs, v) > 0 ==> in_class(cs, color_of(cs, v) - 1, v),
        color_of(cs, v) == 0 ==> forall|c: int| !in_class(cs, c, v),
    decreases cs.len(),
{
    if cs.len() > 0 {
        let rest = cs.drop_last();
        lemma_color_of_range(rest, v);
        if !occurs_in(cs.last(), v) {
            if color_of(cs, v) > 0 {
                assert(rest[color_of(cs, v) - 1] == cs[color_of(cs, v) - 1]);
            } else {
                assert forall|c: int| !in_class(cs, c, v) by {
                    if 0 <= c < cs.len() - 1 {
                        assert(rest[c] == cs[c]);
                        assert(!in_class(rest, c, v));
                    }
                }
            }
        }
    }
}

/// The entry of the coloring at a vertex is the color of the vertex.
pub proof fn lemma_coloring_entry(n: nat, cs: Seq<Seq<usize>>, v: int)
    requires
        0 <= v < n,
        cs.len() <= usize::MAX,
    ensures
        coloring(n, cs)[v] == color_of(cs, v),
{
    lemma_color_of_range(cs, v);
}

/// Where no vertex occurs twice, the members of class `c` have the color
/// `c + 1`.
pub proof fn lemma_color_of_member(cs: Seq<Seq<usize>>, c: int, v: int)
    requires
        distinct_entries(cs),
        in_class(cs, c, v),
    ensures
        color_of(cs, v) == c + 1,
{
    lemma_color_of_range(cs, v);
    let d = color_of(cs, v) - 1;
    assert(in_class(cs, d, v));
    let i = choose|i: int| 0 <= i < cs[c].len() && cs[c][i] == v;
    let j = choose|j: int| 0 <= j < cs[d].len() && cs[d][j] == v;
    assert(cs[c][i] == cs[d][j]);
}

/// The color of each vertex `0..num_vertices`: one more than the index of its
/// class, or `0` where it occurs in none.
pub fn get_coloring_from_class_list(num_vertices: usize, class_list: &[Vec<usize>]) -> (colors: Vec<
    usize,
>)
    requires
        entries_below(classes(class_list@), num_vertices as nat),
    ensures
        colors@ == coloring(num_vertices as nat, classes(class_list@)),
{
    let ghost cs = classes(class_list@);
    let mut colors: Vec<usize> = Vec::new();
    let mut v: usize = 0;
    while v < num_vertices
        invariant
            v <= num_vertices,
            colors@.len() == v,
            forall|w: int| 0 <= w < v ==> colors@[w] == 0,
        decreases num_vertices - v,
    {
        colors.push(0);
        v += 1;
    }
    let num_classes = class_list.len();
    let mut c: usize = 0;
    while c < num_classes
        invariant
            c <= num_classes,
            num_classes == class_list@.len(),
            cs == classes(class_list@),
            entries_below(cs, num_vertices as nat),
            colors@.len() == num_vertices,
            forall|w: int| 0 <= w < num_vertices ==> colors@[w] == color_of(cs.take(c as int), w),
        decreases num_classes - c,
    {
        let class = &class_list[c];
        assert(class@ == cs[c as int]);
        let mut k: usize = 0;
        while k < class.len()
            invariant
                k <= class@.len(),
                c < num_classes,
                num_classes == class_list@.len(),
                cs == classes(class_list@),
                class@ == cs[c as int],
                entries_below(cs, num_vertices as nat),
                colors@.len() == num_vertices,
                forall|w: int|
                    0 <= w < num_vertices ==> colors@[w] == if occurs_in(class@.take(k as int), w) {
                        (c + 1) as nat
                    } else {
                        color_of(cs.take(c as int), w)
                    },
            decreases class@.len() - k,
        {
            let member = class[k];
            assert(cs[c as int][k as int] < num_vertices);
            colors[member] = c + 1;
            proof {
                let shorter = class@.take(k as int);
                let longer = class@.take(k + 1);
                assert(longer[k as int] == member);
                assert forall|w: int| occurs_in(longer, w) == (occurs_in(shorter, w) || w
                    == member) by {
                    if occurs_in(shorter, w) {
                        let i = choose|i: int| 0 <= i < shorter.len() && shorter[i] == w;
                        assert(longer[i] == w);
                    }
                    if occurs_in(longer, w) && w != member {
                        let i = choose|i: int| 0 <= i < longer.len() && longer[i] == w;
                        assert(shorter[i] == w);
                    }
                }
            }
            k += 1;
        }
        proof {
            assert(class@.take(k as int) == class@);
            let next = cs.take(c + 1);
            assert(next.last() == class@);
            assert(next.drop_last() == cs.take(c as int));
        }
        c += 1;
    }
    proof {
        assert(cs.take(c as int) == cs);
        assert forall|w: int| 0 <= w < num_vertices implies colors@[w] == color_of(cs, w)
            as usize by {
            lemma_color_of_range(cs, w);
        }
        assert(colors@ =~= coloring(num_vertices as nat, cs));
    }
    colors
}

/// The number of neighbours of `vertex` that share its color.
pub fn count_forbidden_per_vertex(graph: &Graph, colors: &[usize], vertex: usize) -> (count: usize)
    requires
        graph.wf(),
        colors@.len() == graph.order(),
        vertex < graph.order(),
    ensures
        count == forbidden_at(graph, colors@, vertex as int),
{
    let matrix = graph.adjacency_matrix();
    let n = graph.num_vertices();
    let mut count: usize = 0;
    let mut u: usize = 0;
    assert(graph@[vertex as int].len() == n);
    while u < n
        invariant
            u <= n,
            n == graph.order(),
            vertex < n,
            colors@.len() == n,
            crate::graph::rows_of(matrix) == graph@,
            graph@[vertex as int].len() == n,
            count == same_colored_below(graph, colors@, vertex as int, u as nat),
            count <= u,
        decreases n - u,
    {
        assert(matrix@[vertex as int]@ == graph@[vertex as int]);
        if matrix[vertex][u] && colors[u] == colors[vertex] {
            count += 1;
        }
        u += 1;
    }
    count
}

/// Whether `colors` is a legal coloring of `graph`: the ends of every edge
/// are colored, and differently.
pub fn check_viability(graph: &Graph, colors: &[usize]) -> (viable: bool)
    requires
        graph.wf(),
        colors@.len() == graph.order(),
    ensures
        viable == legal(graph, colors@),
{
    let matrix = graph.adjacency_matrix();
    let n = graph.num_vertices();
    let mut u: usize = 0;
    while u < n
        invariant
            u <= n,
            n == graph.order(),
            colors@.len() == n,
            graph.wf(),
            crate::graph::rows_of(matrix) == graph@,
            forall|a: int, b: int|
                0 <= a < u && #[trigger] graph.adjacent(a, b) ==> colors@[a] != colors@[b]
                    && colors@[a] != 0,
        decreases n - u,
    {
        let mut v: usize = 0;
        assert(matrix@[u as int]@ == graph@[u as int]);
        while v < n
            invariant
                u < n,
                v <= n,
                n == graph.order(),
                colors@.len() == n,
                graph.wf(),
                crate::graph::rows_of(matrix) == graph@,
                matrix@[u as int]@ == graph@[u as int],
                forall|a: int, b: int|
                    0 <= a < u && #[trigger] graph.adjacent(a, b) ==> colors@[a] != colors@[b]
                        && colors@[a] != 0,
                forall|b: int|
                    0 <= b < v && #[trigger] graph.adjacent(u as int, b) ==> colors@[u as int]
                        != colors@[b] && colors@[u as int] != 0,
            decreases n - v,
        {
            if matrix[u][v] && (colors[u] == colors[v] || colors[u] == 0) {
                assert(graph.adjacent(u as int, v as int));
                return false;
            }
            v += 1;
        }
        u += 1;
    }
    true
}

} // verus!
