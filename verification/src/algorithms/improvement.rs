//! The improvement phase: merging the two smallest color classes and
//! repairing the merged list by local search, as long as that succeeds.

use crate::algorithms::coloring::{
    classes, coloring, covers, distinct_entries, entries_below, in_class, is_colored, packed,
    partitions, proper, valid_coloring,
};
use crate::algorithms::conflicts::{forbidden_edges, lemma_proper_iff_no_forbidden_edges};
use crate::algorithms::local_search::{edges_touch_colored, local_search};
use crate::graph::Graph;
use crate::lists::append_copy;
use vstd::prelude::*;

verus! {

/// Whether the class at index `a` counts as smaller than the class at index
/// `b`: it has fewer members, or as many and the greater index.
pub open spec fn smaller_class(cs: Seq<Seq<usize>>, a: int, b: int) -> bool {
    cs[a].len() < cs[b].len() || (cs[a].len() == cs[b].len() && a > b)
}

/// Whether `first` and `second` are, in this order, the two smallest of the
/// first `k` classes.
pub open spec fn smallest_two(cs: Seq<Seq<usize>>, k: nat, first: int, second: int) -> bool {
    &&& 0 <= first < k
    &&& 0 <= second < k
    &&& first != second
    &&& smaller_class(cs, first, second)
    &&& forall|c: int|
        0 <= c < k && c != first && c != second ==> #[trigger] smaller_class(cs, second, c)
}

/// Whether the class at index `c` is carried over unchanged by a merge of the
/// classes at `first` and `second`.
pub open spec fn carried_over(cs: Seq<Seq<usize>>, first: int, second: int, c: int) -> bool {
    c != first && c != second && cs[c].len() > 0
}

/// The inhabited classes below index `upto` other than those at `first` and
/// `second`, in their order.
pub open spec fn others(cs: Seq<Seq<usize>>, first: int, second: int, upto: nat) -> Seq<
    Seq<usize>,
>
    decreases upto,
{
    if upto == 0 {
        Seq::empty()
    } else {
        let rest = others(cs, first, second, (upto - 1) as nat);
        if carried_over(cs, first, second, upto - 1) {
            rest.push(cs[upto - 1])
        } else {
            rest
        }
    }
}

/// The class list after a merge: the members of the class at `first` followed
/// by those of the class at `second` form the class at index `0`, and every
/// other inhabited class follows in its order.
pub open spec fn merged(cs: Seq<Seq<usize>>, first: int, second: int) -> Seq<Seq<usize>> {
    seq![cs[first] + cs[second]] + others(cs, first, second, cs.len())
}

/// The index in `cs` of the class that stands at index `k` among the classes
/// carried over from below `upto`.
pub open spec fn origin(cs: Seq<Seq<usize>>, first: int, second: int, upto: nat, k: int) -> int
    decreases upto,
{
    if upto == 0 {
        0
    } else if carried_over(cs, first, second, upto - 1) && k == others(
        cs,
        first,
        second,
        (upto - 1) as nat,
    ).len() {
        upto - 1
    } else {
        origin(cs, first, second, (upto - 1) as nat, k)
    }
}

/// The classes carried over are exactly the inhabited classes other than the
/// two merged ones, each once and in their order.
pub proof fn lemma_others(cs: Seq<Seq<usize>>, first: int, second: int, upto: nat)
    requires
        upto <= cs.len(),
    ensures
        others(cs, first, second, upto).len() <= upto,
        forall|k: int|
            0 <= k < others(cs, first, second, upto).len() ==> {
                let c = #[trigger] origin(cs, first, second, upto, k);
                &&& 0 <= c < upto
                &&& carried_over(cs, first, second, c)
                &&& others(cs, first, second, upto)[k] == cs[c]
            },
        forall|k: int, l: int|
            0 <= k < l < others(cs, first, second, upto).len() ==> origin(
                cs,
                first,
                second,
                upto,
                k,
            ) < origin(cs, first, second, upto, l),
        forall|c: int|
            0 <= c < upto && #[trigger] carried_over(cs, first, second, c) ==> exists|k: int|
                0 <= k < others(cs, first, second, upto).len() && #[trigger] origin(
                    cs,
                    first,
                    second,
                    upto,
                    k,
                ) == c,
    decreases upto,
{
    if upto > 0 {
        let below = (upto - 1) as nat;
        lemma_others(cs, first, second, below);
        let rest = others(cs, first, second, below);
        let all = others(cs, first, second, upto);
        assert forall|k: int| 0 <= k < rest.len() implies origin(cs, first, second, upto, k)
            == origin(cs, first, second, below, k) by {}
        assert forall|c: int|
            0 <= c < upto && #[trigger] carried_over(cs, first, second, c) implies exists|k: int|
            0 <= k < all.len() && #[trigger] origin(cs, first, second, upto, k) == c by {
            if c < below {
                let k = choose|k: int|
                    0 <= k < rest.len() && #[trigger] origin(cs, first, second, below, k) == c;
                assert(origin(cs, first, second, upto, k) == c);
            } else {
                assert(origin(cs, first, second, upto, rest.len() as int) == c);
            }
        }
    }
}

/// With the first `k` classes inhabited and the others empty, a merge of two
/// of the first `k` leaves `k - 1` classes.
pub proof fn lemma_others_len(cs: Seq<Seq<usize>>, k: nat, first: int, second: int, upto: nat)
    requires
        packed(cs, k),
        0 <= first < k,
        0 <= second < k,
        first != second,
        upto <= cs.len(),
    ensures
        others(cs, first, second, upto).len() == (if upto < k {
            upto
        } else {
            k
        }) - (if first < upto {
            1int
        } else {
            0int
        }) - (if second < upto {
            1int
        } else {
            0int
        }),
    decreases upto,
{
    if upto > 0 {
        lemma_others_len(cs, k, first, second, (upto - 1) as nat);
    }
}

/// A merge keeps every vertex exactly once in the class list, and every class
/// after the merged one is inhabited.
pub proof fn lemma_merged(cs: Seq<Seq<usize>>, n: nat, first: int, second: int)
    requires
        partitions(cs, n),
        0 <= first < cs.len(),
        0 <= second < cs.len(),
        first != second,
    ensures
        partitions(merged(cs, first, second), n),
        forall|c: int|
            1 <= c < merged(cs, first, second).len() ==> (#[trigger] merged(
                cs,
                first,
                second,
            )[c]).len() > 0,
        merged(cs, first, second)[0].len() == cs[first].len() + cs[second].len(),
{
    let m = merged(cs, first, second);
    let rest = others(cs, first, second, cs.len());
    let upto = cs.len();
    lemma_others(cs, first, second, upto);
    assert(m[0] == cs[first] + cs[second]);
    assert forall|c: int| 1 <= c < m.len() implies #[trigger] m[c] == cs[origin(
        cs,
        first,
        second,
        upto,
        c - 1,
    )] by {
        assert(m[c] == rest[c - 1]);
    }
    assert forall|c: int| 1 <= c < m.len() implies (#[trigger] m[c]).len() > 0 by {
        let o = origin(cs, first, second, upto, c - 1);
        assert(carried_over(cs, first, second, o));
    }
    assert forall|c: int, i: int| 0 <= c < m.len() && 0 <= i < m[c].len() implies #[trigger] m[c][i]
        < n by {
        if c == 0 {
            if i < cs[first].len() {
                assert(m[c][i] == cs[first][i]);
            } else {
                assert(m[c][i] == cs[second][i - cs[first].len()]);
            }
        } else {
            let o = origin(cs, first, second, upto, c - 1);
            assert(m[c][i] == cs[o][i]);
        }
    }
    assert forall|c: int, i: int, d: int, j: int|
        0 <= c < m.len() && 0 <= i < m[c].len() && 0 <= d < m.len() && 0 <= j < m[d].len()
            && #[trigger] m[c][i] == #[trigger] m[d][j] implies c == d && i == j by {
        let (c0, i0) = if c == 0 {
            if i < cs[first].len() {
                (first, i)
            } else {
                (second, i - cs[first].len())
            }
        } else {
            (origin(cs, first, second, upto, c - 1), i)
        };
        let (d0, j0) = if d == 0 {
            if j < cs[first].len() {
                (first, j)
            } else {
                (second, j - cs[first].len())
            }
        } else {
            (origin(cs, first, second, upto, d - 1), j)
        };
        if c > 0 {
            assert(carried_over(cs, first, second, c0));
        }
        if d > 0 {
            assert(carried_over(cs, first, second, d0));
        }
        assert(m[c][i] == cs[c0][i0]);
        assert(m[d][j] == cs[d0][j0]);
        assert(cs[c0][i0] == cs[d0][j0]);
        assert(c0 == d0 && i0 == j0);
        if c > 0 && d > 0 && c != d {
            if c < d {
                assert(origin(cs, first, second, upto, c - 1) < origin(
                    cs,
                    first,
                    second,
                    upto,
                    d - 1,
                ));
            } else {
                assert(origin(cs, first, second, upto, d - 1) < origin(
                    cs,
                    first,
                    second,
                    upto,
                    c - 1,
                ));
            }
        }
    }
    assert forall|v: int| 0 <= v < n implies #[trigger] is_colored(m, v) by {
        assert(is_colored(cs, v));
        let c = choose|c: int| in_class(cs, c, v);
        let i = choose|i: int| 0 <= i < cs[c].len() && cs[c][i] == v;
        if c == first {
            assert(m[0][i] == v);
            assert(in_class(m, 0, v));
        } else if c == second {
            assert(m[0][cs[first].len() + i] == v);
            assert(in_class(m, 0, v));
        } else {
            assert(carried_over(cs, first, second, c));
            let k = choose|k: int|
                0 <= k < rest.len() && #[trigger] origin(cs, first, second, upto, k) == c;
            assert(m[k + 1] == cs[c]);
            assert(m[k + 1][i] == v);
            assert(in_class(m, k + 1, v));
        }
    }
}

/// Whether the improvement has nothing left to adopt: fewer than two classes
/// are left, or the merge of the two smallest classes has a forbidden edge.
pub open spec fn merge_blocked(graph: &Graph, cs: Seq<Seq<usize>>, k: nat) -> bool {
    k < 2 || exists|first: int, second: int| #[trigger]
        smallest_two(cs, k, first, second) && forbidden_edges(
            graph,
            coloring(graph.order(), merged(cs, first, second)),
        ) > 0
}

/// The two smallest classes are determined by the class list.
pub proof fn lemma_smallest_two_unique(
    cs: Seq<Seq<usize>>,
    k: nat,
    first: int,
    second: int,
    other_first: int,
    other_second: int,
)
    requires
        smallest_two(cs, k, first, second),
        smallest_two(cs, k, other_first, other_second),
    ensures
        first == other_first,
        second == other_second,
{
    if first != other_first {
        if other_first != second {
            assert(smaller_class(cs, second, other_first));
        }
        if first != other_second {
            assert(smaller_class(cs, other_second, first));
        }
    } else if second != other_second {
        assert(smaller_class(cs, second, other_second));
        assert(smaller_class(cs, other_second, second));
    }
}

/// Where the improvement phase has stopped with two or more classes, the
/// merge that another run would try first is no proper coloring: another run
/// can only get further if local search repairs that merge.
pub proof fn lemma_blocked_merge_is_improper(
    graph: &Graph,
    cs: Seq<Seq<usize>>,
    k: nat,
    first: int,
    second: int,
)
    requires
        graph.wf(),
        valid_coloring(graph, cs, k),
        merge_blocked(graph, cs, k),
        smallest_two(cs, k, first, second),
    ensures
        forbidden_edges(graph, coloring(graph.order(), merged(cs, first, second))) > 0,
        !proper(graph, merged(cs, first, second)),
{
    let (f, s) = choose|f: int, s: int| #[trigger]
        smallest_two(cs, k, f, s) && forbidden_edges(
            graph,
            coloring(graph.order(), merged(cs, f, s)),
        ) > 0;
    lemma_smallest_two_unique(cs, k, first, second, f, s);
    lemma_merged(cs, graph.order(), first, second);
    lemma_others_len(cs, k, first, second, cs.len());
    graph.lemma_order_fits();
    lemma_proper_iff_no_forbidden_edges(graph, merged(cs, first, second));
}

/// An empty class appended to a class list changes neither the coloring nor
/// what a merge gives.
pub proof fn lemma_padding(graph: &Graph, cs: Seq<Seq<usize>>, k: nat)
    requires
        packed(cs, k),
        partitions(cs, graph.order()),
        proper(graph, cs),
        merge_blocked(graph, cs, k),
    ensures
        packed(cs.push(Seq::empty()), k),
        partitions(cs.push(Seq::empty()), graph.order()),
        proper(graph, cs.push(Seq::empty())),
        merge_blocked(graph, cs.push(Seq::empty()), k),
{
    let padded = cs.push(Seq::<usize>::empty());
    assert forall|c: int| 0 <= c < cs.len() implies #[trigger] padded[c] == cs[c] by {}
    assert forall|v: int| 0 <= v < graph.order() implies #[trigger] is_colored(padded, v) by {
        assert(is_colored(cs, v));
        let c = choose|c: int| in_class(cs, c, v);
        assert(in_class(padded, c, v));
    }
    assert(distinct_entries(padded)) by {
        assert forall|c: int, i: int, d: int, j: int|
            0 <= c < padded.len() && 0 <= i < padded[c].len() && 0 <= d < padded.len() && 0 <= j
                < padded[d].len() && #[trigger] padded[c][i] == #[trigger] padded[d][j] implies c
            == d && i == j by {
            assert(cs[c][i] == cs[d][j]);
        }
    }
    assert(entries_below(padded, graph.order())) by {
        assert forall|c: int, i: int|
            0 <= c < padded.len() && 0 <= i < padded[c].len() implies #[trigger] padded[c][i]
            < graph.order() by {
            assert(cs[c][i] < graph.order());
        }
    }
    assert(proper(graph, padded)) by {
        assert forall|c: int, i: int, j: int|
            0 <= c < padded.len() && 0 <= i < padded[c].len() && 0 <= j
                < padded[c].len() implies !graph.adjacent(
            #[trigger] padded[c][i] as int,
            #[trigger] padded[c][j] as int,
        ) by {
            assert(!graph.adjacent(cs[c][i] as int, cs[c][j] as int));
        }
    }
    if k >= 2 {
        let (first, second) = choose|first: int, second: int| #[trigger]
            smallest_two(cs, k, first, second) && forbidden_edges(
                graph,
                coloring(graph.order(), merged(cs, first, second)),
            ) > 0;
        assert(smallest_two(padded, k, first, second)) by {
            assert forall|c: int|
                0 <= c < k && c != first && c != second implies #[trigger] smaller_class(
                padded,
                second,
                c,
            ) by {
                assert(smaller_class(cs, second, c));
            }
        }
        lemma_others_padding(cs, first, second, cs.len());
        assert(merged(padded, first, second) == merged(cs, first, second));
    }
}

/// The classes carried over from below `upto` do not depend on what stands
/// at or above `upto`.
pub proof fn lemma_others_padding(cs: Seq<Seq<usize>>, first: int, second: int, upto: nat)
    requires
        upto <= cs.len(),
    ensures
        others(cs.push(Seq::empty()), first, second, upto) == others(cs, first, second, upto),
        upto == cs.len() ==> others(cs.push(Seq::empty()), first, second, upto + 1) == others(
            cs,
            first,
            second,
            upto,
        ),
    decreases upto,
{
    if upto > 0 {
        lemma_others_padding(cs, first, second, (upto - 1) as nat);
    }
    if upto == cs.len() {
        let padded = cs.push(Seq::<usize>::empty());
        assert(!carried_over(padded, first, second, upto as int));
    }
}

/// The indices of the two smallest of the first `num_classes` classes, the
/// smallest first. Of two classes of one size the one with the greater index
/// counts as smaller.
pub fn two_smallest(class_list: &Vec<Vec<usize>>, num_classes: usize) -> (pair: (usize, usize))
    requires
        2 <= num_classes <= class_list@.len(),
    ensures
        smallest_two(classes(class_list@), num_classes as nat, pair.0 as int, pair.1 as int),
{
    let ghost cs = classes(class_list@);
    let mut first: usize = 0;
    let mut c: usize = 1;
    while c < num_classes
        invariant
            1 <= c <= num_classes,
            num_classes <= class_list@.len(),
            cs == classes(class_list@),
            first < c,
            forall|d: int|
                0 <= d < c && d != first ==> #[trigger] smaller_class(cs, first as int, d),
        decreases num_classes - c,
    {
        let ghost least = first as int;
        assert(cs[c as int] == class_list@[c as int]@ && cs[least] == class_list@[least]@);
        if class_list[c].len() <= class_list[first].len() {
            first = c;
        }
        proof {
            assert forall|d: int| 0 <= d < c + 1 && d != first implies #[trigger] smaller_class(
                cs,
                first as int,
                d,
            ) by {
                if d != least && d != c {
                    assert(smaller_class(cs, least, d));
                }
            }
        }
        c += 1;
    }
    let mut second: usize = if first == 0 {
        1
    } else {
        0
    };
    let mut c: usize = 0;
    while c < num_classes
        invariant
            c <= num_classes,
            2 <= num_classes <= class_list@.len(),
            cs == classes(class_list@),
            first < num_classes,
            second < num_classes,
            second != first,
            forall|d: int|
                0 <= d < num_classes && d != first ==> #[trigger] smaller_class(
                    cs,
                    first as int,
                    d,
                ),
            forall|d: int|
                0 <= d < c && d != first && d != second ==> #[trigger] smaller_class(
                    cs,
                    second as int,
                    d,
                ),
        decreases num_classes - c,
    {
        let ghost runner = second as int;
        assert(cs[c as int] == class_list@[c as int]@ && cs[runner] == class_list@[runner]@);
        if c != first && c != second {
            let size = class_list[c].len();
            let least = class_list[second].len();
            if size < least || (size == least && c > second) {
                second = c;
            }
        }
        proof {
            assert forall|d: int|
                0 <= d < c + 1 && d != first && d != second implies #[trigger] smaller_class(
                cs,
                second as int,
                d,
            ) by {
                if d != runner && d != c {
                    assert(smaller_class(cs, runner, d));
                }
            }
        }
        c += 1;
    }
    (first, second)
}

/// The class list in which the classes at `first` and `second` are merged
/// into one, which stands at index `0`; the other inhabited classes follow in
/// their order.
pub fn merge_classes(class_list: &Vec<Vec<usize>>, first: usize, second: usize) -> (merger: Vec<
    Vec<usize>,
>)
    requires
        first < class_list@.len(),
        second < class_list@.len(),
    ensures
        classes(merger@) == merged(classes(class_list@), first as int, second as int),
{
    let ghost cs = classes(class_list@);
    let mut combined: Vec<usize> = Vec::new();
    append_copy(&mut combined, class_list[first].as_slice());
    append_copy(&mut combined, class_list[second].as_slice());
    assert(combined@ == cs[first as int] + cs[second as int]);
    let mut merger: Vec<Vec<usize>> = Vec::new();
    merger.push(combined);
    assert(classes(merger@) == seq![cs[first as int] + cs[second as int]]);
    let mut c: usize = 0;
    while c < class_list.len()
        invariant
            c <= class_list@.len(),
            cs == classes(class_list@),
            classes(merger@) == seq![cs[first as int] + cs[second as int]] + others(
                cs,
                first as int,
                second as int,
                c as nat,
            ),
        decreases class_list@.len() - c,
    {
        if c != first && c != second && class_list[c].len() > 0 {
            let ghost earlier = classes(merger@);
            let mut class: Vec<usize> = Vec::new();
            append_copy(&mut class, class_list[c].as_slice());
            assert(class@ == cs[c as int]);
            merger.push(class);
            assert(classes(merger@) == earlier.push(cs[c as int]));
        }
        c += 1;
    }
    merger
}

/// Reduces the number of classes as long as a merge of the two smallest
/// classes can be repaired by local search, and stops at the first merge
/// that cannot, or when fewer than two classes are left.
///
/// The result is again a proper coloring with one slot for each vertex, with
/// no more classes than before. On return either fewer than two classes are
/// left or the merge of the two smallest classes has a forbidden edge. A
/// list whose two smallest classes merge without a forbidden edge loses at
/// least one class.
pub fn improve_phase(graph: &Graph, num_classes: &mut usize, class_list: &mut Vec<Vec<usize>>)
    requires
        graph.wf(),
        valid_coloring(graph, classes(old(class_list)@), *old(num_classes) as nat),
    ensures
        valid_coloring(graph, classes(final(class_list)@), *final(num_classes) as nat),
        *final(num_classes) <= *old(num_classes),
        *old(num_classes) >= 1 ==> *final(num_classes) >= 1,
        *old(num_classes) < 2 ==> classes(final(class_list)@) == classes(old(class_list)@),
        merge_blocked(graph, classes(final(class_list)@), *final(num_classes) as nat),
        !merge_blocked(graph, classes(old(class_list)@), *old(num_classes) as nat)
            ==> *final(num_classes) < *old(num_classes),
{
    let n = graph.num_vertices();
    let mut stuck = false;
    while !stuck && *num_classes >= 2
        invariant
            graph.wf(),
            n == graph.order(),
            class_list@.len() <= n,
            packed(classes(class_list@), *num_classes as nat),
            partitions(classes(class_list@), n as nat),
            proper(graph, classes(class_list@)),
            *num_classes <= *old(num_classes),
            *old(num_classes) >= 1 ==> *num_classes >= 1,
            *old(num_classes) < 2 ==> class_list@ == old(class_list)@,
            stuck ==> merge_blocked(graph, classes(class_list@), *num_classes as nat),
            !merge_blocked(graph, classes(old(class_list)@), *old(num_classes) as nat) ==> (
            *num_classes < *old(num_classes) || (!stuck && class_list@ == old(class_list)@
                && *num_classes == *old(num_classes))),
        decreases *num_classes, (if stuck { 0int } else { 1int }),
    {
        let ghost cs = classes(class_list@);
        let pair = two_smallest(class_list, *num_classes);
        let mut candidate = merge_classes(class_list, pair.0, pair.1);
        let ghost fresh = classes(candidate@);
        proof {
            lemma_merged(cs, n as nat, pair.0 as int, pair.1 as int);
            lemma_others_len(cs, *num_classes as nat, pair.0 as int, pair.1 as int, cs.len());
            assert(edges_touch_colored(graph, fresh)) by {
                assert forall|u: int, v: int| #[trigger] graph.adjacent(u, v) implies is_colored(
                    fresh,
                    u,
                ) by {}
            }
            assert(fresh[0].len() > 0) by {
                assert(cs[pair.0 as int].len() > 0);
            }
        }
        let residual = local_search(graph, &mut candidate);
        if residual == 0 {
            proof {
                let repaired = classes(candidate@);
                assert(covers(repaired, n as nat)) by {
                    assert forall|v: int| 0 <= v < n implies #[trigger] is_colored(repaired, v) by {
                        assert(is_colored(fresh, v));
                    }
                }
                lemma_proper_iff_no_forbidden_edges(graph, repaired);
                assert forall|c: int| 0 <= c < repaired.len() implies (#[trigger] repaired[c]).len()
                    > 0 by {
                    assert(fresh[c].len() > 0);
                    assert(candidate@[c]@.len() > 0);
                }
            }
            *num_classes = candidate.len();
            *class_list = candidate;
        } else {
            stuck = true;
        }
    }
    while class_list.len() < n
        invariant
            n == graph.order(),
            old(class_list)@.len() == n,
            class_list@.len() <= n,
            packed(classes(class_list@), *num_classes as nat),
            partitions(classes(class_list@), n as nat),
            proper(graph, classes(class_list@)),
            *old(num_classes) < 2 ==> classes(class_list@) == classes(old(class_list)@),
            merge_blocked(graph, classes(class_list@), *num_classes as nat),
        decreases n - class_list@.len(),
    {
        let ghost cs = classes(class_list@);
        class_list.push(Vec::new());
        proof {
            let padded = classes(class_list@);
            assert(padded == cs.push(Seq::<usize>::empty()));
            lemma_padding(graph, cs, *num_classes as nat);
        }
    }
}

} // verus!
