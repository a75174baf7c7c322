//! The construction phase: building a proper coloring one class at a time,
//! each class a randomized greedy independent set of the uncolored vertices.

use crate::algorithms::candidates::{eligible, get_n_largest_degree, ranks_before, top_ranked};
use crate::algorithms::coloring::{
    classes, distinct_entries, entries_below, in_class, is_colored, packed, proper,
    valid_coloring,
};
use crate::algorithms::random::pick_at_random;
use crate::graph::{rows_of, Graph};
use crate::lists::{append_copy, lemma_without, occurs_in, retain_absent, without};
use vstd::prelude::*;

verus! {

/// The number of entries of `list` before index `bound` that are adjacent to
/// the entry at index `j`.
pub open spec fn linked_before(graph: &Graph, list: Seq<usize>, j: int, bound: nat) -> nat
    decreases bound,
{
    if bound == 0 {
        0
    } else {
        linked_before(graph, list, j, (bound - 1) as nat) + if graph.adjacent(
            list[bound - 1] as int,
            list[j] as int,
        ) {
            1nat
        } else {
            0nat
        }
    }
}

/// The number of pairs of adjacent entries among the first `upto` entries of
/// `list`.
pub open spec fn edges_among(graph: &Graph, list: Seq<usize>, upto: nat) -> nat
    decreases upto,
{
    if upto == 0 {
        0
    } else {
        edges_among(graph, list, (upto - 1) as nat) + linked_before(
            graph,
            list,
            upto - 1,
            (upto - 1) as nat,
        )
    }
}

/// The number of edges of the subgraph induced by the entries of `list`.
pub open spec fn edges_within(graph: &Graph, list: Seq<usize>) -> nat {
    edges_among(graph, list, list.len())
}

/// An entry is linked to no more entries than stand before the bound.
pub proof fn lemma_linked_before_bounded(graph: &Graph, list: Seq<usize>, j: int, bound: nat)
    ensures
        linked_before(graph, list, j, bound) <= bound,
    decreases bound,
{
    if bound > 0 {
        lemma_linked_before_bounded(graph, list, j, (bound - 1) as nat);
    }
}

/// A list of `m` entries has at most `m * m - m` pairs of adjacent entries.
pub proof fn lemma_edges_among_bounded(graph: &Graph, list: Seq<usize>, upto: nat)
    ensures
        edges_among(graph, list, upto) + upto <= upto * upto,
    decreases upto,
{
    if upto > 0 {
        let below = (upto - 1) as nat;
        lemma_edges_among_bounded(graph, list, below);
        lemma_linked_before_bounded(graph, list, upto - 1, below);
        assert(below * below + 2 * below + 1 == upto * upto) by (nonlinear_arith)
            requires
                below + 1 == upto,
        ;
    }
}

/// The number of edges of the subgraph induced by the entries of `list`.
pub fn count_remaining_edges(graph: &Graph, list: &[usize]) -> (count: usize)
    requires
        graph.wf(),
        forall|k: int| 0 <= k < list@.len() ==> #[trigger] list@[k] < graph.order(),
        list@.len() * list@.len() <= usize::MAX,
    ensures
        count == edges_within(graph, list@),
{
    let matrix = graph.adjacency_matrix();
    let len = list.len();
    let mut count: usize = 0;
    let mut j: usize = 0;
    while j < len
        invariant
            j <= len,
            len == list@.len(),
            len * len <= usize::MAX,
            graph.wf(),
            rows_of(matrix) == graph@,
            forall|k: int| 0 <= k < list@.len() ==> #[trigger] list@[k] < graph.order(),
            count == edges_among(graph, list@, j as nat),
            count <= j * len,
        decreases len - j,
    {
        let mut i: usize = 0;
        while i < j
            invariant
                i <= j,
                j < len,
                len == list@.len(),
                len * len <= usize::MAX,
                graph.wf(),
                rows_of(matrix) == graph@,
                forall|k: int| 0 <= k < list@.len() ==> #[trigger] list@[k] < graph.order(),
                count == edges_among(graph, list@, j as nat) + linked_before(
                    graph,
                    list@,
                    j as int,
                    i as nat,
                ),
                count <= j * len + i,
            decreases j - i,
        {
            assert(j * len + len <= len * len) by (nonlinear_arith)
                requires
                    j < len,
            ;
            let a = list[i];
            let b = list[j];
            assert(matrix@[a as int]@ == graph@[a as int]);
            assert(graph@[a as int].len() == graph.order());
            if matrix[a][b] {
                count += 1;
            }
            i += 1;
        }
        assert(j * len + j <= (j + 1) * len) by (nonlinear_arith)
            requires
                j < len,
        ;
        j += 1;
    }
    count
}

/// Whether `x` is adjacent to an entry of `class`.
pub open spec fn blocked_by(graph: &Graph, class: Seq<usize>, x: int) -> bool {
    exists|i: int| 0 <= i < class.len() && #[trigger] graph.adjacent(class[i] as int, x)
}

/// Whether no two entries of `class` are adjacent.
pub open spec fn independent(graph: &Graph, class: Seq<usize>) -> bool {
    forall|i: int, j: int|
        0 <= i < class.len() && 0 <= j < class.len() ==> !graph.adjacent(
            #[trigger] class[i] as int,
            #[trigger] class[j] as int,
        )
}

/// Whether `class` is a color class that can be opened on the uncolored
/// vertices `pool`: an independent set of entries of `pool`, none twice,
/// that no further entry of `pool` can join.
pub open spec fn is_new_class(graph: &Graph, pool: Seq<usize>, class: Seq<usize>) -> bool {
    &&& class.no_duplicates()
    &&& forall|i: int| 0 <= i < class.len() ==> occurs_in(pool, #[trigger] class[i] as int)
    &&& independent(graph, class)
    &&& forall|k: int|
        0 <= k < pool.len() ==> occurs_in(class, #[trigger] pool[k] as int) || blocked_by(
            graph,
            class,
            pool[k] as int,
        )
}

/// The vertices that can still join the class once its first `t` entries are
/// taken: those of `pool` that are neither among these entries nor adjacent
/// to one of them, in the order of `pool`.
pub open spec fn admissible_after(
    graph: &Graph,
    pool: Seq<usize>,
    class: Seq<usize>,
    t: nat,
) -> Seq<usize>
    decreases t,
{
    if t == 0 {
        pool
    } else {
        without(
            admissible_after(graph, pool, class, (t - 1) as nat),
            graph.neighbors(class[t - 1] as int).push(class[t - 1]),
        )
    }
}

/// The neighbours of the first `t` entries of the class, entry by entry.
pub open spec fn inadmissible_after(graph: &Graph, class: Seq<usize>, t: nat) -> Seq<usize>
    decreases t,
{
    if t == 0 {
        Seq::empty()
    } else {
        inadmissible_after(graph, class, (t - 1) as nat) + graph.neighbors(class[t - 1] as int)
    }
}

/// The list that the candidates are ranked against: the admissible vertices
/// themselves as long as nothing is ruled out, the ruled-out vertices
/// afterwards.
pub open spec fn ranked_against(admissible: Seq<usize>, inadmissible: Seq<usize>) -> Seq<usize> {
    if inadmissible.len() == 0 {
        admissible
    } else {
        inadmissible
    }
}

/// Whether `v` is on the restricted candidate list of the given size.
pub open spec fn is_candidate(
    graph: &Graph,
    admissible: Seq<usize>,
    inadmissible: Seq<usize>,
    size: nat,
    v: int,
) -> bool {
    exists|ranking: Seq<usize>| #[trigger]
        top_ranked(graph, admissible, ranked_against(admissible, inadmissible), size, ranking)
            && occurs_in(ranking, v)
}

/// Whether the entry of `class` at index `t` was on the restricted candidate
/// list when it was taken.
pub open spec fn drawn_at(
    graph: &Graph,
    pool: Seq<usize>,
    size: nat,
    class: Seq<usize>,
    t: int,
) -> bool {
    is_candidate(
        graph,
        admissible_after(graph, pool, class, t as nat),
        inadmissible_after(graph, class, t as nat),
        size,
        class[t] as int,
    )
}

/// Whether `class` can come out of the randomized greedy construction on
/// `pool`: each entry was on the restricted candidate list when it was
/// taken, and after the last one no vertex is admissible.
pub open spec fn drawn_class(
    graph: &Graph,
    pool: Seq<usize>,
    size: nat,
    class: Seq<usize>,
) -> bool {
    &&& forall|t: int| 0 <= t < class.len() ==> #[trigger] drawn_at(graph, pool, size, class, t)
    &&& admissible_after(graph, pool, class, class.len()).len() == 0
}

/// What is admissible and what is ruled out after `t` entries depends on
/// these entries alone.
pub proof fn lemma_draws_agree(
    graph: &Graph,
    pool: Seq<usize>,
    a: Seq<usize>,
    b: Seq<usize>,
    t: nat,
)
    requires
        t <= a.len(),
        t <= b.len(),
        forall|i: int| 0 <= i < t ==> a[i] == b[i],
    ensures
        admissible_after(graph, pool, a, t) == admissible_after(graph, pool, b, t),
        inadmissible_after(graph, a, t) == inadmissible_after(graph, b, t),
    decreases t,
{
    if t > 0 {
        lemma_draws_agree(graph, pool, a, b, (t - 1) as nat);
    }
}

/// A candidate list of size one holds one vertex only.
pub proof fn lemma_single_candidate(
    graph: &Graph,
    admissible: Seq<usize>,
    inadmissible: Seq<usize>,
    u: int,
    v: int,
)
    requires
        is_candidate(graph, admissible, inadmissible, 1, u),
        is_candidate(graph, admissible, inadmissible, 1, v),
    ensures
        u == v,
{
    let list = ranked_against(admissible, inadmissible);
    let first = choose|ranking: Seq<usize>| #[trigger]
        top_ranked(graph, admissible, list, 1, ranking) && occurs_in(ranking, u);
    let second = choose|ranking: Seq<usize>| #[trigger]
        top_ranked(graph, admissible, list, 1, ranking) && occurs_in(ranking, v);
    assert(first.len() == 1 && first[0] == u);
    assert(second.len() == 1 && second[0] == v);
    if u != v {
        assert(eligible(graph, admissible, first[0] as int));
        assert(eligible(graph, admissible, second[0] as int));
        assert(!occurs_in(first, v));
        assert(!occurs_in(second, u));
        assert(ranks_before(graph, list, first[0] as int, v));
        assert(ranks_before(graph, list, second[0] as int, u));
    }
}

/// With a candidate list of size one the construction is fully greedy: it
/// takes the best-ranked admissible vertex each time, so the class is
/// determined by the graph and the pool.
pub proof fn lemma_greedy_class_unique(
    graph: &Graph,
    pool: Seq<usize>,
    a: Seq<usize>,
    b: Seq<usize>,
)
    requires
        drawn_class(graph, pool, 1, a),
        drawn_class(graph, pool, 1, b),
    ensures
        a == b,
{
    let shorter = if a.len() <= b.len() {
        a.len()
    } else {
        b.len()
    };
    lemma_greedy_prefix(graph, pool, a, b, shorter);
    lemma_draws_agree(graph, pool, a, b, shorter);
    if a.len() < b.len() {
        lemma_candidate_admissible(graph, pool, 1, b, a.len() as int);
    } else if b.len() < a.len() {
        lemma_candidate_admissible(graph, pool, 1, a, b.len() as int);
    }
    assert(a =~= b);
}

/// Two greedy classes on one pool agree on their first `t` entries.
pub proof fn lemma_greedy_prefix(
    graph: &Graph,
    pool: Seq<usize>,
    a: Seq<usize>,
    b: Seq<usize>,
    t: nat,
)
    requires
        drawn_class(graph, pool, 1, a),
        drawn_class(graph, pool, 1, b),
        t <= a.len(),
        t <= b.len(),
    ensures
        forall|i: int| 0 <= i < t ==> a[i] == b[i],
    decreases t,
{
    if t > 0 {
        let below = (t - 1) as nat;
        lemma_greedy_prefix(graph, pool, a, b, below);
        lemma_draws_agree(graph, pool, a, b, below);
        assert(drawn_at(graph, pool, 1, a, below as int));
        assert(drawn_at(graph, pool, 1, b, below as int));
        lemma_single_candidate(
            graph,
            admissible_after(graph, pool, a, below),
            inadmissible_after(graph, a, below),
            a[below as int] as int,
            b[below as int] as int,
        );
    }
}

/// An entry of a drawn class was admissible when it was taken.
pub proof fn lemma_candidate_admissible(
    graph: &Graph,
    pool: Seq<usize>,
    size: nat,
    class: Seq<usize>,
    t: int,
)
    requires
        drawn_class(graph, pool, size, class),
        0 <= t < class.len(),
    ensures
        occurs_in(admissible_after(graph, pool, class, t as nat), class[t] as int),
        class[t] < graph.order(),
{
    let admissible = admissible_after(graph, pool, class, t as nat);
    let inadmissible = inadmissible_after(graph, class, t as nat);
    assert(drawn_at(graph, pool, size, class, t));
    let ranking = choose|ranking: Seq<usize>| #[trigger]
        top_ranked(
            graph,
            admissible,
            ranked_against(admissible, inadmissible),
            size,
            ranking,
        ) && occurs_in(ranking, class[t] as int);
    let i = choose|i: int| 0 <= i < ranking.len() && ranking[i] == class[t];
    assert(eligible(graph, admissible, ranking[i] as int));
}

/// Takes `vertex` into the class under construction: it joins `class`, it
/// and its neighbours leave `admissible`, and its neighbours are appended to
/// `inadmissible`.
pub fn admit_vertex(
    graph: &Graph,
    vertex: usize,
    class: &mut Vec<usize>,
    admissible: &mut Vec<usize>,
    inadmissible: &mut Vec<usize>,
)
    requires
        graph.wf(),
        vertex < graph.order(),
    ensures
        final(class)@ == old(class)@.push(vertex),
        final(admissible)@ == without(
            old(admissible)@,
            graph.neighbors(vertex as int).push(vertex),
        ),
        final(inadmissible)@ == old(inadmissible)@ + graph.neighbors(vertex as int),
{
    class.push(vertex);
    let neighbors = graph.get_neighbors(vertex);
    let mut blocked: Vec<usize> = Vec::new();
    append_copy(&mut blocked, neighbors.as_slice());
    blocked.push(vertex);
    assert(blocked@ == graph.neighbors(vertex as int).push(vertex));
    let remaining = retain_absent(admissible.as_slice(), blocked.as_slice());
    *admissible = remaining;
    append_copy(inadmissible, neighbors.as_slice());
}

/// Whether `class` and `admissible` describe a class under construction on
/// `pool`: the class is an independent set of entries of `pool`, none twice;
/// the admissible vertices are entries of `pool` outside the class that are
/// adjacent to none of its entries; and every other entry of `pool` is in the
/// class or adjacent to one of its entries.
pub open spec fn class_in_progress(
    graph: &Graph,
    pool: Seq<usize>,
    class: Seq<usize>,
    admissible: Seq<usize>,
) -> bool {
    &&& class.no_duplicates()
    &&& independent(graph, class)
    &&& forall|i: int| 0 <= i < class.len() ==> occurs_in(pool, #[trigger] class[i] as int)
    &&& forall|x: int| #[trigger]
        occurs_in(admissible, x) ==> occurs_in(pool, x) && !occurs_in(class, x) && !blocked_by(
            graph,
            class,
            x,
        )
    &&& forall|k: int|
        0 <= k < pool.len() ==> occurs_in(class, #[trigger] pool[k] as int) || occurs_in(
            admissible,
            pool[k] as int,
        ) || blocked_by(graph, class, pool[k] as int)
}

/// Taking an admissible vertex keeps a class under construction one, and
/// leaves fewer vertices admissible.
pub proof fn lemma_admit_vertex(
    graph: &Graph,
    pool: Seq<usize>,
    class_before: Seq<usize>,
    admissible_before: Seq<usize>,
    vertex: usize,
)
    requires
        graph.wf(),
        vertex < graph.order(),
        class_in_progress(graph, pool, class_before, admissible_before),
        occurs_in(admissible_before, vertex as int),
    ensures
        class_in_progress(
            graph,
            pool,
            class_before.push(vertex),
            without(admissible_before, graph.neighbors(vertex as int).push(vertex)),
        ),
        without(admissible_before, graph.neighbors(vertex as int).push(vertex)).len()
            < admissible_before.len(),
{
    let class = class_before.push(vertex);
    let admissible = without(admissible_before, graph.neighbors(vertex as int).push(vertex));
    let blocked = graph.neighbors(vertex as int).push(vertex);
    lemma_without(admissible_before, blocked);
    graph.lemma_neighbors(vertex as int);
    let v = vertex as int;
    assert(class[class_before.len() as int] == vertex);
    assert forall|x: int| occurs_in(blocked, x) <==> (x == v || graph.adjacent(v, x)) by {
        if occurs_in(blocked, x) {
            let k = choose|k: int| 0 <= k < blocked.len() && blocked[k] == x;
            if k < blocked.len() - 1 {
                assert(graph.neighbors(v)[k] == x);
                assert(occurs_in(graph.neighbors(v), x));
            }
        }
        if x == v {
            assert(blocked[blocked.len() - 1] == x);
        }
        if graph.adjacent(v, x) {
            assert(occurs_in(graph.neighbors(v), x));
            let k = choose|k: int|
                0 <= k < graph.neighbors(v).len() && graph.neighbors(v)[k] == x;
            assert(blocked[k] == x);
        }
    }
    assert(occurs_in(blocked, v));
    assert(admissible.len() < admissible_before.len()) by {
        let k = choose|k: int|
            0 <= k < admissible_before.len() && admissible_before[k] == vertex;
        assert(occurs_in(blocked, admissible_before[k] as int));
    }
    assert forall|x: int| occurs_in(class, x) <==> (occurs_in(class_before, x) || x
        == v) by {
        if occurs_in(class_before, x) {
            let i = choose|i: int| 0 <= i < class_before.len() && class_before[i] == x;
            assert(class[i] == x);
        }
        if occurs_in(class, x) && x != v {
            let i = choose|i: int| 0 <= i < class.len() && class[i] == x;
            assert(class_before[i] == x);
        }
    }
    assert forall|x: int| blocked_by(graph, class, x) <==> (blocked_by(
        graph,
        class_before,
        x,
    ) || graph.adjacent(v, x)) by {
        if blocked_by(graph, class_before, x) {
            let i = choose|i: int|
                0 <= i < class_before.len() && #[trigger] graph.adjacent(
                    class_before[i] as int,
                    x,
                );
            assert(graph.adjacent(class[i] as int, x));
        }
        if graph.adjacent(v, x) {
            assert(graph.adjacent(class[class_before.len() as int] as int, x));
        }
        if blocked_by(graph, class, x) {
            let i = choose|i: int|
                0 <= i < class.len() && #[trigger] graph.adjacent(class[i] as int, x);
            if i < class_before.len() {
                assert(graph.adjacent(class_before[i] as int, x));
            }
        }
    }
    assert(!occurs_in(class_before, v) && !blocked_by(graph, class_before, v));
    assert(class.no_duplicates()) by {
        assert forall|i: int, j: int|
            0 <= i < class.len() && 0 <= j < class.len() && i != j implies class[i]
            != class[j] by {
            if i < class_before.len() {
                assert(class_before[i] == class[i]);
            }
            if j < class_before.len() {
                assert(class_before[j] == class[j]);
            }
        }
    }
    assert(independent(graph, class)) by {
        assert forall|i: int, j: int|
            0 <= i < class.len() && 0 <= j < class.len() implies !graph.adjacent(
            #[trigger] class[i] as int,
            #[trigger] class[j] as int,
        ) by {
            let a = class[i] as int;
            let b = class[j] as int;
            if graph.adjacent(a, b) {
                assert(graph@[a][b] == graph@[b][a]);
                assert(graph@[a].len() == graph.order() && graph@[b].len()
                    == graph.order());
                assert(graph.adjacent(b, a));
                assert(!graph@[a][a]);
                if i < class_before.len() && j < class_before.len() {
                    assert(class_before[i] == a && class_before[j] == b);
                } else if i < class_before.len() {
                    assert(graph.adjacent(class_before[i] as int, v));
                } else if j < class_before.len() {
                    assert(graph.adjacent(class_before[j] as int, v));
                }
            }
        }
    }
    assert forall|i: int| 0 <= i < class.len() implies occurs_in(
        pool,
        #[trigger] class[i] as int,
    ) by {
        if i < class_before.len() {
            assert(class_before[i] == class[i]);
        }
    }
    assert forall|x: int| #[trigger] occurs_in(admissible, x) implies occurs_in(pool, x)
        && !occurs_in(class, x) && !blocked_by(graph, class, x) by {
        assert(occurs_in(admissible_before, x));
        assert(!occurs_in(blocked, x));
    }
    assert forall|k: int| 0 <= k < pool.len() implies occurs_in(
        class,
        #[trigger] pool[k] as int,
    ) || occurs_in(admissible, pool[k] as int) || blocked_by(
        graph,
        class,
        pool[k] as int,
    ) by {
        let x = pool[k] as int;
        if occurs_in(admissible_before, x) && !occurs_in(admissible, x) {
            assert(occurs_in(blocked, x));
        }
    }
}

/// One randomized greedy color class on the uncolored vertices `pool`.
///
/// As long as a vertex of `pool` is neither taken nor adjacent to a taken
/// one, the `color_list_size` best of them are ranked, by their degree among
/// themselves before anything is taken and by their degree into the
/// neighbours of the taken vertices afterwards, and one of those is drawn at
/// random and taken.
pub fn build_class(graph: &Graph, pool: &[usize], color_list_size: usize) -> (class: Vec<usize>)
    requires
        graph.wf(),
        color_list_size >= 1,
        forall|k: int| 0 <= k < pool@.len() ==> #[trigger] pool@[k] < graph.order(),
    ensures
        is_new_class(graph, pool@, class@),
        drawn_class(graph, pool@, color_list_size as nat, class@),
{
    let mut admissible: Vec<usize> = Vec::new();
    append_copy(&mut admissible, pool);
    let mut inadmissible: Vec<usize> = Vec::new();
    let mut class: Vec<usize> = Vec::new();
    assert(admissible@ == pool@);
    while admissible.len() > 0
        invariant
            graph.wf(),
            color_list_size >= 1,
            forall|k: int| 0 <= k < pool@.len() ==> #[trigger] pool@[k] < graph.order(),
            class_in_progress(graph, pool@, class@, admissible@),
            admissible@ == admissible_after(graph, pool@, class@, class@.len()),
            inadmissible@ == inadmissible_after(graph, class@, class@.len()),
            forall|t: int|
                0 <= t < class@.len() ==> #[trigger] drawn_at(
                    graph,
                    pool@,
                    color_list_size as nat,
                    class@,
                    t,
                ),
        decreases admissible@.len(),
    {
        let candidates = if inadmissible.len() == 0 {
            get_n_largest_degree(&color_list_size, graph, admissible.as_slice(), None)
        } else {
            get_n_largest_degree(
                &color_list_size,
                graph,
                admissible.as_slice(),
                Some(inadmissible.as_slice()),
            )
        };
        proof {
            let head = admissible@[0] as int;
            assert(occurs_in(admissible@, head));
            assert(occurs_in(pool@, head));
            let k = choose|k: int| 0 <= k < pool@.len() && pool@[k] == head;
            assert(pool@[k] < graph.order());
            assert(eligible(graph, admissible@, head));
            if candidates@.len() == 0 {
                assert(!occurs_in(candidates@, head));
            }
        }
        let picked = pick_at_random(&candidates);
        let vertex = picked.unwrap();
        proof {
            let k = choose|k: int| 0 <= k < candidates@.len() && candidates@[k] == vertex;
            assert(eligible(graph, admissible@, candidates@[k] as int));
            assert(top_ranked(
                graph,
                admissible@,
                ranked_against(admissible@, inadmissible@),
                color_list_size as nat,
                candidates@,
            ));
            assert(is_candidate(
                graph,
                admissible@,
                inadmissible@,
                color_list_size as nat,
                vertex as int,
            ));
        }
        let ghost class_before = class@;
        let ghost admissible_before = admissible@;
        admit_vertex(graph, vertex, &mut class, &mut admissible, &mut inadmissible);
        proof {
            assert forall|t: int| 0 <= t < class@.len() implies #[trigger] drawn_at(
                graph,
                pool@,
                color_list_size as nat,
                class@,
                t,
            ) by {
                lemma_draws_agree(graph, pool@, class@, class_before, t as nat);
                if t < class_before.len() {
                    assert(class@[t] == class_before[t]);
                    assert(drawn_at(graph, pool@, color_list_size as nat, class_before, t));
                }
            }
            lemma_draws_agree(graph, pool@, class@, class_before, class_before.len());
            lemma_admit_vertex(graph, pool@, class_before, admissible_before, vertex);
        }
    }
    proof {
        assert forall|k: int| 0 <= k < pool@.len() implies occurs_in(
            class@,
            #[trigger] pool@[k] as int,
        ) || blocked_by(graph, class@, pool@[k] as int) by {
            let x = pool@[k] as int;
            if occurs_in(admissible@, x) {
                let i = choose|i: int| 0 <= i < admissible@.len() && admissible@[i] == x;
            }
        }
    }
    class
}

/// Scores `class` by the number of edges left among the vertices of `pool`
/// outside it, and writes it into the slot of color `num_color_classes` if
/// that score is below `min_num_edges_remaining`, which then takes the score.
/// Returns whether the class was written.
pub fn commit_if_better(
    graph: &Graph,
    pool: &[usize],
    class: Vec<usize>,
    min_num_edges_remaining: &mut usize,
    class_list: &mut [Vec<usize>],
    num_color_classes: usize,
) -> (committed: bool)
    requires
        graph.wf(),
        forall|k: int| 0 <= k < pool@.len() ==> #[trigger] pool@[k] < graph.order(),
        pool@.len() * pool@.len() <= usize::MAX,
        1 <= num_color_classes <= old(class_list)@.len(),
    ensures
        committed == (edges_within(graph, without(pool@, class@)) < *old(min_num_edges_remaining)),
        *old(min_num_edges_remaining) == usize::MAX ==> committed,
        committed ==> *final(min_num_edges_remaining) == edges_within(
            graph,
            without(pool@, class@),
        ) && final(class_list)@ == old(class_list)@.update(num_color_classes - 1, class),
        !committed ==> *final(min_num_edges_remaining) == *old(min_num_edges_remaining)
            && final(class_list)@ == old(class_list)@,
{
    let remaining_vertices = retain_absent(pool, class.as_slice());
    proof {
        let rest = remaining_vertices@;
        lemma_without(pool@, class@);
        assert forall|k: int| 0 <= k < rest.len() implies #[trigger] rest[k] < graph.order() by {
            assert(occurs_in(rest, rest[k] as int));
            let j = choose|j: int| 0 <= j < pool@.len() && pool@[j] == rest[k];
        }
        assert(rest.len() * rest.len() <= pool@.len() * pool@.len()) by (nonlinear_arith)
            requires
                rest.len() <= pool@.len(),
        ;
        lemma_edges_among_bounded(graph, rest, rest.len());
    }
    let remaining_edges = count_remaining_edges(graph, remaining_vertices.as_slice());
    if remaining_edges < *min_num_edges_remaining {
        class_list[num_color_classes - 1] = class;
        *min_num_edges_remaining = remaining_edges;
        true
    } else {
        false
    }
}

/// One trial for the class of color `num_color_classes`: builds a randomized
/// greedy class on the uncolored vertices `vertex_set` and keeps it in its
/// slot of `class_list` if it leaves fewer edges among the other uncolored
/// vertices than `min_num_edges_remaining`, which then takes that number.
///
/// A trial against `usize::MAX` always keeps its class.
pub fn assign_color(
    vertex_set: &[usize],
    color_list_size: usize,
    graph: &Graph,
    min_num_edges_remaining: &mut usize,
    class_list: &mut [Vec<usize>],
    num_color_classes: usize,
)
    requires
        graph.wf(),
        color_list_size >= 1,
        forall|k: int| 0 <= k < vertex_set@.len() ==> #[trigger] vertex_set@[k] < graph.order(),
        vertex_set@.len() * vertex_set@.len() <= usize::MAX,
        1 <= num_color_classes <= old(class_list)@.len(),
    ensures
        *final(min_num_edges_remaining) <= *old(min_num_edges_remaining),
        *old(min_num_edges_remaining) == usize::MAX ==> *final(min_num_edges_remaining)
            < usize::MAX,
        *final(min_num_edges_remaining) == *old(min_num_edges_remaining) ==> final(class_list)@
            == old(class_list)@,
        *final(min_num_edges_remaining) < *old(min_num_edges_remaining) ==> ({
            let class = final(class_list)@[num_color_classes - 1]@;
            &&& is_new_class(graph, vertex_set@, class)
            &&& drawn_class(graph, vertex_set@, color_list_size as nat, class)
            &&& *final(min_num_edges_remaining) == edges_within(graph, without(vertex_set@, class))
            &&& final(class_list)@.len() == old(class_list)@.len()
            &&& forall|c: int|
                0 <= c < old(class_list)@.len() && c != num_color_classes - 1
                    ==> final(class_list)@[c] == old(class_list)@[c]
        }),
{
    let current_color_class = build_class(graph, vertex_set, color_list_size);
    commit_if_better(
        graph,
        vertex_set,
        current_color_class,
        min_num_edges_remaining,
        class_list,
        num_color_classes,
    );
}

/// The vertices that the first `c` classes leave uncolored, in ascending
/// order.
pub open spec fn uncolored_after(n: nat, cs: Seq<Seq<usize>>, c: nat) -> Seq<usize>
    decreases c,
{
    if c == 0 {
        Seq::new(n, |v: int| v as usize)
    } else {
        without(uncolored_after(n, cs, (c - 1) as nat), cs[c - 1])
    }
}

/// Whether the class at index `c` can come out of the randomized greedy
/// construction on the vertices that the classes before it leave uncolored.
pub open spec fn built_at(graph: &Graph, cs: Seq<Seq<usize>>, size: nat, c: int) -> bool {
    &&& is_new_class(graph, uncolored_after(graph.order(), cs, c as nat), cs[c])
    &&& drawn_class(graph, uncolored_after(graph.order(), cs, c as nat), size, cs[c])
}

/// Whether the class list is a proper coloring with `k` colors that the
/// construction phase can give with candidate lists of the given size.
pub open spec fn greedy_coloring(graph: &Graph, cs: Seq<Seq<usize>>, k: nat, size: nat) -> bool {
    &&& valid_coloring(graph, cs, k)
    &&& forall|c: int| 0 <= c < k ==> #[trigger] built_at(graph, cs, size, c)
}

/// What the first `c` classes leave uncolored depends on these classes
/// alone.
pub proof fn lemma_uncolored_agree(n: nat, a: Seq<Seq<usize>>, b: Seq<Seq<usize>>, c: nat)
    requires
        c <= a.len(),
        c <= b.len(),
        forall|i: int| 0 <= i < c ==> a[i] == b[i],
    ensures
        uncolored_after(n, a, c) == uncolored_after(n, b, c),
    decreases c,
{
    if c > 0 {
        lemma_uncolored_agree(n, a, b, (c - 1) as nat);
    }
}

/// The vertices left uncolored by the first `c` classes are the vertices
/// that are in none of them.
pub proof fn lemma_uncolored_members(n: nat, cs: Seq<Seq<usize>>, c: nat, x: int)
    requires
        c <= cs.len(),
        n <= usize::MAX,
    ensures
        occurs_in(uncolored_after(n, cs, c), x) <==> 0 <= x < n && forall|d: int|
            0 <= d < c ==> !in_class(cs, d, x),
    decreases c,
{
    if c == 0 {
        let all = Seq::new(n, |v: int| v as usize);
        if 0 <= x < n {
            assert(all[x] == x);
        }
        if occurs_in(all, x) {
            let k = choose|k: int| 0 <= k < all.len() && all[k] == x;
        }
    } else {
        lemma_uncolored_members(n, cs, (c - 1) as nat, x);
        lemma_without(uncolored_after(n, cs, (c - 1) as nat), cs[c - 1]);
        if 0 <= x < n && forall|d: int| 0 <= d < c - 1 ==> !in_class(cs, d, x) {
            if !occurs_in(cs[c - 1], x) {
                assert forall|d: int| 0 <= d < c implies !in_class(cs, d, x) by {}
            } else {
                assert(in_class(cs, c - 1, x));
            }
        }
    }
}

/// With candidate lists of size one the construction phase is determined by
/// the graph: it is the fully greedy construction in the order of the
/// degrees, and any two of its results are the same coloring.
pub proof fn lemma_greedy_coloring_unique(
    graph: &Graph,
    a: Seq<Seq<usize>>,
    k: nat,
    b: Seq<Seq<usize>>,
    l: nat,
)
    requires
        graph.wf(),
        greedy_coloring(graph, a, k, 1),
        greedy_coloring(graph, b, l, 1),
    ensures
        k == l,
        a == b,
{
    let n = graph.order();
    graph.lemma_order_fits();
    let shared = if k <= l {
        k
    } else {
        l
    };
    lemma_greedy_classes_agree(graph, a, k, b, l, shared);
    lemma_uncolored_agree(n, a, b, shared);
    if k < l {
        lemma_all_colored(graph, a, k);
        assert(built_at(graph, b, 1, k as int));
        assert(occurs_in(uncolored_after(n, b, k), b[k as int][0] as int));
    } else if l < k {
        lemma_all_colored(graph, b, l);
        assert(built_at(graph, a, 1, l as int));
        assert(occurs_in(uncolored_after(n, a, l), a[l as int][0] as int));
    }
    assert forall|c: int| 0 <= c < n implies a[c] == b[c] by {
        if c >= k {
            assert(a[c] =~= b[c]);
        }
    }
    assert(a =~= b);
}

/// The classes of a proper coloring with `k` colors leave nothing uncolored.
pub proof fn lemma_all_colored(graph: &Graph, cs: Seq<Seq<usize>>, k: nat)
    requires
        graph.wf(),
        valid_coloring(graph, cs, k),
    ensures
        uncolored_after(graph.order(), cs, k).len() == 0,
{
    let n = graph.order();
    let left = uncolored_after(n, cs, k);
    graph.lemma_order_fits();
    if left.len() > 0 {
        let x = left[0] as int;
        assert(occurs_in(left, x));
        lemma_uncolored_members(n, cs, k, x);
        assert(is_colored(cs, x));
        let c = choose|c: int| in_class(cs, c, x);
        let i = choose|i: int| 0 <= i < cs[c].len() && cs[c][i] == x;
        assert(cs[c].len() > 0);
        assert(in_class(cs, c, x));
    }
}

/// Two fully greedy colorings of one graph agree on their first `c` classes.
pub proof fn lemma_greedy_classes_agree(
    graph: &Graph,
    a: Seq<Seq<usize>>,
    k: nat,
    b: Seq<Seq<usize>>,
    l: nat,
    c: nat,
)
    requires
        greedy_coloring(graph, a, k, 1),
        greedy_coloring(graph, b, l, 1),
        c <= k,
        c <= l,
    ensures
        forall|i: int| 0 <= i < c ==> a[i] == b[i],
    decreases c,
{
    if c > 0 {
        let below = (c - 1) as nat;
        lemma_greedy_classes_agree(graph, a, k, b, l, below);
        lemma_uncolored_agree(graph.order(), a, b, below);
        assert(built_at(graph, a, 1, below as int));
        assert(built_at(graph, b, 1, below as int));
        lemma_greedy_class_unique(
            graph,
            uncolored_after(graph.order(), a, below),
            a[below as int],
            b[below as int],
        );
    }
}

/// Whether the construction stands between two classes: `k` classes are
/// closed, they hold different vertices and no two adjacent ones in one
/// class, and `pool` holds the vertices that are in none of them.
pub open spec fn construction_state(
    graph: &Graph,
    cs: Seq<Seq<usize>>,
    k: nat,
    pool: Seq<usize>,
) -> bool {
    &&& cs.len() == graph.order()
    &&& k + pool.len() <= graph.order()
    &&& packed(cs, k)
    &&& entries_below(cs, graph.order())
    &&& distinct_entries(cs)
    &&& proper(graph, cs)
    &&& forall|j: int| 0 <= j < pool.len() ==> #[trigger] pool[j] < graph.order()
    &&& forall|x: int| occurs_in(pool, x) ==> !is_colored(cs, x)
    &&& forall|w: int| 0 <= w < graph.order() ==> #[trigger] is_colored(cs, w) || occurs_in(pool, w)
}

/// Closing a new class on a pool that is not empty leads from one state of
/// the construction to the next, with a smaller pool.
pub proof fn lemma_class_closed(
    graph: &Graph,
    old_cs: Seq<Seq<usize>>,
    k: nat,
    pool: Seq<usize>,
    class: Seq<usize>,
)
    requires
        construction_state(graph, old_cs, k, pool),
        pool.len() > 0,
        is_new_class(graph, pool, class),
    ensures
        construction_state(graph, old_cs.update(k as int, class), k + 1, without(pool, class)),
        without(pool, class).len() < pool.len(),
{
    let n = graph.order();
    let slot = k as int;
    let cs = old_cs.update(slot, class);
    let rest = without(pool, class);
    lemma_without(pool, class);
    assert(old_cs[slot].len() == 0);
    assert forall|c: int| 0 <= c < n && c != slot implies #[trigger] cs[c] == old_cs[c] by {}
    assert(class.len() > 0) by {
        assert(occurs_in(class, pool[0] as int) || blocked_by(graph, class, pool[0] as int));
    }
    assert(occurs_in(pool, class[0] as int));
    assert(rest.len() < pool.len()) by {
        let j = choose|j: int| 0 <= j < pool.len() && pool[j] == class[0];
        assert(occurs_in(class, pool[j] as int));
    }
    assert forall|c: int, x: int|
        in_class(cs, c, x) <==> (if c == slot {
            occurs_in(class, x)
        } else {
            in_class(old_cs, c, x)
        }) by {}
    assert forall|x: int| is_colored(cs, x) <==> (is_colored(old_cs, x) || occurs_in(class, x)) by {
        if is_colored(old_cs, x) {
            let c = choose|c: int| in_class(old_cs, c, x);
            assert(in_class(cs, c, x));
        }
        if occurs_in(class, x) {
            assert(in_class(cs, slot, x));
        }
        if is_colored(cs, x) {
            let c = choose|c: int| in_class(cs, c, x);
            if c != slot {
                assert(in_class(old_cs, c, x));
            }
        }
    }
    assert(entries_below(cs, n)) by {
        assert forall|c: int, i: int|
            0 <= c < cs.len() && 0 <= i < cs[c].len() implies #[trigger] cs[c][i] < n by {
            if c == slot {
                assert(occurs_in(pool, class[i] as int));
                let j = choose|j: int| 0 <= j < pool.len() && pool[j] == class[i];
            } else {
                assert(old_cs[c][i] < n);
            }
        }
    }
    assert(distinct_entries(cs)) by {
        assert forall|c: int, i: int, d: int, j: int|
            0 <= c < cs.len() && 0 <= i < cs[c].len() && 0 <= d < cs.len() && 0 <= j < cs[d].len()
                && #[trigger] cs[c][i] == #[trigger] cs[d][j] implies c == d && i == j by {
            if c == slot && d != slot {
                assert(occurs_in(pool, class[i] as int));
                assert(old_cs[d][j] == class[i]);
                assert(in_class(old_cs, d, class[i] as int));
                assert(is_colored(old_cs, class[i] as int));
            } else if c != slot && d == slot {
                assert(occurs_in(pool, class[j] as int));
                assert(old_cs[c][i] == class[j]);
                assert(in_class(old_cs, c, class[j] as int));
                assert(is_colored(old_cs, class[j] as int));
            } else if c != slot && d != slot {
                assert(old_cs[c][i] == old_cs[d][j]);
            }
        }
    }
    assert(proper(graph, cs)) by {
        assert forall|c: int, i: int, j: int|
            0 <= c < cs.len() && 0 <= i < cs[c].len() && 0 <= j < cs[c].len() implies !graph.adjacent(
            #[trigger] cs[c][i] as int,
            #[trigger] cs[c][j] as int,
        ) by {
            if c != slot {
                assert(!graph.adjacent(old_cs[c][i] as int, old_cs[c][j] as int));
            }
        }
    }
    assert(packed(cs, k + 1)) by {
        assert forall|c: int| 0 <= c < k + 1 implies (#[trigger] cs[c]).len() > 0 by {
            if c != slot {
                assert(old_cs[c].len() > 0);
            }
        }
        assert forall|c: int| k + 1 <= c < cs.len() implies (#[trigger] cs[c]).len() == 0 by {
            assert(old_cs[c].len() == 0);
        }
    }
    assert forall|j: int| 0 <= j < rest.len() implies #[trigger] rest[j] < n by {
        assert(occurs_in(rest, rest[j] as int));
        let i = choose|i: int| 0 <= i < pool.len() && pool[i] == rest[j];
    }
    assert forall|w: int| 0 <= w < n implies #[trigger] is_colored(cs, w) || occurs_in(rest, w) by {
        assert(is_colored(old_cs, w) || occurs_in(pool, w));
    }
}

/// Builds a proper coloring greedily: as long as vertices are uncolored, a new
/// class is opened, `color_iterations` trial classes are built for it, and
/// the one that leaves the fewest edges among the vertices still uncolored
/// is kept, the earliest such on a tie. Returns the number of classes and the
/// class list, which has one slot for each vertex.
///
/// Every class is an independent set of the vertices that the classes before
/// it left uncolored, drawn from restricted candidate lists, that none of
/// these vertices can join.
pub fn construction_phase(graph: &Graph, color_iterations: i32, color_list_size: usize) -> (built:
    (usize, Vec<Vec<usize>>))
    requires
        graph.wf(),
        color_iterations >= 1,
        color_list_size >= 1,
    ensures
        greedy_coloring(graph, classes(built.1@), built.0 as nat, color_list_size as nat),
{
    let n = graph.num_vertices();
    let mut vertex_set: Vec<usize> = Vec::new();
    let mut class_list: Vec<Vec<usize>> = Vec::new();
    let mut v: usize = 0;
    while v < n
        invariant
            v <= n,
            vertex_set@.len() == v,
            class_list@.len() == v,
            forall|w: int| 0 <= w < v ==> #[trigger] vertex_set@[w] == w,
            forall|w: int| 0 <= w < v ==> (#[trigger] class_list@[w])@.len() == 0,
        decreases n - v,
    {
        vertex_set.push(v);
        class_list.push(Vec::new());
        v += 1;
    }
    let mut num_color_classes: usize = 0;
    proof {
        let cs = classes(class_list@);
        assert forall|w: int| 0 <= w < n implies occurs_in(vertex_set@, w) by {
            assert(vertex_set@[w] == w);
        }
        assert forall|x: int| !is_colored(cs, x) by {
            if is_colored(cs, x) {
                let c = choose|c: int| in_class(cs, c, x);
                assert(cs[c].len() == 0);
            }
        }
        assert(vertex_set@ =~= uncolored_after(n as nat, cs, 0));
    }
    while vertex_set.len() > 0
        invariant
            graph.wf(),
            n == graph.order(),
            color_iterations >= 1,
            color_list_size >= 1,
            construction_state(
                graph,
                classes(class_list@),
                num_color_classes as nat,
                vertex_set@,
            ),
            vertex_set@ == uncolored_after(
                n as nat,
                classes(class_list@),
                num_color_classes as nat,
            ),
            forall|c: int|
                0 <= c < num_color_classes ==> #[trigger] built_at(
                    graph,
                    classes(class_list@),
                    color_list_size as nat,
                    c,
                ),
        decreases vertex_set@.len(),
    {
        let ghost before = class_list@;
        let ghost pool = vertex_set@;
        let mut min_num_edges_remaining = usize::MAX;
        num_color_classes += 1;
        proof {
            assert(pool.len() * pool.len() <= n * n) by (nonlinear_arith)
                requires
                    pool.len() <= n,
            ;
        }
        let mut trial: i32 = 0;
        while trial < color_iterations
            invariant
                graph.wf(),
                n == graph.order(),
                color_list_size >= 1,
                0 <= trial <= color_iterations,
                pool == vertex_set@,
                pool.len() * pool.len() <= usize::MAX,
                forall|j: int| 0 <= j < pool.len() ==> #[trigger] pool[j] < n,
                1 <= num_color_classes <= n,
                class_list@.len() == n,
                before.len() == n,
                forall|c: int|
                    0 <= c < n && c != num_color_classes - 1 ==> class_list@[c] == before[c],
                trial == 0 ==> min_num_edges_remaining == usize::MAX,
                trial > 0 ==> min_num_edges_remaining < usize::MAX,
                min_num_edges_remaining < usize::MAX ==> is_new_class(
                    graph,
                    pool,
                    class_list@[num_color_classes - 1]@,
                ) && drawn_class(
                    graph,
                    pool,
                    color_list_size as nat,
                    class_list@[num_color_classes - 1]@,
                ),
            decreases color_iterations - trial,
        {
            assign_color(
                vertex_set.as_slice(),
                color_list_size,
                graph,
                &mut min_num_edges_remaining,
                class_list.as_mut_slice(),
                num_color_classes,
            );
            trial += 1;
        }
        let slot = num_color_classes - 1;
        vertex_set = retain_absent(vertex_set.as_slice(), class_list[slot].as_slice());
        proof {
            let old_cs = classes(before);
            let cs = classes(class_list@);
            let class = cs[slot as int];
            lemma_class_closed(graph, old_cs, slot as nat, pool, class);
            assert(cs =~= old_cs.update(slot as int, class));
            assert forall|c: int| 0 <= c < num_color_classes implies #[trigger] built_at(
                graph,
                cs,
                color_list_size as nat,
                c,
            ) by {
                lemma_uncolored_agree(n as nat, cs, old_cs, c as nat);
                if c < slot {
                    assert(built_at(graph, old_cs, color_list_size as nat, c));
                }
            }
            lemma_uncolored_agree(n as nat, cs, old_cs, slot as nat);
        }
    }
    proof {
        let cs = classes(class_list@);
        assert forall|w: int| 0 <= w < n implies #[trigger] is_colored(cs, w) by {
            if occurs_in(vertex_set@, w) {
                let k = choose|k: int| 0 <= k < vertex_set@.len() && vertex_set@[k] == w;
            }
        }
    }
    (num_color_classes, class_list)
}

} // verus!
