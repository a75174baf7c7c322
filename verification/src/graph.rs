//! Undirected simple graphs over the dense vertex indices `0..n`, stored as a
//! symmetric adjacency matrix.

use crate::lists::{contains, occurs_in};
use vstd::prelude::*;

verus! {

/// An undirected simple graph on the vertices `0..n`.
pub struct Graph {
    adjacency: Vec<Vec<bool>>,
}

impl View for Graph {
    type V = Seq<Seq<bool>>;

    /// The adjacency matrix, row by row.
    closed spec fn view(&self) -> Seq<Seq<bool>> {
        Seq::new(self.adjacency@.len(), |i: int| self.adjacency@[i]@)
    }
}

/// Whether row `a`, column `b` of `matrix` exists and is set.
pub open spec fn matrix_entry(matrix: Seq<Seq<bool>>, a: int, b: int) -> bool {
    0 <= a < matrix.len() && 0 <= b < matrix[a].len() && matrix[a][b]
}

/// The rows of a nested vector as a sequence of sequences.
pub open spec fn rows_of(matrix: &Vec<Vec<bool>>) -> Seq<Seq<bool>> {
    Seq::new(matrix@.len(), |i: int| matrix@[i]@)
}

impl Graph {
    /// The number of vertices.
    pub open spec fn order(&self) -> nat {
        self@.len()
    }

    /// Whether `u` and `v` are vertices joined by an edge.
    pub open spec fn adjacent(&self, u: int, v: int) -> bool {
        0 <= u < self.order() && 0 <= v < self.order() && matrix_entry(self@, u, v)
    }

    /// The matrix is square, symmetric and has an empty diagonal, and the
    /// number of vertex pairs fits in a machine word.
    pub open spec fn wf(&self) -> bool {
        &&& self.order() * self.order() <= usize::MAX
        &&& forall|i: int| 0 <= i < self.order() ==> (#[trigger] self@[i]).len() == self.order()
        &&& forall|i: int| 0 <= i < self.order() ==> !(#[trigger] self@[i])[i]
        &&& forall|i: int, j: int|
            0 <= i < self.order() && 0 <= j < self.order() ==> self@[i][j] == self@[j][i]
    }

    /// No two vertices are adjacent.
    pub open spec fn edgeless(&self) -> bool {
        forall|u: int, v: int| !self.adjacent(u, v)
    }

    /// Every two distinct vertices are adjacent.
    pub open spec fn complete(&self) -> bool {
        forall|u: int, v: int|
            0 <= u < self.order() && 0 <= v < self.order() && u != v ==> self.adjacent(u, v)
    }

    /// The number of vertices below `bound` that are adjacent to `v` and occur
    /// in `list`.
    pub open spec fn degree_below(&self, v: int, list: Seq<usize>, bound: nat) -> nat
        decreases bound,
    {
        if bound == 0 {
            0
        } else {
            self.degree_below(v, list, (bound - 1) as nat) + if self.adjacent(v, bound - 1)
                && occurs_in(list, bound - 1) {
                1nat
            } else {
                0nat
            }
        }
    }

    /// The degree of `v` measured against `list`: the number of neighbours of
    /// `v` that occur in `list`, each counted once however often it occurs.
    pub open spec fn degree_in(&self, v: int, list: Seq<usize>) -> nat {
        self.degree_below(v, list, self.order())
    }

    /// The neighbours of `v` below `bound`, in ascending order.
    pub open spec fn neighbors_below(&self, v: int, bound: nat) -> Seq<usize>
        decreases bound,
    {
        if bound == 0 {
            Seq::empty()
        } else if self.adjacent(v, bound - 1) {
            self.neighbors_below(v, (bound - 1) as nat).push((bound - 1) as usize)
        } else {
            self.neighbors_below(v, (bound - 1) as nat)
        }
    }

    /// The neighbours of `v`, in ascending order.
    pub open spec fn neighbors(&self, v: int) -> Seq<usize> {
        self.neighbors_below(v, self.order())
    }

    /// The number of vertices of a well-formed graph fits in a machine word.
    pub proof fn lemma_order_fits(&self)
        requires
            self.wf(),
        ensures
            self.order() <= usize::MAX,
    {
        let n = self.order();
        assert(n <= n * n) by (nonlinear_arith);
    }

    /// The neighbour list holds exactly the neighbours, each below the bound.
    pub proof fn lemma_neighbors_below(&self, v: int, bound: nat)
        requires
            self.wf(),
        ensures
            forall|u: int|
                #[trigger] occurs_in(self.neighbors_below(v, bound), u) <==> 0 <= u < bound
                    && self.adjacent(v, u),
        decreases bound,
    {
        if bound > 0 {
            let below = (bound - 1) as nat;
            let rest = self.neighbors_below(v, below);
            let all = self.neighbors_below(v, bound);
            self.lemma_neighbors_below(v, below);
            self.lemma_order_fits();
            assert forall|u: int| #[trigger]
                occurs_in(all, u) <==> 0 <= u < bound && self.adjacent(v, u) by {
                if occurs_in(all, u) {
                    let k = choose|k: int| 0 <= k < all.len() && all[k] == u;
                    if k < rest.len() {
                        assert(rest[k] == u);
                        assert(occurs_in(rest, u));
                    }
                }
                if 0 <= u < bound && self.adjacent(v, u) {
                    if u < below {
                        assert(occurs_in(rest, u));
                        let k = choose|k: int| 0 <= k < rest.len() && rest[k] == u;
                        assert(all[k] == u);
                    } else {
                        assert(all[all.len() - 1] == u);
                    }
                }
            }
        }
    }

    /// The neighbour list of `v` holds exactly the neighbours of `v`.
    pub proof fn lemma_neighbors(&self, v: int)
        requires
            self.wf(),
        ensures
            forall|u: int| #[trigger] occurs_in(self.neighbors(v), u) <==> self.adjacent(v, u),
    {
        self.lemma_neighbors_below(v, self.order());
    }

    /// An edgeless graph on `n` vertices.
    pub fn new(n: usize) -> (graph: Graph)
        requires
            n * n <= usize::MAX,
        ensures
            graph.wf(),
            graph.order() == n,
            graph.edgeless(),
    {
        let mut adjacency: Vec<Vec<bool>> = Vec::new();
        let mut i: usize = 0;
        while i < n
            invariant
                i <= n,
                adjacency@.len() == i,
                forall|a: int| 0 <= a < i ==> (#[trigger] adjacency@[a])@.len() == n,
                forall|a: int, b: int| 0 <= a < i && 0 <= b < n ==> !adjacency@[a]@[b],
            decreases n - i,
        {
            let mut row: Vec<bool> = Vec::new();
            let mut j: usize = 0;
            while j < n
                invariant
                    j <= n,
                    row@.len() == j,
                    forall|b: int| 0 <= b < j ==> !row@[b],
                decreases n - j,
            {
                row.push(false);
                j += 1;
            }
            adjacency.push(row);
            i += 1;
        }
        Graph { adjacency }
    }

    /// The number of vertices.
    pub fn num_vertices(&self) -> (n: usize)
        ensures
            n == self.order(),
    {
        self.adjacency.len()
    }

    /// The adjacency matrix: entry `[u][v]` tells whether `u` and `v` are
    /// adjacent.
    pub fn adjacency_matrix(&self) -> (matrix: &Vec<Vec<bool>>)
        ensures
            rows_of(matrix) == self@,
    {
        &self.adjacency
    }

    /// Whether `u` and `v` are joined by an edge; `false` where either is no
    /// vertex of the graph.
    pub fn has_edge(&self, u: usize, v: usize) -> (present: bool)
        requires
            self.wf(),
        ensures
            present == self.adjacent(u as int, v as int),
    {
        let n = self.adjacency.len();
        if u < n && v < n {
            assert(self@[u as int].len() == n);
            self.adjacency[u][v]
        } else {
            false
        }
    }

    /// Joins `u` and `v` by an edge. Nothing changes where they are equal or
    /// one of them is no vertex of the graph; the result tells whether the
    /// pair was accepted.
    pub fn add_edge(&mut self, u: usize, v: usize) -> (accepted: bool)
        requires
            old(self).wf(),
        ensures
            final(self).wf(),
            final(self).order() == old(self).order(),
            accepted == (u != v && u < old(self).order() && v < old(self).order()),
            forall|a: int, b: int|
                final(self).adjacent(a, b) == (old(self).adjacent(a, b) || (accepted && ((a == u
                    && b == v) || (a == v && b == u)))),
    {
        let n = self.adjacency.len();
        if u == v || u >= n || v >= n {
            return false;
        }
        assert(self@[u as int].len() == n && self@[v as int].len() == n);
        self.adjacency[u][v] = true;
        self.adjacency[v][u] = true;
        proof {
            let before = old(self)@;
            let after = self@;
            assert forall|i: int| 0 <= i < n implies #[trigger] after[i] == (if i == u {
                before[i].update(v as int, true)
            } else if i == v {
                before[i].update(u as int, true)
            } else {
                before[i]
            }) by {}
            assert forall|i: int| 0 <= i < n implies (#[trigger] after[i]).len() == n by {
                assert(before[i].len() == n);
            }
            assert forall|i: int, j: int| 0 <= i < n && 0 <= j < n implies after[i][j]
                == after[j][i] by {
                assert(before[i].len() == n && before[j].len() == n);
                assert(before[i][j] == before[j][i]);
            }
            assert forall|i: int| 0 <= i < n implies !(#[trigger] after[i])[i] by {
                assert(!before[i][i]);
            }
            assert forall|a: int, b: int|
                self.adjacent(a, b) == (old(self).adjacent(a, b) || ((a == u && b == v) || (a == v
                    && b == u))) by {
                if 0 <= a < n && 0 <= b < n {
                    assert(before[a].len() == n);
                }
            }
        }
        true
    }

    /// Adds an edge for every set entry `[a][b]` of `matrix` with `a != b`
    /// that names two vertices of the graph; other entries are ignored.
    pub fn add_edges_from_matrix(&mut self, matrix: Vec<Vec<bool>>)
        requires
            old(self).wf(),
        ensures
            final(self).wf(),
            final(self).order() == old(self).order(),
            forall|a: int, b: int|
                final(self).adjacent(a, b) == (old(self).adjacent(a, b) || (a != b && 0 <= a
                    < old(self).order() && 0 <= b < old(self).order() && (matrix_entry(
                    rows_of(&matrix),
                    a,
                    b,
                ) || matrix_entry(rows_of(&matrix), b, a)))),
    {
        let n = self.adjacency.len();
        let ghost before = *self;
        let ghost given = rows_of(&matrix);
        let mut i: usize = 0;
        while i < n
            invariant
                i <= n,
                n == before.order(),
                given == rows_of(&matrix),
                self.wf(),
                self.order() == n,
                forall|a: int, b: int|
                    self.adjacent(a, b) == (before.adjacent(a, b) || (a != b && 0 <= a < n && 0
                        <= b < n && ((a < i && matrix_entry(given, a, b)) || (b < i
                        && matrix_entry(given, b, a))))),
            decreases n - i,
        {
            let mut j: usize = 0;
            while j < n
                invariant
                    i < n,
                    j <= n,
                    n == before.order(),
                    given == rows_of(&matrix),
                    self.wf(),
                    self.order() == n,
                    forall|a: int, b: int|
                        self.adjacent(a, b) == (before.adjacent(a, b) || (a != b && 0 <= a < n && 0
                            <= b < n && (((a < i || (a == i && b < j)) && matrix_entry(given, a, b))
                            || ((b < i || (b == i && a < j)) && matrix_entry(given, b, a))))),
                decreases n - j,
            {
                if i < matrix.len() && j < matrix[i].len() && matrix[i][j] {
                    self.add_edge(i, j);
                }
                j += 1;
            }
            i += 1;
        }
    }

    /// The neighbours of `v`, in ascending order.
    pub fn get_neighbors(&self, v: usize) -> (neighbors: Vec<usize>)
        requires
            self.wf(),
            v < self.order(),
        ensures
            neighbors@ == self.neighbors(v as int),
    {
        let n = self.adjacency.len();
        let mut neighbors: Vec<usize> = Vec::new();
        let mut u: usize = 0;
        assert(self@[v as int].len() == n);
        while u < n
            invariant
                u <= n,
                n == self.order(),
                v < n,
                self@[v as int].len() == n,
                neighbors@ == self.neighbors_below(v as int, u as nat),
            decreases n - u,
        {
            if self.adjacency[v][u] {
                neighbors.push(u);
            }
            u += 1;
        }
        neighbors
    }

    /// The degree of `v` measured against `list`.
    pub fn get_degree_in_list(&self, v: &usize, list: &[usize]) -> (degree: usize)
        requires
            self.wf(),
            *v < self.order(),
        ensures
            degree == self.degree_in(*v as int, list@),
    {
        let n = self.adjacency.len();
        let mut degree: usize = 0;
        let mut u: usize = 0;
        assert(self@[*v as int].len() == n);
        while u < n
            invariant
                u <= n,
                n == self.order(),
                *v < n,
                self@[*v as int].len() == n,
                degree == self.degree_below(*v as int, list@, u as nat),
                degree <= u,
            decreases n - u,
        {
            if self.adjacency[*v][u] && contains(list, u) {
                degree += 1;
            }
            u += 1;
        }
        degree
    }
}

} // verus!
