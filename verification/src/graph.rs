//! Simple undirected graphs on at most 64 vertices, one adjacency word per vertex.
use vstd::prelude::*;
use vstd::set_lib::{set_int_range, lemma_int_range, lemma_len_subset, lemma_map_size};
use vstd::relations::injective_on;
use vstd::arithmetic::div_mod::{lemma_small_mod, lemma_mod_self_0};
use crate::bits::{
    bit, popcount, count_ones, lemma_bit_zero, lemma_bit_set, lemma_bit_test, lemma_bits_below_zero,
    lemma_bits_below_set,
};

verus! {

/// The largest number of vertices a graph can have: one per position of a `u64`.
pub const MAX_VERTICES: usize = 64;

/// The sum of the set positions of the words `masks[0..m]`.
pub open spec fn degree_sum(masks: Seq<u64>, m: int) -> nat
    decreases m,
{
    if m <= 0 {
        0
    } else {
        degree_sum(masks, m - 1) + popcount(masks[m - 1])
    }
}

/// Replacing one word changes the sum by the difference of the counts.
pub proof fn lemma_degree_sum_update(masks: Seq<u64>, u: int, x: u64, m: int)
    requires
        0 <= u < masks.len(),
        m <= masks.len(),
    ensures
        degree_sum(masks.update(u, x), m) == degree_sum(masks, m) + if 0 <= u < m {
            popcount(x) - popcount(masks[u])
        } else {
            0int
        },
    decreases m,
{
    if m > 0 {
        lemma_degree_sum_update(masks, u, x, m - 1);
    }
}

/// Words that are all zero sum to zero.
pub proof fn lemma_degree_sum_zero(masks: Seq<u64>, m: int)
    requires
        m <= masks.len(),
        forall|i: int| 0 <= i < masks.len() ==> #[trigger] masks[i] == 0u64,
    ensures
        degree_sum(masks, m) == 0,
    decreases m,
{
    if m > 0 {
        lemma_degree_sum_zero(masks, m - 1);
        lemma_bits_below_zero(64);
    }
}

/// The mathematical content of a [`Graph`]: one adjacency word per vertex
/// (position `v` of word `u` is set when `u` and `v` are adjacent) and the
/// number of edges the graph reports.
pub struct GraphView {
    pub masks: Seq<u64>,
    pub edge_count: nat,
}

impl GraphView {
    /// The number of vertices.
    pub open spec fn n(self) -> nat {
        self.masks.len()
    }

    /// Whether `u` and `v` are vertices joined by an edge.
    pub open spec fn has_edge(self, u: int, v: int) -> bool {
        0 <= u < self.n() && 0 <= v < self.n() && bit(self.masks[u], v)
    }

    /// The edges, each written once as `(u, v)` with `u < v`.
    pub open spec fn edge_set(self) -> Set<(int, int)> {
        Set::new(|p: (int, int)| p.0 < p.1 && self.has_edge(p.0, p.1))
    }

    /// The number of neighbours of `v`.
    pub open spec fn degree(self, v: int) -> nat {
        popcount(self.masks[v])
    }

    /// Every two distinct vertices are adjacent.
    pub open spec fn is_complete(self) -> bool {
        forall|u: int, v: int| #[trigger]
            self.has_edge(u, v) == (0 <= u < self.n() && 0 <= v < self.n() && u != v)
    }

    /// The sum of the degrees of all vertices.
    pub open spec fn degree_total(self) -> nat {
        degree_sum(self.masks, self.n() as int)
    }

    /// Well-formedness: at most 64 vertices, no position at or beyond the
    /// vertex count, symmetric adjacency without loops, and an edge count
    /// equal to the number of edges and to half the sum of the degrees.
    pub open spec fn wf(self) -> bool {
        &&& self.n() <= 64
        &&& forall|u: int, v: int|
            0 <= u < self.n() && #[trigger] bit(self.masks[u], v) ==> v < self.n()
        &&& forall|u: int, v: int| #[trigger] self.has_edge(u, v) ==> self.has_edge(v, u)
        &&& forall|u: int| !#[trigger] self.has_edge(u, u)
        &&& self.edge_set().finite()
        &&& self.edge_count == self.edge_set().len()
        &&& 2 * self.edge_count == self.degree_total()
    }

    /// A well-formed graph has at most `64 * 64` edges.
    pub proof fn lemma_edge_count_bound(self)
        requires
            self.wf(),
        ensures
            self.edge_count <= 4096,
    {
        let e = self.edge_set();
        let f = |p: (int, int)| p.0 * 64 + p.1;
        let img = e.map(f);
        assert(injective_on(f, e)) by {
            assert forall|p: (int, int), q: (int, int)|
                e.contains(p) && e.contains(q) && #[trigger] f(p) == #[trigger] f(q) implies p
                == q by {
                assert(0 <= p.0 < 64 && 0 <= p.1 < 64 && 0 <= q.0 < 64 && 0 <= q.1 < 64);
                assert(p.0 == q.0) by (nonlinear_arith)
                    requires
                        p.0 * 64 + p.1 == q.0 * 64 + q.1,
                        0 <= p.1 < 64,
                        0 <= q.1 < 64,
                ;
            }
        }
        lemma_map_size(e, img, f);
        lemma_int_range(0, 4096);
        assert(img.subset_of(set_int_range(0, 4096))) by {
            assert forall|x: int| #[trigger] img.contains(x) implies set_int_range(0, 4096).contains(
                x,
            ) by {
                let p = choose|p: (int, int)| e.contains(p) && f(p) == x;
                assert(0 <= p.0 < 64 && 0 <= p.1 < 64);
                assert(0 <= p.0 * 64 + p.1 < 4096) by (nonlinear_arith)
                    requires
                        0 <= p.0 < 64,
                        0 <= p.1 < 64,
                ;
            }
        }
        lemma_len_subset(img, set_int_range(0, 4096));
    }
}

/// A simple undirected graph on at most [`MAX_VERTICES`] vertices.
#[derive(Clone, Debug)]
pub struct Graph {
    adjacency: Vec<u64>,
    edges: usize,
}

impl View for Graph {
    type V = GraphView;

    closed spec fn view(&self) -> GraphView {
        GraphView { masks: self.adjacency@, edge_count: self.edges as nat }
    }
}

impl Graph {
    /// The graph on `n` vertices with no edges.
    pub fn new(n: usize) -> (g: Graph)
        requires
            n <= MAX_VERTICES,
        ensures
            g@.wf(),
            g@.n() == n,
            forall|u: int, v: int| !#[trigger] g@.has_edge(u, v),
            g@.edge_count == 0,
    {
        let g = Graph { adjacency: vec![0u64; n], edges: 0 };
        assert forall|u: int, v: int| 0 <= u < n implies !#[trigger] bit(g@.masks[u], v) by {
            assert(g.adjacency@[u] == 0u64);
            lemma_bit_zero(v);
        }
        assert(g@.edge_set() =~= Set::empty());
        proof {
            lemma_degree_sum_zero(g@.masks, n as int);
        }
        g
    }

    /// The complete graph on `n` vertices: every two distinct vertices are adjacent.
    pub fn complete(n: usize) -> (g: Graph)
        requires
            n <= MAX_VERTICES,
        ensures
            g@.wf(),
            g@.n() == n,
            g@.is_complete(),
            g@.edge_count == n * (n - 1) / 2,
    {
        let mut graph = Graph::new(n);
        let mut u: usize = 0;
        while u < n
            invariant
                u <= n,
                graph@.wf(),
                graph@.n() == n,
                forall|a: int, b: int| #[trigger]
                    graph@.has_edge(a, b) == (0 <= a < n && 0 <= b < n && a != b && (a < u
                        || b < u)),
            decreases n - u,
        {
            let mut v: usize = u + 1;
            while v < n
                invariant
                    u < n,
                    u + 1 <= v <= n,
                    graph@.wf(),
                    graph@.n() == n,
                    forall|a: int, b: int| #[trigger]
                        graph@.has_edge(a, b) == (0 <= a < n && 0 <= b < n && a != b && (a < u
                            || b < u || (a == u && b < v) || (b == u && a < v))),
                decreases n - v,
            {
                graph.add_edge(u, v);
                v = v + 1;
            }
            u = u + 1;
        }
        proof {
            crate::laws::lemma_complete_edge_count(graph@);
        }
        graph
    }

    /// The cycle `0 - 1 - ... - (n-1) - 0`; with fewer than two vertices it has no edges.
    pub fn cycle(n: usize) -> (g: Graph)
        requires
            n <= MAX_VERTICES,
        ensures
            g@.wf(),
            g@.n() == n,
            forall|u: int, v: int| #[trigger]
                g@.has_edge(u, v) == (n > 1 && 0 <= u < n && 0 <= v < n && (v == (u + 1) % (
                n as int) || u == (v + 1) % (n as int))),
    {
        let mut graph = Graph::new(n);
        if n > 1 {
            let mut u: usize = 0;
            while u < n
                invariant
                    n > 1,
                    u <= n,
                    graph@.wf(),
                    graph@.n() == n,
                    forall|a: int, b: int| #[trigger]
                        graph@.has_edge(a, b) == (0 <= a < n && 0 <= b < n && ((a < u && b == (a
                            + 1) % (n as int)) || (b < u && a == (b + 1) % (n as int)))),
                decreases n - u,
            {
                let next = (u + 1) % n;
                assert(next != u) by {
                    if u + 1 < n {
                        lemma_small_mod((u + 1) as nat, n as nat);
                    } else {
                        lemma_mod_self_0(n as int);
                    }
                }
                graph.add_edge(u, next);
                u = u + 1;
            }
        }
        graph
    }

    /// The number of vertices.
    pub fn vertex_count(&self) -> (n: usize)
        ensures
            n == self@.n(),
    {
        self.adjacency.len()
    }

    /// The number of edges.
    pub fn edge_count(&self) -> (e: usize)
        ensures
            e == self@.edge_count,
            self@.wf() ==> e == self@.edge_set().len(),
            self@.wf() ==> 2 * e == self@.degree_total(),
    {
        self.edges
    }

    /// The adjacency word of `vertex`: position `v` is set when `v` is a neighbour.
    pub fn neighbors_mask(&self, vertex: usize) -> (m: u64)
        requires
            vertex < self@.n(),
        ensures
            m == self@.masks[vertex as int],
    {
        self.adjacency[vertex]
    }

    /// The number of neighbours of `vertex`.
    pub fn degree(&self, vertex: usize) -> (d: usize)
        requires
            vertex < self@.n(),
        ensures
            d == self@.degree(vertex as int),
    {
        count_ones(self.adjacency[vertex]) as usize
    }

    /// Joins `u` and `v` by an edge; an edge already there is left as it is.
    pub fn add_edge(&mut self, u: usize, v: usize)
        requires
            old(self)@.wf(),
            u < old(self)@.n(),
            v < old(self)@.n(),
            u != v,
        ensures
            final(self)@.wf(),
            final(self)@.n() == old(self)@.n(),
            forall|a: int, b: int| #[trigger]
                final(self)@.has_edge(a, b) == (old(self)@.has_edge(a, b) || (a == u && b == v)
                    || (a == v && b == u)),
            final(self)@.edge_count == old(self)@.edge_count + if old(self)@.has_edge(
                u as int,
                v as int,
            ) {
                0nat
            } else {
                1nat
            },
    {
        let ghost g0 = self@;
        let bit_v = 1u64 << v;
        proof {
            lemma_bit_test(self.adjacency@[u as int], v as u64);
        }
        if self.adjacency[u] & bit_v == 0 {
            proof {
                g0.lemma_edge_count_bound();
            }
            let row_u = self.adjacency[u] | bit_v;
            self.adjacency.set(u, row_u);
            let row_v = self.adjacency[v] | (1u64 << u);
            self.adjacency.set(v, row_v);
            self.edges = self.edges + 1;
            let ghost g1 = self@;
            assert forall|a: int, b: int|
                g1.has_edge(a, b) == (g0.has_edge(a, b) || (a == u && b == v) || (a == v && b
                    == u)) by {
                if a == u {
                    lemma_bit_set(g0.masks[a], v as u64, b);
                } else if a == v {
                    lemma_bit_set(g0.masks[a], u as u64, b);
                }
            }
            assert forall|a: int, b: int|
                0 <= a < g1.n() && #[trigger] bit(g1.masks[a], b) implies b < g1.n() by {
                if a == u {
                    lemma_bit_set(g0.masks[a], v as u64, b);
                } else if a == v {
                    lemma_bit_set(g0.masks[a], u as u64, b);
                }
            }
            proof {
                let m1 = g0.masks.update(u as int, row_u);
                assert(!bit(g0.masks[u as int], v as int));
                assert(!g0.has_edge(v as int, u as int));
                assert(!bit(g0.masks[v as int], u as int));
                lemma_bits_below_set(g0.masks[u as int], v as u64, 64);
                lemma_bits_below_set(g0.masks[v as int], u as u64, 64);
                lemma_degree_sum_update(g0.masks, u as int, row_u, g0.n() as int);
                assert(m1[v as int] == g0.masks[v as int]);
                lemma_degree_sum_update(m1, v as int, row_v, g0.n() as int);
                assert(g1.masks == m1.update(v as int, row_v));
            }
            let ghost p: (int, int) = if u < v { (u as int, v as int) } else { (v as int, u as int) };
            assert(!g0.has_edge(u as int, v as int));
            assert(!g0.edge_set().contains(p));
            assert(g1.edge_set() =~= g0.edge_set().insert(p));
        } else {
            assert(g0.has_edge(u as int, v as int));
        }
    }
}

} // verus!
