//! Properties that tie the colouring algorithms together.
use vstd::prelude::*;
use crate::bits::{bit, bits_below, lemma_bits_below_bound, lemma_same_bits_equal};
use crate::brute_force::{
    brute_force_search, completes_prefix, lemma_brute_force_node_bound, lemma_brute_force_node_correct,
};
use crate::coloring::{UNCOLORED, agree_below, is_k_coloring, k_colorable, power, search_tree_size};
use crate::dsatur::{
    dsatur_search, extends, is_partial_coloring, lemma_dsatur_node_bound, lemma_dsatur_node_correct,
    lemma_num_colored_none,
};
use crate::graph::{GraphView, degree_sum};
use crate::random::is_drawn_graph;
use crate::welsh_powell::{blocked_from, color_opened, comes_first, is_welsh_powell_coloring, opens_color};

verus! {

/// The handshake lemma: every edge adds one to the degree of each of its two
/// ends, so the edge count is half the sum of the degrees.
pub proof fn lemma_handshake(g: GraphView)
    requires
        g.wf(),
    ensures
        2 * g.edge_count == g.degree_total(),
        g.edge_count == g.edge_set().len(),
{
}

/// A well-formed graph is determined by its vertex count and its edges: the
/// adjacency words and the edge count follow.
pub proof fn lemma_same_edges_same_graph(g1: GraphView, g2: GraphView)
    requires
        g1.wf(),
        g2.wf(),
        g1.n() == g2.n(),
        forall|u: int, v: int| #[trigger] g1.has_edge(u, v) == g2.has_edge(u, v),
    ensures
        g1 == g2,
{
    assert forall|u: int| 0 <= u < g1.n() implies #[trigger] g1.masks[u] == g2.masks[u] by {
        assert forall|w: int| 0 <= w < 64 implies #[trigger] bit(g1.masks[u], w) == bit(
            g2.masks[u],
            w,
        ) by {
            if bit(g1.masks[u], w) {
                assert(w < g1.n());
                assert(g1.has_edge(u, w));
                assert(g2.has_edge(u, w));
            }
            if bit(g2.masks[u], w) {
                assert(w < g2.n());
                assert(g2.has_edge(u, w));
                assert(g1.has_edge(u, w));
            }
        }
        lemma_same_bits_equal(g1.masks[u], g2.masks[u]);
    }
    assert(g1.masks =~= g2.masks);
    assert(g1.edge_set() =~= g2.edge_set());
}

proof fn lemma_complete_row(m: u64, n: int, v: int, i: int)
    requires
        0 <= v < n <= 64,
        0 <= i <= 64,
        forall|w: int| 0 <= w < 64 ==> #[trigger] bit(m, w) == (w < n && w != v),
    ensures
        bits_below(m, i) == (if i < n { i } else { n }) - (if v < i { 1int } else { 0int }),
    decreases i,
{
    if i > 0 {
        lemma_complete_row(m, n, v, i - 1);
        assert(bit(m, i - 1) == (i - 1 < n && i - 1 != v));
    }
}

proof fn lemma_complete_degree_sum(g: GraphView, m: int)
    requires
        g.wf(),
        g.is_complete(),
        0 <= m <= g.n(),
    ensures
        degree_sum(g.masks, m) == m * (g.n() - 1),
    decreases m,
{
    if m > 0 {
        let n = g.n() as int;
        let v = m - 1;
        lemma_complete_degree_sum(g, m - 1);
        assert forall|w: int| 0 <= w < 64 implies #[trigger] bit(g.masks[v], w) == (w < n && w
            != v) by {
            if w < n {
                assert(g.has_edge(v, w) == (w != v));
            } else if bit(g.masks[v], w) {
                assert(w < n);
            }
        }
        lemma_complete_row(g.masks[v], n, v, 64);
        assert((m - 1) * (n - 1) + (n - 1) == m * (n - 1)) by (nonlinear_arith);
    }
}

/// The complete graph on `n` vertices has `n (n - 1) / 2` edges.
pub proof fn lemma_complete_edge_count(g: GraphView)
    requires
        g.wf(),
        g.is_complete(),
    ensures
        g.edge_count == g.n() * (g.n() - 1) / 2,
{
    lemma_complete_degree_sum(g, g.n() as int);
}

/// With the largest threshold every pair is drawn: the graph is the complete
/// graph on its vertices, with `n (n - 1) / 2` edges.
pub proof fn lemma_full_threshold_gives_complete_graph(
    g: GraphView,
    h: GraphView,
    seed: u64,
)
    requires
        g.wf(),
        is_drawn_graph(g, g.n(), u64::MAX, seed),
        h.wf(),
        h.is_complete(),
        h.n() == g.n(),
    ensures
        g.is_complete(),
        g == h,
        g.edge_count == g.n() * (g.n() - 1) / 2,
{
    assert forall|u: int, v: int| #[trigger]
        g.has_edge(u, v) == (0 <= u < g.n() && 0 <= v < g.n() && u != v) by {
        if u < v {
            assert(g.has_edge(u, v) == (0 <= u && v < g.n()));
        } else if v < u {
            assert(g.has_edge(v, u) == (0 <= v && u < g.n()));
            if g.has_edge(u, v) {
                assert(g.has_edge(v, u));
            }
            if g.has_edge(v, u) {
                assert(g.has_edge(u, v));
            }
        }
    }
    lemma_same_edges_same_graph(g, h);
    lemma_complete_edge_count(g);
}

/// No colour at all colours a graph exactly when it has no vertex.
pub proof fn lemma_zero_colors_only_for_empty(g: GraphView)
    requires
        g.wf(),
    ensures
        k_colorable(g, 0) == (g.n() == 0),
{
    if g.n() == 0 {
        let c = Seq::<usize>::empty();
        assert(is_k_coloring(g, c, 0));
    } else {
        assert forall|c: Seq<usize>| !#[trigger] is_k_coloring(g, c, 0) by {
            if is_k_coloring(g, c, 0) {
                assert(c[0] < 0);
            }
        }
    }
}

/// A graph that can be coloured with `k` colours can be coloured with `k + 1`.
pub proof fn lemma_more_colors_still_suffice(g: GraphView, k: int)
    requires
        g.wf(),
        k_colorable(g, k),
    ensures
        k_colorable(g, k + 1),
{
    let c = choose|c: Seq<usize>| #[trigger] is_k_coloring(g, c, k);
    assert(is_k_coloring(g, c, k + 1));
}

/// As many colours as vertices always suffice.
pub proof fn lemma_one_color_per_vertex_suffices(g: GraphView)
    requires
        g.wf(),
    ensures
        k_colorable(g, g.n() as int),
{
    let c = Seq::new(g.n(), |i: int| i as usize);
    assert(is_k_coloring(g, c, g.n() as int));
}

/// The number of colours the Welsh–Powell heuristic uses is enough for the
/// exact searches: the graph can be coloured with that many colours.
pub proof fn lemma_welsh_powell_count_is_feasible(g: GraphView, c: Seq<usize>, used: int)
    requires
        g.wf(),
        is_welsh_powell_coloring(g, c, used),
    ensures
        k_colorable(g, used),
        used <= g.n(),
{
    assert(is_k_coloring(g, c, used));
}

/// Enumeration and DSATUR agree: each finds a colouring with `k` colours
/// exactly when the graph has one, and what it finds is one.
pub proof fn lemma_exact_searches_agree(g: GraphView, k: nat)
    requires
        g.wf(),
        k <= usize::MAX,
    ensures
        (brute_force_search(g, k).0 is Some) == k_colorable(g, k as int),
        (dsatur_search(g, k).0 is Some) == k_colorable(g, k as int),
        match brute_force_search(g, k).0 {
            Some(c) => is_k_coloring(g, c, k as int),
            None => true,
        },
        match dsatur_search(g, k).0 {
            Some(c) => is_k_coloring(g, c, k as int),
            None => true,
        },
{
    let empty = Seq::<usize>::empty();
    lemma_brute_force_node_correct(g, k, empty);
    let start = Seq::new(g.n(), |i: int| UNCOLORED);
    lemma_num_colored_none(start);
    assert(is_partial_coloring(g, start, k as int));
    lemma_dsatur_node_correct(g, k, start, g.n());
    match brute_force_search(g, k).0 {
        Some(c) => {
            assert(is_k_coloring(g, c, k as int));
        },
        None => {},
    }
    if k_colorable(g, k as int) {
        let c = choose|c: Seq<usize>| #[trigger] is_k_coloring(g, c, k as int);
        assert(completes_prefix(g, c, empty, 0, k as int));
        assert(extends(c, start));
    }
}

/// Enumeration stays within its search tree: at most `1 + k + ... + k^n`
/// calls and `k^n` complete assignments.
pub proof fn lemma_brute_force_search_bounded(g: GraphView, k: nat)
    ensures
        brute_force_search(g, k).1 <= search_tree_size(g.n(), k),
        brute_force_search(g, k).2 <= power(k, g.n()),
{
    lemma_brute_force_node_bound(g, k, Seq::empty());
}

/// DSATUR's worst case stays exponential: at most `1 + k + ... + k^n` calls.
pub proof fn lemma_dsatur_search_bounded(g: GraphView, k: nat)
    ensures
        dsatur_search(g, k).1 <= search_tree_size(g.n(), k),
{
    lemma_dsatur_node_bound(g, k, Seq::new(g.n(), |i: int| crate::coloring::UNCOLORED), g.n());
}

/// The rank of `v` among the vertices, for the induction below: the smaller
/// of its two colours first, then the Welsh–Powell order.
spec fn rank(g: GraphView, c1: Seq<usize>, c2: Seq<usize>, v: int) -> int {
    let low: int = if c1[v] < c2[v] { c1[v] as int } else { c2[v] as int };
    low * 4160 + (64 - g.degree(v)) * 64 + v
}

proof fn lemma_same_color_at(g: GraphView, c1: Seq<usize>, u1: int, c2: Seq<usize>, u2: int, v: int)
    requires
        g.wf(),
        is_welsh_powell_coloring(g, c1, u1),
        is_welsh_powell_coloring(g, c2, u2),
        0 <= v < g.n(),
    ensures
        c1[v] == c2[v],
    decreases rank(g, c1, c2, v),
{
    lemma_bits_below_bound(g.masks[v], 64);
    if c1[v] != c2[v] {
        let (ca, cb) = if c1[v] < c2[v] { (c1, c2) } else { (c2, c1) };
        let col = ca[v] as int;
        assert(blocked_from(g, cb, v, col));
        let w = choose|w: int| #[trigger] g.has_edge(v, w) && cb[w] == col && comes_first(g, w, v);
        lemma_bits_below_bound(g.masks[w], 64);
        assert(0 <= w < g.n());
        let lw: int = if c1[w] < c2[w] { c1[w] as int } else { c2[w] as int };
        assert(lw <= col);
        assert(rank(g, c1, c2, w) < rank(g, c1, c2, v)) by (nonlinear_arith)
            requires
                lw <= col,
                rank(g, c1, c2, w) == lw * 4160 + (64 - g.degree(w)) * 64 + w,
                rank(g, c1, c2, v) == col * 4160 + (64 - g.degree(v)) * 64 + v,
                0 <= w < 64,
                0 <= v < 64,
                0 <= g.degree(w) <= 64,
                0 <= g.degree(v) <= 64,
                g.degree(w) > g.degree(v) || (g.degree(w) == g.degree(v) && w < v),
        ;
        assert(rank(g, c1, c2, w) >= 0) by (nonlinear_arith)
            requires
                lw >= 0,
                rank(g, c1, c2, w) == lw * 4160 + (64 - g.degree(w)) * 64 + w,
                0 <= w,
                g.degree(w) <= 64,
        ;
        lemma_same_color_at(g, c1, u1, c2, u2, w);
        assert(ca[w] == col);
        assert(g.has_edge(v, w));
    }
}

/// Only one colouring meets the Welsh–Powell description: the heuristic's
/// result is determined by the graph.
pub proof fn lemma_welsh_powell_coloring_unique(
    g: GraphView,
    c1: Seq<usize>,
    u1: int,
    c2: Seq<usize>,
    u2: int,
)
    requires
        g.wf(),
        is_welsh_powell_coloring(g, c1, u1),
        is_welsh_powell_coloring(g, c2, u2),
    ensures
        c1 == c2,
        u1 == u2,
{
    assert forall|v: int| 0 <= v < g.n() implies c1[v] == c2[v] by {
        lemma_same_color_at(g, c1, u1, c2, u2, v);
    }
    assert(c1 =~= c2);
    if u1 < u2 {
        assert(color_opened(g, c2, u1));
        let s = choose|s: int| #[trigger] opens_color(g, c2, s, u1);
        assert(c1[s] < u1);
    } else if u2 < u1 {
        assert(color_opened(g, c1, u2));
        let s = choose|s: int| #[trigger] opens_color(g, c1, s, u2);
        assert(c2[s] < u2);
    }
}

} // verus!
