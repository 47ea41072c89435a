//! What a colouring is, and the checks every algorithm of this crate builds on.
use vstd::prelude::*;
use crate::bits::{bit, lemma_lowest_bit, lemma_zero_iff_no_bit};
use crate::graph::{Graph, GraphView};
use std::time::Duration;

verus! {

/// The colour value that marks a vertex as not coloured yet.
pub const UNCOLORED: usize = usize::MAX;

/// The outcome of an exact search for a colouring with `k` colours.
#[derive(Clone, Debug, PartialEq, Eq)]
pub struct ColoringResult {
    /// Whether a colouring with `k` colours exists.
    pub colorable: bool,
    /// A colouring with `k` colours, when one exists.
    pub colors: Option<Vec<usize>>,
    /// How many times the recursive search was entered.
    pub recursive_calls: u128,
    /// How many times the search reached a colour for every vertex.
    pub complete_assignments: u128,
    /// The time the search took.
    pub duration: Duration,
}

/// The outcome of the Welsh–Powell heuristic.
#[derive(Clone, Debug, PartialEq, Eq)]
pub struct GreedyResult {
    /// The number of colours used: the colours are `0..colors_used`.
    pub colors_used: usize,
    /// The colour of each vertex.
    pub colors: Vec<usize>,
    /// The time the heuristic took.
    pub duration: Duration,
}

/// The counters a search keeps.
pub(crate) struct SearchMetrics {
    pub(crate) recursive_calls: u128,
    pub(crate) complete_assignments: u128,
}

/// The size of a search tree of the given depth in which every inner node has
/// `k` children: `1 + k + k^2 + ... + k^depth`.
pub open spec fn search_tree_size(depth: nat, k: nat) -> nat
    decreases depth,
{
    if depth == 0 {
        1
    } else {
        1 + k * search_tree_size((depth - 1) as nat, k)
    }
}

/// `k` to the power `e`: the number of ways to give each of `e` vertices one
/// of `k` colours.
pub open spec fn power(k: nat, e: nat) -> nat
    decreases e,
{
    if e == 0 {
        1
    } else {
        k * power(k, (e - 1) as nat)
    }
}

/// `a` and `b` agree on the positions `0..m`.
pub open spec fn agree_below(a: Seq<usize>, b: Seq<usize>, m: int) -> bool {
    forall|i: int| 0 <= i < m ==> #[trigger] a[i] == #[trigger] b[i]
}

/// `c` gives one colour to each vertex of `g` and adjacent vertices different colours.
pub open spec fn is_proper(g: GraphView, c: Seq<usize>) -> bool {
    &&& c.len() == g.n()
    &&& forall|u: int, v: int| #[trigger] g.has_edge(u, v) ==> c[u] != c[v]
}

/// `c` is a proper colouring of `g` that uses only the colours `0..k`.
pub open spec fn is_k_coloring(g: GraphView, c: Seq<usize>, k: int) -> bool {
    &&& is_proper(g, c)
    &&& forall|v: int| 0 <= v < c.len() ==> #[trigger] c[v] < k
}

/// `g` has a proper colouring with the colours `0..k`.
pub open spec fn k_colorable(g: GraphView, k: int) -> bool {
    exists|c: Seq<usize>| #[trigger] is_k_coloring(g, c, k)
}

/// Checks that `colors` gives every vertex of `graph` a colour and adjacent
/// vertices different colours.
pub fn validate_coloring(graph: &Graph, colors: &[usize]) -> (r: bool)
    requires
        graph@.wf(),
    ensures
        r == is_proper(graph@, colors@),
{
    let ghost g = graph@;
    if colors.len() != graph.vertex_count() {
        return false;
    }
    let n = graph.vertex_count();
    let mut u: usize = 0;
    while u < n
        invariant
            g == graph@,
            g.wf(),
            n == g.n(),
            colors@.len() == n,
            u <= n,
            forall|a: int, b: int|
                #![trigger g.has_edge(a, b)]
                a < b && a < u && g.has_edge(a, b) ==> colors@[a] != colors@[b],
        decreases n - u,
    {
        let mask = graph.neighbors_mask(u);
        let mut neighbors = mask;
        while neighbors != 0
            invariant
                g == graph@,
                g.wf(),
                n == g.n(),
                colors@.len() == n,
                u < n,
                mask == g.masks[u as int],
                forall|w: int| #[trigger] bit(neighbors, w) ==> bit(mask, w),
                forall|w: int|
                    #![trigger bit(mask, w)]
                    u < w && bit(mask, w) && !bit(neighbors, w) ==> colors@[u as int]
                        != colors@[w],
            decreases neighbors,
        {
            proof {
                lemma_lowest_bit(neighbors);
            }
            let v = neighbors.trailing_zeros() as usize;
            assert(bit(mask, v as int));
            if u < v && colors[u] == colors[v] {
                assert(g.has_edge(u as int, v as int));
                return false;
            }
            neighbors = neighbors & (neighbors - 1);
        }
        proof {
            lemma_zero_iff_no_bit(neighbors);
            assert forall|b: int| u < b && g.has_edge(u as int, b) implies colors@[u as int]
                != colors@[b] by {
                assert(bit(mask, b));
            }
        }
        u = u + 1;
    }
    assert forall|a: int, b: int| #[trigger] g.has_edge(a, b) implies colors@[a] != colors@[b] by {
        if b < a {
            assert(g.has_edge(b, a));
        }
    }
    true
}

/// Whether `vertex` may take `color`: no neighbour of `vertex` has it already.
pub fn can_assign_color(graph: &Graph, colors: &Vec<usize>, vertex: usize, color: usize) -> (r:
    bool)
    requires
        graph@.wf(),
        colors@.len() == graph@.n(),
        vertex < graph@.n(),
    ensures
        r == (forall|w: int| #[trigger] graph@.has_edge(vertex as int, w) ==> colors@[w] != color),
{
    let ghost g = graph@;
    let mask = graph.neighbors_mask(vertex);
    let mut neighbors = mask;
    while neighbors != 0
        invariant
            g == graph@,
            g.wf(),
            colors@.len() == g.n(),
            vertex < g.n(),
            mask == g.masks[vertex as int],
            forall|w: int| #[trigger] bit(neighbors, w) ==> bit(mask, w),
            forall|w: int|
                #![trigger bit(mask, w)]
                bit(mask, w) && !bit(neighbors, w) ==> colors@[w] != color,
        decreases neighbors,
    {
        proof {
            lemma_lowest_bit(neighbors);
        }
        let neighbor = neighbors.trailing_zeros() as usize;
        assert(bit(mask, neighbor as int));
        if colors[neighbor] == color {
            assert(g.has_edge(vertex as int, neighbor as int));
            return false;
        }
        neighbors = neighbors & (neighbors - 1);
    }
    proof {
        lemma_zero_iff_no_bit(neighbors);
        assert forall|w: int| #[trigger] g.has_edge(vertex as int, w) implies colors@[w]
            != color by {
            assert(bit(mask, w));
        }
    }
    true
}

/// The number of colours `c` uses when its colours are read as `0..=max`:
/// the largest colour plus one, and 0 when `c` is empty.
pub open spec fn colors_used_in(c: Seq<usize>) -> nat
    decreases c.len(),
{
    if c.len() == 0 {
        0
    } else {
        let rest = colors_used_in(c.drop_last());
        if c.last() + 1 > rest {
            (c.last() + 1) as nat
        } else {
            rest
        }
    }
}

/// The number of colours a colouring uses, read as its largest colour plus
/// one, or nothing when there is no colouring.
pub fn colors_used_by(colors: &Option<Vec<usize>>) -> (r: Option<usize>)
    requires
        colors matches Some(c) ==> forall|i: int| 0 <= i < c@.len() ==> #[trigger] c@[i] < usize::MAX,
    ensures
        match colors {
            Some(c) => r == Some(colors_used_in(c@) as usize),
            None => r is None,
        },
{
    match colors {
        None => None,
        Some(c) => {
            let mut max_color: Option<usize> = None;
            let mut i: usize = 0;
            while i < c.len()
                invariant
                    i <= c@.len(),
                    forall|j: int| 0 <= j < c@.len() ==> #[trigger] c@[j] < usize::MAX,
                    match max_color {
                        None => i == 0,
                        Some(m) => i > 0 && m < usize::MAX && m + 1 == colors_used_in(c@.subrange(0, i as int)),
                    },
                decreases c@.len() - i,
            {
                assert(c@.subrange(0, i + 1).drop_last() =~= c@.subrange(0, i as int));
                max_color = match max_color {
                    None => Some(c[i]),
                    Some(m) => if c[i] > m {
                        Some(c[i])
                    } else {
                        Some(m)
                    },
                };
                proof {
                    if i == 0 {
                        assert(c@.subrange(0, 0).len() == 0);
                    }
                }
                i = i + 1;
            }
            assert(c@.subrange(0, c@.len() as int) =~= c@);
            Some(
                match max_color {
                    None => 0,
                    Some(m) => m + 1,
                },
            )
        },
    }
}

} // verus!
