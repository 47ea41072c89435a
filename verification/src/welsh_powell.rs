//! The Welsh–Powell heuristic: take the vertices by decreasing degree, and
//! give each new colour to every vertex, in that order, that can still take it.
use vstd::prelude::*;
use crate::coloring::{GreedyResult, UNCOLORED, can_assign_color, is_k_coloring};
use crate::clock::{clock_now, clock_elapsed};
use crate::graph::{Graph, GraphView};

verus! {

/// `a` comes before `b` in the Welsh–Powell order: higher degree first, and
/// between equal degrees the smaller index first.
pub open spec fn comes_first(g: GraphView, a: int, b: int) -> bool {
    g.degree(a) > g.degree(b) || (g.degree(a) == g.degree(b) && a < b)
}

/// `v` has a neighbour with colour `col` that comes before `v` in the
/// Welsh–Powell order: the reason `v` did not get `col`.
pub open spec fn blocked_from(g: GraphView, c: Seq<usize>, v: int, col: int) -> bool {
    exists|w: int| #[trigger] g.has_edge(v, w) && c[w] == col && comes_first(g, w, v)
}

/// `s` has colour `col` and comes first, in the Welsh–Powell order, among the
/// vertices whose colour is `col` or higher: it is the vertex that opened `col`.
pub open spec fn opens_color(g: GraphView, c: Seq<usize>, s: int, col: int) -> bool {
    &&& 0 <= s < g.n()
    &&& c[s] == col
    &&& forall|w: int| 0 <= w < g.n() && #[trigger] c[w] >= col && w != s ==> comes_first(g, s, w)
}

/// Some vertex opened the colour `col`.
pub open spec fn color_opened(g: GraphView, c: Seq<usize>, col: int) -> bool {
    exists|s: int| #[trigger] opens_color(g, c, s, col)
}

/// `c` is the colouring the Welsh–Powell heuristic gives `g`, with `used`
/// colours: a proper colouring with the colours `0..used`, each colour opened
/// by the first vertex in the order not coloured yet, and each vertex kept
/// from every smaller colour by a neighbour that took it earlier.
pub open spec fn is_welsh_powell_coloring(g: GraphView, c: Seq<usize>, used: int) -> bool {
    &&& is_k_coloring(g, c, used)
    &&& 0 <= used <= g.n()
    &&& forall|col: int| 0 <= col < used ==> #[trigger] color_opened(g, c, col)
    &&& forall|v: int, col: int|
        0 <= v < g.n() && 0 <= col < c[v] ==> #[trigger] blocked_from(g, c, v, col)
}

/// The vertices of `graph` in the Welsh–Powell order.
fn degree_order(graph: &Graph) -> (order: Vec<usize>)
    requires
        graph@.wf(),
    ensures
        order@.len() == graph@.n(),
        forall|i: int| 0 <= i < order@.len() ==> #[trigger] order@[i] < graph@.n(),
        forall|i: int, j: int|
            0 <= i < j < order@.len() ==> comes_first(graph@, #[trigger] order@[i] as int, #[trigger] order@[j] as int),
        forall|v: usize| v < graph@.n() ==> #[trigger] order@.contains(v),
{
    let ghost g = graph@;
    let n = graph.vertex_count();
    let mut order: Vec<usize> = Vec::new();
    let mut v: usize = 0;
    while v < n
        invariant
            g == graph@,
            g.wf(),
            n == g.n(),
            v <= n,
            order@.len() == v,
            forall|i: int| 0 <= i < order@.len() ==> #[trigger] order@[i] < v,
            forall|i: int, j: int|
                0 <= i < j < order@.len() ==> comes_first(g, #[trigger] order@[i] as int, #[trigger] order@[j] as int),
            forall|w: usize| w < v ==> #[trigger] order@.contains(w),
        decreases n - v,
    {
        let degree = graph.degree(v);
        let mut p: usize = 0;
        while p < order.len() && graph.degree(order[p]) >= degree
            invariant
                g == graph@,
                g.wf(),
                v < n,
                n == g.n(),
                order@.len() == v,
                degree == g.degree(v as int),
                forall|i: int| 0 <= i < order@.len() ==> #[trigger] order@[i] < v,
                p <= order@.len(),
                forall|i: int| 0 <= i < p ==> g.degree(#[trigger] order@[i] as int) >= degree,
            decreases order@.len() - p,
        {
            p = p + 1;
        }
        let ghost before = order@;
        order.insert(p, v);
        proof {
            before.insert_ensures(p as int, v);
            let after = order@;
            assert forall|i: int| 0 <= i < after.len() implies #[trigger] after[i] < v + 1 by {
                if i > p {
                    assert(after[i] == before[i - 1]);
                }
            }
            if p < before.len() {
                assert(g.degree(before[p as int] as int) < degree);
            }
            assert forall|i: int, j: int|
                0 <= i < j < after.len() implies comes_first(g, #[trigger] after[i] as int, #[trigger] after[j] as int) by {
                if j < p {
                } else if j == p {
                    assert(g.degree(before[i] as int) >= degree);
                } else if i < p {
                    assert(after[j] == before[j - 1]);
                } else if i == p {
                    assert(after[j] == before[j - 1]);
                    if j - 1 > p {
                        assert(comes_first(g, before[p as int] as int, before[j - 1] as int));
                    }
                } else {
                    assert(after[i] == before[i - 1]);
                    assert(after[j] == before[j - 1]);
                }
            }
            assert forall|w: usize| w < v + 1 implies #[trigger] after.contains(w) by {
                if w == v {
                    assert(after[p as int] == w);
                } else {
                    assert(before.contains(w));
                    let i = choose|i: int| 0 <= i < before.len() && #[trigger] before[i] == w;
                    if i < p {
                        assert(after[i] == w);
                    } else {
                        assert(after[i + 1] == w);
                    }
                }
            }
        }
        v = v + 1;
    }
    order
}

/// Colours `graph` by the Welsh–Powell heuristic.
pub fn welsh_powell_coloring(graph: &Graph) -> (result: GreedyResult)
    requires
        graph@.wf(),
    ensures
        is_welsh_powell_coloring(graph@, result.colors@, result.colors_used as int),
{
    let ghost g = graph@;
    let start = clock_now();
    let n = graph.vertex_count();
    let order = degree_order(graph);
    let mut colors: Vec<usize> = vec![UNCOLORED; n];
    let mut colors_used: usize = 0;
    let mut i: usize = 0;
    while i < n
        invariant
            g == graph@,
            g.wf(),
            n == g.n(),
            order@.len() == n,
            forall|a: int| 0 <= a < n ==> #[trigger] order@[a] < n,
            forall|a: int, b: int|
                0 <= a < b < n ==> comes_first(g, #[trigger] order@[a] as int, #[trigger] order@[b] as int),
            forall|v: usize| v < n ==> #[trigger] order@.contains(v),
            colors@.len() == n,
            i <= n,
            colors_used <= i,
            forall|v: int| 0 <= v < n ==> #[trigger] colors@[v] == UNCOLORED || colors@[v] < colors_used,
            forall|u: int, v: int|
                #[trigger] g.has_edge(u, v) && colors@[u] != UNCOLORED && colors@[v] != UNCOLORED
                    ==> colors@[u] != colors@[v],
            forall|a: int| 0 <= a < i ==> #[trigger] colors@[order@[a] as int] != UNCOLORED,
            forall|v: int, col: int|
                #![trigger blocked_from(g, colors@, v, col)]
                0 <= v < n && 0 <= col < colors_used && colors@[v] > col ==> blocked_from(g, colors@, v, col),
            forall|col: int| 0 <= col < colors_used ==> #[trigger] color_opened(g, colors@, col),
        decreases n - i,
    {
        let vertex = order[i];
        if colors[vertex] != UNCOLORED {
            i = i + 1;
            continue;
        }
        let ghost c_start = colors@;
        let color = colors_used;
        colors.set(vertex, color);
        proof {
            assert forall|u: int, v: int|
                #[trigger] g.has_edge(u, v) && colors@[u] != UNCOLORED && colors@[v] != UNCOLORED
                    implies colors@[u] != colors@[v] by {
                if u == vertex && v != vertex {
                    assert(c_start[v] < color);
                } else if v == vertex && u != vertex {
                    assert(c_start[u] < color);
                }
            }
        }
        let mut j: usize = 0;
        while j < n
            invariant
                g == graph@,
                g.wf(),
                n == g.n(),
                order@.len() == n,
                forall|a: int| 0 <= a < n ==> #[trigger] order@[a] < n,
                forall|a: int, b: int|
                    0 <= a < b < n ==> comes_first(g, #[trigger] order@[a] as int, #[trigger] order@[b] as int),
                forall|v: usize| v < n ==> #[trigger] order@.contains(v),
                i < n,
                vertex == order@[i as int],
                color == colors_used,
                colors_used <= i,
                c_start.len() == n,
                c_start[vertex as int] == UNCOLORED,
                forall|v: int| 0 <= v < n ==> #[trigger] c_start[v] == UNCOLORED || c_start[v] < color,
                forall|a: int| 0 <= a < i ==> #[trigger] c_start[order@[a] as int] != UNCOLORED,
                forall|v: int, col: int|
                    #![trigger blocked_from(g, c_start, v, col)]
                    0 <= v < n && 0 <= col < color && c_start[v] > col ==> blocked_from(g, c_start, v, col),
                forall|col: int| 0 <= col < color ==> #[trigger] color_opened(g, c_start, col),
                colors@.len() == n,
                forall|w: int|
                    0 <= w < n ==> #[trigger] colors@[w] == c_start[w] || (c_start[w] == UNCOLORED
                        && colors@[w] == color),
                colors@[vertex as int] == color,
                forall|u: int, v: int|
                    #[trigger] g.has_edge(u, v) && colors@[u] != UNCOLORED && colors@[v] != UNCOLORED
                        ==> colors@[u] != colors@[v],
                j <= n,
                forall|b: int|
                    j <= b < n && #[trigger] colors@[order@[b] as int] == color ==> order@[b] == vertex,
                forall|a: int|
                    0 <= a < j && #[trigger] colors@[order@[a] as int] == UNCOLORED ==> blocked_from(
                        g,
                        colors@,
                        order@[a] as int,
                        color as int,
                    ),
            decreases n - j,
        {
            let candidate = order[j];
            let ghost before = colors@;
            if colors[candidate] == UNCOLORED && can_assign_color(graph, &colors, candidate, color) {
                colors.set(candidate, color);
                proof {
                    assert forall|u: int, v: int|
                        #[trigger] g.has_edge(u, v) && colors@[u] != UNCOLORED && colors@[v]
                            != UNCOLORED implies colors@[u] != colors@[v] by {
                        if u == candidate && v != candidate {
                            assert(g.has_edge(candidate as int, v));
                        } else if v == candidate && u != candidate {
                            assert(g.has_edge(v, u));
                        }
                    }
                }
            } else if colors[candidate] == UNCOLORED {
                proof {
                    let w = choose|w: int| #[trigger] g.has_edge(candidate as int, w) && before[w] == color;
                    assert(w < n);
                    if w == vertex {
                        if j < i {
                            assert(c_start[order@[j as int] as int] != UNCOLORED);
                        }
                        assert(j != i);
                        assert(comes_first(g, order@[i as int] as int, order@[j as int] as int));
                    } else {
                        assert(order@.contains(w as usize));
                        let b = choose|b: int| 0 <= b < n && #[trigger] order@[b] == w as usize;
                        if b >= j {
                            assert(colors@[order@[b] as int] == color);
                        }
                        assert(comes_first(g, order@[b] as int, order@[j as int] as int));
                    }
                    assert(blocked_from(g, colors@, candidate as int, color as int));
                }
            }
            proof {
                assert forall|b: int|
                    j + 1 <= b < n && #[trigger] colors@[order@[b] as int] == color implies order@[b] == vertex by {
                    assert(comes_first(g, order@[j as int] as int, order@[b] as int));
                    assert(colors@[order@[b] as int] == before[order@[b] as int]);
                }
                assert forall|a: int|
                    0 <= a < j + 1 && #[trigger] colors@[order@[a] as int] == UNCOLORED implies blocked_from(
                        g,
                        colors@,
                        order@[a] as int,
                        color as int,
                    ) by {
                    if a < j {
                        assert(comes_first(g, order@[a] as int, order@[j as int] as int));
                        assert(before[order@[a] as int] == UNCOLORED);
                        assert(blocked_from(g, before, order@[a] as int, color as int));
                        let w = choose|w: int| #[trigger] g.has_edge(order@[a] as int, w) && before[w] == color && comes_first(g, w, order@[a] as int);
                        assert(colors@[w] == color);
                    }
                }
            }
            j = j + 1;
        }
        proof {
            let fin = colors@;
            assert forall|v: int, col: int|
                #![trigger blocked_from(g, fin, v, col)]
                0 <= v < n && 0 <= col < color + 1 && fin[v] > col implies blocked_from(g, fin, v, col) by {
                if col < color {
                    assert(c_start[v] > col);
                    assert(blocked_from(g, c_start, v, col));
                    let w = choose|w: int| #[trigger] g.has_edge(v, w) && c_start[w] == col && comes_first(g, w, v);
                    assert(fin[w] == col);
                } else {
                    assert(fin[v] == UNCOLORED);
                    assert(order@.contains(v as usize));
                    let a = choose|a: int| 0 <= a < n && #[trigger] order@[a] == v as usize;
                    assert(fin[order@[a] as int] == UNCOLORED);
                }
            }
            assert forall|col: int| 0 <= col < color + 1 implies #[trigger] color_opened(g, fin, col) by {
                if col < color {
                    assert(color_opened(g, c_start, col));
                    let s = choose|s: int| #[trigger] opens_color(g, c_start, s, col);
                    assert forall|w: int| 0 <= w < n && #[trigger] fin[w] >= col && w != s implies comes_first(g, s, w) by {
                        assert(c_start[w] >= col);
                    }
                    assert(opens_color(g, fin, s, col));
                } else {
                    assert forall|w: int| 0 <= w < n && #[trigger] fin[w] >= col && w != vertex implies comes_first(g, vertex as int, w) by {
                        assert(order@.contains(w as usize));
                        let b = choose|b: int| 0 <= b < n && #[trigger] order@[b] == w as usize;
                        if b < i {
                            assert(c_start[order@[b] as int] != UNCOLORED);
                        }
                        assert(b != i);
                    }
                    assert(opens_color(g, fin, vertex as int, col));
                }
            }
        }
        colors_used = colors_used + 1;
        i = i + 1;
    }
    proof {
        assert forall|v: int| 0 <= v < n implies #[trigger] colors@[v] != UNCOLORED by {
            assert(order@.contains(v as usize));
            let a = choose|a: int| 0 <= a < n && #[trigger] order@[a] == v as usize;
            assert(colors@[order@[a] as int] != UNCOLORED);
        }
        assert forall|u: int, v: int| #[trigger] g.has_edge(u, v) implies colors@[u] != colors@[v] by {
            assert(colors@[u] != UNCOLORED && colors@[v] != UNCOLORED);
        }
        assert forall|v: int, col: int|
            0 <= v < n && 0 <= col < colors@[v] implies #[trigger] blocked_from(g, colors@, v, col) by {
            assert(colors@[v] < colors_used);
        }
    }
    GreedyResult { colors_used, colors, duration: clock_elapsed(&start) }
}

} // verus!
