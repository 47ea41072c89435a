//! Exact colouring by DSATUR backtracking: always branch on the uncoloured
//! vertex whose neighbours already use the most colours.
use vstd::prelude::*;
use crate::bits::{
    bit, bits_below, popcount, count_ones, lemma_bit_zero, lemma_bit_set, lemma_bit_set_idempotent,
    lemma_bit_test, lemma_bit_and_not, lemma_bit_low_mask, lemma_bit_full, lemma_lowest_bit,
    lemma_zero_iff_no_bit,
};
use crate::coloring::{
    ColoringResult, SearchMetrics, UNCOLORED, is_k_coloring, k_colorable,
    search_tree_size,
};
use crate::clock::{clock_now, clock_elapsed};
use crate::graph::{Graph, GraphView};

verus! {

/// How many vertices `c` has coloured.
pub open spec fn num_colored(c: Seq<usize>) -> nat
    decreases c.len(),
{
    if c.len() == 0 {
        0
    } else {
        num_colored(c.drop_last()) + if c.last() != UNCOLORED {
            1nat
        } else {
            0nat
        }
    }
}

/// `c` is a partial colouring of `g` with the colours `0..k`: uncoloured
/// vertices aside, adjacent vertices have different colours.
pub open spec fn is_partial_coloring(g: GraphView, c: Seq<usize>, k: int) -> bool {
    &&& c.len() == g.n()
    &&& forall|v: int| 0 <= v < c.len() && #[trigger] c[v] != UNCOLORED ==> c[v] < k
    &&& forall|u: int, v: int|
        #[trigger] g.has_edge(u, v) && c[u] != UNCOLORED && c[v] != UNCOLORED ==> c[u] != c[v]
}

/// Some neighbour of `v` has the colour `col` in `c`.
pub open spec fn neighbor_has_color(g: GraphView, c: Seq<usize>, v: int, col: int) -> bool {
    exists|w: int| #[trigger] g.has_edge(v, w) && c[w] == col
}

/// For each uncoloured vertex, `masks` holds the colours its neighbours have.
pub open spec fn masks_match(g: GraphView, c: Seq<usize>, masks: Seq<u64>) -> bool {
    &&& masks.len() == g.n()
    &&& forall|v: int, col: int|
        0 <= v < g.n() && c[v] == UNCOLORED && 0 <= col < 64 ==> #[trigger] bit(masks[v], col)
            == neighbor_has_color(g, c, v, col)
}

/// `c` keeps every colour that the partial colouring `p` gives.
pub open spec fn extends(c: Seq<usize>, p: Seq<usize>) -> bool {
    &&& c.len() == p.len()
    &&& forall|v: int| 0 <= v < p.len() && p[v] != UNCOLORED ==> #[trigger] c[v] == p[v]
}

/// DSATUR prefers `v` to `w`: more distinct colours among its neighbours, then
/// a higher degree, then a smaller index.
pub open spec fn dsatur_prefers(g: GraphView, masks: Seq<u64>, v: int, w: int) -> bool {
    let sv = popcount(masks[v]);
    let sw = popcount(masks[w]);
    sv > sw || (sv == sw && (g.degree(v) > g.degree(w) || (g.degree(v) == g.degree(w) && v < w)))
}

/// How many of the colours `0..i` some neighbour of `v` has in `c`.
pub open spec fn colors_around(g: GraphView, c: Seq<usize>, v: int, i: int) -> nat
    decreases i,
{
    if i <= 0 {
        0
    } else {
        colors_around(g, c, v, i - 1) + if neighbor_has_color(g, c, v, i - 1) {
            1nat
        } else {
            0nat
        }
    }
}

/// The saturation of `v` in `c`: how many distinct colours below 64 its
/// neighbours have.
pub open spec fn saturation(g: GraphView, c: Seq<usize>, v: int) -> nat {
    colors_around(g, c, v, 64)
}

/// `v` is the vertex DSATUR branches on in `c`: an uncoloured vertex with the
/// highest saturation, then the highest degree, then the smallest index.
pub open spec fn is_dsatur_choice(g: GraphView, c: Seq<usize>, v: int) -> bool {
    &&& 0 <= v < g.n()
    &&& c[v] == UNCOLORED
    &&& forall|w: int|
        0 <= w < g.n() && #[trigger] c[w] == UNCOLORED && w != v ==> saturation_prefers(g, c, v, w)
}

/// In `c`, DSATUR prefers `v` to `w`: a higher saturation, then a higher
/// degree, then a smaller index.
#[verifier::opaque]
pub open spec fn saturation_prefers(g: GraphView, c: Seq<usize>, v: int, w: int) -> bool {
    ||| saturation(g, c, v) > saturation(g, c, w)
    ||| saturation(g, c, v) == saturation(g, c, w) && g.degree(v) > g.degree(w)
    ||| saturation(g, c, v) == saturation(g, c, w) && g.degree(v) == g.degree(w) && v < w
}

/// The vertex DSATUR branches on in `c`.
pub open spec fn dsatur_choice(g: GraphView, c: Seq<usize>) -> int {
    choose|v: int| is_dsatur_choice(g, c, v)
}

/// The DSATUR search from the partial colouring `c` with `fuel` vertices left
/// to colour: the colouring it returns, if any, and how many times it is entered.
pub open spec fn dsatur_node(g: GraphView, k: nat, c: Seq<usize>, fuel: nat) -> (Option<
    Seq<usize>,
>, nat)
    decreases fuel, k + 1,
{
    if fuel == 0 {
        (Some(c), 1)
    } else {
        let b = dsatur_branch(g, k, c, dsatur_choice(g, c), 0, fuel);
        (b.0, b.1 + 1)
    }
}

/// The part of the DSATUR search at `c` that tries the colours `col..k` for `v`.
pub open spec fn dsatur_branch(
    g: GraphView,
    k: nat,
    c: Seq<usize>,
    v: int,
    col: nat,
    fuel: nat,
) -> (Option<Seq<usize>>, nat)
    decreases fuel, k - col,
{
    if fuel == 0 || col >= k {
        (None, 0)
    } else if neighbor_has_color(g, c, v, col as int) {
        dsatur_branch(g, k, c, v, col + 1, fuel)
    } else {
        let sub = dsatur_node(g, k, c.update(v, col as usize), (fuel - 1) as nat);
        if sub.0 is Some {
            sub
        } else {
            let rest = dsatur_branch(g, k, c, v, col + 1, fuel);
            (rest.0, sub.1 + rest.1)
        }
    }
}

/// The DSATUR search on `g` with `k` colours, from no vertex coloured.
pub open spec fn dsatur_search(g: GraphView, k: nat) -> (Option<Seq<usize>>, nat) {
    dsatur_node(g, k, Seq::new(g.n(), |i: int| UNCOLORED), g.n())
}

proof fn lemma_branch_blocked(g: GraphView, k: nat, c: Seq<usize>, v: int, col: nat, fuel: nat)
    requires
        forall|x: int| col <= x < k ==> #[trigger] neighbor_has_color(g, c, v, x),
    ensures
        dsatur_branch(g, k, c, v, col, fuel) == (None::<Seq<usize>>, 0nat),
    decreases k - col,
{
    if fuel > 0 && col < k {
        assert(neighbor_has_color(g, c, v, col as int));
        lemma_branch_blocked(g, k, c, v, col + 1, fuel);
    }
}

/// The DSATUR search on a partial colouring with `fuel` vertices left enters
/// itself at most `1 + k + ... + k^fuel` times.
pub proof fn lemma_dsatur_node_bound(g: GraphView, k: nat, c: Seq<usize>, fuel: nat)
    ensures
        dsatur_node(g, k, c, fuel).1 <= search_tree_size(fuel, k),
    decreases fuel, k + 1,
{
    if fuel > 0 {
        lemma_dsatur_branch_bound(g, k, c, dsatur_choice(g, c), 0, fuel);
    }
}

/// The colours `col..k` of a DSATUR branch enter the search at most
/// `(k - col)` times the size of a tree one level shallower.
pub proof fn lemma_dsatur_branch_bound(
    g: GraphView,
    k: nat,
    c: Seq<usize>,
    v: int,
    col: nat,
    fuel: nat,
)
    requires
        fuel > 0,
    ensures
        col <= k ==> dsatur_branch(g, k, c, v, col, fuel).1 <= (k - col) * search_tree_size(
            (fuel - 1) as nat,
            k,
        ),
    decreases fuel, k - col,
{
    let t = search_tree_size((fuel - 1) as nat, k);
    if col < k {
        lemma_dsatur_branch_bound(g, k, c, v, col + 1, fuel);
        if !neighbor_has_color(g, c, v, col as int) {
            lemma_dsatur_node_bound(g, k, c.update(v, col as usize), (fuel - 1) as nat);
        }
        assert((k - (col + 1)) * t + t == (k - col) * t) by (nonlinear_arith);
        assert((k - (col + 1)) * t <= (k - col) * t) by (nonlinear_arith)
            requires
                t >= 0,
                col < k,
        ;
    }
}

proof fn lemma_saturation_from_masks(g: GraphView, c: Seq<usize>, masks: Seq<u64>, v: int, i: int)
    requires
        masks_match(g, c, masks),
        0 <= v < g.n(),
        c[v] == UNCOLORED,
        0 <= i <= 64,
    ensures
        bits_below(masks[v], i) == colors_around(g, c, v, i),
    decreases i,
{
    if i > 0 {
        lemma_saturation_from_masks(g, c, masks, v, i - 1);
        assert(bit(masks[v], i - 1) == neighbor_has_color(g, c, v, i - 1));
    }
}

proof fn lemma_num_colored_bounds(c: Seq<usize>)
    ensures
        num_colored(c) <= c.len(),
        (num_colored(c) == c.len()) == (forall|i: int| 0 <= i < c.len() ==> #[trigger] c[i]
            != UNCOLORED),
    decreases c.len(),
{
    if c.len() > 0 {
        let d = c.drop_last();
        lemma_num_colored_bounds(d);
        if num_colored(c) == c.len() {
            assert forall|i: int| 0 <= i < c.len() implies #[trigger] c[i] != UNCOLORED by {
                if i < c.len() - 1 {
                    assert(d[i] == c[i]);
                }
            }
        }
        if forall|i: int| 0 <= i < c.len() ==> #[trigger] c[i] != UNCOLORED {
            assert forall|i: int| 0 <= i < d.len() implies #[trigger] d[i] != UNCOLORED by {
                assert(d[i] == c[i]);
            }
        }
    }
}

/// A sequence with no colour has no coloured vertex.
pub proof fn lemma_num_colored_none(c: Seq<usize>)
    requires
        forall|i: int| 0 <= i < c.len() ==> #[trigger] c[i] == UNCOLORED,
    ensures
        num_colored(c) == 0,
    decreases c.len(),
{
    if c.len() > 0 {
        let d = c.drop_last();
        assert forall|i: int| 0 <= i < d.len() implies #[trigger] d[i] == UNCOLORED by {
            assert(d[i] == c[i]);
        }
        lemma_num_colored_none(d);
    }
}

proof fn lemma_num_colored_update(c: Seq<usize>, i: int, x: usize)
    requires
        0 <= i < c.len(),
        c[i] == UNCOLORED,
        x != UNCOLORED,
    ensures
        num_colored(c.update(i, x)) == num_colored(c) + 1,
    decreases c.len(),
{
    let c1 = c.update(i, x);
    if i == c.len() - 1 {
        assert(c1.drop_last() =~= c.drop_last());
    } else {
        assert(c1.drop_last() =~= c.drop_last().update(i, x));
        lemma_num_colored_update(c.drop_last(), i, x);
    }
}

/// `m1` and `changed` are what colouring `vertex` with `color` makes of the
/// forbidden colours `m0`: each uncoloured neighbour of `vertex` gains `color`,
/// and `changed` lists, in increasing order and with their words from before,
/// exactly the neighbours that did not have it yet.
pub open spec fn applies_color(
    g: GraphView,
    c: Seq<usize>,
    m0: Seq<u64>,
    vertex: usize,
    color: usize,
    m1: Seq<u64>,
    changed: Seq<(usize, u64)>,
) -> bool {
    &&& m1.len() == g.n()
    &&& forall|w: int|
        0 <= w < g.n() ==> #[trigger] m1[w] == if g.has_edge(vertex as int, w) && c[w]
            == UNCOLORED {
            m0[w] | (1u64 << color)
        } else {
            m0[w]
        }
    &&& forall|i: int|
        0 <= i < changed.len() ==> {
            let w = #[trigger] changed[i].0;
            &&& w < g.n()
            &&& changed[i].1 == m0[w as int]
            &&& g.has_edge(vertex as int, w as int)
            &&& c[w as int] == UNCOLORED
            &&& !bit(m0[w as int], color as int)
        }
    &&& forall|i: int, j: int|
        0 <= i < j < changed.len() ==> #[trigger] changed[i].0 < #[trigger] changed[j].0
    &&& forall|w: int|
        0 <= w < g.n() && g.has_edge(vertex as int, w) && c[w] == UNCOLORED && !bit(
            #[trigger] m0[w],
            color as int,
        ) ==> exists|i: int| 0 <= i < changed.len() && #[trigger] changed[i].0 == w
}

/// No entry of `changed` after position `i` and before `end` names the same
/// vertex as entry `i`: among those, entry `i` is the last write to its vertex.
pub open spec fn written_last(changed: Seq<(usize, u64)>, i: int, end: int) -> bool {
    forall|l: int| i < l < end ==> #[trigger] changed[l].0 != changed[i].0
}

/// `m2` is `m1` with the entries of `changed` written in order: each vertex
/// named there holds the word of its last entry, and every other vertex keeps
/// its word.
pub open spec fn rolls_back(m1: Seq<u64>, changed: Seq<(usize, u64)>, m2: Seq<u64>) -> bool {
    &&& m2.len() == m1.len()
    &&& forall|i: int|
        0 <= i < changed.len() && written_last(changed, i, changed.len() as int) ==> m2[
            #[trigger] changed[i].0 as int] == changed[i].1
    &&& forall|w: int|
        0 <= w < m1.len() && (forall|i: int| 0 <= i < changed.len() ==> #[trigger] changed[i].0 != w)
            ==> #[trigger] m2[w] == m1[w]
}

/// Putting back the words saved while colouring a vertex restores the
/// forbidden colours as they were before.
pub proof fn lemma_rollback_undoes_apply(
    g: GraphView,
    c: Seq<usize>,
    m0: Seq<u64>,
    vertex: usize,
    color: usize,
    m1: Seq<u64>,
    changed: Seq<(usize, u64)>,
    m2: Seq<u64>,
)
    requires
        g.wf(),
        c.len() == g.n(),
        m0.len() == g.n(),
        vertex < g.n(),
        color < 64,
        applies_color(g, c, m0, vertex, color, m1, changed),
        rolls_back(m1, changed, m2),
    ensures
        m2 == m0,
{
    assert forall|w: int| 0 <= w < g.n() implies #[trigger] m2[w] == m0[w] by {
        if exists|i: int| 0 <= i < changed.len() && #[trigger] changed[i].0 == w {
            let i = choose|i: int| 0 <= i < changed.len() && #[trigger] changed[i].0 == w;
            assert forall|l: int| i < l < changed.len() implies #[trigger] changed[l].0 != changed[i].0 by {
                assert(changed[i].0 < changed[l].0);
            }
            assert(written_last(changed, i, changed.len() as int));
        } else {
            if g.has_edge(vertex as int, w) && c[w] == UNCOLORED {
                if bit(m0[w], color as int) {
                    lemma_bit_set_idempotent(m0[w], color as u64);
                }
            }
        }
    }
    assert(m2 =~= m0);
}

proof fn lemma_prefers_transitive(g: GraphView, c: Seq<usize>, a: int, b: int, w: int)
    requires
        saturation_prefers(g, c, a, b),
        saturation_prefers(g, c, b, w),
    ensures
        saturation_prefers(g, c, a, w),
{
    reveal(saturation_prefers);
    let (sa, sb, sw) = (saturation(g, c, a), saturation(g, c, b), saturation(g, c, w));
    let (da, db, dw) = (g.degree(a), g.degree(b), g.degree(w));
    assert(sa > sb || (sa == sb && da > db) || (sa == sb && da == db && a < b));
    assert(sb > sw || (sb == sw && db > dw) || (sb == sw && db == dw && b < w));
}

proof fn lemma_prefers_total(g: GraphView, c: Seq<usize>, a: int, b: int)
    requires
        a != b,
    ensures
        saturation_prefers(g, c, a, b) || saturation_prefers(g, c, b, a),
{
    reveal(saturation_prefers);
}

/// Among the uncoloured vertices below `m`, if there is one, some vertex is
/// preferred to all the others.
proof fn lemma_best_below(g: GraphView, c: Seq<usize>, m: int)
    requires
        c.len() == g.n(),
        0 <= m <= g.n(),
        exists|w: int| 0 <= w < m && #[trigger] c[w] == UNCOLORED,
    ensures
        exists|b: int|
            0 <= b < m && c[b] == UNCOLORED && (forall|w: int|
                0 <= w < m && #[trigger] c[w] == UNCOLORED && w != b ==> saturation_prefers(
                    g,
                    c,
                    b,
                    w,
                )),
    decreases m,
{
    let last = m - 1;
    if exists|w: int| 0 <= w < last && #[trigger] c[w] == UNCOLORED {
        lemma_best_below(g, c, last);
        let b = choose|b: int|
            0 <= b < last && c[b] == UNCOLORED && (forall|w: int|
                0 <= w < last && #[trigger] c[w] == UNCOLORED && w != b ==> saturation_prefers(
                    g,
                    c,
                    b,
                    w,
                ));
        if c[last] == UNCOLORED && saturation_prefers(g, c, last, b) {
            assert forall|w: int|
                0 <= w < m && #[trigger] c[w] == UNCOLORED && w != last implies saturation_prefers(
                g,
                c,
                last,
                w,
            ) by {
                if w != b {
                    lemma_prefers_transitive(g, c, last, b, w);
                }
            }
        } else {
            if c[last] == UNCOLORED {
                lemma_prefers_total(g, c, last, b);
            }
            assert forall|w: int|
                0 <= w < m && #[trigger] c[w] == UNCOLORED && w != b implies saturation_prefers(
                g,
                c,
                b,
                w,
            ) by {}
        }
    } else {
        assert(c[last] == UNCOLORED);
        assert forall|w: int|
            0 <= w < m && #[trigger] c[w] == UNCOLORED && w != last implies saturation_prefers(
            g,
            c,
            last,
            w,
        ) by {}
    }
}

/// At every node of the DSATUR search with an uncoloured vertex left, the
/// search branches on an uncoloured vertex `v` such that: no uncoloured vertex
/// has a higher saturation (more distinct colours among its neighbours); among
/// those of equal saturation none has a higher degree; and among those of equal
/// saturation and degree, `v` has the smallest index.
pub proof fn lemma_dsatur_branches_on_most_saturated(g: GraphView, k: nat, c: Seq<usize>, fuel: nat)
    requires
        c.len() == g.n(),
        fuel > 0,
        exists|w: int| 0 <= w < g.n() && #[trigger] c[w] == UNCOLORED,
    ensures
        exists|v: int|
            {
                &&& 0 <= v < g.n()
                &&& c[v] == UNCOLORED
                &&& dsatur_node(g, k, c, fuel) == (
                    dsatur_branch(g, k, c, v, 0, fuel).0,
                    dsatur_branch(g, k, c, v, 0, fuel).1 + 1,
                )
                &&& forall|w: int|
                    0 <= w < g.n() && #[trigger] c[w] == UNCOLORED ==> saturation(g, c, w)
                        <= saturation(g, c, v)
                &&& forall|w: int|
                    0 <= w < g.n() && #[trigger] c[w] == UNCOLORED && saturation(g, c, w)
                        == saturation(g, c, v) ==> g.degree(w) <= g.degree(v)
                &&& forall|w: int|
                    0 <= w < g.n() && #[trigger] c[w] == UNCOLORED && saturation(g, c, w)
                        == saturation(g, c, v) && g.degree(w) == g.degree(v) ==> v <= w
            },
{
    lemma_best_below(g, c, g.n() as int);
    let b = choose|b: int|
        0 <= b < g.n() && c[b] == UNCOLORED && (forall|w: int|
            0 <= w < g.n() && #[trigger] c[w] == UNCOLORED && w != b ==> saturation_prefers(
                g,
                c,
                b,
                w,
            ));
    assert(is_dsatur_choice(g, c, b));
    let v = dsatur_choice(g, c);
    assert(is_dsatur_choice(g, c, v));
    reveal(saturation_prefers);
    assert forall|w: int|
        0 <= w < g.n() && #[trigger] c[w] == UNCOLORED implies saturation(g, c, w) <= saturation(
        g,
        c,
        v,
    ) by {
        if w != v {
            assert(saturation_prefers(g, c, v, w));
        }
    }
    assert forall|w: int|
        0 <= w < g.n() && #[trigger] c[w] == UNCOLORED && saturation(g, c, w) == saturation(
            g,
            c,
            v,
        ) implies g.degree(w) <= g.degree(v) by {
        if w != v {
            assert(saturation_prefers(g, c, v, w));
        }
    }
    assert forall|w: int|
        0 <= w < g.n() && #[trigger] c[w] == UNCOLORED && saturation(g, c, w) == saturation(
            g,
            c,
            v,
        ) && g.degree(w) == g.degree(v) implies v <= w by {
        if w != v {
            assert(saturation_prefers(g, c, v, w));
        }
    }
}

/// The DSATUR search from a partial colouring returns a colouring with `k`
/// colours that extends it, or nothing when none exists.
pub proof fn lemma_dsatur_node_correct(g: GraphView, k: nat, c: Seq<usize>, fuel: nat)
    requires
        g.wf(),
        k <= usize::MAX,
        is_partial_coloring(g, c, k as int),
        fuel == g.n() - num_colored(c),
    ensures
        match dsatur_node(g, k, c, fuel).0 {
            Some(s) => is_k_coloring(g, s, k as int) && extends(s, c),
            None => forall|d: Seq<usize>| #[trigger] is_k_coloring(g, d, k as int) ==> !extends(d, c),
        },
    decreases fuel, k + 1,
{
    lemma_num_colored_bounds(c);
    if fuel == 0 {
        assert(is_k_coloring(g, c, k as int));
    } else {
        let w0 = choose|w: int| 0 <= w < c.len() && #[trigger] c[w] == UNCOLORED;
        lemma_best_below(g, c, g.n() as int);
        let b = choose|b: int|
            0 <= b < g.n() && c[b] == UNCOLORED && (forall|w: int|
                0 <= w < g.n() && #[trigger] c[w] == UNCOLORED && w != b ==> saturation_prefers(
                    g,
                    c,
                    b,
                    w,
                ));
        assert(is_dsatur_choice(g, c, b));
        let v = dsatur_choice(g, c);
        assert(is_dsatur_choice(g, c, v));
        lemma_dsatur_branch_correct(g, k, c, v, 0, fuel);
    }
}

/// The colours `col..k` of a DSATUR branch on `v` find a colouring extending
/// `c` exactly when one gives `v` a colour from `col` on.
pub proof fn lemma_dsatur_branch_correct(
    g: GraphView,
    k: nat,
    c: Seq<usize>,
    v: int,
    col: nat,
    fuel: nat,
)
    requires
        g.wf(),
        k <= usize::MAX,
        is_partial_coloring(g, c, k as int),
        fuel == g.n() - num_colored(c),
        fuel > 0,
        0 <= v < g.n(),
        c[v] == UNCOLORED,
    ensures
        match dsatur_branch(g, k, c, v, col, fuel).0 {
            Some(s) => is_k_coloring(g, s, k as int) && extends(s, c),
            None => forall|d: Seq<usize>|
                #[trigger] is_k_coloring(g, d, k as int) && extends(d, c) ==> d[v] < col,
        },
    decreases fuel, k - col,
{
    if col < k {
        lemma_dsatur_branch_correct(g, k, c, v, col + 1, fuel);
        if neighbor_has_color(g, c, v, col as int) {
            let w = choose|w: int| #[trigger] g.has_edge(v, w) && c[w] == col as int;
            assert forall|d: Seq<usize>|
                #[trigger] is_k_coloring(g, d, k as int) && extends(d, c) implies d[v] != col by {
                assert(d[w] == c[w]);
            }
        } else {
            let c1 = c.update(v, col as usize);
            lemma_num_colored_update(c, v, col as usize);
            assert(is_partial_coloring(g, c1, k as int)) by {
                assert forall|a: int, b: int|
                    #[trigger] g.has_edge(a, b) && c1[a] != UNCOLORED && c1[b] != UNCOLORED
                        implies c1[a] != c1[b] by {
                    if a == v && b != v {
                        if c1[b] == col {
                            assert(neighbor_has_color(g, c, v, col as int));
                        }
                    } else if b == v && a != v {
                        assert(g.has_edge(b, a));
                        if c1[a] == col {
                            assert(neighbor_has_color(g, c, v, col as int));
                        }
                    }
                }
            }
            lemma_dsatur_node_correct(g, k, c1, (fuel - 1) as nat);
            assert forall|d: Seq<usize>|
                #[trigger] is_k_coloring(g, d, k as int) && extends(d, c) && d[v] == col implies extends(d, c1) by {}
            match dsatur_node(g, k, c1, (fuel - 1) as nat).0 {
                Some(s) => {
                    assert forall|x: int| 0 <= x < c.len() && c[x] != UNCOLORED implies #[trigger] s[x] == c[x] by {
                        assert(c1[x] == c[x]);
                    }
                },
                None => {},
            }
        }
    }
}

/// The colours `0..k` that `forbidden_mask` does not hold.
fn available_colors_mask(forbidden_mask: u64, k: usize) -> (r: u64)
    requires
        k <= 64,
    ensures
        forall|c: int| #[trigger] bit(r, c) == (0 <= c < k && !bit(forbidden_mask, c)),
{
    let all_colors = if k == 64 {
        u64::MAX
    } else {
        let kk = k as u64;
        assert(1u64 << kk >= 1u64) by (bit_vector)
            requires
                kk < 64,
        ;
        (1u64 << kk) - 1
    };
    assert forall|c: int| #[trigger] bit(all_colors & !forbidden_mask, c) == (0 <= c < k
        && !bit(forbidden_mask, c)) by {
        lemma_bit_and_not(all_colors, forbidden_mask, c);
        if k == 64 {
            lemma_bit_full(c);
        } else {
            lemma_bit_low_mask(k as u64, c);
        }
    }
    all_colors & !forbidden_mask
}

/// The uncoloured vertex DSATUR branches on next, if any vertex is uncoloured.
fn select_dsatur_vertex_with_masks(graph: &Graph, colors: &Vec<usize>, forbidden_masks: &Vec<
    u64,
>) -> (r: Option<usize>)
    requires
        graph@.wf(),
        colors@.len() == graph@.n(),
        forbidden_masks@.len() == graph@.n(),
    ensures
        match r {
            None => forall|v: int| 0 <= v < graph@.n() ==> #[trigger] colors@[v] != UNCOLORED,
            Some(v) => {
                &&& v < graph@.n()
                &&& colors@[v as int] == UNCOLORED
                &&& forall|w: int|
                    0 <= w < graph@.n() && #[trigger] colors@[w] == UNCOLORED && w != v
                        ==> dsatur_prefers(graph@, forbidden_masks@, v as int, w)
            },
        },
{
    let ghost g = graph@;
    let ghost fm = forbidden_masks@;
    let n = graph.vertex_count();
    let mut best: Option<usize> = None;
    let mut best_saturation: usize = 0;
    let mut best_degree: usize = 0;
    let mut v: usize = 0;
    while v < n
        invariant
            g == graph@,
            fm == forbidden_masks@,
            g.wf(),
            n == g.n(),
            colors@.len() == n,
            fm.len() == n,
            v <= n,
            match best {
                None => forall|w: int| 0 <= w < v ==> #[trigger] colors@[w] != UNCOLORED,
                Some(b) => {
                    &&& b < v
                    &&& colors@[b as int] == UNCOLORED
                    &&& best_saturation == popcount(fm[b as int])
                    &&& best_degree == g.degree(b as int)
                    &&& forall|w: int|
                        0 <= w < v && #[trigger] colors@[w] == UNCOLORED && w != b
                            ==> dsatur_prefers(g, fm, b as int, w)
                },
            },
        decreases n - v,
    {
        if colors[v] == UNCOLORED {
            let saturation = count_ones(forbidden_masks[v]) as usize;
            let degree = graph.degree(v);
            match best {
                None => {
                    best = Some(v);
                    best_saturation = saturation;
                    best_degree = degree;
                },
                Some(b) => {
                    if saturation > best_saturation || (saturation == best_saturation && degree
                        > best_degree) {
                        best = Some(v);
                        best_saturation = saturation;
                        best_degree = degree;
                    }
                },
            }
        }
        v = v + 1;
    }
    best
}

/// Adds `color` to the forbidden colours of each uncoloured neighbour of
/// `vertex` that did not have it, and returns those neighbours, in increasing
/// order, each with its forbidden colours from before.
fn apply_color_to_neighbors(
    graph: &Graph,
    colors: &Vec<usize>,
    forbidden_masks: &mut Vec<u64>,
    vertex: usize,
    color: usize,
) -> (changed: Vec<(usize, u64)>)
    requires
        graph@.wf(),
        colors@.len() == graph@.n(),
        old(forbidden_masks)@.len() == graph@.n(),
        vertex < graph@.n(),
        color < 64,
    ensures
        applies_color(
            graph@,
            colors@,
            old(forbidden_masks)@,
            vertex,
            color,
            final(forbidden_masks)@,
            changed@,
        ),
{
    let ghost g = graph@;
    let ghost m0 = forbidden_masks@;
    let mut changed_masks: Vec<(usize, u64)> = Vec::new();
    let color_bit = 1u64 << color;
    let mask = graph.neighbors_mask(vertex);
    let mut neighbors = mask;
    while neighbors != 0
        invariant
            g == graph@,
            g.wf(),
            colors@.len() == g.n(),
            m0.len() == g.n(),
            forbidden_masks@.len() == g.n(),
            vertex < g.n(),
            color < 64,
            color_bit == 1u64 << color,
            mask == g.masks[vertex as int],
            forall|w: int| #[trigger] bit(neighbors, w) ==> bit(mask, w),
            forall|p: int, q: int|
                #![trigger bit(mask, p), bit(neighbors, q)]
                bit(mask, p) && !bit(neighbors, p) && bit(neighbors, q) ==> p < q,
            forall|w: int|
                0 <= w < g.n() ==> #[trigger] forbidden_masks@[w] == if bit(mask, w) && !bit(
                    neighbors,
                    w,
                ) && colors@[w] == UNCOLORED {
                    m0[w] | color_bit
                } else {
                    m0[w]
                },
            forall|i: int|
                0 <= i < changed_masks@.len() ==> {
                    let w = #[trigger] changed_masks@[i].0;
                    &&& w < g.n()
                    &&& changed_masks@[i].1 == m0[w as int]
                    &&& bit(mask, w as int)
                    &&& !bit(neighbors, w as int)
                    &&& colors@[w as int] == UNCOLORED
                    &&& !bit(m0[w as int], color as int)
                },
            forall|i: int, j: int|
                0 <= i < j < changed_masks@.len() ==> #[trigger] changed_masks@[i].0
                    < #[trigger] changed_masks@[j].0,
            forall|w: int|
                0 <= w < g.n() && bit(mask, w) && !bit(neighbors, w) && colors@[w] == UNCOLORED
                    && !bit(#[trigger] m0[w], color as int) ==> exists|i: int|
                    0 <= i < changed_masks@.len() && #[trigger] changed_masks@[i].0 == w,
        decreases neighbors,
    {
        proof {
            lemma_lowest_bit(neighbors);
        }
        let neighbor = neighbors.trailing_zeros() as usize;
        assert(bit(mask, neighbor as int));
        assert(neighbor < g.n());
        let ghost fm_before = forbidden_masks@;
        let ghost ch_before = changed_masks@;
        proof {
            lemma_bit_test(forbidden_masks@[neighbor as int], color as u64);
        }
        if colors[neighbor] == UNCOLORED && forbidden_masks[neighbor] & color_bit == 0 {
            changed_masks.push((neighbor, forbidden_masks[neighbor]));
            let updated = forbidden_masks[neighbor] | color_bit;
            forbidden_masks.set(neighbor, updated);
        }
        let ghost old_neighbors = neighbors;
        neighbors = neighbors & (neighbors - 1);
        proof {
            assert forall|w: int| 0 <= w < g.n() implies #[trigger] forbidden_masks@[w] == if bit(
                mask,
                w,
            ) && !bit(neighbors, w) && colors@[w] == UNCOLORED {
                m0[w] | color_bit
            } else {
                m0[w]
            } by {
                if w == neighbor && colors@[w] == UNCOLORED && bit(m0[w], color as int) {
                    lemma_bit_set_idempotent(m0[w], color as u64);
                }
            }
            assert forall|p: int, q: int|
                #![trigger bit(mask, p), bit(neighbors, q)]
                bit(mask, p) && !bit(neighbors, p) && bit(neighbors, q) implies p < q by {
                assert(bit(old_neighbors, q));
            }
            assert forall|i: int, j: int|
                0 <= i < j < changed_masks@.len() implies #[trigger] changed_masks@[i].0
                < #[trigger] changed_masks@[j].0 by {
                if j == ch_before.len() {
                    assert(changed_masks@[i] == ch_before[i]);
                    assert(bit(old_neighbors, neighbor as int));
                } else {
                    assert(changed_masks@[i] == ch_before[i]);
                    assert(changed_masks@[j] == ch_before[j]);
                }
            }
            assert forall|i: int| 0 <= i < changed_masks@.len() implies {
                let w = #[trigger] changed_masks@[i].0;
                &&& w < g.n()
                &&& changed_masks@[i].1 == m0[w as int]
                &&& bit(mask, w as int)
                &&& !bit(neighbors, w as int)
                &&& colors@[w as int] == UNCOLORED
                &&& !bit(m0[w as int], color as int)
            } by {
                if i < ch_before.len() {
                    assert(changed_masks@[i] == ch_before[i]);
                }
            }
            assert forall|w: int|
                0 <= w < g.n() && bit(mask, w) && !bit(neighbors, w) && colors@[w] == UNCOLORED
                    && !bit(#[trigger] m0[w], color as int) implies exists|i: int|
                0 <= i < changed_masks@.len() && #[trigger] changed_masks@[i].0 == w by {
                if w == neighbor {
                    assert(changed_masks@[ch_before.len() as int].0 == w);
                } else {
                    let i = choose|i: int| 0 <= i < ch_before.len() && #[trigger] ch_before[i].0 == w;
                    assert(changed_masks@[i] == ch_before[i]);
                }
            }
        }
    }
    proof {
        lemma_zero_iff_no_bit(neighbors);
        assert forall|w: int| 0 <= w < g.n() implies #[trigger] g.has_edge(vertex as int, w)
            == bit(mask, w) by {}
    }
    changed_masks
}

/// Puts back the forbidden colours saved by [`apply_color_to_neighbors`].
fn rollback_forbidden_masks(forbidden_masks: &mut Vec<u64>, changed_masks: Vec<(usize, u64)>)
    requires
        forall|i: int|
            0 <= i < changed_masks@.len() ==> #[trigger] changed_masks@[i].0 < old(
                forbidden_masks,
            )@.len(),
    ensures
        rolls_back(old(forbidden_masks)@, changed_masks@, final(forbidden_masks)@),
{
    let ghost m0 = forbidden_masks@;
    let ghost ch = changed_masks@;
    let mut i: usize = 0;
    while i < changed_masks.len()
        invariant
            ch == changed_masks@,
            i <= ch.len(),
            forbidden_masks@.len() == m0.len(),
            forall|j: int| 0 <= j < ch.len() ==> #[trigger] ch[j].0 < m0.len(),
            forall|j: int|
                0 <= j < i && written_last(ch, j, i as int) ==> forbidden_masks@[#[trigger] ch[j].0 as int]
                    == ch[j].1,
            forall|w: int|
                0 <= w < m0.len() && (forall|j: int| 0 <= j < i ==> #[trigger] ch[j].0 != w)
                    ==> #[trigger] forbidden_masks@[w] == m0[w],
        decreases ch.len() - i,
    {
        let (vertex, old_mask) = changed_masks[i];
        forbidden_masks.set(vertex, old_mask);
        proof {
            assert forall|j: int|
                0 <= j < i + 1 && written_last(ch, j, i + 1) implies forbidden_masks@[#[trigger] ch[j].0 as int]
                == ch[j].1 by {
                if j < i {
                    assert(ch[i as int].0 != ch[j].0);
                    assert(written_last(ch, j, i as int));
                }
            }
            assert forall|w: int|
                0 <= w < m0.len() && (forall|j: int| 0 <= j < i + 1 ==> #[trigger] ch[j].0 != w)
                    implies #[trigger] forbidden_masks@[w] == m0[w] by {
                assert(ch[i as int].0 != w);
            }
        }
        i = i + 1;
    }
}

/// Extends the partial colouring `colors` to a proper colouring with the
/// colours `0..k`, if one exists, branching on the vertex DSATUR prefers.
fn dsatur_rec(
    graph: &Graph,
    k: usize,
    colors: &mut Vec<usize>,
    forbidden_masks: &mut Vec<u64>,
    colored_count: usize,
    metrics: &mut SearchMetrics,
) -> (r: Option<Vec<usize>>)
    requires
        graph@.wf(),
        is_partial_coloring(graph@, old(colors)@, k as int),
        masks_match(graph@, old(colors)@, old(forbidden_masks)@),
        colored_count == num_colored(old(colors)@),
        colored_count == graph@.n() || k <= 64,
        old(metrics).recursive_calls + dsatur_node(
            graph@,
            k as nat,
            old(colors)@,
            (graph@.n() - colored_count) as nat,
        ).1 <= u128::MAX,
        old(metrics).complete_assignments < u128::MAX,
    ensures
        final(metrics).recursive_calls == old(metrics).recursive_calls + dsatur_node(
            graph@,
            k as nat,
            old(colors)@,
            (graph@.n() - colored_count) as nat,
        ).1,
        match r {
            Some(sol) => dsatur_node(
                graph@,
                k as nat,
                old(colors)@,
                (graph@.n() - colored_count) as nat,
            ).0 == Some(sol@),
            None => dsatur_node(
                graph@,
                k as nat,
                old(colors)@,
                (graph@.n() - colored_count) as nat,
            ).0 is None,
        },
        match r {
            Some(sol) => {
                &&& is_k_coloring(graph@, sol@, k as int)
                &&& extends(sol@, old(colors)@)
                &&& final(colors)@ == sol@
                &&& final(metrics).complete_assignments == old(metrics).complete_assignments + 1
            },
            None => {
                &&& forall|c: Seq<usize>|
                    #[trigger] is_k_coloring(graph@, c, k as int) ==> !extends(c, old(colors)@)
                &&& final(colors)@ == old(colors)@
                &&& final(forbidden_masks)@ == old(forbidden_masks)@
                &&& final(metrics).complete_assignments == old(metrics).complete_assignments
            },
        },
    decreases graph@.n() - colored_count,
{
    let ghost g = graph@;
    let ghost n = g.n();
    let ghost c0 = colors@;
    let ghost fm0 = forbidden_masks@;
    let ghost mt0 = *metrics;
    proof {
        lemma_num_colored_bounds(c0);
    }
    metrics.recursive_calls = metrics.recursive_calls + 1;

    if colored_count == colors.len() {
        metrics.complete_assignments = metrics.complete_assignments + 1;
        let sol = vstd::slice::slice_to_vec(colors.as_slice());
        assert(sol@ =~= c0);
        return Some(sol);
    }
    let ghost fuel: nat = (n - colored_count) as nat;
    let vertex = match select_dsatur_vertex_with_masks(graph, colors, forbidden_masks) {
        Some(v) => v,
        None => {
            return None;
        },
    };
    proof {
        assert forall|w: int|
            0 <= w < n && #[trigger] c0[w] == UNCOLORED && w != vertex implies saturation_prefers(
            g,
            c0,
            vertex as int,
            w,
        ) by {
            lemma_saturation_from_masks(g, c0, fm0, vertex as int, 64);
            lemma_saturation_from_masks(g, c0, fm0, w, 64);
            assert(dsatur_prefers(g, fm0, vertex as int, w));
            reveal(saturation_prefers);
        }
        assert(is_dsatur_choice(g, c0, vertex as int));
        let chosen = dsatur_choice(g, c0);
        assert(is_dsatur_choice(g, c0, chosen));
        if chosen != vertex {
            assert(c0[chosen] == UNCOLORED);
            assert(saturation_prefers(g, c0, vertex as int, chosen));
            assert(saturation_prefers(g, c0, chosen, vertex as int));
            reveal(saturation_prefers);
        }
        assert(chosen == vertex);
    }
    let ghost b0 = dsatur_branch(g, k as nat, c0, vertex as int, 0, fuel);
    assert(dsatur_node(g, k as nat, c0, fuel) == (b0.0, b0.1 + 1));
    let available = available_colors_mask(forbidden_masks[vertex], k);
    if available == 0 {
        proof {
            lemma_zero_iff_no_bit(available);
            assert forall|x: int| 0 <= x < k implies #[trigger] neighbor_has_color(g, c0, vertex as int, x) by {
                assert(!bit(available, x));
            }
            lemma_branch_blocked(g, k as nat, c0, vertex as int, 0, fuel);
            assert forall|c: Seq<usize>| #[trigger] is_k_coloring(g, c, k as int) implies !extends(
                c,
                c0,
            ) by {
                if extends(c, c0) {
                    let col = c[vertex as int];
                    assert(bit(available, col as int));
                }
            }
        }
        return None;
    }
    let mut color: usize = 0;
    while color < k
        invariant
            g == graph@,
            g.wf(),
            n == g.n(),
            k <= 64,
            vertex < n,
            c0[vertex as int] == UNCOLORED,
            colored_count < n,
            colored_count == num_colored(c0),
            fuel == n - colored_count,
            b0 == dsatur_branch(g, k as nat, c0, vertex as int, 0, fuel),
            dsatur_node(g, k as nat, c0, fuel) == (b0.0, b0.1 + 1),
            c0 == old(colors)@,
            fm0 == old(forbidden_masks)@,
            mt0 == *old(metrics),
            is_partial_coloring(g, c0, k as int),
            masks_match(g, c0, fm0),
            forall|col: int| #[trigger] bit(available, col) == (0 <= col < k && !bit(fm0[vertex as int], col)),
            colors@ == c0,
            forbidden_masks@ == fm0,
            color <= k,
            forall|c: Seq<usize>|
                #[trigger] is_k_coloring(g, c, k as int) && extends(c, c0) ==> c[vertex as int]
                    >= color,
            metrics.recursive_calls > mt0.recursive_calls,
            b0.0 == dsatur_branch(g, k as nat, c0, vertex as int, color as nat, fuel).0,
            b0.1 == (metrics.recursive_calls - mt0.recursive_calls - 1) + dsatur_branch(
                g,
                k as nat,
                c0,
                vertex as int,
                color as nat,
                fuel,
            ).1,
            metrics.complete_assignments == mt0.complete_assignments,
            mt0.recursive_calls + b0.1 + 1 <= u128::MAX,
            mt0.complete_assignments < u128::MAX,
        decreases k - color,
    {
        proof {
            lemma_bit_test(available, color as u64);
        }
        if available & (1u64 << color) == 0 {
            proof {
                assert forall|c: Seq<usize>|
                    #[trigger] is_k_coloring(g, c, k as int) && extends(c, c0) implies c[vertex as int]
                        >= color + 1 by {
                    if c[vertex as int] == color {
                        assert(bit(fm0[vertex as int], color as int));
                        assert(neighbor_has_color(g, c0, vertex as int, color as int));
                        let w = choose|w: int| #[trigger] g.has_edge(vertex as int, w) && c0[w] == color;
                        assert(c[w] == c0[w]);
                    }
                }
            }
            assert(neighbor_has_color(g, c0, vertex as int, color as int));
            color = color + 1;
            continue;
        }
        assert(!bit(fm0[vertex as int], color as int));
        assert(!neighbor_has_color(g, c0, vertex as int, color as int));
        colors.set(vertex, color);
        let ghost c1 = colors@;
        let changed_masks = apply_color_to_neighbors(graph, colors, forbidden_masks, vertex, color);
        let ghost fm1 = forbidden_masks@;
        let ghost sub = dsatur_node(g, k as nat, c1, (fuel - 1) as nat);
        let ghost rest = dsatur_branch(g, k as nat, c0, vertex as int, (color + 1) as nat, fuel);
        assert(c1 == c0.update(vertex as int, color));
        assert(dsatur_branch(g, k as nat, c0, vertex as int, color as nat, fuel) == if sub.0 is Some {
            sub
        } else {
            (rest.0, sub.1 + rest.1)
        });
        proof {
            lemma_num_colored_update(c0, vertex as int, color);
            assert(is_partial_coloring(g, c1, k as int)) by {
                assert forall|u: int, v: int|
                    #[trigger] g.has_edge(u, v) && c1[u] != UNCOLORED && c1[v] != UNCOLORED
                        implies c1[u] != c1[v] by {
                    if u == vertex && v != vertex {
                        if c1[v] == color {
                            assert(neighbor_has_color(g, c0, vertex as int, color as int));
                        }
                    } else if v == vertex && u != vertex {
                        assert(g.has_edge(v, u));
                        if c1[u] == color {
                            assert(neighbor_has_color(g, c0, vertex as int, color as int));
                        }
                    }
                }
            }
            assert(masks_match(g, c1, fm1)) by {
                assert forall|v: int, col: int|
                    0 <= v < n && c1[v] == UNCOLORED && 0 <= col < 64 implies #[trigger] bit(fm1[v], col)
                        == neighbor_has_color(g, c1, v, col) by {
                    assert(v != vertex);
                    assert(bit(fm0[v], col) == neighbor_has_color(g, c0, v, col));
                    if g.has_edge(vertex as int, v) {
                        lemma_bit_set(fm0[v], color as u64, col);
                        assert(g.has_edge(v, vertex as int));
                        if col == color {
                            assert(neighbor_has_color(g, c1, v, col));
                        }
                    }
                    if neighbor_has_color(g, c0, v, col) {
                        let w = choose|w: int| #[trigger] g.has_edge(v, w) && c0[w] == col;
                        assert(c1[w] == col);
                    }
                    if neighbor_has_color(g, c1, v, col) {
                        let w = choose|w: int| #[trigger] g.has_edge(v, w) && c1[w] == col;
                        if w != vertex {
                            assert(c0[w] == col);
                        }
                    }
                }
            }
        }
        let found = dsatur_rec(
            graph,
            k,
            colors,
            forbidden_masks,
            colored_count + 1,
            metrics,
        );
        match found {
            Some(sol) => {
                assert(sub.0 == Some(sol@));
                assert(b0.0 == Some(sol@));
                assert forall|v: int| 0 <= v < n && c0[v] != UNCOLORED implies #[trigger] sol@[v] == c0[v] by {
                    assert(c1[v] == c0[v]);
                }
                return Some(sol);
            },
            None => {},
        }
        proof {
            assert forall|c: Seq<usize>|
                #[trigger] is_k_coloring(g, c, k as int) && extends(c, c0) implies c[vertex as int]
                    >= color + 1 by {
                if c[vertex as int] == color {
                    assert(extends(c, c1));
                }
            }
        }
        let ghost changed = changed_masks@;
        let ghost fm2 = forbidden_masks@;
        rollback_forbidden_masks(forbidden_masks, changed_masks);
        proof {
            lemma_rollback_undoes_apply(g, c1, fm0, vertex, color, fm2, changed, forbidden_masks@);
        }
        colors.set(vertex, UNCOLORED);
        assert(colors@ =~= c0);
        color = color + 1;
    }
    proof {
        assert forall|c: Seq<usize>| #[trigger] is_k_coloring(g, c, k as int) implies !extends(
            c,
            c0,
        ) by {
            if extends(c, c0) {
                assert(c[vertex as int] < k);
            }
        }
    }
    None
}

/// Decides whether `graph` has a proper colouring with the colours `0..k` by
/// DSATUR backtracking, and returns one when it exists.
pub fn dsatur_k_coloring(graph: &Graph, k: usize) -> (result: ColoringResult)
    requires
        graph@.wf(),
        graph@.n() == 0 || k <= 64,
        dsatur_search(graph@, k as nat).1 <= u128::MAX,
    ensures
        result.colorable == k_colorable(graph@, k as int),
        result.colorable == result.colors.is_some(),
        match result.colors {
            Some(c) => {
                &&& is_k_coloring(graph@, c@, k as int)
                &&& dsatur_search(graph@, k as nat).0 == Some(c@)
            },
            None => dsatur_search(graph@, k as nat).0 is None,
        },
        result.complete_assignments == if result.colorable { 1u128 } else { 0u128 },
        result.recursive_calls == dsatur_search(graph@, k as nat).1,
{
    let start = clock_now();
    let n = graph.vertex_count();
    let mut colors: Vec<usize> = vec![UNCOLORED; n];
    let mut forbidden_masks: Vec<u64> = vec![0u64; n];
    let mut metrics = SearchMetrics { recursive_calls: 0, complete_assignments: 0 };
    proof {
        assert(colors@ =~= Seq::new(n as nat, |i: int| UNCOLORED));
        lemma_num_colored_none(colors@);
        assert forall|v: int, col: int|
            0 <= v < n && colors@[v] == UNCOLORED && 0 <= col < 64 implies #[trigger] bit(
            forbidden_masks@[v],
            col,
        ) == neighbor_has_color(graph@, colors@, v, col) by {
            lemma_bit_zero(col);
            if neighbor_has_color(graph@, colors@, v, col) {
                let w = choose|w: int| #[trigger] graph@.has_edge(v, w) && colors@[w] == col;
            }
        }
    }
    let solution = dsatur_rec(graph, k, &mut colors, &mut forbidden_masks, 0, &mut metrics);
    proof {
        if solution.is_none() {
            assert forall|d: Seq<usize>| !#[trigger] is_k_coloring(graph@, d, k as int) by {
                if is_k_coloring(graph@, d, k as int) {
                    assert(extends(d, colors@));
                }
            }
        }
    }
    ColoringResult {
        colorable: solution.is_some(),
        colors: solution,
        recursive_calls: metrics.recursive_calls,
        complete_assignments: metrics.complete_assignments,
        duration: clock_elapsed(&start),
    }
}

} // verus!
