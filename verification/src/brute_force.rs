//! Exact colouring by enumeration: every assignment of the colours `0..k`, in
//! lexicographic order, each checked once complete.
use vstd::prelude::*;
use crate::coloring::{
    ColoringResult, SearchMetrics, agree_below, is_k_coloring, is_proper, k_colorable,
    power, search_tree_size, validate_coloring,
};
use crate::clock::{clock_now, clock_elapsed};
use crate::graph::{Graph, GraphView};

verus! {

/// `c` is a proper colouring of `g` that keeps the colours `p` gives the
/// positions `0..m` and uses only the colours `0..k` from position `m` on.
pub open spec fn completes_prefix(g: GraphView, c: Seq<usize>, p: Seq<usize>, m: int, k: int) -> bool {
    &&& is_proper(g, c)
    &&& agree_below(c, p, m)
    &&& forall|i: int| m <= i < c.len() ==> #[trigger] c[i] < k
}

/// `a` comes before `b` in lexicographic order.
pub open spec fn lex_less(a: Seq<usize>, b: Seq<usize>) -> bool {
    exists|i: int| 0 <= i < a.len() && agree_below(a, b, i) && #[trigger] a[i] < #[trigger] b[i]
}

/// How many assignments of the colours `0..k` to the positions `i..c.len()`
/// come before the one `c` makes there, in lexicographic order.
pub open spec fn assignments_before(c: Seq<usize>, k: nat, i: int) -> int
    decreases c.len() - i,
{
    if i >= c.len() || i < 0 {
        0
    } else {
        c[i] * power(k as nat, (c.len() - 1 - i) as nat) + assignments_before(c, k, i + 1)
    }
}

/// How many nodes of the enumeration tree below depth `i` lie in the subtrees
/// that come before the path `c` takes.
pub open spec fn subtrees_before(c: Seq<usize>, k: nat, i: int) -> int
    decreases c.len() - i,
{
    if i >= c.len() || i < 0 {
        0
    } else {
        c[i] * search_tree_size((c.len() - 1 - i) as nat, k) + subtrees_before(c, k, i + 1)
    }
}

/// The enumeration below the prefix `p`: the colouring it returns, if any,
/// how many times it is entered, and how many complete assignments it checks.
pub open spec fn brute_force_node(g: GraphView, k: nat, p: Seq<usize>) -> (Option<Seq<usize>>, nat, nat)
    decreases g.n() - p.len(), k + 1,
{
    if p.len() >= g.n() {
        (if is_proper(g, p) { Some(p) } else { None }, 1, 1)
    } else {
        let b = brute_force_branch(g, k, p, 0);
        (b.0, b.1 + 1, b.2)
    }
}

/// The part of the enumeration below `p` that tries the colours `color..k`
/// for the next position.
pub open spec fn brute_force_branch(g: GraphView, k: nat, p: Seq<usize>, color: nat) -> (Option<
    Seq<usize>,
>, nat, nat)
    decreases g.n() - p.len(), k - color,
{
    if p.len() >= g.n() || color >= k {
        (None, 0, 0)
    } else {
        let sub = brute_force_node(g, k, p.push(color as usize));
        if sub.0 is Some {
            sub
        } else {
            let rest = brute_force_branch(g, k, p, color + 1);
            (rest.0, sub.1 + rest.1, sub.2 + rest.2)
        }
    }
}

/// The whole enumeration on `g` with `k` colours.
pub open spec fn brute_force_search(g: GraphView, k: nat) -> (Option<Seq<usize>>, nat, nat) {
    brute_force_node(g, k, Seq::empty())
}

/// The enumeration checks no more complete assignments than it makes calls.
pub proof fn lemma_brute_force_node_counts(g: GraphView, k: nat, p: Seq<usize>)
    ensures
        brute_force_node(g, k, p).2 <= brute_force_node(g, k, p).1,
    decreases g.n() - p.len(), k + 1,
{
    if p.len() < g.n() {
        lemma_brute_force_branch_counts(g, k, p, 0);
    }
}

/// The colours `color..k` of a branch check no more complete assignments than
/// they make calls.
pub proof fn lemma_brute_force_branch_counts(g: GraphView, k: nat, p: Seq<usize>, color: nat)
    ensures
        brute_force_branch(g, k, p, color).2 <= brute_force_branch(g, k, p, color).1,
    decreases g.n() - p.len(), k - color,
{
    if p.len() < g.n() && color < k {
        lemma_brute_force_node_counts(g, k, p.push(color as usize));
        lemma_brute_force_branch_counts(g, k, p, color + 1);
    }
}

/// The enumeration below a prefix returns a colouring that keeps the prefix
/// and uses the colours `0..k` after it, or nothing when none exists.
pub proof fn lemma_brute_force_node_correct(g: GraphView, k: nat, p: Seq<usize>)
    requires
        g.wf(),
        p.len() <= g.n(),
    ensures
        match brute_force_node(g, k, p).0 {
            Some(c) => completes_prefix(g, c, p, p.len() as int, k as int),
            None => forall|c: Seq<usize>|
                !#[trigger] completes_prefix(g, c, p, p.len() as int, k as int),
        },
    decreases g.n() - p.len(), k + 1,
{
    if p.len() >= g.n() {
        assert forall|c: Seq<usize>|
            #[trigger] completes_prefix(g, c, p, p.len() as int, k as int) implies c == p by {
            assert(c =~= p);
        }
    } else {
        lemma_brute_force_branch_correct(g, k, p, 0);
    }
}

/// The colours `color..k` for the next position after `p` find a colouring
/// exactly when one keeping `p` gives that position a colour from `color` on.
pub proof fn lemma_brute_force_branch_correct(g: GraphView, k: nat, p: Seq<usize>, color: nat)
    requires
        g.wf(),
        p.len() < g.n(),
    ensures
        match brute_force_branch(g, k, p, color).0 {
            Some(c) => completes_prefix(g, c, p, p.len() as int, k as int),
            None => forall|c: Seq<usize>|
                #[trigger] completes_prefix(g, c, p, p.len() as int, k as int) ==> c[p.len() as int]
                    < color,
        },
    decreases g.n() - p.len(), k - color,
{
    if color < k {
        let q = p.push(color as usize);
        lemma_brute_force_node_correct(g, k, q);
        lemma_brute_force_branch_correct(g, k, p, color + 1);
        match brute_force_node(g, k, q).0 {
            Some(c) => {
                assert forall|i: int| 0 <= i < p.len() implies #[trigger] c[i] == #[trigger] p[i] by {
                    assert(q[i] == p[i]);
                }
                assert(c[p.len() as int] == q[p.len() as int]);
            },
            None => {
                assert forall|c: Seq<usize>|
                    #[trigger] completes_prefix(g, c, p, p.len() as int, k as int)
                        && c[p.len() as int] == color implies completes_prefix(g, c, q, q.len() as int, k as int) by {
                    assert forall|i: int| 0 <= i < q.len() implies #[trigger] c[i] == #[trigger] q[i] by {
                        if i < p.len() {
                            assert(q[i] == p[i]);
                        }
                    }
                }
            },
        }
    } else {
        assert forall|c: Seq<usize>|
            #[trigger] completes_prefix(g, c, p, p.len() as int, k as int)
                implies c[p.len() as int] < color by {
            assert(c[p.len() as int] < k);
        }
    }
}

/// The enumeration below `p` enters itself at most `1 + k + ... + k^m` times
/// and checks at most `k^m` complete assignments, `m` being the number of
/// positions left.
pub proof fn lemma_brute_force_node_bound(g: GraphView, k: nat, p: Seq<usize>)
    requires
        p.len() <= g.n(),
    ensures
        brute_force_node(g, k, p).1 <= search_tree_size((g.n() - p.len()) as nat, k),
        brute_force_node(g, k, p).2 <= power(k, (g.n() - p.len()) as nat),
    decreases g.n() - p.len(), k + 1,
{
    if p.len() < g.n() {
        lemma_brute_force_branch_bound(g, k, p, 0);
    }
}

/// The colours `color..k` of a branch below `p` enter the enumeration at most
/// `k - color` times the size of a tree one level shallower.
pub proof fn lemma_brute_force_branch_bound(g: GraphView, k: nat, p: Seq<usize>, color: nat)
    requires
        p.len() < g.n(),
        color <= k,
    ensures
        brute_force_branch(g, k, p, color).1 <= (k - color) * search_tree_size(
            (g.n() - p.len() - 1) as nat,
            k,
        ),
        brute_force_branch(g, k, p, color).2 <= (k - color) * power(
            k,
            (g.n() - p.len() - 1) as nat,
        ),
    decreases g.n() - p.len(), k - color,
{
    let t = search_tree_size((g.n() - p.len() - 1) as nat, k);
    let q = power(k, (g.n() - p.len() - 1) as nat);
    if color < k {
        lemma_brute_force_node_bound(g, k, p.push(color as usize));
        lemma_brute_force_branch_bound(g, k, p, color + 1);
        assert((k - (color + 1)) * t + t == (k - color) * t) by (nonlinear_arith);
        assert((k - (color + 1)) * q + q == (k - color) * q) by (nonlinear_arith);
        assert((k - (color + 1)) * t <= (k - color) * t) by (nonlinear_arith)
            requires
                color < k,
        ;
        assert((k - (color + 1)) * q <= (k - color) * q) by (nonlinear_arith)
            requires
                color < k,
        ;
    }
}

/// Tries every colour `0..k` for the positions `index..n` of `colors`, the
/// first `index` positions being kept with whatever colours they hold, and
/// returns the first proper colouring met in lexicographic order.
fn brute_force_rec(
    graph: &Graph,
    k: usize,
    index: usize,
    colors: &mut Vec<usize>,
    metrics: &mut SearchMetrics,
) -> (r: Option<Vec<usize>>)
    requires
        graph@.wf(),
        old(colors)@.len() == graph@.n(),
        index <= graph@.n(),
        old(metrics).recursive_calls + brute_force_node(
            graph@,
            k as nat,
            old(colors)@.subrange(0, index as int),
        ).1 <= u128::MAX,
        old(metrics).complete_assignments + brute_force_node(
            graph@,
            k as nat,
            old(colors)@.subrange(0, index as int),
        ).2 <= u128::MAX,
    ensures
        final(metrics).recursive_calls == old(metrics).recursive_calls + brute_force_node(
            graph@,
            k as nat,
            old(colors)@.subrange(0, index as int),
        ).1,
        final(metrics).complete_assignments == old(metrics).complete_assignments
            + brute_force_node(graph@, k as nat, old(colors)@.subrange(0, index as int)).2,
        match r {
            Some(sol) => brute_force_node(graph@, k as nat, old(colors)@.subrange(0, index as int)).0
                == Some(sol@),
            None => brute_force_node(graph@, k as nat, old(colors)@.subrange(0, index as int)).0 is None,
        },
        final(colors)@.len() == graph@.n(),
        agree_below(final(colors)@, old(colors)@, index as int),
        match r {
            Some(sol) => {
                &&& completes_prefix(graph@, sol@, old(colors)@, index as int, k as int)
                &&& forall|c: Seq<usize>|
                    #[trigger] completes_prefix(graph@, c, old(colors)@, index as int, k as int)
                        ==> !lex_less(c, sol@)
                &&& final(metrics).complete_assignments == old(metrics).complete_assignments + 1
                    + assignments_before(sol@, k as nat, index as int)
                &&& final(metrics).recursive_calls == old(metrics).recursive_calls + (
                graph@.n() - index) + 1 + subtrees_before(sol@, k as nat, index as int)
            },
            None => {
                &&& forall|c: Seq<usize>|
                    !#[trigger] completes_prefix(graph@, c, old(colors)@, index as int, k as int)
                &&& final(metrics).complete_assignments == old(metrics).complete_assignments
                    + power(k as nat, (graph@.n() - index) as nat)
                &&& final(metrics).recursive_calls == old(metrics).recursive_calls
                    + search_tree_size((graph@.n() - index) as nat, k as nat)
            },
        },
    decreases graph@.n() - index,
{
    let ghost g = graph@;
    let ghost n = g.n();
    let ghost c0 = colors@;
    let ghost m0 = *metrics;
    let ghost pre = c0.subrange(0, index as int);
    metrics.recursive_calls = metrics.recursive_calls + 1;

    if index == colors.len() {
        assert(pre =~= c0);
        metrics.complete_assignments = metrics.complete_assignments + 1;
        if validate_coloring(graph, colors.as_slice()) {
            let sol = vstd::slice::slice_to_vec(colors.as_slice());
            assert(sol@ =~= c0);
            assert(completes_prefix(g, sol@, c0, index as int, k as int));
            assert forall|c: Seq<usize>|
                #[trigger] completes_prefix(g, c, c0, index as int, k as int)
                    implies !lex_less(c, sol@) by {
                if lex_less(c, sol@) {
                    let i = choose|i: int|
                        0 <= i < c.len() && agree_below(c, sol@, i) && #[trigger] c[i]
                            < #[trigger] sol@[i];
                    assert(c[i] == c0[i]);
                }
            }
            return Some(sol);
        }
        assert forall|c: Seq<usize>| !#[trigger] completes_prefix(g, c, c0, index as int, k as int) by {
            if completes_prefix(g, c, c0, index as int, k as int) {
                assert(c =~= c0);
            }
        }
        return None;
    }
    let ghost rem: nat = (n - index - 1) as nat;
    let ghost t = search_tree_size(rem, k as nat);
    let ghost p = power(k as nat, rem);
    let ghost b0 = brute_force_branch(g, k as nat, pre, 0);
    assert(brute_force_node(g, k as nat, pre) == (b0.0, b0.1 + 1, b0.2));
    let mut color: usize = 0;
    while color < k
        invariant
            g == graph@,
            g.wf(),
            n == g.n(),
            index < n,
            rem == n - index - 1,
            t == search_tree_size(rem, k as nat),
            p == power(k as nat, rem),
            colors@.len() == n,
            c0 == old(colors)@,
            m0 == *old(metrics),
            color <= k,
            agree_below(colors@, c0, index as int),
            forall|c: Seq<usize>|
                #[trigger] completes_prefix(g, c, c0, index as int, k as int) ==> c[index as int]
                    >= color,
            metrics.recursive_calls == m0.recursive_calls + 1 + color * t,
            metrics.complete_assignments == m0.complete_assignments + color * p,
            c0.len() == n,
            pre == c0.subrange(0, index as int),
            b0 == brute_force_branch(g, k as nat, pre, 0),
            brute_force_node(g, k as nat, pre) == (b0.0, b0.1 + 1, b0.2),
            b0.0 == brute_force_branch(g, k as nat, pre, color as nat).0,
            b0.1 == color * t + brute_force_branch(g, k as nat, pre, color as nat).1,
            b0.2 == color * p + brute_force_branch(g, k as nat, pre, color as nat).2,
            m0.recursive_calls + b0.1 + 1 <= u128::MAX,
            m0.complete_assignments + b0.2 <= u128::MAX,
        decreases k - color,
    {
        let ghost c_prev = colors@;
        colors.set(index, color);
        let ghost c1 = colors@;
        assert(agree_below(c1, c0, index as int)) by {
            assert forall|i: int| 0 <= i < index implies #[trigger] c1[i] == #[trigger] c0[i] by {
                assert(c1[i] == c_prev[i]);
            }
        }
        assert(c1[index as int] == color);
        assert(search_tree_size((n - index) as nat, k as nat) == 1 + k * t);
        assert(power(k as nat, (n - index) as nat) == k * p);
        assert(color * t + t == (color + 1) * t && color * p + p == (color + 1) * p)
            by (nonlinear_arith);
        let ghost pre1 = c1.subrange(0, index + 1);
        assert(pre1 =~= pre.push(color)) by {
            assert forall|i: int| 0 <= i < index implies #[trigger] pre1[i] == pre[i] by {
                assert(c1[i] == c0[i]);
            }
        }
        let ghost sub = brute_force_node(g, k as nat, pre1);
        let ghost rest = brute_force_branch(g, k as nat, pre, (color + 1) as nat);
        assert(brute_force_branch(g, k as nat, pre, color as nat) == if sub.0 is Some {
            sub
        } else {
            (rest.0, sub.1 + rest.1, sub.2 + rest.2)
        });
        let found = brute_force_rec(graph, k, index + 1, colors, metrics);
        assert(agree_below(colors@, c0, index as int)) by {
            assert forall|i: int| 0 <= i < index implies #[trigger] colors@[i] == #[trigger] c0[i] by {
                assert(colors@[i] == c1[i]);
            }
        }
        match found {
            Some(sol) => {
                assert forall|c: Seq<usize>|
                    #[trigger] completes_prefix(g, c, c0, index as int, k as int)
                        implies !lex_less(c, sol@) by {
                    if c[index as int] == color {
                        assert(agree_below(c, c1, index + 1)) by {
                            assert forall|i: int| 0 <= i < index + 1 implies #[trigger] c[i]
                                == #[trigger] c1[i] by {
                                if i < index {
                                    assert(c[i] == c0[i]);
                                }
                            }
                        }
                        assert(completes_prefix(g, c, c1, index + 1, k as int));
                    } else if lex_less(c, sol@) {
                        let i = choose|i: int|
                            0 <= i < c.len() && agree_below(c, sol@, i) && #[trigger] c[i]
                                < #[trigger] sol@[i];
                        if i < index {
                            assert(c[i] == c0[i] && sol@[i] == c1[i]);
                        } else if i > index {
                            assert(c[index as int] == sol@[index as int]);
                        }
                    }
                }
                assert(sol@.len() == n);
                assert(agree_below(sol@, c0, index as int)) by {
                    assert forall|i: int| 0 <= i < index implies #[trigger] sol@[i]
                        == #[trigger] c0[i] by {
                        assert(sol@[i] == c1[i]);
                    }
                }
                assert(sol@[index as int] == c1[index as int]);
                assert(completes_prefix(g, sol@, c0, index as int, k as int));
                assert(assignments_before(sol@, k as nat, index as int) == color * p
                    + assignments_before(sol@, k as nat, index + 1));
                assert(subtrees_before(sol@, k as nat, index as int) == color * t
                    + subtrees_before(sol@, k as nat, index + 1));
                return Some(sol);
            },
            None => {
                assert forall|c: Seq<usize>|
                    #[trigger] completes_prefix(g, c, c0, index as int, k as int)
                        implies c[index as int] >= color + 1 by {
                    if c[index as int] == color {
                        assert(agree_below(c, c1, index + 1)) by {
                            assert forall|i: int| 0 <= i < index + 1 implies #[trigger] c[i]
                                == #[trigger] c1[i] by {
                                if i < index {
                                    assert(c[i] == c0[i]);
                                }
                            }
                        }
                        assert(completes_prefix(g, c, c1, index + 1, k as int));
                    }
                }
            },
        }
        color = color + 1;
    }
    assert forall|c: Seq<usize>| !#[trigger] completes_prefix(g, c, c0, index as int, k as int) by {
        if completes_prefix(g, c, c0, index as int, k as int) {
            assert(c[index as int] < k);
        }
    }
    None
}

/// Decides whether `graph` has a proper colouring with the colours `0..k` by
/// trying every assignment in lexicographic order, and returns the first one
/// found.
pub fn brute_force_k_coloring(graph: &Graph, k: usize) -> (result: ColoringResult)
    requires
        graph@.wf(),
        brute_force_search(graph@, k as nat).1 <= u128::MAX,
    ensures
        result.colorable == k_colorable(graph@, k as int),
        result.colorable == result.colors.is_some(),
        result.recursive_calls == brute_force_search(graph@, k as nat).1,
        result.complete_assignments == brute_force_search(graph@, k as nat).2,
        match result.colors {
            Some(c) => {
                &&& brute_force_search(graph@, k as nat).0 == Some(c@)
                &&& is_k_coloring(graph@, c@, k as int)
                &&& forall|d: Seq<usize>|
                    #[trigger] is_k_coloring(graph@, d, k as int) ==> !lex_less(d, c@)
                &&& result.complete_assignments == 1 + assignments_before(c@, k as nat, 0)
                &&& result.recursive_calls == graph@.n() + 1 + subtrees_before(c@, k as nat, 0)
            },
            None => {
                &&& brute_force_search(graph@, k as nat).0 is None
                &&& result.complete_assignments == power(k as nat, graph@.n())
                &&& result.recursive_calls == search_tree_size(graph@.n(), k as nat)
            },
        },
{
    let start = clock_now();
    let n = graph.vertex_count();
    let mut colors: Vec<usize> = vec![0; n];
    let mut metrics = SearchMetrics { recursive_calls: 0, complete_assignments: 0 };
    proof {
        assert(colors@.subrange(0, 0) =~= Seq::<usize>::empty());
        lemma_brute_force_node_counts(graph@, k as nat, Seq::empty());
    }
    let ghost initial = colors@;
    let solution = brute_force_rec(graph, k, 0, &mut colors, &mut metrics);
    proof {
        match &solution {
            Some(sol) => {
                assert(is_k_coloring(graph@, sol@, k as int));
                assert forall|d: Seq<usize>| #[trigger] is_k_coloring(graph@, d, k as int) implies !lex_less(d, sol@) by {
                    assert(completes_prefix(graph@, d, initial, 0, k as int));
                }
            },
            None => {
                assert forall|d: Seq<usize>| !#[trigger] is_k_coloring(graph@, d, k as int) by {
                    if is_k_coloring(graph@, d, k as int) {
                        assert(completes_prefix(graph@, d, initial, 0, k as int));
                    }
                }
            },
        }
    }
    ColoringResult {
        colorable: solution.is_some(),
        colors: solution,
        recursive_calls: metrics.recursive_calls,
        complete_assignments: metrics.complete_assignments,
        duration: clock_elapsed(&start),
    }
}

} // verus!
