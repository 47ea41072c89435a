//! Pseudo-random graphs from the SplitMix64 generator: the same seed and
//! threshold always give the same graph.
use vstd::prelude::*;
use vstd::wrapping::u64_specs::{wrapping_add, wrapping_mul};
use crate::graph::{Graph, GraphView, MAX_VERTICES};
use vstd::arithmetic::div_mod::{lemma_add_mod_noop, lemma_small_mod};

verus! {

/// The increment SplitMix64 adds to its state at each step.
pub const SPLITMIX_GAMMA: u64 = 0x9E37_79B9_7F4A_7C15;

/// First multiplier of the SplitMix64 output function.
pub const SPLITMIX_MUL1: u64 = 0xBF58_476D_1CE4_E5B9;

/// Second multiplier of the SplitMix64 output function.
pub const SPLITMIX_MUL2: u64 = 0x94D0_49BB_1331_11EB;

/// The SplitMix64 output function applied to an advanced state.
pub open spec fn splitmix_mix(z: u64) -> u64 {
    let z1 = wrapping_mul(z ^ (z >> 30u64), SPLITMIX_MUL1);
    let z2 = wrapping_mul(z1 ^ (z1 >> 27u64), SPLITMIX_MUL2);
    z2 ^ (z2 >> 31u64)
}

/// The generator state after `t` steps from `seed`.
pub open spec fn splitmix_state(seed: u64, t: nat) -> u64
    decreases t,
{
    if t == 0 {
        seed
    } else {
        wrapping_add(splitmix_state(seed, (t - 1) as nat), SPLITMIX_GAMMA)
    }
}

/// The `t`-th number (counting from 0) drawn from a generator seeded with `seed`.
pub open spec fn splitmix_output(seed: u64, t: nat) -> u64 {
    splitmix_mix(splitmix_state(seed, t + 1))
}

/// How many vertex pairs `(a, b)` with `a < b < n` have `a < u`.
pub open spec fn row_start(n: int, u: int) -> int
    decreases u,
{
    if u <= 0 {
        0
    } else {
        row_start(n, u - 1) + (n - u)
    }
}

/// The position of the pair `(u, v)`, `u < v`, when the pairs of `n` vertices
/// are listed by `u`, then by `v`.
pub open spec fn pair_index(n: int, u: int, v: int) -> int {
    row_start(n, u) + (v - u - 1)
}

/// `g` has `n` vertices, and each pair `u < v` is an edge exactly when the
/// number drawn for it from a generator seeded with `seed` is at most `threshold`.
pub open spec fn is_drawn_graph(g: GraphView, n: nat, threshold: u64, seed: u64) -> bool {
    &&& g.n() == n
    &&& forall|u: int, v: int|
        u < v ==> #[trigger] g.has_edge(u, v) == (0 <= u && v < n && splitmix_output(
            seed,
            pair_index(n as int, u, v) as nat,
        ) <= threshold)
}

/// The SplitMix64 pseudo-random generator.
pub struct SplitMix64 {
    pub state: u64,
}

impl SplitMix64 {
    /// A generator whose state is `seed`.
    pub fn new(seed: u64) -> (r: SplitMix64)
        ensures
            r.state == seed,
    {
        SplitMix64 { state: seed }
    }

    /// Advances the state by one step and returns the mixed new state.
    pub fn next_u64(&mut self) -> (r: u64)
        ensures
            final(self).state == wrapping_add(old(self).state, SPLITMIX_GAMMA),
            r == splitmix_mix(final(self).state),
    {
        self.state = self.state.wrapping_add(SPLITMIX_GAMMA);
        let mut z = self.state;
        z = (z ^ (z >> 30)).wrapping_mul(SPLITMIX_MUL1);
        z = (z ^ (z >> 27)).wrapping_mul(SPLITMIX_MUL2);
        z ^ (z >> 31)
    }
}

proof fn lemma_row_start_step(n: int, u: int)
    requires
        0 <= u,
    ensures
        row_start(n, u + 1) == row_start(n, u) + (n - u - 1),
{
}

/// The pairs are drawn row by row: before `(u, v)` come the `u (2n - u - 1) / 2`
/// pairs whose first vertex is below `u`, then the `v - u - 1` pairs `(u, w)`
/// with `u < w < v`.
pub proof fn lemma_pair_index_closed_form(n: int, u: int, v: int)
    requires
        0 <= u < v < n,
    ensures
        pair_index(n, u, v) == u * (2 * n - u - 1) / 2 + (v - u - 1),
        0 <= pair_index(n, u, v) < n * (n - 1) / 2,
{
    lemma_row_start_closed_form(n, u);
    lemma_row_start_closed_form(n, u + 1);
    let r = row_start(n, u);
    assert(2 * row_start(n, u + 1) == (u + 1) * (2 * n - u - 2));
    assert((u + 1) * (2 * n - u - 2) <= n * (n - 1)) by (nonlinear_arith)
        requires
            0 <= u,
            u + 1 <= n,
    ;
    assert(u * (2 * n - u - 1) >= 0) by (nonlinear_arith)
        requires
            0 <= u < n,
    ;
    assert(row_start(n, u + 1) == r + (n - u - 1));
    let m = n * (n - 1);
    assert(2 * row_start(n, u + 1) <= m);
    assert(row_start(n, u + 1) <= m / 2);
    assert(r >= 0);
}

proof fn lemma_row_start_closed_form(n: int, u: int)
    requires
        0 <= u,
    ensures
        2 * row_start(n, u) == u * (2 * n - u - 1),
        row_start(n, u) == u * (2 * n - u - 1) / 2,
    decreases u,
{
    if u > 0 {
        lemma_row_start_closed_form(n, u - 1);
        let prev = row_start(n, u - 1);
        assert(row_start(n, u) == prev + (n - u));
        assert(2 * prev == (u - 1) * (2 * n - u));
        assert(u * (2 * n - u - 1) == (u - 1) * (2 * n - u) + 2 * (n - u)) by (nonlinear_arith);
        let x = u * (2 * n - u - 1);
        assert(2 * row_start(n, u) == x);
    } else {
        assert(u * (2 * n - u - 1) == 0) by (nonlinear_arith)
            requires
                u == 0,
        ;
    }
}

/// After `t` steps from `seed` the generator state is `seed + t * gamma`
/// modulo `2^64`.
pub proof fn lemma_splitmix_state_closed_form(seed: u64, t: nat)
    ensures
        splitmix_state(seed, t) as int == (seed + t * SPLITMIX_GAMMA) % 0x1_0000_0000_0000_0000,
    decreases t,
{
    let m: int = 0x1_0000_0000_0000_0000;
    if t == 0 {
        lemma_small_mod(seed as nat, m as nat);
    } else {
        lemma_splitmix_state_closed_form(seed, (t - 1) as nat);
        let prev = splitmix_state(seed, (t - 1) as nat) as int;
        let g = SPLITMIX_GAMMA as int;
        let x = seed + (t - 1) * g;
        assert(prev == x % m);
        lemma_small_mod(g as nat, m as nat);
        lemma_add_mod_noop(x, g, m);
        assert(x + g == seed + t * g) by (nonlinear_arith)
            requires
                x == seed + (t - 1) * g,
        ;
        assert((prev + g) % m == (seed + t * g) % m);
        if prev + g >= m {
            lemma_small_mod((prev + g - m) as nat, m as nat);
            assert((prev + g) % m == (prev + g - m) % m);
        } else {
            lemma_small_mod((prev + g) as nat, m as nat);
        }
    }
}

/// The pairs of a drawn graph in closed form: the pair `(u, v)`, `u < v < n`,
/// is an edge exactly when the generator state after
/// `u (2n - u - 1) / 2 + (v - u - 1) + 1` steps, mixed, is at most `threshold`.
pub proof fn lemma_drawn_graph_closed_form(
    g: GraphView,
    n: nat,
    threshold: u64,
    seed: u64,
    u: int,
    v: int,
)
    requires
        is_drawn_graph(g, n, threshold, seed),
        0 <= u < v < n,
    ensures
        g.has_edge(u, v) == (splitmix_mix(
            ((seed + (u * (2 * n - u - 1) / 2 + (v - u - 1) + 1) * SPLITMIX_GAMMA)
                % 0x1_0000_0000_0000_0000) as u64,
        ) <= threshold),
{
    lemma_pair_index_closed_form(n as int, u, v);
    let t = pair_index(n as int, u, v);
    lemma_splitmix_state_closed_form(seed, (t + 1) as nat);
}

impl Graph {
    /// The graph on `n` vertices in which each pair `u < v`, taken in the order
    /// of [`pair_index`], draws one number from a generator seeded with `seed`
    /// and becomes an edge when that number is at most `threshold`.
    pub fn random_with_threshold(n: usize, threshold: u64, seed: u64) -> (g: Graph)
        requires
            n <= MAX_VERTICES,
        ensures
            g@.wf(),
            is_drawn_graph(g@, n as nat, threshold, seed),
    {
        let mut graph = Graph::new(n);
        let mut rng = SplitMix64::new(seed);
        let ghost mut t: nat = 0;
        let mut u: usize = 0;
        while u < n
            invariant
                u <= n,
                graph@.wf(),
                graph@.n() == n,
                t == row_start(n as int, u as int),
                rng.state == splitmix_state(seed, t),
                forall|a: int, b: int|
                    a < b ==> #[trigger] graph@.has_edge(a, b) == (0 <= a && b < n && a < u
                        && splitmix_output(seed, pair_index(n as int, a, b) as nat) <= threshold),
            decreases n - u,
        {
            let mut v: usize = u + 1;
            while v < n
                invariant
                    u < n,
                    u + 1 <= v <= n,
                    graph@.wf(),
                    graph@.n() == n,
                    t == pair_index(n as int, u as int, v as int),
                    rng.state == splitmix_state(seed, t),
                    forall|a: int, b: int|
                        a < b ==> #[trigger] graph@.has_edge(a, b) == (0 <= a && b < n && (a < u
                            || (a == u && b < v)) && splitmix_output(
                            seed,
                            pair_index(n as int, a, b) as nat,
                        ) <= threshold),
                decreases n - v,
            {
                let x = rng.next_u64();
                assert(x == splitmix_output(seed, t));
                if x <= threshold {
                    graph.add_edge(u, v);
                }
                proof {
                    t = t + 1;
                }
                v = v + 1;
            }
            proof {
                lemma_row_start_step(n as int, u as int);
            }
            u = u + 1;
        }
        graph
    }
}

} // verus!
