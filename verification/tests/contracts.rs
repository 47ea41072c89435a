use graph_coloring::{
    brute_force_k_coloring, colors_used_by, dsatur_k_coloring, validate_coloring,
    welsh_powell_coloring, Graph, MAX_VERTICES,
};

fn path(n: usize) -> Graph {
    let mut graph = Graph::new(n);
    for u in 1..n {
        graph.add_edge(u - 1, u);
    }
    graph
}

#[test]
fn new_graph_has_no_edges() {
    let graph = Graph::new(4);
    assert_eq!(graph.vertex_count(), 4);
    assert_eq!(graph.edge_count(), 0);
    for v in 0..4 {
        assert_eq!(graph.neighbors_mask(v), 0);
        assert_eq!(graph.degree(v), 0);
    }
}

#[test]
fn complete_graph_joins_every_pair() {
    let graph = Graph::complete(5);
    assert_eq!(graph.edge_count(), 10);
    assert_eq!(graph.neighbors_mask(0), 0b11110);
    assert_eq!(graph.neighbors_mask(3), 0b10111);
    assert_eq!(graph.degree(2), 4);
}

#[test]
fn largest_complete_graph_uses_every_bit() {
    let graph = Graph::complete(MAX_VERTICES);
    assert_eq!(graph.edge_count(), 64 * 63 / 2);
    assert_eq!(graph.neighbors_mask(63), u64::MAX >> 1);
    assert_eq!(graph.degree(0), 63);
}

#[test]
fn cycle_edges() {
    let graph = Graph::cycle(5);
    assert_eq!(graph.edge_count(), 5);
    assert_eq!(graph.neighbors_mask(0), 0b10010);
    assert_eq!(graph.neighbors_mask(4), 0b01001);
    assert_eq!(Graph::cycle(2).edge_count(), 1);
    assert_eq!(Graph::cycle(1).edge_count(), 0);
    assert_eq!(Graph::cycle(0).edge_count(), 0);
}

#[test]
fn add_edge_is_symmetric_and_idempotent() {
    let mut graph = Graph::new(3);
    graph.add_edge(2, 0);
    assert_eq!(graph.edge_count(), 1);
    assert_eq!(graph.neighbors_mask(0), 0b100);
    assert_eq!(graph.neighbors_mask(2), 0b001);
    graph.add_edge(0, 2);
    graph.add_edge(2, 0);
    assert_eq!(graph.edge_count(), 1);
    assert_eq!(graph.degree(1), 0);
}

#[test]
fn random_graph_follows_the_generator() {
    // The first three SplitMix64 outputs for seed 0 are 0xe220a8397b1dcdaf,
    // 0x6e789e6aa1b965f4 and 0x06c45d188009454f, for the pairs (0,1), (0,2), (1,2).
    let graph = Graph::random_with_threshold(3, 0x7000_0000_0000_0000, 0);
    assert_eq!(graph.neighbors_mask(0), 0b100);
    assert_eq!(graph.neighbors_mask(1), 0b100);
    assert_eq!(graph.neighbors_mask(2), 0b011);
    assert_eq!(graph.edge_count(), 2);

    let first = Graph::random_with_threshold(2, 0xe220_a839_7b1d_cdaf, 0);
    assert_eq!(first.edge_count(), 1);
    let below = Graph::random_with_threshold(2, 0xe220_a839_7b1d_cdae, 0);
    assert_eq!(below.edge_count(), 0);
}

#[test]
fn random_graph_extremes_and_determinism() {
    let full = Graph::random_with_threshold(10, u64::MAX, 42);
    assert_eq!(full.edge_count(), 45);
    let a = Graph::random_with_threshold(20, u64::MAX / 3, 5);
    let b = Graph::random_with_threshold(20, u64::MAX / 3, 5);
    for v in 0..20 {
        assert_eq!(a.neighbors_mask(v), b.neighbors_mask(v));
    }
}

#[test]
fn validator_checks_length() {
    let graph = path(3);
    assert!(!validate_coloring(&graph, &[0, 1]));
    assert!(!validate_coloring(&graph, &[0, 1, 0, 1]));
    assert!(validate_coloring(&graph, &[0, 1, 0]));
    assert!(validate_coloring(&Graph::new(0), &[]));
}

#[test]
fn brute_force_counts_every_assignment_when_none_fits() {
    let result = brute_force_k_coloring(&Graph::complete(3), 2);
    assert!(!result.colorable);
    assert_eq!(result.colors, None);
    assert_eq!(result.complete_assignments, 8);
    assert_eq!(result.recursive_calls, 1 + 2 + 4 + 8);
}

#[test]
fn brute_force_returns_the_first_coloring_in_order() {
    let result = brute_force_k_coloring(&path(2), 2);
    assert_eq!(result.colors, Some(vec![0, 1]));
    assert_eq!(result.complete_assignments, 2);
    assert_eq!(result.recursive_calls, 4);

    let empty = brute_force_k_coloring(&Graph::new(3), 2);
    assert_eq!(empty.colors, Some(vec![0, 0, 0]));
    assert_eq!(empty.complete_assignments, 1);
    assert_eq!(empty.recursive_calls, 4);

    let triangle = brute_force_k_coloring(&Graph::complete(3), 3);
    assert_eq!(triangle.colors, Some(vec![0, 1, 2]));
    assert_eq!(triangle.complete_assignments, 1 + 5);
}

#[test]
fn dsatur_completes_at_most_once() {
    let colorable = dsatur_k_coloring(&Graph::complete(4), 4);
    assert!(colorable.colorable);
    assert_eq!(colorable.complete_assignments, 1);
    assert!(validate_coloring(&Graph::complete(4), colorable.colors.as_ref().unwrap()));
    let colors = colorable.colors.unwrap();
    assert!(colors.iter().all(|&c| c < 4));

    let not_colorable = dsatur_k_coloring(&Graph::complete(4), 3);
    assert_eq!(not_colorable.complete_assignments, 0);
    assert!(not_colorable.recursive_calls >= 1);
    assert_eq!(not_colorable.colors, None);
}

#[test]
fn dsatur_exact_search() {
    let k4 = dsatur_k_coloring(&Graph::complete(4), 3);
    assert!(!k4.colorable);
    assert_eq!(k4.recursive_calls, 16);
    assert_eq!(k4.complete_assignments, 0);

    let odd = dsatur_k_coloring(&Graph::cycle(5), 2);
    assert!(!odd.colorable);
    assert_eq!(odd.recursive_calls, 9);

    let even = dsatur_k_coloring(&Graph::cycle(6), 2);
    assert_eq!(even.colors, Some(vec![0, 1, 0, 1, 0, 1]));
    assert_eq!(even.recursive_calls, 7);
    assert_eq!(even.complete_assignments, 1);

    let three = dsatur_k_coloring(&Graph::cycle(5), 3);
    assert_eq!(three.colors, Some(vec![0, 1, 0, 1, 2]));
    assert_eq!(three.recursive_calls, 6);
}

#[test]
fn dsatur_handles_sixty_four_colors() {
    let graph = Graph::complete(MAX_VERTICES);
    let result = dsatur_k_coloring(&graph, 64);
    assert!(result.colorable);
    assert_eq!(result.recursive_calls, 65);
    assert!(validate_coloring(&graph, result.colors.as_ref().unwrap()));
}

#[test]
fn welsh_powell_on_a_path() {
    // Degrees 1, 2, 1: vertex 1 opens colour 0, vertex 0 opens colour 1 and
    // vertex 2 joins it.
    let result = welsh_powell_coloring(&path(3));
    assert_eq!(result.colors, vec![1, 0, 1]);
    assert_eq!(result.colors_used, 2);
}

#[test]
fn welsh_powell_on_small_graphs() {
    let complete = welsh_powell_coloring(&Graph::complete(4));
    assert_eq!(complete.colors, vec![0, 1, 2, 3]);
    assert_eq!(complete.colors_used, 4);

    let empty = welsh_powell_coloring(&Graph::new(3));
    assert_eq!(empty.colors, vec![0, 0, 0]);
    assert_eq!(empty.colors_used, 1);

    let none = welsh_powell_coloring(&Graph::new(0));
    assert_eq!(none.colors, Vec::<usize>::new());
    assert_eq!(none.colors_used, 0);

    let odd = welsh_powell_coloring(&Graph::cycle(5));
    assert_eq!(odd.colors, vec![0, 1, 0, 1, 2]);
    assert_eq!(odd.colors_used, 3);
}

#[test]
fn welsh_powell_count_is_enough_for_exact_search() {
    let graph = Graph::cycle(7);
    let greedy = welsh_powell_coloring(&graph);
    assert!(dsatur_k_coloring(&graph, greedy.colors_used).colorable);
    assert!(brute_force_k_coloring(&graph, greedy.colors_used).colorable);
}

#[test]
fn more_colors_still_suffice() {
    let graph = Graph::cycle(6);
    for k in 2..6 {
        assert!(dsatur_k_coloring(&graph, k).colorable);
    }
    assert!(!dsatur_k_coloring(&graph, 1).colorable);
}

#[test]
fn results_clone_equal() {
    let exact = dsatur_k_coloring(&Graph::cycle(6), 2);
    let copy = exact.clone();
    assert_eq!(copy, exact);
    assert_eq!(copy.duration, exact.duration);

    let greedy = welsh_powell_coloring(&Graph::cycle(6));
    let greedy_copy = greedy.clone();
    assert_eq!(greedy_copy.duration, greedy.duration);
    assert_eq!(greedy_copy, greedy);
}

#[test]
fn searches_stay_within_their_trees() {
    // 1 + 3 + 9 + 27 + 81 nodes for four vertices and three colours.
    let tree = 1 + 3 + 9 + 27 + 81;
    let graph = Graph::complete(4);
    let dsatur = dsatur_k_coloring(&graph, 3);
    let brute = brute_force_k_coloring(&graph, 3);
    assert!(dsatur.recursive_calls <= tree);
    assert_eq!(brute.recursive_calls, tree);
    assert_eq!(brute.complete_assignments, 81);
    assert!(dsatur.recursive_calls < brute.recursive_calls);
}

#[test]
fn one_color_per_vertex_always_suffices() {
    for n in 0..7 {
        let graph = Graph::complete(n);
        assert!(dsatur_k_coloring(&graph, n).colorable);
        assert!(brute_force_k_coloring(&graph, n).colorable);
        if n > 0 {
            assert!(!dsatur_k_coloring(&graph, n - 1).colorable);
        }
    }
}

#[test]
fn colors_used_is_largest_color_plus_one() {
    assert_eq!(colors_used_by(&None), None);
    assert_eq!(colors_used_by(&Some(vec![])), Some(0));
    assert_eq!(colors_used_by(&Some(vec![0, 2, 1])), Some(3));
    assert_eq!(colors_used_by(&Some(vec![4, 0, 0])), Some(5));
    let exact = dsatur_k_coloring(&Graph::cycle(5), 3);
    assert_eq!(colors_used_by(&exact.colors), Some(3));
}

#[test]
fn edge_count_is_half_the_degree_sum() {
    for seed in 0..5 {
        let graph = Graph::random_with_threshold(16, u64::MAX / 3, seed);
        let total: usize = (0..16).map(|v| graph.degree(v)).sum();
        assert_eq!(2 * graph.edge_count(), total);
    }
    let graph = Graph::complete(9);
    assert_eq!(graph.edge_count(), 36);
}

#[test]
fn largest_threshold_gives_the_complete_graph() {
    for n in [0usize, 1, 2, 7, 64] {
        let drawn = Graph::random_with_threshold(n, u64::MAX, 3);
        let complete = Graph::complete(n);
        assert_eq!(drawn.edge_count(), n * n.saturating_sub(1) / 2);
        for v in 0..n {
            assert_eq!(drawn.neighbors_mask(v), complete.neighbors_mask(v));
        }
    }
}
