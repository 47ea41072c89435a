use graph_coloring::{
    brute_force_k_coloring, dsatur_k_coloring, validate_coloring, welsh_powell_coloring, Graph,
};

/// A random graph whose pairs become edges with probability `density`.
fn random_graph(n: usize, density: f64, seed: u64) -> Graph {
    assert!((0.0..=1.0).contains(&density), "density must be in [0, 1]");
    let threshold = (density * u64::MAX as f64) as u64;
    Graph::random_with_threshold(n, threshold, seed)
}

#[test]
fn empty_graph_is_one_colorable() {
    let graph = Graph::new(5);
    let result = dsatur_k_coloring(&graph, 1);

    assert!(result.colorable);
    assert!(validate_coloring(&graph, result.colors.as_ref().unwrap()));
}

#[test]
fn even_cycle_is_two_colorable() {
    let graph = Graph::cycle(6);
    let result = dsatur_k_coloring(&graph, 2);

    assert!(result.colorable);
    assert!(validate_coloring(&graph, result.colors.as_ref().unwrap()));
}

#[test]
fn odd_cycle_is_not_two_colorable() {
    let graph = Graph::cycle(5);
    let result = dsatur_k_coloring(&graph, 2);

    assert!(!result.colorable);
}

#[test]
fn k4_is_not_three_colorable() {
    let graph = Graph::complete(4);
    let result = dsatur_k_coloring(&graph, 3);

    assert!(!result.colorable);
}

#[test]
fn brute_force_and_dsatur_agree_on_random_graphs() {
    for seed in 1..20 {
        let graph = random_graph(9, 0.35, seed);
        let brute = brute_force_k_coloring(&graph, 3);
        let dsatur = dsatur_k_coloring(&graph, 3);

        assert_eq!(brute.colorable, dsatur.colorable);
        if let Some(colors) = dsatur.colors {
            assert!(validate_coloring(&graph, &colors));
        }
    }
}

#[test]
fn validator_rejects_adjacent_equal_colors() {
    let graph = Graph::complete(3);
    assert!(!validate_coloring(&graph, &[0, 1, 1]));
    assert!(validate_coloring(&graph, &[0, 1, 2]));
}

#[test]
fn zero_colors_only_color_empty_graph() {
    let empty = Graph::new(0);
    assert!(brute_force_k_coloring(&empty, 0).colorable);
    assert!(dsatur_k_coloring(&empty, 0).colorable);

    let non_empty = Graph::new(1);
    assert!(!brute_force_k_coloring(&non_empty, 0).colorable);
    assert!(!dsatur_k_coloring(&non_empty, 0).colorable);
}

#[test]
fn welsh_powell_returns_valid_colorings() {
    for seed in 1..10 {
        let graph = random_graph(12, 0.30, seed);
        let result = welsh_powell_coloring(&graph);

        assert!(validate_coloring(&graph, &result.colors));
        assert!(result.colors_used <= graph.vertex_count());
    }
}
