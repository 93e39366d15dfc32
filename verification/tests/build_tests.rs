use plato_correlate::graph::DependencyGraph;
use plato_correlate::order::sorted_names;

fn names(v: &[&str]) -> Vec<String> {
    v.iter().map(|s| s.to_string()).collect()
}

// The correlation coefficients come from floating-point code outside the verified
// core; this test gives the graph builder the pair outcomes that the three series
// produce and checks the graph built from them.
#[test]
fn dependency_graph_construction() {
    // a and b are perfectly correlated, c is noise: only the pairs of a and b
    // correlate strongly enough.
    let series = names(&["a", "b", "c"]);
    let picks = vec![
        vec![None, Some((0, 1.0f64.to_bits())), None],
        vec![Some((0, 1.0f64.to_bits())), None, None],
        vec![None, None, None],
    ];
    let graph = DependencyGraph::from_selection(&series, &picks);
    assert!(graph.nodes.contains(&"a".to_string()));
    assert!(graph.nodes.contains(&"b".to_string()));
    // a and b are perfectly correlated, so edges should exist between them
    assert!(!graph.edges.is_empty());
}

// As above: the pair outcomes of three perfectly correlated series are given
// directly, and the paths are enumerated on the graph built from them.
#[test]
fn dependency_graph_strongest_paths() {
    // Three linear series: every ordered pair correlates perfectly.
    let series = names(&["a", "b", "c"]);
    let one = Some((0, 1.0f64.to_bits()));
    let picks = vec![
        vec![None, one, one],
        vec![one, None, one],
        vec![one, one, None],
    ];
    let graph = DependencyGraph::from_selection(&series, &picks);
    let paths = graph.strongest_paths("a", 2);
    // Should find paths starting from a
    assert!(!paths.is_empty() || graph.edges.is_empty());
}

#[test]
fn selection_builds_edges_row_by_row_and_sorts_nodes() {
    let series = names(&["b", "a", "c"]);
    let picks = vec![
        vec![None, Some((2, 0.5f64.to_bits())), None],
        vec![Some((0, (-0.75f64).to_bits())), Some((9, 1.0f64.to_bits())), Some((4, 0.25f64.to_bits()))],
        vec![None, None, None],
    ];
    let g = DependencyGraph::from_selection(&series, &picks);
    let got: Vec<(String, String, f64, usize)> = g
        .edges
        .iter()
        .map(|e| (e.from.clone(), e.to.clone(), f64::from_bits(e.strength_bits), e.lag))
        .collect();
    assert_eq!(
        got,
        vec![
            ("b".to_string(), "a".to_string(), 0.5, 2),
            ("a".to_string(), "b".to_string(), -0.75, 0),
            ("a".to_string(), "c".to_string(), 0.25, 4),
        ]
    );
    assert_eq!(g.nodes, names(&["a", "b", "c"]));
}

#[test]
fn selection_of_no_series_is_empty() {
    let g = DependencyGraph::from_selection(&vec![], &vec![]);
    assert!(g.edges.is_empty());
    assert!(g.nodes.is_empty());
}

#[test]
fn a_series_is_never_linked_to_itself() {
    let series = names(&["x", "y"]);
    let all = Some((1, 0.9f64.to_bits()));
    let g = DependencyGraph::from_selection(&series, &vec![vec![all, all], vec![all, all]]);
    assert_eq!(g.edges.len(), 2);
    for e in &g.edges {
        assert_ne!(e.from, e.to);
    }
}

#[test]
fn names_sort_by_their_bytes() {
    let sorted = sorted_names(&names(&["b", "B", "a", "\u{e4}", "ab", ""]));
    assert_eq!(sorted, names(&["", "B", "a", "ab", "b", "\u{e4}"]));
    let mut expected = names(&["b", "B", "a", "\u{e4}", "ab", ""]);
    expected.sort();
    assert_eq!(sorted, expected);
}

#[test]
fn sorting_keeps_duplicates() {
    let sorted = sorted_names(&names(&["z", "a", "z", "m"]));
    assert_eq!(sorted, names(&["a", "m", "z", "z"]));
}
