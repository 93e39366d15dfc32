use plato_correlate::graph::{DependencyEdge, DependencyGraph};

fn edge(from: &str, to: &str, strength: f64, lag: usize) -> DependencyEdge {
    DependencyEdge {
        from: from.to_string(),
        to: to.to_string(),
        strength_bits: strength.to_bits(),
        lag,
    }
}

fn names(v: &[&str]) -> Vec<String> {
    v.iter().map(|s| s.to_string()).collect()
}

fn sample_graph() -> DependencyGraph {
    DependencyGraph {
        edges: vec![
            edge("a", "b", 0.9, 3),
            edge("b", "c", 0.8, 5),
            edge("a", "c", 0.7, 7),
            edge("c", "a", -0.6, 1),
            edge("b", "d", 0.95, 2),
        ],
        nodes: names(&["a", "b", "c", "d"]),
    }
}

#[test]
fn dependency_graph_propagation_delay() {
    let graph = DependencyGraph {
        edges: vec![
            DependencyEdge {
                from: "a".into(),
                to: "b".into(),
                strength_bits: 0.9f64.to_bits(),
                lag: 3,
            },
            DependencyEdge {
                from: "b".into(),
                to: "c".into(),
                strength_bits: 0.8f64.to_bits(),
                lag: 5,
            },
        ],
        nodes: vec!["a".into(), "b".into(), "c".into()],
    };
    // Direct edge a -> b should give delay of 3
    assert_eq!(graph.propagation_delay("a", "b"), Some(3));
    // a -> c goes along the chain a -> b -> c: 3 + 5
    assert_eq!(graph.propagation_delay("a", "c"), Some(8));
    let _ = graph;
}

#[test]
fn propagation_delay_takes_the_smallest_total_lag() {
    let g = sample_graph();
    // a -> b -> c totals 3 + 5 = 8, the direct edge a -> c 7.
    assert_eq!(g.propagation_delay("a", "c"), Some(7));
    // a -> b -> d totals 3 + 2.
    assert_eq!(g.propagation_delay("a", "d"), Some(5));
    // c -> a -> b totals 1 + 3.
    assert_eq!(g.propagation_delay("c", "b"), Some(4));
    // b -> c -> a totals 5 + 1.
    assert_eq!(g.propagation_delay("b", "a"), Some(6));
}

#[test]
fn propagation_delay_prefers_a_longer_chain_with_less_lag() {
    let g = DependencyGraph {
        edges: vec![
            edge("s", "t", 0.9, 10),
            edge("s", "u", 0.9, 1),
            edge("u", "v", 0.9, 1),
            edge("v", "t", 0.9, 1),
        ],
        nodes: names(&["s", "t", "u", "v"]),
    };
    assert_eq!(g.propagation_delay("s", "t"), Some(3));
}

#[test]
fn propagation_delay_saturates() {
    let g = DependencyGraph {
        edges: vec![edge("a", "b", 0.9, usize::MAX), edge("b", "c", 0.9, 5)],
        nodes: names(&["a", "b", "c"]),
    };
    assert_eq!(g.propagation_delay("a", "b"), Some(usize::MAX));
    assert_eq!(g.propagation_delay("a", "c"), Some(usize::MAX));
    assert_eq!(g.propagation_delay("b", "c"), Some(5));
}

#[test]
fn propagation_delay_without_a_path_is_none() {
    let g = sample_graph();
    assert_eq!(g.propagation_delay("d", "a"), None);
    assert_eq!(g.propagation_delay("a", "zzz"), None);
    assert_eq!(g.propagation_delay("zzz", "a"), None);
}

#[test]
fn propagation_delay_to_itself_is_none() {
    let g = sample_graph();
    assert_eq!(g.propagation_delay("a", "a"), None);
    assert_eq!(g.propagation_delay("d", "d"), None);
}

#[test]
fn propagation_delay_on_an_empty_graph_is_none() {
    let g = DependencyGraph { edges: vec![], nodes: vec![] };
    assert_eq!(g.propagation_delay("a", "b"), None);
}

#[test]
fn strongest_paths_follow_edges_depth_first() {
    let g = sample_graph();
    let paths = g.strongest_paths("a", 2);
    assert_eq!(
        paths,
        vec![
            names(&["a", "b", "c"]),
            names(&["a", "b", "d"]),
            names(&["a", "c", "a"]),
        ]
    );
}

#[test]
fn strongest_paths_stop_at_sinks() {
    let g = sample_graph();
    let paths = g.strongest_paths("b", 3);
    assert_eq!(
        paths,
        vec![
            names(&["b", "c", "a", "b"]),
            names(&["b", "c", "a", "c"]),
            names(&["b", "d"]),
        ]
    );
}

#[test]
fn strongest_paths_of_depth_zero_are_empty() {
    let g = sample_graph();
    assert!(g.strongest_paths("a", 0).is_empty());
}

#[test]
fn strongest_paths_from_a_sink_are_empty() {
    let g = sample_graph();
    assert!(g.strongest_paths("d", 3).is_empty());
    assert!(g.strongest_paths("unknown", 3).is_empty());
}

#[test]
fn strongest_paths_take_one_hop() {
    let g = sample_graph();
    assert_eq!(g.strongest_paths("c", 1), vec![names(&["c", "a"])]);
}

#[test]
fn strongest_paths_are_walks_within_depth() {
    let g = sample_graph();
    for depth in 1..5 {
        for start in ["a", "b", "c", "d"] {
            for p in g.strongest_paths(start, depth) {
                assert_eq!(p[0], start);
                assert!(p.len() >= 2 && p.len() <= depth + 1);
                for w in p.windows(2) {
                    assert!(g.edges.iter().any(|e| e.from == w[0] && e.to == w[1]));
                }
                let last = p.last().unwrap();
                assert!(p.len() == depth + 1 || !g.edges.iter().any(|e| &e.from == last));
            }
        }
    }
}

#[test]
fn parallel_edges_give_one_path_each() {
    let g = DependencyGraph {
        edges: vec![edge("x", "y", 0.5, 1), edge("x", "y", 0.6, 2)],
        nodes: names(&["x", "y"]),
    };
    assert_eq!(
        g.strongest_paths("x", 4),
        vec![names(&["x", "y"]), names(&["x", "y"])]
    );
    assert_eq!(g.propagation_delay("x", "y"), Some(1));
}
