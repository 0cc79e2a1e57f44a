use shortest_path_validation::core_algorithm::{CoreAlgorithm, PartialSortDS};
use shortest_path_validation::graph::{Graph, INFINITY};
use shortest_path_validation::params::compute_levels;
use shortest_path_validation::vertex_set::VertexSet;
use std::time::Instant;

/// Shortest distances by repeated relaxation of every edge.
fn reference_distances(graph: &Graph, source: usize) -> Vec<u64> {
    let mut dist = vec![INFINITY; graph.n];
    dist[source] = 0;
    for _ in 0..graph.n {
        let mut changed = false;
        for u in 0..graph.n {
            if dist[u] == INFINITY {
                continue;
            }
            for edge in &graph.edges[u] {
                let candidate = dist[u].saturating_add(edge.weight);
                if candidate < dist[edge.to] {
                    dist[edge.to] = candidate;
                    changed = true;
                }
            }
        }
        if !changed {
            break;
        }
    }
    dist
}

#[test]
fn test_parameter_calculation() {
    let test_cases = vec![(100, 1, 3), (1000, 2, 4), (10000, 2, 6)];

    for (n, expected_k, expected_t) in test_cases {
        let graph = Graph::new(n);
        let algo = CoreAlgorithm::new(graph);
        let (k, t) = algo.get_params();

        println!("n={}, k={}, t={} (expected: k≈{}, t≈{})", n, k, t, expected_k, expected_t);

        assert!(k >= expected_k - 1 && k <= expected_k + 1, "k={} not in expected range for n={}", k, n);
        assert!(t >= expected_t - 1 && t <= expected_t + 1, "t={} not in expected range for n={}", t, n);
    }
}

#[test]
fn test_partial_sort_ds() {
    let mut ds = PartialSortDS::new(100);

    ds.insert(1, 5);
    ds.insert(2, 3);
    ds.insert(3, 7);

    let (keys, bound) = ds.pull(2);
    assert_eq!(keys.len(), 2);
    assert_eq!(keys[0], 2);
    assert_eq!(keys[1], 1);
    assert!(bound.is_some());

    ds.batch_prepend(vec![(4, 1), (5, 2)]);

    let (keys, _) = ds.pull(3);
    assert_eq!(keys[0], 4);
    assert_eq!(keys[1], 5);
    assert_eq!(keys[2], 3);
}

#[test]
fn test_simple_path() {
    let mut graph = Graph::new(4);
    graph.add_edge(0, 1, 1);
    graph.add_edge(1, 2, 2);
    graph.add_edge(2, 3, 3);

    let algo = CoreAlgorithm::new(graph.clone());
    let dist = algo.sssp(0);

    assert_eq!(dist[0], 0);
    assert_eq!(dist[1], 1);
    assert_eq!(dist[2], 3);
    assert_eq!(dist[3], 6);

    let reference = reference_distances(&graph, 0);
    for i in 0..4 {
        assert!(
            dist[i] == reference[i],
            "Distance mismatch at vertex {}: {} vs {}",
            i,
            dist[i],
            reference[i]
        );
    }
}

#[test]
fn test_find_pivots_behavior() {
    let mut graph = Graph::new(10);

    for i in 2..8 {
        graph.add_edge(1, i, 1);
    }

    graph.add_edge(8, 9, 1);

    graph.add_edge(0, 1, 1);
    graph.add_edge(0, 8, 1);

    let mut algo = CoreAlgorithm::new(graph);
    algo.dist[0] = 0;
    algo.dist[1] = 1;
    algo.dist[8] = 1;

    let sources = VertexSet::from_vec(vec![1, 8]);
    let (pivots, _reachable) = algo.find_pivots(INFINITY, &sources);

    assert!(pivots.contains(1), "Vertex 1 should be a pivot (hub vertex)");

    println!("Pivots identified: {:?}", pivots);
}

#[test]
fn test_recursive_depth() {
    let sizes = vec![100, 1000, 10000];

    for n in sizes {
        let log_n = (n as f64).ln();
        let t = (log_n.powf(2.0 / 3.0)).floor() as usize;
        let l = ((log_n / t as f64).ceil() as usize).max(1);

        println!("n={}: recursion depth l={}, t={}", n, l, t);

        let expected_depth = (log_n.powf(1.0 / 3.0)).ceil() as usize;
        assert!(
            l <= expected_depth + 1,
            "Recursion depth l={} exceeds expected O(log^(1/3) n)={} for n={}",
            l,
            expected_depth,
            n
        );
        assert_eq!(compute_levels(n, t), l);
    }
}

#[test]
fn test_small_graph_correctness() {
    let test_sizes = vec![10, 20, 50];

    for n in test_sizes {
        let graph = Graph::generate_random(n, 300_000, 10);

        let algo = CoreAlgorithm::new(graph.clone());
        let core_dist = algo.sssp(0);
        let reference = reference_distances(&graph, 0);

        for i in 0..n {
            if reference[i] != INFINITY {
                assert!(
                    core_dist[i] == reference[i],
                    "Distance mismatch at vertex {} in graph size {}: {} vs {}",
                    i,
                    n,
                    core_dist[i],
                    reference[i]
                );
            }
        }

        println!("Graph size {} passed correctness test", n);
    }
}

#[test]
fn test_bounded_exploration() {
    let mut graph = Graph::new(10);
    for i in 0..9 {
        graph.add_edge(i, i + 1, 2);
    }

    let mut algo = CoreAlgorithm::new(graph);
    algo.dist[0] = 0;

    let bound = 5;
    algo.base_case(0, bound);

    assert_eq!(algo.dist[1], 2);
    assert_eq!(algo.dist[2], 4);

    assert!(
        algo.dist[3] > bound || algo.dist[3] == INFINITY,
        "Vertex 3 at distance 6 should not be updated with bound {}",
        bound
    );
}

#[test]
fn test_complexity_scaling() {
    let sizes = vec![100, 200, 400];
    let mut times = Vec::new();

    for n in &sizes {
        let graph = Graph::generate_random(*n, 100_000, 10);
        let m = graph.m();

        let start = Instant::now();
        let algo = CoreAlgorithm::new(graph);
        let _ = algo.sssp(0);
        let elapsed = start.elapsed().as_secs_f64();

        let log_2_3_n = (*n as f64).ln().powf(2.0 / 3.0);
        let normalized_time = elapsed / (m as f64 * log_2_3_n);

        times.push(normalized_time);
        println!("n={}, m={}, normalized_time={:.6}", n, m, normalized_time);
    }

    if times.len() >= 2 {
        let ratio = times[times.len() - 1] / times[0];
        assert!(ratio < 2.0, "Normalized times should be stable, but ratio is {:.2}", ratio);
    }
}
