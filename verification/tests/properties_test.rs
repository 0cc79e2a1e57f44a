use shortest_path_validation::core_algorithm::{checked_sssp, CoreAlgorithm, SsspError};
use shortest_path_validation::graph::{keeps_edge, Edge, Graph, INFINITY};
use shortest_path_validation::heap::MinQueue;
use shortest_path_validation::improved_sssp::improved_sssp;
use shortest_path_validation::improved_sssp_v2::improved_sssp_v2;
use shortest_path_validation::params::{
    compute_k, compute_levels, compute_ln_ceil, compute_t, frontier_threshold, log2_ceil,
};
use shortest_path_validation::partial_sort::PartialSortDS;
use shortest_path_validation::recursion::halve;
use shortest_path_validation::vertex_set::VertexSet;

/// A small deterministic generator for test inputs.
fn next_draw(state: &mut u64) -> u64 {
    *state = state.wrapping_mul(6364136223846793005).wrapping_add(1442695040888963407);
    *state >> 33
}

/// A graph drawn from `seed`: about `percent` in a hundred of the ordered
/// pairs get an edge of weight below `max_weight`.
fn drawn_graph(n: usize, percent: u64, max_weight: u64, seed: u64) -> Graph {
    let mut state = seed;
    let mut graph = Graph::new(n);
    for u in 0..n {
        for v in 0..n {
            if u != v && next_draw(&mut state) % 100 < percent {
                graph.add_edge(u, v, next_draw(&mut state) % max_weight);
            }
        }
    }
    graph
}

/// Shortest distances by repeated relaxation of every edge.
fn relaxed_to_fixpoint(graph: &Graph, source: usize) -> Vec<u64> {
    let mut dist = vec![INFINITY; graph.n];
    dist[source] = 0;
    loop {
        let mut changed = false;
        for u in 0..graph.n {
            if dist[u] == INFINITY {
                continue;
            }
            for edge in &graph.edges[u] {
                let candidate = dist[u].saturating_add(edge.weight);
                if candidate < dist[edge.to] {
                    dist[edge.to] = candidate;
                    changed = true;
                }
            }
        }
        if !changed {
            return dist;
        }
    }
}

fn hub_graph() -> Graph {
    let mut graph = Graph::new(10);
    for i in 2..8 {
        graph.add_edge(1, i, 1);
    }
    graph.add_edge(8, 9, 1);
    graph.add_edge(0, 1, 1);
    graph.add_edge(0, 8, 1);
    graph
}

#[test]
fn graph_new_has_no_edges() {
    let graph = Graph::new(5);
    assert_eq!(graph.n, 5);
    assert_eq!(graph.edges.len(), 5);
    assert_eq!(graph.m(), 0);
    assert!(graph.is_valid());
}

#[test]
fn graph_add_edge_appends_in_order() {
    let mut graph = Graph::new(3);
    graph.add_edge(0, 2, 7);
    graph.add_edge(0, 1, 4);
    graph.add_edge(2, 0, 0);
    assert_eq!(graph.edges[0].len(), 2);
    assert_eq!(graph.edges[0][0].to, 2);
    assert_eq!(graph.edges[0][0].weight, 7);
    assert_eq!(graph.edges[0][1].to, 1);
    assert_eq!(graph.edges[0][1].weight, 4);
    assert_eq!(graph.edges[1].len(), 0);
    assert_eq!(graph.m(), 3);
}

#[test]
fn graph_is_valid_rejects_edge_out_of_range() {
    let mut graph = Graph::new(2);
    graph.add_edge(0, 5, 1);
    assert!(!graph.is_valid());
}

#[test]
fn graph_is_valid_rejects_wrong_vertex_count() {
    let graph = Graph { n: 3, edges: vec![vec![], vec![]] };
    assert!(!graph.is_valid());
}

#[test]
fn keeps_edge_compares_the_draw_with_the_density() {
    assert!(keeps_edge(0, 1, 0, 1));
    assert!(!keeps_edge(0, 1, 0, 0));
    assert!(keeps_edge(3, 2, 299_999, 300_000));
    assert!(!keeps_edge(3, 2, 300_000, 300_000));
    assert!(keeps_edge(3, 2, 999_999, 1_000_000));
    assert!(keeps_edge(3, 2, 999_999, u32::MAX));
    assert!(!keeps_edge(2, 2, 0, 1_000_000));
}

#[test]
fn generate_random_full_density_gives_complete_graph() {
    let graph = Graph::generate_random(6, 1_000_000, 7);
    assert!(graph.is_valid());
    assert_eq!(graph.m(), 30);
    for u in 0..6 {
        let targets: Vec<usize> = graph.edges[u].iter().map(|e| e.to).collect();
        let expected: Vec<usize> = (0..6).filter(|v| *v != u).collect();
        assert_eq!(targets, expected);
        for edge in &graph.edges[u] {
            assert!(edge.weight < 7);
        }
    }
}

#[test]
fn generate_random_zero_density_gives_no_edges() {
    let graph = Graph::generate_random(8, 0, 10);
    assert_eq!(graph.n, 8);
    assert_eq!(graph.m(), 0);
}

#[test]
fn generate_random_zero_max_weight_gives_zero_weights() {
    let graph = Graph::generate_random(5, 1_000_000, 0);
    assert_eq!(graph.m(), 20);
    for u in 0..5 {
        for edge in &graph.edges[u] {
            assert_eq!(edge.weight, 0);
        }
    }
}

#[test]
fn generate_random_respects_its_limits() {
    let graph = Graph::generate_random(30, 500_000, 3);
    assert!(graph.is_valid());
    for u in 0..30 {
        let list = &graph.edges[u];
        for i in 0..list.len() {
            assert!(list[i].to != u);
            assert!(list[i].weight < 3);
            if i > 0 {
                assert!(list[i - 1].to < list[i].to);
            }
        }
    }
}

#[test]
fn sssp_marks_unreachable_vertices() {
    let mut graph = Graph::new(4);
    graph.add_edge(0, 1, 3);
    graph.add_edge(2, 3, 1);
    let dist = CoreAlgorithm::new(graph).sssp(0);
    assert_eq!(dist, vec![0, 3, INFINITY, INFINITY]);
}

#[test]
fn sssp_on_single_vertex() {
    let dist = CoreAlgorithm::new(Graph::new(1)).sssp(0);
    assert_eq!(dist, vec![0]);
}

#[test]
fn sssp_takes_the_shorter_of_two_routes() {
    let mut graph = Graph::new(4);
    graph.add_edge(0, 1, 10);
    graph.add_edge(0, 2, 1);
    graph.add_edge(2, 1, 2);
    graph.add_edge(1, 3, 0);
    graph.add_edge(3, 0, 5);
    let dist = CoreAlgorithm::new(graph).sssp(0);
    assert_eq!(dist, vec![0, 3, 1, 3]);
}

#[test]
fn sssp_ignores_preset_estimates() {
    let mut graph = Graph::new(3);
    graph.add_edge(0, 1, 4);
    graph.add_edge(1, 2, 4);
    let mut algo = CoreAlgorithm::new(graph);
    algo.dist[1] = 1;
    algo.dist[2] = 2;
    assert_eq!(algo.sssp(0), vec![0, 4, 8]);
}

#[test]
fn sssp_saturates_paths_that_do_not_fit() {
    let mut graph = Graph::new(3);
    graph.add_edge(0, 1, u64::MAX - 1);
    graph.add_edge(1, 2, 5);
    let dist = CoreAlgorithm::new(graph).sssp(0);
    assert_eq!(dist, vec![0, u64::MAX - 1, INFINITY]);
}

#[test]
fn sssp_agrees_with_fixpoint_on_drawn_graphs() {
    for seed in 1..40u64 {
        let n = 2 + (seed as usize * 7) % 40;
        let graph = drawn_graph(n, 5 + seed % 30, 1 + seed % 50, seed);
        let source = (seed as usize) % n;
        let expected = relaxed_to_fixpoint(&graph, source);
        assert_eq!(CoreAlgorithm::new(graph.clone()).sssp(source), expected);
        assert_eq!(improved_sssp(&graph, source), expected);
        assert_eq!(improved_sssp_v2(&graph, source), expected);
    }
}

#[test]
fn improved_sssp_on_linear_chain() {
    let mut graph = Graph::new(4);
    graph.add_edge(0, 1, 1);
    graph.add_edge(1, 2, 2);
    graph.add_edge(2, 3, 3);
    assert_eq!(improved_sssp(&graph, 0), vec![0, 1, 3, 6]);
    assert_eq!(improved_sssp_v2(&graph, 0), vec![0, 1, 3, 6]);
    assert_eq!(improved_sssp(&graph, 2), vec![INFINITY, INFINITY, 0, 3]);
    assert_eq!(improved_sssp_v2(&graph, 2), vec![INFINITY, INFINITY, 0, 3]);
}

#[test]
fn checked_sssp_accepts_a_valid_query() {
    let mut graph = Graph::new(3);
    graph.add_edge(0, 1, 2);
    graph.add_edge(1, 2, 2);
    assert_eq!(checked_sssp(graph, 0), Ok(vec![0, 2, 4]));
}

#[test]
fn checked_sssp_rejects_invalid_graph() {
    let graph = Graph { n: 2, edges: vec![vec![Edge { to: 5, weight: 1 }], vec![]] };
    assert_eq!(checked_sssp(graph, 0), Err(SsspError::InvalidGraph));
    let graph = Graph { n: 3, edges: vec![] };
    assert_eq!(checked_sssp(graph, 0), Err(SsspError::InvalidGraph));
}

#[test]
fn checked_sssp_rejects_invalid_source() {
    assert_eq!(checked_sssp(Graph::new(4), 4), Err(SsspError::InvalidSource));
    assert_eq!(checked_sssp(Graph::new(0), 0), Err(SsspError::InvalidSource));
}

#[test]
fn base_case_bound_is_exclusive() {
    let mut graph = Graph::new(4);
    for i in 0..3 {
        graph.add_edge(i, i + 1, 2);
    }
    let mut algo = CoreAlgorithm::new(graph);
    algo.dist[0] = 0;
    algo.base_case(0, 4);
    assert_eq!(algo.dist, vec![0, 2, INFINITY, INFINITY]);
}

#[test]
fn base_case_does_nothing_from_a_source_at_the_bound() {
    let mut graph = Graph::new(3);
    graph.add_edge(0, 1, 0);
    graph.add_edge(1, 2, 0);
    let mut algo = CoreAlgorithm::new(graph);
    algo.dist[0] = 5;
    algo.base_case(0, 5);
    assert_eq!(algo.dist, vec![5, INFINITY, INFINITY]);
}

#[test]
fn base_case_starts_from_the_estimate_of_its_source() {
    let mut graph = Graph::new(3);
    graph.add_edge(0, 1, 2);
    graph.add_edge(1, 2, 2);
    let mut algo = CoreAlgorithm::new(graph);
    algo.dist[0] = 10;
    algo.base_case(0, 14);
    assert_eq!(algo.dist, vec![10, 12, INFINITY]);
}

#[test]
fn base_case_does_not_pass_a_vertex_it_cannot_lower() {
    let mut graph = Graph::new(3);
    graph.add_edge(0, 1, 1);
    graph.add_edge(1, 2, 1);
    let mut algo = CoreAlgorithm::new(graph);
    algo.dist[0] = 0;
    algo.dist[1] = 1;
    algo.base_case(0, INFINITY);
    assert_eq!(algo.dist, vec![0, 1, INFINITY]);
}

#[test]
fn base_case_never_raises_and_stays_below_bound() {
    for seed in 1..30u64 {
        let n = 3 + (seed as usize * 5) % 25;
        let graph = drawn_graph(n, 20, 9, seed);
        let mut algo = CoreAlgorithm::new(graph);
        let mut state = seed ^ 0x5555;
        for v in 0..n {
            if next_draw(&mut state) % 3 == 0 {
                algo.dist[v] = next_draw(&mut state) % 40;
            }
        }
        let source = (seed as usize) % n;
        algo.dist[source] = next_draw(&mut state) % 10;
        let bound = 5 + next_draw(&mut state) % 30;
        let before = algo.dist.clone();
        algo.base_case(source, bound);
        for v in 0..n {
            assert!(algo.dist[v] <= before[v]);
            if algo.dist[v] != before[v] {
                assert!(algo.dist[v] < bound);
            }
        }
    }
}

#[test]
fn find_pivots_on_hub_graph_is_determined() {
    let mut algo = CoreAlgorithm::new(hub_graph());
    assert_eq!(algo.get_params(), (2, 2));
    algo.dist[0] = 0;
    algo.dist[1] = 1;
    algo.dist[8] = 1;
    let sources = VertexSet::from_vec(vec![8, 1]);
    let (pivots, reachable) = algo.find_pivots(INFINITY, &sources);
    assert_eq!(pivots.to_vec(), vec![1]);
    assert_eq!(reachable, vec![2, 3, 4, 5, 6, 7, 9]);
    assert_eq!(algo.dist, vec![0, 1, 2, 2, 2, 2, 2, 2, 1, 2]);
}

#[test]
fn find_pivots_keeps_the_smallest_ids_up_to_the_cap() {
    let mut graph = Graph::new(12);
    for s in 0..4 {
        graph.add_edge(s, 4 + 2 * s, 1);
        graph.add_edge(s, 5 + 2 * s, 1);
    }
    let mut algo = CoreAlgorithm::new(graph);
    assert_eq!(algo.k, 2);
    for s in 0..4 {
        algo.dist[s] = 0;
    }
    let sources = VertexSet::from_vec(vec![3, 2, 1, 0]);
    let (pivots, reachable) = algo.find_pivots(INFINITY, &sources);
    assert_eq!(pivots.to_vec(), vec![0, 1]);
    assert_eq!(reachable, vec![4, 5, 6, 7, 8, 9, 10, 11]);
}

#[test]
fn find_pivots_returns_at_least_room_for_one() {
    let mut graph = Graph::new(5);
    graph.add_edge(0, 1, 1);
    graph.add_edge(0, 2, 1);
    graph.add_edge(0, 3, 1);
    let mut algo = CoreAlgorithm::new(graph);
    algo.k = 3;
    algo.dist[0] = 0;
    let sources = VertexSet::from_vec(vec![0]);
    let (pivots, _) = algo.find_pivots(INFINITY, &sources);
    assert_eq!(pivots.to_vec(), vec![0]);
}

#[test]
fn find_pivots_with_no_source_below_bound_is_empty() {
    let mut algo = CoreAlgorithm::new(hub_graph());
    algo.dist[1] = 5;
    algo.dist[8] = 7;
    let sources = VertexSet::from_vec(vec![1, 8]);
    let before = algo.dist.clone();
    let (pivots, reachable) = algo.find_pivots(5, &sources);
    assert!(pivots.is_empty());
    assert!(reachable.is_empty());
    assert_eq!(algo.dist, before);
}

#[test]
fn find_pivots_respects_cap_and_never_raises() {
    for seed in 1..30u64 {
        let n = 4 + (seed as usize * 3) % 30;
        let graph = drawn_graph(n, 25, 6, seed);
        let mut algo = CoreAlgorithm::new(graph);
        let mut state = seed ^ 0xabcdef;
        let mut members = Vec::new();
        for v in 0..n {
            if next_draw(&mut state) % 2 == 0 {
                members.push(v);
                algo.dist[v] = next_draw(&mut state) % 20;
            }
        }
        let sources = VertexSet::from_vec(members);
        let before = algo.dist.clone();
        let bound = 10 + next_draw(&mut state) % 20;
        let (pivots, reachable) = algo.find_pivots(bound, &sources);
        let cap = std::cmp::max(1, sources.len() / algo.k);
        assert!(pivots.len() <= cap);
        for p in pivots.to_vec() {
            assert!(sources.contains(p));
        }
        for v in 0..n {
            assert!(algo.dist[v] <= before[v]);
        }
        for v in reachable {
            assert!(v < n);
            assert!(!sources.contains(v) || before[v] >= bound);
        }
    }
}

#[test]
fn bmssp_with_one_source_explores_from_it() {
    let mut graph = Graph::new(6);
    for i in 0..5 {
        graph.add_edge(i, i + 1, 1);
    }
    let mut algo = CoreAlgorithm::new(graph);
    algo.dist[0] = 0;
    let depth = algo.bmssp(3, INFINITY, &VertexSet::from_vec(vec![0]));
    assert_eq!(depth, 0);
    assert_eq!(algo.dist, vec![0, 1, 2, 3, 4, 5]);
}

#[test]
fn bmssp_without_pivots_stops_after_the_search() {
    let mut graph = Graph::new(6);
    for i in 0..5 {
        graph.add_edge(i, i + 1, 1);
    }
    let mut algo = CoreAlgorithm::new(graph);
    assert_eq!(algo.k, 2);
    algo.dist[0] = 0;
    algo.dist[3] = 0;
    let depth = algo.bmssp(2, INFINITY, &VertexSet::from_vec(vec![0, 3]));
    assert_eq!(depth, 0);
    assert_eq!(algo.dist, vec![0, 1, 2, 0, 1, 2]);
}

#[test]
fn bmssp_recurses_on_pivots_and_on_the_rest() {
    let mut algo = CoreAlgorithm::new(hub_graph());
    algo.dist[0] = 0;
    algo.dist[1] = 1;
    algo.dist[8] = 1;
    let depth = algo.bmssp(1, INFINITY, &VertexSet::from_vec(vec![1, 8]));
    assert_eq!(depth, 1);
    assert_eq!(algo.dist, vec![0, 1, 2, 2, 2, 2, 2, 2, 1, 2]);
}

#[test]
fn bmssp_on_empty_frontier_does_nothing() {
    let mut algo = CoreAlgorithm::new(hub_graph());
    algo.dist[0] = 0;
    let before = algo.dist.clone();
    assert_eq!(algo.bmssp(4, INFINITY, &VertexSet::new()), 0);
    assert_eq!(algo.dist, before);
}

#[test]
fn bmssp_depth_stays_within_level() {
    for seed in 1..30u64 {
        let n = 4 + (seed as usize * 3) % 30;
        let graph = drawn_graph(n, 30, 6, seed);
        let mut algo = CoreAlgorithm::new(graph);
        let mut state = seed ^ 0x1234;
        let mut members = Vec::new();
        for v in 0..n {
            if next_draw(&mut state) % 2 == 0 {
                members.push(v);
                algo.dist[v] = next_draw(&mut state) % 5;
            }
        }
        let before = algo.dist.clone();
        let level = (seed % 4) as usize;
        let depth = algo.bmssp(level, 50, &VertexSet::from_vec(members));
        assert!(depth <= level);
        for v in 0..n {
            assert!(algo.dist[v] <= before[v]);
        }
    }
}

#[test]
fn halve_rounds_up_and_keeps_infinity() {
    assert_eq!(halve(0), 0);
    assert_eq!(halve(1), 1);
    assert_eq!(halve(4), 2);
    assert_eq!(halve(5), 3);
    assert_eq!(halve(u64::MAX - 1), 9223372036854775807);
    assert_eq!(halve(INFINITY), INFINITY);
}

#[test]
fn ln_ceil_at_its_thresholds() {
    assert_eq!(compute_ln_ceil(0), 0);
    assert_eq!(compute_ln_ceil(1), 0);
    assert_eq!(compute_ln_ceil(2), 1);
    assert_eq!(compute_ln_ceil(3), 2);
    assert_eq!(compute_ln_ceil(7), 2);
    assert_eq!(compute_ln_ceil(8), 3);
    assert_eq!(compute_ln_ceil(20), 3);
    assert_eq!(compute_ln_ceil(21), 4);
    assert_eq!(compute_ln_ceil(2980), 8);
    assert_eq!(compute_ln_ceil(2981), 9);
}

#[test]
fn params_at_their_thresholds() {
    assert_eq!(compute_k(0), 1);
    assert_eq!(compute_k(2), 1);
    assert_eq!(compute_k(3), 2);
    assert_eq!(compute_k(2980), 2);
    assert_eq!(compute_k(2981), 3);
    assert_eq!(compute_t(0), 1);
    assert_eq!(compute_t(2), 1);
    assert_eq!(compute_t(3), 2);
    assert_eq!(compute_t(16), 2);
    assert_eq!(compute_t(17), 3);
    assert_eq!(compute_t(180), 3);
    assert_eq!(compute_t(181), 4);
    assert_eq!(compute_t(2980), 4);
    assert_eq!(compute_t(2981), 5);
    assert_eq!(compute_levels(0, 1), 1);
    assert_eq!(compute_levels(1, 1), 1);
    assert_eq!(compute_levels(100, 3), 2);
    assert_eq!(compute_levels(100, 5), 1);
    assert_eq!(compute_levels(100, 1), 5);
    assert_eq!(CoreAlgorithm::new(Graph::new(100)).get_params(), (2, 3));
}

#[test]
fn params_agree_with_the_real_formulas() {
    for n in 1..6000usize {
        let log_n = (n as f64).ln().max(1.0);
        let k = ((log_n.powf(1.0 / 3.0)).ceil() as usize).max(1);
        let t = ((log_n.powf(2.0 / 3.0)).ceil() as usize).max(1);
        let l = (((n as f64).ln() / t as f64).ceil() as usize).max(1);
        assert_eq!(compute_k(n), k, "k for n={}", n);
        assert_eq!(compute_t(n), t, "t for n={}", n);
        assert_eq!(compute_levels(n, t), l, "levels for n={}", n);
        assert!(compute_levels(n, t) <= compute_k(n));
    }
}

#[test]
fn thresholds_are_the_integer_parts_of_powers_of_e() {
    for m in 1..=25usize {
        let at = (m as f64).exp().floor() as usize;
        assert_eq!(compute_ln_ceil(at), m, "ln_ceil at floor(e^{})", m);
        assert_eq!(compute_ln_ceil(at + 1), m + 1, "ln_ceil above floor(e^{})", m);
    }
    for t in 1..=9usize {
        let at = (t as f64).powf(1.5).exp().floor() as usize;
        assert_eq!(compute_t(at), t, "t at floor(e^({}^1.5))", t);
        assert_eq!(compute_t(at + 1), t + 1, "t above floor(e^({}^1.5))", t);
    }
    for k in 1..=3usize {
        let at = ((k * k * k) as f64).exp().floor() as usize;
        assert_eq!(compute_k(at), k, "k at floor(e^({}^3))", k);
        assert_eq!(compute_k(at + 1), k + 1, "k above floor(e^({}^3))", k);
    }
    assert_eq!(compute_ln_ceil(usize::MAX), 45);
    assert_eq!(compute_k(usize::MAX), 4);
    assert_eq!(compute_t(usize::MAX), 13);
}

#[test]
fn frontier_threshold_and_log2() {
    assert_eq!(frontier_threshold(0), 0);
    assert_eq!(frontier_threshold(1), 1);
    assert_eq!(frontier_threshold(2), 2);
    assert_eq!(frontier_threshold(8), 4);
    assert_eq!(frontier_threshold(9), 5);
    assert_eq!(frontier_threshold(1000), 100);
    assert_eq!(log2_ceil(0), 0);
    assert_eq!(log2_ceil(1), 0);
    assert_eq!(log2_ceil(2), 1);
    assert_eq!(log2_ceil(3), 2);
    assert_eq!(log2_ceil(5), 3);
    assert_eq!(log2_ceil(1024), 10);
    assert_eq!(log2_ceil(1025), 11);
}

#[test]
fn partial_sort_target_size_is_the_cube_root_rounded_up() {
    assert_eq!(PartialSortDS::new(0).target_size(), 1);
    assert_eq!(PartialSortDS::new(1).target_size(), 1);
    assert_eq!(PartialSortDS::new(8).target_size(), 2);
    assert_eq!(PartialSortDS::new(9).target_size(), 3);
    assert_eq!(PartialSortDS::new(27).target_size(), 3);
    assert_eq!(PartialSortDS::new(28).target_size(), 4);
    assert_eq!(PartialSortDS::new(100).target_size(), 5);
    assert_eq!(PartialSortDS::new(100).block_count(), 1);
}

#[test]
fn partial_sort_splits_a_block_above_twice_the_target() {
    let mut ds = PartialSortDS::new(8);
    ds.insert(1, 10);
    ds.insert(2, 20);
    ds.insert(3, 30);
    ds.insert(4, 40);
    assert_eq!(ds.block_count(), 1);
    ds.insert(5, 50);
    assert_eq!(ds.block_count(), 2);
    let (keys, boundary) = ds.pull(3);
    assert_eq!(keys, vec![1, 2, 3]);
    assert_eq!(boundary, Some(30));
    assert_eq!(ds.block_count(), 1);
    assert_eq!(ds.pull(3), (vec![4, 5], Some(50)));
}

#[test]
fn partial_sort_three_inserts_at_target_one_leave_smallest_first() {
    let mut ds = PartialSortDS::new(1);
    ds.insert(1, 5);
    ds.insert(2, 3);
    assert_eq!(ds.block_count(), 1);
    ds.insert(3, 1);
    assert_eq!(ds.block_count(), 2);
    assert_eq!(ds.pull(3), (vec![3, 2, 1], Some(5)));
}

#[test]
fn partial_sort_pulls_sorted_inserts_in_order() {
    let mut ds = PartialSortDS::new(27);
    for i in 0..20u64 {
        ds.insert(i as usize, 3 * i);
    }
    let mut last = 0;
    for i in 0..20 {
        let (keys, boundary) = ds.pull(1);
        assert_eq!(keys, vec![i]);
        let value = boundary.unwrap();
        assert!(last <= value);
        last = value;
    }
    assert_eq!(ds.pull(1), (vec![], None));
}

#[test]
fn partial_sort_insert_below_an_earlier_block_breaks_the_order() {
    let mut ds = PartialSortDS::new(1);
    ds.insert(1, 5);
    ds.insert(2, 7);
    ds.insert(3, 6);
    ds.insert(4, 1);
    assert_eq!(ds.pull(1), (vec![1], Some(5)));
    assert_eq!(ds.pull(1), (vec![4], Some(1)));
    assert_eq!(ds.pull(1), (vec![3], Some(6)));
    assert_eq!(ds.pull(1), (vec![2], Some(7)));
}

#[test]
fn partial_sort_keeps_equal_values_in_arrival_order() {
    let mut ds = PartialSortDS::new(1000);
    ds.insert(1, 5);
    ds.insert(2, 5);
    ds.insert(3, 4);
    ds.insert(4, 5);
    assert_eq!(ds.pull(4), (vec![3, 1, 2, 4], Some(5)));
}

#[test]
fn partial_sort_batch_prepend_sorts_stably_and_leaves_first() {
    let mut ds = PartialSortDS::new(100);
    ds.insert(9, 6);
    ds.batch_prepend(vec![(1, 5), (2, 3), (3, 5), (4, 3)]);
    assert_eq!(ds.block_count(), 2);
    assert_eq!(ds.pull(5), (vec![2, 4, 1, 3, 9], Some(6)));
    assert_eq!(ds.block_count(), 0);
}

#[test]
fn partial_sort_pull_takes_what_there_is() {
    let mut ds = PartialSortDS::new(100);
    ds.insert(7, 2);
    ds.insert(8, 1);
    assert_eq!(ds.pull(5), (vec![8, 7], Some(2)));
    assert_eq!(ds.pull(5), (vec![], None));
}

#[test]
fn partial_sort_insert_starts_a_block_where_none_is_left() {
    let mut ds = PartialSortDS::new(100);
    assert_eq!(ds.pull(0), (vec![], None));
    assert_eq!(ds.block_count(), 0);
    ds.insert(1, 1);
    assert_eq!(ds.block_count(), 1);
    assert_eq!(ds.pull(1), (vec![1], Some(1)));
    assert_eq!(ds.block_count(), 0);
    ds.batch_prepend(vec![(2, 2)]);
    ds.insert(3, 3);
    assert_eq!(ds.pull(2), (vec![2, 3], Some(3)));
}

#[test]
fn partial_sort_insert_after_a_draining_pull_is_kept() {
    let mut ds = PartialSortDS::new(100);
    ds.insert(1, 5);
    assert_eq!(ds.pull(1), (vec![1], Some(5)));
    ds.insert(2, 3);
    assert_eq!(ds.pull(1), (vec![2], Some(3)));
}

#[test]
fn partial_sort_keeps_every_pair_through_any_interleaving() {
    let mut ds = PartialSortDS::new(8);
    let mut state = 77u64;
    let mut held: Vec<(usize, u64)> = Vec::new();
    let mut next_key = 0usize;
    for step in 0..400 {
        match next_draw(&mut state) % 4 {
            0 | 1 => {
                let value = next_draw(&mut state) % 20;
                ds.insert(next_key, value);
                held.push((next_key, value));
                next_key += 1;
            }
            2 => {
                let mut batch = Vec::new();
                for _ in 0..(next_draw(&mut state) % 4) {
                    let value = next_draw(&mut state) % 20;
                    batch.push((next_key, value));
                    held.push((next_key, value));
                    next_key += 1;
                }
                ds.batch_prepend(batch);
            }
            _ => {
                let count = (next_draw(&mut state) % 5) as usize;
                let (keys, boundary) = ds.pull(count);
                assert_eq!(keys.len(), count.min(held.len()), "step {}", step);
                for key in &keys {
                    let at = held.iter().position(|e| e.0 == *key).expect("pulled key was held");
                    let entry = held.remove(at);
                    if Some(key) == keys.last() {
                        assert_eq!(boundary, Some(entry.1));
                    }
                }
                if keys.is_empty() {
                    assert_eq!(boundary, None);
                }
            }
        }
    }
    let (keys, _) = ds.pull(held.len() + 1);
    let mut rest: Vec<usize> = held.iter().map(|e| e.0).collect();
    let mut got = keys.clone();
    rest.sort();
    got.sort();
    assert_eq!(got, rest);
}

#[test]
fn min_queue_hands_out_smallest_first() {
    let mut queue = MinQueue::new();
    assert!(queue.is_empty());
    assert_eq!(queue.pop(), None);
    let keys = [5u64, 3, 8, 3, 1, 9, 0, 7, 7, 2];
    for (i, key) in keys.iter().enumerate() {
        queue.push(*key, i);
    }
    assert_eq!(queue.len(), 10);
    let mut out = Vec::new();
    while let Some((key, vertex)) = queue.pop() {
        assert_eq!(keys[vertex], key);
        out.push(key);
    }
    assert_eq!(out, vec![0, 1, 2, 3, 3, 5, 7, 7, 8, 9]);
}

#[test]
fn vertex_set_keeps_members_once_and_in_order() {
    let mut set = VertexSet::from_vec(vec![5, 1, 3, 1, 5]);
    assert_eq!(set.to_vec(), vec![1, 3, 5]);
    assert_eq!(set.len(), 3);
    assert!(set.contains(3));
    assert!(!set.contains(4));
    assert!(set.insert(4));
    assert!(!set.insert(4));
    assert!(set.insert(0));
    assert!(set.insert(9));
    assert_eq!(set.to_vec(), vec![0, 1, 3, 4, 5, 9]);
    assert_eq!(set.get(2), 3);
    assert!(VertexSet::new().is_empty());
}
