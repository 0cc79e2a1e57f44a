//! Shortest paths by smallest-estimate-first relaxation, with stale queue
//! entries skipped when they surface.

use crate::graph::{Graph, INFINITY};
use crate::heap::MinQueue;
use crate::relaxation::{
    edge_relaxed, exploring, fresh_table, is_saturated_distance, lemma_explore_done, lemma_explore_next,
    lemma_explore_pop, lemma_explore_relax, lemma_explore_start, lemma_fresh_relaxation_is_shortest,
    settled_upto,
};
use vstd::multiset::Multiset;
use vstd::prelude::*;

verus! {

/// The shortest distance from `source` to every vertex, `INFINITY` where
/// no path shorter than that exists.
pub fn improved_sssp(graph: &Graph, source: usize) -> (dist: Vec<u64>)
    requires
        graph.wf(),
        source < graph.n,
    ensures
        dist@.len() == graph.n,
        forall|v: int|
            0 <= v < dist@.len() ==> is_saturated_distance(graph@, source as int, v, #[trigger] dist@[v]),
{
    let n = graph.n;
    let ghost adj = graph@;
    let ghost before = fresh_table(n as nat, source as int);
    let mut dist: Vec<u64> = Vec::new();
    let mut i: usize = 0;
    while i < n
        invariant
            i <= n,
            dist@ == Seq::new(i as nat, |v: int| INFINITY),
        decreases n - i,
    {
        dist.push(INFINITY);
        proof {
            assert(dist@ =~= Seq::new((i + 1) as nat, |v: int| INFINITY));
        }
        i += 1;
    }
    let mut heap = MinQueue::new();
    dist[source] = 0;
    heap.push(0, source);
    let ghost mut last: int = 0;
    let ghost mut done: Set<usize> = Set::empty();
    let ghost mut pending: Set<int> = vstd::set_lib::set_int_range(0, n as int);
    proof {
        assert(dist@ =~= before);
        lemma_explore_start(adj, before, source, u64::MAX, heap@);
        vstd::set_lib::lemma_int_range(0, n as int);
    }
    loop
        invariant_except_break
            exploring(adj, before, source, u64::MAX, dist@, heap@, done, last, -1, 0),
        invariant
            heap.wf(),
            graph.wf(),
            adj == graph@,
            n == graph.n,
            pending.finite(),
            forall|v: usize| v < n && !done.contains(v) ==> #[trigger] pending.contains(v as int),
        ensures
            exploring(adj, before, source, u64::MAX, dist@, Multiset::empty(), done, last, -1, 0),
        decreases pending.len(), heap@.len(),
    {
        let ghost queue_before = heap@;
        let popped = heap.pop();
        match popped {
            None => {
                proof {
                    assert(heap@ =~= Multiset::<(u64, usize)>::empty()) by {
                        broadcast use vstd::multiset::group_multiset_axioms;

                        assert forall|x: (u64, usize)| heap@.count(x) == 0 by {
                            if heap@.count(x) > 0 {
                                vstd::multiset::lemma_multiset_empty_len(heap@);
                            }
                        }
                    }
                }
                break ;
            },
            Some((d, u)) => {
                let ghost again = done.contains(u);
                proof {
                    lemma_explore_pop(adj, before, source, u64::MAX, dist@, queue_before, done, last, (d, u));
                    last = d as int;
                    broadcast use vstd::multiset::group_multiset_axioms;

                }
                if d > dist[u] {
                    continue ;
                }
                proof {
                    if !again {
                        assert(pending.contains(u as int));
                        pending = pending.remove(u as int);
                        done = done.insert(u);
                    }
                }
                let ghost queue_after = heap@;
                let degree = graph.edges[u].len();
                let mut i: usize = 0;
                while i < degree
                    invariant
                        heap.wf(),
                        graph.wf(),
                        adj == graph@,
                        n == graph.n,
                        u < n,
                        i <= degree,
                        degree == adj[u as int].len(),
                        done.contains(u),
                        last == dist@[u as int],
                        again ==> heap@ == queue_after && exploring(
                            adj,
                            before,
                            source,
                            u64::MAX,
                            dist@,
                            heap@,
                            done,
                            last,
                            -1,
                            0,
                        ),
                        !again ==> exploring(
                            adj,
                            before,
                            source,
                            u64::MAX,
                            dist@,
                            heap@,
                            done,
                            last,
                            u as int,
                            i as int,
                        ),
                    decreases degree - i,
                {
                    let edge = graph.edges[u][i];
                    let new_dist = dist[u].saturating_add(edge.weight);
                    proof {
                        assert(adj[u as int][i as int] == edge);
                        if again {
                            assert(settled_upto(adj, dist@, u64::MAX, u as int, degree as int));
                            assert(edge_relaxed(adj, dist@, u64::MAX, u as int, i as int));
                        } else {
                            lemma_explore_relax(
                                adj,
                                before,
                                source,
                                u64::MAX,
                                dist@,
                                heap@,
                                done,
                                u,
                                i as int,
                            );
                        }
                    }
                    if new_dist < dist[edge.to] {
                        dist[edge.to] = new_dist;
                        heap.push(new_dist, edge.to);
                    }
                    i += 1;
                }
                proof {
                    if !again {
                        lemma_explore_next(adj, before, source, u64::MAX, dist@, heap@, done, last, u);
                    }
                }
            },
        }
    }
    proof {
        lemma_explore_done(adj, before, source, u64::MAX, dist@, done, last);
        lemma_fresh_relaxation_is_shortest(adj, source as int, dist@);
    }
    dist
}

} // verus!
