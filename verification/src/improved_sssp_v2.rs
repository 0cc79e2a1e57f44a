//! Shortest paths by a hybrid: while the frontier is small it is explored
//! smallest estimate first; a large frontier is thinned by a few rounds
//! of breadth-first relaxation from its smallest entries.

use crate::graph::{Graph, INFINITY};
use crate::heap::MinQueue;
use crate::params::{frontier_threshold, log2_ceil};
use crate::paths::{keeps_witnesses, lemma_edge_keeps_witnesses, lemma_keeps_witnesses_trans};
use crate::pivots::{all_below, never_above};
use crate::relaxation::{
    exploring, fresh_table, is_bounded_relaxation, is_saturated_distance, lemma_explore_done,
    lemma_explore_next, lemma_explore_pop, lemma_explore_relax, lemma_explore_start,
    lemma_fresh_relaxation_is_shortest,
};
use std::collections::VecDeque;
use vstd::multiset::Multiset;
use vstd::prelude::*;

verus! {

/// The vertices that `processed` marks.
pub open spec fn done_of(processed: Seq<bool>) -> Set<usize> {
    Set::new(|v: usize| v < processed.len() && processed[v as int])
}

/// Every entry of `queue` names a vertex below `n`.
pub open spec fn entries_below(queue: Multiset<(u64, usize)>, n: nat) -> bool {
    forall|e: (u64, usize)| #[trigger] queue.count(e) > 0 ==> e.1 < n
}

/// `after` marks every vertex that `before` marks.
pub open spec fn only_gains(after: Seq<bool>, before: Seq<bool>) -> bool {
    &&& after.len() == before.len()
    &&& forall|v: int| 0 <= v < before.len() && before[v] ==> #[trigger] after[v]
}

/// The shortest distance from `source` to every vertex, `INFINITY` where
/// no path shorter than that exists.
///
/// The frontier starts with the source alone, which is within the
/// threshold, and the first phase runs until the frontier is empty; so
/// the thinning phase is never entered from here.
pub fn improved_sssp_v2(graph: &Graph, source: usize) -> (dist: Vec<u64>)
    requires
        graph.wf(),
        source < graph.n,
    ensures
        dist@.len() == graph.n,
        forall|v: int|
            0 <= v < dist@.len() ==> is_saturated_distance(graph@, source as int, v, #[trigger] dist@[v]),
{
    let n = graph.n;
    let ghost adj = graph@;
    let ghost before = fresh_table(n as nat, source as int);
    let mut dist: Vec<u64> = Vec::new();
    let mut processed: Vec<bool> = Vec::new();
    let mut i: usize = 0;
    while i < n
        invariant
            i <= n,
            dist@ == Seq::new(i as nat, |v: int| INFINITY),
            processed@ == Seq::new(i as nat, |v: int| false),
        decreases n - i,
    {
        dist.push(INFINITY);
        processed.push(false);
        proof {
            assert(dist@ =~= Seq::new((i + 1) as nat, |v: int| INFINITY));
            assert(processed@ =~= Seq::new((i + 1) as nat, |v: int| false));
        }
        i += 1;
    }
    dist[source] = 0;
    let threshold = frontier_threshold(n);
    let mut frontier = MinQueue::new();
    frontier.push(0, source);
    proof {
        broadcast use vstd::multiset::group_multiset_axioms;

        assert(dist@ =~= before);
        assert(done_of(processed@) =~= Set::<usize>::empty());
        lemma_explore_start(adj, before, source, u64::MAX, frontier@);
    }
    while !frontier.is_empty()
        invariant
            frontier.wf(),
            graph.wf(),
            adj == graph@,
            n == graph.n,
            threshold >= 1,
            2 * threshold <= usize::MAX,
            dist@.len() == n,
            processed@.len() == n,
            frontier@.len() <= 1,
            frontier@.len() == 1 ==> exploring(
                adj,
                before,
                source,
                u64::MAX,
                dist@,
                frontier@,
                done_of(processed@),
                0,
                -1,
                0,
            ),
            frontier@.len() == 0 ==> is_bounded_relaxation(adj, before, source as int, u64::MAX, dist@),
        decreases frontier@.len(),
    {
        if frontier.len() <= threshold {
            dijkstra_phase(
                graph,
                &mut dist,
                &mut frontier,
                &mut processed,
                Ghost(before),
                Ghost(source),
                Ghost(0),
            );
        } else {
            bellman_ford_phase(graph, &mut dist, &mut frontier, &mut processed, threshold);
        }
    }
    proof {
        lemma_fresh_relaxation_is_shortest(adj, source as int, dist@);
    }
    dist
}

/// Carries an exploration that is under way to its end: the frontier is
/// emptied smallest estimate first, and each vertex is expanded once.
fn dijkstra_phase(
    graph: &Graph,
    dist: &mut Vec<u64>,
    frontier: &mut MinQueue,
    processed: &mut Vec<bool>,
    Ghost(before): Ghost<Seq<u64>>,
    Ghost(source): Ghost<usize>,
    Ghost(start): Ghost<int>,
)
    requires
        graph.wf(),
        old(frontier).wf(),
        old(processed)@.len() == graph.n,
        exploring(
            graph@,
            before,
            source,
            u64::MAX,
            old(dist)@,
            old(frontier)@,
            done_of(old(processed)@),
            start,
            -1,
            0,
        ),
    ensures
        final(frontier).wf(),
        final(frontier)@.len() == 0,
        only_gains(final(processed)@, old(processed)@),
        is_bounded_relaxation(graph@, before, source as int, u64::MAX, final(dist)@),
{
    let ghost adj = graph@;
    let n = graph.n;
    let ghost mut last: int = start;
    let ghost mut pending: Set<int> = vstd::set_lib::set_int_range(0, n as int);
    proof {
        vstd::set_lib::lemma_int_range(0, n as int);
    }
    loop
        invariant_except_break
            exploring(adj, before, source, u64::MAX, dist@, frontier@, done_of(processed@), last, -1, 0),
        invariant
            frontier.wf(),
            graph.wf(),
            adj == graph@,
            n == graph.n,
            only_gains(processed@, old(processed)@),
            processed@.len() == n,
            pending.finite(),
            forall|v: usize| v < n && !processed@[v as int] ==> #[trigger] pending.contains(v as int),
        ensures
            frontier@.len() == 0,
            exploring(
                adj,
                before,
                source,
                u64::MAX,
                dist@,
                Multiset::empty(),
                done_of(processed@),
                last,
                -1,
                0,
            ),
        decreases pending.len(), frontier@.len(),
    {
        let ghost queue_before = frontier@;
        let popped = frontier.pop();
        match popped {
            None => {
                proof {
                    assert(frontier@ =~= Multiset::<(u64, usize)>::empty()) by {
                        broadcast use vstd::multiset::group_multiset_axioms;

                        assert forall|x: (u64, usize)| frontier@.count(x) == 0 by {
                            if frontier@.count(x) > 0 {
                                vstd::multiset::lemma_multiset_empty_len(frontier@);
                            }
                        }
                    }
                }
                break ;
            },
            Some((d, u)) => {
                let ghost done = done_of(processed@);
                proof {
                    lemma_explore_pop(adj, before, source, u64::MAX, dist@, queue_before, done, last, (d, u));
                    last = d as int;
                    broadcast use vstd::multiset::group_multiset_axioms;

                }
                if processed[u] {
                    continue ;
                }
                processed[u] = true;
                proof {
                    assert(!done.contains(u));
                    assert(done_of(processed@) =~= done.insert(u));
                    assert(pending.contains(u as int));
                    pending = pending.remove(u as int);
                }
                if d > dist[u] {
                    continue ;
                }
                let degree = graph.edges[u].len();
                let mut i: usize = 0;
                while i < degree
                    invariant
                        frontier.wf(),
                        graph.wf(),
                        adj == graph@,
                        n == graph.n,
                        u < n,
                        i <= degree,
                        degree == adj[u as int].len(),
                        processed@.len() == n,
                        processed@[u as int],
                        last == dist@[u as int],
                        exploring(
                            adj,
                            before,
                            source,
                            u64::MAX,
                            dist@,
                            frontier@,
                            done_of(processed@),
                            last,
                            u as int,
                            i as int,
                        ),
                    decreases degree - i,
                {
                    let edge = graph.edges[u][i];
                    let new_dist = dist[u].saturating_add(edge.weight);
                    proof {
                        assert(adj[u as int][i as int] == edge);
                        assert(done_of(processed@).contains(u));
                        lemma_explore_relax(
                            adj,
                            before,
                            source,
                            u64::MAX,
                            dist@,
                            frontier@,
                            done_of(processed@),
                            u,
                            i as int,
                        );
                    }
                    if new_dist < dist[edge.to] {
                        dist[edge.to] = new_dist;
                        frontier.push(new_dist, edge.to);
                    }
                    i += 1;
                }
                proof {
                    lemma_explore_next(
                        adj,
                        before,
                        source,
                        u64::MAX,
                        dist@,
                        frontier@,
                        done_of(processed@),
                        last,
                        u,
                    );
                }
            },
        }
    }
    proof {
        lemma_explore_done(adj, before, source, u64::MAX, dist@, done_of(processed@), last);
    }
}

/// Thins a large frontier.  Its few smallest entries that are not yet
/// processed become pivots; estimates are relaxed breadth first from the
/// pivots for as many rounds as there were entries taken; the pivots are
/// then marked processed, and the frontier is rebuilt from the entries
/// met, up to twice the threshold.
fn bellman_ford_phase(
    graph: &Graph,
    dist: &mut Vec<u64>,
    frontier: &mut MinQueue,
    processed: &mut Vec<bool>,
    threshold: usize,
)
    requires
        graph.wf(),
        old(frontier).wf(),
        old(dist)@.len() == graph.n,
        old(processed)@.len() == graph.n,
        entries_below(old(frontier)@, graph.n as nat),
        2 * threshold <= usize::MAX,
    ensures
        final(frontier).wf(),
        entries_below(final(frontier)@, graph.n as nat),
        final(frontier)@.len() <= 2 * threshold,
        never_above(final(dist)@, old(dist)@),
        keeps_witnesses(graph@, old(dist)@, final(dist)@),
        only_gains(final(processed)@, old(processed)@),
{
    broadcast use vstd::multiset::group_multiset_axioms;

    let n = graph.n;
    let ghost adj = graph@;
    let mut pivots: Vec<usize> = Vec::new();
    let mut temp_frontier = MinQueue::new();
    let k = log2_ceil(frontier.len());
    let take = if k <= frontier.len() {
        k
    } else {
        frontier.len()
    };
    let mut c: usize = 0;
    while c < take
        invariant
            frontier.wf(),
            temp_frontier.wf(),
            n == graph.n,
            processed@.len() == n,
            entries_below(frontier@, n as nat),
            entries_below(temp_frontier@, n as nat),
            all_below(pivots@, n as nat),
        decreases take - c,
    {
        match frontier.pop() {
            Some((d, u)) => {
                if !processed[u] {
                    pivots.push(u);
                    temp_frontier.push(d, u);
                }
            },
            None => {},
        }
        c += 1;
    }
    let mut queue: VecDeque<usize> = VecDeque::new();
    let mut p: usize = 0;
    while p < pivots.len()
        invariant
            p <= pivots@.len(),
            all_below(pivots@, n as nat),
            all_below(queue@, n as nat),
        decreases pivots@.len() - p,
    {
        queue.push_back(pivots[p]);
        p += 1;
    }
    let mut steps: usize = 0;
    let max_steps = k;
    while queue.len() > 0 && steps < max_steps
        invariant
            temp_frontier.wf(),
            graph.wf(),
            adj == graph@,
            n == graph.n,
            dist@.len() == n,
            processed@ == old(processed)@,
            processed@.len() == n,
            steps <= max_steps,
            never_above(dist@, old(dist)@),
            keeps_witnesses(adj, old(dist)@, dist@),
            all_below(queue@, n as nat),
            entries_below(temp_frontier@, n as nat),
        decreases max_steps - steps,
    {
        let size = queue.len();
        let mut r: usize = 0;
        while r < size
            invariant
                temp_frontier.wf(),
                graph.wf(),
                adj == graph@,
                n == graph.n,
                dist@.len() == n,
                processed@ == old(processed)@,
                processed@.len() == n,
                never_above(dist@, old(dist)@),
                keeps_witnesses(adj, old(dist)@, dist@),
            keeps_witnesses(adj, old(dist)@, dist@),
                all_below(queue@, n as nat),
                entries_below(temp_frontier@, n as nat),
            decreases size - r,
        {
            r += 1;
            let u = match queue.pop_front() {
                Some(u) => u,
                None => {
                    continue ;
                },
            };
            if processed[u] {
                continue ;
            }
            let degree = graph.edges[u].len();
            let mut i: usize = 0;
            while i < degree
                invariant
                    temp_frontier.wf(),
                    graph.wf(),
                    adj == graph@,
                    n == graph.n,
                    u < n,
                    i <= degree,
                    degree == adj[u as int].len(),
                    dist@.len() == n,
                    processed@ == old(processed)@,
                    processed@.len() == n,
                    never_above(dist@, old(dist)@),
                    keeps_witnesses(adj, old(dist)@, dist@),
                keeps_witnesses(adj, old(dist)@, dist@),
            keeps_witnesses(adj, old(dist)@, dist@),
                    all_below(queue@, n as nat),
                    entries_below(temp_frontier@, n as nat),
                decreases degree - i,
            {
                let edge = graph.edges[u][i];
                proof {
                    assert(adj[u as int][i as int] == edge);
                    assert(edge.to < n);
                }
                let new_dist = dist[u].saturating_add(edge.weight);
                proof {
                    if new_dist < dist@[edge.to as int] {
                        lemma_edge_keeps_witnesses(adj, dist@, u as int, i as int);
                        lemma_keeps_witnesses_trans(
                            adj,
                            old(dist)@,
                            dist@,
                            dist@.update(edge.to as int, new_dist),
                        );
                    }
                }
                if new_dist < dist[edge.to] {
                    dist[edge.to] = new_dist;
                    queue.push_back(edge.to);
                    if !processed[edge.to] {
                        temp_frontier.push(new_dist, edge.to);
                    }
                }
                i += 1;
            }
        }
        steps += 1;
    }
    let mut p: usize = 0;
    while p < pivots.len()
        invariant
            p <= pivots@.len(),
            all_below(pivots@, n as nat),
            processed@.len() == n,
            only_gains(processed@, old(processed)@),
        decreases pivots@.len() - p,
    {
        let pivot = pivots[p];
        processed[pivot] = true;
        p += 1;
    }
    loop
        invariant
            frontier.wf(),
            temp_frontier.wf(),
            entries_below(frontier@, n as nat),
            entries_below(temp_frontier@, n as nat),
            2 * threshold <= usize::MAX,
        ensures
            temp_frontier@.len() == 0,
        decreases temp_frontier@.len(),
    {
        match temp_frontier.pop() {
            Some((d, u)) => {
                if frontier.len() < threshold * 2 {
                    frontier.push(d, u);
                }
            },
            None => {
                break ;
            },
        }
    }
    loop
        invariant
            frontier.wf(),
            temp_frontier.wf(),
            entries_below(frontier@, n as nat),
            entries_below(temp_frontier@, n as nat),
            temp_frontier@.len() <= 2 * threshold,
            2 * threshold <= usize::MAX,
        decreases frontier@.len(),
    {
        match frontier.pop() {
            Some((d, u)) => {
                if temp_frontier.len() < threshold * 2 {
                    temp_frontier.push(d, u);
                } else {
                    break ;
                }
            },
            None => {
                break ;
            },
        }
    }
    *frontier = temp_frontier;
}

} // verus!
