//! The bounded multi-source shortest-path procedure and its parts.

use crate::graph::{Graph, INFINITY};
use crate::heap::MinQueue;
use crate::params::{compute_k, compute_levels, compute_t, level_count, param_k, param_t};
pub use crate::partial_sort::PartialSortDS;
use crate::paths::{
    farther_than, keeps_witnesses, lemma_edge_keeps_witnesses, lemma_keeps_witnesses_trans,
};
use crate::pivots::{
    all_below, chosen_pivots, expand_front, lemma_chosen_pivots, lemma_chosen_pivots_full,
    lemma_idle_rounds, lemma_pivot_search_idle, mirrors, never_above, none_below, pivot_cap,
    pivot_search, relax_edge, relax_edges, run_round, run_rounds, seed_sweep, Sweep,
};
use crate::recursion::{
    bmssp_run, halve, is_rest, lemma_depth_within_level, lemma_never_above_trans,
    lemma_relaxation_unique, lemma_rest_unique, relax_each, relaxed,
};
use crate::relaxation::{
    exploring, fresh_table, is_bounded_relaxation, is_saturated_distance, lemma_bound_respected,
    lemma_explore_done, lemma_explore_next, lemma_explore_pop, lemma_explore_relax,
    lemma_explore_start, lemma_fresh_relaxation_is_shortest, lemma_relaxation_keeps_witnesses,
};
use crate::vertex_set::VertexSet;
use std::collections::HashSet;
use std::collections::VecDeque;
use vstd::multiset::Multiset;
use vstd::prelude::*;

verus! {

/// Why a shortest-path query was turned down.
#[derive(Debug, Clone, Copy, PartialEq, Eq, Structural)]
pub enum SsspError {
    /// The graph's vertex count does not match its adjacency lists, or an
    /// edge leads outside the graph.
    InvalidGraph,
    /// The source is no vertex of the graph.
    InvalidSource,
}

/// The shortest distances from `source` in `graph`, after checking that
/// the graph is well formed and that the source is one of its vertices.
pub fn checked_sssp(graph: Graph, source: usize) -> (r: Result<Vec<u64>, SsspError>)
    ensures
        match r {
            Ok(dist) => {
                &&& graph.wf()
                &&& source < graph.n
                &&& dist@.len() == graph.n
                &&& forall|v: int|
                    0 <= v < dist@.len() ==> is_saturated_distance(
                        graph@,
                        source as int,
                        v,
                        #[trigger] dist@[v],
                    )
            },
            Err(SsspError::InvalidGraph) => !graph.wf(),
            Err(SsspError::InvalidSource) => graph.wf() && source >= graph.n,
        },
{
    if !graph.is_valid() {
        return Err(SsspError::InvalidGraph);
    }
    if source >= graph.n {
        return Err(SsspError::InvalidSource);
    }
    let run = CoreAlgorithm::new(graph);
    Ok(run.sssp(source))
}

/// One shortest-path computation: the graph, the table of distance
/// estimates and the two tuning parameters.
pub struct CoreAlgorithm {
    pub graph: Graph,
    pub dist: Vec<u64>,
    pub k: usize,
    pub t: usize,
}

impl CoreAlgorithm {
    /// The graph is well formed, the table has one estimate per vertex and
    /// both parameters are at least one.
    pub open spec fn wf(&self) -> bool {
        &&& self.graph.wf()
        &&& self.dist@.len() == self.graph.n
        &&& self.k >= 1
        &&& self.t >= 1
    }

    /// A computation on `graph` with every estimate at `INFINITY` and the
    /// parameters that belong to the number of vertices.
    pub fn new(graph: Graph) -> (r: CoreAlgorithm)
        ensures
            r.graph == graph,
            r.dist@ == Seq::new(graph.n as nat, |v: int| INFINITY),
            r.k == param_k(graph.n as nat),
            r.t == param_t(graph.n as nat),
            graph.wf() ==> r.wf(),
    {
        let n = graph.n;
        let k = compute_k(n);
        let t = compute_t(n);
        let mut dist: Vec<u64> = Vec::new();
        let mut i: usize = 0;
        while i < n
            invariant
                i <= n,
                dist@ == Seq::new(i as nat, |v: int| INFINITY),
            decreases n - i,
        {
            dist.push(INFINITY);
            proof {
                assert(dist@ =~= Seq::new((i + 1) as nat, |v: int| INFINITY));
            }
            i += 1;
        }
        CoreAlgorithm { graph, dist, k, t }
    }

    /// The shortest distance from `source` to every vertex, `INFINITY`
    /// where no path shorter than that exists.
    ///
    /// The table is reset to know the source alone, and the recursive
    /// procedure is run once on the frontier of that source, without a
    /// bound, at the level that belongs to the vertex count and to `t`.  It
    /// never goes down more levels than that.
    pub fn sssp(self, source: usize) -> (r: Vec<u64>)
        requires
            self.wf(),
            source < self.graph.n,
        ensures
            r@.len() == self.graph.n,
            forall|v: int|
                0 <= v < r@.len() ==> is_saturated_distance(self.graph@, source as int, v, #[trigger] r@[v]),
            r@ == bmssp_run(
                self.graph@,
                self.k as nat,
                fresh_table(self.graph.n as nat, source as int),
                level_count(self.graph.n as nat, self.t as nat),
                INFINITY,
                seq![source],
            ).0,
            bmssp_run(
                self.graph@,
                self.k as nat,
                fresh_table(self.graph.n as nat, source as int),
                level_count(self.graph.n as nat, self.t as nat),
                INFINITY,
                seq![source],
            ).1 <= level_count(self.graph.n as nat, self.t as nat),
    {
        let mut run = self;
        let n = run.graph.n;
        let levels = compute_levels(n, run.t);
        let mut i: usize = 0;
        while i < n
            invariant
                i <= n,
                n == run.dist@.len(),
                forall|v: int| 0 <= v < i ==> run.dist@[v] == INFINITY,
                run.wf(),
                run.graph == self.graph,
            decreases n - i,
        {
            run.dist[i] = INFINITY;
            i += 1;
        }
        run.dist[source] = 0;
        proof {
            assert(run.dist@ =~= fresh_table(n as nat, source as int));
        }
        let mut frontier = VertexSet::new();
        frontier.insert(source);
        proof {
            assert(frontier@.contains(source));
            assert(frontier@[0] == source);
            assert(frontier@ =~= seq![source]);
        }
        run.bmssp(levels, INFINITY, &frontier);
        proof {
            lemma_fresh_relaxation_is_shortest(run.graph@, source as int, run.dist@);
            lemma_depth_within_level(
                self.graph@,
                self.k as nat,
                fresh_table(n as nat, source as int),
                levels as nat,
                INFINITY,
                seq![source],
            );
        }
        run.dist
    }

    /// The recursive procedure on the frontier `sources` with `level`
    /// levels left.  Returns the number of levels it went down.
    ///
    /// With no level left, or a single source, it explores from each
    /// source in turn.  Otherwise it searches for pivots, recurses on them
    /// under half the bound, and then on the other vertices reached whose
    /// estimate is still below the bound.
    pub fn bmssp(&mut self, level: usize, bound: u64, sources: &VertexSet) -> (depth: usize)
        requires
            old(self).wf(),
            sources.wf(),
            all_below(sources@, old(self).graph.n as nat),
        ensures
            final(self).wf(),
            final(self).graph == old(self).graph,
            final(self).k == old(self).k,
            final(self).t == old(self).t,
            final(self).dist@ == bmssp_run(
                old(self).graph@,
                old(self).k as nat,
                old(self).dist@,
                level as nat,
                bound,
                sources@,
            ).0,
            depth == bmssp_run(
                old(self).graph@,
                old(self).k as nat,
                old(self).dist@,
                level as nat,
                bound,
                sources@,
            ).1,
            depth <= level,
            sources@.len() == 0 ==> final(self).dist@ == old(self).dist@ && depth == 0,
            never_above(final(self).dist@, old(self).dist@),
            keeps_witnesses(old(self).graph@, old(self).dist@, final(self).dist@),
            sources@.len() == 1 ==> is_bounded_relaxation(
                old(self).graph@,
                old(self).dist@,
                sources@[0] as int,
                bound,
                final(self).dist@,
            ),
        decreases level,
    {
        let ghost adj = self.graph@;
        let ghost before = self.dist@;
        let ghost src = sources@;
        let n = self.graph.n;
        proof {
            lemma_depth_within_level(adj, self.k as nat, before, level as nat, bound, src);
        }
        if sources.is_empty() {
            return 0;
        }
        if level == 0 || sources.len() == 1 {
            let mut j: usize = 0;
            while j < sources.len()
                invariant
                    self.wf(),
                    self.graph == old(self).graph,
                    self.k == old(self).k,
                    self.t == old(self).t,
                    adj == self.graph@,
                    n == self.graph.n,
                    src == sources@,
                    all_below(src, n as nat),
                    j <= src.len(),
                    self.dist@ == relax_each(adj, before, src, bound, j as int),
                    never_above(self.dist@, before),
                    keeps_witnesses(adj, before, self.dist@),
                    j >= 1 ==> is_bounded_relaxation(
                        adj,
                        before,
                        src[0] as int,
                        bound,
                        relax_each(adj, before, src, bound, 1),
                    ),
                decreases src.len() - j,
            {
                let s = sources.get(j);
                let ghost prev = self.dist@;
                self.base_case(s, bound);
                proof {
                    let after = self.dist@;
                    assert(is_bounded_relaxation(adj, prev, s as int, bound, after));
                    lemma_relaxation_unique(
                        adj,
                        prev,
                        s as int,
                        bound,
                        after,
                        relaxed(adj, prev, s as int, bound),
                    );
                    assert(never_above(after, prev));
                    lemma_never_above_trans(after, prev, before);
                    lemma_keeps_witnesses_trans(adj, before, prev, after);
                    if j == 0 {
                        assert(relax_each(adj, before, src, bound, 0) == before);
                    }
                }
                j += 1;
            }
            return 0;
        }
        let (pivots, reachable) = self.find_pivots(bound, sources);
        if pivots.is_empty() {
            return 0;
        }
        let ghost swept = self.dist@;
        proof {
            assert forall|i: int| 0 <= i < pivots@.len() implies #[trigger] pivots@[i] < n by {
                let p = pivots@[i];
                assert(src.contains(p));
                let m = choose|m: int| 0 <= m < src.len() && src[m] == p;
                assert(src[m] < n);
            }
        }
        let new_level = level - 1;
        let new_bound = halve(bound);
        let first_depth = self.bmssp(new_level, new_bound, &pivots);
        let ghost mid = self.dist@;
        let mut remaining = VertexSet::new();
        let mut i: usize = 0;
        while i < reachable.len()
            invariant
                i <= reachable@.len(),
                self.wf(),
                n == self.graph.n,
                self.dist@ == mid,
                pivots.wf(),
                remaining.wf(),
                all_below(reachable@, n as nat),
                forall|v: usize|
                    remaining@.contains(v) <==> reachable@.take(i as int).contains(v) && !pivots@.contains(
                        v,
                    ) && mid[v as int] < bound,
            decreases reachable@.len() - i,
        {
            let v = reachable[i];
            let ghost seen = reachable@.take(i as int);
            let ghost next = reachable@.take(i + 1);
            proof {
                assert(next =~= seen.push(v));
                assert forall|x: usize| next.contains(x) <==> (x == v || seen.contains(x)) by {
                    assert(next[i as int] == v);
                    if next.contains(x) {
                        let m = choose|m: int| 0 <= m < next.len() && next[m] == x;
                        if m < i {
                            assert(seen[m] == x);
                        }
                    }
                    if seen.contains(x) {
                        let m = choose|m: int| 0 <= m < seen.len() && seen[m] == x;
                        assert(next[m] == x);
                    }
                }
            }
            if !pivots.contains(v) && self.dist[v] < bound {
                remaining.insert(v);
            }
            i += 1;
        }
        proof {
            assert(reachable@.take(reachable@.len() as int) =~= reachable@);
            assert(is_rest(reachable@, pivots@, mid, bound, remaining@));
            lemma_rest_unique(reachable@, pivots@, mid, bound, remaining@);
            assert forall|m: int| 0 <= m < remaining@.len() implies #[trigger] remaining@[m] < n by {
                let x = remaining@[m];
                assert(remaining@.contains(x));
                assert(reachable@.contains(x));
                let q = choose|q: int| 0 <= q < reachable@.len() && reachable@[q] == x;
                assert(reachable@[q] < n);
            }
            lemma_never_above_trans(mid, swept, before);
            lemma_keeps_witnesses_trans(adj, before, swept, mid);
        }
        let second_depth = if !remaining.is_empty() {
            self.bmssp(new_level, bound, &remaining)
        } else {
            0
        };
        proof {
            lemma_never_above_trans(self.dist@, mid, before);
            lemma_keeps_witnesses_trans(adj, before, mid, self.dist@);
            let first = bmssp_run(adj, self.k as nat, swept, new_level as nat, new_bound, pivots@);
            let second = bmssp_run(adj, self.k as nat, mid, new_level as nat, bound, remaining@);
            assert(first.0 == mid && first.1 == first_depth);
            assert(second.0 == self.dist@ && second.1 == second_depth);
        }
        if first_depth >= second_depth {
            1 + first_depth
        } else {
            1 + second_depth
        }
    }

    /// The parameters `(k, t)`.
    pub fn get_params(&self) -> (r: (usize, usize))
        ensures
            r == (self.k, self.t),
    {
        (self.k, self.t)
    }

    /// Bounded exploration from `source`, smallest estimate first.
    ///
    /// Every estimate ends as the least of its old value and the values
    /// that walks from `source` offer it below `bound`; a walk passes
    /// through a vertex only where it lowers that vertex's estimate.
    pub fn base_case(&mut self, source: usize, bound: u64)
        requires
            old(self).wf(),
            source < old(self).graph.n,
        ensures
            final(self).wf(),
            final(self).graph == old(self).graph,
            final(self).k == old(self).k,
            final(self).t == old(self).t,
            is_bounded_relaxation(
                old(self).graph@,
                old(self).dist@,
                source as int,
                bound,
                final(self).dist@,
            ),
            forall|v: int|
                0 <= v < old(self).dist@.len() && #[trigger] final(self).dist@[v] != old(self).dist@[v]
                    ==> final(self).dist@[v] < bound,
            forall|v: int|
                0 <= v < old(self).dist@.len() && farther_than(
                    old(self).graph@,
                    source as int,
                    v,
                    bound - old(self).dist@[source as int],
                ) ==> #[trigger] final(self).dist@[v] == old(self).dist@[v],
            never_above(final(self).dist@, old(self).dist@),
            keeps_witnesses(old(self).graph@, old(self).dist@, final(self).dist@),
    {
        broadcast use vstd::std_specs::hash::group_hash_axioms;

        let ghost before = self.dist@;
        let ghost adj = self.graph@;
        let n = self.graph.n;
        let mut heap = MinQueue::new();
        let mut processed: HashSet<usize> = HashSet::new();
        if self.dist[source] < bound {
            heap.push(self.dist[source], source);
        }
        let ghost mut last: int = before[source as int] as int;
        let ghost mut pending: Set<int> = vstd::set_lib::set_int_range(0, n as int);
        proof {
            lemma_explore_start(adj, before, source, bound, heap@);
            vstd::set_lib::lemma_int_range(0, n as int);
        }
        loop
            invariant_except_break
                exploring(adj, before, source, bound, self.dist@, heap@, processed@, last, -1, 0),
            invariant
                heap.wf(),
                self.graph == old(self).graph,
                self.k == old(self).k,
                self.t == old(self).t,
                old(self).wf(),
                adj == self.graph@,
                n == self.graph.n,
                pending.finite(),
                forall|v: usize| v < n && !processed@.contains(v) ==> #[trigger] pending.contains(v as int),
            ensures
                exploring(
                    adj,
                    before,
                    source,
                    bound,
                    self.dist@,
                    Multiset::empty(),
                    processed@,
                    last,
                    -1,
                    0,
                ),
            decreases pending.len(), heap@.len(),
        {
            let ghost queue_before = heap@;
            let popped = heap.pop();
            match popped {
                None => {
                    proof {
                        assert(heap@ =~= Multiset::<(u64, usize)>::empty()) by {
                            broadcast use vstd::multiset::group_multiset_axioms;

                            assert forall|x: (u64, usize)| heap@.count(x) == 0 by {
                                if heap@.count(x) > 0 {
                                    vstd::multiset::lemma_multiset_empty_len(heap@);
                                }
                            }
                        }
                    }
                    break ;
                },
                Some((d, u)) => {
                    proof {
                        lemma_explore_pop(
                            adj,
                            before,
                            source,
                            bound,
                            self.dist@,
                            queue_before,
                            processed@,
                            last,
                            (d, u),
                        );
                        last = d as int;
                        broadcast use vstd::multiset::group_multiset_axioms;

                    }
                    if processed.contains(&u) || d >= bound {
                        continue ;
                    }
                    processed.insert(u);
                    proof {
                        assert(pending.contains(u as int));
                        pending = pending.remove(u as int);
                    }
                    let degree = self.graph.edges[u].len();
                    let mut i: usize = 0;
                    while i < degree
                        invariant
                            heap.wf(),
                            self.graph == old(self).graph,
                            self.k == old(self).k,
                            self.t == old(self).t,
                            old(self).wf(),
                            adj == self.graph@,
                            n == self.graph.n,
                            u < n,
                            i <= degree,
                            degree == adj[u as int].len(),
                            processed@.contains(u),
                            last == self.dist@[u as int],
                            exploring(
                                adj,
                                before,
                                source,
                                bound,
                                self.dist@,
                                heap@,
                                processed@,
                                last,
                                u as int,
                                i as int,
                            ),
                        decreases degree - i,
                    {
                        let edge = self.graph.edges[u][i];
                        let new_dist = self.dist[u].saturating_add(edge.weight);
                        proof {
                            lemma_explore_relax(
                                adj,
                                before,
                                source,
                                bound,
                                self.dist@,
                                heap@,
                                processed@,
                                u,
                                i as int,
                            );
                        }
                        if new_dist < bound && new_dist < self.dist[edge.to] {
                            self.dist[edge.to] = new_dist;
                            heap.push(new_dist, edge.to);
                        }
                        i += 1;
                    }
                    proof {
                        lemma_explore_next(
                            adj,
                            before,
                            source,
                            bound,
                            self.dist@,
                            heap@,
                            processed@,
                            last,
                            u,
                        );
                    }
                },
            }
        }
        proof {
            lemma_explore_done(adj, before, source, bound, self.dist@, processed@, last);
            lemma_bound_respected(adj, before, source as int, bound, self.dist@);
            lemma_relaxation_keeps_witnesses(adj, before, source as int, bound, self.dist@);
        }
    }

    /// Reduces the frontier `sources` to a few pivots.
    ///
    /// Runs `k` rounds of breadth-first relaxation from the sources whose
    /// estimate is below `bound`.  Returns the pivots, which are the first
    /// candidates in order of vertex id, up to the cap, and the vertices
    /// reached, in order of discovery.
    pub fn find_pivots(&mut self, bound: u64, sources: &VertexSet) -> (r: (VertexSet, Vec<usize>))
        requires
            old(self).wf(),
            sources.wf(),
            all_below(sources@, old(self).graph.n as nat),
        ensures
            final(self).wf(),
            final(self).graph == old(self).graph,
            final(self).k == old(self).k,
            final(self).t == old(self).t,
            ({
                let end = pivot_search(
                    old(self).graph@,
                    old(self).dist@,
                    bound,
                    old(self).k as nat,
                    sources@,
                );
                &&& final(self).dist@ == end.dist
                &&& r.1@ == end.reachable
                &&& r.0@ == chosen_pivots(
                    sources@,
                    end.candidates,
                    pivot_cap(sources@.len(), old(self).k as nat),
                    sources@.len() as int,
                )
            }),
            r.0.wf(),
            r.0@.len() <= pivot_cap(sources@.len(), old(self).k as nat),
            forall|i: int| 0 <= i < r.0@.len() ==> sources@.contains(#[trigger] r.0@[i]),
            all_below(r.1@, old(self).graph.n as nat),
            never_above(final(self).dist@, old(self).dist@),
            keeps_witnesses(old(self).graph@, old(self).dist@, final(self).dist@),
            none_below(old(self).dist@, bound, sources@) ==> {
                &&& r.0@.len() == 0
                &&& r.1@.len() == 0
                &&& final(self).dist@ == old(self).dist@
            },
    {
        broadcast use vstd::std_specs::hash::group_hash_axioms;

        let ghost adj = self.graph@;
        let ghost before = self.dist@;
        let ghost src = sources@;
        let n = self.graph.n;
        let k = self.k;
        let mut candidates: HashSet<usize> = HashSet::new();
        let mut reachable: Vec<usize> = Vec::new();
        let mut queue: VecDeque<usize> = VecDeque::new();
        let mut visited: HashSet<usize> = HashSet::new();
        let mut j: usize = 0;
        while j < sources.len()
            invariant
                j <= src.len(),
                src == sources@,
                self.dist@ == before,
                before.len() == n,
                all_below(src, n as nat),
                all_below(queue@, n as nat),
                mirrors(
                    seed_sweep(before, bound, src, j as int),
                    self.dist@,
                    visited@,
                    queue@,
                    reachable@,
                    candidates@,
                ),
            decreases src.len() - j,
        {
            let s = sources.get(j);
            if self.dist[s] < bound {
                queue.push_back(s);
                visited.insert(s);
            }
            j += 1;
        }
        let ghost seed = seed_sweep(before, bound, src, src.len() as int);
        let ghost mut st = seed;
        let mut round: usize = 0;
        while round < k
            invariant
                self.graph == old(self).graph,
                self.k == old(self).k,
                self.t == old(self).t,
                old(self).wf(),
                adj == self.graph@,
                n == self.graph.n,
                k == self.k,
                src == sources@,
                sources.wf(),
                before == old(self).dist@,
                round <= k,
                all_below(queue@, n as nat),
                all_below(reachable@, n as nat),
                never_above(self.dist@, before),
                keeps_witnesses(adj, before, self.dist@),
                before.len() == n,
                st == run_rounds(adj, bound, k as nat, src, seed, round as int),
                mirrors(st, self.dist@, visited@, queue@, reachable@, candidates@),
            ensures
                round == k || queue@.len() == 0,
            decreases k - round,
        {
            let round_size = queue.len();
            if round_size == 0 {
                break ;
            }
            let ghost round_start = st;
            let mut c: usize = 0;
            while c < round_size
                invariant
                    self.graph == old(self).graph,
                    self.k == old(self).k,
                    self.t == old(self).t,
                    old(self).wf(),
                    adj == self.graph@,
                    n == self.graph.n,
                    k == self.k,
                    src == sources@,
                    sources.wf(),
                    before == old(self).dist@,
                    c <= round_size,
                    queue@.len() >= round_size - c,
                    all_below(queue@, n as nat),
                    all_below(reachable@, n as nat),
                    never_above(self.dist@, before),
                    keeps_witnesses(adj, before, self.dist@),
                    before.len() == n,
                    st == run_round(adj, bound, k as nat, src, round_start, c as int),
                    mirrors(st, self.dist@, visited@, queue@, reachable@, candidates@),
                decreases round_size - c,
            {
                let ghost front = st;
                let u = match queue.pop_front() {
                    Some(u) => u,
                    None => {
                        proof {
                            assert(false);
                        }
                        0
                    },
                };
                proof {
                    st = Sweep { queue: front.queue.drop_first(), ..front };
                }
                let ghost popped = st;
                let mut reached_count: usize = 0;
                let degree = self.graph.edges[u].len();
                let mut i: usize = 0;
                while i < degree
                    invariant
                        self.graph == old(self).graph,
                        self.k == old(self).k,
                        self.t == old(self).t,
                        old(self).wf(),
                        adj == self.graph@,
                        n == self.graph.n,
                        u < n,
                        degree == adj[u as int].len(),
                        i <= degree,
                        reached_count <= i,
                        queue@.len() >= round_size - c - 1,
                        all_below(queue@, n as nat),
                        all_below(reachable@, n as nat),
                        never_above(self.dist@, before),
                        keeps_witnesses(adj, before, self.dist@),
                        before.len() == n,
                        (st, reached_count as nat) == relax_edges(adj, bound, popped, u as int, i as int),
                        mirrors(st, self.dist@, visited@, queue@, reachable@, candidates@),
                    decreases degree - i,
                {
                    let edge = self.graph.edges[u][i];
                    let new_dist = self.dist[u].saturating_add(edge.weight);
                    proof {
                        assert(adj[u as int][i as int] == edge);
                        assert(edge.to < n);
                        st = relax_edge(adj, bound, st, reached_count as nat, u as int, i as int).0;
                        if new_dist < bound && new_dist < self.dist@[edge.to as int] {
                            lemma_edge_keeps_witnesses(adj, self.dist@, u as int, i as int);
                            lemma_keeps_witnesses_trans(
                                adj,
                                before,
                                self.dist@,
                                self.dist@.update(edge.to as int, new_dist),
                            );
                        }
                    }
                    if new_dist < bound && new_dist < self.dist[edge.to] {
                        self.dist[edge.to] = new_dist;
                        reached_count += 1;
                        if !visited.contains(&edge.to) {
                            visited.insert(edge.to);
                            queue.push_back(edge.to);
                            reachable.push(edge.to);
                        }
                    }
                    i += 1;
                }
                if sources.contains(u) && reached_count >= k {
                    candidates.insert(u);
                    proof {
                        st = Sweep { candidates: st.candidates.insert(u), ..st };
                    }
                }
                proof {
                    assert(st == expand_front(adj, bound, k as nat, src, front));
                }
                c += 1;
            }
            round += 1;
        }
        proof {
            if round < k {
                lemma_idle_rounds(adj, bound, k as nat, src, seed, round as int, k as int);
            }
        }
        let max_pivots = if sources.len() / k >= 1 {
            sources.len() / k
        } else {
            1
        };
        let ghost cap = pivot_cap(src.len(), k as nat);
        let mut pivots = VertexSet::new();
        let mut j: usize = 0;
        while j < sources.len() && pivots.len() < max_pivots
            invariant
                j <= src.len(),
                src == sources@,
                sources.wf(),
                max_pivots == cap,
                pivots.wf(),
                pivots@ == chosen_pivots(src, candidates@, cap, j as int),
            decreases src.len() - j,
        {
            let s = sources.get(j);
            if candidates.contains(&s) {
                proof {
                    lemma_chosen_pivots(src, candidates@, cap, j as int);
                }
                pivots.push_larger(s);
            }
            j += 1;
        }
        proof {
            if j < src.len() {
                lemma_chosen_pivots_full(src, candidates@, cap, j as int, src.len() as int);
            }
            lemma_chosen_pivots(src, candidates@, cap, src.len() as int);
            if none_below(before, bound, src) {
                lemma_pivot_search_idle(adj, before, bound, k as nat, src);
            }
        }
        (pivots, reachable)
    }
}

} // verus!
