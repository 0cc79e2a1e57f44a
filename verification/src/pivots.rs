//! The pivot search as a function on plain values: what it does to the
//! table of estimates, which vertices it reaches and which sources it
//! marks, step by step.

use crate::graph::Edge;
use vstd::prelude::*;

verus! {

/// The state of a pivot search.
pub struct Sweep {
    /// The table of estimates.
    pub dist: Seq<u64>,
    /// The vertices that have been queued at some time.
    pub visited: Set<usize>,
    /// The vertices waiting to be expanded, first in first out.
    pub queue: Seq<usize>,
    /// The vertices queued after the start, in the order of their discovery.
    pub reachable: Seq<usize>,
    /// The sources whose expansion lowered enough estimates.
    pub candidates: Set<usize>,
}

/// The state after looking at the first `upto` sources: those whose
/// estimate is below `bound` are queued, in order.
pub open spec fn seed_sweep(dist: Seq<u64>, bound: u64, sources: Seq<usize>, upto: int) -> Sweep
    decreases upto,
{
    if upto <= 0 {
        Sweep {
            dist,
            visited: Set::empty(),
            queue: Seq::empty(),
            reachable: Seq::empty(),
            candidates: Set::empty(),
        }
    } else {
        let st = seed_sweep(dist, bound, sources, upto - 1);
        let s = sources[upto - 1];
        if dist[s as int] < bound {
            Sweep { visited: st.visited.insert(s), queue: st.queue.push(s), ..st }
        } else {
            st
        }
    }
}

/// Looks at edge `i` of `u`.  Where the edge offers its target a value
/// below `bound` and below the target's estimate, the value is stored, the
/// count goes up by one, and a target not seen before is queued.
pub open spec fn relax_edge(
    adj: Seq<Seq<Edge>>,
    bound: u64,
    st: Sweep,
    count: nat,
    u: int,
    i: int,
) -> (Sweep, nat) {
    let to = adj[u][i].to;
    let offer = st.dist[u] + adj[u][i].weight;
    if offer < bound && offer < st.dist[to as int] {
        let dist = st.dist.update(to as int, offer as u64);
        if st.visited.contains(to) {
            (Sweep { dist, ..st }, count + 1)
        } else {
            (
                Sweep {
                    dist,
                    visited: st.visited.insert(to),
                    queue: st.queue.push(to),
                    reachable: st.reachable.push(to),
                    candidates: st.candidates,
                },
                count + 1,
            )
        }
    } else {
        (st, count)
    }
}

/// Looks at the first `upto` edges of `u`, in order, counting from zero.
pub open spec fn relax_edges(adj: Seq<Seq<Edge>>, bound: u64, st: Sweep, u: int, upto: int) -> (
    Sweep,
    nat,
)
    decreases upto,
{
    if upto <= 0 {
        (st, 0)
    } else {
        let prev = relax_edges(adj, bound, st, u, upto - 1);
        relax_edge(adj, bound, prev.0, prev.1, u, upto - 1)
    }
}

/// Takes the first vertex off the queue and looks at all its edges.  A
/// source that lowered at least `k` estimates becomes a candidate.
pub open spec fn expand_front(
    adj: Seq<Seq<Edge>>,
    bound: u64,
    k: nat,
    sources: Seq<usize>,
    st: Sweep,
) -> Sweep
    recommends
        st.queue.len() > 0,
{
    let u = st.queue[0];
    let popped = Sweep { queue: st.queue.drop_first(), ..st };
    let swept = relax_edges(adj, bound, popped, u as int, adj[u as int].len() as int);
    if sources.contains(u) && swept.1 >= k {
        Sweep { candidates: swept.0.candidates.insert(u), ..swept.0 }
    } else {
        swept.0
    }
}

/// Expands the first `count` vertices of the queue, one after the other.
pub open spec fn run_round(
    adj: Seq<Seq<Edge>>,
    bound: u64,
    k: nat,
    sources: Seq<usize>,
    st: Sweep,
    count: int,
) -> Sweep
    decreases count,
{
    if count <= 0 {
        st
    } else {
        expand_front(adj, bound, k, sources, run_round(adj, bound, k, sources, st, count - 1))
    }
}

/// Runs `rounds` rounds; each expands the vertices that were queued when
/// it began.
pub open spec fn run_rounds(
    adj: Seq<Seq<Edge>>,
    bound: u64,
    k: nat,
    sources: Seq<usize>,
    st: Sweep,
    rounds: int,
) -> Sweep
    decreases rounds,
{
    if rounds <= 0 {
        st
    } else {
        let prev = run_rounds(adj, bound, k, sources, st, rounds - 1);
        run_round(adj, bound, k, sources, prev, prev.queue.len() as int)
    }
}

/// The whole search: `k` rounds from the sources whose estimate is below
/// `bound`.
pub open spec fn pivot_search(
    adj: Seq<Seq<Edge>>,
    dist: Seq<u64>,
    bound: u64,
    k: nat,
    sources: Seq<usize>,
) -> Sweep {
    run_rounds(adj, bound, k, sources, seed_sweep(dist, bound, sources, sources.len() as int), k as int)
}

/// The most pivots that a search from `count` sources returns.
pub open spec fn pivot_cap(count: nat, k: nat) -> nat
    recommends
        k >= 1,
{
    if count / k >= 1 {
        count / k
    } else {
        1
    }
}

/// The candidates among the first `upto` sources, in order, until there
/// are `cap` of them.
pub open spec fn chosen_pivots(sources: Seq<usize>, candidates: Set<usize>, cap: nat, upto: int) -> Seq<
    usize,
>
    decreases upto,
{
    if upto <= 0 {
        Seq::empty()
    } else {
        let prev = chosen_pivots(sources, candidates, cap, upto - 1);
        let s = sources[upto - 1];
        if prev.len() < cap && candidates.contains(s) {
            prev.push(s)
        } else {
            prev
        }
    }
}

/// The chosen pivots are at most `cap`, and each is one of the sources
/// looked at and a candidate.
pub proof fn lemma_chosen_pivots(sources: Seq<usize>, candidates: Set<usize>, cap: nat, upto: int)
    requires
        0 <= upto <= sources.len(),
    ensures
        chosen_pivots(sources, candidates, cap, upto).len() <= cap,
        chosen_pivots(sources, candidates, cap, upto).len() <= upto,
        forall|i: int|
            0 <= i < chosen_pivots(sources, candidates, cap, upto).len() ==> {
                let p = #[trigger] chosen_pivots(sources, candidates, cap, upto)[i];
                &&& candidates.contains(p)
                &&& exists|j: int| 0 <= j < upto && sources[j] == p
            },
    decreases upto,
{
    if upto > 0 {
        lemma_chosen_pivots(sources, candidates, cap, upto - 1);
        let prev = chosen_pivots(sources, candidates, cap, upto - 1);
        let cur = chosen_pivots(sources, candidates, cap, upto);
        assert forall|i: int| 0 <= i < cur.len() implies {
            let p = #[trigger] cur[i];
            &&& candidates.contains(p)
            &&& exists|j: int| 0 <= j < upto && sources[j] == p
        } by {
            if i < prev.len() {
                let p = prev[i];
                let j = choose|j: int| 0 <= j < upto - 1 && sources[j] == p;
                assert(0 <= j < upto && sources[j] == p);
            } else {
                assert(sources[upto - 1] == cur[i]);
            }
        }
    }
}

/// Once `cap` pivots are chosen, looking at more sources adds none.
pub proof fn lemma_chosen_pivots_full(
    sources: Seq<usize>,
    candidates: Set<usize>,
    cap: nat,
    upto: int,
    later: int,
)
    requires
        0 <= upto <= later,
        chosen_pivots(sources, candidates, cap, upto).len() >= cap,
    ensures
        chosen_pivots(sources, candidates, cap, later) == chosen_pivots(sources, candidates, cap, upto),
    decreases later - upto,
{
    if later > upto {
        lemma_chosen_pivots_full(sources, candidates, cap, upto, later - 1);
    }
}

/// A round that starts with an empty queue changes nothing, and so do all
/// rounds after it.
pub proof fn lemma_idle_rounds(
    adj: Seq<Seq<Edge>>,
    bound: u64,
    k: nat,
    sources: Seq<usize>,
    st: Sweep,
    rounds: int,
    later: int,
)
    requires
        0 <= rounds <= later,
        run_rounds(adj, bound, k, sources, st, rounds).queue.len() == 0,
    ensures
        run_rounds(adj, bound, k, sources, st, later) == run_rounds(adj, bound, k, sources, st, rounds),
    decreases later - rounds,
{
    if later > rounds {
        lemma_idle_rounds(adj, bound, k, sources, st, rounds, later - 1);
    }
}

/// No source has an estimate below `bound`.
pub open spec fn none_below(dist: Seq<u64>, bound: u64, sources: Seq<usize>) -> bool {
    forall|i: int| 0 <= i < sources.len() ==> dist[(#[trigger] sources[i]) as int] >= bound
}

/// Where no source has an estimate below the bound, the search changes
/// nothing, reaches nothing and marks nothing.
pub proof fn lemma_pivot_search_idle(
    adj: Seq<Seq<Edge>>,
    dist: Seq<u64>,
    bound: u64,
    k: nat,
    sources: Seq<usize>,
)
    requires
        none_below(dist, bound, sources),
    ensures
        pivot_search(adj, dist, bound, k, sources).dist == dist,
        pivot_search(adj, dist, bound, k, sources).reachable.len() == 0,
        forall|cap: nat|
            (#[trigger] chosen_pivots(
                sources,
                pivot_search(adj, dist, bound, k, sources).candidates,
                cap,
                sources.len() as int,
            )).len() == 0,
{
    let seed = seed_sweep(dist, bound, sources, sources.len() as int);
    lemma_seed_idle(dist, bound, sources, sources.len() as int);
    lemma_idle_rounds(adj, bound, k, sources, seed, 0, k as int);
    assert forall|cap: nat|
        (#[trigger] chosen_pivots(sources, seed.candidates, cap, sources.len() as int)).len() == 0 by {
        lemma_chosen_pivots(sources, seed.candidates, cap, sources.len() as int);
        let chosen = chosen_pivots(sources, seed.candidates, cap, sources.len() as int);
        if chosen.len() > 0 {
            assert(seed.candidates.contains(chosen[0]));
        }
    }
}

/// Where none of the first `upto` sources has an estimate below the bound,
/// none is queued.
proof fn lemma_seed_idle(dist: Seq<u64>, bound: u64, sources: Seq<usize>, upto: int)
    requires
        none_below(dist, bound, sources),
        0 <= upto <= sources.len(),
    ensures
        seed_sweep(dist, bound, sources, upto) == seed_sweep(dist, bound, sources, 0),
    decreases upto,
{
    if upto > 0 {
        lemma_seed_idle(dist, bound, sources, upto - 1);
        assert(dist[sources[upto - 1] as int] >= bound);
    }
}

/// The state `st` is what the five containers hold.
pub open spec fn mirrors(
    st: Sweep,
    dist: Seq<u64>,
    visited: Set<usize>,
    queue: Seq<usize>,
    reachable: Seq<usize>,
    candidates: Set<usize>,
) -> bool {
    &&& st.dist == dist
    &&& st.visited == visited
    &&& st.queue == queue
    &&& st.reachable == reachable
    &&& st.candidates == candidates
}

/// Every vertex that `s` names is below `n`.
pub open spec fn all_below(s: Seq<usize>, n: nat) -> bool {
    forall|i: int| 0 <= i < s.len() ==> #[trigger] s[i] < n
}

/// No estimate of `after` is above the one that `before` holds.
pub open spec fn never_above(after: Seq<u64>, before: Seq<u64>) -> bool {
    &&& after.len() == before.len()
    &&& forall|v: int| 0 <= v < after.len() ==> #[trigger] after[v] <= before[v]
}

} // verus!
