//! Walks in a graph and their lengths: the vocabulary in which the
//! shortest-path contracts are stated.
//!
//! A walk is a sequence of steps; a step `(u, i)` takes edge number `i`
//! of the adjacency list of `u`.

use crate::graph::Edge;
use vstd::prelude::*;

verus! {

/// The step names an edge of the graph.
pub open spec fn step_ok(adj: Seq<Seq<Edge>>, st: (int, int)) -> bool {
    0 <= st.0 < adj.len() && 0 <= st.1 < adj[st.0].len()
}

/// The vertex that the step leads to.
pub open spec fn step_to(adj: Seq<Seq<Edge>>, st: (int, int)) -> int {
    adj[st.0][st.1].to as int
}

/// The weight of the edge that the step takes.
pub open spec fn step_weight(adj: Seq<Seq<Edge>>, st: (int, int)) -> int {
    adj[st.0][st.1].weight as int
}

/// Where the walk `p`, started at `s`, ends.
pub open spec fn walk_end(adj: Seq<Seq<Edge>>, s: int, p: Seq<(int, int)>) -> int {
    if p.len() == 0 {
        s
    } else {
        step_to(adj, p.last())
    }
}

/// `p` is a walk that starts at the vertex `s`: every step names an edge
/// and leaves from where the one before it arrived.
pub open spec fn is_walk(adj: Seq<Seq<Edge>>, s: int, p: Seq<(int, int)>) -> bool
    decreases p.len(),
{
    if p.len() == 0 {
        0 <= s < adj.len()
    } else {
        &&& is_walk(adj, s, p.drop_last())
        &&& step_ok(adj, p.last())
        &&& p.last().0 == walk_end(adj, s, p.drop_last())
    }
}

/// The sum of the weights along `p`.
pub open spec fn walk_len(adj: Seq<Seq<Edge>>, p: Seq<(int, int)>) -> int
    decreases p.len(),
{
    if p.len() == 0 {
        0
    } else {
        walk_len(adj, p.drop_last()) + step_weight(adj, p.last())
    }
}

/// `p` is a walk from `s` to `v`.
pub open spec fn walk_between(adj: Seq<Seq<Edge>>, s: int, p: Seq<(int, int)>, v: int) -> bool {
    is_walk(adj, s, p) && walk_end(adj, s, p) == v
}

/// `d` is the length of a shortest walk from `s` to `v`.
pub open spec fn is_distance(adj: Seq<Seq<Edge>>, s: int, v: int, d: int) -> bool {
    &&& exists|p: Seq<(int, int)>| #[trigger] walk_between(adj, s, p, v) && walk_len(adj, p) == d
    &&& forall|q: Seq<(int, int)>| #[trigger] walk_between(adj, s, q, v) ==> d <= walk_len(adj, q)
}

/// Every walk from `s` to `v`, if there is any, has length at least `limit`.
pub open spec fn farther_than(adj: Seq<Seq<Edge>>, s: int, v: int, limit: int) -> bool {
    forall|q: Seq<(int, int)>| #[trigger] walk_between(adj, s, q, v) ==> limit <= walk_len(adj, q)
}

/// Extending a walk by one edge that leaves from its end gives a walk.
pub proof fn lemma_walk_push(adj: Seq<Seq<Edge>>, s: int, p: Seq<(int, int)>, st: (int, int))
    requires
        is_walk(adj, s, p),
        step_ok(adj, st),
        st.0 == walk_end(adj, s, p),
    ensures
        is_walk(adj, s, p.push(st)),
        walk_end(adj, s, p.push(st)) == step_to(adj, st),
        walk_len(adj, p.push(st)) == walk_len(adj, p) + step_weight(adj, st),
{
    assert(p.push(st).drop_last() =~= p);
}

/// Walk lengths are never negative.
pub proof fn lemma_walk_len_nonneg(adj: Seq<Seq<Edge>>, p: Seq<(int, int)>)
    ensures
        0 <= walk_len(adj, p),
    decreases p.len(),
{
    if p.len() > 0 {
        lemma_walk_len_nonneg(adj, p.drop_last());
    }
}

/// A walk in a graph whose edges stay inside it ends at a vertex.
pub proof fn lemma_walk_end_in_range(adj: Seq<Seq<Edge>>, s: int, p: Seq<(int, int)>)
    requires
        crate::graph::targets_in_range(adj),
        is_walk(adj, s, p),
    ensures
        0 <= walk_end(adj, s, p) < adj.len(),
{
    if p.len() > 0 {
        let st = p.last();
        assert(adj[st.0][st.1].to < adj.len());
    }
}

/// A walk followed by a walk from its end is a walk; the lengths add up.
pub proof fn lemma_walk_concat(adj: Seq<Seq<Edge>>, a: int, q: Seq<(int, int)>, p: Seq<(int, int)>)
    requires
        is_walk(adj, a, q),
        is_walk(adj, walk_end(adj, a, q), p),
    ensures
        is_walk(adj, a, q + p),
        walk_end(adj, a, q + p) == walk_end(adj, walk_end(adj, a, q), p),
        walk_len(adj, q + p) == walk_len(adj, q) + walk_len(adj, p),
    decreases p.len(),
{
    if p.len() == 0 {
        assert(q + p =~= q);
    } else {
        lemma_walk_concat(adj, a, q, p.drop_last());
        assert((q + p).drop_last() =~= q + p.drop_last());
        assert((q + p).last() == p.last());
    }
}

/// Every estimate of `dist` other than `u64::MAX` is the length of a walk
/// from `origin` to its vertex, so none is below the true distance.
pub open spec fn witnessed(adj: Seq<Seq<Edge>>, origin: int, dist: Seq<u64>) -> bool {
    forall|v: int|
        0 <= v < dist.len() && #[trigger] dist[v] != u64::MAX ==> exists|p: Seq<(int, int)>| #[trigger]
            walk_between(adj, origin, p, v) && walk_len(adj, p) == dist[v]
}

/// Whatever origin the estimates of `before` are walk lengths from, those
/// of `after` are walk lengths from it too.
pub open spec fn keeps_witnesses(adj: Seq<Seq<Edge>>, before: Seq<u64>, after: Seq<u64>) -> bool {
    forall|origin: int| #[trigger] witnessed(adj, origin, before) ==> witnessed(adj, origin, after)
}

/// A witnessed estimate, unless it is `u64::MAX`, is at least the
/// shortest distance.
pub proof fn lemma_witnessed_is_upper_bound(
    adj: Seq<Seq<Edge>>,
    origin: int,
    dist: Seq<u64>,
    v: int,
    d: int,
)
    requires
        witnessed(adj, origin, dist),
        0 <= v < dist.len(),
        dist[v] != u64::MAX,
        is_distance(adj, origin, v, d),
    ensures
        d <= dist[v],
{
    let p = choose|p: Seq<(int, int)>| #[trigger]
        walk_between(adj, origin, p, v) && walk_len(adj, p) == dist[v];
    assert(walk_between(adj, origin, p, v));
}

/// Storing at the target of an edge the estimate of its start plus its
/// weight keeps the estimates witnessed.
pub proof fn lemma_edge_keeps_witnesses(adj: Seq<Seq<Edge>>, dist: Seq<u64>, u: int, i: int)
    requires
        dist.len() == adj.len(),
        step_ok(adj, (u, i)),
        0 <= step_to(adj, (u, i)) < adj.len(),
        dist[u] + step_weight(adj, (u, i)) < u64::MAX,
    ensures
        keeps_witnesses(
            adj,
            dist,
            dist.update(step_to(adj, (u, i)), (dist[u] + step_weight(adj, (u, i))) as u64),
        ),
{
    let to = step_to(adj, (u, i));
    let value = (dist[u] + step_weight(adj, (u, i))) as u64;
    let after = dist.update(to, value);
    assert forall|origin: int| #[trigger] witnessed(adj, origin, dist) implies witnessed(
        adj,
        origin,
        after,
    ) by {
        assert forall|v: int| 0 <= v < after.len() && #[trigger] after[v] != u64::MAX implies exists|
            p: Seq<(int, int)>,
        | #[trigger] walk_between(adj, origin, p, v) && walk_len(adj, p) == after[v] by {
            if v == to {
                assert(dist[u] != u64::MAX);
                let q = choose|q: Seq<(int, int)>| #[trigger]
                    walk_between(adj, origin, q, u) && walk_len(adj, q) == dist[u];
                lemma_walk_push(adj, origin, q, (u, i));
                assert(walk_between(adj, origin, q.push((u, i)), v));
            } else {
                assert(dist[v] != u64::MAX);
                let p = choose|p: Seq<(int, int)>| #[trigger]
                    walk_between(adj, origin, p, v) && walk_len(adj, p) == dist[v];
                assert(walk_between(adj, origin, p, v));
            }
        }
    }
}

/// Keeping witnesses twice keeps them.
pub proof fn lemma_keeps_witnesses_trans(adj: Seq<Seq<Edge>>, a: Seq<u64>, b: Seq<u64>, c: Seq<u64>)
    requires
        keeps_witnesses(adj, a, b),
        keeps_witnesses(adj, b, c),
    ensures
        keeps_witnesses(adj, a, c),
{
    assert forall|origin: int| #[trigger] witnessed(adj, origin, a) implies witnessed(adj, origin, c) by {
        assert(witnessed(adj, origin, b));
    }
}

} // verus!
