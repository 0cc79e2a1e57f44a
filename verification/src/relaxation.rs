//! What a bounded exploration from one vertex does to a table of distance
//! estimates, stated over walks.
//!
//! The exploration starts from the estimate of its source and moves along
//! edges.  It passes through a vertex only by lowering that vertex's
//! estimate, and it never produces a value at or above the bound.

use crate::graph::targets_in_range;
use crate::graph::Edge;
use crate::paths::{
    farther_than, is_distance, is_walk, keeps_witnesses, lemma_walk_len_nonneg, lemma_walk_push,
    step_weight, walk_between, walk_end, walk_len, witnessed,
};
use vstd::multiset::Multiset;
use vstd::prelude::*;

verus! {

/// Every non-empty prefix of the walk `p` from `s`, `p` itself included,
/// arrives with a value that is below `bound` and below the estimate that
/// `dist` holds for the vertex it arrives at.
pub open spec fn improving(
    adj: Seq<Seq<Edge>>,
    dist: Seq<u64>,
    s: int,
    bound: u64,
    p: Seq<(int, int)>,
) -> bool
    decreases p.len(),
{
    p.len() == 0 || {
        &&& improving(adj, dist, s, bound, p.drop_last())
        &&& dist[s] + walk_len(adj, p) < bound
        &&& dist[s] + walk_len(adj, p) < dist[walk_end(adj, s, p)]
    }
}

/// The non-empty walk `p` from `s` offers the value `d` to the vertex `v`:
/// it ends at `v`, every vertex strictly inside it is improved on the way,
/// and `d`, the estimate of `s` plus the length of `p`, is below `bound`.
pub open spec fn offers(
    adj: Seq<Seq<Edge>>,
    dist: Seq<u64>,
    s: int,
    bound: u64,
    p: Seq<(int, int)>,
    v: int,
    d: int,
) -> bool {
    &&& p.len() > 0
    &&& walk_between(adj, s, p, v)
    &&& improving(adj, dist, s, bound, p.drop_last())
    &&& d == dist[s] + walk_len(adj, p)
    &&& d < bound
}

/// `after` is `before` with each estimate lowered to the least value that
/// some walk from `s` offers it, where one is lower.
pub open spec fn is_bounded_relaxation(
    adj: Seq<Seq<Edge>>,
    before: Seq<u64>,
    s: int,
    bound: u64,
    after: Seq<u64>,
) -> bool {
    &&& after.len() == before.len()
    &&& forall|v: int| 0 <= v < after.len() ==> #[trigger] after[v] <= before[v]
    &&& forall|v: int, p: Seq<(int, int)>, d: int| #[trigger]
        offers(adj, before, s, bound, p, v, d) ==> after[v] <= d
    &&& forall|v: int|
        0 <= v < after.len() && #[trigger] after[v] != before[v] ==> exists|p: Seq<(int, int)>| #[trigger]
            offers(adj, before, s, bound, p, v, after[v] as int)
}

/// Edge `i` of `u` cannot lower its target below what `dist` holds.
pub open spec fn edge_relaxed(adj: Seq<Seq<Edge>>, dist: Seq<u64>, bound: u64, u: int, i: int) -> bool {
    dist[u] + adj[u][i].weight < bound ==> dist[adj[u][i].to as int] <= dist[u] + adj[u][i].weight
}

/// The first `limit` edges of `u` are relaxed.
pub open spec fn settled_upto(
    adj: Seq<Seq<Edge>>,
    dist: Seq<u64>,
    bound: u64,
    u: int,
    limit: int,
) -> bool {
    forall|i: int| 0 <= i < limit ==> #[trigger] edge_relaxed(adj, dist, bound, u, i)
}

/// The state of an exploration under way: `dist` is the table, `queue` the
/// pending entries, `done` the vertices expanded, `last` the key most
/// recently taken from the queue, `cur` the vertex being expanded (or -1)
/// and `upto` the number of its edges already looked at.
pub open spec fn exploring(
    adj: Seq<Seq<Edge>>,
    before: Seq<u64>,
    s: usize,
    bound: u64,
    dist: Seq<u64>,
    queue: Multiset<(u64, usize)>,
    done: Set<usize>,
    last: int,
    cur: int,
    upto: int,
) -> bool {
    &&& targets_in_range(adj)
    &&& before.len() == adj.len()
    &&& dist.len() == adj.len()
    &&& s < adj.len()
    &&& dist[s as int] == before[s as int]
    &&& before[s as int] <= last
    &&& forall|v: int| 0 <= v < dist.len() ==> #[trigger] dist[v] <= before[v]
    &&& forall|v: int|
        0 <= v < dist.len() && #[trigger] dist[v] != before[v] ==> exists|p: Seq<(int, int)>| #[trigger]
            offers(adj, before, s as int, bound, p, v, dist[v] as int)
    &&& forall|e: (u64, usize)| #[trigger]
        queue.count(e) > 0 ==> {
            &&& e.1 < adj.len()
            &&& last <= e.0 < bound
            &&& dist[e.1 as int] <= e.0
            &&& (e.1 == s || dist[e.1 as int] != before[e.1 as int])
        }
    &&& forall|u: usize| #[trigger]
        done.contains(u) ==> {
            &&& u < adj.len()
            &&& dist[u as int] <= last
            &&& dist[u as int] < bound
            &&& (u == s || dist[u as int] != before[u as int])
            &&& settled_upto(
                adj,
                dist,
                bound,
                u as int,
                if u == cur {
                    upto
                } else {
                    adj[u as int].len() as int
                },
            )
        }
    &&& forall|v: usize|
        v < adj.len() && !(#[trigger] done.contains(v)) && (dist[v as int] != before[v as int] || (v == s
            && before[s as int] < bound)) ==> queue.count((dist[v as int], v)) > 0
}

/// An exploration starts with the source alone in the queue, if its
/// estimate is below the bound, and with nothing in it otherwise.
pub proof fn lemma_explore_start(
    adj: Seq<Seq<Edge>>,
    before: Seq<u64>,
    s: usize,
    bound: u64,
    queue: Multiset<(u64, usize)>,
)
    requires
        targets_in_range(adj),
        before.len() == adj.len(),
        s < adj.len(),
        queue == if before[s as int] < bound {
            Multiset::<(u64, usize)>::empty().insert((before[s as int], s))
        } else {
            Multiset::<(u64, usize)>::empty()
        },
    ensures
        exploring(
            adj,
            before,
            s,
            bound,
            before,
            queue,
            Set::<usize>::empty(),
            before[s as int] as int,
            -1,
            0,
        ),
{
    broadcast use vstd::multiset::group_multiset_axioms;

    assert forall|e: (u64, usize)| #[trigger] queue.count(e) > 0 implies e == (before[s as int], s) by {}
}

/// Taking a smallest entry `e` out of the queue keeps the exploration
/// sound.  If its vertex was expanded before, nothing else changes.  If
/// not, `e` carries that vertex's current estimate and the vertex becomes
/// the one under expansion.
pub proof fn lemma_explore_pop(
    adj: Seq<Seq<Edge>>,
    before: Seq<u64>,
    s: usize,
    bound: u64,
    dist: Seq<u64>,
    queue: Multiset<(u64, usize)>,
    done: Set<usize>,
    last: int,
    e: (u64, usize),
)
    requires
        exploring(adj, before, s, bound, dist, queue, done, last, -1, 0),
        queue.count(e) > 0,
        forall|x: (u64, usize)| queue.count(x) > 0 ==> e.0 <= x.0,
    ensures
        e.1 < adj.len(),
        e.0 < bound,
        done.contains(e.1) ==> exploring(
            adj,
            before,
            s,
            bound,
            dist,
            queue.remove(e),
            done,
            e.0 as int,
            -1,
            0,
        ),
        !done.contains(e.1) ==> dist[e.1 as int] == e.0 && exploring(
            adj,
            before,
            s,
            bound,
            dist,
            queue.remove(e),
            done.insert(e.1),
            e.0 as int,
            e.1 as int,
            0,
        ),
{
    broadcast use vstd::multiset::group_multiset_axioms;

    let rest = queue.remove(e);
    assert forall|x: (u64, usize)| #[trigger] rest.count(x) > 0 implies queue.count(x) > 0 by {}
    if done.contains(e.1) {
        assert forall|v: usize|
            v < adj.len() && !(#[trigger] done.contains(v)) && (dist[v as int] != before[v as int] || (v
                == s && before[s as int] < bound)) implies rest.count((dist[v as int], v)) > 0 by {
            assert(queue.count((dist[v as int], v)) > 0);
        }
    } else {
        let u = e.1;
        assert(queue.count((dist[u as int], u)) > 0);
        let grown = done.insert(u);
        assert forall|v: usize|
            v < adj.len() && !(#[trigger] grown.contains(v)) && (dist[v as int] != before[v as int] || (v
                == s && before[s as int] < bound)) implies rest.count((dist[v as int], v)) > 0 by {
            assert(!done.contains(v));
            assert(queue.count((dist[v as int], v)) > 0);
        }
        assert forall|x: usize| #[trigger] grown.contains(x) implies {
            &&& x < adj.len()
            &&& dist[x as int] <= e.0
            &&& dist[x as int] < bound
            &&& (x == s || dist[x as int] != before[x as int])
            &&& settled_upto(
                adj,
                dist,
                bound,
                x as int,
                if x == u as int {
                    0
                } else {
                    adj[x as int].len() as int
                },
            )
        } by {
            if x != u {
                assert(done.contains(x));
            }
        }
    }
}

/// Looking at edge `i` of the vertex `u` under expansion: where the edge
/// offers its target a value below the bound and below the target's
/// estimate, storing that value and queueing the target keeps the
/// exploration sound; where it does not, so does leaving everything as
/// it is.
pub proof fn lemma_explore_relax(
    adj: Seq<Seq<Edge>>,
    before: Seq<u64>,
    s: usize,
    bound: u64,
    dist: Seq<u64>,
    queue: Multiset<(u64, usize)>,
    done: Set<usize>,
    u: usize,
    i: int,
)
    requires
        done.contains(u),
        0 <= i < adj[u as int].len(),
        exploring(adj, before, s, bound, dist, queue, done, dist[u as int] as int, u as int, i),
    ensures
        ({
            let to = adj[u as int][i].to;
            let nd = dist[u as int] + adj[u as int][i].weight;
            &&& to < adj.len()
            &&& if nd < bound && nd < dist[to as int] {
                exploring(
                    adj,
                    before,
                    s,
                    bound,
                    dist.update(to as int, nd as u64),
                    queue.insert((nd as u64, to)),
                    done,
                    dist[u as int] as int,
                    u as int,
                    i + 1,
                )
            } else {
                exploring(adj, before, s, bound, dist, queue, done, dist[u as int] as int, u as int, i + 1)
            }
        }),
{
    broadcast use vstd::multiset::group_multiset_axioms;

    let to = adj[u as int][i].to;
    let w = adj[u as int][i].weight;
    let nd = dist[u as int] + w;
    let last = dist[u as int] as int;
    assert(to < adj.len());
    if nd < bound && nd < dist[to as int] {
        let dist2 = dist.update(to as int, nd as u64);
        let queue2 = queue.insert((nd as u64, to));
        assert(to != u);
        assert(to != s);
        assert(!done.contains(to));
        // the walk that offers the new value
        let st = (u as int, i);
        let base: Seq<(int, int)> = if u == s {
            Seq::empty()
        } else {
            choose|p: Seq<(int, int)>|
                offers(adj, before, s as int, bound, p, u as int, dist[u as int] as int)
        };
        assert(is_walk(adj, s as int, base) && walk_end(adj, s as int, base) == u && improving(
            adj,
            before,
            s as int,
            bound,
            base,
        ) && before[s as int] + walk_len(adj, base) == dist[u as int]) by {
            if u != s {
                assert(dist[u as int] != before[u as int]);
            }
        }
        lemma_walk_push(adj, s as int, base, st);
        let ext = base.push(st);
        assert(ext.drop_last() =~= base);
        assert(offers(adj, before, s as int, bound, ext, to as int, nd));
        assert forall|v: int| 0 <= v < dist2.len() && #[trigger] dist2[v] != before[v] implies exists|
            p: Seq<(int, int)>,
        | #[trigger] offers(adj, before, s as int, bound, p, v, dist2[v] as int) by {
            if v == to {
                assert(offers(adj, before, s as int, bound, ext, v, dist2[v] as int));
            } else {
                assert(dist[v] != before[v]);
            }
        }
        assert forall|e: (u64, usize)| #[trigger] queue2.count(e) > 0 implies {
            &&& e.1 < adj.len()
            &&& last <= e.0 < bound
            &&& dist2[e.1 as int] <= e.0
            &&& (e.1 == s || dist2[e.1 as int] != before[e.1 as int])
        } by {
            if e != (nd as u64, to) {
                assert(queue.count(e) > 0);
            }
        }
        assert forall|x: usize| #[trigger] done.contains(x) implies {
            &&& x < adj.len()
            &&& dist2[x as int] <= last
            &&& dist2[x as int] < bound
            &&& (x == s || dist2[x as int] != before[x as int])
            &&& settled_upto(
                adj,
                dist2,
                bound,
                x as int,
                if x == u as int {
                    i + 1
                } else {
                    adj[x as int].len() as int
                },
            )
        } by {
            let limit = if x == u as int {
                i
            } else {
                adj[x as int].len() as int
            };
            assert(settled_upto(adj, dist, bound, x as int, limit));
            assert forall|j: int|
                0 <= j < (if x == u as int {
                    i + 1
                } else {
                    adj[x as int].len() as int
                }) implies #[trigger] edge_relaxed(adj, dist2, bound, x as int, j) by {
                if x == u && j == i {
                } else {
                    assert(edge_relaxed(adj, dist, bound, x as int, j));
                }
            }
        }
        assert forall|v: usize|
            v < adj.len() && !(#[trigger] done.contains(v)) && (dist2[v as int] != before[v as int] || (v
                == s && before[s as int] < bound)) implies queue2.count((dist2[v as int], v)) > 0 by {
            if v != to {
                assert(queue.count((dist[v as int], v)) > 0);
            }
        }
    } else {
        assert forall|x: usize| #[trigger] done.contains(x) implies settled_upto(
            adj,
            dist,
            bound,
            x as int,
            if x == u as int {
                i + 1
            } else {
                adj[x as int].len() as int
            },
        ) by {
            let limit = if x == u as int {
                i
            } else {
                adj[x as int].len() as int
            };
            assert(settled_upto(adj, dist, bound, x as int, limit));
            assert forall|j: int|
                0 <= j < (if x == u as int {
                    i + 1
                } else {
                    adj[x as int].len() as int
                }) implies #[trigger] edge_relaxed(adj, dist, bound, x as int, j) by {
                if x == u && j == i {
                } else {
                    assert(edge_relaxed(adj, dist, bound, x as int, j));
                }
            }
        }
    }
}

/// Once all edges of the vertex under expansion have been looked at, no
/// vertex is under expansion.
pub proof fn lemma_explore_next(
    adj: Seq<Seq<Edge>>,
    before: Seq<u64>,
    s: usize,
    bound: u64,
    dist: Seq<u64>,
    queue: Multiset<(u64, usize)>,
    done: Set<usize>,
    last: int,
    u: usize,
)
    requires
        u < adj.len(),
        exploring(adj, before, s, bound, dist, queue, done, last, u as int, adj[u as int].len() as int),
    ensures
        exploring(adj, before, s, bound, dist, queue, done, last, -1, 0),
{
}

/// With nothing left in the queue, the table is at most the value with
/// which any improving walk arrives.
proof fn lemma_improving_walk_covered(
    adj: Seq<Seq<Edge>>,
    before: Seq<u64>,
    s: usize,
    bound: u64,
    dist: Seq<u64>,
    done: Set<usize>,
    last: int,
    p: Seq<(int, int)>,
)
    requires
        exploring(adj, before, s, bound, dist, Multiset::empty(), done, last, -1, 0),
        is_walk(adj, s as int, p),
        improving(adj, before, s as int, bound, p),
    ensures
        0 <= walk_end(adj, s as int, p) < adj.len(),
        dist[walk_end(adj, s as int, p)] <= before[s as int] + walk_len(adj, p),
    decreases p.len(),
{
    broadcast use vstd::multiset::group_multiset_axioms;

    crate::paths::lemma_walk_end_in_range(adj, s as int, p);
    if p.len() > 0 {
        let q = p.drop_last();
        lemma_improving_walk_covered(adj, before, s, bound, dist, done, last, q);
        lemma_step_covered(adj, before, s, bound, dist, done, last, p);
    }
}

/// With nothing left in the queue, the last edge of a walk whose proper
/// prefixes are improving, and whose value is below the bound, is relaxed.
proof fn lemma_step_covered(
    adj: Seq<Seq<Edge>>,
    before: Seq<u64>,
    s: usize,
    bound: u64,
    dist: Seq<u64>,
    done: Set<usize>,
    last: int,
    p: Seq<(int, int)>,
)
    requires
        exploring(adj, before, s, bound, dist, Multiset::empty(), done, last, -1, 0),
        p.len() > 0,
        is_walk(adj, s as int, p),
        improving(adj, before, s as int, bound, p.drop_last()),
        before[s as int] + walk_len(adj, p) < bound,
        dist[walk_end(adj, s as int, p.drop_last())] <= before[s as int] + walk_len(adj, p.drop_last()),
    ensures
        dist[walk_end(adj, s as int, p)] <= before[s as int] + walk_len(adj, p),
{
    broadcast use vstd::multiset::group_multiset_axioms;

    let q = p.drop_last();
    let st = p.last();
    crate::paths::lemma_walk_end_in_range(adj, s as int, q);
    lemma_walk_len_nonneg(adj, q);
    let x = st.0 as usize;
    assert(x == walk_end(adj, s as int, q));
    assert(done.contains(x)) by {
        if !done.contains(x) {
            if q.len() == 0 {
                assert(x == s);
            } else {
                assert(dist[x as int] != before[x as int]);
            }
            assert(Multiset::<(u64, usize)>::empty().count((dist[x as int], x)) > 0);
        }
    }
    assert(settled_upto(adj, dist, bound, x as int, adj[x as int].len() as int));
    assert(edge_relaxed(adj, dist, bound, x as int, st.1));
}

/// With nothing left in the queue, the table is the bounded relaxation of
/// the table that the exploration started from.
pub proof fn lemma_explore_done(
    adj: Seq<Seq<Edge>>,
    before: Seq<u64>,
    s: usize,
    bound: u64,
    dist: Seq<u64>,
    done: Set<usize>,
    last: int,
)
    requires
        exploring(adj, before, s, bound, dist, Multiset::empty(), done, last, -1, 0),
    ensures
        is_bounded_relaxation(adj, before, s as int, bound, dist),
{
    assert forall|v: int, p: Seq<(int, int)>, d: int| #[trigger]
        offers(adj, before, s as int, bound, p, v, d) implies dist[v] <= d by {
        lemma_improving_walk_covered(adj, before, s, bound, dist, done, last, p.drop_last());
        lemma_step_covered(adj, before, s, bound, dist, done, last, p);
    }
}

/// A bounded relaxation stores only values below the bound, and leaves
/// alone every vertex that no walk from the source reaches below it.
pub proof fn lemma_bound_respected(
    adj: Seq<Seq<Edge>>,
    before: Seq<u64>,
    s: int,
    bound: u64,
    after: Seq<u64>,
)
    requires
        is_bounded_relaxation(adj, before, s, bound, after),
    ensures
        forall|v: int| 0 <= v < before.len() && #[trigger] after[v] != before[v] ==> after[v] < bound,
        forall|v: int|
            0 <= v < before.len() && farther_than(adj, s, v, bound - before[s]) ==> #[trigger] after[v]
                == before[v],
{
    assert forall|v: int| 0 <= v < before.len() && #[trigger] after[v] != before[v] implies after[v]
        < bound && !farther_than(adj, s, v, bound - before[s]) by {
        let p = choose|p: Seq<(int, int)>| offers(adj, before, s, bound, p, v, after[v] as int);
        assert(walk_between(adj, s, p, v));
    }
}

/// A bounded relaxation keeps the estimates witnessed: what it stores is
/// the length of a walk to the source followed by a walk from it.
pub proof fn lemma_relaxation_keeps_witnesses(
    adj: Seq<Seq<Edge>>,
    before: Seq<u64>,
    s: int,
    bound: u64,
    after: Seq<u64>,
)
    requires
        0 <= s < before.len(),
        is_bounded_relaxation(adj, before, s, bound, after),
    ensures
        keeps_witnesses(adj, before, after),
{
    assert forall|origin: int| #[trigger] witnessed(adj, origin, before) implies witnessed(
        adj,
        origin,
        after,
    ) by {
        assert forall|v: int| 0 <= v < after.len() && #[trigger] after[v] != u64::MAX implies exists|
            p: Seq<(int, int)>,
        | #[trigger] walk_between(adj, origin, p, v) && walk_len(adj, p) == after[v] by {
            assert(after[v] <= before[v]);
            if after[v] != before[v] {
                let p = choose|p: Seq<(int, int)>| offers(adj, before, s, bound, p, v, after[v] as int);
                lemma_walk_len_nonneg(adj, p);
                assert(before[s] != u64::MAX);
                let q = choose|q: Seq<(int, int)>| #[trigger]
                    walk_between(adj, origin, q, s) && walk_len(adj, q) == before[s];
                crate::paths::lemma_walk_concat(adj, origin, q, p);
                assert(walk_between(adj, origin, q + p, v));
            } else {
                let p = choose|p: Seq<(int, int)>| #[trigger]
                    walk_between(adj, origin, p, v) && walk_len(adj, p) == before[v];
                assert(walk_between(adj, origin, p, v));
            }
        }
    }
}

/// The table that knows the source alone: zero there, no path elsewhere.
pub open spec fn fresh_table(n: nat, s: int) -> Seq<u64> {
    Seq::new(n, |v: int| if v == s { 0u64 } else { u64::MAX })
}

/// `d` is the length of a shortest walk from `s` to `v` where one shorter
/// than `u64::MAX` exists, and `u64::MAX` where none does.
pub open spec fn is_saturated_distance(adj: Seq<Seq<Edge>>, s: int, v: int, d: u64) -> bool {
    if d == u64::MAX {
        farther_than(adj, s, v, u64::MAX as int)
    } else {
        is_distance(adj, s, v, d as int)
    }
}

/// No estimate but that of `s` is below `bound`.
pub open spec fn alone_below(before: Seq<u64>, s: int, bound: u64) -> bool {
    forall|x: int| 0 <= x < before.len() && x != s ==> #[trigger] before[x] >= bound
}

/// Where the source alone is below the bound, a bounded relaxation ends
/// at or below the value of every walk from the source that stays below
/// the bound.
proof fn lemma_walk_covered(
    adj: Seq<Seq<Edge>>,
    before: Seq<u64>,
    s: int,
    bound: u64,
    after: Seq<u64>,
    p: Seq<(int, int)>,
)
    requires
        targets_in_range(adj),
        before.len() == adj.len(),
        0 <= s < adj.len(),
        alone_below(before, s, bound),
        is_bounded_relaxation(adj, before, s, bound, after),
        is_walk(adj, s, p),
        before[s] + walk_len(adj, p) < bound,
    ensures
        0 <= walk_end(adj, s, p) < adj.len(),
        after[walk_end(adj, s, p)] <= before[s] + walk_len(adj, p),
    decreases p.len(),
{
    crate::paths::lemma_walk_end_in_range(adj, s, p);
    if p.len() == 0 {
        assert(after[s] <= before[s]);
    } else {
        let q = p.drop_last();
        let st = p.last();
        let x = st.0;
        let v = walk_end(adj, s, p);
        lemma_walk_len_nonneg(adj, q);
        lemma_walk_covered(adj, before, s, bound, after, q);
        assert(after[x] <= before[x]);
        if after[x] != before[x] {
            let r = choose|r: Seq<(int, int)>| offers(adj, before, s, bound, r, x, after[x] as int);
            lemma_walk_push(adj, s, r, st);
            let ext = r.push(st);
            assert(ext.drop_last() =~= r);
            assert(improving(adj, before, s, bound, r));
            assert(offers(adj, before, s, bound, ext, v, after[x] + step_weight(adj, st)));
        } else {
            assert(x == s) by {
                if x != s {
                    assert(before[x] >= bound);
                }
            }
            let none = Seq::<(int, int)>::empty();
            lemma_walk_push(adj, s, none, st);
            let ext = none.push(st);
            assert(ext.drop_last() =~= none);
            assert(offers(adj, before, s, bound, ext, v, before[s] + step_weight(adj, st)));
        }
    }
}

/// Where the source alone is below the bound, a bounded relaxation is
/// exact inside the bound: a vertex at distance `d` from the source, with
/// the source's estimate plus `d` below the bound, ends with that sum.
pub proof fn lemma_relaxation_exact_within_bound(
    adj: Seq<Seq<Edge>>,
    before: Seq<u64>,
    s: int,
    bound: u64,
    after: Seq<u64>,
    v: int,
    d: int,
)
    requires
        targets_in_range(adj),
        before.len() == adj.len(),
        0 <= s < adj.len(),
        0 <= v < adj.len(),
        alone_below(before, s, bound),
        is_bounded_relaxation(adj, before, s, bound, after),
        is_distance(adj, s, v, d),
        before[s] + d < bound,
    ensures
        after[v] == before[s] + d,
{
    let p = choose|p: Seq<(int, int)>| #[trigger] walk_between(adj, s, p, v) && walk_len(adj, p) == d;
    lemma_walk_covered(adj, before, s, bound, after, p);
    assert(after[v] <= before[v]);
    if after[v] != before[v] {
        let r = choose|r: Seq<(int, int)>| offers(adj, before, s, bound, r, v, after[v] as int);
        assert(walk_between(adj, s, r, v));
    } else if v != s {
        assert(before[v] >= bound);
    } else {
        let none = Seq::<(int, int)>::empty();
        assert(walk_between(adj, s, none, s));
    }
}

/// An unbounded exploration of the fresh table yields, for every vertex,
/// its shortest distance from the source.
pub proof fn lemma_fresh_relaxation_is_shortest(adj: Seq<Seq<Edge>>, s: int, after: Seq<u64>)
    requires
        targets_in_range(adj),
        0 <= s < adj.len(),
        is_bounded_relaxation(adj, fresh_table(adj.len(), s), s, u64::MAX, after),
    ensures
        forall|v: int| 0 <= v < adj.len() ==> is_saturated_distance(adj, s, v, #[trigger] after[v]),
{
    let fresh = fresh_table(adj.len(), s);
    assert forall|v: int| 0 <= v < adj.len() implies is_saturated_distance(
        adj,
        s,
        v,
        #[trigger] after[v],
    ) by {
        assert forall|q: Seq<(int, int)>| #[trigger]
            walk_between(adj, s, q, v) && walk_len(adj, q) < u64::MAX implies after[v] <= walk_len(
            adj,
            q,
        ) by {
            lemma_walk_covered(adj, fresh, s, u64::MAX, after, q);
        }
        if after[v] != u64::MAX {
            assert(after[v] <= fresh[v]);
            if after[v] != fresh[v] {
                let r = choose|r: Seq<(int, int)>| offers(adj, fresh, s, u64::MAX, r, v, after[v] as int);
                assert(walk_between(adj, s, r, v) && walk_len(adj, r) == after[v]);
            } else {
                let none = Seq::<(int, int)>::empty();
                assert(walk_between(adj, s, none, v) && walk_len(adj, none) == after[v]);
            }
        }
    }
}

} // verus!
