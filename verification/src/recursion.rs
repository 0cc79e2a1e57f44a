//! The recursive procedure as a function on plain values: which table of
//! estimates it ends with and how deep it nests.

use crate::graph::Edge;
use crate::pivots::{chosen_pivots, never_above, pivot_cap, pivot_search};
use crate::relaxation::{is_bounded_relaxation, offers};
use crate::vertex_set::{lemma_increasing_unique, strictly_increasing};
use vstd::prelude::*;

verus! {

/// The bound of the pivot branch.  For integer distances `d`, `d < bound / 2`
/// over the reals is `d < ceil(bound / 2)`; no bound stays no bound.
pub open spec fn half_bound(bound: u64) -> u64 {
    if bound == u64::MAX {
        u64::MAX
    } else {
        (bound / 2 + bound % 2) as u64
    }
}

/// Computes the bound of the pivot branch.
pub fn halve(bound: u64) -> (r: u64)
    ensures
        r == half_bound(bound),
{
    if bound == u64::MAX {
        bound
    } else {
        bound / 2 + bound % 2
    }
}

/// A distance is below the halved bound exactly if twice the distance is
/// below the bound.
pub proof fn lemma_half_bound(bound: u64, d: int)
    requires
        bound < u64::MAX,
    ensures
        d < half_bound(bound) <==> 2 * d < bound,
{
}

/// A table has at most one bounded relaxation.
pub proof fn lemma_relaxation_unique(
    adj: Seq<Seq<Edge>>,
    before: Seq<u64>,
    s: int,
    bound: u64,
    a: Seq<u64>,
    b: Seq<u64>,
)
    requires
        is_bounded_relaxation(adj, before, s, bound, a),
        is_bounded_relaxation(adj, before, s, bound, b),
    ensures
        a == b,
{
    assert forall|v: int| 0 <= v < a.len() implies a[v] == b[v] by {
        assert(a[v] <= before[v] && b[v] <= before[v]);
        if a[v] != before[v] {
            let p = choose|p: Seq<(int, int)>| offers(adj, before, s, bound, p, v, a[v] as int);
            assert(offers(adj, before, s, bound, p, v, a[v] as int));
        }
        if b[v] != before[v] {
            let p = choose|p: Seq<(int, int)>| offers(adj, before, s, bound, p, v, b[v] as int);
            assert(offers(adj, before, s, bound, p, v, b[v] as int));
        }
    }
    assert(a =~= b);
}

/// The bounded relaxation of `before` from `s`.
pub open spec fn relaxed(adj: Seq<Seq<Edge>>, before: Seq<u64>, s: int, bound: u64) -> Seq<u64> {
    choose|after: Seq<u64>| is_bounded_relaxation(adj, before, s, bound, after)
}

/// The table after bounded relaxations from the first `upto` sources, one
/// after the other.
pub open spec fn relax_each(
    adj: Seq<Seq<Edge>>,
    dist: Seq<u64>,
    sources: Seq<usize>,
    bound: u64,
    upto: int,
) -> Seq<u64>
    decreases upto,
{
    if upto <= 0 {
        dist
    } else {
        relaxed(adj, relax_each(adj, dist, sources, bound, upto - 1), sources[upto - 1] as int, bound)
    }
}

/// `r` holds, in increasing order, the vertices reached that are no pivot
/// and whose estimate is below `bound`.
pub open spec fn is_rest(
    reachable: Seq<usize>,
    pivots: Seq<usize>,
    dist: Seq<u64>,
    bound: u64,
    r: Seq<usize>,
) -> bool {
    &&& strictly_increasing(r)
    &&& forall|v: usize|
        r.contains(v) <==> reachable.contains(v) && !pivots.contains(v) && dist[v as int] < bound
}

/// The frontier of the second branch.
pub open spec fn rest_of(reachable: Seq<usize>, pivots: Seq<usize>, dist: Seq<u64>, bound: u64) -> Seq<
    usize,
> {
    choose|r: Seq<usize>| is_rest(reachable, pivots, dist, bound, r)
}

/// A sequence that is the frontier of the second branch is `rest_of`.
pub proof fn lemma_rest_unique(
    reachable: Seq<usize>,
    pivots: Seq<usize>,
    dist: Seq<u64>,
    bound: u64,
    r: Seq<usize>,
)
    requires
        is_rest(reachable, pivots, dist, bound, r),
    ensures
        r == rest_of(reachable, pivots, dist, bound),
{
    lemma_increasing_unique(r, rest_of(reachable, pivots, dist, bound));
}

/// The outcome of the procedure at `level` on the frontier `sources`: the
/// table it ends with, and the number of levels it went down.
pub open spec fn bmssp_run(
    adj: Seq<Seq<Edge>>,
    k: nat,
    dist: Seq<u64>,
    level: nat,
    bound: u64,
    sources: Seq<usize>,
) -> (Seq<u64>, nat)
    decreases level,
{
    if sources.len() == 0 {
        (dist, 0)
    } else if level == 0 || sources.len() == 1 {
        (relax_each(adj, dist, sources, bound, sources.len() as int), 0)
    } else {
        let end = pivot_search(adj, dist, bound, k, sources);
        let pivots = chosen_pivots(
            sources,
            end.candidates,
            pivot_cap(sources.len(), k),
            sources.len() as int,
        );
        if pivots.len() == 0 {
            (end.dist, 0)
        } else {
            let first = bmssp_run(adj, k, end.dist, (level - 1) as nat, half_bound(bound), pivots);
            let rest = rest_of(end.reachable, pivots, first.0, bound);
            let second = bmssp_run(adj, k, first.0, (level - 1) as nat, bound, rest);
            (
                second.0,
                1 + if first.1 >= second.1 {
                    first.1
                } else {
                    second.1
                },
            )
        }
    }
}

/// The procedure never goes down more levels than it was given.
pub proof fn lemma_depth_within_level(
    adj: Seq<Seq<Edge>>,
    k: nat,
    dist: Seq<u64>,
    level: nat,
    bound: u64,
    sources: Seq<usize>,
)
    ensures
        bmssp_run(adj, k, dist, level, bound, sources).1 <= level,
    decreases level,
{
    if sources.len() == 0 {
    } else if level == 0 || sources.len() == 1 {
    } else {
        let end = pivot_search(adj, dist, bound, k, sources);
        let pivots = chosen_pivots(
            sources,
            end.candidates,
            pivot_cap(sources.len(), k),
            sources.len() as int,
        );
        if pivots.len() > 0 {
            lemma_depth_within_level(adj, k, end.dist, (level - 1) as nat, half_bound(bound), pivots);
            let first = bmssp_run(adj, k, end.dist, (level - 1) as nat, half_bound(bound), pivots);
            let rest = rest_of(end.reachable, pivots, first.0, bound);
            lemma_depth_within_level(adj, k, first.0, (level - 1) as nat, bound, rest);
        }
    }
}

/// Lowering twice lowers.
pub proof fn lemma_never_above_trans(a: Seq<u64>, b: Seq<u64>, c: Seq<u64>)
    requires
        never_above(a, b),
        never_above(b, c),
    ensures
        never_above(a, c),
{
    assert forall|v: int| 0 <= v < a.len() implies #[trigger] a[v] <= c[v] by {
        assert(a[v] <= b[v]);
        assert(b[v] <= c[v]);
    }
}

} // verus!
