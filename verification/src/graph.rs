//! Directed weighted graphs in adjacency-list form.
//!
//! Vertices are the dense indices `0..n`.  Weights and distances are
//! unsigned 64-bit integers; `INFINITY` stands for "no path".

use rand::Rng;
use vstd::prelude::*;

verus! {

/// The distance of a vertex that no path reaches.
pub const INFINITY: u64 = u64::MAX;

/// An outgoing edge: its target and its weight.
#[derive(Debug, Clone, Copy)]
pub struct Edge {
    pub to: usize,
    pub weight: u64,
}

/// A directed graph on the vertices `0..n`.
#[derive(Debug, Clone)]
pub struct Graph {
    pub n: usize,
    pub edges: Vec<Vec<Edge>>,
}

/// Every edge of `adj` leads to a vertex of `adj`.
pub open spec fn targets_in_range(adj: Seq<Seq<Edge>>) -> bool {
    forall|u: int, i: int|
        0 <= u < adj.len() && 0 <= i < adj[u].len() ==> (#[trigger] adj[u][i]).to < adj.len()
}

/// The number of edges in the first `upto` adjacency lists.
pub open spec fn edges_before(adj: Seq<Seq<Edge>>, upto: int) -> nat
    decreases upto,
{
    if upto <= 0 {
        0
    } else {
        edges_before(adj, upto - 1) + adj[upto - 1].len()
    }
}

/// The count of edges grows with the number of lists counted.
pub proof fn lemma_edges_before_monotone(adj: Seq<Seq<Edge>>, a: int, b: int)
    requires
        a <= b,
    ensures
        edges_before(adj, a) <= edges_before(adj, b),
    decreases b - a,
{
    if a < b {
        lemma_edges_before_monotone(adj, a, b - 1);
    }
}

/// The targets of `list` go up strictly, none of them is `u`, and every
/// weight is below `max_weight`, or zero where that is zero.
pub open spec fn drawn_list(list: Seq<Edge>, u: int, max_weight: u64) -> bool {
    &&& forall|i: int, j: int| 0 <= i < j < list.len() ==> list[i].to < list[j].to
    &&& forall|i: int| 0 <= i < list.len() ==> (#[trigger] list[i]).to != u
    &&& forall|i: int|
        0 <= i < list.len() ==> (#[trigger] list[i]).weight < max_weight || (max_weight == 0
            && list[i].weight == 0)
}

/// A number below `limit`, drawn by `rand::Rng::gen_range` on the range
/// `0..limit` from the thread-local generator `rand::thread_rng()`.
///
/// `gen_range` panics on an empty range, which `limit > 0` rules out.  The
/// generator takes its seed from the operating system, when a thread
/// first uses it and again at each reseed, and panics if that source
/// cannot be read; no input can rule that out.  All that is claimed of the
/// number is that it lies in the range; nothing is proved of it.
#[verifier::external_body]
fn random_below(limit: u64) -> (r: u64)
    requires
        limit > 0,
    ensures
        r < limit,
{
    rand::thread_rng().gen_range(0..limit)
}

/// Whether the ordered pair `(i, j)` gets an edge when `draw` is the
/// number drawn for it: never for `i == j`, and otherwise where the draw
/// is below the density.
pub fn keeps_edge(i: usize, j: usize, draw: u64, density_ppm: u32) -> (b: bool)
    requires
        draw < 1_000_000,
    ensures
        b == (i != j && draw < density_ppm as u64),
{
    i != j && draw < density_ppm as u64
}

impl View for Graph {
    type V = Seq<Seq<Edge>>;

    /// The adjacency lists, one sequence of edges per vertex.
    open spec fn view(&self) -> Seq<Seq<Edge>> {
        Seq::new(self.edges@.len(), |u: int| self.edges@[u]@)
    }
}

impl Graph {
    /// `n` matches the adjacency lists and every edge stays inside the graph.
    pub open spec fn wf(&self) -> bool {
        &&& self.n == self.edges@.len()
        &&& targets_in_range(self@)
    }

    /// The total number of edges.
    pub open spec fn edge_count(&self) -> nat {
        edges_before(self@, self@.len() as int)
    }

    /// A graph with `n` vertices and no edges.
    pub fn new(n: usize) -> (g: Graph)
        ensures
            g.wf(),
            g.n == n,
            g@.len() == n,
            forall|u: int| 0 <= u < n ==> (#[trigger] g@[u]).len() == 0,
    {
        let mut edges: Vec<Vec<Edge>> = Vec::new();
        let mut i: usize = 0;
        while i < n
            invariant
                i <= n,
                edges@.len() == i,
                forall|u: int| 0 <= u < i ==> (#[trigger] edges@[u])@.len() == 0,
            decreases n - i,
        {
            edges.push(Vec::new());
            i += 1;
        }
        Graph { n, edges }
    }

    /// Appends the edge `from -> to` to the adjacency list of `from`.
    pub fn add_edge(&mut self, from: usize, to: usize, weight: u64)
        requires
            from < old(self)@.len(),
        ensures
            final(self).n == old(self).n,
            final(self)@ == old(self)@.update(
                from as int,
                old(self)@[from as int].push(Edge { to, weight }),
            ),
            old(self).wf() && to < old(self).n ==> final(self).wf(),
    {
        self.edges[from].push(Edge { to, weight });
        proof {
            let before = old(self)@;
            let after = self@;
            assert(after =~= before.update(from as int, before[from as int].push(Edge { to, weight })));
            if old(self).wf() && to < old(self).n {
                assert forall|u: int, i: int|
                    0 <= u < after.len() && 0 <= i < after[u].len() implies (#[trigger] after[u][i]).to
                    < after.len() by {
                    if u == from && i == before[u].len() {
                    } else {
                        assert(after[u][i] == before[u][i]);
                    }
                }
            }
        }
    }

    /// Whether the graph is well formed.
    pub fn is_valid(&self) -> (r: bool)
        ensures
            r == self.wf(),
    {
        if self.edges.len() != self.n {
            return false;
        }
        let ghost adj = self@;
        let mut u: usize = 0;
        while u < self.edges.len()
            invariant
                u <= self.edges@.len(),
                self.n == self.edges@.len(),
                adj == self@,
                forall|x: int, i: int|
                    0 <= x < u && 0 <= i < adj[x].len() ==> (#[trigger] adj[x][i]).to < adj.len(),
            decreases self.edges@.len() - u,
        {
            let mut i: usize = 0;
            while i < self.edges[u].len()
                invariant
                    u < self.edges@.len(),
                    self.n == self.edges@.len(),
                    adj == self@,
                    i <= adj[u as int].len(),
                    forall|q: int| 0 <= q < i ==> (#[trigger] adj[u as int][q]).to < adj.len(),
                decreases adj[u as int].len() - i,
            {
                if self.edges[u][i].to >= self.n {
                    proof {
                        assert(adj[u as int][i as int].to >= adj.len());
                    }
                    return false;
                }
                i += 1;
            }
            u += 1;
        }
        true
    }

    /// The number of edges.
    pub fn m(&self) -> (r: usize)
        requires
            self.edge_count() <= usize::MAX,
        ensures
            r == self.edge_count(),
    {
        let mut total: usize = 0;
        let mut u: usize = 0;
        while u < self.edges.len()
            invariant
                u <= self.edges@.len(),
                total == edges_before(self@, u as int),
                self.edge_count() <= usize::MAX,
            decreases self.edges@.len() - u,
        {
            proof {
                lemma_edges_before_monotone(self@, u + 1, self@.len() as int);
            }
            total += self.edges[u].len();
            u += 1;
        }
        total
    }

    /// A random graph on `n` vertices.  Each ordered pair of distinct
    /// vertices gets an edge with probability `density_ppm` in a million,
    /// with a weight drawn below `max_weight`.
    pub fn generate_random(n: usize, density_ppm: u32, max_weight: u64) -> (g: Graph)
        ensures
            g.wf(),
            g.n == n,
            forall|u: int| 0 <= u < n ==> drawn_list(#[trigger] g@[u], u, max_weight),
            density_ppm == 0 ==> forall|u: int| 0 <= u < n ==> (#[trigger] g@[u]).len() == 0,
            density_ppm >= 1_000_000 ==> forall|u: int| 0 <= u < n ==> (#[trigger] g@[u]).len() == n - 1,
    {
        let mut edges: Vec<Vec<Edge>> = Vec::new();
        let mut i: usize = 0;
        while i < n
            invariant
                i <= n,
                edges@.len() == i,
                forall|u: int|
                    0 <= u < i ==> {
                        &&& drawn_list((#[trigger] edges@[u])@, u, max_weight)
                        &&& forall|q: int| 0 <= q < edges@[u]@.len() ==> (#[trigger] edges@[u]@[q]).to < n
                        &&& density_ppm == 0 ==> edges@[u]@.len() == 0
                        &&& density_ppm >= 1_000_000 ==> edges@[u]@.len() == n - 1
                    },
            decreases n - i,
        {
            let mut list: Vec<Edge> = Vec::new();
            let mut j: usize = 0;
            while j < n
                invariant
                    j <= n,
                    i < n,
                    drawn_list(list@, i as int, max_weight),
                    forall|q: int| 0 <= q < list@.len() ==> (#[trigger] list@[q]).to < j,
                    density_ppm == 0 ==> list@.len() == 0,
                    density_ppm >= 1_000_000 ==> list@.len() == if j <= i {
                        j as int
                    } else {
                        j - 1
                    },
                decreases n - j,
            {
                if i != j && keeps_edge(i, j, random_below(1_000_000), density_ppm) {
                    let weight = if max_weight == 0 {
                        0
                    } else {
                        random_below(max_weight)
                    };
                    list.push(Edge { to: j, weight });
                }
                j += 1;
            }
            edges.push(list);
            i += 1;
        }
        let g = Graph { n, edges };
        proof {
            assert forall|u: int, q: int| 0 <= u < g@.len() && 0 <= q < g@[u].len() implies (
            #[trigger] g@[u][q]).to < g@.len() by {
                assert(edges@[u]@[q].to < n);
            }
        }
        g
    }
}

} // verus!
