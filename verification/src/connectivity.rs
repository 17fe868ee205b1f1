//! Weak connectivity and closeness centrality, both built on the verified
//! breadth-first search of `reach`.

use vstd::prelude::*;

use crate::data::{adj, dadj, edges_wf, EdgeData, NLGraph, NodeData, Ratio};
use crate::reach::{
    bfs_distances, has_walk, lemma_sp_unique, min_dist, reaches, sp,
};

verus! {

/// Every node can be reached from the first node when edge direction is
/// ignored; trivially true with no nodes.
pub open spec fn weakly_connected(g: NLGraph) -> bool {
    forall|v: int|
        0 <= v < g.nodes@.len() ==> reaches(g.edges@, g.nodes@.len() as int, true, 0, v)
}

impl NLGraph {
    /// Whether the graph is weakly connected: one traversal from the first
    /// node over the edges read undirected visits every node. Graphs with
    /// zero or one nodes are trivially connected.
    pub fn is_weakly_connected(&self) -> (r: bool)
        requires
            self.wf(),
        ensures
            r == weakly_connected(*self),
    {
        let n = self.nodes.len();
        if n == 0 {
            return true;
        }
        let dist = bfs_distances(&self.edges, n, true, 0);
        let ghost ed = self.edges@;
        let ghost ni = n as int;
        let mut all = true;
        let mut v: usize = 0;
        while v < n
            invariant
                v <= n,
                dist@.len() == n,
                ed == self.edges@,
                ni == n as int,
                all <==> (forall|u: int| 0 <= u < v ==> dist@[u] is Some),
            decreases n - v,
        {
            if dist[v].is_none() {
                all = false;
            }
            v = v + 1;
        }
        proof {
            if all {
                assert forall|u: int| 0 <= u < n implies reaches(ed, ni, true, 0, u) by {
                    assert(dist@[u] is Some);
                    assert(sp(ed, ni, true, 0, u, dist@[u]->0 as nat));
                    assert(has_walk(ed, ni, true, 0, u, dist@[u]->0 as nat));
                }
            } else {
                let u = choose|u: int| 0 <= u < n && dist@[u] is None;
                assert forall|dd: nat| !has_walk(ed, ni, true, 0, u, dd) by {}
                assert(!reaches(ed, ni, true, 0, u));
            }
        }
        all
    }
}

/// Law: graphs with zero or one nodes are trivially weakly connected.
pub proof fn lemma_small_graphs_connected(g: NLGraph)
    requires
        g.nodes@.len() <= 1,
    ensures
        weakly_connected(g),
{
    assert forall|v: int| 0 <= v < g.nodes@.len() implies reaches(
        g.edges@,
        g.nodes@.len() as int,
        true,
        0,
        v,
    ) by {
        assert(has_walk(g.edges@, g.nodes@.len() as int, true, 0, v, 0));
    }
}

/// `b` lists the same edges as `a` with every direction flipped.
pub open spec fn edges_reversed(a: Seq<EdgeData>, b: Seq<EdgeData>) -> bool {
    &&& a.len() == b.len()
    &&& forall|e: int|
        0 <= e < a.len() ==> (#[trigger] b[e]).source == (#[trigger] a[e]).target && b[e].target
            == a[e].source
}

/// Reversal keeps undirected adjacency.
proof fn lemma_reversed_uadj(a: Seq<EdgeData>, b: Seq<EdgeData>, x: int, y: int)
    requires
        edges_reversed(a, b),
    ensures
        adj(a, true, x, y) == adj(b, true, x, y),
{
    if dadj(a, x, y) {
        let e = choose|e: int| 0 <= e < a.len() && #[trigger] a[e].source == x && a[e].target == y;
        assert(b[e].source == y && b[e].target == x);
    }
    if dadj(a, y, x) {
        let e = choose|e: int| 0 <= e < a.len() && #[trigger] a[e].source == y && a[e].target == x;
        assert(b[e].source == x && b[e].target == y);
    }
    if dadj(b, x, y) {
        let e = choose|e: int| 0 <= e < b.len() && #[trigger] b[e].source == x && b[e].target == y;
        assert(a[e].source == y && a[e].target == x);
    }
    if dadj(b, y, x) {
        let e = choose|e: int| 0 <= e < b.len() && #[trigger] b[e].source == y && b[e].target == x;
        assert(a[e].source == x && a[e].target == y);
    }
}

/// Reversal keeps undirected walks.
proof fn lemma_reversed_walk(a: Seq<EdgeData>, b: Seq<EdgeData>, n: int, x: int, y: int, d: nat)
    requires
        edges_reversed(a, b),
        has_walk(a, n, true, x, y, d),
    ensures
        has_walk(b, n, true, x, y, d),
    decreases d,
{
    if d > 0 {
        let m = choose|m: int|
            0 <= m < n && adj(a, true, x, m) && has_walk(a, n, true, m, y, (d - 1) as nat);
        lemma_reversed_uadj(a, b, x, m);
        lemma_reversed_walk(a, b, n, m, y, (d - 1) as nat);
    }
}

/// Law: weak connectivity is invariant under reversing the direction of
/// every edge.
pub proof fn lemma_weak_connectivity_reversal(g: NLGraph, h: NLGraph)
    requires
        g.nodes@.len() == h.nodes@.len(),
        edges_reversed(g.edges@, h.edges@),
    ensures
        weakly_connected(g) == weakly_connected(h),
{
    let n = g.nodes@.len() as int;
    assert forall|e: int| 0 <= e < h.edges@.len() implies (#[trigger] g.edges@[e]).source == (
    #[trigger] h.edges@[e]).target && g.edges@[e].target == h.edges@[e].source by {}
    assert(edges_reversed(h.edges@, g.edges@));
    if weakly_connected(g) {
        assert forall|v: int| 0 <= v < n implies reaches(h.edges@, n, true, 0, v) by {
            assert(reaches(g.edges@, n, true, 0, v));
            assert(exists|d: nat| has_walk(g.edges@, n, true, 0, v, d));
            let d = choose|d: nat| has_walk(g.edges@, n, true, 0, v, d);
            lemma_reversed_walk(g.edges@, h.edges@, n, 0, v, d);
        }
    }
    if weakly_connected(h) {
        assert forall|v: int| 0 <= v < n implies reaches(g.edges@, n, true, 0, v) by {
            assert(reaches(h.edges@, n, true, 0, v));
            assert(exists|d: nat| has_walk(h.edges@, n, true, 0, v, d));
            let d = choose|d: nat| has_walk(h.edges@, n, true, 0, v, d);
            lemma_reversed_walk(h.edges@, g.edges@, n, 0, v, d);
        }
    }
}

/// `nd` with its closeness field replaced and every other field kept.
pub open spec fn with_closeness(nd: NodeData, c: Ratio) -> NodeData {
    NodeData {
        id: nd.id,
        label: nd.label,
        chrom: nd.chrom,
        ref_start: nd.ref_start,
        ref_end: nd.ref_end,
        strand: nd.strand,
        is_head: nd.is_head,
        indegree: nd.indegree,
        outdegree: nd.outdegree,
        in_degree_centrality: nd.in_degree_centrality,
        out_degree_centrality: nd.out_degree_centrality,
        closeness_centrality: c,
        local_clustering_coefficient: nd.local_clustering_coefficient,
    }
}

/// Sum of the shortest directed distances from `v` to every node below `i`
/// it reaches; unreachable nodes contribute nothing.
pub open spec fn dist_sum(edges: Seq<EdgeData>, n: int, v: int, i: int) -> nat
    decreases i,
{
    if i <= 0 {
        0
    } else {
        dist_sum(edges, n, v, i - 1) + (if reaches(edges, n, false, v, i - 1) {
            min_dist(edges, n, false, v, i - 1)
        } else {
            0
        })
    }
}

/// Closeness centrality of `v`: `(n − 1)` over the sum of shortest directed
/// distances out of `v`, and zero when that sum is zero.
pub open spec fn closeness_spec(edges: Seq<EdgeData>, n: int, v: int) -> Ratio {
    let s = dist_sum(edges, n, v, n);
    if s > 0 {
        Ratio::spec_make((n - 1) as u128, s as u128)
    } else {
        Ratio::spec_zero()
    }
}

impl NLGraph {
    /// Sets every node's closeness centrality: `(node_count − 1)` divided by
    /// the sum of shortest-path distances (unit edge weight) from the node
    /// to every node it reaches along outgoing edges, or zero when that sum
    /// is zero. Precondition re-checked here: on a graph that is not weakly
    /// connected this is a no-op that leaves every attribute untouched.
    pub fn closeness_centrality(&mut self)
        requires
            old(self).wf(),
        ensures
            !weakly_connected(*old(self)) ==> *final (self) == *old(self),
            weakly_connected(*old(self)) ==> {
                &&& final (self).edges@ == old(self).edges@
                &&& final (self).nodes@.len() == old(self).nodes@.len()
                &&& forall|i: int|
                    0 <= i < old(self).nodes@.len() ==> final (self).nodes@[i] == with_closeness(
                        old(self).nodes@[i],
                        closeness_spec(old(self).edges@, old(self).nodes@.len() as int, i),
                    )
            },
    {
        if !self.is_weakly_connected() {
            return ;
        }
        let n = self.nodes.len();
        let mut out: Vec<NodeData> = Vec::with_capacity(n);
        let mut i: usize = 0;
        while i < n
            invariant
                i <= n,
                n == old(self).nodes@.len(),
                self.edges@ == old(self).edges@,
                edges_wf(self.edges@, n as int),
                self.nodes@ == old(self).nodes@.skip(i as int),
                out@.len() == i as int,
                forall|k: int|
                    0 <= k < i ==> out@[k] == with_closeness(
                        old(self).nodes@[k],
                        closeness_spec(old(self).edges@, n as int, k),
                    ),
            decreases n - i,
        {
            let mut nd = self.nodes.remove(0);
            let c = closeness_of(&self.edges, n, i);
            nd.closeness_centrality = c;
            out.push(nd);
            proof {
                assert(old(self).nodes@.skip(i as int).remove(0) =~= old(self).nodes@.skip(
                    i as int + 1,
                ));
            }
            i = i + 1;
        }
        self.nodes = out;
    }
}

/// Computes one node's closeness centrality from a breadth-first pass over
/// the outgoing edges.
fn closeness_of(edges: &Vec<EdgeData>, n: usize, v: usize) -> (r: Ratio)
    requires
        v < n,
        edges_wf(edges@, n as int),
    ensures
        r == closeness_spec(edges@, n as int, v as int),
{
    let ghost ed = edges@;
    let ghost ni = n as int;
    let dist = bfs_distances(edges, n, false, v);
    let mut sum: u128 = 0;
    let mut u: usize = 0;
    proof {
        assert((n as u128) * 0xffffffffffffffffu128 <= 0xffffffffffffffffu128
            * 0xffffffffffffffffu128) by (nonlinear_arith)
            requires
                n as u128 <= 0xffffffffffffffffu128,
        ;
    }
    while u < n
        invariant
            u <= n,
            dist@.len() == n,
            ed == edges@,
            ni == n as int,
            v < n,
            sum == dist_sum(ed, ni, v as int, u as int),
            sum <= (u as u128) * 0xffffffffffffffffu128,
            forall|w: int|
                0 <= w < n && dist@[w] is Some ==> sp(ed, ni, false, v as int, w, dist@[w]->0 as nat),
            forall|w: int, dd: nat|
                0 <= w < n && dist@[w] is None ==> !has_walk(ed, ni, false, v as int, w, dd),
        decreases n - u,
    {
        match dist[u] {
            Some(k) => {
                proof {
                    assert(sp(ed, ni, false, v as int, u as int, k as nat));
                    assert(has_walk(ed, ni, false, v as int, u as int, k as nat));
                    assert(reaches(ed, ni, false, v as int, u as int));
                    let km = min_dist(ed, ni, false, v as int, u as int);
                    assert(sp(ed, ni, false, v as int, u as int, km)) by {
                        assert(sp(ed, ni, false, v as int, u as int, k as nat));
                    }
                    lemma_sp_unique(ed, ni, false, v as int, u as int, km, k as nat);
                    assert(sum + (k as u128) <= (u as u128) * 0xffffffffffffffffu128
                        + 0xffffffffffffffffu128);
                    assert((u as u128) * 0xffffffffffffffffu128 + 0xffffffffffffffffu128 == ((
                    u + 1) as u128) * 0xffffffffffffffffu128) by (nonlinear_arith)
                        requires
                            u < n <= 0xffffffffffffffffu128,
                    ;
                }
                sum = sum + (k as u128);
            },
            None => {
                proof {
                    assert(!reaches(ed, ni, false, v as int, u as int)) by {
                        if reaches(ed, ni, false, v as int, u as int) {
                            let dd = choose|dd: nat| has_walk(ed, ni, false, v as int, u as int, dd);
                            assert(!has_walk(ed, ni, false, v as int, u as int, dd));
                        }
                    }
                    assert((u as u128) * 0xffffffffffffffffu128 <= ((u + 1) as u128)
                        * 0xffffffffffffffffu128) by (nonlinear_arith)
                        requires
                            u < n <= 0xffffffffffffffffu128,
                    ;
                }
            },
        }
        u = u + 1;
    }
    if sum > 0 {
        Ratio::make((n - 1) as u128, sum)
    } else {
        Ratio::zero()
    }
}

} // verus!
