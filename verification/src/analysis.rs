//! Analysis passes over a loaded graph. Each pass rewrites one group of
//! computed node attributes and leaves everything else — the structure and
//! the other attributes — untouched.

use vstd::prelude::*;

use crate::data::{
    count_in, count_out, dadj, edges_wf, indegree_of, outdegree_of, EdgeData, NLGraph, NodeData,
    Ratio,
};

verus! {

/// `nd` with its two degree fields replaced and every other field kept.
pub open spec fn with_degrees(nd: NodeData, ind: usize, outd: usize) -> NodeData {
    NodeData {
        id: nd.id,
        label: nd.label,
        chrom: nd.chrom,
        ref_start: nd.ref_start,
        ref_end: nd.ref_end,
        strand: nd.strand,
        is_head: nd.is_head,
        indegree: ind,
        outdegree: outd,
        in_degree_centrality: nd.in_degree_centrality,
        out_degree_centrality: nd.out_degree_centrality,
        closeness_centrality: nd.closeness_centrality,
        local_clustering_coefficient: nd.local_clustering_coefficient,
    }
}

/// Among the first `k` edges, at most `k` end at any one node.
pub proof fn lemma_count_in_le(edges: Seq<EdgeData>, v: int, k: int)
    requires
        0 <= k,
    ensures
        count_in(edges, v, k) <= k,
    decreases k,
{
    if k > 0 {
        lemma_count_in_le(edges, v, k - 1);
    }
}

/// Among the first `k` edges, at most `k` start at any one node.
pub proof fn lemma_count_out_le(edges: Seq<EdgeData>, v: int, k: int)
    requires
        0 <= k,
    ensures
        count_out(edges, v, k) <= k,
    decreases k,
{
    if k > 0 {
        lemma_count_out_le(edges, v, k - 1);
    }
}

/// Counts the edges among `edges` whose target is `v`.
pub(crate) fn count_in_exec(edges: &Vec<EdgeData>, v: usize) -> (c: usize)
    ensures
        c == indegree_of(edges@, v as int),
{
    let mut c: usize = 0;
    let mut e: usize = 0;
    while e < edges.len()
        invariant
            e <= edges.len(),
            c == count_in(edges@, v as int, e as int),
            c <= e,
        decreases edges.len() - e,
    {
        if edges[e].target == v {
            c = c + 1;
        }
        e = e + 1;
    }
    c
}

/// Counts the edges among `edges` whose source is `v`.
fn count_out_exec(edges: &Vec<EdgeData>, v: usize) -> (c: usize)
    ensures
        c == outdegree_of(edges@, v as int),
{
    let mut c: usize = 0;
    let mut e: usize = 0;
    while e < edges.len()
        invariant
            e <= edges.len(),
            c == count_out(edges@, v as int, e as int),
            c <= e,
        decreases edges.len() - e,
    {
        if edges[e].source == v {
            c = c + 1;
        }
        e = e + 1;
    }
    c
}

impl NLGraph {
    /// Sets every node's `indegree` and `outdegree` to its number of
    /// incoming and outgoing edges, counting parallel edges individually.
    /// No other attribute and no structure changes.
    pub fn node_degree(&mut self)
        ensures
            final (self).edges@ == old(self).edges@,
            final (self).nodes@.len() == old(self).nodes@.len(),
            forall|i: int|
                0 <= i < old(self).nodes@.len() ==> final (self).nodes@[i] == with_degrees(
                    old(self).nodes@[i],
                    indegree_of(old(self).edges@, i) as usize,
                    outdegree_of(old(self).edges@, i) as usize,
                ),
    {
        let n = self.nodes.len();
        let mut out: Vec<NodeData> = Vec::with_capacity(n);
        let mut i: usize = 0;
        while i < n
            invariant
                i <= n,
                n == old(self).nodes@.len(),
                self.edges@ == old(self).edges@,
                self.nodes@ == old(self).nodes@.skip(i as int),
                out@.len() == i as int,
                forall|k: int|
                    0 <= k < i ==> out@[k] == with_degrees(
                        old(self).nodes@[k],
                        indegree_of(old(self).edges@, k) as usize,
                        outdegree_of(old(self).edges@, k) as usize,
                    ),
            decreases n - i,
        {
            let mut nd = self.nodes.remove(0);
            let ind = count_in_exec(&self.edges, i);
            let outd = count_out_exec(&self.edges, i);
            proof {
                lemma_count_in_le(self.edges@, i as int, self.edges@.len() as int);
                lemma_count_out_le(self.edges@, i as int, self.edges@.len() as int);
            }
            nd.indegree = ind;
            nd.outdegree = outd;
            out.push(nd);
            proof {
                assert(old(self).nodes@.skip(i as int).remove(0) =~= old(self).nodes@.skip(
                    i as int + 1,
                ));
            }
            i = i + 1;
        }
        self.nodes = out;
    }
}

/// `nd` with its two degree-centrality fields replaced and every other
/// field kept.
pub open spec fn with_degree_centralities(nd: NodeData, inc: Ratio, outc: Ratio) -> NodeData {
    NodeData {
        id: nd.id,
        label: nd.label,
        chrom: nd.chrom,
        ref_start: nd.ref_start,
        ref_end: nd.ref_end,
        strand: nd.strand,
        is_head: nd.is_head,
        indegree: nd.indegree,
        outdegree: nd.outdegree,
        in_degree_centrality: inc,
        out_degree_centrality: outc,
        closeness_centrality: nd.closeness_centrality,
        local_clustering_coefficient: nd.local_clustering_coefficient,
    }
}

/// The graph-level density: zero below two nodes, otherwise
/// `2·E / (N·(N−1))`.
pub open spec fn density_spec(g: NLGraph) -> Ratio {
    let n = g.nodes@.len() as int;
    let m = g.edges@.len() as int;
    if n < 2 {
        Ratio::spec_zero()
    } else {
        Ratio::spec_make((2 * m) as u128, (n * (n - 1)) as u128)
    }
}

/// In-degree centrality of `v` in a graph of `n` nodes: the indegree over
/// the normalization `n − 1`, and zero when the normalization is zero.
pub open spec fn in_centrality_spec(edges: Seq<EdgeData>, n: int, v: int) -> Ratio {
    if n < 2 {
        Ratio::spec_zero()
    } else {
        Ratio::spec_make(indegree_of(edges, v) as u128, (n - 1) as u128)
    }
}

/// Out-degree centrality of `v`, normalized like `in_centrality_spec`.
pub open spec fn out_centrality_spec(edges: Seq<EdgeData>, n: int, v: int) -> Ratio {
    if n < 2 {
        Ratio::spec_zero()
    } else {
        Ratio::spec_make(outdegree_of(edges, v) as u128, (n - 1) as u128)
    }
}

impl NLGraph {
    /// The graph-level density `2·E / (N·(N−1))`, and zero when fewer than
    /// two nodes exist, so the metric is defined on every graph.
    pub fn density(&self) -> (r: Ratio)
        ensures
            r == density_spec(*self),
    {
        let n = self.nodes.len();
        let m = self.edges.len();
        if n < 2 {
            Ratio::zero()
        } else {
            let num: u128 = 2u128 * (m as u128);
            let n128: u128 = n as u128;
            proof {
                assert(n128 * (n128 - 1) <= 0xffffffffffffffffu128 * (0xffffffffffffffffu128 - 1))
                    by (nonlinear_arith)
                    requires
                        2 <= n128 <= 0xffffffffffffffffu128,
                ;
            }
            let den: u128 = n128 * (n128 - 1);
            Ratio::make(num, den)
        }
    }

    /// Sets every node's in- and out-degree centrality: its degree divided
    /// by `node_count − 1`, or zero on a single-node graph rather than a
    /// division by zero. No other attribute and no structure changes.
    pub fn degree_centrality(&mut self)
        ensures
            final (self).edges@ == old(self).edges@,
            final (self).nodes@.len() == old(self).nodes@.len(),
            forall|i: int|
                0 <= i < old(self).nodes@.len() ==> final (self).nodes@[i]
                    == with_degree_centralities(
                    old(self).nodes@[i],
                    in_centrality_spec(old(self).edges@, old(self).nodes@.len() as int, i),
                    out_centrality_spec(old(self).edges@, old(self).nodes@.len() as int, i),
                ),
    {
        let n = self.nodes.len();
        let mut out: Vec<NodeData> = Vec::with_capacity(n);
        let mut i: usize = 0;
        while i < n
            invariant
                i <= n,
                n == old(self).nodes@.len(),
                self.edges@ == old(self).edges@,
                self.nodes@ == old(self).nodes@.skip(i as int),
                out@.len() == i as int,
                forall|k: int|
                    0 <= k < i ==> out@[k] == with_degree_centralities(
                        old(self).nodes@[k],
                        in_centrality_spec(old(self).edges@, n as int, k),
                        out_centrality_spec(old(self).edges@, n as int, k),
                    ),
            decreases n - i,
        {
            let mut nd = self.nodes.remove(0);
            let (inc, outc) = if n < 2 {
                (Ratio::zero(), Ratio::zero())
            } else {
                let ind = count_in_exec(&self.edges, i);
                let outd = count_out_exec(&self.edges, i);
                proof {
                    lemma_count_in_le(self.edges@, i as int, self.edges@.len() as int);
                    lemma_count_out_le(self.edges@, i as int, self.edges@.len() as int);
                }
                (
                    Ratio::make(ind as u128, (n - 1) as u128),
                    Ratio::make(outd as u128, (n - 1) as u128),
                )
            };
            nd.in_degree_centrality = inc;
            nd.out_degree_centrality = outc;
            out.push(nd);
            proof {
                assert(old(self).nodes@.skip(i as int).remove(0) =~= old(self).nodes@.skip(
                    i as int + 1,
                ));
            }
            i = i + 1;
        }
        self.nodes = out;
    }
}

/// `nd` with its clustering field replaced and every other field kept.
pub open spec fn with_clustering(nd: NodeData, c: Ratio) -> NodeData {
    NodeData {
        id: nd.id,
        label: nd.label,
        chrom: nd.chrom,
        ref_start: nd.ref_start,
        ref_end: nd.ref_end,
        strand: nd.strand,
        is_head: nd.is_head,
        indegree: nd.indegree,
        outdegree: nd.outdegree,
        in_degree_centrality: nd.in_degree_centrality,
        out_degree_centrality: nd.out_degree_centrality,
        closeness_centrality: nd.closeness_centrality,
        local_clustering_coefficient: c,
    }
}

/// How many nodes below `i` are distinct direct successors of `v`.
pub open spec fn succ_count(edges: Seq<EdgeData>, v: int, i: int) -> nat
    decreases i,
{
    if i <= 0 {
        0
    } else {
        succ_count(edges, v, i - 1) + (if dadj(edges, v, i - 1) {
            1nat
        } else {
            0nat
        })
    }
}

/// How many nodes below `i` are distinct direct predecessors of `v`.
pub open spec fn pred_count(edges: Seq<EdgeData>, v: int, i: int) -> nat
    decreases i,
{
    if i <= 0 {
        0
    } else {
        pred_count(edges, v, i - 1) + (if dadj(edges, i - 1, v) {
            1nat
        } else {
            0nat
        })
    }
}

/// How many successors of `v` below `j` the predecessor `p` points to.
pub open spec fn pair_row(edges: Seq<EdgeData>, v: int, p: int, j: int) -> nat
    decreases j,
{
    if j <= 0 {
        0
    } else {
        pair_row(edges, v, p, j - 1) + (if dadj(edges, v, j - 1) && dadj(edges, p, j - 1) {
            1nat
        } else {
            0nat
        })
    }
}

/// Over predecessors of `v` below `i`: how many ordered predecessor ×
/// successor pairs (p, s) with nodes below `n` carry an edge p → s.
pub open spec fn pair_count(edges: Seq<EdgeData>, v: int, i: int, n: int) -> nat
    decreases i,
{
    if i <= 0 {
        0
    } else {
        pair_count(edges, v, i - 1, n) + (if dadj(edges, i - 1, v) {
            pair_row(edges, v, i - 1, n)
        } else {
            0nat
        })
    }
}

/// Local clustering coefficient of `v`: connected predecessor × successor
/// pairs over all such pairs, zero when either set is empty.
pub open spec fn clustering_spec(edges: Seq<EdgeData>, n: int, v: int) -> Ratio {
    let s = succ_count(edges, v, n);
    let p = pred_count(edges, v, n);
    if s > 0 && p > 0 {
        Ratio::spec_make(pair_count(edges, v, n, n) as u128, (s * p) as u128)
    } else {
        Ratio::spec_zero()
    }
}

/// A row counts at most `j` pairs.
proof fn lemma_pair_row_le(edges: Seq<EdgeData>, v: int, p: int, j: int)
    requires
        j >= 0,
    ensures
        pair_row(edges, v, p, j) <= j,
    decreases j,
{
    if j > 0 {
        lemma_pair_row_le(edges, v, p, j - 1);
    }
}

/// The pair count over `i` predecessors and `n` successor slots stays below
/// `i · n`.
proof fn lemma_pair_count_le(edges: Seq<EdgeData>, v: int, i: int, n: int)
    requires
        i >= 0,
        n >= 0,
    ensures
        pair_count(edges, v, i, n) <= i * n,
    decreases i,
{
    if i > 0 {
        lemma_pair_count_le(edges, v, i - 1, n);
        lemma_pair_row_le(edges, v, i - 1, n);
        assert((i - 1) * n + n == i * n) by (nonlinear_arith);
    }
}

/// Whether the edge list carries an edge from `a` to `b`.
fn dadj_exec(edges: &Vec<EdgeData>, a: usize, b: usize) -> (r: bool)
    ensures
        r == dadj(edges@, a as int, b as int),
{
    let mut e: usize = 0;
    while e < edges.len()
        invariant
            e <= edges.len(),
            forall|e2: int|
                0 <= e2 < e ==> !((#[trigger] edges@[e2]).source == a as int && edges@[e2].target
                    == b as int),
        decreases edges.len() - e,
    {
        if edges[e].source == a && edges[e].target == b {
            return true;
        }
        e = e + 1;
    }
    false
}

/// Counts the distinct successors (`preds` unset) or predecessors (`preds`
/// set) of `v` among the nodes below `n`.
fn memb_count_exec(edges: &Vec<EdgeData>, n: usize, v: usize, preds: bool) -> (c: usize)
    ensures
        !preds ==> c == succ_count(edges@, v as int, n as int),
        preds ==> c == pred_count(edges@, v as int, n as int),
{
    let mut c: usize = 0;
    let mut x: usize = 0;
    while x < n
        invariant
            x <= n,
            c <= x,
            !preds ==> c == succ_count(edges@, v as int, x as int),
            preds ==> c == pred_count(edges@, v as int, x as int),
        decreases n - x,
    {
        let hit = if preds {
            dadj_exec(edges, x, v)
        } else {
            dadj_exec(edges, v, x)
        };
        if hit {
            c = c + 1;
        }
        x = x + 1;
    }
    c
}

/// Computes one node's local clustering coefficient by scanning all ordered
/// predecessor × successor pairs.
fn clustering_of(edges: &Vec<EdgeData>, n: usize, v: usize) -> (r: Ratio)
    ensures
        r == clustering_spec(edges@, n as int, v as int),
{
    let s = memb_count_exec(edges, n, v, false);
    let p = memb_count_exec(edges, n, v, true);
    if s == 0 || p == 0 {
        return Ratio::zero();
    }
    let mut c: u128 = 0;
    let mut i: usize = 0;
    proof {
        lemma_pair_count_le(edges@, v as int, 0, n as int);
    }
    while i < n
        invariant
            i <= n,
            c == pair_count(edges@, v as int, i as int, n as int),
            c <= (i as u128) * (n as u128),
        decreases n - i,
    {
        if dadj_exec(edges, i, v) {
            let mut row: u128 = 0;
            let mut y: usize = 0;
            while y < n
                invariant
                    y <= n,
                    row == pair_row(edges@, v as int, i as int, y as int),
                    row <= y as u128,
                decreases n - y,
            {
                if dadj_exec(edges, v, y) && dadj_exec(edges, i, y) {
                    row = row + 1;
                }
                y = y + 1;
            }
            proof {
                assert((i as u128) * (n as u128) + (n as u128) == ((i + 1) as u128) * (n as u128))
                    by (nonlinear_arith)
                    requires
                        i < n <= 0xffffffffffffffffu128,
                ;
                assert(((i + 1) as u128) * (n as u128) <= 0xffffffffffffffffu128
                    * 0xffffffffffffffffu128) by (nonlinear_arith)
                    requires
                        i < n <= 0xffffffffffffffffu128,
                ;
            }
            c = c + row;
        } else {
            proof {
                assert((i as u128) * (n as u128) <= ((i + 1) as u128) * (n as u128))
                    by (nonlinear_arith)
                    requires
                        i < n <= 0xffffffffffffffffu128,
                ;
            }
        }
        i = i + 1;
    }
    proof {
        assert((s as u128) * (p as u128) <= 0xffffffffffffffffu128 * 0xffffffffffffffffu128)
            by (nonlinear_arith)
            requires
                s as u128 <= 0xffffffffffffffffu128,
                p as u128 <= 0xffffffffffffffffu128,
        ;
    }
    Ratio::make(c, (s as u128) * (p as u128))
}

impl NLGraph {
    /// Sets every node's local clustering coefficient: the number of ordered
    /// (predecessor, successor) pairs joined by an edge, over the product of
    /// the two set sizes, and zero when either set is empty rather than a
    /// division by zero. No other attribute and no structure changes.
    pub fn local_clustering_coefficient(&mut self)
        ensures
            final (self).edges@ == old(self).edges@,
            final (self).nodes@.len() == old(self).nodes@.len(),
            forall|i: int|
                0 <= i < old(self).nodes@.len() ==> final (self).nodes@[i] == with_clustering(
                    old(self).nodes@[i],
                    clustering_spec(old(self).edges@, old(self).nodes@.len() as int, i),
                ),
    {
        let n = self.nodes.len();
        let mut out: Vec<NodeData> = Vec::with_capacity(n);
        let mut i: usize = 0;
        while i < n
            invariant
                i <= n,
                n == old(self).nodes@.len(),
                self.edges@ == old(self).edges@,
                self.nodes@ == old(self).nodes@.skip(i as int),
                out@.len() == i as int,
                forall|k: int|
                    0 <= k < i ==> out@[k] == with_clustering(
                        old(self).nodes@[k],
                        clustering_spec(old(self).edges@, n as int, k),
                    ),
            decreases n - i,
        {
            let mut nd = self.nodes.remove(0);
            let c = clustering_of(&self.edges, n, i);
            nd.local_clustering_coefficient = c;
            out.push(nd);
            proof {
                assert(old(self).nodes@.skip(i as int).remove(0) =~= old(self).nodes@.skip(
                    i as int + 1,
                ));
            }
            i = i + 1;
        }
        self.nodes = out;
    }
}

/// Law: on a graph with fewer than two nodes the density is zero — never
/// an undefined or infinite value.
pub proof fn lemma_density_below_two_nodes(g: NLGraph)
    requires
        g.nodes@.len() < 2,
    ensures
        density_spec(g) == Ratio::spec_zero(),
{
}

/// Law: on a single-node graph both degree centralities are zero — the
/// zero normalization yields zero, not a division by zero.
pub proof fn lemma_degree_centrality_single_node(edges: Seq<EdgeData>, v: int)
    ensures
        in_centrality_spec(edges, 1, v) == Ratio::spec_zero(),
        out_centrality_spec(edges, 1, v) == Ratio::spec_zero(),
{
}

/// Law: a node with an empty predecessor set or an empty successor set has
/// clustering coefficient zero.
pub proof fn lemma_clustering_zero_on_empty_side(edges: Seq<EdgeData>, n: int, v: int)
    requires
        succ_count(edges, v, n) == 0 || pred_count(edges, v, n) == 0,
    ensures
        clustering_spec(edges, n, v) == Ratio::spec_zero(),
{
}

/// The indegrees of nodes `0..n`, each counted over the first `k` edges,
/// summed.
pub open spec fn sum_in(edges: Seq<EdgeData>, n: int, k: int) -> nat
    decreases n,
{
    if n <= 0 {
        0
    } else {
        sum_in(edges, n - 1, k) + count_in(edges, n - 1, k)
    }
}

/// The outdegrees of nodes `0..n`, each counted over the first `k` edges,
/// summed.
pub open spec fn sum_out(edges: Seq<EdgeData>, n: int, k: int) -> nat
    decreases n,
{
    if n <= 0 {
        0
    } else {
        sum_out(edges, n - 1, k) + count_out(edges, n - 1, k)
    }
}

/// Extending every count by edge `k - 1` raises the indegree sum by one
/// exactly when that edge's target lies below `n`.
proof fn lemma_sum_in_step(edges: Seq<EdgeData>, n: int, k: int)
    requires
        0 < k <= edges.len(),
        n >= 0,
    ensures
        sum_in(edges, n, k) == sum_in(edges, n, k - 1) + (if 0 <= edges[k - 1].target < n {
            1nat
        } else {
            0nat
        }),
    decreases n,
{
    if n > 0 {
        lemma_sum_in_step(edges, n - 1, k);
    }
}

/// Extending every count by edge `k - 1` raises the outdegree sum by one
/// exactly when that edge's source lies below `n`.
proof fn lemma_sum_out_step(edges: Seq<EdgeData>, n: int, k: int)
    requires
        0 < k <= edges.len(),
        n >= 0,
    ensures
        sum_out(edges, n, k) == sum_out(edges, n, k - 1) + (if 0 <= edges[k - 1].source < n {
            1nat
        } else {
            0nat
        }),
    decreases n,
{
    if n > 0 {
        lemma_sum_out_step(edges, n - 1, k);
    }
}

/// Law: over the nodes of a well-formed graph, the outdegrees and the
/// indegrees each sum to the edge count.
pub proof fn lemma_degree_sums_are_edge_count(edges: Seq<EdgeData>, n: int)
    requires
        n >= 0,
        edges_wf(edges, n),
    ensures
        sum_in(edges, n, edges.len() as int) == edges.len(),
        sum_out(edges, n, edges.len() as int) == edges.len(),
{
    lemma_sums_prefix(edges, n, edges.len() as int);
}

/// Both degree sums over the first `k` edges equal `k` when those edges
/// stay inside the node range.
proof fn lemma_sums_prefix(edges: Seq<EdgeData>, n: int, k: int)
    requires
        n >= 0,
        0 <= k <= edges.len(),
        edges_wf(edges, n),
    ensures
        sum_in(edges, n, k) == k,
        sum_out(edges, n, k) == k,
    decreases k,
{
    if k > 0 {
        lemma_sums_prefix(edges, n, k - 1);
        lemma_sum_in_step(edges, n, k);
        lemma_sum_out_step(edges, n, k);
        assert(edges[k - 1].source < n && edges[k - 1].target < n);
    } else {
        lemma_sum_zero(edges, n);
    }
}

/// With no edges counted, both sums are zero.
proof fn lemma_sum_zero(edges: Seq<EdgeData>, n: int)
    ensures
        sum_in(edges, n, 0) == 0,
        sum_out(edges, n, 0) == 0,
    decreases n,
{
    if n > 0 {
        lemma_sum_zero(edges, n - 1);
    }
}

} // verus!
