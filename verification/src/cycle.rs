//! Directed-cycle detection: nodes without unremoved predecessors are
//! removed one at a time; the graph is acyclic exactly when every node can
//! be removed. The removal order doubles as a topological ranking, which
//! certifies the negative answer; a stalled removal certifies the positive
//! one by exhibiting a closed walk.

use vstd::prelude::*;

use crate::data::{adj, dadj, edges_wf, EdgeData, NLGraph};
use crate::reach::has_walk;
use vstd::set_lib::{lemma_int_range, lemma_len_subset, set_int_range};

verus! {

broadcast use vstd::seq_lib::group_seq_properties;

/// Some node lies on a directed closed walk of at least one edge.
pub open spec fn has_cycle(edges: Seq<EdgeData>, n: int) -> bool {
    exists|v: int, d: nat| 0 <= v < n && d >= 1 && has_walk(edges, n, false, v, v, d)
}

/// How many of the first `k` entries are set.
pub open spec fn num_true(s: Seq<bool>, k: int) -> nat
    decreases k,
{
    if k <= 0 {
        0
    } else {
        num_true(s, k - 1) + (if s[k - 1] {
            1nat
        } else {
            0nat
        })
    }
}

/// The count never exceeds the prefix length, and hits it only when every
/// entry is set.
proof fn lemma_num_true_le(s: Seq<bool>, k: int)
    requires
        0 <= k <= s.len(),
    ensures
        num_true(s, k) <= k,
        num_true(s, k) == k ==> forall|v: int| 0 <= v < k ==> s[v],
    decreases k,
{
    if k > 0 {
        lemma_num_true_le(s, k - 1);
    }
}

/// Setting an unset entry raises the count by one.
proof fn lemma_num_true_update(s: Seq<bool>, k: int, i: int)
    requires
        0 <= i < s.len(),
        0 <= k <= s.len(),
        !s[i],
    ensures
        num_true(s.update(i, true), k) == num_true(s, k) + (if i < k {
            1nat
        } else {
            0nat
        }),
    decreases k,
{
    if k > 0 {
        lemma_num_true_update(s, k - 1, i);
    }
}

/// Every removed node's predecessors were removed first: along any edge
/// into a removed node, the source is removed and ranks strictly rise.
pub open spec fn ranks_ok(edges: Seq<EdgeData>, removed: Seq<bool>, rank: Seq<usize>) -> bool {
    forall|e: int|
        0 <= e < edges.len() && removed[(#[trigger] edges[e]).target as int] ==> removed[edges[e].source as int]
            && rank[edges[e].source as int] < rank[edges[e].target as int]
}

/// Whether some edge into `v` starts at an unremoved node.
fn has_unremoved_pred(edges: &Vec<EdgeData>, removed: &Vec<bool>, n: usize, v: usize) -> (r: bool)
    requires
        removed@.len() == n,
        edges_wf(edges@, n as int),
    ensures
        r == exists|e: int|
            0 <= e < edges@.len() && (#[trigger] edges@[e]).target == v as int
                && !removed@[edges@[e].source as int],
{
    let mut e: usize = 0;
    while e < edges.len()
        invariant
            e <= edges@.len(),
            removed@.len() == n,
            edges_wf(edges@, n as int),
            forall|e2: int|
                0 <= e2 < e ==> !((#[trigger] edges@[e2]).target == v as int
                    && !removed@[edges@[e2].source as int]),
        decreases edges@.len() - e,
    {
        if edges[e].target == v && !removed[edges[e].source] {
            return true;
        }
        e = e + 1;
    }
    false
}

/// Finds an unremoved node all of whose predecessors are removed, if any
/// exists; otherwise every unremoved node keeps an unremoved predecessor.
fn find_removable(edges: &Vec<EdgeData>, removed: &Vec<bool>, n: usize) -> (r: Option<usize>)
    requires
        removed@.len() == n,
        edges_wf(edges@, n as int),
    ensures
        match r {
            Some(v) => v < n && !removed@[v as int] && forall|e: int|
                0 <= e < edges@.len() && (#[trigger] edges@[e]).target == v as int
                    ==> removed@[edges@[e].source as int],
            None => forall|v: int|
                0 <= v < n && !removed@[v] ==> exists|e: int|
                    0 <= e < edges@.len() && (#[trigger] edges@[e]).target == v
                        && !removed@[edges@[e].source as int],
        },
{
    let mut v: usize = 0;
    while v < n
        invariant
            v <= n,
            removed@.len() == n,
            edges_wf(edges@, n as int),
            forall|v2: int|
                0 <= v2 < v && !removed@[v2] ==> exists|e: int|
                    0 <= e < edges@.len() && (#[trigger] edges@[e]).target == v2
                        && !removed@[edges@[e].source as int],
        decreases n - v,
    {
        if !removed[v] {
            if !has_unremoved_pred(edges, removed, n, v) {
                return Some(v);
            }
        }
        v = v + 1;
    }
    None
}

/// Along a walk in a fully removed graph with consistent ranks, ranks
/// strictly rise.
proof fn lemma_walk_raises_rank(
    edges: Seq<EdgeData>,
    n: int,
    removed: Seq<bool>,
    rank: Seq<usize>,
    a: int,
    b: int,
    d: nat,
)
    requires
        removed.len() == n,
        rank.len() == n,
        ranks_ok(edges, removed, rank),
        forall|v: int| 0 <= v < n ==> removed[v],
        edges_wf(edges, n),
        has_walk(edges, n, false, a, b, d),
        d >= 1,
        0 <= a < n,
        0 <= b < n,
    ensures
        rank[a] < rank[b],
    decreases d,
{
    let m = choose|m: int|
        0 <= m < n && adj(edges, false, a, m) && has_walk(edges, n, false, m, b, (d - 1) as nat);
    let e = choose|e: int|
        0 <= e < edges.len() && #[trigger] edges[e].source == a && edges[e].target == m;
    assert(rank[a] < rank[m]);
    if d > 1 {
        lemma_walk_raises_rank(edges, n, removed, rank, m, b, (d - 1) as nat);
    }
}

/// Builds a chain of `len` unremoved nodes, each preceded in the graph by
/// the next, starting from `v0`.
proof fn lemma_build_chain(
    edges: Seq<EdgeData>,
    n: int,
    removed: Seq<bool>,
    v0: int,
    len: int,
) -> (w: Seq<int>)
    requires
        removed.len() == n,
        edges_wf(edges, n),
        0 <= v0 < n,
        !removed[v0],
        len >= 1,
        forall|v: int|
            0 <= v < n && !removed[v] ==> exists|e: int|
                0 <= e < edges.len() && (#[trigger] edges[e]).target == v
                    && !removed[edges[e].source as int],
    ensures
        w.len() == len,
        w[0] == v0,
        forall|k: int| 0 <= k < len ==> 0 <= #[trigger] w[k] < n && !removed[w[k]],
        forall|k: int| 0 <= k < len - 1 ==> dadj(edges, w[k + 1], #[trigger] w[k]),
    decreases len,
{
    if len == 1 {
        seq![v0]
    } else {
        let w0 = lemma_build_chain(edges, n, removed, v0, len - 1);
        let last = w0[len - 2];
        let e = choose|e: int|
            0 <= e < edges.len() && (#[trigger] edges[e]).target == last
                && !removed[edges[e].source as int];
        let w = w0.push(edges[e].source as int);
        assert(forall|k: int| 0 <= k < len - 1 ==> w[k] == w0[k]);
        assert(dadj(edges, w[len - 1], w[len - 2]));
        w
    }
}

/// A chain segment read backwards is a directed walk.
proof fn lemma_chain_walk(edges: Seq<EdgeData>, n: int, w: Seq<int>, i: int, j: int)
    requires
        edges_wf(edges, n),
        0 <= i <= j < w.len(),
        forall|k: int| 0 <= k < w.len() ==> 0 <= #[trigger] w[k] < n,
        forall|k: int| 0 <= k < w.len() - 1 ==> dadj(edges, w[k + 1], #[trigger] w[k]),
    ensures
        has_walk(edges, n, false, w[j], w[i], (j - i) as nat),
    decreases j - i,
{
    if j > i {
        lemma_chain_walk(edges, n, w, i, j - 1);
        assert(dadj(edges, w[j], w[j - 1]));
        assert(adj(edges, false, w[j], w[j - 1]));
    }
}

/// When every unremoved node keeps an unremoved predecessor and one node is
/// unremoved, the graph has a cycle: walking predecessors `n + 1` times
/// must revisit a node.
proof fn lemma_stalled_has_cycle(edges: Seq<EdgeData>, n: int, removed: Seq<bool>, v0: int)
    requires
        removed.len() == n,
        edges_wf(edges, n),
        0 <= v0 < n,
        !removed[v0],
        forall|v: int|
            0 <= v < n && !removed[v] ==> exists|e: int|
                0 <= e < edges.len() && (#[trigger] edges[e]).target == v
                    && !removed[edges[e].source as int],
    ensures
        has_cycle(edges, n),
{
    let w = lemma_build_chain(edges, n, removed, v0, n + 1);
    if w.no_duplicates() {
        w.unique_seq_to_set();
        let range = set_int_range(0, n);
        lemma_int_range(0, n);
        assert(w.to_set().subset_of(range)) by {
            assert forall|x: int| w.to_set().contains(x) implies range.contains(x) by {
                let k = choose|k: int| 0 <= k < w.len() && w[k] == x;
            }
        }
        lemma_len_subset(w.to_set(), range);
        assert(false);
    } else {
        let (i, j) = choose|i: int, j: int|
            0 <= i < w.len() && 0 <= j < w.len() && i != j && w[i] == w[j];
        let (lo, hi) = if i < j {
            (i, j)
        } else {
            (j, i)
        };
        lemma_chain_walk(edges, n, w, lo, hi);
        assert(has_walk(edges, n, false, w[hi], w[lo], (hi - lo) as nat));
        assert(0 <= w[hi] < n && hi - lo >= 1);
    }
}

impl NLGraph {
    /// Whether the graph contains a directed cycle: true exactly when some
    /// node lies on a directed closed walk.
    pub fn is_cyclic_directed(&self) -> (r: bool)
        requires
            self.wf(),
        ensures
            r == has_cycle(self.edges@, self.nodes@.len() as int),
    {
        let n = self.nodes.len();
        let ghost ed = self.edges@;
        let ghost ni = n as int;
        let mut removed: Vec<bool> = Vec::with_capacity(n);
        let mut rank: Vec<usize> = Vec::with_capacity(n);
        let mut z: usize = 0;
        while z < n
            invariant
                z <= n,
                removed@.len() == z as int,
                rank@.len() == z as int,
                forall|v: int| 0 <= v < z ==> !removed@[v],
            decreases n - z,
        {
            removed.push(false);
            rank.push(0);
            z = z + 1;
        }
        proof {
            lemma_num_true_zero(removed@, ni);
        }
        let mut count: usize = 0;
        let mut stalled = false;
        while count < n && !stalled
            invariant
                n == self.nodes@.len(),
                ed == self.edges@,
                ni == n as int,
                edges_wf(ed, ni),
                removed@.len() == n,
                rank@.len() == n,
                count == num_true(removed@, ni),
                count <= n,
                ranks_ok(ed, removed@, rank@),
                forall|v: int| 0 <= v < n && removed@[v] ==> rank@[v] < count,
                stalled ==> forall|v: int|
                    0 <= v < n && !removed@[v] ==> exists|e: int|
                        0 <= e < ed.len() && (#[trigger] ed[e]).target == v
                            && !removed@[ed[e].source as int],
            decreases
                    n - count,
                    (if stalled {
                        0int
                    } else {
                        1int
                    }),
        {
            match find_removable(&self.edges, &removed, n) {
                Some(v) => {
                    proof {
                        lemma_num_true_update(removed@, ni, v as int);
                        lemma_num_true_le(removed@.update(v as int, true), ni);
                    }
                    removed[v] = true;
                    rank[v] = count;
                    count = count + 1;
                },
                None => {
                    stalled = true;
                },
            }
        }
        if count == n {
            proof {
                lemma_num_true_le(removed@, ni);
                assert forall|v: int, d: nat|
                    0 <= v < ni && d >= 1 implies !has_walk(ed, ni, false, v, v, d) by {
                    if has_walk(ed, ni, false, v, v, d) {
                        lemma_walk_raises_rank(ed, ni, removed@, rank@, v, v, d);
                    }
                }
            }
            false
        } else {
            proof {
                lemma_num_true_le(removed@, ni);
                assert(exists|v0: int| 0 <= v0 < ni && !removed@[v0]) by {
                    if forall|v: int| 0 <= v < ni ==> removed@[v] {
                        lemma_num_true_all(removed@, ni);
                    }
                }
                lemma_stalled_has_cycle(ed, ni, removed@, choose|v0: int|
                    0 <= v0 < ni && !removed@[v0]);
            }
            true
        }
    }
}

/// A freshly cleared vector counts zero.
proof fn lemma_num_true_zero(s: Seq<bool>, k: int)
    requires
        0 <= k <= s.len(),
        forall|v: int| 0 <= v < s.len() ==> !s[v],
    ensures
        num_true(s, k) == 0,
    decreases k,
{
    if k > 0 {
        lemma_num_true_zero(s, k - 1);
    }
}

/// A fully set vector counts its length.
proof fn lemma_num_true_all(s: Seq<bool>, k: int)
    requires
        0 <= k <= s.len(),
        forall|v: int| 0 <= v < s.len() ==> s[v],
    ensures
        num_true(s, k) == k,
    decreases k,
{
    if k > 0 {
        lemma_num_true_all(s, k - 1);
    }
}

} // verus!
