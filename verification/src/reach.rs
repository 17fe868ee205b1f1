//! Reachability and shortest unit-weight distances, shared by the
//! connectivity check (undirected reading of the edges) and closeness
//! centrality (directed reading): a breadth-first search that is proved to
//! return, for every node, its exact shortest distance from the start node,
//! or nothing when no walk of any length exists.

use vstd::prelude::*;

use crate::data::{adj, edges_wf, EdgeData};

verus! {

broadcast use vstd::seq_lib::group_seq_properties;

/// There is a walk of exactly `d` edges from `a` to `b`, every intermediate
/// node a valid index below `n`.
pub open spec fn has_walk(
    edges: Seq<EdgeData>,
    n: int,
    undirected: bool,
    a: int,
    b: int,
    d: nat,
) -> bool
    decreases d,
{
    if d == 0 {
        a == b
    } else {
        exists|m: int|
            0 <= m < n && adj(edges, undirected, a, m) && has_walk(
                edges,
                n,
                undirected,
                m,
                b,
                (d - 1) as nat,
            )
    }
}

/// Some walk of some length leads from `a` to `b`.
pub open spec fn reaches(edges: Seq<EdgeData>, n: int, undirected: bool, a: int, b: int) -> bool {
    exists|d: nat| has_walk(edges, n, undirected, a, b, d)
}

/// The shortest walk from `a` to `b` has exactly `k` edges.
pub open spec fn sp(
    edges: Seq<EdgeData>,
    n: int,
    undirected: bool,
    a: int,
    b: int,
    k: nat,
) -> bool {
    &&& has_walk(edges, n, undirected, a, b, k)
    &&& forall|j: nat| j < k ==> !has_walk(edges, n, undirected, a, b, j)
}

/// The shortest-walk distance from `a` to `b`; meaningful only when
/// `reaches(edges, n, undirected, a, b)` holds.
pub open spec fn min_dist(edges: Seq<EdgeData>, n: int, undirected: bool, a: int, b: int) -> nat {
    choose|k: nat| sp(edges, n, undirected, a, b, k)
}

/// A walk to `b` extends by one adjacent step to a walk to `c`.
pub proof fn lemma_walk_extend(
    edges: Seq<EdgeData>,
    n: int,
    undirected: bool,
    a: int,
    b: int,
    c: int,
    d: nat,
)
    requires
        has_walk(edges, n, undirected, a, b, d),
        adj(edges, undirected, b, c),
        0 <= c < n,
    ensures
        has_walk(edges, n, undirected, a, c, (d + 1) as nat),
    decreases d,
{
    if d == 0 {
        assert(has_walk(edges, n, undirected, c, c, 0));
    } else {
        let m = choose|m: int|
            0 <= m < n && adj(edges, undirected, a, m) && has_walk(
                edges,
                n,
                undirected,
                m,
                b,
                (d - 1) as nat,
            );
        lemma_walk_extend(edges, n, undirected, m, b, c, (d - 1) as nat);
    }
}

/// A walk of at least one edge decomposes into a walk one edge shorter and
/// a final adjacent step.
pub proof fn lemma_walk_last(
    edges: Seq<EdgeData>,
    n: int,
    undirected: bool,
    a: int,
    b: int,
    d: nat,
)
    requires
        has_walk(edges, n, undirected, a, b, d),
        d >= 1,
        0 <= a < n,
    ensures
        exists|m: int|
            0 <= m < n && #[trigger] has_walk(edges, n, undirected, a, m, (d - 1) as nat) && adj(
                edges,
                undirected,
                m,
                b,
            ),
    decreases d,
{
    let m0 = choose|m0: int|
        0 <= m0 < n && adj(edges, undirected, a, m0) && has_walk(
            edges,
            n,
            undirected,
            m0,
            b,
            (d - 1) as nat,
        );
    if d == 1 {
        assert(has_walk(edges, n, undirected, a, a, 0));
        assert(adj(edges, undirected, a, b) && 0 <= a < n);
    } else {
        lemma_walk_last(edges, n, undirected, m0, b, (d - 1) as nat);
        let m = choose|m: int|
            0 <= m < n && #[trigger] has_walk(edges, n, undirected, m0, m, (d - 2) as nat) && adj(
                edges,
                undirected,
                m,
                b,
            );
        assert(has_walk(edges, n, undirected, a, m, (d - 1) as nat));
    }
}

/// Wherever some walk arrives, a shortest one does: reachability yields an
/// exact shortest distance.
pub proof fn lemma_sp_exists(
    edges: Seq<EdgeData>,
    n: int,
    undirected: bool,
    a: int,
    b: int,
    d: nat,
)
    requires
        has_walk(edges, n, undirected, a, b, d),
    ensures
        exists|k: nat| k <= d && #[trigger] sp(edges, n, undirected, a, b, k),
    decreases d,
{
    if exists|j: nat| j < d && has_walk(edges, n, undirected, a, b, j) {
        let j = choose|j: nat| j < d && has_walk(edges, n, undirected, a, b, j);
        lemma_sp_exists(edges, n, undirected, a, b, j);
    } else {
        assert(sp(edges, n, undirected, a, b, d));
    }
}

/// Shortest distances are unique.
pub proof fn lemma_sp_unique(
    edges: Seq<EdgeData>,
    n: int,
    undirected: bool,
    a: int,
    b: int,
    k1: nat,
    k2: nat,
)
    requires
        sp(edges, n, undirected, a, b, k1),
        sp(edges, n, undirected, a, b, k2),
    ensures
        k1 == k2,
{
}

/// A set of nodes closed under adjacency and holding `a` holds the end of
/// every walk out of `a`. `member` gives the set.
pub proof fn lemma_closed_covers_walks(
    edges: Seq<EdgeData>,
    n: int,
    undirected: bool,
    member: Seq<bool>,
    a: int,
    b: int,
    d: nat,
)
    requires
        member.len() == n,
        0 <= a < n,
        member[a],
        forall|u: int, v: int|
            0 <= u < n && 0 <= v < n && member[u] && #[trigger] adj(edges, undirected, u, v)
                ==> member[v],
        has_walk(edges, n, undirected, a, b, d),
        0 <= b < n,
    ensures
        member[b],
    decreases d,
{
    if d == 0 {
    } else {
        let m = choose|m: int|
            0 <= m < n && adj(edges, undirected, a, m) && has_walk(
                edges,
                n,
                undirected,
                m,
                b,
                (d - 1) as nat,
            );
        lemma_closed_covers_walks(edges, n, undirected, member, m, b, (d - 1) as nat);
    }
}

/// How many entries of `s` are set.
pub open spec fn num_set(s: Seq<Option<usize>>) -> nat
    decreases s.len(),
{
    if s.len() == 0 {
        0
    } else {
        num_set(s.drop_last()) + (if s.last() is Some {
            1nat
        } else {
            0nat
        })
    }
}

/// At most every entry is set.
pub proof fn lemma_num_set_le(s: Seq<Option<usize>>)
    ensures
        num_set(s) <= s.len(),
    decreases s.len(),
{
    if s.len() > 0 {
        lemma_num_set_le(s.drop_last());
    }
}

/// Setting an unset entry raises the count by one.
pub proof fn lemma_num_set_update(s: Seq<Option<usize>>, i: int, k: usize)
    requires
        0 <= i < s.len(),
        s[i] is None,
    ensures
        num_set(s.update(i, Some(k))) == num_set(s) + 1,
    decreases s.len(),
{
    let t = s.update(i, Some(k));
    if i == s.len() - 1 {
        assert(t.drop_last() =~= s.drop_last());
    } else {
        assert(t.drop_last() =~= s.drop_last().update(i, Some(k)));
        lemma_num_set_update(s.drop_last(), i, k);
    }
}

/// Breadth-first search from `start` over the edges read directed, or
/// undirected when `undirected` is set. Returns for every node its exact
/// shortest-walk distance from `start`, or `None` exactly when no walk of
/// any length arrives there.
pub fn bfs_distances(edges: &Vec<EdgeData>, n: usize, undirected: bool, start: usize) -> (dist:
    Vec<Option<usize>>)
    requires
        start < n,
        edges_wf(edges@, n as int),
    ensures
        dist@.len() == n,
        forall|v: int|
            0 <= v < n && dist@[v] is Some ==> sp(
                edges@,
                n as int,
                undirected,
                start as int,
                v,
                dist@[v]->0 as nat,
            ),
        forall|v: int, dd: nat|
            0 <= v < n && dist@[v] is None ==> !has_walk(
                edges@,
                n as int,
                undirected,
                start as int,
                v,
                dd,
            ),
{
    let ghost ed = edges@;
    let ghost ni = n as int;
    let ghost s = start as int;
    let mut dist: Vec<Option<usize>> = Vec::with_capacity(n);
    let mut z: usize = 0;
    while z < n
        invariant
            z <= n,
            dist@.len() == z as int,
            forall|v: int| 0 <= v < z ==> dist@[v] is None,
        decreases n - z,
    {
        dist.push(None);
        z = z + 1;
    }
    proof {
        lemma_num_set_none(dist@);
        lemma_num_set_update(dist@, s, 0);
    }
    dist[start] = Some(0);
    let mut frontier: Vec<usize> = Vec::new();
    frontier.push(start);
    let mut d: usize = 0;
    proof {
        assert(has_walk(ed, ni, undirected, s, s, 0));
        assert(sp(ed, ni, undirected, s, s, 0));
        assert(frontier@[0] == start);
        assert(frontier@.contains(start));
    }
    while frontier.len() > 0
        invariant
            n == dist@.len(),
            start < n,
            edges_wf(ed, ni),
            ed == edges@,
            ni == n as int,
            s == start as int,
            // every recorded distance is exact and at most the current level
            forall|v: int|
                0 <= v < n && dist@[v] is Some ==> dist@[v]->0 <= d && sp(
                    ed,
                    ni,
                    undirected,
                    s,
                    v,
                    dist@[v]->0 as nat,
                ),
            // every shortest distance up to the current level is recorded
            forall|v: int, k: nat|
                0 <= v < n && k <= d && #[trigger] sp(ed, ni, undirected, s, v, k) ==> dist@[v]
                    == Some(k as usize),
            // the frontier holds exactly the nodes at the current level
            forall|j: int|
                0 <= j < frontier@.len() ==> #[trigger] frontier@[j] < n
                    && dist@[frontier@[j] as int] == Some(d),
            forall|v: int|
                0 <= v < n && dist@[v] == Some(d) ==> frontier@.contains(v as usize),
            // levels strictly below the current one are fully expanded
            forall|u: int, v: int|
                0 <= u < n && 0 <= v < n && dist@[u] is Some && dist@[u]->0 < d && #[trigger] adj(
                    ed,
                    undirected,
                    u,
                    v,
                ) ==> dist@[v] is Some,
            frontier@.len() > 0 ==> d + 1 <= num_set(dist@),
            num_set(dist@) <= n,
        decreases n - num_set(dist@), frontier@.len(),
    {
        let ghost dist0 = dist@;
        let mut next: Vec<usize> = Vec::new();
        let mut fi: usize = 0;
        while fi < frontier.len()
            invariant
                n == dist@.len(),
                start < n,
                edges_wf(ed, ni),
                ed == edges@,
                ni == n as int,
                s == start as int,
                fi <= frontier@.len(),
                dist0.len() == n,
                d + 1 <= n,
                // the frontier itself is untouched and keeps its meaning
                forall|j: int|
                    0 <= j < frontier@.len() ==> #[trigger] frontier@[j] < n
                        && dist0[frontier@[j] as int] == Some(d),
                forall|v: int|
                    0 <= v < n && dist0[v] == Some(d) ==> frontier@.contains(v as usize),
                // recorded distances only grow, and only with level d + 1
                forall|v: int| 0 <= v < n && dist0[v] is Some ==> dist@[v] == dist0[v],
                forall|v: int|
                    0 <= v < n && dist0[v] is None && dist@[v] is Some ==> dist@[v] == Some(
                        (d + 1) as usize,
                    ),
                // every recorded distance is exact
                forall|v: int|
                    0 <= v < n && dist@[v] is Some ==> dist@[v]->0 <= d + 1 && sp(
                        ed,
                        ni,
                        undirected,
                        s,
                        v,
                        dist@[v]->0 as nat,
                    ),
                forall|v: int, k: nat|
                    0 <= v < n && k <= d && #[trigger] sp(ed, ni, undirected, s, v, k) ==> dist@[v]
                        == Some(k as usize),
                // `next` holds exactly the newly recorded nodes
                forall|j: int|
                    0 <= j < next@.len() ==> #[trigger] next@[j] < n && dist@[next@[j] as int]
                        == Some((d + 1) as usize) && dist0[next@[j] as int] is None,
                forall|v: int|
                    0 <= v < n && dist0[v] is None && dist@[v] is Some ==> next@.contains(
                        v as usize,
                    ),
                num_set(dist@) == num_set(dist0) + next@.len(),
                num_set(dist@) <= n,
                // old levels stay fully expanded
                forall|u: int, v: int|
                    0 <= u < n && 0 <= v < n && dist@[u] is Some && dist@[u]->0 < d
                        && #[trigger] adj(ed, undirected, u, v) ==> dist@[v] is Some,
                // processed frontier nodes are fully expanded
                forall|j: int, v: int|
                    0 <= j < fi && 0 <= v < n && #[trigger] adj(
                        ed,
                        undirected,
                        frontier@[j] as int,
                        v,
                    ) ==> dist@[v] is Some,
            decreases frontier@.len() - fi,
        {
            let u = frontier[fi];
            let mut e: usize = 0;
            while e < edges.len()
                invariant
                    n == dist@.len(),
                    start < n,
                    edges_wf(ed, ni),
                    ed == edges@,
                    ni == n as int,
                    s == start as int,
                    fi < frontier@.len(),
                    u == frontier@[fi as int],
                    u < n,
                    dist@[u as int] == Some(d),
                    e <= edges@.len(),
                    dist0.len() == n,
                    d + 1 <= n,
                    forall|j: int|
                        0 <= j < frontier@.len() ==> #[trigger] frontier@[j] < n
                            && dist0[frontier@[j] as int] == Some(d),
                    forall|v: int|
                        0 <= v < n && dist0[v] == Some(d) ==> frontier@.contains(v as usize),
                    forall|v: int| 0 <= v < n && dist0[v] is Some ==> dist@[v] == dist0[v],
                    forall|v: int|
                        0 <= v < n && dist0[v] is None && dist@[v] is Some ==> dist@[v] == Some(
                            (d + 1) as usize,
                        ),
                    forall|v: int|
                        0 <= v < n && dist@[v] is Some ==> dist@[v]->0 <= d + 1 && sp(
                            ed,
                            ni,
                            undirected,
                            s,
                            v,
                            dist@[v]->0 as nat,
                        ),
                    forall|v: int, k: nat|
                        0 <= v < n && k <= d && #[trigger] sp(ed, ni, undirected, s, v, k)
                            ==> dist@[v] == Some(k as usize),
                    forall|j: int|
                        0 <= j < next@.len() ==> #[trigger] next@[j] < n && dist@[next@[j] as int]
                            == Some((d + 1) as usize) && dist0[next@[j] as int] is None,
                    forall|v: int|
                        0 <= v < n && dist0[v] is None && dist@[v] is Some ==> next@.contains(
                            v as usize,
                        ),
                    num_set(dist@) == num_set(dist0) + next@.len(),
                    num_set(dist@) <= n,
                    forall|u2: int, v: int|
                        0 <= u2 < n && 0 <= v < n && dist@[u2] is Some && dist@[u2]->0 < d
                            && #[trigger] adj(ed, undirected, u2, v) ==> dist@[v] is Some,
                    forall|j: int, v: int|
                        0 <= j < fi && 0 <= v < n && #[trigger] adj(
                            ed,
                            undirected,
                            frontier@[j] as int,
                            v,
                        ) ==> dist@[v] is Some,
                    // edges already scanned from `u` have their far end recorded
                    forall|e2: int|
                        0 <= e2 < e ==> (ed[e2].source == u as int ==> dist@[ed[e2].target as int]
                            is Some) && ((undirected && ed[e2].target == u as int)
                            ==> dist@[ed[e2].source as int] is Some),
                decreases edges@.len() - e,
            {
                let src = edges[e].source;
                let tgt = edges[e].target;
                if src == u {
                    if dist[tgt].is_none() {
                        proof {
                            assert(adj(ed, undirected, u as int, tgt as int));
                            lemma_step_sets_exact(ed, ni, undirected, s, u as int, tgt as int,
                                d as nat, dist@);
                            lemma_num_set_update(dist@, tgt as int, (d + 1) as usize);
                            lemma_num_set_le(dist@.update(tgt as int, Some((d + 1) as usize)));
                        }
                        dist[tgt] = Some(d + 1);
                        next.push(tgt);
                    }
                }
                if undirected && tgt == u {
                    if dist[src].is_none() {
                        proof {
                            assert(adj(ed, undirected, u as int, src as int));
                            lemma_step_sets_exact(ed, ni, undirected, s, u as int, src as int,
                                d as nat, dist@);
                            lemma_num_set_update(dist@, src as int, (d + 1) as usize);
                            lemma_num_set_le(dist@.update(src as int, Some((d + 1) as usize)));
                        }
                        dist[src] = Some(d + 1);
                        next.push(src);
                    }
                }
                e = e + 1;
            }
            fi = fi + 1;
        }
        // every node at the next level is now recorded, so the invariants
        // carry to level d + 1
        proof {
            assert forall|v: int, k: nat|
                0 <= v < n && k <= d + 1 && #[trigger] sp(ed, ni, undirected, s, v, k) implies
                dist@[v] == Some(k as usize) by {
                if k <= d {
                } else {
                    lemma_next_level_found(ed, ni, undirected, s, v, d as nat, dist0, dist@,
                        frontier@);
                }
            }
        }
        frontier = next;
        d = d + 1;
    }
    proof {
        let member = Seq::new(n as nat, |v: int| dist@[v] is Some);
        assert forall|v: int, dd: nat| 0 <= v < n && dist@[v] is None implies !has_walk(
            ed,
            ni,
            undirected,
            s,
            v,
            dd,
        ) by {
            if has_walk(ed, ni, undirected, s, v, dd) {
                lemma_closed_covers_walks(ed, ni, undirected, member, s, v, dd);
            }
        }
    }
    dist
}

/// A vector of `None` entries has none set.
proof fn lemma_num_set_none(s: Seq<Option<usize>>)
    requires
        forall|v: int| 0 <= v < s.len() ==> s[v] is None,
    ensures
        num_set(s) == 0,
    decreases s.len(),
{
    if s.len() > 0 {
        lemma_num_set_none(s.drop_last());
    }
}

/// Stepping from a node at exact level `d` to an unrecorded neighbour
/// reaches it at exact level `d + 1`, given that every level up to `d` is
/// already recorded.
proof fn lemma_step_sets_exact(
    edges: Seq<EdgeData>,
    n: int,
    undirected: bool,
    s: int,
    u: int,
    v: int,
    d: nat,
    dist: Seq<Option<usize>>,
)
    requires
        n <= usize::MAX,
        dist.len() == n,
        0 <= u < n,
        0 <= v < n,
        dist[u] == Some(d as usize),
        d + 1 <= n,
        dist[v] is None,
        adj(edges, undirected, u, v),
        forall|w: int|
            0 <= w < n && dist[w] is Some ==> sp(edges, n, undirected, s, w, dist[w]->0 as nat),
        forall|w: int, k: nat|
            0 <= w < n && k <= d && #[trigger] sp(edges, n, undirected, s, w, k) ==> dist[w]
                == Some(k as usize),
    ensures
        sp(edges, n, undirected, s, v, (d + 1) as nat),
{
    assert(sp(edges, n, undirected, s, u, d));
    lemma_walk_extend(edges, n, undirected, s, u, v, d);
    assert forall|j: nat| j < d + 1 implies !has_walk(edges, n, undirected, s, v, j) by {
        if has_walk(edges, n, undirected, s, v, j) {
            lemma_sp_exists(edges, n, undirected, s, v, j);
            let k = choose|k: nat| k <= j && #[trigger] sp(edges, n, undirected, s, v, k);
            assert(dist[v] == Some(k as usize));
        }
    }
}

/// After a level is fully expanded, every node whose exact distance is
/// `d + 1` has been recorded.
proof fn lemma_next_level_found(
    edges: Seq<EdgeData>,
    n: int,
    undirected: bool,
    s: int,
    v: int,
    d: nat,
    dist0: Seq<Option<usize>>,
    dist: Seq<Option<usize>>,
    frontier: Seq<usize>,
)
    requires
        dist0.len() == n,
        dist.len() == n,
        0 <= v < n,
        0 <= s < n,
        sp(edges, n, undirected, s, v, (d + 1) as nat),
        forall|w: int| 0 <= w < n && dist0[w] is Some ==> dist[w] == dist0[w],
        forall|w: int|
            0 <= w < n && dist[w] is Some ==> sp(edges, n, undirected, s, w, dist[w]->0 as nat),
        forall|w: int, k: nat|
            0 <= w < n && k <= d && #[trigger] sp(edges, n, undirected, s, w, k) ==> dist0[w]
                == Some(k as usize),
        forall|w: int| 0 <= w < n && dist0[w] == Some(d as usize) ==> frontier.contains(w as usize),
        forall|u2: int, w: int|
            0 <= u2 < n && 0 <= w < n && dist0[u2] is Some && dist0[u2]->0 < d && #[trigger] adj(
                edges,
                undirected,
                u2,
                w,
            ) ==> dist0[w] is Some,
        forall|j: int, w: int|
            0 <= j < frontier.len() && 0 <= w < n && #[trigger] adj(
                edges,
                undirected,
                frontier[j] as int,
                w,
            ) ==> dist[w] is Some,
    ensures
        dist[v] == Some((d + 1) as usize),
{
    lemma_walk_last(edges, n, undirected, s, v, (d + 1) as nat);
    let m = choose|m: int|
        0 <= m < n && #[trigger] has_walk(edges, n, undirected, s, m, d) && adj(
            edges,
            undirected,
            m,
            v,
        );
    lemma_sp_exists(edges, n, undirected, s, m, d);
    let k = choose|k: nat| k <= d && #[trigger] sp(edges, n, undirected, s, m, k);
    assert(dist0[m] == Some(k as usize));
    if k < d {
        assert(dist0[v] is Some);
    } else {
        assert(frontier.contains(m as usize));
        let j = choose|j: int| 0 <= j < frontier.len() && frontier[j] == m as usize;
        assert(dist[v] is Some);
    }
    assert(sp(edges, n, undirected, s, v, dist[v]->0 as nat));
    lemma_sp_unique(edges, n, undirected, s, v, dist[v]->0 as nat, (d + 1) as nat);
}

} // verus!
