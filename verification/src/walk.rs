//! Diagnostic path enumeration: from every node without incoming edges,
//! every directed path that follows outgoing edges until a node without
//! outgoing edges, in deterministic order — start nodes ascending, branches
//! in edge order, parallel edges enumerated individually. Exponential on
//! branchy graphs; meant for inspection, not for the standard pipeline. The
//! exploration is iterative over an explicit stack of partial paths, so no
//! recursion depth limits it. A step budget bounds each path: paths in an
//! acyclic graph are shorter than the node count, so the budget of
//! `node_count` steps is never the limit there, while on a cyclic graph it
//! cuts the otherwise endless descent off.

use vstd::prelude::*;

use crate::cycle::has_cycle;
use crate::data::{adj, count_out, dadj, edges_wf, indegree_of, outdegree_of, EdgeData, NLGraph};
use crate::reach::has_walk;
use vstd::arithmetic::power::{lemma_pow_positive, pow};
use vstd::set_lib::{lemma_int_range, lemma_len_subset, set_int_range};

verus! {

/// The listed paths as mathematical sequences.
pub open spec fn paths_view(s: Seq<Vec<usize>>) -> Seq<Seq<usize>> {
    Seq::new(s.len(), |i: int| s[i]@)
}

/// The targets of the first `k` edges leaving `v`, in edge order, parallel
/// edges kept.
pub open spec fn succ_targets(edges: Seq<EdgeData>, v: usize, k: int) -> Seq<usize>
    decreases k,
{
    if k <= 0 {
        Seq::empty()
    } else {
        succ_targets(edges, v, k - 1) + (if edges[k - 1].source == v {
            seq![edges[k - 1].target]
        } else {
            Seq::empty()
        })
    }
}

/// No more successors than edges.
proof fn lemma_succ_targets_len(edges: Seq<EdgeData>, v: usize, k: int)
    requires
        0 <= k,
    ensures
        succ_targets(edges, v, k).len() <= k,
    decreases k,
{
    if k > 0 {
        lemma_succ_targets_len(edges, v, k - 1);
    }
}

/// Every listed path, with `v` put in front.
pub open spec fn prepend_to_all(v: usize, paths: Seq<Seq<usize>>) -> Seq<Seq<usize>> {
    paths.map_values(|p: Seq<usize>| seq![v] + p)
}

/// Every listed path, with the prefix `pre` put in front.
pub open spec fn prepend_all(pre: Seq<usize>, paths: Seq<Seq<usize>>) -> Seq<Seq<usize>> {
    paths.map_values(|p: Seq<usize>| pre + p)
}

/// Prefixing distributes over listing paths one list after the other.
proof fn lemma_prepend_all_concat(pre: Seq<usize>, x: Seq<Seq<usize>>, y: Seq<Seq<usize>>)
    ensures
        prepend_all(pre, x + y) == prepend_all(pre, x) + prepend_all(pre, y),
{
    assert forall|i: int| 0 <= i < x.len() + y.len() implies #[trigger] prepend_all(pre, x + y)[i]
        == (prepend_all(pre, x) + prepend_all(pre, y))[i] by {
        if i < x.len() {
            assert((x + y)[i] == x[i]);
        } else {
            assert((x + y)[i] == y[i - x.len()]);
        }
    }
    assert(prepend_all(pre, x + y) =~= prepend_all(pre, x) + prepend_all(pre, y));
}

/// Prefixing a one-node front extension fuses into one longer prefix.
proof fn lemma_prepend_fusion(pre: Seq<usize>, v: usize, z: Seq<Seq<usize>>)
    ensures
        prepend_all(pre, prepend_to_all(v, z)) == prepend_all(pre.push(v), z),
{
    assert forall|i: int| 0 <= i < z.len() implies #[trigger] prepend_all(
        pre,
        prepend_to_all(v, z),
    )[i] == prepend_all(pre.push(v), z)[i] by {
        assert(pre + (seq![v] + z[i]) =~= pre.push(v) + z[i]);
    }
    assert(prepend_all(pre, prepend_to_all(v, z)) =~= prepend_all(pre.push(v), z));
}

/// The maximal paths out of `v`, within a budget of `fuel` further steps:
/// just `v` where no edge leaves it, otherwise every continuation through
/// every outgoing edge in order.
pub open spec fn enum_from(edges: Seq<EdgeData>, v: usize, fuel: nat) -> Seq<Seq<usize>>
    decreases fuel, 0int, 0int,
{
    if fuel == 0 {
        Seq::empty()
    } else {
        let ts = succ_targets(edges, v, edges.len() as int);
        if ts.len() == 0 {
            seq![seq![v]]
        } else {
            enum_subs(edges, v, ts, (fuel - 1) as nat)
        }
    }
}

/// The maximal paths out of `v` that continue through one of the listed
/// successors, in list order.
pub open spec fn enum_subs(edges: Seq<EdgeData>, v: usize, ts: Seq<usize>, fuel: nat) -> Seq<
    Seq<usize>,
>
    decreases fuel, 1int, ts.len(),
{
    if ts.len() == 0 {
        Seq::empty()
    } else {
        prepend_to_all(v, enum_from(edges, ts[0], fuel)) + enum_subs(edges, v, ts.skip(1), fuel)
    }
}

/// The maximal paths from every start node at or above `v`: a start node is
/// one without incoming edges.
pub open spec fn walk_tops(edges: Seq<EdgeData>, n: usize, v: int) -> Seq<Seq<usize>>
    decreases n - v,
{
    if v < 0 || v >= n {
        Seq::empty()
    } else {
        (if indegree_of(edges, v) == 0 {
            enum_from(edges, v as usize, n as nat)
        } else {
            Seq::empty()
        }) + walk_tops(edges, n, v + 1)
    }
}

/// Every maximal path of the graph, in enumeration order.
pub open spec fn walk_spec(edges: Seq<EdgeData>, n: usize) -> Seq<Seq<usize>> {
    walk_tops(edges, n, 0)
}

/// A maximal directed path: nonempty, inside the node range, each step
/// along an edge, starting where no edge arrives and ending where none
/// leaves.
pub open spec fn is_maximal_path(edges: Seq<EdgeData>, n: usize, p: Seq<usize>) -> bool {
    &&& p.len() >= 1
    &&& forall|k: int| 0 <= k < p.len() ==> (#[trigger] p[k]) < n
    &&& forall|k: int| 0 <= k < p.len() - 1 ==> dadj(edges, (#[trigger] p[k]) as int, p[k + 1] as int)
    &&& indegree_of(edges, p[0] as int) == 0
    &&& outdegree_of(edges, p.last() as int) == 0
}

/// The collected successors are exactly as many as the outgoing edges, each
/// one an edge target.
proof fn lemma_succ_targets_are_out_edges(edges: Seq<EdgeData>, v: usize, k: int)
    requires
        0 <= k <= edges.len(),
    ensures
        succ_targets(edges, v, k).len() == count_out(edges, v as int, k),
        forall|j: int|
            0 <= j < succ_targets(edges, v, k).len() ==> dadj(
                edges,
                v as int,
                #[trigger] succ_targets(edges, v, k)[j] as int,
            ),
    decreases k,
{
    if k > 0 {
        lemma_succ_targets_are_out_edges(edges, v, k - 1);
        if edges[k - 1].source == v {
            assert(dadj(edges, v as int, edges[k - 1].target as int));
        }
    }
}

/// Every path that `enum_from` lists starts at `v`, follows edges inside
/// the node range, and ends where no edge leaves.
proof fn lemma_enum_from_sound(edges: Seq<EdgeData>, n: usize, v: usize, fuel: nat)
    requires
        edges_wf(edges, n as int),
        v < n,
    ensures
        forall|i: int|
            0 <= i < enum_from(edges, v, fuel).len() ==> {
                let p = #[trigger] enum_from(edges, v, fuel)[i];
                &&& p.len() >= 1
                &&& p[0] == v
                &&& forall|k: int| 0 <= k < p.len() ==> (#[trigger] p[k]) < n
                &&& forall|k: int| 0 <= k < p.len() - 1 ==> dadj(edges, (#[trigger] p[k]) as int, p[k + 1] as int)
                &&& outdegree_of(edges, p.last() as int) == 0
            },
    decreases fuel, 0int, 0int,
{
    if fuel == 0 {
    } else {
        let ts = succ_targets(edges, v, edges.len() as int);
        lemma_succ_targets_are_out_edges(edges, v, edges.len() as int);
        if ts.len() == 0 {
            assert(enum_from(edges, v, fuel)[0] == seq![v]);
            assert(seq![v][0] == v && seq![v].last() == v);
        } else {
            lemma_enum_subs_sound(edges, n, v, ts, (fuel - 1) as nat);
            assert forall|i: int| 0 <= i < enum_from(edges, v, fuel).len() implies {
                let p = #[trigger] enum_from(edges, v, fuel)[i];
                &&& p.len() >= 1
                &&& p[0] == v
                &&& forall|k: int| 0 <= k < p.len() ==> (#[trigger] p[k]) < n
                &&& forall|k: int|
                    0 <= k < p.len() - 1 ==> dadj(edges, (#[trigger] p[k]) as int, p[k + 1] as int)
                &&& outdegree_of(edges, p.last() as int) == 0
            } by {
                let subs = enum_subs(edges, v, ts, (fuel - 1) as nat);
                assert(enum_from(edges, v, fuel)[i] == subs[i]);
            }
        }
    }
}

/// Every path that `enum_subs` lists is `v` followed by a listed
/// continuation.
proof fn lemma_enum_subs_sound(edges: Seq<EdgeData>, n: usize, v: usize, ts: Seq<usize>, fuel: nat)
    requires
        edges_wf(edges, n as int),
        v < n,
        forall|j: int| 0 <= j < ts.len() ==> dadj(edges, v as int, (#[trigger] ts[j]) as int),
    ensures
        forall|i: int|
            0 <= i < enum_subs(edges, v, ts, fuel).len() ==> {
                let p = #[trigger] enum_subs(edges, v, ts, fuel)[i];
                &&& p.len() >= 2
                &&& p[0] == v
                &&& forall|k: int| 0 <= k < p.len() ==> (#[trigger] p[k]) < n
                &&& forall|k: int| 0 <= k < p.len() - 1 ==> dadj(edges, (#[trigger] p[k]) as int, p[k + 1] as int)
                &&& outdegree_of(edges, p.last() as int) == 0
            },
    decreases fuel, 1int, ts.len(),
{
    if ts.len() == 0 {
    } else {
        let t = ts[0];
        assert(dadj(edges, v as int, t as int));
        assert(t < n) by {
            let e = choose|e: int|
                0 <= e < edges.len() && #[trigger] edges[e].source == v as int && edges[e].target
                    == t as int;
        }
        lemma_enum_from_sound(edges, n, t, fuel);
        lemma_enum_subs_sound(edges, n, v, ts.skip(1), fuel);
        let first = prepend_to_all(v, enum_from(edges, t, fuel));
        assert forall|i: int| 0 <= i < first.len() implies {
            let p = #[trigger] first[i];
            &&& p.len() >= 2
            &&& p[0] == v
            &&& forall|k: int| 0 <= k < p.len() ==> (#[trigger] p[k]) < n
            &&& forall|k: int| 0 <= k < p.len() - 1 ==> dadj(edges, (#[trigger] p[k]) as int, p[k + 1] as int)
            &&& outdegree_of(edges, p.last() as int) == 0
        } by {
            let q = enum_from(edges, t, fuel)[i];
            assert(first[i] == seq![v] + q);
            assert((seq![v] + q).last() == q.last());
            assert forall|k: int| 0 <= k < (seq![v] + q).len() - 1 implies dadj(
                edges,
                (#[trigger] (seq![v] + q)[k]) as int,
                (seq![v] + q)[k + 1] as int,
            ) by {
                if k == 0 {
                    assert((seq![v] + q)[0] == v && (seq![v] + q)[1] == q[0]);
                } else {
                    assert((seq![v] + q)[k] == q[k - 1] && (seq![v] + q)[k + 1] == q[k]);
                }
            }
        }
        assert forall|i: int| 0 <= i < enum_subs(edges, v, ts, fuel).len() implies {
            let p = #[trigger] enum_subs(edges, v, ts, fuel)[i];
            &&& p.len() >= 2
            &&& p[0] == v
            &&& forall|k: int| 0 <= k < p.len() ==> (#[trigger] p[k]) < n
            &&& forall|k: int| 0 <= k < p.len() - 1 ==> dadj(edges, (#[trigger] p[k]) as int, p[k + 1] as int)
            &&& outdegree_of(edges, p.last() as int) == 0
        } by {
            if i < first.len() {
                assert(enum_subs(edges, v, ts, fuel)[i] == first[i]);
            } else {
                assert(enum_subs(edges, v, ts, fuel)[i] == enum_subs(edges, v, ts.skip(1), fuel)[i
                    - first.len()]);
            }
        }
    }
}

/// Law: every enumerated path is a maximal directed path — it starts at a
/// node without incoming edges, follows edges through valid nodes, and ends
/// at a node without outgoing edges.
pub proof fn lemma_walk_sound(edges: Seq<EdgeData>, n: usize)
    requires
        edges_wf(edges, n as int),
    ensures
        forall|i: int|
            0 <= i < walk_spec(edges, n).len() ==> is_maximal_path(
                edges,
                n,
                #[trigger] walk_spec(edges, n)[i],
            ),
{
    lemma_walk_tops_sound(edges, n, 0);
}

/// Every path listed from start nodes at or above `v` is maximal.
proof fn lemma_walk_tops_sound(edges: Seq<EdgeData>, n: usize, v: int)
    requires
        edges_wf(edges, n as int),
        0 <= v,
    ensures
        forall|i: int|
            0 <= i < walk_tops(edges, n, v).len() ==> is_maximal_path(
                edges,
                n,
                #[trigger] walk_tops(edges, n, v)[i],
            ),
    decreases n - v,
{
    if v < n {
        lemma_walk_tops_sound(edges, n, v + 1);
        let own = if indegree_of(edges, v) == 0 {
            enum_from(edges, v as usize, n as nat)
        } else {
            Seq::<Seq<usize>>::empty()
        };
        if indegree_of(edges, v) == 0 {
            lemma_enum_from_sound(edges, n, v as usize, n as nat);
        }
        assert forall|i: int| 0 <= i < walk_tops(edges, n, v).len() implies is_maximal_path(
            edges,
            n,
            #[trigger] walk_tops(edges, n, v)[i],
        ) by {
            if i < own.len() {
                assert(walk_tops(edges, n, v)[i] == own[i]);
            } else {
                assert(walk_tops(edges, n, v)[i] == walk_tops(edges, n, v + 1)[i - own.len()]);
            }
        }
    }
}

/// Following a consecutive stretch of a path is a directed walk.
proof fn lemma_path_walk(edges: Seq<EdgeData>, n: usize, p: Seq<usize>, i: int, j: int)
    requires
        0 <= i <= j < p.len(),
        forall|k: int| 0 <= k < p.len() ==> (#[trigger] p[k]) < n,
        forall|k: int|
            0 <= k < p.len() - 1 ==> dadj(edges, (#[trigger] p[k]) as int, p[k + 1] as int),
    ensures
        has_walk(edges, n as int, false, p[i] as int, p[j] as int, (j - i) as nat),
    decreases j - i,
{
    if j > i {
        lemma_path_walk(edges, n, p, i + 1, j);
        assert(adj(edges, false, p[i] as int, p[i + 1] as int));
    }
}

/// In a graph without directed cycles a path repeats no node, so it is no
/// longer than the node count.
proof fn lemma_acyclic_path_short(edges: Seq<EdgeData>, n: usize, p: Seq<usize>)
    requires
        !has_cycle(edges, n as int),
        p.len() >= 1,
        forall|k: int| 0 <= k < p.len() ==> (#[trigger] p[k]) < n,
        forall|k: int|
            0 <= k < p.len() - 1 ==> dadj(edges, (#[trigger] p[k]) as int, p[k + 1] as int),
    ensures
        p.len() <= n,
{
    assert forall|i: int, j: int|
        0 <= i < p.len() && 0 <= j < p.len() && i != j implies p[i] != p[j] by {
        if p[i] == p[j] {
            let (lo, hi) = if i < j {
                (i, j)
            } else {
                (j, i)
            };
            lemma_path_walk(edges, n, p, lo, hi);
            assert(has_walk(edges, n as int, false, p[lo] as int, p[lo] as int, (hi - lo) as nat));
            assert(has_cycle(edges, n as int));
        }
    }
    let pi = p.map_values(|x: usize| x as int);
    assert(pi.no_duplicates()) by {
        assert forall|i: int, j: int|
            0 <= i < pi.len() && 0 <= j < pi.len() && i != j implies pi[i] != pi[j] by {
            assert(pi[i] == p[i] as int && pi[j] == p[j] as int);
        }
    }
    pi.unique_seq_to_set();
    let range = set_int_range(0, n as int);
    lemma_int_range(0, n as int);
    assert(pi.to_set().subset_of(range)) by {
        assert forall|x: int| pi.to_set().contains(x) implies range.contains(x) by {
            let k = choose|k: int| 0 <= k < pi.len() && pi[k] == x;
            assert(pi[k] == p[k] as int);
        }
    }
    lemma_len_subset(pi.to_set(), range);
}

/// An edge out of `v` puts its target among the collected successors.
proof fn lemma_succ_contains(edges: Seq<EdgeData>, v: usize, t: usize, k: int)
    requires
        0 <= k <= edges.len(),
        exists|e: int|
            0 <= e < k && (#[trigger] edges[e]).source == v as int && edges[e].target == t as int,
    ensures
        exists|j: int|
            0 <= j < succ_targets(edges, v, k).len() && #[trigger] succ_targets(edges, v, k)[j]
                == t,
    decreases k,
{
    let e = choose|e: int|
        0 <= e < k && (#[trigger] edges[e]).source == v as int && edges[e].target == t as int;
    if e == k - 1 {
        let ts = succ_targets(edges, v, k);
        assert(ts[ts.len() - 1] == t);
    } else {
        lemma_succ_contains(edges, v, t, k - 1);
        let j = choose|j: int|
            0 <= j < succ_targets(edges, v, k - 1).len() && #[trigger] succ_targets(
                edges,
                v,
                k - 1,
            )[j] == t;
        assert(succ_targets(edges, v, k)[j] == t);
    }
}

/// A continuation listed for the `j`-th successor appears, behind `v`,
/// among the listed continuations of `v`.
proof fn lemma_subs_contains(
    edges: Seq<EdgeData>,
    v: usize,
    ts: Seq<usize>,
    fuel: nat,
    j: int,
    tail: Seq<usize>,
)
    requires
        0 <= j < ts.len(),
        enum_from(edges, ts[j], fuel).contains(tail),
    ensures
        enum_subs(edges, v, ts, fuel).contains(seq![v] + tail),
    decreases j,
{
    let first = prepend_to_all(v, enum_from(edges, ts[0], fuel));
    let rest = enum_subs(edges, v, ts.skip(1), fuel);
    if j == 0 {
        let idx = choose|idx: int|
            0 <= idx < enum_from(edges, ts[0], fuel).len() && enum_from(edges, ts[0], fuel)[idx]
                == tail;
        assert(first[idx] == seq![v] + tail);
        assert(enum_subs(edges, v, ts, fuel)[idx] == seq![v] + tail);
    } else {
        assert(ts.skip(1)[j - 1] == ts[j]);
        lemma_subs_contains(edges, v, ts.skip(1), fuel, j - 1, tail);
        let idx = choose|idx: int| 0 <= idx < rest.len() && rest[idx] == seq![v] + tail;
        assert(enum_subs(edges, v, ts, fuel)[first.len() + idx] == seq![v] + tail);
    }
}

/// A path that follows edges to a node without outgoing edges appears among
/// the continuations of its first node, given a step budget of at least its
/// length.
proof fn lemma_enum_contains(edges: Seq<EdgeData>, n: usize, q: Seq<usize>, fuel: nat)
    requires
        edges_wf(edges, n as int),
        q.len() >= 1,
        fuel >= q.len(),
        forall|k: int| 0 <= k < q.len() ==> (#[trigger] q[k]) < n,
        forall|k: int|
            0 <= k < q.len() - 1 ==> dadj(edges, (#[trigger] q[k]) as int, q[k + 1] as int),
        outdegree_of(edges, q.last() as int) == 0,
    ensures
        enum_from(edges, q[0], fuel).contains(q),
    decreases q.len(),
{
    let v = q[0];
    let ts = succ_targets(edges, v, edges.len() as int);
    lemma_succ_targets_are_out_edges(edges, v, edges.len() as int);
    if q.len() == 1 {
        assert(ts.len() == 0);
        assert(q =~= seq![v]);
        assert(enum_from(edges, v, fuel)[0] == seq![v]);
    } else {
        let t = q[1];
        assert(dadj(edges, v as int, t as int));
        lemma_succ_contains(edges, v, t, edges.len() as int);
        let j = choose|j: int| 0 <= j < ts.len() && #[trigger] ts[j] == t;
        let tail = q.skip(1);
        assert(tail[0] == t && tail.last() == q.last());
        assert(forall|k: int| 0 <= k < tail.len() ==> (#[trigger] tail[k]) == q[k + 1]);
        assert(forall|k: int|
            0 <= k < tail.len() - 1 ==> dadj(edges, (#[trigger] tail[k]) as int, tail[k
                + 1] as int));
        lemma_enum_contains(edges, n, tail, (fuel - 1) as nat);
        lemma_subs_contains(edges, v, ts, (fuel - 1) as nat, j, tail);
        assert(seq![v] + tail =~= q);
    }
}

/// A path listed for a start node appears in the overall enumeration.
proof fn lemma_walk_tops_contains(edges: Seq<EdgeData>, n: usize, v: int, start: usize, p: Seq<
    usize,
>)
    requires
        0 <= v <= start < n,
        indegree_of(edges, start as int) == 0,
        enum_from(edges, start, n as nat).contains(p),
    ensures
        walk_tops(edges, n, v).contains(p),
    decreases n - v,
{
    let own = if indegree_of(edges, v) == 0 {
        enum_from(edges, v as usize, n as nat)
    } else {
        Seq::<Seq<usize>>::empty()
    };
    if v == start {
        let listed = enum_from(edges, start, n as nat);
        let idx = choose|idx: int| 0 <= idx < listed.len() && listed[idx] == p;
        assert(walk_tops(edges, n, v)[idx] == p);
    } else {
        lemma_walk_tops_contains(edges, n, v + 1, start, p);
        let deeper = walk_tops(edges, n, v + 1);
        let idx = choose|idx: int| 0 <= idx < deeper.len() && deeper[idx] == p;
        assert(walk_tops(edges, n, v)[own.len() + idx] == p);
    }
}

/// Law: on a graph without directed cycles the enumeration is complete —
/// every maximal directed path appears in it. Together with
/// `lemma_walk_sound`, the enumeration lists exactly the maximal paths; in
/// particular the step budget never cuts an acyclic graph's paths off.
pub proof fn lemma_walk_complete(edges: Seq<EdgeData>, n: usize, p: Seq<usize>)
    requires
        edges_wf(edges, n as int),
        !has_cycle(edges, n as int),
        is_maximal_path(edges, n, p),
    ensures
        walk_spec(edges, n).contains(p),
{
    lemma_acyclic_path_short(edges, n, p);
    lemma_enum_contains(edges, n, p, n as nat);
    lemma_walk_tops_contains(edges, n, 0, p[0], p);
}

/// The paths one stack entry still owes: its path prefix in front of every
/// continuation of its last node within its remaining budget.
pub open spec fn pending(edges: Seq<EdgeData>, entry: (Vec<usize>, usize)) -> Seq<Seq<usize>> {
    if entry.0@.len() == 0 {
        Seq::empty()
    } else {
        prepend_all(entry.0@.drop_last(), enum_from(edges, entry.0@.last(), entry.1 as nat))
    }
}

/// The paths the whole stack still owes, top entry first.
pub open spec fn stack_pending(edges: Seq<EdgeData>, s: Seq<(Vec<usize>, usize)>) -> Seq<Seq<usize>>
    decreases s.len(),
{
    if s.len() == 0 {
        Seq::empty()
    } else {
        pending(edges, s.last()) + stack_pending(edges, s.drop_last())
    }
}

/// Termination weight of the stack: an entry with budget `f` weighs `b^f`,
/// so expanding it into at most `b - 2` children of budget `f - 1` always
/// loses weight.
spec fn stack_weight(s: Seq<(Vec<usize>, usize)>, b: nat) -> nat
    decreases s.len(),
{
    if s.len() == 0 {
        0
    } else {
        stack_weight(s.drop_last(), b) + (pow(b as int, s.last().1 as nat) as nat)
    }
}

/// Copies a path.
fn clone_path(p: &Vec<usize>) -> (r: Vec<usize>)
    ensures
        r@ == p@,
{
    let mut r: Vec<usize> = Vec::with_capacity(p.len());
    let mut i: usize = 0;
    while i < p.len()
        invariant
            i <= p@.len(),
            r@.len() == i as int,
            forall|k: int| 0 <= k < i ==> r@[k] == p@[k],
        decreases p@.len() - i,
    {
        r.push(p[i]);
        i = i + 1;
    }
    proof {
        assert(r@ =~= p@);
    }
    r
}

/// Collects the targets of all edges leaving `v`, in edge order.
fn collect_succ(edges: &Vec<EdgeData>, v: usize) -> (ts: Vec<usize>)
    ensures
        ts@ == succ_targets(edges@, v, edges@.len() as int),
{
    let mut ts: Vec<usize> = Vec::new();
    let mut e: usize = 0;
    while e < edges.len()
        invariant
            e <= edges@.len(),
            ts@ == succ_targets(edges@, v, e as int),
        decreases edges@.len() - e,
    {
        if edges[e].source == v {
            ts.push(edges[e].target);
            proof {
                assert(ts@ =~= succ_targets(edges@, v, e as int + 1));
            }
        } else {
            proof {
                assert(ts@ =~= succ_targets(edges@, v, e as int + 1));
            }
        }
        e = e + 1;
    }
    ts
}

impl NLGraph {
    /// Enumerates every maximal directed path: from each node with indegree
    /// zero, in ascending order, every path along outgoing edges to a node
    /// with outdegree zero, branches in edge order, each path within a
    /// budget of `node_count` steps — enough for every path of an acyclic
    /// graph, since such a path repeats no node. Depth-first over an
    /// explicit stack of partial paths.
    #[verifier::loop_isolation(false)]
    pub fn walk(&self) -> (r: Vec<Vec<usize>>)
        ensures
            paths_view(r@) == walk_spec(self.edges@, self.nodes@.len() as usize),
    {
        let n = self.nodes.len();
        let ghost ed = self.edges@;
        let ghost b: nat = ed.len() + 2;
        let mut stack: Vec<(Vec<usize>, usize)> = Vec::new();
        proof {
            assert(stack_pending(ed, stack@) =~= walk_tops(ed, n, n as int));
        }
        let mut v: usize = n;
        while v > 0
            invariant
                v <= n,
                stack_pending(ed, stack@) == walk_tops(ed, n, v as int),
                forall|i: int| 0 <= i < stack@.len() ==> (#[trigger] stack@[i]).0@.len() >= 1,
            decreases v,
        {
            v = v - 1;
            let ind = crate::analysis::count_in_exec(&self.edges, v);
            if ind == 0 {
                let mut p: Vec<usize> = Vec::new();
                p.push(v);
                let ghost st0 = stack@;
                stack.push((p, n));
                proof {
                    assert(stack@.drop_last() =~= st0);
                    assert(stack@.last().0@ =~= seq![v]);
                    assert(pending(ed, stack@.last()) == enum_from(ed, v, n as nat)) by {
                        assert(stack@.last().0@.drop_last() =~= Seq::<usize>::empty());
                        assert forall|i: int| 0 <= i < enum_from(ed, v, n as nat).len() implies
                            #[trigger] prepend_all(
                            Seq::<usize>::empty(),
                            enum_from(ed, v, n as nat),
                        )[i] == enum_from(ed, v, n as nat)[i] by {
                            assert(Seq::<usize>::empty() + enum_from(ed, v, n as nat)[i] =~= enum_from(
                                ed,
                                v,
                                n as nat,
                            )[i]);
                        }
                        assert(prepend_all(Seq::<usize>::empty(), enum_from(ed, v, n as nat))
                            =~= enum_from(ed, v, n as nat));
                    }
                    assert(stack_pending(ed, stack@) =~= walk_tops(ed, n, v as int));
                }
            } else {
                proof {
                    assert(walk_tops(ed, n, v as int) =~= walk_tops(ed, n, v as int + 1));
                }
            }
        }
        let mut r: Vec<Vec<usize>> = Vec::new();
        proof {
            assert(paths_view(r@) =~= Seq::<Seq<usize>>::empty());
            assert(paths_view(r@) + stack_pending(ed, stack@) =~= walk_spec(ed, n));
        }
        while stack.len() > 0
            invariant
                paths_view(r@) + stack_pending(ed, stack@) == walk_spec(ed, n),
                forall|i: int| 0 <= i < stack@.len() ==> (#[trigger] stack@[i]).0@.len() >= 1,
            decreases stack_weight(stack@, b),
        {
            let ghost st_before = stack@;
            let popped = stack.pop();
            let (p, f) = match popped {
                Some(entry) => entry,
                None => {
                    proof {
                        assert(false);
                    }
                    (Vec::new(), 0)
                },
            };
            proof {
                assert(st_before.drop_last() =~= stack@);
                assert(st_before.last() == (p, f));
                assert(stack_pending(ed, st_before) == pending(ed, (p, f)) + stack_pending(
                    ed,
                    stack@,
                ));
                assert(stack_weight(st_before, b) == stack_weight(stack@, b) + (pow(
                    b as int,
                    f as nat,
                ) as nat));
                lemma_pow_positive(b as int, f as nat);
            }
            let plen = p.len();
            let v = p[plen - 1];
            proof {
                assert(p@.last() == v);
            }
            if f == 0 {
                proof {
                    assert(pending(ed, (p, f)) =~= Seq::<Seq<usize>>::empty());
                    assert(paths_view(r@) + stack_pending(ed, stack@) =~= walk_spec(ed, n));
                }
            } else {
                let ts = collect_succ(&self.edges, v);
                if ts.len() == 0 {
                    let ghost r0 = r@;
                    r.push(p);
                    proof {
                        assert(pending(ed, (p, f)) =~= seq![r@.last()@]) by {
                            assert(enum_from(ed, r@.last()@.last(), f as nat) == seq![
                                seq![r@.last()@.last()],
                            ]);
                            assert(prepend_all(
                                r@.last()@.drop_last(),
                                seq![seq![r@.last()@.last()]],
                            )[0] == r@.last()@.drop_last() + seq![r@.last()@.last()]);
                            assert(r@.last()@.drop_last() + seq![r@.last()@.last()] =~= r@.last()@);
                        }
                        assert forall|i: int| 0 <= i < r@.len() implies #[trigger] paths_view(r@)[i]
                            == (paths_view(r0) + pending(ed, (r@.last(), f)))[i] by {
                            if i < r0.len() {
                                assert(r@[i] == r0[i]);
                            }
                        }
                        assert(paths_view(r@) =~= paths_view(r0) + pending(ed, (r@.last(), f)));
                        assert(paths_view(r@) + stack_pending(ed, stack@) =~= walk_spec(ed, n));
                    }
                } else {
                    proof {
                        assert(enum_from(ed, v, f as nat) == enum_subs(ed, v, ts@, (f - 1) as nat));
                        assert(ts@.skip(ts@.len() as int) =~= Seq::<usize>::empty());
                        assert(prepend_all(
                            p@.drop_last(),
                            enum_subs(ed, v, ts@.skip(ts@.len() as int), (f - 1) as nat),
                        ) =~= Seq::<Seq<usize>>::empty());
                        lemma_succ_targets_len(ed, v, ed.len() as int);
                    }
                    let ghost rest = stack@;
                    let ghost wchild: nat = pow(b as int, (f - 1) as nat) as nat;
                    proof {
                        lemma_pow_positive(b as int, (f - 1) as nat);
                    }
                    let mut k: usize = ts.len();
                    while k > 0
                        invariant
                            k <= ts@.len(),
                            stack_pending(ed, stack@) == prepend_all(
                                p@.drop_last(),
                                enum_subs(ed, v, ts@.skip(k as int), (f - 1) as nat),
                            ) + stack_pending(ed, rest),
                            stack_weight(stack@, b) == stack_weight(rest, b) + (ts@.len()
                                - k as int) * (wchild as int),
                            forall|i: int|
                                0 <= i < stack@.len() ==> (#[trigger] stack@[i]).0@.len() >= 1,
                        decreases k,
                    {
                        k = k - 1;
                        let mut child = clone_path(&p);
                        child.push(ts[k]);
                        let ghost st0 = stack@;
                        stack.push((child, f - 1));
                        proof {
                            assert(stack@.drop_last() =~= st0);
                            let t = ts@[k as int];
                            assert(stack@.last().0@ == p@ + seq![t]) by {
                                assert(stack@.last().0@ =~= p@ + seq![t]);
                            }
                            assert(stack@.last().0@.drop_last() =~= p@);
                            assert(stack@.last().0@.last() == t);
                            assert(pending(ed, stack@.last()) == prepend_all(
                                p@,
                                enum_from(ed, t, (f - 1) as nat),
                            ));
                            assert(ts@.skip(k as int)[0] == t);
                            assert(ts@.skip(k as int).skip(1) =~= ts@.skip(k as int + 1));
                            assert(enum_subs(ed, v, ts@.skip(k as int), (f - 1) as nat)
                                == prepend_to_all(v, enum_from(ed, t, (f - 1) as nat)) + enum_subs(
                                ed,
                                v,
                                ts@.skip(k as int + 1),
                                (f - 1) as nat,
                            ));
                            lemma_prepend_all_concat(
                                p@.drop_last(),
                                prepend_to_all(v, enum_from(ed, t, (f - 1) as nat)),
                                enum_subs(ed, v, ts@.skip(k as int + 1), (f - 1) as nat),
                            );
                            lemma_prepend_fusion(p@.drop_last(), v, enum_from(ed, t, (f - 1) as nat));
                            assert(p@.drop_last().push(v) =~= p@);
                            assert((ts@.len() - k as int) * (wchild as int) == (ts@.len() - (k as int
                                + 1)) * (wchild as int) + (wchild as int)) by (nonlinear_arith);
                        }
                    }
                    proof {
                        assert(ts@.skip(0) =~= ts@);
                        assert(stack_pending(ed, stack@) == pending(ed, (p, f)) + stack_pending(
                            ed,
                            rest,
                        ));
                        assert(paths_view(r@) + stack_pending(ed, stack@) =~= walk_spec(ed, n));
                        // the pushed children weigh strictly less than the
                        // entry they replace
                        reveal(pow);
                        assert(pow(b as int, f as nat) == (b as int) * pow(b as int, (f - 1) as nat));
                        assert(ts@.len() * (wchild as int) < (b as int) * (wchild as int))
                            by (nonlinear_arith)
                            requires
                                0 < wchild,
                                ts@.len() < b,
                        ;
                        assert(stack_weight(stack@, b) < stack_weight(st_before, b));
                    }
                }
            }
        }
        proof {
            assert(stack_pending(ed, stack@) =~= Seq::<Seq<usize>>::empty());
            assert(paths_view(r@) =~= walk_spec(ed, n));
        }
        r
    }
}

} // verus!
