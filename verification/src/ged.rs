//! Graph edit distance under the uniform unit-cost model: graph1's nodes
//! are assigned one at a time, each either mapped to an unused graph2 node
//! (one substitution) or deleted (one deletion); graph2 nodes left unmapped
//! cost one insertion each. The distance is the minimum over every complete
//! assignment. Exponential in the node count: meant for graphs of at most a
//! few dozen nodes. Under this cost model identical graphs do not score
//! zero — the identity mapping still pays one substitution per node.

use vstd::prelude::*;

use crate::data::NLGraph;
use vstd::set_lib::{lemma_int_range, lemma_len_subset, set_int_range};

verus! {

/// The minimum remaining cost with `used` graph2 nodes already taken,
/// `rem` graph1 nodes still to assign, and `n2` graph2 nodes in all: each
/// remaining assignment costs one, plus one insertion per unused graph2
/// node at the end.
pub open spec fn ged_from(used: nat, rem: nat, n2: nat) -> nat
    decreases rem,
{
    if rem == 0 {
        if used <= n2 {
            (n2 - used) as nat
        } else {
            0
        }
    } else {
        let del = 1 + ged_from(used, (rem - 1) as nat, n2);
        if used < n2 {
            let sub = 1 + ged_from((used + 1) as nat, (rem - 1) as nat, n2);
            if sub < del {
                sub
            } else {
                del
            }
        } else {
            del
        }
    }
}

/// The remaining cost never exceeds one per remaining node plus one per
/// unused graph2 node.
pub proof fn lemma_ged_from_le(used: nat, rem: nat, n2: nat)
    requires
        used <= n2,
    ensures
        ged_from(used, rem, n2) <= rem + n2 - used,
    decreases rem,
{
    if rem > 0 {
        lemma_ged_from_le(used, (rem - 1) as nat, n2);
        if used < n2 {
            lemma_ged_from_le((used + 1) as nat, (rem - 1) as nat, n2);
        }
    }
}

/// Law: the minimum assignment cost from the start is the larger node
/// count; in particular the distance between identical graphs is their node
/// count, never zero.
pub proof fn lemma_ged_value(rem: nat, n2: nat)
    ensures
        ged_from(0, rem, n2) == (if rem >= n2 {
            rem
        } else {
            n2
        }),
{
    lemma_ged_from_max(0, rem, n2);
}

/// The remaining minimum cost is exactly `max(rem, n2 - used)`.
proof fn lemma_ged_from_max(used: nat, rem: nat, n2: nat)
    requires
        used <= n2,
    ensures
        ged_from(used, rem, n2) == (if rem >= n2 - used {
            rem
        } else {
            (n2 - used) as nat
        }),
    decreases rem,
{
    if rem > 0 {
        lemma_ged_from_max(used, (rem - 1) as nat, n2);
        if used < n2 {
            lemma_ged_from_max((used + 1) as nat, (rem - 1) as nat, n2);
        }
    }
}

/// How many of the first `idx` assignment slots hold a mapping.
pub open spec fn num_used(m: Seq<Option<usize>>, idx: int) -> nat
    decreases idx,
{
    if idx <= 0 {
        0
    } else {
        num_used(m, idx - 1) + (if m[idx - 1] is Some {
            1nat
        } else {
            0nat
        })
    }
}

/// A partial assignment: the first `idx` slots hold distinct graph2 nodes
/// below `n2` or deletions, the rest are still empty.
pub open spec fn valid_partial(m: Seq<Option<usize>>, idx: int, n2: int) -> bool {
    &&& forall|k: int| 0 <= k < idx && m[k] is Some ==> (#[trigger] m[k])->0 < n2
    &&& forall|k1: int, k2: int|
        0 <= k1 < k2 < idx && m[k1] is Some && m[k2] is Some ==> (#[trigger] m[k1])->0 != (
        #[trigger] m[k2])->0
    &&& forall|k: int| idx <= k < m.len() ==> (#[trigger] m[k]) is None
}

/// Graph2 node `j` is already taken by one of the first `idx` slots.
pub open spec fn spec_used(m: Seq<Option<usize>>, idx: int, j: int) -> bool {
    exists|k: int| 0 <= k < idx && (#[trigger] m[k]) is Some && m[k]->0 == j
}

/// The set of taken graph2 nodes.
spec fn used_set(m: Seq<Option<usize>>, idx: int) -> Set<int> {
    Set::new(|j: int| spec_used(m, idx, j))
}

/// Under injectivity, the count of used slots is the cardinality of the set
/// of taken nodes.
proof fn lemma_num_used_is_card(m: Seq<Option<usize>>, idx: int, n2: int)
    requires
        0 <= idx <= m.len(),
        valid_partial(m, m.len() as int, n2) || valid_partial(m, idx, n2),
    ensures
        used_set(m, idx).finite(),
        used_set(m, idx).len() == num_used(m, idx),
    decreases idx,
{
    if idx == 0 {
        assert(used_set(m, 0) =~= Set::<int>::empty());
    } else {
        lemma_num_used_is_card(m, idx - 1, n2);
        match m[idx - 1] {
            Some(x) => {
                assert(used_set(m, idx) =~= used_set(m, idx - 1).insert(x as int)) by {
                    assert forall|j: int| spec_used(m, idx, j) implies (spec_used(m, idx - 1, j)
                        || j == x as int) by {
                        let k = choose|k: int|
                            0 <= k < idx && (#[trigger] m[k]) is Some && m[k]->0 == j;
                        if k < idx - 1 {
                            assert(spec_used(m, idx - 1, j));
                        }
                    }
                    assert(m[idx - 1] == Some(x));
                    assert(spec_used(m, idx, x as int));
                }
                assert(!spec_used(m, idx - 1, x as int)) by {
                    if spec_used(m, idx - 1, x as int) {
                        let k = choose|k: int|
                            0 <= k < idx - 1 && #[trigger] m[k] == Some(x as usize);
                        assert(m[k]->0 == m[idx - 1]->0);
                    }
                }
            },
            None => {
                assert(used_set(m, idx) =~= used_set(m, idx - 1)) by {
                    assert forall|j: int| spec_used(m, idx, j) implies spec_used(m, idx - 1, j) by {
                        let k = choose|k: int|
                            0 <= k < idx && (#[trigger] m[k]) is Some && m[k]->0 == j;
                        assert(k < idx - 1);
                    }
                }
            },
        }
    }
}

/// When every graph2 node is taken, at least `n2` slots are used.
proof fn lemma_all_used(m: Seq<Option<usize>>, idx: int, n2: int)
    requires
        0 <= idx <= m.len(),
        valid_partial(m, idx, n2),
        n2 >= 0,
        forall|j: int| 0 <= j < n2 ==> spec_used(m, idx, j),
    ensures
        num_used(m, idx) >= n2,
{
    lemma_num_used_is_card(m, idx, n2);
    let range = set_int_range(0, n2);
    lemma_int_range(0, n2);
    assert(range.subset_of(used_set(m, idx))) by {
        assert forall|j: int| range.contains(j) implies used_set(m, idx).contains(j) by {
            assert(spec_used(m, idx, j));
        }
    }
    lemma_len_subset(range, used_set(m, idx));
    lemma_num_used_is_card(m, idx, n2);
    assert(used_set(m, idx).len() >= n2);
}

/// A free graph2 node keeps the used count strictly below `n2`.
proof fn lemma_free_bounds(m: Seq<Option<usize>>, idx: int, n2: int, j: int)
    requires
        0 <= idx <= m.len(),
        valid_partial(m, idx, n2),
        0 <= j < n2,
        !spec_used(m, idx, j),
    ensures
        num_used(m, idx) < n2,
{
    lemma_num_used_is_card(m, idx, n2);
    let range = set_int_range(0, n2);
    lemma_int_range(0, n2);
    let smaller = range.remove(j);
    assert(used_set(m, idx).subset_of(smaller)) by {
        assert forall|x: int| used_set(m, idx).contains(x) implies smaller.contains(x) by {
            let k = choose|k: int| 0 <= k < idx && (#[trigger] m[k]) is Some && m[k]->0 == x;
            assert(x != j);
        }
    }
    assert(smaller.insert(j) =~= range);
    assert(smaller.len() == n2 - 1);
    lemma_len_subset(used_set(m, idx), smaller);
}

/// Taken nodes stay below `n2`, so at most `n2` slots are used.
proof fn lemma_used_below(m: Seq<Option<usize>>, idx: int, n2: int)
    requires
        0 <= idx <= m.len(),
        valid_partial(m, idx, n2),
        n2 >= 0,
    ensures
        num_used(m, idx) <= n2,
{
    lemma_num_used_is_card(m, idx, n2);
    let range = set_int_range(0, n2);
    lemma_int_range(0, n2);
    assert(used_set(m, idx).subset_of(range)) by {
        assert forall|j: int| used_set(m, idx).contains(j) implies range.contains(j) by {
            let k = choose|k: int| 0 <= k < idx && (#[trigger] m[k]) is Some && m[k]->0 == j;
        }
    }
    lemma_len_subset(used_set(m, idx), range);
}

/// Whether graph2 node `j` is taken by one of the first `idx` slots.
fn is_used(mapping: &Vec<Option<usize>>, idx: usize, j: usize) -> (r: bool)
    requires
        idx <= mapping@.len(),
    ensures
        r == spec_used(mapping@, idx as int, j as int),
{
    let mut k: usize = 0;
    while k < idx
        invariant
            k <= idx <= mapping@.len(),
            forall|k2: int|
                0 <= k2 < k ==> !((#[trigger] mapping@[k2]) is Some && mapping@[k2]->0 == j as int),
        decreases idx - k,
    {
        match mapping[k] {
            Some(x) => {
                if x == j {
                    return true;
                }
            },
            None => {},
        }
        k = k + 1;
    }
    false
}

/// The cost of one complete assignment: one substitution or deletion per
/// graph1 node, plus one insertion per graph2 node left unmapped.
fn calculate_edit_distance(mapping: &Vec<Option<usize>>, n2: usize) -> (r: usize)
    requires
        mapping@.len() + n2 < usize::MAX,
        valid_partial(mapping@, mapping@.len() as int, n2 as int),
    ensures
        r == mapping@.len() + n2 - num_used(mapping@, mapping@.len() as int),
{
    let mut c: usize = 0;
    let mut k: usize = 0;
    while k < mapping.len()
        invariant
            k <= mapping@.len(),
            c == num_used(mapping@, k as int),
            c <= k,
        decreases mapping@.len() - k,
    {
        if mapping[k].is_some() {
            c = c + 1;
        }
        k = k + 1;
    }
    proof {
        lemma_used_below(mapping@, mapping@.len() as int, n2 as int);
    }
    mapping.len() + (n2 - c)
}

/// Explores every way to finish the assignment from slot `index` on —
/// mapping the current graph1 node to each unused graph2 node, or deleting
/// it — and returns the minimum total cost; the assignment is left as it
/// was found.
#[verifier::loop_isolation(false)]
fn ged_recursive(n2: usize, mapping: &mut Vec<Option<usize>>, index: usize) -> (r: usize)
    requires
        index <= old(mapping)@.len(),
        old(mapping)@.len() + n2 < usize::MAX,
        valid_partial(old(mapping)@, index as int, n2 as int),
    ensures
        final (mapping)@ == old(mapping)@,
        r == index + ged_from(
            num_used(old(mapping)@, index as int),
            (old(mapping)@.len() - index) as nat,
            n2 as nat,
        ),
    decreases old(mapping)@.len() - index,
{
    let ghost m0 = mapping@;
    let ghost u = num_used(m0, index as int);
    let ghost rem = (m0.len() - index) as nat;
    proof {
        lemma_used_below(m0, index as int, n2 as int);
    }
    if index == mapping.len() {
        let r = calculate_edit_distance(mapping, n2);
        return r;
    }
    let mut min_distance: usize = usize::MAX;
    let ghost sub_val = index + 1 + ged_from((u + 1) as nat, (rem - 1) as nat, n2 as nat);
    proof {
        if u + 1 <= n2 {
            lemma_ged_from_le((u + 1) as nat, (rem - 1) as nat, n2 as nat);
        }
    }
    let mut j: usize = 0;
    while j < n2
        invariant
            index < mapping@.len(),
            mapping@.len() == m0.len(),
            n2 < usize::MAX,
            mapping@.len() + n2 < usize::MAX,
            j <= n2,
            u == num_used(m0, index as int),
            u <= n2,
            rem == (m0.len() - index) as nat,
            rem >= 1,
            valid_partial(m0, index as int, n2 as int),
            forall|k: int| 0 <= k < m0.len() && k != index ==> mapping@[k] == m0[k],
            sub_val == index + 1 + ged_from((u + 1) as nat, (rem - 1) as nat, n2 as nat),
            u + 1 <= n2 ==> sub_val < usize::MAX,
            (exists|j2: int| 0 <= j2 < j && !spec_used(m0, index as int, j2)) ==> u + 1 <= n2
                && min_distance == sub_val,
            !(exists|j2: int| 0 <= j2 < j && !spec_used(m0, index as int, j2)) ==> min_distance
                == usize::MAX,
        decreases n2 - j,
    {
        proof {
            assert(spec_used(mapping@, index as int, j as int) == spec_used(
                m0,
                index as int,
                j as int,
            )) by {
                if spec_used(mapping@, index as int, j as int) {
                    let k = choose|k: int|
                        0 <= k < index && (#[trigger] mapping@[k]) is Some && mapping@[k]->0
                            == j as int;
                    assert(m0[k] is Some && m0[k]->0 == j as int);
                }
                if spec_used(m0, index as int, j as int) {
                    let k = choose|k: int|
                        0 <= k < index && (#[trigger] m0[k]) is Some && m0[k]->0 == j as int;
                    assert(mapping@[k] is Some && mapping@[k]->0 == j as int);
                }
            }
        }
        if !is_used(mapping, index, j) {
            proof {
                assert(!spec_used(m0, index as int, j as int));
                lemma_free_bounds(m0, index as int, n2 as int, j as int);
                lemma_ged_from_le((u + 1) as nat, (rem - 1) as nat, n2 as nat);
                // mapping j keeps the partial assignment valid one slot further
                let m1 = mapping@.update(index as int, Some(j));
                assert(forall|k: int|
                    0 <= k < m0.len() && k != index ==> mapping@[k] == m0[k] && #[trigger] m1[k]
                        == m0[k]);
                assert(valid_partial(m1, index as int + 1, n2 as int)) by {
                    assert forall|k: int| 0 <= k < index + 1 && (#[trigger] m1[k]) is Some implies
                        m1[k]->0 < n2 as int by {
                        if k < index {
                            assert(m1[k] == m0[k]);
                        }
                    }
                    assert forall|k1: int, k2: int|
                        0 <= k1 < k2 < index + 1 && m1[k1] is Some && m1[k2] is Some implies (
                    #[trigger] m1[k1])->0 != (#[trigger] m1[k2])->0 by {
                        if k2 == index as int {
                            if m1[k1]->0 == j as int {
                                assert(m0[k1] is Some && m0[k1]->0 == j as int);
                                assert(spec_used(m0, index as int, j as int));
                            }
                        } else {
                            assert(m1[k1] == m0[k1] && m1[k2] == m0[k2]);
                        }
                    }
                    assert forall|k: int|
                        index + 1 <= k < m1.len() implies (#[trigger] m1[k]) is None by {
                        assert(m1[k] == m0[k]);
                    }
                }
                assert(num_used(m1, index as int + 1) == u + 1) by {
                    lemma_num_used_frame(m0, m1, index as int);
                }
            }
            mapping[index] = Some(j);
            let d = ged_recursive(n2, mapping, index + 1);
            proof {
                assert(u + 1 <= n2);
                assert(d == sub_val);
            }
            if d < min_distance {
                min_distance = d;
            }
            proof {
                assert(min_distance == sub_val);
            }
        }
        j = j + 1;
    }
    proof {
        let m1 = mapping@.update(index as int, None::<usize>);
        assert(valid_partial(m1, index as int + 1, n2 as int)) by {
            assert(forall|k: int|
                0 <= k < m0.len() && k != index ==> m1[k] == m0[k] && mapping@[k] == m0[k]);
        }
        assert(num_used(m1, index as int + 1) == u) by {
            lemma_num_used_frame(m0, m1, index as int);
        }
    }
    mapping[index] = None;
    let d = ged_recursive(n2, mapping, index + 1);
    let r = if d < min_distance {
        d
    } else {
        min_distance
    };
    proof {
        assert(d == index + 1 + ged_from(u, (rem - 1) as nat, n2 as nat));
        if u < n2 {
            // some graph2 node is free, so the substitution branch ran
            assert(exists|j2: int| 0 <= j2 < n2 && !spec_used(m0, index as int, j2)) by {
                if forall|j2: int| 0 <= j2 < n2 ==> spec_used(m0, index as int, j2) {
                    lemma_all_used(m0, index as int, n2 as int);
                }
            }
            assert(min_distance == sub_val);
        } else {
            assert(forall|j2: int| 0 <= j2 < n2 ==> spec_used(m0, index as int, j2)) by {
                assert forall|j2: int| 0 <= j2 < n2 implies spec_used(m0, index as int, j2) by {
                    if !spec_used(m0, index as int, j2) {
                        assert(min_distance == sub_val);
                        assert(u + 1 <= n2);
                    }
                }
            }
            assert(min_distance == usize::MAX);
            assert(d <= m0.len() + n2) by {
                lemma_ged_from_le(u, (rem - 1) as nat, n2 as nat);
            }
        }
        assert(mapping@ =~= m0);
    }
    r
}

/// Replacing the entry at `idx` changes nothing about how many of the first
/// `idx` slots are used, and the new entry alone decides slot `idx`.
proof fn lemma_num_used_frame(m0: Seq<Option<usize>>, m1: Seq<Option<usize>>, idx: int)
    requires
        0 <= idx < m0.len(),
        m1.len() == m0.len(),
        forall|k: int| 0 <= k < idx ==> m1[k] == m0[k],
    ensures
        num_used(m1, idx + 1) == num_used(m0, idx) + (if m1[idx] is Some {
            1nat
        } else {
            0nat
        }),
{
    lemma_num_used_prefix(m0, m1, idx);
}

/// Used-slot counts agree on a shared prefix.
proof fn lemma_num_used_prefix(m0: Seq<Option<usize>>, m1: Seq<Option<usize>>, idx: int)
    requires
        0 <= idx <= m0.len(),
        idx <= m1.len(),
        forall|k: int| 0 <= k < idx ==> m1[k] == m0[k],
    ensures
        num_used(m1, idx) == num_used(m0, idx),
    decreases idx,
{
    if idx > 0 {
        lemma_num_used_prefix(m0, m1, idx - 1);
    }
}

/// The exact structural edit distance between two graphs under the uniform
/// unit-cost model: the minimum, over every assignment of graph1's nodes to
/// distinct graph2 nodes or to deletion, of substitutions + deletions +
/// insertions. Comparing two empty graphs yields zero.
pub fn graph_edit_distance(graph1: &NLGraph, graph2: &NLGraph) -> (r: usize)
    requires
        graph1.nodes@.len() + graph2.nodes@.len() < usize::MAX,
    ensures
        r == ged_from(0, graph1.nodes@.len() as nat, graph2.nodes@.len() as nat),
{
    let n1 = graph1.nodes.len();
    let n2 = graph2.nodes.len();
    let mut mapping: Vec<Option<usize>> = Vec::with_capacity(n1);
    let mut k: usize = 0;
    while k < n1
        invariant
            k <= n1,
            mapping@.len() == k as int,
            forall|k2: int| 0 <= k2 < k ==> (#[trigger] mapping@[k2]) is None,
        decreases n1 - k,
    {
        mapping.push(None);
        k = k + 1;
    }
    let r = ged_recursive(n2, &mut mapping, 0);
    r
}

} // verus!
