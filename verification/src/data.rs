//! The in-memory data model: strand codes, node and edge records, and the
//! graph arena. Nodes and edges live in growable vectors; an edge names its
//! endpoints by index into the node vector.

use vstd::prelude::*;

verus! {

/// Orientation of a breakpoint on the reference: positive or negative strand.
#[derive(Debug, Clone, Copy, PartialEq, Eq, Structural)]
pub enum Strand {
    Positive,
    Negative,
}

impl Strand {
    /// Builds a strand from its single-character display code.
    /// Only the two codes "+" and "-" denote a strand.
    pub fn new(s: &str) -> (r: Strand)
        requires
            s@ == "+"@ || s@ == "-"@,
        ensures
            r == (if s@ == "+"@ {
                Strand::Positive
            } else {
                Strand::Negative
            }),
    {
        if s.to_owned() == "+".to_owned() {
            Strand::Positive
        } else {
            Strand::Negative
        }
    }

    /// Fallible form of `new` over the bare character code: any character
    /// other than '+' or '-' is rejected rather than aborting.
    pub fn from_code(c: char) -> (r: Option<Strand>)
        ensures
            r == Strand::spec_from_code(c),
    {
        if c == '+' {
            Some(Strand::Positive)
        } else if c == '-' {
            Some(Strand::Negative)
        } else {
            None
        }
    }

    /// What `from_code` returns: a strand for '+' and '-', nothing otherwise.
    pub open spec fn spec_from_code(c: char) -> Option<Strand> {
        if c == '+' {
            Some(Strand::Positive)
        } else if c == '-' {
            Some(Strand::Negative)
        } else {
            None
        }
    }

    /// The character code of this strand, inverse of `from_code`.
    pub fn code(&self) -> (c: char)
        ensures
            c == self.spec_code(),
    {
        match self {
            Strand::Positive => '+',
            Strand::Negative => '-',
        }
    }

    /// What `code` returns.
    pub open spec fn spec_code(self) -> char {
        match self {
            Strand::Positive => '+',
            Strand::Negative => '-',
        }
    }

    /// True exactly on the negative strand.
    pub fn is_reverse(&self) -> (r: bool)
        ensures
            r == (self is Negative),
    {
        match self {
            Strand::Positive => false,
            Strand::Negative => true,
        }
    }
}

/// An exact non-negative rational: every computed metric is carried as
/// `num / den` rather than as an inexact machine number. A metric whose
/// denominator would be zero is stored as the canonical zero `0 / 1`,
/// so `den` is never zero.
#[derive(Debug, Clone, Copy, PartialEq, Eq, Structural)]
pub struct Ratio {
    pub num: u128,
    pub den: u128,
}

impl Ratio {
    /// The canonical zero value.
    pub open spec fn spec_zero() -> Ratio {
        Ratio { num: 0, den: 1 }
    }

    /// The ratio `num / den`, collapsed to canonical zero when the
    /// denominator (or the numerator) is zero.
    pub open spec fn spec_make(num: u128, den: u128) -> Ratio {
        if den == 0 || num == 0 {
            Ratio { num: 0, den: 1 }
        } else {
            Ratio { num, den }
        }
    }

    /// Builds `num / den`, yielding the canonical zero on a zero denominator
    /// rather than an undefined value.
    pub fn make(num: u128, den: u128) -> (r: Ratio)
        ensures
            r == Ratio::spec_make(num, den),
    {
        if den == 0 || num == 0 {
            Ratio { num: 0, den: 1 }
        } else {
            Ratio { num, den }
        }
    }

    /// The canonical zero.
    pub fn zero() -> (r: Ratio)
        ensures
            r == Ratio::spec_zero(),
    {
        Ratio { num: 0, den: 1 }
    }
}

/// One breakpoint endpoint. The seven descriptive fields come from the
/// interchange document; the six analysis fields start at zero and are
/// overwritten by the corresponding analysis pass.
#[derive(Debug)]
pub struct NodeData {
    pub id: String,
    pub label: String,
    pub chrom: String,
    pub ref_start: u64,
    pub ref_end: u64,
    pub strand: Strand,
    pub is_head: bool,
    pub indegree: usize,
    pub outdegree: usize,
    pub in_degree_centrality: Ratio,
    pub out_degree_centrality: Ratio,
    pub closeness_centrality: Ratio,
    pub local_clustering_coefficient: Ratio,
}

/// One piece of structural-variant evidence linking two breakpoints.
/// `source` and `target` are node handles: indexes into the graph's node
/// vector, resolved from node-id strings at load time.
#[derive(Debug)]
pub struct EdgeData {
    pub label: String,
    pub weight: u64,
    pub read_ids: Vec<String>,
    pub source: usize,
    pub target: usize,
}

/// The directed multigraph: an arena of node records and an arena of edge
/// records; parallel edges between the same ordered pair are permitted.
#[derive(Debug)]
pub struct NLGraph {
    pub nodes: Vec<NodeData>,
    pub edges: Vec<EdgeData>,
}

/// Every edge's endpoints name an existing node.
pub open spec fn edges_wf(edges: Seq<EdgeData>, n: int) -> bool {
    forall|e: int|
        0 <= e < edges.len() ==> #[trigger] edges[e].source < n && edges[e].target < n
}

/// No two nodes carry the same id string.
pub open spec fn ids_unique(nodes: Seq<NodeData>) -> bool {
    forall|i: int, j: int|
        0 <= i < j < nodes.len() ==> #[trigger] nodes[i].id@ != #[trigger] nodes[j].id@
}

impl NLGraph {
    /// Well-formedness established by the loader and preserved by every
    /// analysis pass: edges resolve, node ids are unique.
    pub open spec fn wf(self) -> bool {
        &&& edges_wf(self.edges@, self.nodes@.len() as int)
        &&& ids_unique(self.nodes@)
    }

    /// Number of nodes.
    pub fn node_count(&self) -> (n: usize)
        ensures
            n == self.nodes@.len(),
    {
        self.nodes.len()
    }

    /// Number of edges, parallel edges counted individually.
    pub fn edge_count(&self) -> (m: usize)
        ensures
            m == self.edges@.len(),
    {
        self.edges.len()
    }
}

/// There is an edge from `a` to `b` (directed adjacency).
pub open spec fn dadj(edges: Seq<EdgeData>, a: int, b: int) -> bool {
    exists|e: int|
        0 <= e < edges.len() && #[trigger] edges[e].source == a && edges[e].target == b
}

/// There is an edge between `a` and `b` in either direction
/// (undirected adjacency).
pub open spec fn uadj(edges: Seq<EdgeData>, a: int, b: int) -> bool {
    dadj(edges, a, b) || dadj(edges, b, a)
}

/// Adjacency in the chosen reading of the edges: directed, or undirected
/// when `undirected` is set.
pub open spec fn adj(edges: Seq<EdgeData>, undirected: bool, a: int, b: int) -> bool {
    dadj(edges, a, b) || (undirected && dadj(edges, b, a))
}

/// How many of the first `k` edges end at node `v`.
pub open spec fn count_in(edges: Seq<EdgeData>, v: int, k: int) -> nat
    decreases k,
{
    if k <= 0 {
        0
    } else {
        count_in(edges, v, k - 1) + (if edges[k - 1].target == v {
            1nat
        } else {
            0nat
        })
    }
}

/// How many of the first `k` edges start at node `v`.
pub open spec fn count_out(edges: Seq<EdgeData>, v: int, k: int) -> nat
    decreases k,
{
    if k <= 0 {
        0
    } else {
        count_out(edges, v, k - 1) + (if edges[k - 1].source == v {
            1nat
        } else {
            0nat
        })
    }
}

/// The indegree of `v`: edges whose target is `v`, parallel edges counted
/// individually.
pub open spec fn indegree_of(edges: Seq<EdgeData>, v: int) -> nat {
    count_in(edges, v, edges.len() as int)
}

/// The outdegree of `v`: edges whose source is `v`.
pub open spec fn outdegree_of(edges: Seq<EdgeData>, v: int) -> nat {
    count_out(edges, v, edges.len() as int)
}

} // verus!
