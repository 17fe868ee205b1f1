//! The interchange document and its two directions: loading a document into
//! a graph — resolving node-id strings to handles and rejecting malformed
//! input with an error naming the failing node, edge or field — and
//! serializing a (possibly annotated) graph back into a document.

use vstd::prelude::*;

use crate::analysis::density_spec;
use crate::data::{edges_wf, ids_unique, EdgeData, NLGraph, NodeData, Ratio, Strand};

verus! {

/// One node record of the interchange document. A `None` stands for a field
/// that is missing or carries the wrong type. The analysis fields appear on
/// output only; the loader ignores them.
#[derive(Debug)]
pub struct NodeJson {
    pub id: Option<String>,
    pub name: Option<String>,
    pub chrom: Option<String>,
    pub ref_start: Option<u64>,
    pub ref_end: Option<u64>,
    pub strand: Option<char>,
    pub is_head: Option<bool>,
    pub indegree: Option<u64>,
    pub outdegree: Option<u64>,
    pub in_degree_centrality: Option<Ratio>,
    pub out_degree_centrality: Option<Ratio>,
    pub closeness_centrality: Option<Ratio>,
    pub local_clustering_coefficient: Option<Ratio>,
}

/// One edge record of the interchange document; endpoints are node-id
/// strings.
#[derive(Debug)]
pub struct EdgeJson {
    pub label: Option<String>,
    pub weight: Option<u64>,
    pub read_ids: Option<Vec<String>>,
    pub source: Option<String>,
    pub target: Option<String>,
}

/// The interchange document: a graph-level density and the node and edge
/// records.
#[derive(Debug)]
pub struct CyGraphJson {
    pub density: Option<Ratio>,
    pub nodes: Option<Vec<NodeJson>>,
    pub edges: Option<Vec<EdgeJson>>,
}

/// The record field that a load error names.
#[derive(Debug, Clone, Copy, PartialEq, Eq, Structural)]
pub enum FieldName {
    Id,
    Name,
    Chrom,
    RefStart,
    RefEnd,
    Strand,
    IsHead,
    Label,
    Weight,
    ReadIds,
    Source,
    Target,
}

/// Why a document failed to load, naming the first node or edge record and
/// field at fault. Fatal to this one document only.
#[derive(Debug, Clone, Copy, PartialEq, Eq, Structural)]
pub enum LoadError {
    /// The document has no node list.
    MissingNodes,
    /// The document has no edge list.
    MissingEdges,
    /// A node record misses a field or carries a malformed one.
    NodeField { index: usize, field: FieldName },
    /// A node record repeats an earlier node's id.
    DuplicateNodeId { index: usize },
    /// An edge record misses a field or carries a malformed one.
    EdgeField { index: usize, field: FieldName },
    /// An edge endpoint names no loaded node.
    UnknownEndpoint { index: usize, field: FieldName },
}

/// What loading one node record yields: the node with its analysis fields
/// zeroed, or the first missing or malformed field.
pub open spec fn spec_node_of(e: NodeJson, i: usize) -> Result<NodeData, LoadError> {
    if e.id is None {
        Err(LoadError::NodeField { index: i, field: FieldName::Id })
    } else if e.name is None {
        Err(LoadError::NodeField { index: i, field: FieldName::Name })
    } else if e.chrom is None {
        Err(LoadError::NodeField { index: i, field: FieldName::Chrom })
    } else if e.ref_start is None {
        Err(LoadError::NodeField { index: i, field: FieldName::RefStart })
    } else if e.ref_end is None {
        Err(LoadError::NodeField { index: i, field: FieldName::RefEnd })
    } else if e.strand is None || Strand::spec_from_code(e.strand->0) is None {
        Err(LoadError::NodeField { index: i, field: FieldName::Strand })
    } else if e.is_head is None {
        Err(LoadError::NodeField { index: i, field: FieldName::IsHead })
    } else {
        Ok(
            NodeData {
                id: e.id->0,
                label: e.name->0,
                chrom: e.chrom->0,
                ref_start: e.ref_start->0,
                ref_end: e.ref_end->0,
                strand: Strand::spec_from_code(e.strand->0)->0,
                is_head: e.is_head->0,
                indegree: 0,
                outdegree: 0,
                in_degree_centrality: Ratio::spec_zero(),
                out_degree_centrality: Ratio::spec_zero(),
                closeness_centrality: Ratio::spec_zero(),
                local_clustering_coefficient: Ratio::spec_zero(),
            },
        )
    }
}

/// The first of the first `k` nodes whose id reads `id`, if any.
pub open spec fn spec_find_id(nodes: Seq<NodeData>, id: Seq<char>, k: int) -> Option<int>
    decreases k,
{
    if k <= 0 {
        None
    } else {
        match spec_find_id(nodes, id, k - 1) {
            Some(x) => Some(x),
            None => if nodes[k - 1].id@ == id {
                Some(k - 1)
            } else {
                None
            },
        }
    }
}

/// What `spec_find_id` says: a hit is the first match; a miss means no
/// match.
pub proof fn lemma_find_id(nodes: Seq<NodeData>, id: Seq<char>, k: int)
    requires
        0 <= k <= nodes.len(),
    ensures
        match spec_find_id(nodes, id, k) {
            Some(x) => 0 <= x < k && nodes[x].id@ == id && forall|k2: int|
                0 <= k2 < x ==> nodes[k2].id@ != id,
            None => forall|k2: int| 0 <= k2 < k ==> nodes[k2].id@ != id,
        },
    decreases k,
{
    if k > 0 {
        lemma_find_id(nodes, id, k - 1);
    }
}

/// What loading the node records yields: the node arena in document order,
/// or the first error — a bad field, or a duplicated id.
pub open spec fn spec_load_nodes(entries: Seq<NodeJson>) -> Result<Seq<NodeData>, LoadError>
    decreases entries.len(),
{
    if entries.len() == 0 {
        Ok(Seq::empty())
    } else {
        match spec_load_nodes(entries.drop_last()) {
            Err(e) => Err(e),
            Ok(prefix) => {
                let i = (entries.len() - 1) as usize;
                match spec_node_of(entries.last(), i) {
                    Err(e) => Err(e),
                    Ok(nd) => if spec_find_id(prefix, nd.id@, prefix.len() as int) is Some {
                        Err(LoadError::DuplicateNodeId { index: i })
                    } else {
                        Ok(prefix.push(nd))
                    },
                }
            },
        }
    }
}

/// What loading one edge record against the loaded nodes yields: the edge
/// with endpoints resolved to handles, or the first bad field or unresolved
/// endpoint.
pub open spec fn spec_edge_of(e: EdgeJson, i: usize, nodes: Seq<NodeData>) -> Result<
    EdgeData,
    LoadError,
> {
    if e.label is None {
        Err(LoadError::EdgeField { index: i, field: FieldName::Label })
    } else if e.weight is None {
        Err(LoadError::EdgeField { index: i, field: FieldName::Weight })
    } else if e.read_ids is None {
        Err(LoadError::EdgeField { index: i, field: FieldName::ReadIds })
    } else if e.source is None {
        Err(LoadError::EdgeField { index: i, field: FieldName::Source })
    } else if e.target is None {
        Err(LoadError::EdgeField { index: i, field: FieldName::Target })
    } else {
        match spec_find_id(nodes, e.source->0@, nodes.len() as int) {
            None => Err(LoadError::UnknownEndpoint { index: i, field: FieldName::Source }),
            Some(s) => match spec_find_id(nodes, e.target->0@, nodes.len() as int) {
                None => Err(LoadError::UnknownEndpoint { index: i, field: FieldName::Target }),
                Some(t) => Ok(
                    EdgeData {
                        label: e.label->0,
                        weight: e.weight->0,
                        read_ids: e.read_ids->0,
                        source: s as usize,
                        target: t as usize,
                    },
                ),
            },
        }
    }
}

/// What loading the edge records yields: the edge arena in document order,
/// or the first error.
pub open spec fn spec_load_edges(entries: Seq<EdgeJson>, nodes: Seq<NodeData>) -> Result<
    Seq<EdgeData>,
    LoadError,
>
    decreases entries.len(),
{
    if entries.len() == 0 {
        Ok(Seq::empty())
    } else {
        match spec_load_edges(entries.drop_last(), nodes) {
            Err(e) => Err(e),
            Ok(prefix) => {
                let i = (entries.len() - 1) as usize;
                match spec_edge_of(entries.last(), i, nodes) {
                    Err(e) => Err(e),
                    Ok(ed) => Ok(prefix.push(ed)),
                }
            },
        }
    }
}

/// What loading a whole document yields: the node and edge arenas, or the
/// first error.
pub open spec fn spec_load(doc: CyGraphJson) -> Result<(Seq<NodeData>, Seq<EdgeData>), LoadError> {
    if doc.nodes is None {
        Err(LoadError::MissingNodes)
    } else if doc.edges is None {
        Err(LoadError::MissingEdges)
    } else {
        match spec_load_nodes(doc.nodes->0@) {
            Err(e) => Err(e),
            Ok(nodes) => match spec_load_edges(doc.edges->0@, nodes) {
                Err(e) => Err(e),
                Ok(edges) => Ok((nodes, edges)),
            },
        }
    }
}

/// A node-load error in a prefix settles the whole list.
proof fn lemma_load_nodes_err(entries: Seq<NodeJson>, k: int, e: LoadError)
    requires
        0 <= k <= entries.len(),
        spec_load_nodes(entries.take(k)) == Err::<Seq<NodeData>, LoadError>(e),
    ensures
        spec_load_nodes(entries) == Err::<Seq<NodeData>, LoadError>(e),
    decreases entries.len() - k,
{
    if k == entries.len() {
        assert(entries.take(k) =~= entries);
    } else {
        assert(entries.take(k + 1).drop_last() =~= entries.take(k));
        lemma_load_nodes_err(entries, k + 1, e);
    }
}

/// An edge-load error in a prefix settles the whole list.
proof fn lemma_load_edges_err(entries: Seq<EdgeJson>, nodes: Seq<NodeData>, k: int, e: LoadError)
    requires
        0 <= k <= entries.len(),
        spec_load_edges(entries.take(k), nodes) == Err::<Seq<EdgeData>, LoadError>(e),
    ensures
        spec_load_edges(entries, nodes) == Err::<Seq<EdgeData>, LoadError>(e),
    decreases entries.len() - k,
{
    if k == entries.len() {
        assert(entries.take(k) =~= entries);
    } else {
        assert(entries.take(k + 1).drop_last() =~= entries.take(k));
        lemma_load_edges_err(entries, nodes, k + 1, e);
    }
}

/// Loaded nodes carry pairwise distinct ids, one node per record.
pub proof fn lemma_load_nodes_unique(entries: Seq<NodeJson>, nodes: Seq<NodeData>)
    requires
        spec_load_nodes(entries) == Ok::<Seq<NodeData>, LoadError>(nodes),
    ensures
        nodes.len() == entries.len(),
        ids_unique(nodes),
    decreases entries.len(),
{
    if entries.len() > 0 {
        let prefix = spec_load_nodes(entries.drop_last())->Ok_0;
        lemma_load_nodes_unique(entries.drop_last(), prefix);
        lemma_find_id(prefix, nodes.last().id@, prefix.len() as int);
    }
}

/// Loaded edges point at loaded nodes, one edge per record.
pub proof fn lemma_load_edges_wf(entries: Seq<EdgeJson>, nodes: Seq<NodeData>, edges: Seq<EdgeData>)
    requires
        spec_load_edges(entries, nodes) == Ok::<Seq<EdgeData>, LoadError>(edges),
    ensures
        edges.len() == entries.len(),
        edges_wf(edges, nodes.len() as int),
    decreases entries.len(),
{
    if entries.len() > 0 {
        let prefix = spec_load_edges(entries.drop_last(), nodes)->Ok_0;
        lemma_load_edges_wf(entries.drop_last(), nodes, prefix);
        let i = (entries.len() - 1) as usize;
        let last = spec_edge_of(entries.last(), i, nodes)->Ok_0;
        lemma_find_id(nodes, entries.last().source->0@, nodes.len() as int);
        lemma_find_id(nodes, entries.last().target->0@, nodes.len() as int);
    }
}

/// The first loaded node whose id equals `id`, if any.
fn find_node_by_id(nodes: &Vec<NodeData>, id: &String) -> (r: Option<usize>)
    ensures
        match r {
            Some(x) => spec_find_id(nodes@, id@, nodes@.len() as int) == Some(x as int),
            None => spec_find_id(nodes@, id@, nodes@.len() as int) is None,
        },
{
    proof {
        lemma_find_id(nodes@, id@, nodes@.len() as int);
    }
    let mut i: usize = 0;
    while i < nodes.len()
        invariant
            i <= nodes@.len(),
            forall|k: int| 0 <= k < i ==> (#[trigger] nodes@[k].id@) != id@,
        decreases nodes@.len() - i,
    {
        if nodes[i].id == *id {
            proof {
                lemma_find_id(nodes@, id@, nodes@.len() as int);
            }
            return Some(i);
        }
        i = i + 1;
    }
    None
}

impl NodeData {
    /// Reads one node record of the document, taking the fields in document
    /// order: the first missing or malformed field is the error, and the
    /// analysis fields start at zero.
    pub fn from_json(entry: NodeJson, index: usize) -> (r: Result<NodeData, LoadError>)
        ensures
            r == spec_node_of(entry, index),
    {
        let id = match entry.id {
            Some(s) => s,
            None => {
                return Err(LoadError::NodeField { index, field: FieldName::Id });
            },
        };
        let label = match entry.name {
            Some(s) => s,
            None => {
                return Err(LoadError::NodeField { index, field: FieldName::Name });
            },
        };
        let chrom = match entry.chrom {
            Some(s) => s,
            None => {
                return Err(LoadError::NodeField { index, field: FieldName::Chrom });
            },
        };
        let ref_start = match entry.ref_start {
            Some(v) => v,
            None => {
                return Err(LoadError::NodeField { index, field: FieldName::RefStart });
            },
        };
        let ref_end = match entry.ref_end {
            Some(v) => v,
            None => {
                return Err(LoadError::NodeField { index, field: FieldName::RefEnd });
            },
        };
        let strand = match entry.strand {
            Some(c) => match Strand::from_code(c) {
                Some(st) => st,
                None => {
                    return Err(LoadError::NodeField { index, field: FieldName::Strand });
                },
            },
            None => {
                return Err(LoadError::NodeField { index, field: FieldName::Strand });
            },
        };
        let is_head = match entry.is_head {
            Some(b) => b,
            None => {
                return Err(LoadError::NodeField { index, field: FieldName::IsHead });
            },
        };
        Ok(
            NodeData {
                id,
                label,
                chrom,
                ref_start,
                ref_end,
                strand,
                is_head,
                indegree: 0,
                outdegree: 0,
                in_degree_centrality: Ratio::zero(),
                out_degree_centrality: Ratio::zero(),
                closeness_centrality: Ratio::zero(),
                local_clustering_coefficient: Ratio::zero(),
            },
        )
    }
}

impl EdgeData {
    /// Reads one edge record of the document, resolving the endpoint id
    /// strings through the loaded nodes: the first missing field or
    /// unresolved endpoint is the error.
    pub fn from_json(entry: EdgeJson, index: usize, nodes: &Vec<NodeData>) -> (r: Result<
        EdgeData,
        LoadError,
    >)
        ensures
            r == spec_edge_of(entry, index, nodes@),
    {
        let label = match entry.label {
            Some(s) => s,
            None => {
                return Err(LoadError::EdgeField { index, field: FieldName::Label });
            },
        };
        let weight = match entry.weight {
            Some(v) => v,
            None => {
                return Err(LoadError::EdgeField { index, field: FieldName::Weight });
            },
        };
        let read_ids = match entry.read_ids {
            Some(v) => v,
            None => {
                return Err(LoadError::EdgeField { index, field: FieldName::ReadIds });
            },
        };
        let source_id = match entry.source {
            Some(s) => s,
            None => {
                return Err(LoadError::EdgeField { index, field: FieldName::Source });
            },
        };
        let target_id = match entry.target {
            Some(s) => s,
            None => {
                return Err(LoadError::EdgeField { index, field: FieldName::Target });
            },
        };
        let source = match find_node_by_id(nodes, &source_id) {
            Some(x) => x,
            None => {
                return Err(LoadError::UnknownEndpoint { index, field: FieldName::Source });
            },
        };
        let target = match find_node_by_id(nodes, &target_id) {
            Some(x) => x,
            None => {
                return Err(LoadError::UnknownEndpoint { index, field: FieldName::Target });
            },
        };
        Ok(EdgeData { label, weight, read_ids, source, target })
    }
}

/// Builds a graph from an interchange document: nodes inserted in document
/// order and given handles by position, edge endpoints resolved through the
/// node ids. Yields exactly the error that `spec_load` names — a missing
/// list, a missing or malformed field, a duplicate node id, or an unknown
/// endpoint — on exactly the documents where it names one.
#[verifier::loop_isolation(false)]
pub fn load_cygraph_from_json(data: CyGraphJson) -> (r: Result<NLGraph, LoadError>)
    ensures
        match r {
            Ok(g) => spec_load(data) == Ok::<(Seq<NodeData>, Seq<EdgeData>), LoadError>(
                (g.nodes@, g.edges@),
            ) && g.wf(),
            Err(e) => spec_load(data) == Err::<(Seq<NodeData>, Seq<EdgeData>), LoadError>(e),
        },
{
    let mut node_entries = match data.nodes {
        Some(v) => v,
        None => {
            return Err(LoadError::MissingNodes);
        },
    };
    let mut edge_entries = match data.edges {
        Some(v) => v,
        None => {
            return Err(LoadError::MissingEdges);
        },
    };
    let ghost nseq = node_entries@;
    let ghost eseq = edge_entries@;
    let n_nodes = node_entries.len();
    let mut nodes: Vec<NodeData> = Vec::with_capacity(n_nodes);
    let mut i: usize = 0;
    while i < n_nodes
        invariant
            i <= n_nodes,
            nseq.len() == n_nodes,
            node_entries@ == nseq.skip(i as int),
            spec_load_nodes(nseq.take(i as int)) == Ok::<Seq<NodeData>, LoadError>(nodes@),
            nodes@.len() == i as int,
        decreases n_nodes - i,
    {
        let entry = node_entries.remove(0);
        proof {
            assert(entry == nseq[i as int]);
            assert(nseq.skip(i as int).remove(0) =~= nseq.skip(i as int + 1));
            assert(nseq.take(i as int + 1).drop_last() =~= nseq.take(i as int));
            assert(nseq.take(i as int + 1).last() == nseq[i as int]);
        }
        let nd = match NodeData::from_json(entry, i) {
            Ok(nd) => nd,
            Err(e) => {
                proof {
                    lemma_load_nodes_err(nseq, i as int + 1, e);
                }
                return Err(e);
            },
        };
        match find_node_by_id(&nodes, &nd.id) {
            Some(_) => {
                let e = LoadError::DuplicateNodeId { index: i };
                proof {
                    lemma_load_nodes_err(nseq, i as int + 1, e);
                }
                return Err(e);
            },
            None => {},
        }
        nodes.push(nd);
        i = i + 1;
    }
    proof {
        assert(nseq.take(n_nodes as int) =~= nseq);
    }
    let n_edges = edge_entries.len();
    let mut edges: Vec<EdgeData> = Vec::with_capacity(n_edges);
    let mut j: usize = 0;
    while j < n_edges
        invariant
            j <= n_edges,
            eseq.len() == n_edges,
            edge_entries@ == eseq.skip(j as int),
            spec_load_nodes(nseq) == Ok::<Seq<NodeData>, LoadError>(nodes@),
            spec_load_edges(eseq.take(j as int), nodes@) == Ok::<Seq<EdgeData>, LoadError>(edges@),
        decreases n_edges - j,
    {
        let entry = edge_entries.remove(0);
        proof {
            assert(entry == eseq[j as int]);
            assert(eseq.skip(j as int).remove(0) =~= eseq.skip(j as int + 1));
            assert(eseq.take(j as int + 1).drop_last() =~= eseq.take(j as int));
            assert(eseq.take(j as int + 1).last() == eseq[j as int]);
        }
        let ed = match EdgeData::from_json(entry, j, &nodes) {
            Ok(ed) => ed,
            Err(e) => {
                proof {
                    lemma_load_edges_err(eseq, nodes@, j as int + 1, e);
                }
                return Err(e);
            },
        };
        edges.push(ed);
        j = j + 1;
    }
    proof {
        assert(eseq.take(n_edges as int) =~= eseq);
        lemma_load_nodes_unique(nseq, nodes@);
        lemma_load_edges_wf(eseq, nodes@, edges@);
    }
    Ok(NLGraph { nodes, edges })
}

/// The node record that the serializer writes for `nd`: every descriptive
/// field and every analysis field, all present.
pub open spec fn node_json_of(nd: NodeData) -> NodeJson {
    NodeJson {
        id: Some(nd.id),
        name: Some(nd.label),
        chrom: Some(nd.chrom),
        ref_start: Some(nd.ref_start),
        ref_end: Some(nd.ref_end),
        strand: Some(nd.strand.spec_code()),
        is_head: Some(nd.is_head),
        indegree: Some(nd.indegree as u64),
        outdegree: Some(nd.outdegree as u64),
        in_degree_centrality: Some(nd.in_degree_centrality),
        out_degree_centrality: Some(nd.out_degree_centrality),
        closeness_centrality: Some(nd.closeness_centrality),
        local_clustering_coefficient: Some(nd.local_clustering_coefficient),
    }
}

/// The edge record that the serializer writes for `ed`: all fields present,
/// the endpoints restored to their node-id strings.
pub open spec fn edge_json_matches(ej: EdgeJson, ed: EdgeData, nodes: Seq<NodeData>) -> bool {
    &&& ej.label == Some(ed.label)
    &&& ej.weight == Some(ed.weight)
    &&& ej.read_ids is Some
    &&& ej.read_ids->0@ == ed.read_ids@
    &&& ej.source == Some(nodes[ed.source as int].id)
    &&& ej.target == Some(nodes[ed.target as int].id)
}

/// `nd` as the loader rebuilds it from its own serialization: the
/// descriptive fields kept, the analysis fields fresh.
pub open spec fn reloaded_node(nd: NodeData) -> NodeData {
    NodeData {
        id: nd.id,
        label: nd.label,
        chrom: nd.chrom,
        ref_start: nd.ref_start,
        ref_end: nd.ref_end,
        strand: nd.strand,
        is_head: nd.is_head,
        indegree: 0,
        outdegree: 0,
        in_degree_centrality: Ratio::spec_zero(),
        out_degree_centrality: Ratio::spec_zero(),
        closeness_centrality: Ratio::spec_zero(),
        local_clustering_coefficient: Ratio::spec_zero(),
    }
}

/// The whole edge tuple agrees: label, weight, read identifiers and both
/// resolved endpoints.
pub open spec fn edge_tuple_matches(a: EdgeData, b: EdgeData) -> bool {
    &&& a.label == b.label
    &&& a.weight == b.weight
    &&& a.read_ids@ == b.read_ids@
    &&& a.source == b.source
    &&& a.target == b.target
}

/// One serialized node record loads back as the node with fresh analysis
/// fields.
proof fn lemma_node_round(nd: NodeData, i: usize)
    ensures
        spec_node_of(node_json_of(nd), i) == Ok::<NodeData, LoadError>(reloaded_node(nd)),
{
    match nd.strand {
        Strand::Positive => {},
        Strand::Negative => {},
    }
}

/// The serialized node records load back in order, each with fresh analysis
/// fields: unique ids rule the duplicate check out.
proof fn lemma_load_nodes_round(nodes: Seq<NodeData>, njs: Seq<NodeJson>, k: int)
    requires
        ids_unique(nodes),
        njs.len() == nodes.len(),
        forall|i: int| 0 <= i < nodes.len() ==> njs[i] == node_json_of(nodes[i]),
        0 <= k <= nodes.len(),
        nodes.len() <= usize::MAX,
    ensures
        spec_load_nodes(njs.take(k)) is Ok,
        spec_load_nodes(njs.take(k))->Ok_0.len() == k,
        forall|i: int|
            0 <= i < k ==> spec_load_nodes(njs.take(k))->Ok_0[i] == reloaded_node(nodes[i]),
    decreases k,
{
    if k > 0 {
        lemma_load_nodes_round(nodes, njs, k - 1);
        let prefix = spec_load_nodes(njs.take(k - 1))->Ok_0;
        assert(njs.take(k).drop_last() =~= njs.take(k - 1));
        assert(njs.take(k).last() == njs[k - 1]);
        lemma_node_round(nodes[k - 1], (k - 1) as usize);
        lemma_find_id(prefix, nodes[k - 1].id@, prefix.len() as int);
        match spec_find_id(prefix, nodes[k - 1].id@, prefix.len() as int) {
            Some(x) => {
                assert(prefix[x] == reloaded_node(nodes[x]));
                assert(nodes[x].id@ == nodes[k - 1].id@);
                assert(false);
            },
            None => {},
        }
    }
}

/// One serialized edge record resolves back to the same endpoints: unique
/// ids pin the lookup to the original handle.
proof fn lemma_edge_round(
    ej: EdgeJson,
    ed: EdgeData,
    nodes: Seq<NodeData>,
    loaded: Seq<NodeData>,
    i: usize,
)
    requires
        edge_json_matches(ej, ed, nodes),
        ids_unique(nodes),
        loaded.len() == nodes.len(),
        forall|k: int| 0 <= k < nodes.len() ==> loaded[k] == reloaded_node(nodes[k]),
        ed.source < nodes.len(),
        ed.target < nodes.len(),
    ensures
        spec_edge_of(ej, i, loaded) is Ok,
        edge_tuple_matches(spec_edge_of(ej, i, loaded)->Ok_0, ed),
{
    let n = loaded.len() as int;
    lemma_find_id(loaded, ej.source->0@, n);
    assert(loaded[ed.source as int].id@ == ej.source->0@);
    match spec_find_id(loaded, ej.source->0@, n) {
        Some(x) => {
            if x != ed.source as int {
                assert(nodes[x].id@ == nodes[ed.source as int].id@);
                assert(false);
            }
        },
        None => {
            assert(false);
        },
    }
    lemma_find_id(loaded, ej.target->0@, n);
    assert(loaded[ed.target as int].id@ == ej.target->0@);
    match spec_find_id(loaded, ej.target->0@, n) {
        Some(x) => {
            if x != ed.target as int {
                assert(nodes[x].id@ == nodes[ed.target as int].id@);
                assert(false);
            }
        },
        None => {
            assert(false);
        },
    }
}

/// The serialized edge records load back in order as the same edge tuples.
proof fn lemma_load_edges_round(
    edges: Seq<EdgeData>,
    ejs: Seq<EdgeJson>,
    nodes: Seq<NodeData>,
    loaded: Seq<NodeData>,
    k: int,
)
    requires
        ids_unique(nodes),
        edges_wf(edges, nodes.len() as int),
        ejs.len() == edges.len(),
        forall|e: int| 0 <= e < edges.len() ==> edge_json_matches(ejs[e], edges[e], nodes),
        loaded.len() == nodes.len(),
        forall|j: int| 0 <= j < nodes.len() ==> loaded[j] == reloaded_node(nodes[j]),
        0 <= k <= edges.len(),
        edges.len() <= usize::MAX,
    ensures
        spec_load_edges(ejs.take(k), loaded) is Ok,
        spec_load_edges(ejs.take(k), loaded)->Ok_0.len() == k,
        forall|e: int|
            0 <= e < k ==> edge_tuple_matches(
                spec_load_edges(ejs.take(k), loaded)->Ok_0[e],
                edges[e],
            ),
    decreases k,
{
    if k > 0 {
        lemma_load_edges_round(edges, ejs, nodes, loaded, k - 1);
        assert(ejs.take(k).drop_last() =~= ejs.take(k - 1));
        assert(ejs.take(k).last() == ejs[k - 1]);
        lemma_edge_round(ejs[k - 1], edges[k - 1], nodes, loaded, (k - 1) as usize);
    }
}

/// Law: loading a serialized graph succeeds and yields the same node ids
/// and descriptive fields, the same edge tuples — label, weight, read
/// identifiers, source and target — and the same node and edge counts; the
/// computed analysis fields start fresh. `doc` is any document that
/// `to_cyjson` may produce for `g`.
pub proof fn lemma_round_trip(g: NLGraph, doc: CyGraphJson)
    requires
        g.wf(),
        g.nodes@.len() <= usize::MAX,
        g.edges@.len() <= usize::MAX,
        doc.nodes is Some,
        doc.nodes->0@.len() == g.nodes@.len(),
        forall|i: int| 0 <= i < g.nodes@.len() ==> doc.nodes->0@[i] == node_json_of(g.nodes@[i]),
        doc.edges is Some,
        doc.edges->0@.len() == g.edges@.len(),
        forall|e: int|
            0 <= e < g.edges@.len() ==> edge_json_matches(doc.edges->0@[e], g.edges@[e], g.nodes@),
    ensures
        spec_load(doc) is Ok,
        spec_load(doc)->Ok_0.0.len() == g.nodes@.len(),
        spec_load(doc)->Ok_0.1.len() == g.edges@.len(),
        forall|i: int|
            0 <= i < g.nodes@.len() ==> spec_load(doc)->Ok_0.0[i] == reloaded_node(g.nodes@[i]),
        forall|e: int|
            0 <= e < g.edges@.len() ==> edge_tuple_matches(spec_load(doc)->Ok_0.1[e], g.edges@[e]),
{
    let njs = doc.nodes->0@;
    let ejs = doc.edges->0@;
    lemma_load_nodes_round(g.nodes@, njs, njs.len() as int);
    assert(njs.take(njs.len() as int) =~= njs);
    let loaded = spec_load_nodes(njs)->Ok_0;
    lemma_load_edges_round(g.edges@, ejs, g.nodes@, loaded, ejs.len() as int);
    assert(ejs.take(ejs.len() as int) =~= ejs);
}

/// Copies a list of read identifiers.
fn clone_strings(v: &Vec<String>) -> (r: Vec<String>)
    ensures
        r@ == v@,
{
    let mut r: Vec<String> = Vec::with_capacity(v.len());
    let mut i: usize = 0;
    while i < v.len()
        invariant
            i <= v@.len(),
            r@.len() == i as int,
            forall|k: int| 0 <= k < i ==> r@[k] == v@[k],
        decreases v@.len() - i,
    {
        r.push(v[i].clone());
        i = i + 1;
    }
    proof {
        assert(r@ =~= v@);
    }
    r
}

impl NLGraph {
    /// Serializes the graph back into an interchange document: the computed
    /// density, every node with its full current attribute set, and every
    /// edge with its endpoints restored to their original node-id strings.
    pub fn to_cyjson(&self) -> (r: CyGraphJson)
        requires
            self.wf(),
        ensures
            r.density == Some(density_spec(*self)),
            r.nodes is Some,
            r.nodes->0@.len() == self.nodes@.len(),
            forall|i: int|
                0 <= i < self.nodes@.len() ==> r.nodes->0@[i] == node_json_of(self.nodes@[i]),
            r.edges is Some,
            r.edges->0@.len() == self.edges@.len(),
            forall|e: int|
                0 <= e < self.edges@.len() ==> edge_json_matches(
                    r.edges->0@[e],
                    self.edges@[e],
                    self.nodes@,
                ),
    {
        let density = self.density();
        let n = self.nodes.len();
        let mut njs: Vec<NodeJson> = Vec::with_capacity(n);
        let mut i: usize = 0;
        while i < n
            invariant
                i <= n,
                n == self.nodes@.len(),
                njs@.len() == i as int,
                forall|k: int| 0 <= k < i ==> njs@[k] == node_json_of(self.nodes@[k]),
            decreases n - i,
        {
            let nd = &self.nodes[i];
            njs.push(
                NodeJson {
                    id: Some(nd.id.clone()),
                    name: Some(nd.label.clone()),
                    chrom: Some(nd.chrom.clone()),
                    ref_start: Some(nd.ref_start),
                    ref_end: Some(nd.ref_end),
                    strand: Some(nd.strand.code()),
                    is_head: Some(nd.is_head),
                    indegree: Some(nd.indegree as u64),
                    outdegree: Some(nd.outdegree as u64),
                    in_degree_centrality: Some(nd.in_degree_centrality),
                    out_degree_centrality: Some(nd.out_degree_centrality),
                    closeness_centrality: Some(nd.closeness_centrality),
                    local_clustering_coefficient: Some(nd.local_clustering_coefficient),
                },
            );
            i = i + 1;
        }
        let m = self.edges.len();
        let mut ejs: Vec<EdgeJson> = Vec::with_capacity(m);
        let mut e: usize = 0;
        while e < m
            invariant
                e <= m,
                m == self.edges@.len(),
                self.wf(),
                n == self.nodes@.len(),
                ejs@.len() == e as int,
                forall|k: int|
                    0 <= k < e ==> edge_json_matches(ejs@[k], self.edges@[k], self.nodes@),
            decreases m - e,
        {
            let ed = &self.edges[e];
            ejs.push(
                EdgeJson {
                    label: Some(ed.label.clone()),
                    weight: Some(ed.weight),
                    read_ids: Some(clone_strings(&ed.read_ids)),
                    source: Some(self.nodes[ed.source].id.clone()),
                    target: Some(self.nodes[ed.target].id.clone()),
                },
            );
            e = e + 1;
        }
        CyGraphJson { density: Some(density), nodes: Some(njs), edges: Some(ejs) }
    }
}

} // verus!
