use rboss::load::{
    load_cygraph_from_json, CyGraphJson, EdgeJson, FieldName, LoadError, NodeJson,
};

fn node_entry(id: &str, strand: char) -> NodeJson {
    NodeJson {
        id: Some(id.to_string()),
        name: Some(id.to_string()),
        chrom: Some("chr1".to_string()),
        ref_start: Some(10),
        ref_end: Some(20),
        strand: Some(strand),
        is_head: Some(true),
        indegree: None,
        outdegree: None,
        in_degree_centrality: None,
        out_degree_centrality: None,
        closeness_centrality: None,
        local_clustering_coefficient: None,
    }
}

fn edge_entry(source: &str, target: &str) -> EdgeJson {
    EdgeJson {
        label: Some("ev".to_string()),
        weight: Some(2),
        read_ids: Some(vec!["r1".to_string(), "r2".to_string()]),
        source: Some(source.to_string()),
        target: Some(target.to_string()),
    }
}

#[test]
fn missing_node_list_is_an_error() {
    let d = CyGraphJson { density: None, nodes: None, edges: Some(vec![]) };
    assert_eq!(load_cygraph_from_json(d).unwrap_err(), LoadError::MissingNodes);
}

#[test]
fn missing_edge_list_is_an_error() {
    let d = CyGraphJson { density: None, nodes: Some(vec![]), edges: None };
    assert_eq!(load_cygraph_from_json(d).unwrap_err(), LoadError::MissingEdges);
}

#[test]
fn missing_node_field_names_node_and_field() {
    let mut bad = node_entry("a", '+');
    bad.chrom = None;
    let d = CyGraphJson {
        density: None,
        nodes: Some(vec![node_entry("first", '+'), bad]),
        edges: Some(vec![]),
    };
    assert_eq!(
        load_cygraph_from_json(d).unwrap_err(),
        LoadError::NodeField { index: 1, field: FieldName::Chrom }
    );
}

#[test]
fn malformed_strand_is_an_error() {
    let d = CyGraphJson {
        density: None,
        nodes: Some(vec![node_entry("a", '?')]),
        edges: Some(vec![]),
    };
    assert_eq!(
        load_cygraph_from_json(d).unwrap_err(),
        LoadError::NodeField { index: 0, field: FieldName::Strand }
    );
}

#[test]
fn duplicate_node_id_is_an_error() {
    let d = CyGraphJson {
        density: None,
        nodes: Some(vec![node_entry("same", '+'), node_entry("same", '-')]),
        edges: Some(vec![]),
    };
    assert_eq!(
        load_cygraph_from_json(d).unwrap_err(),
        LoadError::DuplicateNodeId { index: 1 }
    );
}

#[test]
fn missing_edge_field_names_edge_and_field() {
    let mut bad = edge_entry("a", "b");
    bad.weight = None;
    let d = CyGraphJson {
        density: None,
        nodes: Some(vec![node_entry("a", '+'), node_entry("b", '-')]),
        edges: Some(vec![bad]),
    };
    assert_eq!(
        load_cygraph_from_json(d).unwrap_err(),
        LoadError::EdgeField { index: 0, field: FieldName::Weight }
    );
}

#[test]
fn unknown_edge_endpoint_is_an_error() {
    let d = CyGraphJson {
        density: None,
        nodes: Some(vec![node_entry("a", '+'), node_entry("b", '-')]),
        edges: Some(vec![edge_entry("a", "nowhere")]),
    };
    assert_eq!(
        load_cygraph_from_json(d).unwrap_err(),
        LoadError::UnknownEndpoint { index: 0, field: FieldName::Target }
    );
}

#[test]
fn endpoints_resolve_in_document_order() {
    let d = CyGraphJson {
        density: None,
        nodes: Some(vec![node_entry("a", '+'), node_entry("b", '-')]),
        edges: Some(vec![edge_entry("b", "a")]),
    };
    let g = load_cygraph_from_json(d).unwrap();
    assert_eq!(g.edges[0].source, 1);
    assert_eq!(g.edges[0].target, 0);
    assert_eq!(g.edges[0].weight, 2);
    assert_eq!(g.edges[0].read_ids, vec!["r1".to_string(), "r2".to_string()]);
}

#[test]
fn round_trip_keeps_ids_edges_and_counts() {
    let d = CyGraphJson {
        density: None,
        nodes: Some(vec![node_entry("a", '+'), node_entry("b", '-')]),
        edges: Some(vec![edge_entry("a", "b"), edge_entry("b", "a")]),
    };
    let mut g = load_cygraph_from_json(d).unwrap();
    g.node_degree();
    g.degree_centrality();
    let reloaded = load_cygraph_from_json(g.to_cyjson()).unwrap();
    assert_eq!(reloaded.node_count(), g.node_count());
    assert_eq!(reloaded.edge_count(), g.edge_count());
    for (old, new) in g.nodes.iter().zip(reloaded.nodes.iter()) {
        assert_eq!(new.id, old.id);
        assert_eq!(new.label, old.label);
        assert_eq!(new.chrom, old.chrom);
        assert_eq!(new.ref_start, old.ref_start);
        assert_eq!(new.ref_end, old.ref_end);
        assert_eq!(new.is_head, old.is_head);
    }
    for (old, new) in g.edges.iter().zip(reloaded.edges.iter()) {
        assert_eq!(new.label, old.label);
        assert_eq!(new.weight, old.weight);
        assert_eq!(new.read_ids, old.read_ids);
        assert_eq!(new.source, old.source);
        assert_eq!(new.target, old.target);
    }
}

#[test]
fn serialized_density_is_the_computed_one() {
    let d = CyGraphJson {
        density: None,
        nodes: Some(vec![node_entry("a", '+'), node_entry("b", '-')]),
        edges: Some(vec![edge_entry("a", "b")]),
    };
    let g = load_cygraph_from_json(d).unwrap();
    let out = g.to_cyjson();
    assert_eq!(out.density, Some(g.density()));
    let nodes = out.nodes.unwrap();
    assert_eq!(nodes.len(), 2);
    assert_eq!(nodes[0].id.as_deref(), Some("a"));
    assert_eq!(nodes[0].strand, Some('+'));
    assert_eq!(nodes[1].strand, Some('-'));
    let edges = out.edges.unwrap();
    assert_eq!(edges[0].source.as_deref(), Some("a"));
    assert_eq!(edges[0].target.as_deref(), Some("b"));
}
