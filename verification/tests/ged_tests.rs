use rboss::data::NLGraph;
use rboss::ged::graph_edit_distance;
use rboss::load::{load_cygraph_from_json, CyGraphJson, EdgeJson, NodeJson};

fn node_entry(id: &str) -> NodeJson {
    NodeJson {
        id: Some(id.to_string()),
        name: Some(id.to_string()),
        chrom: Some("chr1".to_string()),
        ref_start: Some(0),
        ref_end: Some(1),
        strand: Some('+'),
        is_head: Some(true),
        indegree: None,
        outdegree: None,
        in_degree_centrality: None,
        out_degree_centrality: None,
        closeness_centrality: None,
        local_clustering_coefficient: None,
    }
}

fn edge_entry(source: &str, target: &str) -> EdgeJson {
    EdgeJson {
        label: Some("e".to_string()),
        weight: Some(1),
        read_ids: Some(vec![]),
        source: Some(source.to_string()),
        target: Some(target.to_string()),
    }
}

fn topology(ids: &[&str], edges: &[(&str, &str)]) -> NLGraph {
    let d = CyGraphJson {
        density: None,
        nodes: Some(ids.iter().map(|id| node_entry(id)).collect()),
        edges: Some(edges.iter().map(|(s, t)| edge_entry(s, t)).collect()),
    };
    load_cygraph_from_json(d).unwrap()
}

#[test]
fn test_ged() {
    let graph1 = topology(
        &["gn1", "gn2", "gn3", "gn4"],
        &[("gn1", "gn2"), ("gn1", "gn3"), ("gn3", "gn4")],
    );
    let graph2 = topology(
        &["gn5", "gn6", "gn7", "gn8"],
        &[("gn5", "gn6"), ("gn6", "gn7"), ("gn7", "gn8")],
    );
    let distance = graph_edit_distance(&graph1, &graph2);
    println!("Graph Edit Distance: {}", distance);
}

#[test]
fn self_distance_of_two_node_graph_is_two() {
    // one substitution per node under the identity mapping: not zero
    let g = topology(&["a", "b"], &[]);
    assert_eq!(graph_edit_distance(&g, &g), 2);
}

#[test]
fn distance_between_empty_graphs_is_zero() {
    let g1 = topology(&[], &[]);
    let g2 = topology(&[], &[]);
    assert_eq!(graph_edit_distance(&g1, &g2), 0);
}

#[test]
fn distance_is_the_larger_node_count() {
    let g1 = topology(&["a", "b", "c"], &[("a", "b")]);
    let g2 = topology(&["x"], &[]);
    assert_eq!(graph_edit_distance(&g1, &g2), 3);
    assert_eq!(graph_edit_distance(&g2, &g1), 3);
}
