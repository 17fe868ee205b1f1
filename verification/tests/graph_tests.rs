use rboss::data::{NLGraph, Ratio, Strand};
use rboss::load::{load_cygraph_from_json, CyGraphJson, EdgeJson, NodeJson};

fn node_entry(id: &str, chrom: &str, start: u64, end: u64, strand: char, is_head: bool) -> NodeJson {
    NodeJson {
        id: Some(id.to_string()),
        name: Some(id.to_string()),
        chrom: Some(chrom.to_string()),
        ref_start: Some(start),
        ref_end: Some(end),
        strand: Some(strand),
        is_head: Some(is_head),
        indegree: None,
        outdegree: None,
        in_degree_centrality: None,
        out_degree_centrality: None,
        closeness_centrality: None,
        local_clustering_coefficient: None,
    }
}

fn edge_entry(label: &str, weight: u64, read_ids: &[&str], source: &str, target: &str) -> EdgeJson {
    EdgeJson {
        label: Some(label.to_string()),
        weight: Some(weight),
        read_ids: Some(read_ids.iter().map(|s| s.to_string()).collect()),
        source: Some(source.to_string()),
        target: Some(target.to_string()),
    }
}

fn doc(nodes: Vec<NodeJson>, edges: Vec<EdgeJson>) -> CyGraphJson {
    CyGraphJson {
        density: None,
        nodes: Some(nodes),
        edges: Some(edges),
    }
}

const ID_A: &str = "chr1_154220171_154261697_H+";
const ID_B: &str = "chr2_80617598_80666408_T-";

fn fixture_doc() -> CyGraphJson {
    doc(
        vec![
            node_entry(ID_A, "chr1", 154220171, 154261697, '+', true),
            node_entry(ID_B, "chr2", 80617598, 80666408, '-', false),
        ],
        vec![edge_entry(
            "TRA_(False, MicroHomology(G))_1",
            1,
            &["m64135_201204_204719/97059215/ccs"],
            ID_A,
            ID_B,
        )],
    )
}

fn load_nlgraph() -> NLGraph {
    let mut nlgraph = load_cygraph_from_json(fixture_doc()).unwrap();
    nlgraph.node_degree();
    nlgraph
}

fn as_f64(r: Ratio) -> f64 {
    r.num as f64 / r.den as f64
}

#[test]
fn test_node_degree() {
    let _nlgraph = load_nlgraph();
}

#[test]
fn test_is_weakly_connected() {
    let nlgraph = load_nlgraph();
    assert!(nlgraph.is_weakly_connected());
}

#[test]
fn test_walk() {
    let nlgraph = load_nlgraph();
    let paths = nlgraph.walk();
    for path in &paths {
        println!("{:?}", path);
    }
}

#[test]
fn test_desinty() {
    let nlgraph = load_nlgraph();
    assert_eq!(as_f64(nlgraph.density()), 1.0);
}

#[test]
fn test_closeness_centrality() {
    let mut nlgraph = load_nlgraph();
    nlgraph.closeness_centrality();
}

#[test]
fn test_degree_centrality() {
    let mut nlgraph = load_nlgraph();
    nlgraph.degree_centrality();
}

#[test]
fn test_local_clustering_coefficient() {
    let mut nlgraph = load_nlgraph();
    nlgraph.local_clustering_coefficient();
}

#[test]
fn test_cyjson() {
    let nlgraph = load_nlgraph;
    let _cyjson = nlgraph().to_cyjson();
    println!("{:?}", _cyjson);
}

#[test]
fn test_loadcygraph() {
    load_cygraph_from_json(fixture_doc()).unwrap();
}

#[test]
fn fixture_counts_and_flags() {
    let mut g = load_nlgraph();
    assert_eq!(g.node_count(), 2);
    assert_eq!(g.edge_count(), 1);
    assert_eq!(as_f64(g.density()), 1.0);
    assert!(g.is_weakly_connected());
    assert!(!g.is_cyclic_directed());
    g.node_degree();
    assert_eq!(g.nodes[0].outdegree, 1);
    assert_eq!(g.nodes[0].indegree, 0);
    assert_eq!(g.nodes[1].outdegree, 0);
    assert_eq!(g.nodes[1].indegree, 1);
}

#[test]
fn fixture_walk_path() {
    let g = load_nlgraph();
    let paths = g.walk();
    assert_eq!(paths, vec![vec![0usize, 1usize]]);
}

#[test]
fn fixture_degree_centrality_values() {
    let mut g = load_nlgraph();
    g.degree_centrality();
    assert_eq!(as_f64(g.nodes[0].in_degree_centrality), 0.0);
    assert_eq!(as_f64(g.nodes[0].out_degree_centrality), 1.0);
    assert_eq!(as_f64(g.nodes[1].in_degree_centrality), 1.0);
    assert_eq!(as_f64(g.nodes[1].out_degree_centrality), 0.0);
}

#[test]
fn fixture_closeness_values() {
    let mut g = load_nlgraph();
    g.closeness_centrality();
    // the first node reaches the second at distance one: (2 - 1) / 1
    assert_eq!(as_f64(g.nodes[0].closeness_centrality), 1.0);
    // the second node reaches nothing: sum zero gives zero
    assert_eq!(as_f64(g.nodes[1].closeness_centrality), 0.0);
}

#[test]
fn fixture_clustering_zero_on_empty_side() {
    // either endpoint of the single edge has an empty predecessor or
    // successor set, so both coefficients are zero
    let mut g = load_nlgraph();
    g.local_clustering_coefficient();
    assert_eq!(as_f64(g.nodes[0].local_clustering_coefficient), 0.0);
    assert_eq!(as_f64(g.nodes[1].local_clustering_coefficient), 0.0);
}

#[test]
fn clustering_counts_connected_pairs() {
    let d = doc(
        vec![
            node_entry("x", "chr1", 0, 1, '+', true),
            node_entry("y", "chr1", 2, 3, '+', false),
            node_entry("z", "chr1", 4, 5, '-', false),
        ],
        vec![
            edge_entry("a", 1, &[], "x", "y"),
            edge_entry("b", 1, &[], "y", "z"),
            edge_entry("c", 1, &[], "x", "z"),
        ],
    );
    let mut g = load_cygraph_from_json(d).unwrap();
    g.local_clustering_coefficient();
    // for y: predecessors {x}, successors {z}, and the edge x -> z exists
    assert_eq!(as_f64(g.nodes[1].local_clustering_coefficient), 1.0);
}

#[test]
fn single_node_degree_centrality_is_zero() {
    let d = doc(vec![node_entry("only", "chr1", 0, 1, '+', true)], vec![]);
    let mut g = load_cygraph_from_json(d).unwrap();
    g.degree_centrality();
    assert_eq!(as_f64(g.nodes[0].in_degree_centrality), 0.0);
    assert_eq!(as_f64(g.nodes[0].out_degree_centrality), 0.0);
}

#[test]
fn single_node_density_is_zero() {
    let d = doc(vec![node_entry("only", "chr1", 0, 1, '+', true)], vec![]);
    let g = load_cygraph_from_json(d).unwrap();
    assert_eq!(as_f64(g.density()), 0.0);
}

fn two_isolated_nodes() -> NLGraph {
    let d = doc(
        vec![
            node_entry("a", "chr1", 0, 1, '+', true),
            node_entry("b", "chr2", 0, 1, '-', false),
        ],
        vec![],
    );
    load_cygraph_from_json(d).unwrap()
}

#[test]
fn disconnected_closeness_is_a_no_op() {
    let mut g = two_isolated_nodes();
    assert!(!g.is_weakly_connected());
    g.closeness_centrality();
    assert_eq!(as_f64(g.nodes[0].closeness_centrality), 0.0);
    assert_eq!(as_f64(g.nodes[1].closeness_centrality), 0.0);
}

#[test]
fn cycle_detected_on_two_cycle() {
    let d = doc(
        vec![
            node_entry("a", "chr1", 0, 1, '+', true),
            node_entry("b", "chr2", 0, 1, '-', false),
        ],
        vec![
            edge_entry("fwd", 1, &[], "a", "b"),
            edge_entry("back", 1, &[], "b", "a"),
        ],
    );
    let g = load_cygraph_from_json(d).unwrap();
    assert!(g.is_cyclic_directed());
}

#[test]
fn cycle_detected_on_self_loop() {
    let d = doc(
        vec![node_entry("a", "chr1", 0, 1, '+', true)],
        vec![edge_entry("self", 1, &[], "a", "a")],
    );
    let g = load_cygraph_from_json(d).unwrap();
    assert!(g.is_cyclic_directed());
}

#[test]
fn degree_sums_equal_edge_count() {
    let d = doc(
        vec![
            node_entry("a", "chr1", 0, 1, '+', true),
            node_entry("b", "chr1", 2, 3, '+', false),
            node_entry("c", "chr1", 4, 5, '-', false),
        ],
        vec![
            edge_entry("e1", 1, &[], "a", "b"),
            edge_entry("e2", 1, &[], "a", "b"),
            edge_entry("e3", 1, &[], "b", "c"),
            edge_entry("e4", 1, &[], "c", "a"),
        ],
    );
    let mut g = load_cygraph_from_json(d).unwrap();
    g.node_degree();
    let in_sum: usize = g.nodes.iter().map(|n| n.indegree).sum();
    let out_sum: usize = g.nodes.iter().map(|n| n.outdegree).sum();
    assert_eq!(in_sum, g.edge_count());
    assert_eq!(out_sum, g.edge_count());
}

#[test]
fn weak_connectivity_survives_edge_reversal() {
    let nodes = || {
        vec![
            node_entry("a", "chr1", 0, 1, '+', true),
            node_entry("b", "chr1", 2, 3, '+', false),
            node_entry("c", "chr1", 4, 5, '-', false),
        ]
    };
    let forward = doc(
        nodes(),
        vec![edge_entry("e1", 1, &[], "a", "b"), edge_entry("e2", 1, &[], "c", "b")],
    );
    let backward = doc(
        nodes(),
        vec![edge_entry("e1", 1, &[], "b", "a"), edge_entry("e2", 1, &[], "b", "c")],
    );
    let g = load_cygraph_from_json(forward).unwrap();
    let h = load_cygraph_from_json(backward).unwrap();
    assert_eq!(g.is_weakly_connected(), h.is_weakly_connected());
    assert!(g.is_weakly_connected());
}

#[test]
fn empty_graph_behaviour() {
    let g = load_cygraph_from_json(doc(vec![], vec![])).unwrap();
    assert_eq!(g.node_count(), 0);
    assert_eq!(g.edge_count(), 0);
    assert_eq!(as_f64(g.density()), 0.0);
    // zero nodes are trivially connected
    assert!(g.is_weakly_connected());
    assert!(!g.is_cyclic_directed());
    assert!(g.walk().is_empty());
}

#[test]
fn parallel_edges_count_individually() {
    let d = doc(
        vec![
            node_entry("a", "chr1", 0, 1, '+', true),
            node_entry("b", "chr1", 2, 3, '-', false),
        ],
        vec![
            edge_entry("e1", 1, &[], "a", "b"),
            edge_entry("e2", 1, &[], "a", "b"),
        ],
    );
    let mut g = load_cygraph_from_json(d).unwrap();
    g.node_degree();
    assert_eq!(g.nodes[0].outdegree, 2);
    assert_eq!(g.nodes[1].indegree, 2);
}

#[test]
fn walk_enumerates_branches_in_edge_order() {
    let d = doc(
        vec![
            node_entry("a", "chr1", 0, 1, '+', true),
            node_entry("b", "chr1", 2, 3, '+', false),
            node_entry("c", "chr1", 4, 5, '-', false),
            node_entry("d", "chr1", 6, 7, '-', false),
        ],
        vec![
            edge_entry("e1", 1, &[], "a", "b"),
            edge_entry("e2", 1, &[], "a", "c"),
            edge_entry("e3", 1, &[], "b", "d"),
            edge_entry("e4", 1, &[], "c", "d"),
        ],
    );
    let g = load_cygraph_from_json(d).unwrap();
    let paths = g.walk();
    assert_eq!(paths, vec![vec![0usize, 1, 3], vec![0usize, 2, 3]]);
}

#[test]
fn single_node_graph_is_connected() {
    let d = doc(vec![node_entry("only", "chr1", 0, 1, '+', true)], vec![]);
    let g = load_cygraph_from_json(d).unwrap();
    assert!(g.is_weakly_connected());
}

#[test]
fn passes_are_idempotent() {
    let mut g = load_nlgraph();
    g.node_degree();
    g.degree_centrality();
    g.closeness_centrality();
    g.local_clustering_coefficient();
    let once: Vec<_> = g
        .nodes
        .iter()
        .map(|n| {
            (
                n.indegree,
                n.outdegree,
                n.in_degree_centrality,
                n.out_degree_centrality,
                n.closeness_centrality,
                n.local_clustering_coefficient,
            )
        })
        .collect();
    g.node_degree();
    g.degree_centrality();
    g.closeness_centrality();
    g.local_clustering_coefficient();
    let twice: Vec<_> = g
        .nodes
        .iter()
        .map(|n| {
            (
                n.indegree,
                n.outdegree,
                n.in_degree_centrality,
                n.out_degree_centrality,
                n.closeness_centrality,
                n.local_clustering_coefficient,
            )
        })
        .collect();
    assert_eq!(once, twice);
}

#[test]
fn strand_codes() {
    assert!(!Strand::new("+").is_reverse());
    assert!(Strand::new("-").is_reverse());
    assert_eq!(Strand::from_code('+'), Some(Strand::Positive));
    assert_eq!(Strand::from_code('-'), Some(Strand::Negative));
    assert_eq!(Strand::from_code('x'), None);
    assert_eq!(Strand::Positive.code(), '+');
    assert_eq!(Strand::Negative.code(), '-');
}

#[test]
fn ratio_zero_denominator_is_zero() {
    let r = Ratio::make(3, 0);
    assert_eq!(r, Ratio { num: 0, den: 1 });
    assert_eq!(as_f64(r), 0.0);
}
