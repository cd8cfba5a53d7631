use amasario::evidence::kind::EvidenceKind;
use amasario::graph::document::{api_version, spec_version, GraphDocument};
use amasario::graph::edges::{stable_id, Boundary, Citation, Edge};
use amasario::graph::graph::Graph;
use amasario::graph::nodes::EntityRef;
use amasario::graph::traversal::TruncationReason;

fn kinds() -> Vec<String> {
    ["CONTRACT", "WASM", "ARTIFACT", "SOURCE", "BUILD", "DEPLOYMENT", "TRANSACTION"].iter().map(|k| k.to_string()).collect()
}

fn boundary() -> Boundary {
    Boundary { network: "testnet".to_owned(), ledger: 6_000, observed_at: "2026-09-15T00:00:00Z".to_owned() }
}

fn c(id: &str) -> EntityRef {
    EntityRef::new("CONTRACT".to_owned(), id.to_owned())
}

fn edge(from: &str, to: &str, transaction: &str) -> Edge {
    let source = c(from);
    let target = c(to);
    Edge {
        id: stable_id(&source, "INVOCATES", &target),
        source,
        target,
        relationship: "INVOCATES".to_owned(),
        relationship_rank: 1,
        permitted: true,
        evidence: vec![Citation { kind: EvidenceKind::Transaction, id: transaction.to_owned() }],
        confidence: "VERIFIED".to_owned(),
        observed: true,
        depth: 0,
        boundary: Some(boundary()),
    }
}

fn graph_of(edges: &[Edge]) -> Graph {
    let mut graph = Graph::new("g1".to_owned()).expect("a graph").with_max_depth(6).with_boundary(boundary());
    graph.add_entity(&c("C-subject")).expect("the subject");
    for edge in edges {
        graph.add_edge(edge.clone()).expect("an edge");
    }
    graph.canonicalise(&kinds());
    graph
}

fn document_of(edges: &[Edge]) -> GraphDocument {
    GraphDocument::of(&graph_of(edges), &kinds())
}

#[test]
fn a_document_carries_the_version_stamp_the_specification_defines() {
    let document = document_of(&[edge("C-subject", "C-a", &"a".repeat(64))]);
    assert_eq!(document.api_version, "amasario.dev/v1");
    assert_eq!(document.spec_version, "1.0.0");
    assert_eq!(api_version(), "amasario.dev/v1");
    assert_eq!(spec_version(), "1.0.0");
    assert_eq!(document.id.as_deref(), Some("g1"));
    assert_eq!(document.nodes.len(), 2);
    assert_eq!(document.edges.len(), 1);
}

#[test]
fn evidence_is_published_as_citations_rather_than_as_records() {
    let document = document_of(&[edge("C-subject", "C-a", &"a".repeat(64))]);
    assert_eq!(document.edges[0].evidence, vec!["a".repeat(64)]);
    assert_eq!(document.edges[0].source, "CONTRACT:C-subject");
    assert_eq!(document.edges[0].target, "CONTRACT:C-a");
    assert_eq!(document.citations(), vec!["a".repeat(64).as_str()]);
}

#[test]
fn the_metadata_is_computed_from_the_topology_rather_than_asserted() {
    let document = document_of(&[
        edge("C-subject", "C-a", &"a".repeat(64)),
        edge("C-a", "C-b", &"b".repeat(64)),
        edge("C-b", "C-a", &"c".repeat(64)),
    ]);
    let metadata = document.metadata.as_ref().expect("metadata");
    assert!(metadata.directed, "Amasario relationships are directional");
    assert!(metadata.cyclic, "the document contains a cycle");
    assert_eq!(metadata.node_count, 3);
    assert_eq!(metadata.edge_count, 3);
    assert_eq!(metadata.max_depth, Some(6));
    assert!(!metadata.truncated);
    assert!(metadata.disconnected_nodes.is_empty());
}

#[test]
fn an_acyclic_graph_is_reported_as_acyclic() {
    let document = document_of(&[edge("C-subject", "C-a", &"a".repeat(64)), edge("C-a", "C-b", &"b".repeat(64))]);
    assert!(!document.metadata.as_ref().expect("metadata").cyclic);
}

#[test]
fn a_discovered_node_with_no_edges_is_named_in_the_metadata() {
    let mut graph = graph_of(&[edge("C-subject", "C-a", &"a".repeat(64))]);
    graph.add_entity(&c("C-unrelated")).expect("a node");
    graph.canonicalise(&kinds());
    let document = GraphDocument::of(&graph, &kinds());
    assert_eq!(document.disconnected_node_ids(), vec!["CONTRACT:C-unrelated"]);
    assert!(document.unresolvable_endpoints().is_empty(), "an unrelated node is not a dangling reference");
}

#[test]
fn a_truncated_graph_says_so_in_its_metadata() {
    let mut graph = graph_of(&[edge("C-subject", "C-a", &"a".repeat(64))]);
    graph.truncated = true;
    graph.truncation_reason = Some(TruncationReason::MaxDepthReached);
    let document = GraphDocument::of(&graph, &kinds());
    assert!(document.metadata.as_ref().expect("metadata").truncated);
}

#[test]
fn a_documents_endpoints_all_resolve_within_it() {
    let document = document_of(&[edge("C-subject", "C-a", &"a".repeat(64)), edge("C-a", "C-b", &"b".repeat(64))]);
    assert!(document.unresolvable_endpoints().is_empty());
    let mut broken = document;
    broken.nodes.retain(|node| node.id != "CONTRACT:C-b");
    assert_eq!(broken.unresolvable_endpoints(), vec!["CONTRACT:C-b"]);
}

#[test]
fn an_edge_without_a_boundary_inherits_the_graphs() {
    let mut unbounded = edge("C-subject", "C-a", &"a".repeat(64));
    unbounded.boundary = None;
    let mut graph = Graph::new("g1".to_owned()).expect("a graph");
    graph.add_edge(unbounded).expect("an edge");
    assert!(graph.edges[0].boundary.is_none());
    graph.boundary = Some(boundary());
    graph.canonicalise(&kinds());
    let document = GraphDocument::of(&graph, &kinds());
    assert_eq!(
        document.edges[0].boundary.as_ref().map(|boundary| boundary.network.as_str()),
        Some("testnet"),
        "the edge is bounded by the analysis that produced it"
    );
}

#[test]
fn the_document_lists_edges_in_canonical_order() {
    let document = document_of(&[
        edge("C-subject", "C-zeta", &"1".repeat(64)),
        edge("C-subject", "C-alpha", &"2".repeat(64)),
        edge("C-alpha", "C-deep", &"3".repeat(64)),
    ]);
    let rendered: Vec<String> = document.edges.iter().map(|e| format!("{}>{}", e.source, e.target)).collect();
    assert_eq!(
        rendered,
        vec!["CONTRACT:C-alpha>CONTRACT:C-deep", "CONTRACT:C-subject>CONTRACT:C-alpha", "CONTRACT:C-subject>CONTRACT:C-zeta"]
    );
}
