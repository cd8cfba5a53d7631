use amasario::evidence::kind::EvidenceKind;
use amasario::graph::edges::{stable_id, Boundary, Citation, Edge};
use amasario::graph::errors::GraphFailure;
use amasario::graph::graph::Graph;
use amasario::graph::nodes::{EntityRef, Node};
use amasario::graph::traversal::TruncationReason;

fn entity(kind: &str, id: &str) -> EntityRef {
    EntityRef::new(kind.to_owned(), id.to_owned())
}

fn kinds() -> Vec<String> {
    ["CONTRACT", "WASM", "ARTIFACT", "SOURCE", "BUILD", "DEPLOYMENT", "TRANSACTION"].iter().map(|k| k.to_string()).collect()
}

fn boundary() -> Boundary {
    Boundary { network: "testnet".to_owned(), ledger: 5_000, observed_at: "2026-09-15T00:00:00Z".to_owned() }
}

fn invocation(from: &str, to: &str, transaction: &str) -> Edge {
    let source = entity("CONTRACT", from);
    let target = entity("CONTRACT", to);
    Edge {
        id: stable_id(&source, "INVOCATES", &target),
        source,
        target,
        relationship: "INVOCATES".to_owned(),
        relationship_rank: 1,
        permitted: true,
        evidence: vec![Citation { kind: EvidenceKind::Transaction, id: transaction.to_owned() }],
        confidence: "VERIFIED".to_owned(),
        observed: true,
        depth: 0,
        boundary: Some(boundary()),
    }
}

fn graph_of(edges: Vec<Edge>) -> Graph {
    let mut graph = Graph::new("g1".to_owned()).expect("a graph").with_max_depth(5).with_boundary(boundary());
    graph.add_entity(&entity("CONTRACT", "C-subject")).expect("the subject");
    for edge in edges {
        graph.add_edge(edge).expect("an edge");
    }
    graph.canonicalise(&kinds());
    graph
}

#[test]
fn a_graph_built_from_a_set_carries_every_entity_either_partition_names() {
    let graph = graph_of(vec![
        invocation("C-subject", "C-a", &"a".repeat(64)),
        invocation("C-subject", "C-b", &"b".repeat(64)),
    ]);
    assert_eq!(graph.edge_count(), 2);
    assert_eq!(graph.node_count(), 3);
    assert!(graph.contains(&entity("CONTRACT", "C-subject")));
    assert!(graph.contains(&entity("CONTRACT", "C-a")));
    assert!(graph.validate().is_ok());
    assert!(graph.disconnected_nodes().is_empty());
    assert_eq!(graph.max_depth, Some(5));
    assert!(!graph.truncated);
    assert_eq!(graph.network().map(|network| network.as_str()), Some("testnet"));
}

#[test]
fn a_dangling_edge_is_refused_rather_than_repaired() {
    let mut graph = Graph::new("g1".to_owned()).expect("a graph");
    graph.edges = vec![invocation("C-subject", "C-a", &"a".repeat(64))];
    graph.nodes.clear();
    let failures = graph.integrity_failures();
    assert_eq!(failures.len(), 2, "both ends dangle: {failures:?}");
    assert!(failures.iter().all(GraphFailure::is_repairable_by_observation));
    let error = graph.validate().expect_err("a dangling edge is refused");
    assert!(error.message().contains("not in the graph"), "got: {}", error.message());
}

#[test]
fn a_self_edge_is_refused_because_a_one_node_cycle_is_not_topology() {
    let node = Node::for_entity(&entity("CONTRACT", "C-a"));
    let mut edge = invocation("C-a", "C-b", &"a".repeat(64));
    edge.target = edge.source.clone();
    edge.relationship = "DEPENDS_ON".to_owned();
    edge.relationship_rank = 0;
    edge.id = stable_id(&edge.source, "DEPENDS_ON", &edge.target);
    let mut graph = Graph::new("g1".to_owned()).expect("a graph");
    graph.nodes = vec![node];
    graph.edges = vec![edge];
    let failures = graph.integrity_failures();
    assert!(
        failures.iter().any(|failure| matches!(failure, GraphFailure::SelfEdge { .. })),
        "got: {failures:?}"
    );
}

#[test]
fn adding_a_node_twice_is_idempotent_and_adding_a_different_one_is_refused() {
    let mut graph = Graph::new("g1".to_owned()).expect("a graph");
    let plain = Node::for_entity(&entity("CONTRACT", "C-a"));
    graph.add_node(plain.clone()).expect("the first add");
    graph.add_node(plain).expect("an identical add is idempotent");
    assert_eq!(graph.node_count(), 1);
    let labelled = Node::for_entity(&entity("CONTRACT", "C-a")).with_label("other".to_owned());
    let error = graph.add_node(labelled).expect_err("two descriptions of one entity must not silently replace each other");
    assert!(error.message().contains("appears more than once"), "got: {}", error.message());
}

#[test]
fn an_edge_cannot_be_added_twice_and_a_derived_dependency_is_not_an_edge() {
    let mut graph = Graph::new("g1".to_owned()).expect("a graph");
    let edge = invocation("C-subject", "C-a", &"a".repeat(64));
    graph.add_edge(edge.clone()).expect("the first add");
    let error = graph.add_edge(edge.clone()).expect_err("one edge, one entry");
    assert!(error.message().contains("appears more than once"), "got: {}", error.message());
    let mut deep = edge;
    deep.depth = 2;
    let error = graph.add_edge(deep).expect_err("a reachability claim is not an edge");
    assert!(error.message().contains("depth-2"), "got: {}", error.message());
}

#[test]
fn adjacency_is_directional_and_answers_both_directions() {
    let graph = graph_of(vec![
        invocation("C-subject", "C-a", &"a".repeat(64)),
        invocation("C-a", "C-deep", &"b".repeat(64)),
    ]);
    let subject = entity("CONTRACT", "C-subject");
    let a = entity("CONTRACT", "C-a");
    let deep = entity("CONTRACT", "C-deep");
    assert_eq!(graph.edges_from(&subject).len(), 1);
    assert!(graph.edges_to(&subject).is_empty());
    assert_eq!(graph.edges_to(&deep).len(), 1);
    assert_eq!(graph.neighbours(&subject), vec![&a]);
    assert_eq!(graph.edges_between(&a, &deep).len(), 1);
    assert!(graph.edges_between(&deep, &a).is_empty(), "the graph is directed");
    assert_eq!(graph.roots().len(), 1);
    assert_eq!(graph.leaves().len(), 1);
}

#[test]
fn a_discovered_node_with_no_edges_is_reported_rather_than_dropped() {
    let mut graph = graph_of(vec![invocation("C-subject", "C-a", &"a".repeat(64))]);
    graph.add_entity(&entity("CONTRACT", "C-unrelated")).expect("a node");
    assert_eq!(graph.disconnected_nodes(), vec!["CONTRACT:C-unrelated"]);
    assert!(graph.validate().is_ok(), "an unrelated node is not a broken graph");
}

#[test]
fn canonical_order_is_idempotent_and_deterministic() {
    let graph = graph_of(vec![
        invocation("C-subject", "C-zeta", &"1".repeat(64)),
        invocation("C-subject", "C-alpha", &"2".repeat(64)),
        invocation("C-alpha", "C-deep", &"3".repeat(64)),
    ]);
    let ids: Vec<&str> = graph.nodes.iter().map(|node| node.id.as_str()).collect();
    let mut sorted = ids.clone();
    sorted.sort();
    assert_eq!(ids, sorted, "nodes are ordered by kind then identifier");
    let mut again = graph.clone();
    again.canonicalise(&kinds());
    assert_eq!(again, graph, "canonicalising twice changes nothing");
}

#[test]
fn a_graph_without_an_identifier_is_refused() {
    let error = Graph::new(String::new()).expect_err("a graph must be nameable");
    assert!(error.message().contains("identifier"), "got: {}", error.message());
}

#[test]
fn marking_a_node_external_requires_the_node_to_exist() {
    let mut graph = graph_of(vec![invocation("C-subject", "C-a", &"a".repeat(64))]);
    let outside = entity("SOURCE", "https://example.invalid/r@abc");
    let error = graph.mark_external(&outside, true).expect_err("marking an absent node would silently do nothing");
    assert!(error.message().contains("not in the graph"), "got: {}", error.message());
    graph.mark_external(&entity("CONTRACT", "C-a"), true).expect("an existing node");
    assert!(graph.node("CONTRACT:C-a").expect("the node").is_external());
}

#[test]
fn the_network_annotation_covers_every_node_or_none_of_them() {
    let mut graph = graph_of(vec![invocation("C-subject", "C-a", &"a".repeat(64))]);
    assert!(!graph.nodes_are_annotated());
    graph.annotate_network();
    assert!(graph.nodes_are_annotated());
    assert_eq!(graph.attributes("CONTRACT:C-a").and_then(|a| a.network_id.as_deref()), Some("testnet"));
}

#[test]
fn a_graph_with_no_boundary_annotates_nothing_rather_than_guessing() {
    let mut graph = Graph::new("g1".to_owned()).expect("a graph").with_max_depth(3);
    graph.add_entity(&entity("CONTRACT", "C-a")).expect("a node");
    graph.annotate_network();
    assert!(graph.attributes("CONTRACT:C-a").is_none(), "a network that was never observed must not be filled in");
}

#[test]
fn truncation_and_its_reason_are_set_together() {
    let graph = Graph::new("g1".to_owned()).expect("a graph").truncated_by(TruncationReason::MaxDepthReached);
    assert!(graph.truncated);
    assert_eq!(graph.truncation_reason, Some(TruncationReason::MaxDepthReached));
    assert!(graph.validate().is_ok(), "the pair is internally consistent");
    let mut unreported = graph.clone();
    unreported.truncation_reason = None;
    let error = unreported.validate().expect_err("truncation needs a reason");
    assert!(error.message().contains("truncated"), "got: {}", error.message());
    let mut unexplained = graph;
    unexplained.truncated = false;
    unexplained.validate().expect_err("a reason without truncation misrepresents a complete result");
}

#[test]
fn adding_an_edge_adds_its_endpoints_first() {
    let mut graph = Graph::new("g1".to_owned()).expect("a graph");
    graph.add_edge(invocation("C-x", "C-y", &"a".repeat(64))).expect("an edge");
    assert_eq!(graph.node_count(), 2);
    assert!(graph.contains(&entity("CONTRACT", "C-x")));
    assert!(graph.contains(&entity("CONTRACT", "C-y")));
    assert!(graph.validate().is_ok());
}
