use amasario::evidence::kind::EvidenceKind;
use amasario::graph::cycles::{components, cyclic_nodes, find, has_cycle, uniform_relationship};
use amasario::graph::edges::{stable_id, Boundary, Citation, Edge};
use amasario::graph::graph::Graph;
use amasario::graph::nodes::{EntityRef, Node};

fn kinds() -> Vec<String> {
    ["CONTRACT", "WASM", "ARTIFACT", "SOURCE", "BUILD", "DEPLOYMENT", "TRANSACTION"].iter().map(|k| k.to_string()).collect()
}

fn boundary() -> Boundary {
    Boundary { network: "testnet".to_owned(), ledger: 7_000, observed_at: "2026-09-15T00:00:00Z".to_owned() }
}

fn c(id: &str) -> EntityRef {
    EntityRef::new("CONTRACT".to_owned(), id.to_owned())
}

fn edge(from: &str, to: &str, transaction: &str) -> Edge {
    let source = c(from);
    let target = c(to);
    Edge {
        id: stable_id(&source, "INVOCATES", &target),
        source,
        target,
        relationship: "INVOCATES".to_owned(),
        relationship_rank: 1,
        permitted: true,
        evidence: vec![Citation { kind: EvidenceKind::Transaction, id: transaction.to_owned() }],
        confidence: "VERIFIED".to_owned(),
        observed: true,
        depth: 0,
        boundary: Some(boundary()),
    }
}

fn graph_of(edges: &[Edge]) -> Graph {
    let mut graph = Graph::new("g1".to_owned()).expect("a graph").with_boundary(boundary());
    for edge in edges {
        graph.add_edge(edge.clone()).expect("an edge");
    }
    graph.canonicalise(&kinds());
    graph
}

#[test]
fn a_tree_has_no_cycles() {
    let graph = graph_of(&[
        edge("C-subject", "C-a", &"a".repeat(64)),
        edge("C-a", "C-b", &"b".repeat(64)),
        edge("C-a", "C-c", &"c".repeat(64)),
    ]);
    assert!(!has_cycle(&graph));
    assert!(find(&graph).is_empty());
    assert!(components(&graph).is_empty());
    assert!(cyclic_nodes(&graph, &kinds()).is_empty());
}

#[test]
fn a_two_node_cycle_is_found_with_both_edges() {
    let graph = graph_of(&[
        edge("C-subject", "C-a", &"a".repeat(64)),
        edge("C-a", "C-b", &"b".repeat(64)),
        edge("C-b", "C-a", &"c".repeat(64)),
    ]);
    assert!(has_cycle(&graph));
    let cycles = find(&graph);
    assert_eq!(cycles.len(), 1, "one component, one cycle: {cycles:?}");
    let ids: Vec<&str> = cycles[0].entity_ids();
    assert_eq!(ids, vec!["C-a", "C-b", "C-a"], "the loop closes exactly once");
    assert_eq!(cycles[0].edges.len(), 2);
    assert_eq!(
        cycles[0].edges,
        vec!["CONTRACT:C-a -INVOCATES-> CONTRACT:C-b".to_owned(), "CONTRACT:C-b -INVOCATES-> CONTRACT:C-a".to_owned()]
    );
    assert_eq!(uniform_relationship(&cycles[0], &graph), Some("INVOCATES".to_owned()));
    let on_cycle: Vec<&str> = cyclic_nodes(&graph, &kinds()).iter().map(|node| node.id.as_str()).collect();
    assert_eq!(on_cycle, vec!["CONTRACT:C-a", "CONTRACT:C-b"]);
    assert!(!on_cycle.contains(&"CONTRACT:C-subject"), "being upstream of a cycle is not being on one");
}

#[test]
fn a_three_node_cycle_becomes_one_component_and_one_representative_cycle() {
    let graph = graph_of(&[
        edge("C-a", "C-b", &"a".repeat(64)),
        edge("C-b", "C-c", &"b".repeat(64)),
        edge("C-c", "C-a", &"c".repeat(64)),
    ]);
    assert!(has_cycle(&graph));
    assert_eq!(components(&graph).len(), 1);
    let cycles = find(&graph);
    assert_eq!(cycles.len(), 1, "one component, not three rotations");
    assert_eq!(cycles[0].edges.len(), 3);
    assert_eq!(cycles[0].entities.len(), 4, "three nodes and the closing repeat");
    assert!(uniform_relationship(&cycles[0], &graph).is_some());
}

#[test]
fn two_disjoint_cycles_are_reported_separately() {
    let graph = graph_of(&[
        edge("C-a", "C-b", &"a".repeat(64)),
        edge("C-b", "C-a", &"b".repeat(64)),
        edge("C-c", "C-d", &"c".repeat(64)),
        edge("C-d", "C-c", &"d".repeat(64)),
    ]);
    let cycles = find(&graph);
    assert_eq!(cycles.len(), 2, "got: {cycles:?}");
    let mut firsts: Vec<&str> = cycles.iter().map(|cycle| cycle.entities[0].id.as_str()).collect();
    firsts.sort_unstable();
    assert_eq!(firsts, vec!["C-a", "C-c"], "sorted by first entity");
    assert_eq!(components(&graph).len(), 2);
    assert_eq!(cyclic_nodes(&graph, &kinds()).len(), 4);
}

#[test]
fn a_cycle_nested_inside_another_is_one_component() {
    let graph = graph_of(&[
        edge("C-a", "C-b", &"a".repeat(64)),
        edge("C-b", "C-c", &"b".repeat(64)),
        edge("C-c", "C-a", &"c".repeat(64)),
        edge("C-b", "C-a", &"d".repeat(64)),
    ]);
    let components = components(&graph);
    assert_eq!(components.len(), 1);
    assert_eq!(components[0].len(), 3);
    assert_eq!(find(&graph).len(), 1);
    assert_eq!(cyclic_nodes(&graph, &kinds()).len(), 3);
}

#[test]
fn a_long_chain_terminating_in_a_cycle_reports_only_the_cycle() {
    let graph = graph_of(&[
        edge("C-subject", "C-1", &"1".repeat(64)),
        edge("C-1", "C-2", &"2".repeat(64)),
        edge("C-2", "C-3", &"3".repeat(64)),
        edge("C-3", "C-2", &"4".repeat(64)),
    ]);
    let cycles = find(&graph);
    assert_eq!(cycles.len(), 1);
    let ids = cycles[0].entity_ids();
    assert_eq!(ids, vec!["C-2", "C-3", "C-2"]);
    assert_eq!(cyclic_nodes(&graph, &kinds()).len(), 2);
}

#[test]
fn detection_is_deterministic_and_independent_of_edge_insertion_order() {
    let forwards = [edge("C-a", "C-b", &"a".repeat(64)), edge("C-b", "C-c", &"b".repeat(64)), edge("C-c", "C-a", &"c".repeat(64))];
    let backwards = [edge("C-c", "C-a", &"c".repeat(64)), edge("C-b", "C-c", &"b".repeat(64)), edge("C-a", "C-b", &"a".repeat(64))];
    let first = graph_of(&forwards);
    let second = graph_of(&backwards);
    assert_eq!(find(&first), find(&second));
    assert_eq!(components(&first), components(&second));
    for _ in 0..8 {
        assert_eq!(find(&first), find(&second));
    }
}

#[test]
fn a_deep_chain_terminates_without_stack_growth_and_is_reported_acyclic() {
    let chain: Vec<Edge> = (0..1_200).map(|index| edge(&format!("C-{index}"), &format!("C-{}", index + 1), &format!("{index:064x}"))).collect();
    let graph = graph_of(&chain);
    assert_eq!(graph.edge_count(), 1_200);
    assert!(!has_cycle(&graph), "a chain has no cycles");
    assert!(find(&graph).is_empty());
    assert!(components(&graph).is_empty());
}

#[test]
fn a_self_loop_is_reported_as_a_two_element_cycle_like_the_dependency_layer() {
    let mut graph = Graph::new("g1".to_owned()).expect("a graph");
    graph.add_node(Node::for_entity(&c("C-a"))).expect("a node");
    let mut looped = edge("C-a", "C-b", &"a".repeat(64));
    looped.target = looped.source.clone();
    looped.relationship = "DEPENDS_ON".to_owned();
    looped.relationship_rank = 0;
    looped.id = stable_id(&looped.source, "DEPENDS_ON", &looped.target);
    graph.edges.push(looped);
    assert_eq!(graph.integrity_failures().len(), 1, "the self-edge is the only fault");
    assert!(has_cycle(&graph));
    let cycles = find(&graph);
    assert_eq!(cycles.len(), 1);
    assert_eq!(cycles[0].entity_ids(), vec!["C-a", "C-a"]);
    assert_eq!(cycles[0].edges.len(), 1);
}

#[test]
fn a_cycle_reached_through_a_shared_node_is_still_one_component() {
    let graph = graph_of(&[
        edge("C-subject", "C-a", &"a".repeat(64)),
        edge("C-a", "C-loop", &"b".repeat(64)),
        edge("C-loop", "C-loop2", &"c".repeat(64)),
        edge("C-loop2", "C-loop", &"d".repeat(64)),
    ]);
    assert_eq!(components(&graph).len(), 1);
    assert_eq!(find(&graph).len(), 1);
    assert_eq!(cyclic_nodes(&graph, &kinds()).len(), 2);
}
