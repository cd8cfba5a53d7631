use amasario::evidence::kind::EvidenceKind;
use amasario::graph::cycles::find;
use amasario::graph::edges::{stable_id, Boundary, Citation, Edge};
use amasario::graph::graph::Graph;
use amasario::graph::nodes::EntityRef;
use amasario::graph::traversal::{reachable, walk, walk_reverse, Direction, Limits, TruncationReason};

fn entity(kind: &str, id: &str) -> EntityRef {
    EntityRef::new(kind.to_owned(), id.to_owned())
}

fn kinds() -> Vec<String> {
    ["CONTRACT", "WASM", "ARTIFACT", "SOURCE", "BUILD", "DEPLOYMENT", "TRANSACTION"].iter().map(|k| k.to_string()).collect()
}

fn boundary() -> Boundary {
    Boundary { network: "testnet".to_owned(), ledger: 7_000, observed_at: "2026-09-15T00:00:00Z".to_owned() }
}

fn related(from: &str, relationship: &str, rank: usize, to: &str, transaction: &str) -> Edge {
    let source = entity("CONTRACT", from);
    let target = entity("CONTRACT", to);
    Edge {
        id: stable_id(&source, relationship, &target),
        source,
        target,
        relationship: relationship.to_owned(),
        relationship_rank: rank,
        permitted: true,
        evidence: vec![Citation { kind: EvidenceKind::Transaction, id: transaction.to_owned() }],
        confidence: "VERIFIED".to_owned(),
        observed: true,
        depth: 0,
        boundary: Some(boundary()),
    }
}

fn edge(from: &str, to: &str, transaction: &str) -> Edge {
    related(from, "INVOCATES", 1, to, transaction)
}

fn graph_of(edges: Vec<Edge>) -> Graph {
    let mut graph = Graph::new("g1".to_owned()).expect("a graph").with_max_depth(8).with_boundary(boundary());
    graph.add_entity(&entity("CONTRACT", "C-subject")).expect("the subject");
    for edge in edges {
        graph.add_edge(edge).expect("an edge");
    }
    graph.canonicalise(&kinds());
    graph
}

fn limits(max_depth: usize, max_nodes: usize) -> Limits {
    Limits::new(max_depth, max_nodes).expect("a bound")
}

#[test]
fn a_forward_walk_records_depth_path_and_the_edges_it_traversed() {
    let graph = graph_of(vec![
        edge("C-subject", "C-a", &"a".repeat(64)),
        edge("C-a", "C-b", &"b".repeat(64)),
        edge("C-b", "C-c", &"c".repeat(64)),
    ]);
    let start = entity("CONTRACT", "C-subject");
    let found = walk(&graph, &start, limits(5, 100));
    assert_eq!(found.depth_of(&entity("CONTRACT", "C-a")), Some(1));
    assert_eq!(found.depth_of(&entity("CONTRACT", "C-c")), Some(3));
    let deepest = found.find(&entity("CONTRACT", "C-c")).expect("reached");
    assert_eq!(deepest.path, vec![entity("CONTRACT", "C-a"), entity("CONTRACT", "C-b")]);
    assert_eq!(deepest.edges.len(), 3);
    assert_eq!(
        deepest.edges,
        vec![
            "CONTRACT:C-subject -INVOCATES-> CONTRACT:C-a".to_owned(),
            "CONTRACT:C-a -INVOCATES-> CONTRACT:C-b".to_owned(),
            "CONTRACT:C-b -INVOCATES-> CONTRACT:C-c".to_owned(),
        ]
    );
    assert_eq!(deepest.resolve_edges(&graph).len(), 3);
    assert_eq!(found.nodes_visited, 4);
    assert_eq!(found.deepest, 3);
    assert!(!found.truncated);
    assert!(!found.is_inconclusive());
    assert_eq!(found.direction, Direction::Forward);
}

#[test]
fn a_reverse_walk_answers_the_impact_question_over_the_same_edges() {
    let graph = graph_of(vec![
        edge("C-subject", "C-a", &"a".repeat(64)),
        edge("C-a", "C-b", &"b".repeat(64)),
        edge("C-b", "C-downstream", &"c".repeat(64)),
    ]);
    let changed = entity("CONTRACT", "C-downstream");
    let dependents = walk_reverse(&graph, &changed, limits(5, 100));
    assert_eq!(dependents.depth_of(&entity("CONTRACT", "C-b")), Some(1));
    assert_eq!(dependents.depth_of(&entity("CONTRACT", "C-a")), Some(2));
    assert_eq!(dependents.depth_of(&entity("CONTRACT", "C-subject")), Some(3));
    assert_eq!(dependents.direction, Direction::Reverse);
    assert!(walk(&graph, &changed, limits(5, 100)).is_empty());
}

#[test]
fn a_depth_bound_is_reported_rather_than_producing_a_short_answer() {
    let graph = graph_of(vec![
        edge("C-subject", "C-a", &"a".repeat(64)),
        edge("C-a", "C-b", &"b".repeat(64)),
        edge("C-b", "C-c", &"c".repeat(64)),
    ]);
    let start = entity("CONTRACT", "C-subject");
    let bounded = walk(&graph, &start, limits(2, 100));
    assert_eq!(bounded.deepest, 2);
    assert!(bounded.truncated);
    assert_eq!(bounded.truncation_reason, Some(TruncationReason::MaxDepthReached));
    assert!(bounded.is_inconclusive(), "an empty result would be inconclusive");
    assert!(bounded.depth_of(&entity("CONTRACT", "C-c")).is_none());
    let shallow = graph_of(vec![edge("C-subject", "C-a", &"a".repeat(64)), edge("C-a", "C-b", &"b".repeat(64))]);
    let complete = walk(&shallow, &start, limits(2, 100));
    assert!(!complete.truncated);
    assert_eq!(complete.deepest, 2);
}

#[test]
fn a_node_bound_is_reported_with_its_own_reason() {
    let graph = graph_of(vec![
        edge("C-subject", "C-a", &"a".repeat(64)),
        edge("C-subject", "C-b", &"b".repeat(64)),
        edge("C-subject", "C-c", &"c".repeat(64)),
    ]);
    let start = entity("CONTRACT", "C-subject");
    let bounded = walk(&graph, &start, limits(10, 3));
    assert!(bounded.truncated);
    assert_eq!(bounded.truncation_reason, Some(TruncationReason::MaxNodesReached));
    assert_eq!(bounded.nodes_visited, 3);
}

#[test]
fn the_start_is_never_reported_as_reached_by_itself() {
    let graph = graph_of(vec![edge("C-subject", "C-a", &"a".repeat(64))]);
    let start = entity("CONTRACT", "C-subject");
    let found = walk(&graph, &start, limits(5, 100));
    assert!(found.depth_of(&start).is_none());
    assert_eq!(found.entity_ids(), vec!["C-a"]);
}

#[test]
fn a_cycle_is_not_followed_and_is_reported_inside_the_visited_set() {
    let graph = graph_of(vec![
        edge("C-subject", "C-a", &"a".repeat(64)),
        edge("C-a", "C-b", &"b".repeat(64)),
        edge("C-b", "C-a", &"c".repeat(64)),
    ]);
    let start = entity("CONTRACT", "C-subject");
    let found = walk(&graph, &start, limits(10, 100));
    assert_eq!(found.depth_of(&entity("CONTRACT", "C-a")), Some(1));
    assert_eq!(found.depth_of(&entity("CONTRACT", "C-b")), Some(2));
    assert!(found.depth_of(&entity("CONTRACT", "C-a")).unwrap() < 4, "the cycle must not be walked repeatedly");
    assert!(found.has_cycles());
    assert_eq!(found.cycles.len(), 1);
    assert!(!found.truncated, "a cycle is not a truncated search");
}

#[test]
fn a_cycle_outside_the_visited_set_is_not_reported_against_this_walk() {
    let graph = graph_of(vec![
        edge("C-subject", "C-a", &"a".repeat(64)),
        edge("C-far", "C-far2", &"b".repeat(64)),
        edge("C-far2", "C-far", &"c".repeat(64)),
    ]);
    let start = entity("CONTRACT", "C-subject");
    let found = walk(&graph, &start, limits(10, 100));
    assert!(!found.has_cycles(), "a cycle the walk never entered is a fact about the graph");
    assert_eq!(find(&graph).len(), 1, "and it is still in the graph");
}

#[test]
fn the_shortest_route_wins_and_the_result_is_deterministic() {
    let graph = graph_of(vec![
        edge("C-subject", "C-long", &"a".repeat(64)),
        edge("C-long", "C-target", &"b".repeat(64)),
        edge("C-subject", "C-target", &"c".repeat(64)),
    ]);
    let start = entity("CONTRACT", "C-subject");
    let target = entity("CONTRACT", "C-target");
    let first = walk(&graph, &start, limits(10, 100));
    assert_eq!(first.depth_of(&target), Some(1));
    assert!(first.find(&target).expect("reached").path.is_empty());
    for _ in 0..8 {
        let again = walk(&graph, &start, limits(10, 100));
        assert_eq!(again, first);
    }
}

#[test]
fn entries_are_ordered_by_depth_then_entity() {
    let graph = graph_of(vec![
        edge("C-subject", "C-zeta", &"1".repeat(64)),
        edge("C-subject", "C-alpha", &"2".repeat(64)),
        edge("C-alpha", "C-deep", &"3".repeat(64)),
    ]);
    let start = entity("CONTRACT", "C-subject");
    let found = walk(&graph, &start, limits(10, 100));
    assert_eq!(found.entity_ids(), vec!["C-alpha", "C-zeta", "C-deep"], "depth first, then identifier");
    assert_eq!(found.at_depth(1).len(), 2);
    assert_eq!(found.at_depth(2).len(), 1);
}

#[test]
fn reachability_is_answered_with_the_depth_it_was_reached_at() {
    let graph = graph_of(vec![edge("C-subject", "C-a", &"a".repeat(64)), edge("C-a", "C-b", &"b".repeat(64))]);
    let start = entity("CONTRACT", "C-subject");
    assert_eq!(reachable(&graph, &start, &entity("CONTRACT", "C-b"), limits(5, 100)), Some(2));
    assert_eq!(reachable(&graph, &start, &entity("CONTRACT", "C-nope"), limits(5, 100)), None);
}

#[test]
fn a_zero_bound_is_refused_rather_than_producing_silence() {
    assert!(Limits::new(0, 10).is_none());
    assert!(Limits::new(10, 0).is_none());
}

#[test]
fn every_edge_between_a_pair_stays_in_the_graph_even_when_only_one_is_walked() {
    let subject = entity("CONTRACT", "C-a");
    let other = entity("CONTRACT", "C-b");
    let mut graph = Graph::new("g1".to_owned()).expect("a graph").with_boundary(boundary());
    graph.add_edge(related("C-a", "INVOCATES", 1, "C-b", &"a".repeat(64))).expect("an edge");
    graph.add_edge(related("C-a", "DEPENDS_ON", 0, "C-b", &"b".repeat(64))).expect("an edge");
    graph.canonicalise(&kinds());
    assert_eq!(graph.edges_between(&subject, &other).len(), 2);
    let found = walk(&graph, &subject, limits(4, 10));
    assert_eq!(found.entries.len(), 1, "one entity, however many relationships");
    assert_eq!(found.entries[0].edges.len(), 1, "the edge actually traversed");
}

#[test]
fn the_walks_order_matches_the_graphs_adjacency_order() {
    let graph = graph_of(vec![
        edge("C-subject", "C-zeta", &"1".repeat(64)),
        edge("C-subject", "C-alpha", &"2".repeat(64)),
    ]);
    let start = entity("CONTRACT", "C-subject");
    let from_source: Vec<String> = graph.edges_from(&start).into_iter().map(|edge| edge.target.render()).collect();
    let from_walk: Vec<String> = walk(&graph, &start, limits(4, 10)).entities().iter().map(|e| e.render()).collect();
    assert_eq!(from_source, from_walk);
}

#[test]
fn a_start_that_is_not_a_node_reaches_nothing() {
    let graph = graph_of(vec![edge("C-subject", "C-a", &"a".repeat(64))]);
    let found = walk(&graph, &entity("CONTRACT", "C-elsewhere"), limits(5, 100));
    assert!(found.is_empty());
    assert_eq!(found.nodes_visited, 1);
    assert!(!found.truncated);
}

#[test]
fn a_node_bound_met_where_nothing_leads_on_is_not_a_truncation() {
    let graph = graph_of(vec![edge("C-subject", "C-a", &"a".repeat(64))]);
    let start = entity("CONTRACT", "C-subject");
    let full = walk(&graph, &start, limits(5, 2));
    assert_eq!(full.nodes_visited, 2);
    assert!(!full.truncated, "the bound was met, but nothing lay beyond it");
    assert_eq!(full.truncation_reason, None);
    assert_eq!(full.depth_of(&entity("CONTRACT", "C-a")), Some(1));
}

#[test]
fn a_node_bound_met_before_an_onward_edge_truncates() {
    let graph = graph_of(vec![
        edge("C-subject", "C-a", &"a".repeat(64)),
        edge("C-a", "C-b", &"b".repeat(64)),
    ]);
    let start = entity("CONTRACT", "C-subject");
    let bounded = walk(&graph, &start, limits(5, 2));
    assert_eq!(bounded.nodes_visited, 2);
    assert!(bounded.truncated);
    assert_eq!(bounded.truncation_reason, Some(TruncationReason::MaxNodesReached));
    assert!(bounded.depth_of(&entity("CONTRACT", "C-b")).is_none());
}
