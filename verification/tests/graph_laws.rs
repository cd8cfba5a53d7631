use amasario::evidence::kind::EvidenceKind;
use amasario::graph::cycles::find;
use amasario::graph::edges::{stable_id, Boundary, Citation, Edge};
use amasario::graph::graph::Graph;
use amasario::graph::nodes::EntityRef;
use amasario::graph::paths::{all_paths, shortest_path};
use amasario::graph::traversal::{walk, walk_reverse, Limits};

fn kinds() -> Vec<String> {
    ["CONTRACT", "WASM", "ARTIFACT", "SOURCE", "BUILD", "DEPLOYMENT", "TRANSACTION"].iter().map(|k| k.to_string()).collect()
}

fn boundary() -> Boundary {
    Boundary { network: "testnet".to_owned(), ledger: 7_000, observed_at: "2026-09-15T00:00:00Z".to_owned() }
}

fn c(id: &str) -> EntityRef {
    EntityRef::new("CONTRACT".to_owned(), id.to_owned())
}

fn edge(from: &str, to: &str, transaction: &str) -> Edge {
    let source = c(from);
    let target = c(to);
    Edge {
        id: stable_id(&source, "INVOCATES", &target),
        source,
        target,
        relationship: "INVOCATES".to_owned(),
        relationship_rank: 1,
        permitted: true,
        evidence: vec![Citation { kind: EvidenceKind::Transaction, id: transaction.to_owned() }],
        confidence: "VERIFIED".to_owned(),
        observed: true,
        depth: 0,
        boundary: Some(boundary()),
    }
}

fn graph_of(edges: &[Edge]) -> Graph {
    let mut graph = Graph::new("g-laws".to_owned()).expect("a graph").with_max_depth(8).with_boundary(boundary());
    for edge in edges {
        graph.add_edge(edge.clone()).expect("an edge");
    }
    graph.canonicalise(&kinds());
    graph
}

fn limits(max_depth: usize, max_nodes: usize) -> Limits {
    Limits::new(max_depth, max_nodes).expect("a bound")
}

/// A long way round (three hops) and a short cut (two hops) to the same target.
fn long_and_short() -> Graph {
    graph_of(&[
        edge("C-a", "C-b", &"1".repeat(64)),
        edge("C-b", "C-c", &"2".repeat(64)),
        edge("C-c", "C-z", &"3".repeat(64)),
        edge("C-a", "C-d", &"4".repeat(64)),
        edge("C-d", "C-z", &"5".repeat(64)),
    ])
}

#[test]
fn the_shortest_path_takes_the_short_cut_over_the_long_way_round() {
    let graph = long_and_short();
    let path = shortest_path(&graph, &c("C-a"), &c("C-z"), limits(5, 100)).expect("a route");
    assert_eq!(path.edges.len(), 2);
    assert_eq!(path.entities, vec![c("C-a"), c("C-d"), c("C-z")]);
}

#[test]
fn a_walk_reports_each_entity_at_its_fewest_hops() {
    let graph = long_and_short();
    let found = walk(&graph, &c("C-a"), limits(5, 100));
    assert_eq!(found.depth_of(&c("C-z")), Some(2));
    assert_eq!(found.depth_of(&c("C-c")), Some(2));
    assert_eq!(found.depth_of(&c("C-b")), Some(1));
}

#[test]
fn every_simple_route_is_listed_when_the_search_was_not_cut_short() {
    let graph = long_and_short();
    let search = all_paths(&graph, &c("C-a"), &c("C-z"), limits(5, 100));
    assert!(!search.truncated);
    assert_eq!(search.paths.len(), 2);
    assert_eq!(search.paths[0].edges.len(), 2, "shortest first");
    assert_eq!(search.paths[1].edges.len(), 3);
}

#[test]
fn no_route_within_the_bound_means_none_when_the_node_bound_is_generous() {
    let graph = long_and_short();
    assert!(shortest_path(&graph, &c("C-a"), &c("C-z"), limits(1, 100)).is_none());
    assert!(shortest_path(&graph, &c("C-z"), &c("C-a"), limits(5, 100)).is_none());
}

#[test]
fn reading_the_edges_backwards_mirrors_what_is_reached() {
    let graph = long_and_short();
    let below = walk(&graph, &c("C-a"), limits(5, 100));
    for entry in &below.entries {
        let above = walk_reverse(&graph, &entry.entity, limits(5, 100));
        assert_eq!(above.depth_of(&c("C-a")), Some(entry.depth), "{entry:?}");
    }
}

#[test]
fn two_separate_loops_each_get_a_cycle_of_their_own() {
    let graph = graph_of(&[
        edge("C-a", "C-b", &"1".repeat(64)),
        edge("C-b", "C-a", &"2".repeat(64)),
        edge("C-x", "C-y", &"3".repeat(64)),
        edge("C-y", "C-z", &"4".repeat(64)),
        edge("C-z", "C-x", &"5".repeat(64)),
    ]);
    let cycles = find(&graph);
    assert_eq!(cycles.len(), 2, "{cycles:?}");
    assert_eq!(cycles[0].entities[0], c("C-a"));
    assert_eq!(cycles[0].edges.len(), 2);
    assert_eq!(cycles[1].entities[0], c("C-x"));
    assert_eq!(cycles[1].edges.len(), 3);
}

#[test]
fn canonicalising_twice_is_canonicalising_once() {
    let once = long_and_short();
    let mut twice = once.clone();
    twice.canonicalise(&kinds());
    assert_eq!(twice, once);
}

#[test]
fn an_edge_identifier_changes_with_the_relationship_and_survives_a_rerun() {
    let first = stable_id(&c("C-a"), "INVOCATES", &c("C-b"));
    assert_eq!(first, stable_id(&c("C-a"), "INVOCATES", &c("C-b")));
    assert_ne!(first, stable_id(&c("C-a"), "DEPENDS_ON", &c("C-b")));
    assert_ne!(first, stable_id(&c("C-b"), "INVOCATES", &c("C-a")));
    assert_eq!(first.len(), 64);
}

#[test]
fn the_reported_cycle_is_a_shortest_one_through_its_first_entity() {
    let graph = graph_of(&[
        edge("C-a", "C-b", &"1".repeat(64)),
        edge("C-b", "C-c", &"2".repeat(64)),
        edge("C-c", "C-a", &"3".repeat(64)),
        edge("C-b", "C-a", &"4".repeat(64)),
    ]);
    let cycles = find(&graph);
    assert_eq!(cycles.len(), 1, "{cycles:?}");
    assert_eq!(cycles[0].entities[0], c("C-a"));
    assert_eq!(cycles[0].edges.len(), 2, "the two-hop loop, not the three-hop one");
}
