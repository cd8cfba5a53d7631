use amasario::evidence::kind::EvidenceKind;
use amasario::graph::edges::{stable_id, Boundary, Citation, Edge};
use amasario::graph::graph::Graph;
use amasario::graph::nodes::EntityRef;
use amasario::graph::paths::{all_paths, all_paths_bounded, shortest_path, Path};
use amasario::graph::traversal::{Limits, TruncationReason};

fn kinds() -> Vec<String> {
    ["CONTRACT", "WASM", "ARTIFACT", "SOURCE", "BUILD", "DEPLOYMENT", "TRANSACTION"].iter().map(|k| k.to_string()).collect()
}

fn boundary() -> Boundary {
    Boundary { network: "testnet".to_owned(), ledger: 7_000, observed_at: "2026-09-15T00:00:00Z".to_owned() }
}

fn c(id: &str) -> EntityRef {
    EntityRef::new("CONTRACT".to_owned(), id.to_owned())
}

fn related(from: &str, relationship: &str, rank: usize, to: &str, transaction: &str) -> Edge {
    let source = c(from);
    let target = c(to);
    Edge {
        id: stable_id(&source, relationship, &target),
        source,
        target,
        relationship: relationship.to_owned(),
        relationship_rank: rank,
        permitted: true,
        evidence: vec![Citation { kind: EvidenceKind::Transaction, id: transaction.to_owned() }],
        confidence: "VERIFIED".to_owned(),
        observed: true,
        depth: 0,
        boundary: Some(boundary()),
    }
}

fn edge(from: &str, to: &str, transaction: &str) -> Edge {
    related(from, "INVOCATES", 1, to, transaction)
}

fn graph_of(edges: &[Edge]) -> Graph {
    let mut graph = Graph::new("g1".to_owned()).expect("a graph").with_max_depth(8).with_boundary(boundary());
    graph.add_entity(&c("C-subject")).expect("the subject");
    for edge in edges {
        graph.add_edge(edge.clone()).expect("an edge");
    }
    graph.canonicalise(&kinds());
    graph
}

fn limits(max_depth: usize, max_nodes: usize) -> Limits {
    Limits::new(max_depth, max_nodes).expect("a bound")
}

fn diamonds(count: usize) -> Vec<Edge> {
    let mut edges = Vec::new();
    for index in 0..count {
        for arm in ["x", "y"] {
            edges.push(edge(
                &format!("C-{index}"),
                &format!("C-{index}-{arm}"),
                &format!("{:064x}", index * 2 + usize::from(arm == "y")),
            ));
            edges.push(edge(
                &format!("C-{index}-{arm}"),
                &format!("C-{}", index + 1),
                &format!("{:064x}", index * 2 + 100 + usize::from(arm == "y")),
            ));
        }
    }
    edges
}

#[test]
fn a_linear_chain_produces_one_route_with_its_intermediates_named() {
    let graph = graph_of(&[
        edge("C-subject", "C-a", &"a".repeat(64)),
        edge("C-a", "C-b", &"b".repeat(64)),
        edge("C-b", "C-target", &"c".repeat(64)),
    ]);
    let search = all_paths(&graph, &c("C-subject"), &c("C-target"), limits(6, 100));
    assert_eq!(search.len(), 1);
    assert!(!search.truncated);
    assert!(!search.is_inconclusive());
    let path = search.only().expect("exactly one route");
    assert_eq!(path.hops(), 3);
    assert_eq!(path.source(), Some(&c("C-subject")));
    assert_eq!(path.destination(), Some(&c("C-target")));
    assert_eq!(path.intermediates(), &[c("C-a"), c("C-b")]);
    assert!(!path.repeats_an_entity());
    assert_eq!(
        path.edges,
        vec![
            "CONTRACT:C-subject -INVOCATES-> CONTRACT:C-a".to_owned(),
            "CONTRACT:C-a -INVOCATES-> CONTRACT:C-b".to_owned(),
            "CONTRACT:C-b -INVOCATES-> CONTRACT:C-target".to_owned(),
        ]
    );
    assert_eq!(
        path.render(),
        "CONTRACT:C-subject -INVOCATES-> CONTRACT:C-a -> \
         CONTRACT:C-a -INVOCATES-> CONTRACT:C-b -> \
         CONTRACT:C-b -INVOCATES-> CONTRACT:C-target"
    );
    assert_eq!(search.deepest, 3);
    assert_eq!(search.uniform_relationship(&graph), Some("INVOCATES".to_owned()));
}

#[test]
fn two_routes_are_both_reported_and_the_shortest_comes_first() {
    let graph = graph_of(&[
        edge("C-subject", "C-long", &"a".repeat(64)),
        edge("C-long", "C-target", &"b".repeat(64)),
        edge("C-subject", "C-target", &"c".repeat(64)),
    ]);
    let search = all_paths(&graph, &c("C-subject"), &c("C-target"), limits(6, 100));
    assert_eq!(search.len(), 2, "got: {:?}", search.paths);
    assert_eq!(search.paths[0].hops(), 1, "the shortest route first");
    assert_eq!(search.paths[1].hops(), 2);
    assert!(search.only().is_none(), "a caller asking for the route must be told the question was ambiguous");
    assert_eq!(search.shortest().map(Path::hops), Some(1));
    assert_eq!(shortest_path(&graph, &c("C-subject"), &c("C-target"), limits(6, 100)).map(|path| path.hops()), Some(1));
}

#[test]
fn the_shortest_route_is_found_even_when_a_longer_one_exists() {
    let graph = graph_of(&[
        edge("C-subject", "C-a", &"a".repeat(64)),
        edge("C-a", "C-b", &"b".repeat(64)),
        edge("C-b", "C-target", &"c".repeat(64)),
        edge("C-subject", "C-target", &"d".repeat(64)),
    ]);
    let shortest = shortest_path(&graph, &c("C-subject"), &c("C-target"), limits(6, 100)).expect("a route");
    assert_eq!(shortest.hops(), 1);
    assert!(shortest.intermediates().is_empty());
    assert_eq!(graph.edges_from(&c("C-subject")).len(), 2);
}

#[test]
fn an_unreachable_target_is_reported_as_no_route_without_truncation() {
    let graph = graph_of(&[edge("C-subject", "C-a", &"a".repeat(64)), edge("C-other", "C-elsewhere", &"b".repeat(64))]);
    let search = all_paths(&graph, &c("C-subject"), &c("C-target"), limits(6, 100));
    assert!(search.is_empty());
    assert!(!search.is_inconclusive(), "a complete search that found nothing is a negative finding");
    assert!(shortest_path(&graph, &c("C-subject"), &c("C-target"), limits(6, 100)).is_none());
}

#[test]
fn a_bounded_search_that_found_nothing_is_inconclusive() {
    let graph = graph_of(&[
        edge("C-subject", "C-a", &"a".repeat(64)),
        edge("C-a", "C-b", &"b".repeat(64)),
        edge("C-b", "C-target", &"c".repeat(64)),
    ]);
    let search = all_paths(&graph, &c("C-subject"), &c("C-target"), limits(2, 100));
    assert!(search.is_empty(), "the route is three hops away");
    assert!(search.is_inconclusive());
    assert_eq!(search.truncation_reason, Some(TruncationReason::MaxDepthReached));
}

#[test]
fn a_route_to_itself_is_not_a_route() {
    let graph = graph_of(&[edge("C-subject", "C-a", &"a".repeat(64))]);
    assert!(shortest_path(&graph, &c("C-subject"), &c("C-subject"), limits(6, 100)).is_none());
    let search = all_paths(&graph, &c("C-subject"), &c("C-subject"), limits(6, 100));
    assert!(search.is_empty());
    assert!(!search.truncated, "a question with no answer is not a truncated search");
}

#[test]
fn enumeration_does_not_report_routes_that_revisit_an_entity() {
    let graph = graph_of(&[
        edge("C-subject", "C-a", &"a".repeat(64)),
        edge("C-a", "C-b", &"b".repeat(64)),
        edge("C-b", "C-subject", &"c".repeat(64)),
        edge("C-b", "C-target", &"d".repeat(64)),
    ]);
    let search = all_paths(&graph, &c("C-subject"), &c("C-target"), limits(8, 100));
    assert_eq!(search.len(), 1);
    assert!(search.paths.iter().all(|path| !path.repeats_an_entity()));
    assert_eq!(search.paths[0].entities, vec![c("C-subject"), c("C-a"), c("C-b"), c("C-target")]);
}

#[test]
fn the_path_cap_truncates_and_says_so() {
    let graph = graph_of(&diamonds(4));
    let uncapped = all_paths_bounded(&graph, &c("C-0"), &c("C-4"), limits(20, 5_000), 64);
    assert_eq!(uncapped.len(), 16, "got: {:?}", uncapped.paths);
    assert!(!uncapped.truncated, "sixty-four is enough for sixteen routes");
    assert_eq!(uncapped.paths[0].hops(), 8, "the shortest route is two hops per diamond");
    let capped = all_paths_bounded(&graph, &c("C-0"), &c("C-4"), limits(20, 5_000), 4);
    assert_eq!(capped.len(), 4);
    assert!(capped.truncated);
    assert_eq!(capped.truncation_reason, Some(TruncationReason::MaxNodesReached));
    let none = all_paths_bounded(&graph, &c("C-0"), &c("C-4"), limits(20, 5_000), 0);
    assert!(none.is_empty());
    assert!(none.truncated, "a cap of zero cannot report anything, and must say so");
}

#[test]
fn a_cap_is_a_ceiling_even_when_a_nested_call_reached_it() {
    let graph = graph_of(&[
        edge("C-subject", "C-mid", &"a".repeat(64)),
        edge("C-mid", "C-target", &"b".repeat(64)),
        edge("C-subject", "C-target", &"c".repeat(64)),
    ]);
    let search = all_paths_bounded(&graph, &c("C-subject"), &c("C-target"), limits(6, 100), 1);
    assert_eq!(search.paths.len(), 1, "a cap of one reported {} paths: {:?}", search.paths.len(), search.paths);
    assert!(search.truncated, "a search that stopped at its cap is partial, and must say so");
    for cap in 1..=3 {
        let search = all_paths_bounded(&graph, &c("C-subject"), &c("C-target"), limits(6, 100), cap);
        assert!(search.paths.len() <= cap, "a cap of {cap} reported {} paths: {:?}", search.paths.len(), search.paths);
    }
}

#[test]
fn the_exploration_budget_truncates_a_dense_graph() {
    let edges: Vec<Edge> = (0..30).map(|index| edge("C-subject", &format!("C-{index}"), &format!("{index:064x}"))).collect();
    let graph = graph_of(&edges);
    let budgeted = all_paths_bounded(&graph, &c("C-subject"), &c("C-zebra"), limits(4, 8), 64);
    assert!(budgeted.truncated);
    assert_eq!(budgeted.explored, 8, "the budget is spent, not exceeded");
    assert_eq!(budgeted.truncation_reason, Some(TruncationReason::MaxNodesReached));
}

#[test]
fn enumeration_is_deterministic_and_independent_of_insertion_order() {
    let forwards = [
        edge("C-subject", "C-a", &"a".repeat(64)),
        edge("C-a", "C-target", &"b".repeat(64)),
        edge("C-subject", "C-b", &"c".repeat(64)),
        edge("C-b", "C-target", &"d".repeat(64)),
    ];
    let mut backwards = forwards.clone();
    backwards.reverse();
    let first = all_paths(&graph_of(&forwards), &c("C-subject"), &c("C-target"), limits(6, 100));
    let second = all_paths(&graph_of(&backwards), &c("C-subject"), &c("C-target"), limits(6, 100));
    assert_eq!(first, second);
    assert_eq!(first.len(), 2);
    for _ in 0..8 {
        assert_eq!(all_paths(&graph_of(&forwards), &c("C-subject"), &c("C-target"), limits(6, 100)), first);
    }
}

#[test]
fn a_mixed_route_is_not_described_as_one_relationship() {
    let graph = graph_of(&[related("C-a", "INVOCATES", 1, "C-b", &"a".repeat(64)), related("C-b", "DEPENDS_ON", 0, "C-c", &"b".repeat(64))]);
    let search = all_paths(&graph, &c("C-a"), &c("C-c"), limits(6, 100));
    assert_eq!(search.len(), 1);
    assert_eq!(search.uniform_relationship(&graph), None, "a mixed chain has no single relationship");
    let uniform = graph_of(&[edge("C-subject", "C-a", &"a".repeat(64)), edge("C-a", "C-target", &"b".repeat(64))]);
    let search = all_paths(&uniform, &c("C-subject"), &c("C-target"), limits(6, 100));
    assert_eq!(search.uniform_relationship(&uniform), Some("INVOCATES".to_owned()));
}

#[test]
fn an_empty_search_reports_no_uniform_relationship_rather_than_guessing_one() {
    let graph = graph_of(&[edge("C-subject", "C-a", &"a".repeat(64))]);
    let search = all_paths(&graph, &c("C-subject"), &c("C-absent"), limits(6, 100));
    assert!(search.is_empty());
    assert_eq!(search.uniform_relationship(&graph), None);
    assert_eq!(search.deepest, 0);
}

#[test]
fn a_direct_route_has_no_intermediates() {
    let graph = graph_of(&[edge("C-subject", "C-a", &"a".repeat(64))]);
    let path = shortest_path(&graph, &c("C-subject"), &c("C-a"), limits(4, 100)).expect("a route");
    assert_eq!(path.hops(), 1);
    assert!(path.intermediates().is_empty());
    assert_eq!(path.entities, vec![c("C-subject"), c("C-a")]);
    assert_eq!(path.source(), Some(&c("C-subject")));
    assert_eq!(path.destination(), Some(&c("C-a")));
}

#[test]
fn a_direct_route_that_the_node_bound_forbids_is_reported_as_absent() {
    let graph = graph_of(&[edge("C-subject", "C-a", &"a".repeat(64)), edge("C-subject", "C-b", &"b".repeat(64))]);
    let search = all_paths_bounded(&graph, &c("C-subject"), &c("C-b"), limits(4, 1), 8);
    assert!(search.is_empty());
    assert!(search.is_inconclusive());
}

#[test]
fn a_depth_bound_at_a_dead_end_leaves_the_enumeration_complete() {
    let graph = graph_of(&[
        edge("C-subject", "C-a", &"a".repeat(64)),
        edge("C-a", "C-b", &"b".repeat(64)),
        edge("C-subject", "C-target", &"c".repeat(64)),
    ]);
    let search = all_paths(&graph, &c("C-subject"), &c("C-target"), limits(2, 100));
    assert_eq!(search.len(), 1);
    assert!(!search.truncated, "the route cut at the bound ends where nothing leads on");
    assert_eq!(search.deepest, 1);
}

#[test]
fn an_empty_enumeration_reports_no_depth() {
    let graph = graph_of(&[edge("C-subject", "C-a", &"a".repeat(64))]);
    let search = all_paths(&graph, &c("C-subject"), &c("C-target"), limits(4, 100));
    assert!(search.is_empty());
    assert_eq!(search.deepest, 0);
    assert!(!search.truncated);
}

#[test]
fn no_route_is_reported_twice() {
    let graph = graph_of(&diamonds(3));
    let search = all_paths_bounded(&graph, &c("C-0"), &c("C-3"), limits(20, 5_000), 64);
    assert_eq!(search.len(), 8);
    for (i, left) in search.paths.iter().enumerate() {
        for right in search.paths.iter().skip(i + 1) {
            assert_ne!(left, right);
        }
    }
}

#[test]
fn a_node_bound_leaves_the_shortest_route_unknown() {
    let graph = graph_of(&[
        edge("C-subject", "C-a", &"a".repeat(64)),
        edge("C-subject", "C-b", &"b".repeat(64)),
        edge("C-a", "C-target", &"c".repeat(64)),
    ]);
    assert!(shortest_path(&graph, &c("C-subject"), &c("C-target"), limits(5, 2)).is_none());
    assert!(shortest_path(&graph, &c("C-subject"), &c("C-target"), limits(5, 100)).is_some());
}
