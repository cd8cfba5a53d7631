use amasario::error::ErrorCategory;
use amasario::graph::errors::{describe, first_failure, GraphFailure};

fn every_failure() -> Vec<GraphFailure> {
    vec![
        GraphFailure::DanglingEdge {
            edge: "e1".to_owned(),
            endpoint: "CONTRACT:C-missing".to_owned(),
            role: "target".to_owned(),
        },
        GraphFailure::SelfEdge { entity: "CONTRACT:C-a".to_owned() },
        GraphFailure::DuplicateNode { id: "CONTRACT:C-a".to_owned() },
        GraphFailure::DuplicateEdge { id: "e1".to_owned() },
        GraphFailure::EndpointsNotPermitted {
            relationship: "DEPLOYED_AS".to_owned(),
            subject_kind: "DEPLOYMENT".to_owned(),
            object_kind: "CONTRACT".to_owned(),
        },
        GraphFailure::EdgeWithoutEvidence { edge: "e1".to_owned() },
        GraphFailure::MissingGraphId,
        GraphFailure::TruncationUnreported,
        GraphFailure::UnknownEntityKind { node: "n1".to_owned(), kind: "ORACLE".to_owned() },
        GraphFailure::MalformedDocument { detail: "expected value".to_owned() },
    ]
}

#[test]
fn every_graph_failure_has_a_category_and_a_description() {
    let failures = every_failure();
    for failure in &failures {
        assert_eq!(failure.category(), failure.clone().into_error().category(), "{failure:?} disagrees with its own error");
        assert!(!describe(failure).is_empty());
        assert!(!failure.clone().into_error().message().is_empty());
    }
    assert_eq!(failures.len(), 10, "every variant is covered by this test");
}

#[test]
fn the_categories_separate_structure_from_unreadable_input() {
    for failure in every_failure() {
        let expected = match failure {
            GraphFailure::UnknownEntityKind { .. } | GraphFailure::MalformedDocument { .. } => ErrorCategory::Validation,
            _ => ErrorCategory::Graph,
        };
        assert_eq!(failure.category(), expected, "{failure:?}");
    }
    assert!(
        !every_failure().iter().any(|failure| failure.category() == ErrorCategory::SpecificationCompatibility),
        "version policy belongs to the engine's specification stamp, not to a graph failure"
    );
}

#[test]
fn only_a_dangling_edge_can_be_repaired_by_observing_more() {
    for failure in every_failure() {
        let repairable = matches!(failure, GraphFailure::DanglingEdge { .. });
        assert_eq!(failure.is_repairable_by_observation(), repairable, "{failure:?} misclassified as repairable");
    }
    assert!(!GraphFailure::DuplicateNode { id: "n1".to_owned() }.is_repairable_by_observation());
}

#[test]
fn malformed_input_is_distinguished_from_a_broken_graph() {
    assert!(GraphFailure::MalformedDocument { detail: "expected value".to_owned() }.is_malformed_input());
    assert!(!GraphFailure::DanglingEdge {
        edge: "e1".to_owned(),
        endpoint: "n1".to_owned(),
        role: "source".to_owned(),
    }
    .is_malformed_input());
}

#[test]
fn a_dangling_edge_says_which_end_dangled() {
    let source = GraphFailure::DanglingEdge {
        edge: "e1".to_owned(),
        endpoint: "CONTRACT:C-a".to_owned(),
        role: "source".to_owned(),
    }
    .into_error();
    assert!(source.message().contains("source"), "got: {}", source.message());
    let target = GraphFailure::DanglingEdge {
        edge: "e1".to_owned(),
        endpoint: "CONTRACT:C-b".to_owned(),
        role: "target".to_owned(),
    }
    .into_error();
    assert!(target.message().contains("target"), "got: {}", target.message());
}

#[test]
fn errors_an_empty_failure_list_succeeds_and_a_populated_one_reports_its_first() {
    first_failure(Vec::new()).expect("nothing to report");
    let error = first_failure(vec![GraphFailure::SelfEdge { entity: "CONTRACT:C-a".to_owned() }])
        .expect_err("a failure must be reported");
    assert!(error.message().contains("cannot depend on itself"));
}

#[test]
fn an_identifier_is_quoted_and_escaped_in_the_sentence() {
    let message = GraphFailure::DuplicateNode { id: "CONTRACT:C-\"a\"".to_owned() }.into_error().message();
    assert!(message.starts_with("node \"CONTRACT:C-\\\"a\\\"\" appears more than once"), "{message}");
}

#[test]
fn a_failure_that_more_observation_can_repair_is_structural() {
    for failure in every_failure() {
        if failure.is_repairable_by_observation() {
            assert!(!failure.is_malformed_input(), "{failure:?}");
            assert_eq!(failure.category(), ErrorCategory::Graph);
        }
    }
}
