use amasario::error::ErrorCategory;
use amasario::evidence::kind::EvidenceKind;
use amasario::export::errors::{first_failure, ExportFailure};
use amasario::export::{dot, graphml, Format};
use amasario::graph::document::GraphDocument;
use amasario::graph::edges::{stable_id, Boundary, Citation, Edge};
use amasario::graph::graph::Graph;
use amasario::graph::nodes::EntityRef;

fn vocabulary() -> Vec<String> {
    ["DEPENDS_ON", "INVOCATES", "DEPLOYED_FROM", "BUILT_FROM"].iter().map(|t| t.to_string()).collect()
}

fn document() -> GraphDocument {
    let boundary = Boundary {
        network: "testnet".to_owned(),
        ledger: 1_000,
        observed_at: "2026-09-15T00:00:00Z".to_owned(),
    };
    let subject = EntityRef::new("CONTRACT".to_owned(), "C-subject".to_owned());
    let callee = EntityRef::new("CONTRACT".to_owned(), "C-callee".to_owned());
    let mut graph = Graph::new("g1".to_owned()).expect("a graph").with_max_depth(5).with_boundary(boundary.clone());
    graph.add_entity(&subject).expect("the subject");
    let edge = Edge {
        id: stable_id(&subject, "INVOCATES", &callee),
        source: subject,
        target: callee,
        relationship: "INVOCATES".to_owned(),
        relationship_rank: 1,
        permitted: true,
        evidence: vec![Citation { kind: EvidenceKind::Transaction, id: "ab".repeat(32) }],
        confidence: "VERIFIED".to_owned(),
        observed: true,
        depth: 0,
        boundary: Some(boundary),
    };
    graph.add_edge(edge).expect("an edge");
    GraphDocument::of(&graph, &vocabulary())
}

#[test]
fn the_export_carries_the_evidence_citations() {
    let dot = dot::render(&document());
    assert!(dot.contains("amasarioEvidence=\"abab"), "the citation is on the edge: {dot}");
    assert!(dot.contains("amasarioEdge=\""));
    assert!(dot.contains("amasarioConfidence=\"VERIFIED\""));
}

#[test]
fn an_inferred_edge_is_dashed_and_an_observed_one_solid() {
    let mut document = document();
    assert!(dot::render(&document).contains("style=solid"));
    document.edges[0].observed = false;
    let dot = dot::render(&document);
    assert!(dot.contains("style=dashed"));
    assert!(!dot.contains("style=solid"));
    assert!(dot.contains("amasarioObserved=\"false\""));
}

#[test]
fn the_document_is_well_formed() {
    let dot = dot::render(&document());
    assert!(dot.starts_with("digraph amasario {"));
    assert!(dot.trim_end().ends_with('}'));
    let opens = dot.matches('[').count();
    let closes = dot.matches(']').count();
    assert_eq!(opens, closes, "every attribute list is closed");
    assert_eq!(dot.matches('"').count() % 2, 0, "every string is terminated");
}

#[test]
fn a_truncated_graph_says_so_in_the_picture() {
    let mut document = document();
    if let Some(metadata) = document.metadata.as_mut() {
        metadata.truncated = true;
    }
    assert!(dot::render(&document).contains("amasario:truncated"));
}

#[test]
fn a_value_containing_a_quote_does_not_break_the_file() {
    assert_eq!(dot::escape("a\"b"), "a\\\"b");
    assert_eq!(dot::escape("a\\b"), "a\\\\b");
    assert_eq!(dot::escape("a\nb"), "a\\nb");
    assert_eq!(dot::escape("a\rb"), "ab");
}

#[test]
fn dot_the_rendering_is_deterministic() {
    let first = dot::render(&document());
    for _ in 0..5 {
        assert_eq!(dot::render(&document()), first);
    }
}

#[test]
fn the_document_declares_every_key_before_using_it() {
    let graphml = graphml::render(&document()).expect("renders");
    let declarations: Vec<&str> = graphml
        .lines()
        .filter(|line| line.contains("<key id="))
        .map(|line| {
            let start = line.find("id=\"").expect("an identifier") + 4;
            &line[start..start + 2]
        })
        .collect();
    assert_eq!(declarations.len(), 9, "every key is declared");
    for used in graphml.lines().filter(|line| line.contains("<data key=")).map(|line| {
        let start = line.find("key=\"").expect("a key") + 5;
        &line[start..start + 2]
    }) {
        assert!(declarations.contains(&used), "key {used} is used but never declared");
    }
}

#[test]
fn the_evidence_citations_survive_the_export() {
    let graphml = graphml::render(&document()).expect("renders");
    assert!(graphml.contains(&"ab".repeat(32)), "the citation is present: {graphml}");
    assert!(graphml.contains("INVOCATES"));
    assert!(graphml.contains("VERIFIED"));
    assert!(graphml.contains("testnet@ledger1000"));
}

#[test]
fn observed_travels_as_a_real_boolean() {
    let graphml = graphml::render(&document()).expect("renders");
    assert!(graphml.contains("attr.type=\"boolean\""));
    assert!(graphml.contains(">true</data>"));
}

#[test]
fn the_edges_are_directed_and_the_root_element_is_correct() {
    let graphml = graphml::render(&document()).expect("renders");
    assert!(graphml.starts_with("<?xml version=\"1.0\" encoding=\"UTF-8\"?>"));
    assert!(graphml.contains("edgedefault=\"directed\""));
    assert!(graphml.trim_end().ends_with("</graphml>"));
    assert_eq!(graphml.matches("<node ").count(), graphml.matches("</node>").count());
    assert_eq!(graphml.matches("<edge ").count(), graphml.matches("</edge>").count());
}

#[test]
fn a_dangling_endpoint_is_refused_rather_than_exported() {
    let mut document = document();
    document.nodes.retain(|node| node.id != "CONTRACT:C-callee");
    let error = graphml::render(&document).expect_err("a dangling endpoint");
    assert_eq!(error.category(), ErrorCategory::Graph);
    assert!(error.message().contains("CONTRACT:C-callee"));
}

#[test]
fn markup_in_an_identifier_does_not_produce_an_unreadable_file() {
    assert_eq!(graphml::escape("a<b>&c"), "a&lt;b&gt;&amp;c");
    assert_eq!(graphml::escape("a\"b'c"), "a&quot;b&apos;c");
    assert_eq!(graphml::escape("a\u{7}b"), "ab");
}

#[test]
fn graphml_the_rendering_is_deterministic() {
    let first = graphml::render(&document()).expect("renders");
    for _ in 0..5 {
        assert_eq!(graphml::render(&document()).expect("renders"), first);
    }
}

#[test]
fn the_vocabulary_is_reachable_from_the_crate_root() {
    assert_eq!(Format::Json.as_str(), "json");
    assert_eq!(Format::GraphML.extension(), "graphml");
    assert!(Format::Json.is_lossless());
    assert!(Format::Yaml.is_lossless());
    assert!(!Format::GraphML.is_lossless());
    assert_eq!(Format::parse("yml").expect("a format"), Format::Yaml);
    assert_eq!(Format::parse("graphviz").expect("a format"), Format::Dot);
}

#[test]
fn an_unknown_format_is_a_configuration_failure() {
    let error = Format::parse("parquet").expect_err("not an export format");
    assert_eq!(error.category(), ErrorCategory::Configuration);
    assert!(error.message().contains("GraphML"), "got: {}", error.message());
}

#[test]
fn the_lossy_formats_say_so_in_their_type_rather_than_only_in_prose() {
    assert!(Format::all().iter().filter(|f| !f.is_lossless()).count() == 2);
}

#[test]
fn an_unsupported_format_is_a_configuration_problem_not_an_export_problem() {
    let failure = ExportFailure::UnsupportedFormat { requested: "toml".to_owned() };
    assert_eq!(failure.category(), ErrorCategory::Configuration);
    assert!(failure.into_error().message().contains("JSON"), "the message names the formats that are available");
}

#[test]
fn an_unrepresentable_export_is_distinguishable_from_a_broken_graph() {
    let unrepresentable = ExportFailure::Unrepresentable {
        format: "graphml".to_owned(),
        subject: "the observation boundary".to_owned(),
        reason: "GraphML has no date-time attribute type".to_owned(),
    };
    let broken = ExportFailure::InvalidGraph { detail: "an edge names a node the graph does not contain".to_owned() };
    assert_eq!(unrepresentable.category(), ErrorCategory::Export);
    assert_eq!(broken.category(), ErrorCategory::Graph);
    assert_ne!(unrepresentable.category(), broken.category());
}

#[test]
fn the_first_failure_is_the_one_reported() {
    assert!(first_failure(Vec::new()).is_none());
    let reported = first_failure(vec![
        ExportFailure::InvalidGraph { detail: "first".to_owned() },
        ExportFailure::InvalidGraph { detail: "second".to_owned() },
    ])
    .expect("one failure");
    assert!(reported.to_sentence().contains("first"));
}

#[test]
fn an_unknown_format_name_is_quoted_in_the_refusal() {
    let error = Format::parse("parquet").expect_err("not an export format");
    assert!(error.message().contains("\"parquet\""), "got: {}", error.message());
    assert_eq!(Format::parse("  JSON ").expect("a format"), Format::Json);
}

#[test]
fn an_edge_identifier_is_a_digest_of_its_three_parts() {
    let a = EntityRef::new("CONTRACT".to_owned(), "C-a".to_owned());
    let b = EntityRef::new("CONTRACT".to_owned(), "C-b".to_owned());
    let id = stable_id(&a, "INVOCATES", &b);
    assert_eq!(id.len(), 64);
    assert!(id.chars().all(|c| c.is_ascii_hexdigit() && !c.is_ascii_uppercase()));
    assert_eq!(stable_id(&a, "INVOCATES", &b), id);
    assert_ne!(stable_id(&b, "INVOCATES", &a), id);
    assert_ne!(stable_id(&a, "DEPENDS_ON", &b), id);
    assert_ne!(id, "CONTRACT:C-a\u{1f}INVOCATES\u{1f}CONTRACT:C-b");
}
