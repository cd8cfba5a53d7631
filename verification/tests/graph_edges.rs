use amasario::evidence::kind::EvidenceKind;
use amasario::graph::edges::{relationship_rank, render, stable_id, Boundary, Citation, Edge};
use amasario::graph::nodes::EntityRef;
use amasario::order::Keyed;
use std::cmp::Ordering;

fn entity(kind: &str, id: &str) -> EntityRef {
    EntityRef::new(kind.to_owned(), id.to_owned())
}

fn relationships() -> Vec<String> {
    ["DEPENDS_ON", "INVOCATES", "DEPLOYED_AS", "BUILT_FROM"].iter().map(|r| r.to_string()).collect()
}

fn boundary() -> Boundary {
    Boundary { network: "testnet".to_owned(), ledger: 4_000, observed_at: "2026-09-15T00:00:00Z".to_owned() }
}

fn dependency(from: &str, to: &str, relationship: &str, evidence: Vec<Citation>) -> Edge {
    let source = entity("CONTRACT", from);
    let target = entity("CONTRACT", to);
    Edge {
        id: stable_id(&source, relationship, &target),
        source,
        target,
        relationship: relationship.to_owned(),
        relationship_rank: relationship_rank(relationship, &relationships()),
        permitted: true,
        evidence,
        confidence: "VERIFIED".to_owned(),
        observed: true,
        depth: 0,
        boundary: Some(boundary()),
    }
}

fn transaction() -> Vec<Citation> {
    vec![Citation { kind: EvidenceKind::Transaction, id: "a".repeat(64) }]
}

#[test]
fn the_stable_identifier_depends_on_all_three_parts_of_the_edge() {
    let a = entity("CONTRACT", "C-a");
    let b = entity("CONTRACT", "C-b");
    let base = stable_id(&a, "INVOCATES", &b);
    assert_eq!(base, stable_id(&a, "INVOCATES", &b), "a re-run must produce the same identifier");
    assert_ne!(base, stable_id(&a, "DEPENDS_ON", &b), "the relationship is part of the edge");
    assert_ne!(base, stable_id(&b, "INVOCATES", &a), "the edge is directed");
    assert_ne!(base, stable_id(&a, "INVOCATES", &entity("CONTRACT", "C-c")), "the target is part of the edge");
    assert_ne!(base, stable_id(&a, "INVOCATES", &entity("ARTIFACT", "C-b")), "the same identifier under another kind is another entity");
}

#[test]
fn the_stable_identifier_fits_the_schemas_bound() {
    let long = entity("SOURCE", &format!("https://example.invalid/{}@{}", "r".repeat(200), "f".repeat(200)));
    let id = stable_id(&long, "BUILT_FROM", &entity("BUILD", "b"));
    assert_eq!(id.len(), 64);
    assert!(id.len() <= 256);
    assert!(id.bytes().all(|byte| byte.is_ascii_lowercase() || byte.is_ascii_digit()));
}

#[test]
fn the_identifier_is_a_digest_of_the_separated_parts() {
    let id = stable_id(&entity("CONTRACT", "C-a"), "INVOCATES", &entity("CONTRACT", "C-b"));
    assert_eq!(id.len(), 64);
    assert_ne!(
        stable_id(&entity("CONTRACT", "C-a"), "INVOCATES", &entity("CONTRACT", "C-b")),
        stable_id(&entity("CONTRACT", "C-a\u{1f}INVOCATES"), "", &entity("CONTRACT", "C-b")),
        "the separator keeps two different triples apart"
    );
}

#[test]
fn edges_are_ordered_by_source_then_relationship_then_target() {
    let vocabulary = relationships();
    let mut edges = [
        dependency("C-b", "C-a", "INVOCATES", transaction()),
        dependency("C-a", "C-c", "DEPENDS_ON", transaction()),
        dependency("C-a", "C-a2", "DEPENDS_ON", transaction()),
        dependency("C-a", "C-b", "INVOCATES", transaction()),
    ];
    edges.sort_by(|left, right| {
        if left.precedes(right, &vocabulary) {
            Ordering::Less
        } else if right.precedes(left, &vocabulary) {
            Ordering::Greater
        } else {
            Ordering::Equal
        }
    });
    let rendered: Vec<String> = edges.iter().map(render).collect();
    assert_eq!(
        rendered,
        vec![
            "CONTRACT:C-a -DEPENDS_ON-> CONTRACT:C-a2",
            "CONTRACT:C-a -DEPENDS_ON-> CONTRACT:C-c",
            "CONTRACT:C-a -INVOCATES-> CONTRACT:C-b",
            "CONTRACT:C-b -INVOCATES-> CONTRACT:C-a",
        ]
    );
}

#[test]
fn citations_are_grouped_by_kind_rather_than_listed_undifferentiated() {
    let edge = dependency(
        "C-a",
        "C-b",
        "INVOCATES",
        vec![
            Citation { kind: EvidenceKind::Transaction, id: "a".repeat(64) },
            Citation { kind: EvidenceKind::Event, id: "e1".to_owned() },
            Citation { kind: EvidenceKind::Event, id: "e2".to_owned() },
        ],
    );
    assert_eq!(edge.evidence_of(EvidenceKind::Event).len(), 2);
    assert_eq!(edge.evidence_of(EvidenceKind::Transaction).len(), 1);
    assert!(edge.evidence_of(EvidenceKind::Attestation).is_empty());
    assert_eq!(edge.network(), Some("testnet"));
}

#[test]
fn a_direct_edge_is_observed_and_renders_its_three_parts() {
    let edge = dependency("C-a", "C-b", "INVOCATES", transaction());
    assert!(edge.is_direct());
    assert!(edge.is_directly_observed());
    assert_eq!(render(&edge), "CONTRACT:C-a -INVOCATES-> CONTRACT:C-b");
    assert_eq!(relationship_rank("INVOCATES", &relationships()), 1);
    assert_eq!(relationship_rank("UNHEARD_OF", &relationships()), usize::MAX);
}

#[test]
fn an_edge_reads_back_the_parts_it_was_built_from() {
    let edge = dependency("C-a", "C-b", "INVOCATES", transaction());
    assert_eq!(edge.id(), stable_id(&entity("CONTRACT", "C-a"), "INVOCATES", &entity("CONTRACT", "C-b")));
    assert_eq!(edge.source(), &entity("CONTRACT", "C-a"));
    assert_eq!(edge.target(), &entity("CONTRACT", "C-b"));
    assert_eq!(edge.relationship(), "INVOCATES");
    assert_eq!(edge.evidence(), transaction().as_slice());
    assert_eq!(edge.depth(), 0);
    assert!(edge.is_direct());
}
