use amasario::evidence::collector::Digest;
use amasario::graph::nodes::{canonical_order, EntityRef, Node, NodeAttributes};
use std::cmp::Ordering;

fn entity(kind: &str, id: &str) -> EntityRef {
    EntityRef::new(kind.to_owned(), id.to_owned())
}

fn kinds() -> Vec<String> {
    ["CONTRACT", "WASM", "ARTIFACT", "SOURCE", "BUILD", "DEPLOYMENT", "TRANSACTION"].iter().map(|k| k.to_string()).collect()
}

#[test]
fn a_node_identifier_carries_the_entity_kind() {
    let node = Node::for_entity(&entity("CONTRACT", "C-a"));
    assert_eq!(node.id, "CONTRACT:C-a");
    assert_eq!(node.kind, "CONTRACT");
    assert!(node.matches(&entity("CONTRACT", "C-a")));
    assert!(!node.matches(&entity("ARTIFACT", "C-a")), "the same identifier under another kind is another entity");
}

#[test]
fn a_wasm_node_is_identified_by_its_digest() {
    let digest = Digest::sha256_of(b"module");
    let node = Node::for_wasm(&digest.value);
    assert_eq!(node.kind, "WASM");
    assert_eq!(node.digest.as_ref(), Some(&digest.value));
    assert!(node.matches(&entity("WASM", &digest.value)));
    assert_eq!(node.id, format!("WASM:{}", digest.value));
}

#[test]
fn a_wasm_node_and_an_artifact_node_with_the_same_digest_stay_distinct() {
    let digest = Digest::sha256_of(b"identical content");
    let wasm = Node::for_wasm(&digest.value);
    let artifact = Node::for_entity(&entity("ARTIFACT", &digest.value));
    assert_ne!(wasm.id, artifact.id);
    assert_eq!(artifact.id, format!("ARTIFACT:{}", digest.value));
}

#[test]
fn nodes_are_ordered_by_the_vocabulary_then_by_identifier() {
    let vocabulary = kinds();
    let mut nodes = [
        Node::for_entity(&entity("TRANSACTION", "t1")),
        Node::for_entity(&entity("CONTRACT", "C-b")),
        Node::for_entity(&entity("CONTRACT", "C-a")),
        Node::for_entity(&entity("WASM", "d1")),
    ];
    nodes.sort_by(|a, b| canonical_order(a, b, &vocabulary));
    let ids: Vec<String> = nodes.iter().map(|node| node.id.clone()).collect();
    assert_eq!(
        ids,
        vec!["CONTRACT:C-a".to_owned(), "CONTRACT:C-b".to_owned(), "WASM:d1".to_owned(), "TRANSACTION:t1".to_owned()],
        "the vocabulary's order, not the alphabet's"
    );
    nodes.sort_by(|a, b| canonical_order(a, b, &vocabulary));
    let again: Vec<String> = nodes.iter().map(|node| node.id.clone()).collect();
    assert_eq!(ids, again);
}

#[test]
fn the_absence_of_an_attribute_is_not_the_same_as_it_being_false() {
    let unknown = Node::for_entity(&entity("SOURCE", "https://example.invalid/r"));
    assert!(!unknown.is_external());
    assert!(unknown.attributes.is_none());
    let inside = Node::for_entity(&entity("SOURCE", "https://example.invalid/r"))
        .with_attributes(NodeAttributes::default().with_external(false));
    assert!(!inside.is_external());
    assert!(inside.attributes.is_some());
    let outside = Node::for_entity(&entity("SOURCE", "https://example.invalid/r"))
        .with_attributes(NodeAttributes::default().with_external(true));
    assert!(outside.is_external());
}

#[test]
fn a_label_never_takes_part_in_comparison_or_ordering() {
    let plain = Node::for_entity(&entity("CONTRACT", "C-a"));
    let labelled = plain.clone().with_label("the treasury contract".to_owned());
    assert_ne!(plain.label, labelled.label, "the label is part of the node");
    assert_eq!(canonical_order(&plain, &labelled, &kinds()), Ordering::Equal);
    assert!(plain.matches(&entity("CONTRACT", "C-a")));
    assert!(labelled.matches(&entity("CONTRACT", "C-a")));
}

#[test]
fn attribute_absence_is_reported_honestly() {
    assert!(NodeAttributes::default().is_empty());
    assert!(!NodeAttributes::default().with_external(false).is_empty());
}

#[test]
fn a_kind_outside_the_vocabulary_sorts_last() {
    let vocabulary = kinds();
    let known = Node::for_entity(&entity("TRANSACTION", "z"));
    let unknown = Node::for_entity(&entity("ORACLE", "a"));
    assert_eq!(canonical_order(&known, &unknown, &vocabulary), Ordering::Less);
    assert_eq!(canonical_order(&unknown, &known, &vocabulary), Ordering::Greater);
}
