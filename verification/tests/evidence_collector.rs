use amasario::evidence::collector::{infer_revision_kind, Digest, DigestAlgorithm, EvidenceRecord, EvidenceRegistry, RevisionKind, MAXIMUM_NOTE_LENGTH};
use amasario::evidence::confidence::{basis_for, EvidenceBasis};
use amasario::evidence::errors::EvidenceFailure;
use amasario::evidence::kind::{EvidenceClass, EvidenceKind};
use amasario::graph::edges::Boundary;

fn s(text: &str) -> String {
    text.to_owned()
}

fn boundary() -> Boundary {
    Boundary { network: s("testnet"), ledger: 1_000, observed_at: s("2026-01-01T00:00:00Z") }
}

fn digest(seed: u8) -> Digest {
    Digest::sha256_of(&[seed])
}

fn transaction() -> String {
    "ab".repeat(32)
}

fn draft(class: &str, claim: &str) -> EvidenceRecord {
    EvidenceRecord::draft(s("e-1"), EvidenceClass::parse(class), s(claim), s("2026-01-01T00:00:00Z"))
}

fn observation(note: &str) -> EvidenceRecord {
    let mut record = draft("OBSERVATION", "something was observed at the boundary");
    record.observation_note = Some(note.to_owned());
    record
}

fn message(failure: &EvidenceFailure) -> String {
    failure.clone().into_error().message()
}

#[test]
fn an_unrecognised_class_is_stored_rather_than_rejected() {
    let class = EvidenceClass::parse("FUTURE_CLASS");
    assert!(!class.is_recognised());
    assert_eq!(class.as_str(), "FUTURE_CLASS");
    assert!(class.traceable_to().is_none(), "there is no definition to quote");
    assert!(!class.requires_boundary());
    assert!(!class.requires_digest());
    let record = EvidenceRecord::new(s("e-1"), class, s("a claim from a producer this version does not know"), s("2026-01-01T00:00:00Z"))
        .expect("an unrecognised class is still a valid record");
    assert!(record.is_valid(), "{:?}", record.failures());
    assert!(!record.supports_claim(), "it is kept and establishes nothing");
    let mut registry = EvidenceRegistry::new();
    registry.add(record).expect("stored");
    assert_eq!(registry.unrecognised().len(), 1);
    assert_eq!(registry.len(), 1);
}

#[test]
fn every_recognised_class_quotes_what_an_auditor_would_consult() {
    for kind in EvidenceKind::all() {
        let class = EvidenceClass::Recognised(kind);
        assert!(class.traceable_to().is_some(), "{} declares no traceableTo", class.as_str());
    }
    assert_eq!(EvidenceClass::parse("ARTIFACT").traceable_to(), Some("the artifact content addressed by the digest"));
}

#[test]
fn a_claim_shorter_than_a_sentence_is_refused_for_every_class() {
    let error = EvidenceRecord::new(s("e-1"), EvidenceClass::parse("OBSERVATION"), s("yes"), s("2026-01-01T00:00:00Z"))
        .expect_err("a three-character claim is not a claim");
    assert!(error.message().contains("3-character claim"));
}

#[test]
fn a_transaction_record_must_state_its_outcome_and_its_hash() {
    let mut record = draft("TRANSACTION", "the transaction carried a contract deployment");
    let failures = record.failures();
    assert!(failures.iter().any(|failure| matches!(failure, EvidenceFailure::TransactionOutcomeUnrecorded { .. })), "got: {failures:?}");
    record.successful = Some(true);
    let failures = record.failures();
    assert!(failures.iter().any(|failure| matches!(failure, EvidenceFailure::NotTraceable { .. })), "without a hash the record cannot be found again: {failures:?}");
    record.transaction = Some(transaction());
    record.boundary = Some(boundary());
    assert!(record.is_valid(), "{:?}", record.failures());
}

#[test]
fn a_failed_deployment_cannot_be_cited_as_evidence_that_it_took_effect() {
    let mut record = draft("DEPLOYMENT", "the executable became the contract at this address");
    record.transaction = Some(transaction());
    record.boundary = Some(boundary());
    record.successful = Some(false);
    let failures = record.failures();
    assert!(failures.iter().any(|failure| matches!(failure, EvidenceFailure::FailedTransactionCitedAsEffect { .. })), "got: {failures:?}");
}

#[test]
fn source_evidence_needs_a_repository_and_a_revision() {
    let mut record = draft("SOURCE", "the artifact was built from this repository at this revision");
    assert!(
        record.failures().iter().any(|failure| matches!(failure, EvidenceFailure::NotTraceable { .. })),
        "a source record with neither repository nor revision is not traceable"
    );
    record.repository = Some(s("https://example.invalid/r"));
    record.revision = Some(s("main"));
    assert!(record.is_valid(), "a branch names a tree as read: {:?}", record.failures());
    assert_eq!(basis_for(&record), EvidenceBasis::Directional);
    record.revision = Some("a".repeat(40));
    assert!(record.is_valid(), "a 40-character hexadecimal identifier is a git commit: {:?}", record.failures());
    assert_eq!(basis_for(&record), EvidenceBasis::Decisive);
}

#[test]
fn an_observation_note_is_bounded_by_the_schema() {
    let mut record = draft("OBSERVATION", "the contract was seen at this boundary");
    record.observation_note = Some(s("short"));
    assert!(
        record.failures().iter().any(|failure| matches!(failure, EvidenceFailure::ObservationNoteUnrecorded { .. })),
        "a four-character note states nothing: {:?}",
        record.failures()
    );
    record.observation_note = Some(s("observed"));
    assert!(record.is_valid(), "{:?}", record.failures());
    record.observation_note = Some("x".repeat(MAXIMUM_NOTE_LENGTH + 1));
    assert!(
        record.failures().iter().any(|failure| matches!(failure, EvidenceFailure::NoteTooLong { .. })),
        "a note longer than the schema permits must be refused: {:?}",
        record.failures()
    );
    record.observation_note = Some("x".repeat(MAXIMUM_NOTE_LENGTH));
    assert!(record.is_valid(), "the maximum is inclusive");
}

#[test]
fn the_revision_kind_inference_is_one_sided() {
    assert_eq!(infer_revision_kind(&"a".repeat(40)), RevisionKind::Commit);
    assert_eq!(infer_revision_kind(&"a".repeat(64)), RevisionKind::Commit);
    assert_eq!(infer_revision_kind("main"), RevisionKind::Branch);
    assert_eq!(infer_revision_kind("v1.0.0"), RevisionKind::Branch);
    assert_eq!(infer_revision_kind(""), RevisionKind::Branch);
    assert_eq!(infer_revision_kind(&"a".repeat(39)), RevisionKind::Branch);
}

#[test]
fn build_evidence_needs_a_toolchain_and_a_configuration_digest() {
    let mut record = draft("BUILD", "the artifact was produced by this recorded build");
    assert!(record.failures().iter().any(|failure| matches!(failure, EvidenceFailure::ToolchainUnrecorded { .. })));
    record.toolchain = Some(s("rustc 1.93.0, wasm32-unknown-unknown"));
    assert!(
        record.failures().iter().any(|failure| matches!(failure, EvidenceFailure::ConfigurationUnrecorded { .. })),
        "got: {:?}",
        record.failures()
    );
    record.configuration_digest = Some(digest(2));
    assert!(record.is_valid(), "{:?}", record.failures());
}

#[test]
fn artifact_evidence_needs_a_digest_and_an_artifact_type() {
    let mut record = draft("ARTIFACT", "the artifact content hashes to the recorded digest");
    assert!(record.failures().iter().any(|failure| matches!(failure, EvidenceFailure::DigestUnrecorded { .. })));
    record.digest = Some(digest(1));
    assert!(
        record.failures().iter().any(|failure| matches!(failure, EvidenceFailure::ArtifactTypeUnrecorded { .. })),
        "got: {:?}",
        record.failures()
    );
    record.artifact_type = Some(s("WASM"));
    assert!(record.is_valid(), "{:?}", record.failures());
}

#[test]
fn the_chain_derived_classes_all_need_a_boundary() {
    for class in ["WASM", "TRANSACTION", "DEPLOYMENT", "EVENT"] {
        assert!(EvidenceClass::parse(class).requires_boundary(), "{class} derives from a chain");
    }
    for class in ["SOURCE", "BUILD", "ARTIFACT", "ATTESTATION", "OBSERVATION"] {
        assert!(!EvidenceClass::parse(class).requires_boundary(), "{class} is not a network observation");
    }
    let mut record = draft("WASM", "the network reports this hash for the contract's executable");
    record.digest = Some(digest(3));
    assert!(
        record.failures().iter().any(|failure| matches!(failure, EvidenceFailure::BoundaryUnrecorded { .. })),
        "a ledger sequence is only meaningful against a chain"
    );
    record.boundary = Some(boundary());
    assert!(record.is_valid(), "{:?}", record.failures());
}

#[test]
fn an_event_record_needs_both_its_transaction_and_its_index() {
    let mut record = draft("EVENT", "the contract emitted an event naming its callee");
    record.boundary = Some(boundary());
    record.transaction = Some(transaction());
    assert!(
        record.failures().iter().any(|failure| matches!(failure, EvidenceFailure::EventOriginUnrecorded { .. })),
        "an event without its index cannot be told from its siblings"
    );
    record.event_index = Some(0);
    assert!(record.is_valid(), "{:?}", record.failures());
}

#[test]
fn an_attestation_supports_only_the_claim_it_states() {
    let mut record = draft("ATTESTATION", "the contract is safe to depend on");
    assert!(
        record.failures().iter().any(|failure| matches!(failure, EvidenceFailure::AttestationUnrecorded { .. })),
        "got: {:?}",
        record.failures()
    );
    record.attestation_id = Some(s("att-1"));
    record.attested_claim = Some(s("the artifact was built from revision abc1234"));
    assert!(
        record.failures().iter().any(|failure| matches!(failure, EvidenceFailure::AttestationClaimMismatch { .. })),
        "got: {:?}",
        record.failures()
    );
    record.attested_claim = Some(s("the contract is safe to depend on"));
    assert!(record.is_valid(), "{:?}", record.failures());
}

#[test]
fn an_observation_must_state_what_was_observed() {
    let mut record = draft("OBSERVATION", "the observation boundary was reached");
    assert!(
        record.failures().iter().any(|failure| matches!(failure, EvidenceFailure::ObservationNoteUnrecorded { .. })),
        "the note is the whole content of an observation"
    );
    record.observation_note = Some(s("the search stopped at ledger 1000"));
    assert!(record.is_valid(), "{:?}", record.failures());
}

#[test]
fn a_digest_is_sha256_because_that_is_the_only_algorithm_defined() {
    let mut record = draft("ARTIFACT", "the artifact content hashes to the digest");
    record.digest = Some(Digest { algorithm: DigestAlgorithm::Sha512, value: "a".repeat(128) });
    record.artifact_type = Some(s("SOURCE_ARCHIVE"));
    let failures = record.failures();
    assert!(failures.iter().any(|failure| matches!(failure, EvidenceFailure::DigestAlgorithmUnsupported { .. })), "got: {failures:?}");
    record.digest = Some(digest(4));
    assert!(record.is_valid(), "{:?}", record.failures());
}

#[test]
fn the_registry_refuses_a_duplicate_identifier() {
    let mut registry = EvidenceRegistry::new();
    let record = observation("the search stopped at the boundary");
    registry.add(record.clone()).expect("the first is stored");
    let error = registry.add(record).expect_err("a duplicate identifier would make a citation ambiguous");
    assert!(error.message().contains("more than once"));
    assert_eq!(registry.len(), 1);
}

#[test]
fn the_registry_orders_records_canonically_however_they_arrived() {
    let mut registry = EvidenceRegistry::new();
    let mut second = observation("the second record's observation");
    second.id = s("e-2");
    registry.extend(vec![second, observation("the first record's observation")]).expect("both stored");
    let ids: Vec<&str> = registry.records().iter().map(|record| record.id.as_str()).collect();
    assert_eq!(ids, vec!["e-1", "e-2"]);
}

#[test]
fn only_declared_contradictions_are_conflicts() {
    let mut registry = EvidenceRegistry::new();
    let mut first = observation("the contract was observed at ledger 1000");
    first.id = s("e-1");
    let mut second = observation("the contract was observed at ledger 2000");
    second.id = s("e-2");
    registry.extend(vec![first, second]).expect("both stored");
    assert!(!registry.has_conflict());
    assert!(registry.contradictions().is_empty());
    let mut third = observation("the contract was not observed at ledger 1000");
    third.id = s("e-3");
    third.contradicts.push(s("e-1"));
    registry.add(third).expect("stored");
    assert!(registry.has_conflict());
    assert_eq!(registry.contradictions().len(), 1);
    assert!(registry.unresolvable_contradictions().is_empty());
    assert_eq!(registry.contradictions()[0].0.id, "e-3");
    assert_eq!(registry.contradictions()[0].1.id, "e-1");
}

#[test]
fn a_contradiction_with_a_missing_record_is_unresolvable_rather_than_resolved() {
    let mut registry = EvidenceRegistry::new();
    let mut record = observation("the contract was not observed at ledger 1000");
    record.contradicts.push(s("e-missing"));
    registry.add(record).expect("stored");
    let failures = registry.unresolvable_contradictions();
    assert_eq!(failures.len(), 1);
    assert!(message(&failures[0]).contains("cannot be evaluated"));
    assert!(registry.contradictions().is_empty());
    assert!(!registry.has_conflict());
}

#[test]
fn references_follow_the_records_they_name() {
    let mut registry = EvidenceRegistry::new();
    registry.add(observation("the search stopped at the boundary")).expect("stored");
    let references = registry.references(&[s("e-1")]).expect("the record is present");
    assert_eq!(references.len(), 1);
    assert_eq!(references[0].id, "e-1");
    assert_eq!(references[0].kind, EvidenceKind::Observation);
    let error = registry.references(&[s("e-missing")]).expect_err("a citation to an absent record cannot be followed");
    assert!(error.message().contains("e-missing"));
}

#[test]
fn evidence_attaches_to_the_entity_it_concerns() {
    let mut record = draft("WASM", "the network reports this hash for the contract's executable");
    record.digest = Some(digest(3));
    record.boundary = Some(boundary());
    record.contract_id = Some(s("CAAAAAAAAAAAAAAAAAAAAAAAAAAAAAAAAAAAAAAAAAAAAAAAAAAAD2KM"));
    let subject = EvidenceRegistry::subject_of(&record).expect("an executable subject");
    assert_eq!(subject.kind, "WASM");
    assert_eq!(subject.id, digest(3).value);
    let mut attestation = draft("ATTESTATION", "the artifact was built from revision abc1234");
    attestation.attestation_id = Some(s("att-1"));
    attestation.attested_claim = Some(s("the artifact was built from revision abc1234"));
    assert!(EvidenceRegistry::subject_of(&attestation).is_none());
}

#[test]
fn a_digest_of_known_bytes_is_sixty_four_hexadecimal_digits() {
    let first = Digest::sha256_of(b"module");
    assert_eq!(first.algorithm, DigestAlgorithm::Sha256);
    assert_eq!(first.value.len(), 64);
    assert!(first.value.chars().all(|ch| ch.is_ascii_hexdigit() && !ch.is_ascii_uppercase()));
    assert_eq!(first.value, Digest::sha256_of(b"module").value);
    assert_ne!(first.value, Digest::sha256_of(b"other module").value);
    assert_eq!(
        Digest::sha256_of(b"").value,
        "e3b0c44298fc1c149afbf4c8996fb92427ae41e4649b934ca495991b7852b855"
    );
}
