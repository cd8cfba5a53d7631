use amasario::evidence::collector::{Digest, EvidenceRecord, EvidenceRegistry, RevisionKind};
use amasario::evidence::confidence::{assess, basis_for, status_for, ConfidenceLevel, EvidenceBasis, VerificationStatus};
use amasario::evidence::kind::EvidenceClass;
use amasario::graph::edges::Boundary;

fn s(text: &str) -> String {
    text.to_owned()
}

fn draft(class: &str, claim: &str) -> EvidenceRecord {
    EvidenceRecord::draft(s("e-1"), EvidenceClass::parse(class), s(claim), s("2026-01-01T00:00:00Z"))
}

fn boundary() -> Boundary {
    Boundary { network: s("testnet"), ledger: 1_000, observed_at: s("2026-01-01T00:00:00Z") }
}

fn artifact_record() -> EvidenceRecord {
    let mut record = draft("ARTIFACT", "the artifact content hashes to this digest");
    record.digest = Some(Digest::sha256_of(b"x"));
    record.artifact_type = Some(s("WASM"));
    record
}

fn observation_record() -> EvidenceRecord {
    let mut record = draft("OBSERVATION", "the contract was present at this boundary");
    record.observation_note = Some(s("the contract's executable was readable"));
    record
}

#[test]
fn a_digest_is_decisive_and_an_observation_is_circumstantial() {
    assert_eq!(basis_for(&artifact_record()), EvidenceBasis::Decisive);
    assert_eq!(basis_for(&observation_record()), EvidenceBasis::Circumstantial);
    assert_eq!(EvidenceBasis::Decisive.level(), ConfidenceLevel::Verified);
    assert_eq!(EvidenceBasis::Circumstantial.level(), ConfidenceLevel::LowConfidence);
}

#[test]
fn a_source_record_is_decisive_only_on_an_immutable_revision() {
    let mut record = draft("SOURCE", "the artifact was built from this revision");
    record.repository = Some(s("https://example.invalid/r"));
    record.revision = Some("a".repeat(40));
    assert_eq!(basis_for(&record), EvidenceBasis::Decisive);
    record.revision = Some(s("main"));
    record.revision_kind = None;
    assert_eq!(basis_for(&record), EvidenceBasis::Directional);
    record.revision_kind = Some(RevisionKind::Tag);
    assert_eq!(basis_for(&record), EvidenceBasis::Directional, "a tag is mutable in practice and cannot be re-checked");
}

#[test]
fn an_attestation_is_authoritative_and_never_verified_confidence() {
    let mut record = draft("ATTESTATION", "the artifact was built from revision abc1234");
    record.attestation_id = Some(s("att-1"));
    record.attested_claim = Some(s("the artifact was built from revision abc1234"));
    assert_eq!(basis_for(&record), EvidenceBasis::Authoritative);
    assert_eq!(basis_for(&record).level(), ConfidenceLevel::HighConfidence, "the ceiling is a statement about the evidence");
    assert_ne!(basis_for(&record).level(), ConfidenceLevel::Verified);
}

#[test]
fn a_deployment_is_decisive_only_with_a_successful_outcome_in_a_named_boundary() {
    let mut record = draft("DEPLOYMENT", "the executable became the contract at this address");
    record.transaction = Some("ab".repeat(32));
    assert_eq!(basis_for(&record), EvidenceBasis::Directional, "an attempt is consistent with the effect without establishing it");
    record.successful = Some(true);
    assert_eq!(basis_for(&record), EvidenceBasis::Directional);
    record.boundary = Some(boundary());
    assert_eq!(basis_for(&record), EvidenceBasis::Decisive);
}

#[test]
fn an_unrecognised_class_is_uninterpretable() {
    let mut record = EvidenceRecord::draft(
        s("e-1"),
        EvidenceClass::parse("FUTURE_CLASS"),
        s("a claim from a producer this version does not know"),
        s("2026-01-01T00:00:00Z"),
    );
    record.observation_note = Some(s("unused"));
    assert_eq!(basis_for(&record), EvidenceBasis::Uninterpretable);
    assert_eq!(basis_for(&record).level(), ConfidenceLevel::Unknown);
}

#[test]
fn the_aggregate_is_the_weakest_link_and_says_which_one_it_was() {
    let strong = artifact_record();
    let weak = observation_record();
    let confidence = assess(&[&strong, &weak], &[]).expect("a confidence");
    assert_eq!(confidence.level, ConfidenceLevel::LowConfidence);
    let rationale = confidence.rationale.expect("a rationale");
    assert!(rationale.contains("minimum ordinal"), "got: {rationale}");
    assert!(rationale.contains("weakest"), "got: {rationale}");
    assert_eq!(confidence.evidence.len(), 2);
    assert!(confidence.contradicting_evidence.is_empty());
}

#[test]
fn a_contradicted_claim_can_never_be_verified_confidence() {
    let strong = artifact_record();
    let mut other = artifact_record();
    other.id = s("e-2");
    other.contradicts.push(s("e-1"));
    assert_eq!(assess(&[&strong, &other], &[]).expect("a confidence").level, ConfidenceLevel::Verified);
    let confidence = assess(&[&strong], &[&other]).expect("a confidence");
    assert_ne!(confidence.level, ConfidenceLevel::Verified);
    assert_eq!(confidence.contradicting_evidence, vec![s("e-2")]);
    assert!(confidence.rationale.as_deref().is_some_and(|rationale| rationale.contains("capped")), "the lowering must be explained");
    assert!(confidence.is_contradicted());
}

#[test]
fn a_level_over_no_evidence_is_not_expressible() {
    let error = assess(&[], &[]).expect_err("confidence never replaces evidence");
    assert!(error.message().contains("cites no evidence"));
}

#[test]
fn the_verification_status_is_independent_of_the_level() {
    let strong = artifact_record();
    let weak = observation_record();
    assert_eq!(status_for(&[&strong], &[], 0), VerificationStatus::Verified);
    assert_eq!(status_for(&[&strong], &[], 1), VerificationStatus::PartiallyVerified);
    assert_eq!(status_for(&[&weak], &[], 0), VerificationStatus::PartiallyVerified);
    assert_eq!(status_for(&[], &[], 2), VerificationStatus::Unverified);
    assert_eq!(status_for(&[&strong], &[&weak], 0), VerificationStatus::Conflicting);
    assert!(!status_for(&[&strong], &[&weak], 0).is_affirmation(), "a conflict is never an affirmation");
}

#[test]
fn nothing_but_uninterpretable_records_is_unknown_rather_than_unverified() {
    let mut foreign = EvidenceRecord::draft(
        s("e-1"),
        EvidenceClass::parse("FUTURE_CLASS"),
        s("a claim from a producer this version does not know"),
        s("2026-01-01T00:00:00Z"),
    );
    foreign.observation_note = Some(s("unused"));
    assert_eq!(status_for(&[&foreign], &[], 1), VerificationStatus::Unknown);
    assert!(status_for(&[&foreign], &[], 1).is_inconclusive());
}

#[test]
fn the_registrys_own_classes_are_assessable() {
    let mut registry = EvidenceRegistry::new();
    registry.add(artifact_record()).expect("stored");
    let record = registry.get("e-1").expect("the record");
    assert_eq!(basis_for(record), EvidenceBasis::Decisive);
    assert_eq!(basis_for(record).level().ordinal(), ConfidenceLevel::Verified.ordinal());
    assert_eq!(EvidenceBasis::Uninterpretable.level().ordinal(), 0, "UNKNOWN is the taxonomy's ordinal zero");
}
