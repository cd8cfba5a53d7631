use amasario::evidence::artifact::from_artifact;
use amasario::evidence::claims::{evaluate, evaluate_all, Claim};
use amasario::evidence::collector::{Digest, EvidenceRecord, EvidenceRegistry};
use amasario::evidence::confidence::{ConfidenceLevel, VerificationStatus};
use amasario::evidence::kind::{EvidenceClass, EvidenceKind};

fn s(text: &str) -> String {
    text.to_owned()
}

fn observation(id: &str, note: &str) -> EvidenceRecord {
    let mut record = EvidenceRecord::draft(s(id), EvidenceClass::parse("OBSERVATION"), s("something was observed at this boundary"), s("2026-01-01T00:00:00Z"));
    record.observation_note = Some(note.to_owned());
    record
}

fn registry_with(records: Vec<EvidenceRecord>) -> EvidenceRegistry {
    let mut registry = EvidenceRegistry::new();
    registry.extend(records).expect("the records are citable");
    registry
}

fn claim(requires: Vec<EvidenceKind>) -> Claim {
    Claim::new(s("c-1"), s("the artifact at this digest is the one the contract hosts"), requires).expect("a claim")
}

fn source_record(id: &str) -> EvidenceRecord {
    let mut record = EvidenceRecord::draft(
        s(id),
        EvidenceClass::parse("SOURCE"),
        s("the artifact was built from this repository at this revision"),
        s("2026-01-01T00:00:00Z"),
    );
    record.repository = Some(s("https://github.com/example/contract"));
    record.revision = Some("a".repeat(40));
    record
}

fn build_record(id: &str) -> EvidenceRecord {
    let mut record = EvidenceRecord::draft(s(id), EvidenceClass::parse("BUILD"), s("the artifact was produced by this recorded build"), s("2026-01-01T00:00:00Z"));
    record.toolchain = Some(s("rustc 1.93.0"));
    record.configuration_digest = Some(Digest::sha256_of(b"config"));
    record
}

fn artifact(bytes: &[u8], id: &str) -> EvidenceRecord {
    from_artifact(Digest::sha256_of(bytes), s("WASM"), s(id), s("2026-01-01T00:00:00Z")).expect("a record")
}

#[test]
fn a_claim_that_requires_nothing_is_refused() {
    let error = Claim::new(s("c-1"), s("the contract hosts the artifact"), Vec::new()).expect_err("a claim requiring nothing would be verified by anything");
    assert!(error.message().contains("at least one evidence class"));
    let error = Claim::new(s("c-1"), s("short"), vec![EvidenceKind::Artifact]).expect_err("a five-character statement is not a claim");
    assert!(error.message().contains("5-character claim"));
}

#[test]
fn a_decisive_record_over_the_required_class_verifies_the_claim() {
    let mut support = artifact(b"module", "e-artifact");
    support.supports.push(s("c-1"));
    let registry = registry_with(vec![support]);
    let evaluation = evaluate(&claim(vec![EvidenceKind::Artifact]), &registry).expect("an evaluation");
    assert_eq!(evaluation.verification, VerificationStatus::Verified);
    assert_eq!(evaluation.confidence.level, ConfidenceLevel::Verified);
    assert!(evaluation.is_established());
    assert!(evaluation.is_complete());
    assert_eq!(evaluation.supporting.len(), 1);
    assert_eq!(evaluation.strongest_basis, Some("DECISIVE"));
    assert!(evaluation.render().contains("VERIFIED"));
}

#[test]
fn a_missing_class_makes_the_claim_partially_verified_and_names_what_is_missing() {
    let registry = registry_with(vec![source_record("e-1")]);
    let evaluation = evaluate(&claim(vec![EvidenceKind::Source, EvidenceKind::Build]), &registry).expect("an evaluation");
    assert_eq!(evaluation.verification, VerificationStatus::PartiallyVerified);
    assert!(!evaluation.is_established());
    assert_eq!(evaluation.missing.len(), 1);
    assert_eq!(evaluation.missing[0].as_str(), "BUILD");
    assert!(evaluation.rationale.contains("went unchecked"));
    assert!(evaluation.render().contains("missing BUILD"));
    let registry = registry_with(vec![source_record("e-1"), build_record("e-2")]);
    let evaluation = evaluate(&claim(vec![EvidenceKind::Source, EvidenceKind::Build]), &registry).expect("an evaluation");
    assert!(evaluation.is_complete());
    assert_eq!(evaluation.verification, VerificationStatus::Verified);
}

#[test]
fn a_claim_with_no_evidence_at_all_fails_rather_than_being_verified_by_nothing() {
    let registry = registry_with(vec![observation("e-1", "an unrelated observation")]);
    let error = evaluate(&claim(vec![EvidenceKind::Artifact]), &registry).expect_err("no evidence for the claim is a failure");
    let message = error.message();
    assert!(message.contains("c-1"), "got: {message}");
    assert!(message.contains("ARTIFACT"), "got: {message}");
}

#[test]
fn a_declared_conflict_produces_conflicting_and_a_lowered_confidence() {
    let mut first = artifact(b"module", "e-1");
    first.supports.push(s("c-1"));
    let mut second = artifact(b"other module", "e-2");
    second.supports.push(s("c-1"));
    second.contradicts.push(s("e-1"));
    let registry = registry_with(vec![first, second]);
    let evaluation = evaluate(&claim(vec![EvidenceKind::Artifact]), &registry).expect("an evaluation");
    assert_eq!(evaluation.verification, VerificationStatus::Conflicting);
    assert!(evaluation.is_contradicted());
    assert!(!evaluation.is_established());
    assert_ne!(evaluation.confidence.level, ConfidenceLevel::Verified);
    assert_eq!(evaluation.contradicting.len(), 2);
    assert!(evaluation.confidence.is_contradicted());
}

#[test]
fn a_conflict_whose_other_side_is_absent_is_still_reported_as_a_conflict() {
    let mut support = observation("e-1", "the contract was present at the boundary");
    support.supports.push(s("c-1"));
    support.contradicts.push(s("e-missing"));
    let registry = registry_with(vec![support]);
    let evaluation = evaluate(&claim(vec![EvidenceKind::Observation]), &registry).expect("an evaluation");
    assert_eq!(evaluation.verification, VerificationStatus::Conflicting);
}

#[test]
fn an_uninterpretable_record_makes_the_claim_unknown_rather_than_unverified() {
    let mut foreign = EvidenceRecord::draft(
        s("e-1"),
        EvidenceClass::parse("FUTURE_CLASS"),
        s("a claim from a producer this version does not know"),
        s("2026-01-01T00:00:00Z"),
    );
    foreign.supports.push(s("c-1"));
    let mut registry = EvidenceRegistry::new();
    registry.add(foreign).expect("stored despite being unrecognised");
    let evaluation = evaluate(&claim(vec![EvidenceKind::Observation]), &registry).expect("an evaluation");
    assert_eq!(evaluation.verification, VerificationStatus::Unknown);
    assert!(evaluation.is_inconclusive());
    assert_eq!(evaluation.strongest_basis, Some("UNINTERPRETABLE"));
}

#[test]
fn every_claim_in_a_list_is_evaluated_in_order() {
    let mut support = artifact(b"module", "e-1");
    support.supports.push(s("c-1"));
    let registry = registry_with(vec![support, build_record("e-2")]);
    let claims = vec![
        claim(vec![EvidenceKind::Artifact]),
        Claim::new(s("c-2"), s("the build recorded the toolchain that produced the artifact"), vec![EvidenceKind::Build]).expect("a claim"),
    ];
    let evaluations = evaluate_all(&claims, &registry).expect("evaluations");
    assert_eq!(evaluations.len(), 2);
    assert_eq!(evaluations[0].id, "c-1");
    assert_eq!(evaluations[0].verification, VerificationStatus::Verified);
    assert_eq!(evaluations[1].id, "c-2");
    assert_eq!(evaluations[1].strongest_basis, Some("AUTHORITATIVE"));
    assert_eq!(evaluations[1].verification, VerificationStatus::PartiallyVerified);
    assert_eq!(evaluations[1].confidence.level, ConfidenceLevel::HighConfidence);
    assert!(!evaluations[1].is_established());
    assert!(evaluations[1].is_complete(), "nothing was missing");
}

#[test]
fn a_claim_with_no_evidence_makes_the_whole_evaluation_fail() {
    let mut support = artifact(b"module", "e-1");
    support.supports.push(s("c-1"));
    let registry = registry_with(vec![support]);
    let claims = vec![
        claim(vec![EvidenceKind::Artifact]),
        Claim::new(s("c-2"), s("the build recorded the toolchain that produced the artifact"), vec![EvidenceKind::Build]).expect("a claim"),
    ];
    let error = evaluate_all(&claims, &registry).expect_err("a claim with no evidence fails rather than being skipped");
    assert!(error.message().contains("c-2"), "got: {}", error.message());
}
