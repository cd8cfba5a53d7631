use amasario::evidence::collector::{Digest, EvidenceRecord};
use amasario::evidence::document::EvidenceDocument;
use amasario::evidence::confidence::{assess, basis_for, status_for, ConfidenceLevel, VerificationStatus};
use amasario::evidence::kind::{EvidenceClass, EvidenceKind};

fn s(text: &str) -> String {
    text.to_owned()
}

fn draft(id: &str, class: &str, claim: &str) -> EvidenceRecord {
    EvidenceRecord::draft(s(id), EvidenceClass::parse(class), s(claim), s("2026-01-01T00:00:00Z"))
}

fn artifact(id: &str) -> EvidenceRecord {
    let mut record = draft(id, "ARTIFACT", "the artifact content hashes to this digest");
    record.digest = Some(Digest::sha256_of(b"x"));
    record.artifact_type = Some(s("WASM"));
    record
}

fn build(id: &str) -> EvidenceRecord {
    let mut record = draft(id, "BUILD", "the artifact was built by this toolchain");
    record.toolchain = Some(s("rustc 1.80.0"));
    record
}

fn observation(id: &str) -> EvidenceRecord {
    let mut record = draft(id, "OBSERVATION", "the contract was present at this boundary");
    record.observation_note = Some(s("the contract's executable was readable"));
    record
}

#[test]
fn the_assessed_level_is_the_weakest_of_the_records() {
    let records = [artifact("e-1"), build("e-2"), observation("e-3")];
    let confidence = assess(&[&records[0], &records[1], &records[2]], &[]).expect("a confidence");
    assert_eq!(confidence.level, ConfidenceLevel::LowConfidence);
    for record in &records {
        assert!(confidence.level.ordinal() <= basis_for(record).level().ordinal());
    }
    assert_eq!(confidence.evidence, vec![s("e-1"), s("e-2"), s("e-3")]);
    let strong = assess(&[&records[0], &records[1]], &[]).expect("a confidence");
    assert_eq!(strong.level, ConfidenceLevel::HighConfidence);
}

#[test]
fn a_contradicted_assessment_is_never_verified_however_strong_the_support() {
    let strong = artifact("e-1");
    let other = artifact("e-2");
    let capped = assess(&[&strong], &[&other]).expect("a confidence");
    assert_eq!(capped.level, ConfidenceLevel::HighConfidence);
    assert_eq!(capped.contradicting_evidence, vec![s("e-2")]);
    let weak = observation("e-3");
    let unchanged = assess(&[&weak], &[&other]).expect("a confidence");
    assert_eq!(unchanged.level, ConfidenceLevel::LowConfidence, "a level below the cap is not lowered further");
}

#[test]
fn a_contradiction_outranks_every_other_status() {
    let strong = artifact("e-1");
    let other = observation("e-2");
    assert_eq!(status_for(&[&strong], &[&other], 0), VerificationStatus::Conflicting);
    assert_eq!(status_for(&[], &[&other], 3), VerificationStatus::Conflicting);
}

#[test]
fn every_class_reads_back_from_its_wire_name() {
    for kind in EvidenceKind::all() {
        assert_eq!(EvidenceKind::from_term(kind.as_str()), Some(kind));
        assert_eq!(EvidenceClass::parse(kind.as_str()).recognised(), Some(kind));
    }
    assert_eq!(EvidenceKind::from_term("FUTURE_CLASS"), None);
}

#[test]
fn a_document_projects_the_fields_its_schema_names_and_drops_the_rest() {
    let mut record = artifact("e-9");
    record.supports = vec![s("rel-1"), s("rel-2")];
    record.contradicts = vec![s("rel-3")];
    record.transaction = Some(s("f".repeat(64).as_str()));
    let document = EvidenceDocument::of(&record);
    assert_eq!(document.id, s("e-9"));
    assert_eq!(document.class, EvidenceClass::parse("ARTIFACT"));
    assert_eq!(document.claim, record.claim);
    assert_eq!(document.supports_relationships, vec![s("rel-1"), s("rel-2")]);
    assert_eq!(document.digest, record.digest);
    assert_eq!(document.artifact_type, Some(s("WASM")));
    assert_eq!(document.transaction_hash, Some("f".repeat(64)));
    let all = EvidenceDocument::all(&[record.clone(), observation("e-10")]);
    assert_eq!(all.len(), 2);
    assert_eq!(all[0], document);
    assert_eq!(all[1].id, s("e-10"));
}

#[test]
fn the_digest_is_the_sha256_of_the_bytes() {
    assert_eq!(Digest::sha256_of(b"").value, "e3b0c44298fc1c149afbf4c8996fb92427ae41e4649b934ca495991b7852b855");
    assert_eq!(Digest::sha256_of(b"abc").value, "ba7816bf8f01cfea414140de5dae2223b00361a396177a9cb410ff61f20015ad");
}
