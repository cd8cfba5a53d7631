use amasario::evidence::artifact::{boundary_ledger, comparable, compare_executable, from_artifact, from_executable};
use amasario::evidence::collector::{Digest, DigestAlgorithm, EvidenceRegistry, RevisionKind};
use amasario::evidence::confidence::{assess, basis_for, status_for, ConfidenceLevel, EvidenceBasis, VerificationStatus};
use amasario::evidence::deployment::{from_deployment, DeploymentProvenance, DeploymentStatus};
use amasario::evidence::event::{from_event, EventOrigin};
use amasario::evidence::kind::EvidenceKind;
use amasario::evidence::source::{configuration_digest, configuration_is_recorded, from_build, from_source, toolchain_identity, BuildProvenance, SourceProvenance, Toolchain};
use amasario::graph::edges::Boundary;

const CONTRACT: &str = "CAAAAAAAAAAAAAAAAAAAAAAAAAAAAAAAAAAAAAAAAAAAAAAAAAAAD2KM";

fn s(text: &str) -> String {
    text.to_owned()
}

fn boundary() -> Boundary {
    Boundary { network: s("testnet"), ledger: 1_000, observed_at: s("2026-01-01T00:00:00Z") }
}

fn contract() -> String {
    s(CONTRACT)
}

#[test]
fn an_artifact_record_carries_its_digest_and_its_type() {
    let digest = Digest::sha256_of(b"module bytes");
    let record = from_artifact(digest.clone(), s("WASM"), s("e-artifact"), s("2026-01-01T00:00:00Z")).expect("a citable artifact record");
    assert!(record.is_valid(), "{:?}", record.failures());
    assert_eq!(record.digest.as_ref(), Some(&digest));
    assert_eq!(record.artifact_type, Some(s("WASM")));
    assert!(record.claim.contains(&digest.value));
    assert_eq!(basis_for(&record), EvidenceBasis::Decisive);
}

#[test]
fn two_artifact_types_are_not_interchangeable() {
    let digest = Digest::sha256_of(b"same bytes");
    let lockfile = from_artifact(digest.clone(), s("LOCKFILE"), s("e-1"), s("2026-01-01T00:00:00Z")).expect("a record");
    let wasm = from_artifact(digest, s("WASM"), s("e-2"), s("2026-01-01T00:00:00Z")).expect("a record");
    assert_ne!(lockfile.artifact_type, wasm.artifact_type);
    assert_ne!(lockfile.claim, wasm.claim);
}

#[test]
fn an_executable_record_names_its_boundary_and_its_contract() {
    let digest = Digest::sha256_of(b"module");
    let record = from_executable(digest, &contract(), boundary(), s("e-wasm"), s("2026-01-01T00:00:00Z")).expect("a citable executable record");
    assert!(record.is_valid(), "{:?}", record.failures());
    assert_eq!(record.boundary.as_ref().expect("a boundary").ledger, 1_000);
    assert_eq!(record.contract_id.as_deref(), Some(CONTRACT));
    assert_eq!(basis_for(&record), EvidenceBasis::Decisive);
}

#[test]
fn a_mismatched_executable_is_recorded_as_a_comparison_that_failed() {
    let claimed = Digest::sha256_of(b"what the source claims");
    let reported = Digest::sha256_of(b"what the chain reports");
    let record = compare_executable(&claimed, &reported, &contract(), boundary(), s("e-wasm"), s("2026-01-01T00:00:00Z")).expect("a citable record");
    assert!(record.is_valid(), "{:?}", record.failures());
    assert_eq!(record.digest.as_ref(), Some(&reported));
    assert!(record.claim.contains("does not match"), "a record cited for a comparison must state the comparison: {}", record.claim);
    assert!(record.claim.contains(&claimed.value));
    assert!(record.claim.contains(&reported.value));
    assert_eq!(basis_for(&record), EvidenceBasis::Decisive);
}

#[test]
fn a_matching_executable_says_so_without_claiming_more() {
    let digest = Digest::sha256_of(b"module");
    let record = compare_executable(&digest, &digest, &contract(), boundary(), s("e-wasm"), s("2026-01-01T00:00:00Z")).expect("a citable record");
    assert!(!record.claim.contains("does not match"));
    assert_eq!(record.digest.as_ref(), Some(&digest));
}

#[test]
fn digests_under_different_algorithms_are_not_comparable() {
    let sha256 = Digest::sha256_of(b"content");
    let sha512 = Digest { algorithm: DigestAlgorithm::Sha512, value: "b".repeat(128) };
    assert!(!comparable(&sha256, &sha512));
    assert!(comparable(&sha256, &Digest::sha256_of(b"other content")));
}

#[test]
fn artifact_evidence_can_be_collected_and_attributed_to_its_subject() {
    let digest = Digest::sha256_of(b"module");
    let mut registry = EvidenceRegistry::new();
    registry
        .add(from_executable(digest.clone(), &contract(), boundary(), s("e-wasm"), s("2026-01-01T00:00:00Z")).expect("a record"))
        .expect("stored");
    let record = registry.get("e-wasm").expect("the record");
    let subject = EvidenceRegistry::subject_of(record).expect("an executable subject");
    assert_eq!(subject.id, digest.value);
    assert_eq!(boundary_ledger(record.boundary.as_ref().expect("a boundary")), 1_000);
}

fn source(revision: &str) -> SourceProvenance {
    SourceProvenance {
        repository: s("https://github.com/example/contract"),
        revision: s(revision),
        revision_kind: RevisionKind::Commit,
        archive_digest: None,
    }
}

fn toolchain() -> Toolchain {
    Toolchain { name: s("rustc"), version: s("1.93.0"), source: Some(s("https://static.rust-lang.org")) }
}

fn build() -> BuildProvenance {
    BuildProvenance {
        source_revision: "a".repeat(40),
        source_revision_kind: RevisionKind::Commit,
        target: s("wasm32-unknown-unknown"),
        toolchain: toolchain(),
        configuration_digest: Some(Digest::sha256_of(b"config")),
        lockfile_digest: Some(Digest::sha256_of(b"lock")),
    }
}

#[test]
fn a_source_record_names_the_repository_and_the_exact_revision() {
    let provenance = source(&"a".repeat(40));
    let record = from_source(&provenance, s("e-source"), s("2026-01-01T00:00:00Z")).expect("a citable source record");
    assert!(record.is_valid(), "{:?}", record.failures());
    assert_eq!(record.repository.as_deref(), Some(provenance.repository.as_str()));
    assert_eq!(record.revision.as_deref(), Some("a".repeat(40).as_str()));
    assert_eq!(record.class.as_str(), "SOURCE");
    assert!(record.claim.contains("exact revision") || record.claim.contains("revision"), "the claim states what the record supports: {}", record.claim);
}

#[test]
fn a_branch_revision_is_a_valid_record_that_is_not_decisive() {
    let mut provenance = source(&"a".repeat(40));
    provenance.revision = s("main");
    provenance.revision_kind = RevisionKind::Branch;
    let record = from_source(&provenance, s("e-source"), s("2026-01-01T00:00:00Z")).expect("a branch record is still a record");
    assert!(record.is_valid(), "{:?}", record.failures());
    assert_eq!(basis_for(&record), EvidenceBasis::Directional);
    let confidence = assess(&[&record], &[]).expect("a confidence");
    assert_eq!(confidence.level, ConfidenceLevel::MediumConfidence);
    assert_ne!(confidence.level, ConfidenceLevel::Verified);
    assert_eq!(status_for(&[&record], &[], 0), VerificationStatus::PartiallyVerified);
}

#[test]
fn a_build_record_carries_the_toolchain_and_the_configuration() {
    let record = from_build(&build(), s("e-build"), s("2026-01-01T00:00:00Z")).expect("a citable build record");
    assert!(record.is_valid(), "{:?}", record.failures());
    assert_eq!(record.toolchain.as_deref(), Some("rustc 1.93.0 (https://static.rust-lang.org)"));
    assert_eq!(record.configuration_digest.as_ref().expect("a digest").algorithm, DigestAlgorithm::Sha256);
    assert_eq!(record.class.as_str(), "BUILD");
}

#[test]
fn a_build_without_a_recorded_configuration_cannot_produce_build_evidence() {
    let mut provenance = build();
    provenance.configuration_digest = None;
    provenance.lockfile_digest = None;
    let error = from_build(&provenance, s("e-build"), s("2026-01-01T00:00:00Z")).expect_err("a build that did not record its configuration cannot explain its artifact");
    assert!(error.message().contains("configuration"));
    assert!(!configuration_is_recorded(&provenance));
    assert!(configuration_is_recorded(&build()));
}

#[test]
fn a_toolchain_identity_names_all_three_parts() {
    assert_eq!(toolchain_identity(&toolchain()), "rustc 1.93.0 (https://static.rust-lang.org)");
    let mut without_source = toolchain();
    without_source.source = None;
    assert_eq!(toolchain_identity(&without_source), "rustc 1.93.0");
    assert_ne!(toolchain_identity(&toolchain()), toolchain_identity(&without_source), "two toolchains that differ must not share an identity");
}

#[test]
fn a_configuration_digest_is_always_sha256() {
    let digest = configuration_digest(b"a configuration");
    assert_eq!(digest.algorithm, DigestAlgorithm::Sha256);
    assert_eq!(digest, Digest::sha256_of(b"a configuration"));
    assert_ne!(digest, configuration_digest(b"another configuration"));
}

#[test]
fn both_records_can_be_collected_together() {
    let mut registry = EvidenceRegistry::new();
    registry
        .extend(vec![
            from_source(&source(&"a".repeat(40)), s("e-source"), s("2026-01-01T00:00:00Z")).expect("a source record"),
            from_build(&build(), s("e-build"), s("2026-01-01T00:00:00Z")).expect("a build record"),
        ])
        .expect("both are citable");
    assert_eq!(registry.len(), 2);
    assert_eq!(registry.of_class(EvidenceKind::Source).len(), 1);
    assert_eq!(registry.of_class(EvidenceKind::Build).len(), 1);
}

fn origin() -> EventOrigin {
    EventOrigin::new(contract(), "cd".repeat(32), 3, boundary(), s("the event's topics name a callee contract"))
}

#[test]
fn an_event_record_names_its_origin_and_its_observation() {
    let record = from_event(&origin(), s("the emitting contract invoked the callee named in the event's topics"), s("e-event"), s("2026-01-01T00:00:00Z"))
        .expect("a citable event record");
    assert!(record.is_valid(), "{:?}", record.failures());
    assert_eq!(record.event_index, Some(3));
    assert_eq!(record.ledger.expect("a ledger"), 1_000);
    assert_eq!(record.contract_id.as_deref(), Some(CONTRACT));
    assert_eq!(record.observation_note.as_deref(), Some("the event's topics name a callee contract"));
    assert_ne!(record.observation_note.as_deref(), Some(record.claim.as_str()));
    assert_eq!(basis_for(&record), EvidenceBasis::Authoritative);
    assert_eq!(origin().ledger(), 1_000);
}

#[test]
fn an_event_note_too_short_to_say_anything_is_refused() {
    let short = EventOrigin::new(contract(), "cd".repeat(32), 0, boundary(), s("seen"));
    let error = from_event(&short, s("the emitting contract invoked another contract"), s("e-event"), s("2026-01-01T00:00:00Z"))
        .expect_err("an observation that says nothing is not an observation");
    assert!(error.message().contains("does not state what was observed"));
}

#[test]
fn two_events_in_one_transaction_are_distinguishable() {
    let first = EventOrigin::new(contract(), "cd".repeat(32), 0, boundary(), s("the event's topics name a callee contract"));
    let second = EventOrigin::new(contract(), "cd".repeat(32), 1, boundary(), s("the event's topics name a different callee"));
    let a = from_event(&first, s("one contract invoked a callee"), s("e-0"), s("2026-01-01T00:00:00Z")).expect("a record");
    let b = from_event(&second, s("one contract invoked a callee"), s("e-1"), s("2026-01-01T00:00:00Z")).expect("a record");
    assert_ne!((a.transaction.as_ref(), a.event_index), (b.transaction.as_ref(), b.event_index));
    assert_eq!(a.transaction, b.transaction);
}

fn provenance() -> DeploymentProvenance {
    DeploymentProvenance {
        contract_id: contract(),
        ledger: 1_000,
        kind: s("DEPLOY"),
        transaction: Some("ab".repeat(32)),
        wasm_hash: Some(Digest::sha256_of(b"module")),
    }
}

#[test]
fn a_confirmed_deployment_produces_decisive_evidence() {
    let record = from_deployment(&provenance(), DeploymentStatus::Confirmed, boundary(), s("e-deploy"), s("2026-01-01T00:00:00Z")).expect("a citable deployment record");
    assert!(record.is_valid(), "{:?}", record.failures());
    assert!(record.transaction.is_some());
    assert_eq!(record.ledger.expect("a ledger"), 1_000);
    assert_eq!(record.successful, Some(true));
    assert_eq!(record.digest, provenance().wasm_hash);
    assert_eq!(basis_for(&record), EvidenceBasis::Decisive);
}

#[test]
fn a_deployment_that_has_not_taken_effect_cannot_be_cited_as_evidence_of_one() {
    for status in [DeploymentStatus::Unconfirmed, DeploymentStatus::Failed, DeploymentStatus::Unknown] {
        let error = from_deployment(&provenance(), status, boundary(), s("e-deploy"), s("2026-01-01T00:00:00Z"))
            .expect_err("an unestablished deployment is not evidence that it took effect");
        let message = error.message();
        assert!(message.contains(status.as_str()), "got: {message}");
        assert!(message.contains("not of the effect"), "the refusal must say what the record is evidence of instead: {message}");
    }
    assert!(from_deployment(&provenance(), DeploymentStatus::Observed, boundary(), s("e-deploy"), s("2026-01-01T00:00:00Z")).is_ok());
}

#[test]
fn a_deployment_without_a_recorded_executable_hash_separates_the_facts() {
    let without_hash = DeploymentProvenance {
        contract_id: contract(),
        ledger: 1_000,
        kind: s("UPGRADE"),
        transaction: Some("ef".repeat(32)),
        wasm_hash: None,
    };
    let record = from_deployment(&without_hash, DeploymentStatus::Confirmed, boundary(), s("e-deploy"), s("2026-01-01T00:00:00Z")).expect("a citable record");
    assert!(record.is_valid(), "{:?}", record.failures());
    assert!(record.digest.is_none());
    assert!(record.claim.contains("recorded by the deployment"));
    assert!(record.claim.contains("UPGRADE"));
}
