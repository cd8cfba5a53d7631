use amasario::error::ErrorCategory;
use amasario::evidence::errors::{describe, first_failure, EvidenceFailure};

fn every_failure() -> Vec<EvidenceFailure> {
    vec![
        EvidenceFailure::ClaimNotStated { evidence: "e-1".to_owned(), length: 2 },
        EvidenceFailure::NotTraceable {
            evidence: "e-1".to_owned(),
            class: "SOURCE".to_owned(),
            traceable_to: "the repository at the recorded revision".to_owned(),
        },
        EvidenceFailure::BoundaryUnrecorded { evidence: "e-1".to_owned(), class: "WASM".to_owned() },
        EvidenceFailure::TransactionOutcomeUnrecorded { transaction: "ab".repeat(32) },
        EvidenceFailure::FailedTransactionCitedAsEffect {
            transaction: "ab".repeat(32),
            claim: "the contract was deployed".to_owned(),
        },
        EvidenceFailure::DigestUnrecorded { evidence: "e-1".to_owned(), class: "ARTIFACT".to_owned() },
        EvidenceFailure::ArtifactTypeUnrecorded { evidence: "e-1".to_owned() },
        EvidenceFailure::ToolchainUnrecorded { evidence: "e-1".to_owned() },
        EvidenceFailure::ConfigurationUnrecorded { evidence: "e-1".to_owned() },
        EvidenceFailure::EventOriginUnrecorded { evidence: "e-1".to_owned() },
        EvidenceFailure::AttestationUnrecorded { evidence: "e-1".to_owned() },
        EvidenceFailure::AttestationNotCitable {
            attestation: "att-1".to_owned(),
            issuer: "an issuer".to_owned(),
            state: "PRESENT_UNVERIFIED".to_owned(),
        },
        EvidenceFailure::AttestationClaimMismatch {
            attestation: "att-1".to_owned(),
            claim: "the artifact is safe".to_owned(),
            attested: "the artifact was built from revision abc".to_owned(),
        },
        EvidenceFailure::ObservationNoteUnrecorded { evidence: "e-1".to_owned() },
        EvidenceFailure::NoteTooLong { evidence: "e-1".to_owned(), length: 2_049 },
        EvidenceFailure::DigestAlgorithmUnsupported { evidence: "e-1".to_owned(), algorithm: "SHA-512".to_owned() },
        EvidenceFailure::DuplicateEvidenceId { id: "e-1".to_owned() },
        EvidenceFailure::NoSupportingEvidence { claim: "c-1".to_owned(), required: "ARTIFACT, BUILD".to_owned() },
        EvidenceFailure::DecisiveDisagreement {
            evidence: "e-1".to_owned(),
            field: "digest".to_owned(),
            recorded: "ab".to_owned(),
            claimed: "cd".to_owned(),
        },
        EvidenceFailure::ContradictionUnresolvable { evidence: "e-1".to_owned(), cited: "e-2".to_owned() },
    ]
}

#[test]
fn every_failure_has_a_category_and_a_description() {
    let failures = every_failure();
    for failure in &failures {
        assert_eq!(failure.category(), ErrorCategory::Provenance);
        assert_eq!(failure.category(), failure.clone().into_error().category(), "{failure:?} disagrees with its own error");
        assert!(!describe(failure).is_empty());
        assert!(!failure.clone().into_error().message().is_empty());
    }
    assert_eq!(failures.len(), 20, "every variant is covered by this test");
}

#[test]
fn each_failure_is_either_a_refusal_or_a_gap() {
    for failure in every_failure() {
        assert_ne!(
            failure.is_refusal(),
            failure.is_completable_by_evidence(),
            "{failure:?} is not classified exactly once"
        );
    }
}

#[test]
fn a_failed_transaction_says_what_it_cannot_be_evidence_of() {
    let error = EvidenceFailure::FailedTransactionCitedAsEffect {
        transaction: "ab".to_owned(),
        claim: "the contract was deployed".to_owned(),
    }
    .into_error();
    let message = error.message();
    assert!(message.contains("evidence of the attempt"), "got: {message}");
    assert!(message.contains("not of the effect"), "got: {message}");
}

#[test]
fn a_note_over_the_schema_maximum_says_what_the_bound_is() {
    let error = EvidenceFailure::NoteTooLong { evidence: "e-1".to_owned(), length: 4_096 }.into_error();
    let message = error.message();
    assert!(message.contains("4096"), "got: {message}");
    assert!(message.contains("2048"), "got: {message}");
}

#[test]
fn an_uncitable_attestation_says_which_state_stopped_it() {
    let error = EvidenceFailure::AttestationNotCitable {
        attestation: "att-1".to_owned(),
        issuer: "an issuer".to_owned(),
        state: "PRESENT_UNVERIFIED".to_owned(),
    }
    .into_error();
    let message = error.message();
    assert!(message.contains("att-1"), "got: {message}");
    assert!(message.contains("an issuer"), "got: {message}");
    assert!(message.contains("PRESENT_UNVERIFIED"), "the refusal must name the state: {message}");
}

#[test]
fn an_attestation_refusal_quotes_the_scope_rule() {
    let error = EvidenceFailure::AttestationClaimMismatch {
        attestation: "att-1".to_owned(),
        claim: "the artifact is safe".to_owned(),
        attested: "the artifact was built from revision abc".to_owned(),
    }
    .into_error();
    assert!(error.message().contains("specific claim it states and nothing broader"), "got: {}", error.message());
}

#[test]
fn an_empty_failure_list_succeeds_and_a_populated_one_reports_its_first() {
    first_failure(Vec::new()).expect("nothing to report");
    let error = first_failure(vec![EvidenceFailure::DuplicateEvidenceId { id: "e-1".to_owned() }])
        .expect_err("a failure must be reported");
    assert!(error.message().contains("more than once"));
}

#[test]
fn a_refusal_cannot_be_completed_and_a_gap_can() {
    let refusal = EvidenceFailure::FailedTransactionCitedAsEffect {
        transaction: "ab".to_owned(),
        claim: "the contract was deployed".to_owned(),
    };
    assert!(refusal.is_refusal());
    assert!(!refusal.is_completable_by_evidence());
    let gap = EvidenceFailure::BoundaryUnrecorded { evidence: "e-1".to_owned(), class: "WASM".to_owned() };
    assert!(!gap.is_refusal());
    assert!(gap.is_completable_by_evidence());
}
