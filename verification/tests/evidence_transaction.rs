use amasario::evidence::collector::EvidenceRecord;
use amasario::evidence::confidence::{basis_for, EvidenceBasis};
use amasario::evidence::kind::EvidenceClass;
use amasario::evidence::transaction::{from_outcome, from_success, Outcome, TransactionOutcome};
use amasario::graph::edges::Boundary;

const CONTRACT: &str = "CAAAAAAAAAAAAAAAAAAAAAAAAAAAAAAAAAAAAAAAAAAAAAAAAAAAD2KM";

fn boundary() -> Boundary {
    Boundary { network: "testnet".to_owned(), ledger: 4_242, observed_at: "2026-01-01T00:00:00Z".to_owned() }
}

fn hash() -> String {
    "ab".repeat(32)
}

fn outcome(outcome: Outcome) -> TransactionOutcome {
    TransactionOutcome::new(hash(), outcome, boundary())
}

fn s(text: &str) -> String {
    text.to_owned()
}

#[test]
fn a_successful_transaction_is_decisive_evidence() {
    let record = from_outcome(
        &outcome(Outcome::Succeeded),
        s("the transaction carried the contract's deployment"),
        s("e-1"),
        s("2026-01-01T00:00:00Z"),
    )
    .expect("a citable record");
    assert!(record.is_valid(), "{:?}", record.failures());
    assert_eq!(record.successful, Some(true));
    assert_eq!(record.ledger.expect("a ledger"), 4_242);
    assert_eq!(basis_for(&record), EvidenceBasis::Decisive);
}

#[test]
fn a_failed_transaction_is_a_record_about_the_attempt() {
    let record = from_outcome(
        &outcome(Outcome::Failed),
        s("the deployment was attempted and the ledger recorded a failure"),
        s("e-1"),
        s("2026-01-01T00:00:00Z"),
    )
    .expect("a failed transaction is still citable for what it establishes");
    assert!(record.is_valid(), "{:?}", record.failures());
    assert_eq!(record.successful, Some(false));
    assert_eq!(basis_for(&record), EvidenceBasis::Directional);
    assert!(!basis_for(&record).is_decisive());
}

#[test]
fn a_failed_transaction_cannot_be_cited_for_an_effect() {
    let error = from_success(
        &outcome(Outcome::Failed),
        s("the executable became the contract at this address"),
        s("e-1"),
        s("2026-01-01T00:00:00Z"),
    )
    .expect_err("a failed transaction is not evidence that its effect occurred");
    assert!(error.message().contains("failed"));
    assert!(from_success(
        &outcome(Outcome::Succeeded),
        s("the executable became the contract at this address"),
        s("e-1"),
        s("2026-01-01T00:00:00Z"),
    )
    .is_ok());
}

#[test]
fn a_transaction_record_without_an_outcome_is_not_constructible_through_this_module() {
    let mut record = EvidenceRecord::draft(
        s("e-1"),
        EvidenceClass::parse("TRANSACTION"),
        s("the transaction carried the contract's deployment"),
        s("2026-01-01T00:00:00Z"),
    );
    record.transaction = Some(hash());
    record.boundary = Some(boundary());
    assert!(
        record.failures().into_iter().any(|failure| failure.into_error().message().contains("succeeded")),
        "the class requirement still holds for a record assembled by hand"
    );
}

#[test]
fn the_outcome_vocabulary_says_what_each_value_can_assert() {
    assert!(Outcome::Succeeded.asserts_effect());
    assert!(Outcome::Succeeded.successful());
    assert!(!Outcome::Failed.asserts_effect());
    assert!(!Outcome::Failed.successful());
    assert_eq!(Outcome::Succeeded.as_str(), "SUCCEEDED");
    assert_eq!(Outcome::Failed.as_str(), "FAILED");
}

#[test]
fn a_transaction_concerning_a_contract_carries_the_address() {
    let contract = s(CONTRACT);
    let outcome = outcome(Outcome::Succeeded).concerning(contract.clone());
    let record = from_outcome(
        &outcome,
        s("the transaction invoked the contract at this address"),
        s("e-1"),
        s("2026-01-01T00:00:00Z"),
    )
    .expect("a citable record");
    assert_eq!(record.contract_id.as_deref(), Some(contract.as_str()));
    assert_eq!(outcome.ledger(), 4_242);
}
