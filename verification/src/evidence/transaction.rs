//! Transaction evidence: whether a ledger recorded the transaction as succeeding.
//!
//! A failed transaction is evidence of the attempt and never of the effect, so the
//! outcome is the one field this class exists for.

use vstd::prelude::*;

use crate::error::EngineError;
use crate::evidence::collector::{EvidenceRecord, settle, settled};
use crate::evidence::errors::{EvidenceFailure, EvidenceFailureView};
use crate::evidence::kind::{EvidenceClass, EvidenceKind};
use crate::graph::edges::Boundary;

verus! {

/// How a transaction ended.
#[derive(Debug, Clone, Copy, PartialEq, Eq, Structural)]
pub enum Outcome {
    /// The ledger included the transaction and it succeeded.
    Succeeded,
    /// The ledger included the transaction and it failed.
    Failed,
}

impl Outcome {
    /// The stable wire name.
    pub fn as_str(self) -> (s: &'static str)
        ensures
            s@ == (match self {
                Outcome::Succeeded => "SUCCEEDED"@,
                Outcome::Failed => "FAILED"@,
            }),
    {
        match self {
            Outcome::Succeeded => "SUCCEEDED",
            Outcome::Failed => "FAILED",
        }
    }

    /// Whether the transaction's intended effect can be asserted from it.
    pub fn asserts_effect(self) -> (asserts: bool)
        ensures
            asserts == (self == Outcome::Succeeded),
    {
        match self {
            Outcome::Succeeded => true,
            Outcome::Failed => false,
        }
    }

    /// The value the evidence schema's `successful` field takes.
    pub fn successful(self) -> (successful: bool)
        ensures
            successful == (self == Outcome::Succeeded),
    {
        self.asserts_effect()
    }
}

/// What a ledger recorded about one transaction.
#[derive(Debug, Clone)]
pub struct TransactionOutcome {
    /// The transaction's hash.
    pub hash: String,
    /// How it ended.
    pub outcome: Outcome,
    /// The boundary the transaction was read at.
    pub boundary: Boundary,
    /// The contract the transaction concerned, when it concerns one.
    pub contract: Option<String>,
}

impl TransactionOutcome {
    /// Records an outcome, with the boundary it was read at: a hash without a chain
    /// cannot be looked up again.
    pub fn new(hash: String, outcome: Outcome, boundary: Boundary) -> (recorded: TransactionOutcome)
        ensures
            recorded.hash == hash,
            recorded.outcome == outcome,
            recorded.boundary == boundary,
            recorded.contract is None,
    {
        TransactionOutcome { hash, outcome, boundary, contract: None }
    }

    /// Records the contract the transaction concerned.
    pub fn concerning(self, contract: String) -> (recorded: TransactionOutcome)
        ensures
            recorded.hash == self.hash,
            recorded.outcome == self.outcome,
            recorded.boundary == self.boundary,
            recorded.contract == Some(contract),
    {
        let mut recorded = self;
        recorded.contract = Some(contract);
        recorded
    }

    /// The ledger the transaction was included in.
    pub fn ledger(&self) -> (ledger: u64)
        ensures
            ledger == self.boundary.ledger,
    {
        self.boundary.ledger
    }
}

/// The record [`from_outcome`] builds.
pub open spec fn outcome_record(r: EvidenceRecord, o: TransactionOutcome, claim: String, id: String, observed_at: String) -> bool {
    &&& r.id == id && r.observed_at == observed_at && r.claim == claim
    &&& r.class == EvidenceClass::Recognised(EvidenceKind::Transaction)
    &&& r.transaction == Some(o.hash) && r.ledger == Some(o.boundary.ledger) && r.boundary == Some(o.boundary)
    &&& r.successful == Some(o.outcome == Outcome::Succeeded) && r.contract_id == o.contract
    &&& r.supports@.len() == 0 && r.contradicts@.len() == 0
    &&& r.digest is None && r.repository is None && r.revision is None && r.revision_kind is None
    &&& r.toolchain is None && r.configuration_digest is None && r.artifact_type is None
    &&& r.event_index is None && r.attestation_id is None && r.attested_claim is None && r.observation_note is None
}

/// A record for a transaction, cited for a claim.
///
/// The claim is supplied, because one transaction supports different claims and the
/// record says which one it was collected for.
pub fn from_outcome(outcome: &TransactionOutcome, claim: String, id: String, observed_at: String) -> (result: Result<EvidenceRecord, EngineError>)
    ensures
        exists|r: EvidenceRecord| #[trigger] outcome_record(r, *outcome, claim, id, observed_at) && settled(result, r),
{
    let mut record = EvidenceRecord::draft(id, EvidenceClass::Recognised(EvidenceKind::Transaction), claim, observed_at);
    record.transaction = Some(outcome.hash.clone());
    record.ledger = Some(outcome.ledger());
    record.boundary = Some(Boundary {
        network: outcome.boundary.network.clone(),
        ledger: outcome.boundary.ledger,
        observed_at: outcome.boundary.observed_at.clone(),
    });
    record.successful = Some(outcome.outcome.successful());
    record.contract_id = match &outcome.contract {
        Some(c) => Some(c.clone()),
        None => None,
    };
    proof { assert(outcome_record(record, *outcome, claim, id, observed_at)); }
    settle(record)
}

/// A record for a successful transaction, the only kind that asserts an effect.
///
/// Refused for a failed one: use [`from_outcome`] for a record about the attempt.
pub fn from_success(outcome: &TransactionOutcome, claim: String, id: String, observed_at: String) -> (result: Result<EvidenceRecord, EngineError>)
    ensures
        outcome.outcome == Outcome::Failed ==> (result matches Err(e) && e.spec_message()
            == (EvidenceFailureView::FailedTransactionCitedAsEffect { transaction: outcome.hash@, claim: claim@ }).sentence()),
        outcome.outcome == Outcome::Succeeded ==> exists|r: EvidenceRecord|
            #[trigger] outcome_record(r, *outcome, claim, id, observed_at) && settled(result, r),
{
    if !outcome.outcome.asserts_effect() {
        return Err(EvidenceFailure::FailedTransactionCitedAsEffect { transaction: outcome.hash.clone(), claim }.into_error());
    }
    from_outcome(outcome, claim, id, observed_at)
}

} // verus!
