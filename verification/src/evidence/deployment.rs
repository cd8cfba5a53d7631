//! Deployment evidence: the transition that made an executable a contract.
//!
//! A deployment that did not take effect is a record of an attempt, and cannot be cited
//! as evidence that an executable became a contract; the refusal names the status,
//! because that is what a producer can act on.

use vstd::prelude::*;

use crate::error::EngineError;
use crate::evidence::collector::{Digest, EvidenceRecord, settle, settled};
use crate::evidence::errors::EvidenceFailureView;
use crate::evidence::kind::{EvidenceClass, EvidenceKind};
use crate::graph::edges::Boundary;
use crate::text::{decimal_of, decimal_u64};

verus! {

/// What is known about a deployment's outcome.
#[derive(Debug, Clone, Copy, PartialEq, Eq, Structural)]
pub enum DeploymentStatus {
    /// The deployment was observed on the chain.
    Observed,
    /// The deployment was confirmed.
    Confirmed,
    /// The deployment was submitted and not yet confirmed.
    Unconfirmed,
    /// The deployment failed.
    Failed,
    /// Nothing is known about the outcome.
    Unknown,
}

impl DeploymentStatus {
    /// The wire name, as the contracts speak of it.
    pub open spec fn name(self) -> Seq<char> {
        match self {
            DeploymentStatus::Observed => "OBSERVED"@,
            DeploymentStatus::Confirmed => "CONFIRMED"@,
            DeploymentStatus::Unconfirmed => "UNCONFIRMED"@,
            DeploymentStatus::Failed => "FAILED"@,
            DeploymentStatus::Unknown => "UNKNOWN"@,
        }
    }

    /// The stable wire name.
    pub fn as_str(self) -> (s: &'static str)
        ensures
            s@ == self.name(),
    {
        match self {
            DeploymentStatus::Observed => "OBSERVED",
            DeploymentStatus::Confirmed => "CONFIRMED",
            DeploymentStatus::Unconfirmed => "UNCONFIRMED",
            DeploymentStatus::Failed => "FAILED",
            DeploymentStatus::Unknown => "UNKNOWN",
        }
    }

    /// Whether the deployment took effect, so that an impact can rest on it: only an
    /// observed or confirmed one.
    pub fn eligible_for_impact(self) -> (eligible: bool)
        ensures
            eligible == (self == DeploymentStatus::Observed || self == DeploymentStatus::Confirmed),
    {
        match self {
            DeploymentStatus::Observed | DeploymentStatus::Confirmed => true,
            _ => false,
        }
    }
}

/// What was recorded about one deployment.
#[derive(Debug, Clone)]
pub struct DeploymentProvenance {
    /// The contract address the deployment produced or changed.
    pub contract_id: String,
    /// The ledger the deployment was recorded in.
    pub ledger: u64,
    /// The kind of deployment's wire name, such as `DEPLOY`.
    pub kind: String,
    /// The transaction that recorded it, where known.
    pub transaction: Option<String>,
    /// The executable's hash, where recorded.
    pub wasm_hash: Option<Digest>,
}

/// The claim a refused deployment was offered for.
pub open spec fn refused_claim(p: DeploymentProvenance, status: DeploymentStatus) -> Seq<char> {
    "the executable "@ + (match p.wasm_hash { Some(d) => d.value@, None => "recorded in the deployment"@ })
        + " became the contract at "@ + p.contract_id@ + " (status "@ + status.name() + ")"@
}

/// The claim a deployment record states.
pub open spec fn deployment_claim(p: DeploymentProvenance, status: DeploymentStatus, boundary: Boundary) -> Seq<char> {
    "at ledger "@ + decimal_of(p.ledger as nat) + " on "@ + boundary.network@ + " the transaction "@
        + (match p.transaction { Some(t) => t@, None => "with an unrecorded hash"@ })
        + " recorded a "@ + p.kind@ + " at "@ + p.contract_id@ + " for the executable "@
        + (match p.wasm_hash { Some(d) => d.value@, None => "recorded by the deployment"@ })
        + " (status "@ + status.name() + ")"@
}

/// The record [`from_deployment`] builds for an eligible deployment.
pub open spec fn deployment_record(r: EvidenceRecord, p: DeploymentProvenance, status: DeploymentStatus, boundary: Boundary, id: String, observed_at: String) -> bool {
    &&& r.id == id && r.observed_at == observed_at
    &&& r.class == EvidenceClass::Recognised(EvidenceKind::Deployment)
    &&& r.claim@ == deployment_claim(p, status, boundary)
    &&& r.contract_id == Some(p.contract_id) && r.transaction == p.transaction && r.ledger == Some(p.ledger)
    &&& r.boundary == Some(boundary) && r.successful == Some(true) && r.digest == p.wasm_hash
    &&& (match p.wasm_hash { Some(_) => r.artifact_type matches Some(t) && t@ == "WASM"@, None => r.artifact_type is None })
    &&& r.supports@.len() == 0 && r.contradicts@.len() == 0
    &&& r.repository is None && r.revision is None && r.revision_kind is None && r.toolchain is None
    &&& r.configuration_digest is None && r.event_index is None && r.attestation_id is None
    &&& r.attested_claim is None && r.observation_note is None
}

/// A record that an executable became the contract at an address.
///
/// Refused, naming the status, when the deployment is not observed or confirmed.
pub fn from_deployment(provenance: &DeploymentProvenance, status: DeploymentStatus, boundary: Boundary, id: String, observed_at: String)
    -> (result: Result<EvidenceRecord, EngineError>)
    ensures
        !(status == DeploymentStatus::Observed || status == DeploymentStatus::Confirmed) ==> (result matches Err(e)
            && e.spec_message() == (EvidenceFailureView::FailedTransactionCitedAsEffect {
                transaction: match provenance.transaction { Some(t) => t@, None => "an unrecorded transaction"@ },
                claim: refused_claim(*provenance, status),
            }).sentence()),
        (status == DeploymentStatus::Observed || status == DeploymentStatus::Confirmed) ==> exists|r: EvidenceRecord|
            #[trigger] deployment_record(r, *provenance, status, boundary, id, observed_at) && settled(result, r),
{
    if !status.eligible_for_impact() {
        let transaction = match &provenance.transaction {
            Some(t) => t.clone(),
            None => String::from_str("an unrecorded transaction"),
        };
        let mut claim = String::from_str("the executable ");
        proof { reveal_strlit("the executable "); reveal_strlit("an unrecorded transaction"); reveal_strlit("recorded in the deployment"); }
        match &provenance.wasm_hash {
            Some(d) => claim.append(d.value.as_str()),
            None => claim.append("recorded in the deployment"),
        }
        claim.append(" became the contract at ");
        claim.append(provenance.contract_id.as_str());
        claim.append(" (status ");
        claim.append(status.as_str());
        claim.append(")");
        return Err(crate::evidence::errors::EvidenceFailure::FailedTransactionCitedAsEffect { transaction, claim }.into_error());
    }
    let mut claim = String::from_str("at ledger ");
    proof { reveal_strlit("at ledger "); reveal_strlit("with an unrecorded hash"); reveal_strlit("recorded by the deployment"); reveal_strlit("WASM"); }
    claim.append(decimal_u64(provenance.ledger).as_str());
    claim.append(" on ");
    claim.append(boundary.network.as_str());
    claim.append(" the transaction ");
    match &provenance.transaction {
        Some(t) => claim.append(t.as_str()),
        None => claim.append("with an unrecorded hash"),
    }
    claim.append(" recorded a ");
    claim.append(provenance.kind.as_str());
    claim.append(" at ");
    claim.append(provenance.contract_id.as_str());
    claim.append(" for the executable ");
    match &provenance.wasm_hash {
        Some(d) => claim.append(d.value.as_str()),
        None => claim.append("recorded by the deployment"),
    }
    claim.append(" (status ");
    claim.append(status.as_str());
    claim.append(")");
    let mut record = EvidenceRecord::draft(id, EvidenceClass::Recognised(EvidenceKind::Deployment), claim, observed_at);
    record.contract_id = Some(provenance.contract_id.clone());
    record.transaction = match &provenance.transaction {
        Some(t) => Some(t.clone()),
        None => None,
    };
    record.ledger = Some(provenance.ledger);
    record.boundary = Some(boundary);
    record.successful = Some(status.eligible_for_impact());
    record.digest = match &provenance.wasm_hash {
        Some(d) => Some(Digest { algorithm: d.algorithm, value: d.value.clone() }),
        None => None,
    };
    record.artifact_type = match &provenance.wasm_hash {
        Some(_) => Some(String::from_str("WASM")),
        None => None,
    };
    proof { assert(deployment_record(record, *provenance, status, boundary, id, observed_at)); }
    settle(record)
}

} // verus!
