//! Artifact and executable evidence: a digest over content, and the class of content it
//! was computed over.
//!
//! A digest is only meaningful against the content it was computed over, so an artifact
//! record carries the artifact type, and an executable record carries the boundary and
//! the contract the network reported the digest for.

use vstd::prelude::*;

use crate::error::EngineError;
use crate::evidence::collector::{Digest, DigestAlgorithm, EvidenceRecord, settle, settled};
use crate::evidence::kind::{EvidenceClass, EvidenceKind};
use crate::graph::edges::Boundary;
use crate::text::{decimal_of, decimal_u64, str_equals};

verus! {

/// The claim an artifact record states.
pub open spec fn artifact_claim(artifact_type: Seq<char>, digest: Seq<char>) -> Seq<char> {
    "the "@ + artifact_type + " content hashes to "@ + digest + " under SHA-256"@
}

/// The record [`from_artifact`] builds.
pub open spec fn artifact_record(r: EvidenceRecord, digest: Digest, artifact_type: String, id: String, observed_at: String) -> bool {
    &&& r.id == id && r.observed_at == observed_at
    &&& r.class == EvidenceClass::Recognised(EvidenceKind::Artifact)
    &&& r.claim@ == artifact_claim(artifact_type@, digest.value@)
    &&& r.digest == Some(digest) && r.artifact_type == Some(artifact_type)
    &&& r.supports@.len() == 0 && r.contradicts@.len() == 0
    &&& r.boundary is None && r.repository is None && r.revision is None && r.revision_kind is None
    &&& r.toolchain is None && r.configuration_digest is None && r.contract_id is None && r.transaction is None
    &&& r.ledger is None && r.event_index is None && r.successful is None && r.attestation_id is None
    &&& r.attested_claim is None && r.observation_note is None
}

/// A record for an artifact, identified by a digest over its content.
pub fn from_artifact(digest: Digest, artifact_type: String, id: String, observed_at: String) -> (result: Result<EvidenceRecord, EngineError>)
    ensures
        exists|r: EvidenceRecord| #[trigger] artifact_record(r, digest, artifact_type, id, observed_at) && settled(result, r),
{
    let mut claim = String::from_str("the ");
    proof { reveal_strlit("the "); }
    claim.append(artifact_type.as_str());
    claim.append(" content hashes to ");
    claim.append(digest.value.as_str());
    claim.append(" under SHA-256");
    let mut record = EvidenceRecord::draft(id, EvidenceClass::Recognised(EvidenceKind::Artifact), claim, observed_at);
    record.digest = Some(digest);
    record.artifact_type = Some(artifact_type);
    proof { assert(artifact_record(record, digest, artifact_type, id, observed_at)); }
    settle(record)
}

/// The claim an executable record states.
pub open spec fn executable_claim(boundary: Boundary, contract: Seq<char>, digest: Seq<char>) -> Seq<char> {
    "at ledger "@ + decimal_of(boundary.ledger as nat) + " on "@ + boundary.network@ + " the contract at "@ + contract
        + " reported the executable hash "@ + digest
}

/// The record [`from_executable`] builds, before any comparison.
pub open spec fn executable_record(r: EvidenceRecord, digest: Digest, contract: String, boundary: Boundary, id: String, observed_at: String) -> bool {
    &&& r.id == id && r.observed_at == observed_at
    &&& r.class == EvidenceClass::Recognised(EvidenceKind::Wasm)
    &&& r.digest == Some(digest) && r.contract_id == Some(contract)
    &&& r.ledger == Some(boundary.ledger) && r.boundary == Some(boundary)
    &&& r.supports@.len() == 0 && r.contradicts@.len() == 0
    &&& r.repository is None && r.revision is None && r.revision_kind is None
    &&& r.toolchain is None && r.configuration_digest is None && r.transaction is None
    &&& r.event_index is None && r.successful is None && r.attestation_id is None
    &&& r.attested_claim is None && r.observation_note is None
}

/// A record for the digest a boundary reported for a contract's executable.
///
/// The boundary is required: a hash with no chain and no ledger behind it is a number
/// that cannot be checked again.
pub fn from_executable(digest: Digest, contract: &String, boundary: Boundary, id: String, observed_at: String) -> (result: Result<EvidenceRecord, EngineError>)
    ensures
        exists|r: EvidenceRecord| #[trigger] executable_record(r, digest, *contract, boundary, id, observed_at)
            && r.claim@ == executable_claim(boundary, contract@, digest.value@) && r.artifact_type is None
            && settled(result, r),
{
    let mut claim = String::from_str("at ledger ");
    proof { reveal_strlit("at ledger "); }
    claim.append(decimal_u64(boundary.ledger).as_str());
    claim.append(" on ");
    claim.append(boundary.network.as_str());
    claim.append(" the contract at ");
    claim.append(contract.as_str());
    claim.append(" reported the executable hash ");
    claim.append(digest.value.as_str());
    let mut record = EvidenceRecord::draft(id, EvidenceClass::Recognised(EvidenceKind::Wasm), claim, observed_at);
    record.digest = Some(digest);
    record.contract_id = Some(contract.clone());
    record.ledger = Some(boundary.ledger);
    record.boundary = Some(boundary);
    proof { assert(executable_record(record, digest, *contract, boundary, id, observed_at)); }
    settle(record)
}

/// Two digests are the same digest: the same algorithm and the same value.
pub open spec fn same_digest(a: Digest, b: Digest) -> bool {
    a.algorithm == b.algorithm && a.value@ == b.value@
}

/// The claim a mismatching comparison states.
pub open spec fn mismatch_claim(boundary: Boundary, contract: Seq<char>, reported: Seq<char>, claimed: Seq<char>) -> Seq<char> {
    "at ledger "@ + decimal_of(boundary.ledger as nat) + " on "@ + boundary.network@ + " the executable at "@ + contract
        + " hashes to "@ + reported + ", which does not match the claimed "@ + claimed
}

/// A record that an executable seen on a chain has, or does not have, the digest a claim
/// states.
///
/// When the two differ the record states the comparison rather than the digest alone, so
/// a mismatch is recorded as what it is. It cites no other record as contradicted: the
/// only identifier the call holds is the record's own, and a record contradicting itself
/// would fail validation. A caller that holds the record the claimed digest came from
/// marks the conflict with [`EvidenceRecord::contradicting`].
pub fn compare_executable(claimed: &Digest, reported: &Digest, contract: &String, boundary: Boundary, id: String, observed_at: String) -> (result: Result<EvidenceRecord, EngineError>)
    ensures
        match result {
            Ok(r) => exists|base: EvidenceRecord| #[trigger] executable_record(base, *reported, *contract, boundary, id, observed_at)
                && record_failures_empty(base)
                && if same_digest(*claimed, *reported) {
                    r == base && r.claim@ == executable_claim(boundary, contract@, reported.value@) && r.artifact_type is None
                } else {
                    executable_record(r, *reported, *contract, boundary, id, observed_at)
                        && r.claim@ == mismatch_claim(boundary, contract@, reported.value@, claimed.value@)
                        && (r.artifact_type matches Some(t) && t@ == "WASM"@)
                },
            Err(e) => exists|base: EvidenceRecord| #[trigger] executable_record(base, *reported, *contract, boundary, id, observed_at)
                && base.claim@ == executable_claim(boundary, contract@, reported.value@)
                && settled(Err(e), base),
        },
{
    let reported_copy = Digest { algorithm: reported.algorithm, value: reported.value.clone() };
    let boundary_copy = Boundary { network: boundary.network.clone(), ledger: boundary.ledger, observed_at: boundary.observed_at.clone() };
    let mut record = match from_executable(reported_copy, contract, boundary_copy, id, observed_at) {
        Ok(r) => r,
        Err(e) => { return Err(e); },
    };
    if !(claimed.algorithm == reported.algorithm && str_equals(claimed.value.as_str(), reported.value.as_str())) {
        let mut claim = String::from_str("at ledger ");
        proof { reveal_strlit("at ledger "); reveal_strlit("WASM"); }
        claim.append(decimal_u64(boundary.ledger).as_str());
        claim.append(" on ");
        claim.append(boundary.network.as_str());
        claim.append(" the executable at ");
        claim.append(contract.as_str());
        claim.append(" hashes to ");
        claim.append(reported.value.as_str());
        claim.append(", which does not match the claimed ");
        claim.append(claimed.value.as_str());
        record.claim = claim;
        record.artifact_type = Some(String::from_str("WASM"));
    }
    Ok(record)
}

/// The record satisfies every requirement of its class.
pub open spec fn record_failures_empty(r: EvidenceRecord) -> bool {
    crate::evidence::collector::record_failures(r).len() == 0
}

/// Whether two digests can be compared at all: two digests under different algorithms
/// answer different questions.
pub fn comparable(left: &Digest, right: &Digest) -> (comparable: bool)
    ensures
        comparable == (left.algorithm == right.algorithm),
{
    left.algorithm == right.algorithm
}

/// The ledger a boundary read an executable at.
pub fn boundary_ledger(boundary: &Boundary) -> (ledger: u64)
    ensures
        ledger == boundary.ledger,
{
    boundary.ledger
}

} // verus!
