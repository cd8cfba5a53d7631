//! Event evidence: an event a contract emitted, located by its transaction and index.
//!
//! An event without its emitting transaction cannot be located, and without its index it
//! cannot be told from its siblings, so both are part of its origin.

use vstd::prelude::*;

use crate::error::EngineError;
use crate::evidence::collector::{EvidenceRecord, settle, settled};
use crate::evidence::kind::{EvidenceClass, EvidenceKind};
use crate::graph::edges::Boundary;

verus! {

/// One contract event, with the origin that makes it locatable.
#[derive(Debug, Clone)]
pub struct EventOrigin {
    /// The contract that emitted the event.
    pub contract: String,
    /// The transaction the event was emitted during.
    pub transaction: String,
    /// The event's index within its emitting transaction.
    pub event_index: u32,
    /// The boundary the event was read at.
    pub boundary: Boundary,
    /// What the event was observed to carry, stated factually.
    pub note: String,
}

impl EventOrigin {
    /// Records an event's origin.
    pub fn new(contract: String, transaction: String, event_index: u32, boundary: Boundary, note: String) -> (origin: EventOrigin)
        ensures
            origin.contract == contract,
            origin.transaction == transaction,
            origin.event_index == event_index,
            origin.boundary == boundary,
            origin.note == note,
    {
        EventOrigin { contract, transaction, event_index, boundary, note }
    }

    /// The ledger the event was emitted in.
    pub fn ledger(&self) -> (ledger: u64)
        ensures
            ledger == self.boundary.ledger,
    {
        self.boundary.ledger
    }
}

/// The record [`from_event`] builds.
pub open spec fn event_record(r: EvidenceRecord, origin: EventOrigin, claim: String, id: String, observed_at: String) -> bool {
    &&& r.id == id && r.observed_at == observed_at && r.claim == claim
    &&& r.class == EvidenceClass::Recognised(EvidenceKind::Event)
    &&& r.contract_id == Some(origin.contract) && r.transaction == Some(origin.transaction)
    &&& r.ledger == Some(origin.boundary.ledger) && r.event_index == Some(origin.event_index)
    &&& r.boundary == Some(origin.boundary) && r.observation_note == Some(origin.note)
    &&& r.supports@.len() == 0 && r.contradicts@.len() == 0
    &&& r.digest is None && r.repository is None && r.revision is None && r.revision_kind is None
    &&& r.toolchain is None && r.configuration_digest is None && r.artifact_type is None
    &&& r.successful is None && r.attestation_id is None && r.attested_claim is None
}

fn copy_boundary(b: &Boundary) -> (copy: Boundary)
    ensures
        copy == *b,
{
    Boundary { network: b.network.clone(), ledger: b.ledger, observed_at: b.observed_at.clone() }
}

/// A record for an event, cited for a claim.
///
/// The note is the observation and is kept apart from the claim, so a report can tell
/// what was seen from what it was cited for; a note too short to say anything is refused.
pub fn from_event(origin: &EventOrigin, claim: String, id: String, observed_at: String) -> (result: Result<EvidenceRecord, EngineError>)
    ensures
        exists|r: EvidenceRecord| #[trigger] event_record(r, *origin, claim, id, observed_at) && settled(result, r),
{
    let mut record = EvidenceRecord::draft(id, EvidenceClass::Recognised(EvidenceKind::Event), claim, observed_at);
    record.contract_id = Some(origin.contract.clone());
    record.transaction = Some(origin.transaction.clone());
    record.ledger = Some(origin.ledger());
    record.event_index = Some(origin.event_index);
    record.boundary = Some(copy_boundary(&origin.boundary));
    record.observation_note = Some(origin.note.clone());
    proof { assert(event_record(record, *origin, claim, id, observed_at)); }
    settle(record)
}

} // verus!
