//! The evidence document the specification defines, projected from a collected record.
//!
//! The record carries four fields the published document has no place for - the
//! contradictions it declares, the kind of its revision, an event's index and the claim
//! an attestation states - and the document drops them rather than renaming them into
//! something they are not. Conflict is published through a confidence's contradicting
//! evidence instead.

use vstd::prelude::*;

use crate::evidence::collector::{Digest, EvidenceRecord};
use crate::evidence::kind::EvidenceClass;
use crate::graph::edges::Boundary;

verus! {

/// One evidence record, in the shape the published document defines.
#[derive(Debug, Clone, PartialEq, Eq)]
pub struct EvidenceDocument {
    /// The record's identifier.
    pub id: String,
    /// The evidence class, published as `type`.
    pub class: EvidenceClass,
    /// The claim the record supports.
    pub claim: String,
    /// The relationships or findings the evidence supports, omitted when empty.
    pub supports_relationships: Vec<String>,
    /// When the record was observed.
    pub observed_at: String,
    /// The boundary of the observation.
    pub boundary: Option<Boundary>,
    /// A digest over what the record points at.
    pub digest: Option<Digest>,
    /// The repository a revision was read from.
    pub repository: Option<String>,
    /// The revision observed.
    pub revision: Option<String>,
    /// The toolchain identity a build used.
    pub toolchain: Option<String>,
    /// The digest of a build's configuration.
    pub configuration_digest: Option<Digest>,
    /// The artifact class a digest was computed over.
    pub artifact_type: Option<String>,
    /// The contract concerned.
    pub contract_id: Option<String>,
    /// The transaction the record derives from, published as `transactionHash`.
    pub transaction_hash: Option<String>,
    /// The ledger the record derives from.
    pub ledger: Option<u64>,
    /// Whether a transaction succeeded.
    pub successful: Option<bool>,
    /// The attestation the record refers to.
    pub attestation_id: Option<String>,
    /// What was observed.
    pub observation_note: Option<String>,
}

/// `d` is the projection of `r`: every published field carried across unchanged, and
/// the four with no published place dropped.
pub open spec fn projects(d: EvidenceDocument, r: EvidenceRecord) -> bool {
    &&& d.id == r.id && d.class == r.class && d.claim == r.claim && d.observed_at == r.observed_at
    &&& d.supports_relationships@ == r.supports@
    &&& d.boundary == r.boundary && d.digest == r.digest && d.repository == r.repository
    &&& d.revision == r.revision && d.toolchain == r.toolchain && d.configuration_digest == r.configuration_digest
    &&& d.artifact_type == r.artifact_type && d.contract_id == r.contract_id && d.transaction_hash == r.transaction
    &&& d.ledger == r.ledger && d.successful == r.successful && d.attestation_id == r.attestation_id
    &&& d.observation_note == r.observation_note
}

fn copy_text(s: &Option<String>) -> (copy: Option<String>)
    ensures
        copy == *s,
{
    match s {
        Some(t) => Some(t.clone()),
        None => None,
    }
}

fn copy_digest(d: &Option<Digest>) -> (copy: Option<Digest>)
    ensures
        copy == *d,
{
    match d {
        Some(x) => Some(Digest { algorithm: x.algorithm, value: x.value.clone() }),
        None => None,
    }
}

fn copy_boundary(b: &Option<Boundary>) -> (copy: Option<Boundary>)
    ensures
        copy == *b,
{
    match b {
        Some(x) => Some(Boundary { network: x.network.clone(), ledger: x.ledger, observed_at: x.observed_at.clone() }),
        None => None,
    }
}

fn copy_class(c: &EvidenceClass) -> (copy: EvidenceClass)
    ensures
        copy == *c,
{
    match c {
        EvidenceClass::Recognised(kind) => EvidenceClass::Recognised(*kind),
        EvidenceClass::Unrecognised(term) => EvidenceClass::Unrecognised(term.clone()),
    }
}

fn copy_texts(v: &Vec<String>) -> (copy: Vec<String>)
    ensures
        copy@ == v@,
{
    let mut copy: Vec<String> = Vec::new();
    for i in 0..v.len()
        invariant
            copy@ == v@.subrange(0, i as int),
    {
        copy.push(v[i].clone());
        assert(copy@ =~= v@.subrange(0, i + 1));
    }
    assert(v@.subrange(0, v@.len() as int) =~= v@);
    copy
}

impl EvidenceDocument {
    /// Projects a collected record into the published document.
    pub fn of(record: &EvidenceRecord) -> (document: EvidenceDocument)
        ensures
            projects(document, *record),
    {
        EvidenceDocument {
            id: record.id.clone(),
            class: copy_class(&record.class),
            claim: record.claim.clone(),
            supports_relationships: copy_texts(&record.supports),
            observed_at: record.observed_at.clone(),
            boundary: copy_boundary(&record.boundary),
            digest: copy_digest(&record.digest),
            repository: copy_text(&record.repository),
            revision: copy_text(&record.revision),
            toolchain: copy_text(&record.toolchain),
            configuration_digest: copy_digest(&record.configuration_digest),
            artifact_type: copy_text(&record.artifact_type),
            contract_id: copy_text(&record.contract_id),
            transaction_hash: copy_text(&record.transaction),
            ledger: record.ledger,
            successful: record.successful,
            attestation_id: copy_text(&record.attestation_id),
            observation_note: copy_text(&record.observation_note),
        }
    }

    /// Projects records into documents, in the order given.
    pub fn all(records: &[EvidenceRecord]) -> (documents: Vec<EvidenceDocument>)
        ensures
            documents@.len() == records@.len(),
            forall|i: int| 0 <= i < records@.len() ==> projects(#[trigger] documents@[i], records@[i]),
    {
        let mut documents: Vec<EvidenceDocument> = Vec::new();
        for i in 0..records.len()
            invariant
                documents@.len() == i,
                forall|x: int| 0 <= x < i ==> projects(#[trigger] documents@[x], records@[x]),
        {
            documents.push(EvidenceDocument::of(&records[i]));
        }
        documents
    }
}

} // verus!
