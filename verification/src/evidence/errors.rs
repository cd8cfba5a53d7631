//! The ways an evidence record can fail to be citable, and how each is classified.
//!
//! Every requirement a class places on its records has a variant here, and a record that
//! fails one is refused rather than stored. A refusal cannot be repaired by observing
//! more; a gap can, and the two are told apart by [`EvidenceFailure::is_refusal`] and
//! [`EvidenceFailure::is_completable_by_evidence`].

use vstd::prelude::*;

use crate::error::{EngineError, ErrorCategory};
use crate::text::{debug_str, debug_text, decimal, decimal_of};

verus! {

/// A way an evidence record can fail to be citable.
#[derive(Debug, Clone, PartialEq, Eq)]
pub enum EvidenceFailure {
    /// The record states no claim, or one too short to be a claim.
    ClaimNotStated {
        /// The record's identifier.
        evidence: String,
        /// How many characters the claim holds.
        length: usize,
    },
    /// The record identifies nothing it can be traced back to.
    NotTraceable {
        /// The record's identifier.
        evidence: String,
        /// The class that requires it.
        class: String,
        /// What an auditor would have to be able to consult.
        traceable_to: String,
    },
    /// The class is derived from network observation and no boundary was recorded.
    BoundaryUnrecorded {
        /// The record's identifier.
        evidence: String,
        /// The class that requires a boundary.
        class: String,
    },
    /// A transaction record does not state whether the transaction succeeded.
    TransactionOutcomeUnrecorded {
        /// The transaction that was cited.
        transaction: String,
    },
    /// A failed transaction was cited as evidence that its effect occurred.
    FailedTransactionCitedAsEffect {
        /// The transaction that failed.
        transaction: String,
        /// The claim it was cited for.
        claim: String,
    },
    /// Content-addressable evidence records no digest.
    DigestUnrecorded {
        /// The record's identifier.
        evidence: String,
        /// The class that requires one.
        class: String,
    },
    /// Content-addressable evidence records no artifact class.
    ArtifactTypeUnrecorded {
        /// The record's identifier.
        evidence: String,
    },
    /// Build evidence records no toolchain identity.
    ToolchainUnrecorded {
        /// The record's identifier.
        evidence: String,
    },
    /// Build evidence records no configuration digest.
    ConfigurationUnrecorded {
        /// The record's identifier.
        evidence: String,
    },
    /// An event record identifies neither its emitting transaction nor its index.
    EventOriginUnrecorded {
        /// The record's identifier.
        evidence: String,
    },
    /// An attestation record does not state which attestation it refers to.
    AttestationUnrecorded {
        /// The record's identifier.
        evidence: String,
    },
    /// An attestation that cannot be cited was offered as evidence.
    AttestationNotCitable {
        /// The attestation's identifier.
        attestation: String,
        /// Who issued it.
        issuer: String,
        /// What happened to its signature.
        state: String,
    },
    /// An attestation was cited for a claim it does not state.
    AttestationClaimMismatch {
        /// The attestation that was cited.
        attestation: String,
        /// The claim that was cited for.
        claim: String,
        /// The claim the attestation actually states.
        attested: String,
    },
    /// An observation record does not state what was observed.
    ObservationNoteUnrecorded {
        /// The record's identifier.
        evidence: String,
    },
    /// A record's note is longer than the schema permits.
    NoteTooLong {
        /// The record's identifier.
        evidence: String,
        /// How many characters the note holds.
        length: usize,
    },
    /// A digest was computed under an algorithm the specification does not define.
    DigestAlgorithmUnsupported {
        /// The record's identifier.
        evidence: String,
        /// The algorithm that was used.
        algorithm: String,
    },
    /// Two records share an identifier.
    DuplicateEvidenceId {
        /// The identifier that appeared twice.
        id: String,
    },
    /// A record states no claim for a class that requires one to be evaluable.
    NoSupportingEvidence {
        /// The claim that was evaluated.
        claim: String,
        /// The classes the claim requires.
        required: String,
    },
    /// A record and its subject disagree about a fact the class makes decisive.
    DecisiveDisagreement {
        /// The record's identifier.
        evidence: String,
        /// The field that disagrees.
        field: String,
        /// What the record states.
        recorded: String,
        /// What the claim states.
        claimed: String,
    },
    /// A record cites a contradiction with a record that is not present.
    ContradictionUnresolvable {
        /// The record that cites the contradiction.
        evidence: String,
        /// The identifier it cites.
        cited: String,
    },
}

/// What an evidence failure states: its variant and the text of each of its fields.
pub enum EvidenceFailureView {
    /// See [`EvidenceFailure::ClaimNotStated`].
    ClaimNotStated { evidence: Seq<char>, length: usize },
    /// See [`EvidenceFailure::NotTraceable`].
    NotTraceable { evidence: Seq<char>, class: Seq<char>, traceable_to: Seq<char> },
    /// See [`EvidenceFailure::BoundaryUnrecorded`].
    BoundaryUnrecorded { evidence: Seq<char>, class: Seq<char> },
    /// See [`EvidenceFailure::TransactionOutcomeUnrecorded`].
    TransactionOutcomeUnrecorded { transaction: Seq<char> },
    /// See [`EvidenceFailure::FailedTransactionCitedAsEffect`].
    FailedTransactionCitedAsEffect { transaction: Seq<char>, claim: Seq<char> },
    /// See [`EvidenceFailure::DigestUnrecorded`].
    DigestUnrecorded { evidence: Seq<char>, class: Seq<char> },
    /// See [`EvidenceFailure::ArtifactTypeUnrecorded`].
    ArtifactTypeUnrecorded { evidence: Seq<char> },
    /// See [`EvidenceFailure::ToolchainUnrecorded`].
    ToolchainUnrecorded { evidence: Seq<char> },
    /// See [`EvidenceFailure::ConfigurationUnrecorded`].
    ConfigurationUnrecorded { evidence: Seq<char> },
    /// See [`EvidenceFailure::EventOriginUnrecorded`].
    EventOriginUnrecorded { evidence: Seq<char> },
    /// See [`EvidenceFailure::AttestationUnrecorded`].
    AttestationUnrecorded { evidence: Seq<char> },
    /// See [`EvidenceFailure::AttestationNotCitable`].
    AttestationNotCitable { attestation: Seq<char>, issuer: Seq<char>, state: Seq<char> },
    /// See [`EvidenceFailure::AttestationClaimMismatch`].
    AttestationClaimMismatch { attestation: Seq<char>, claim: Seq<char>, attested: Seq<char> },
    /// See [`EvidenceFailure::ObservationNoteUnrecorded`].
    ObservationNoteUnrecorded { evidence: Seq<char> },
    /// See [`EvidenceFailure::NoteTooLong`].
    NoteTooLong { evidence: Seq<char>, length: usize },
    /// See [`EvidenceFailure::DigestAlgorithmUnsupported`].
    DigestAlgorithmUnsupported { evidence: Seq<char>, algorithm: Seq<char> },
    /// See [`EvidenceFailure::DuplicateEvidenceId`].
    DuplicateEvidenceId { id: Seq<char> },
    /// See [`EvidenceFailure::NoSupportingEvidence`].
    NoSupportingEvidence { claim: Seq<char>, required: Seq<char> },
    /// See [`EvidenceFailure::DecisiveDisagreement`].
    DecisiveDisagreement { evidence: Seq<char>, field: Seq<char>, recorded: Seq<char>, claimed: Seq<char> },
    /// See [`EvidenceFailure::ContradictionUnresolvable`].
    ContradictionUnresolvable { evidence: Seq<char>, cited: Seq<char> },
}

impl EvidenceFailureView {
    /// The sentence a failure is reported as, as the contracts speak of it.
    pub open spec fn sentence(self) -> Seq<char> {
        match self {
            EvidenceFailureView::ClaimNotStated { evidence, length } => "evidence "@ + debug_text(evidence) + " states a "@ + decimal_of(length as nat) + "-character claim; a record exists to support a specific claim, and one that does not state what it supports cannot be cited by the claim it was collected for"@,
            EvidenceFailureView::NotTraceable { evidence, class, traceable_to } => class + " evidence "@ + debug_text(evidence) + " identifies nothing an auditor could consult; evidence of this class must be traceable to "@ + traceable_to,
            EvidenceFailureView::BoundaryUnrecorded { evidence, class } => class + " evidence "@ + debug_text(evidence) + " records no observation boundary; a ledger sequence is only meaningful against a named chain, so a record without one states a number that means nothing on its own"@,
            EvidenceFailureView::TransactionOutcomeUnrecorded { transaction } => "transaction evidence for "@ + transaction + " does not state whether the transaction succeeded; an unknown outcome is not a successful one, and the schema requires the field for this class for exactly that reason"@,
            EvidenceFailureView::FailedTransactionCitedAsEffect { transaction, claim } => "transaction "@ + transaction + " failed and is cited as evidence that "@ + claim + "; a failed transaction is evidence of the attempt, not of the effect"@,
            EvidenceFailureView::DigestUnrecorded { evidence, class } => class + " evidence "@ + debug_text(evidence) + " records no digest; a content address is meaningless without the content it was computed over, so this evidence asserts an identity an auditor cannot recompute"@,
            EvidenceFailureView::ArtifactTypeUnrecorded { evidence } => "artifact evidence "@ + debug_text(evidence) + " does not say which class of artifact the digest was computed over; a digest of a lockfile and a digest of an executable are both digests, and the type is what makes the comparison meaningful"@,
            EvidenceFailureView::ToolchainUnrecorded { evidence } => "build evidence "@ + debug_text(evidence) + " records no toolchain identity; two builds of one revision with different compilers produce different artifacts, so a build record without a toolchain cannot explain the artifact it claims to have produced"@,
            EvidenceFailureView::ConfigurationUnrecorded { evidence } => "build evidence "@ + debug_text(evidence) + " records no configuration digest; a build is a function of its inputs, and configuration is an input"@,
            EvidenceFailureView::EventOriginUnrecorded { evidence } => "event evidence "@ + debug_text(evidence) + " records neither the transaction that emitted it nor its index; an event without its emitting transaction cannot be located, and without its index it cannot be distinguished from its siblings"@,
            EvidenceFailureView::AttestationUnrecorded { evidence } => "attestation evidence "@ + debug_text(evidence) + " does not name the attestation it refers to; the issuer and the exact claim text are what an auditor consults, and neither can be recovered from a flag"@,
            EvidenceFailureView::AttestationNotCitable { attestation, issuer, state } => "the attestation "@ + attestation + " from "@ + issuer + " cannot be cited as evidence: its signature is "@ + state + ", and only a verified signature supports a claim"@,
            EvidenceFailureView::AttestationClaimMismatch { attestation, claim, attested } => "attestation "@ + attestation + " was cited for "@ + claim + " while it states "@ + attested + "; an attestation supports the specific claim it states and nothing broader"@,
            EvidenceFailureView::ObservationNoteUnrecorded { evidence } => "observation evidence "@ + debug_text(evidence) + " does not state what was observed; this class asserts presence only, so the note is the whole of its content"@,
            EvidenceFailureView::NoteTooLong { evidence, length } => "evidence "@ + debug_text(evidence) + " carries a "@ + decimal_of(length as nat) + "-character note, and the schema bounds a note at 2048 characters; a document this engine emitted would be refused by a reader validating it against that schema"@,
            EvidenceFailureView::DigestAlgorithmUnsupported { evidence, algorithm } => "evidence "@ + debug_text(evidence) + " records a "@ + algorithm + " digest; the specification defines SHA-256, and a digest under another algorithm cannot be compared with one it defines"@,
            EvidenceFailureView::DuplicateEvidenceId { id } => "evidence identifier "@ + debug_text(id) + " appears more than once; claims reference evidence by identifier, so a duplicate would make a citation ambiguous between two records"@,
            EvidenceFailureView::NoSupportingEvidence { claim, required } => "the claim "@ + debug_text(claim) + " cites no evidence; it requires "@ + required + ", and a claim with no evidence is an assertion"@,
            EvidenceFailureView::DecisiveDisagreement { evidence, field, recorded, claimed } => "evidence "@ + debug_text(evidence) + " records "@ + field + " as "@ + debug_text(recorded) + " while the claim states "@ + debug_text(claimed) + "; a deterministically comparable record that disagrees is a contradiction, and reporting it as verified would be the most damaging output the engine could produce"@,
            EvidenceFailureView::ContradictionUnresolvable { evidence, cited } => "evidence "@ + debug_text(evidence) + " cites a contradiction with "@ + debug_text(cited) + ", which is not present in the collected set; a conflict names two records, and one of them missing means the conflict cannot be evaluated"@,
        }
    }

}

impl View for EvidenceFailure {
    type V = EvidenceFailureView;

    open spec fn view(&self) -> EvidenceFailureView {
        match self {
            EvidenceFailure::ClaimNotStated { evidence, length } => EvidenceFailureView::ClaimNotStated { evidence: evidence@, length: *length },
            EvidenceFailure::NotTraceable { evidence, class, traceable_to } => EvidenceFailureView::NotTraceable { evidence: evidence@, class: class@, traceable_to: traceable_to@ },
            EvidenceFailure::BoundaryUnrecorded { evidence, class } => EvidenceFailureView::BoundaryUnrecorded { evidence: evidence@, class: class@ },
            EvidenceFailure::TransactionOutcomeUnrecorded { transaction } => EvidenceFailureView::TransactionOutcomeUnrecorded { transaction: transaction@ },
            EvidenceFailure::FailedTransactionCitedAsEffect { transaction, claim } => EvidenceFailureView::FailedTransactionCitedAsEffect { transaction: transaction@, claim: claim@ },
            EvidenceFailure::DigestUnrecorded { evidence, class } => EvidenceFailureView::DigestUnrecorded { evidence: evidence@, class: class@ },
            EvidenceFailure::ArtifactTypeUnrecorded { evidence } => EvidenceFailureView::ArtifactTypeUnrecorded { evidence: evidence@ },
            EvidenceFailure::ToolchainUnrecorded { evidence } => EvidenceFailureView::ToolchainUnrecorded { evidence: evidence@ },
            EvidenceFailure::ConfigurationUnrecorded { evidence } => EvidenceFailureView::ConfigurationUnrecorded { evidence: evidence@ },
            EvidenceFailure::EventOriginUnrecorded { evidence } => EvidenceFailureView::EventOriginUnrecorded { evidence: evidence@ },
            EvidenceFailure::AttestationUnrecorded { evidence } => EvidenceFailureView::AttestationUnrecorded { evidence: evidence@ },
            EvidenceFailure::AttestationNotCitable { attestation, issuer, state } => EvidenceFailureView::AttestationNotCitable { attestation: attestation@, issuer: issuer@, state: state@ },
            EvidenceFailure::AttestationClaimMismatch { attestation, claim, attested } => EvidenceFailureView::AttestationClaimMismatch { attestation: attestation@, claim: claim@, attested: attested@ },
            EvidenceFailure::ObservationNoteUnrecorded { evidence } => EvidenceFailureView::ObservationNoteUnrecorded { evidence: evidence@ },
            EvidenceFailure::NoteTooLong { evidence, length } => EvidenceFailureView::NoteTooLong { evidence: evidence@, length: *length },
            EvidenceFailure::DigestAlgorithmUnsupported { evidence, algorithm } => EvidenceFailureView::DigestAlgorithmUnsupported { evidence: evidence@, algorithm: algorithm@ },
            EvidenceFailure::DuplicateEvidenceId { id } => EvidenceFailureView::DuplicateEvidenceId { id: id@ },
            EvidenceFailure::NoSupportingEvidence { claim, required } => EvidenceFailureView::NoSupportingEvidence { claim: claim@, required: required@ },
            EvidenceFailure::DecisiveDisagreement { evidence, field, recorded, claimed } => EvidenceFailureView::DecisiveDisagreement { evidence: evidence@, field: field@, recorded: recorded@, claimed: claimed@ },
            EvidenceFailure::ContradictionUnresolvable { evidence, cited } => EvidenceFailureView::ContradictionUnresolvable { evidence: evidence@, cited: cited@ },
        }
    }
}

impl EvidenceFailure {
    /// The error category every evidence failure reports.
    pub fn category(&self) -> (category: ErrorCategory)
        ensures
            category == ErrorCategory::Provenance,
    {
        ErrorCategory::Provenance
    }

    /// Whether this is a structural refusal rather than a gap.
    ///
    /// A refusal means the record cannot be made citable by observing more: a failed
    /// transaction does not become successful, and an attestation does not broaden to
    /// cover a claim it never stated.
    pub fn is_refusal(&self) -> (refusal: bool)
        ensures
            refusal == self.spec_is_refusal(),
    {
        match self {
            EvidenceFailure::FailedTransactionCitedAsEffect { .. }
            | EvidenceFailure::AttestationClaimMismatch { .. }
            | EvidenceFailure::AttestationNotCitable { .. }
            | EvidenceFailure::NoteTooLong { .. }
            | EvidenceFailure::DigestAlgorithmUnsupported { .. }
            | EvidenceFailure::DecisiveDisagreement { .. }
            | EvidenceFailure::DuplicateEvidenceId { .. } => true,
            _ => false,
        }
    }

    /// The refusals, as the contracts speak of them.
    pub open spec fn spec_is_refusal(&self) -> bool {
        self is FailedTransactionCitedAsEffect || self is AttestationClaimMismatch || self is AttestationNotCitable || self is NoteTooLong || self is DigestAlgorithmUnsupported || self is DecisiveDisagreement || self is DuplicateEvidenceId
    }

    /// Whether more evidence could make the claim citable.
    pub fn is_completable_by_evidence(&self) -> (completable: bool)
        ensures
            completable == self.spec_is_completable(),
    {
        match self {
            EvidenceFailure::ClaimNotStated { .. }
            | EvidenceFailure::NotTraceable { .. }
            | EvidenceFailure::BoundaryUnrecorded { .. }
            | EvidenceFailure::TransactionOutcomeUnrecorded { .. }
            | EvidenceFailure::DigestUnrecorded { .. }
            | EvidenceFailure::ArtifactTypeUnrecorded { .. }
            | EvidenceFailure::ToolchainUnrecorded { .. }
            | EvidenceFailure::ConfigurationUnrecorded { .. }
            | EvidenceFailure::EventOriginUnrecorded { .. }
            | EvidenceFailure::AttestationUnrecorded { .. }
            | EvidenceFailure::ObservationNoteUnrecorded { .. }
            | EvidenceFailure::NoSupportingEvidence { .. }
            | EvidenceFailure::ContradictionUnresolvable { .. } => true,
            _ => false,
        }
    }

    /// The gaps, as the contracts speak of them.
    pub open spec fn spec_is_completable(&self) -> bool {
        self is ClaimNotStated || self is NotTraceable || self is BoundaryUnrecorded || self is TransactionOutcomeUnrecorded || self is DigestUnrecorded || self is ArtifactTypeUnrecorded || self is ToolchainUnrecorded || self is ConfigurationUnrecorded || self is EventOriginUnrecorded || self is AttestationUnrecorded || self is ObservationNoteUnrecorded || self is NoSupportingEvidence || self is ContradictionUnresolvable
    }

    /// The sentence a failure is reported as, as the contracts speak of it.
    pub open spec fn sentence(self) -> Seq<char> {
        self@.sentence()
    }

    /// The engine error this failure becomes.
    pub fn into_error(self) -> (error: EngineError)
        ensures
            error.spec_category() == ErrorCategory::Provenance,
            error.spec_message() == self.sentence(),
    {
        EngineError::Provenance(describe(&self))
    }
}

/// Describes a failure as a sentence for a report.
pub fn describe(failure: &EvidenceFailure) -> (sentence: String)
    ensures
        sentence@ == failure.sentence(),
{
    let mut out = String::new();
    match failure {
        EvidenceFailure::ClaimNotStated { evidence, length } => {
            out.append("evidence ");
            proof { assert(out@ =~= "evidence "@); }
            out.append(debug_str(evidence.as_str()).as_str());
            out.append(" states a ");
            out.append(decimal(*length).as_str());
            out.append("-character claim; a record exists to support a specific claim, and one that does not state what it supports cannot be cited by the claim it was collected for");
        },
        EvidenceFailure::NotTraceable { evidence, class, traceable_to } => {
            out.append(class.as_str());
            proof { assert(out@ =~= class@); }
            out.append(" evidence ");
            out.append(debug_str(evidence.as_str()).as_str());
            out.append(" identifies nothing an auditor could consult; evidence of this class must be traceable to ");
            out.append(traceable_to.as_str());
        },
        EvidenceFailure::BoundaryUnrecorded { evidence, class } => {
            out.append(class.as_str());
            proof { assert(out@ =~= class@); }
            out.append(" evidence ");
            out.append(debug_str(evidence.as_str()).as_str());
            out.append(" records no observation boundary; a ledger sequence is only meaningful against a named chain, so a record without one states a number that means nothing on its own");
        },
        EvidenceFailure::TransactionOutcomeUnrecorded { transaction } => {
            out.append("transaction evidence for ");
            proof { assert(out@ =~= "transaction evidence for "@); }
            out.append(transaction.as_str());
            out.append(" does not state whether the transaction succeeded; an unknown outcome is not a successful one, and the schema requires the field for this class for exactly that reason");
        },
        EvidenceFailure::FailedTransactionCitedAsEffect { transaction, claim } => {
            out.append("transaction ");
            proof { assert(out@ =~= "transaction "@); }
            out.append(transaction.as_str());
            out.append(" failed and is cited as evidence that ");
            out.append(claim.as_str());
            out.append("; a failed transaction is evidence of the attempt, not of the effect");
        },
        EvidenceFailure::DigestUnrecorded { evidence, class } => {
            out.append(class.as_str());
            proof { assert(out@ =~= class@); }
            out.append(" evidence ");
            out.append(debug_str(evidence.as_str()).as_str());
            out.append(" records no digest; a content address is meaningless without the content it was computed over, so this evidence asserts an identity an auditor cannot recompute");
        },
        EvidenceFailure::ArtifactTypeUnrecorded { evidence } => {
            out.append("artifact evidence ");
            proof { assert(out@ =~= "artifact evidence "@); }
            out.append(debug_str(evidence.as_str()).as_str());
            out.append(" does not say which class of artifact the digest was computed over; a digest of a lockfile and a digest of an executable are both digests, and the type is what makes the comparison meaningful");
        },
        EvidenceFailure::ToolchainUnrecorded { evidence } => {
            out.append("build evidence ");
            proof { assert(out@ =~= "build evidence "@); }
            out.append(debug_str(evidence.as_str()).as_str());
            out.append(" records no toolchain identity; two builds of one revision with different compilers produce different artifacts, so a build record without a toolchain cannot explain the artifact it claims to have produced");
        },
        EvidenceFailure::ConfigurationUnrecorded { evidence } => {
            out.append("build evidence ");
            proof { assert(out@ =~= "build evidence "@); }
            out.append(debug_str(evidence.as_str()).as_str());
            out.append(" records no configuration digest; a build is a function of its inputs, and configuration is an input");
        },
        EvidenceFailure::EventOriginUnrecorded { evidence } => {
            out.append("event evidence ");
            proof { assert(out@ =~= "event evidence "@); }
            out.append(debug_str(evidence.as_str()).as_str());
            out.append(" records neither the transaction that emitted it nor its index; an event without its emitting transaction cannot be located, and without its index it cannot be distinguished from its siblings");
        },
        EvidenceFailure::AttestationUnrecorded { evidence } => {
            out.append("attestation evidence ");
            proof { assert(out@ =~= "attestation evidence "@); }
            out.append(debug_str(evidence.as_str()).as_str());
            out.append(" does not name the attestation it refers to; the issuer and the exact claim text are what an auditor consults, and neither can be recovered from a flag");
        },
        EvidenceFailure::AttestationNotCitable { attestation, issuer, state } => {
            out.append("the attestation ");
            proof { assert(out@ =~= "the attestation "@); }
            out.append(attestation.as_str());
            out.append(" from ");
            out.append(issuer.as_str());
            out.append(" cannot be cited as evidence: its signature is ");
            out.append(state.as_str());
            out.append(", and only a verified signature supports a claim");
        },
        EvidenceFailure::AttestationClaimMismatch { attestation, claim, attested } => {
            out.append("attestation ");
            proof { assert(out@ =~= "attestation "@); }
            out.append(attestation.as_str());
            out.append(" was cited for ");
            out.append(claim.as_str());
            out.append(" while it states ");
            out.append(attested.as_str());
            out.append("; an attestation supports the specific claim it states and nothing broader");
        },
        EvidenceFailure::ObservationNoteUnrecorded { evidence } => {
            out.append("observation evidence ");
            proof { assert(out@ =~= "observation evidence "@); }
            out.append(debug_str(evidence.as_str()).as_str());
            out.append(" does not state what was observed; this class asserts presence only, so the note is the whole of its content");
        },
        EvidenceFailure::NoteTooLong { evidence, length } => {
            out.append("evidence ");
            proof { assert(out@ =~= "evidence "@); }
            out.append(debug_str(evidence.as_str()).as_str());
            out.append(" carries a ");
            out.append(decimal(*length).as_str());
            out.append("-character note, and the schema bounds a note at 2048 characters; a document this engine emitted would be refused by a reader validating it against that schema");
        },
        EvidenceFailure::DigestAlgorithmUnsupported { evidence, algorithm } => {
            out.append("evidence ");
            proof { assert(out@ =~= "evidence "@); }
            out.append(debug_str(evidence.as_str()).as_str());
            out.append(" records a ");
            out.append(algorithm.as_str());
            out.append(" digest; the specification defines SHA-256, and a digest under another algorithm cannot be compared with one it defines");
        },
        EvidenceFailure::DuplicateEvidenceId { id } => {
            out.append("evidence identifier ");
            proof { assert(out@ =~= "evidence identifier "@); }
            out.append(debug_str(id.as_str()).as_str());
            out.append(" appears more than once; claims reference evidence by identifier, so a duplicate would make a citation ambiguous between two records");
        },
        EvidenceFailure::NoSupportingEvidence { claim, required } => {
            out.append("the claim ");
            proof { assert(out@ =~= "the claim "@); }
            out.append(debug_str(claim.as_str()).as_str());
            out.append(" cites no evidence; it requires ");
            out.append(required.as_str());
            out.append(", and a claim with no evidence is an assertion");
        },
        EvidenceFailure::DecisiveDisagreement { evidence, field, recorded, claimed } => {
            out.append("evidence ");
            proof { assert(out@ =~= "evidence "@); }
            out.append(debug_str(evidence.as_str()).as_str());
            out.append(" records ");
            out.append(field.as_str());
            out.append(" as ");
            out.append(debug_str(recorded.as_str()).as_str());
            out.append(" while the claim states ");
            out.append(debug_str(claimed.as_str()).as_str());
            out.append("; a deterministically comparable record that disagrees is a contradiction, and reporting it as verified would be the most damaging output the engine could produce");
        },
        EvidenceFailure::ContradictionUnresolvable { evidence, cited } => {
            out.append("evidence ");
            proof { assert(out@ =~= "evidence "@); }
            out.append(debug_str(evidence.as_str()).as_str());
            out.append(" cites a contradiction with ");
            out.append(debug_str(cited.as_str()).as_str());
            out.append(", which is not present in the collected set; a conflict names two records, and one of them missing means the conflict cannot be evaluated");
        },
    }
    out
}

/// Reports the first failure in a list, or succeeds if there are none.
pub fn first_failure(failures: Vec<EvidenceFailure>) -> (result: Result<(), EngineError>)
    ensures
        result is Ok <==> failures@.len() == 0,
        result matches Err(error) ==> error.spec_category() == ErrorCategory::Provenance
            && error.spec_message() == failures@[0].sentence(),
{
    if failures.len() == 0 {
        Ok(())
    } else {
        let mut failures = failures;
        let first = failures.remove(0);
        Err(first.into_error())
    }
}

/// Every failure is exactly one of a refusal and a gap.
pub proof fn classification_is_exclusive(failure: EvidenceFailure)
    ensures
        failure.spec_is_refusal() != failure.spec_is_completable(),
{
}

} // verus!
