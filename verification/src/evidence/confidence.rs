//! How strongly a record supports a claim, stated as the shape of the support.
//!
//! A level describes the evidence, never the thing evidenced: a digest match is the
//! strongest thing this module can observe, and it says nothing about whether a contract
//! is trustworthy.

use vstd::prelude::*;

use crate::error::EngineError;
use crate::evidence::collector::{EvidenceRecord, RevisionKind, infer_revision_kind, is_commit_identifier};
use crate::evidence::errors::{EvidenceFailure, EvidenceFailureView};
use crate::evidence::kind::EvidenceKind;
use crate::text::{decimal, decimal_of};

verus! {

/// A confidence level, from "we do not know" up to "the check passed".
///
/// Ordered by ordinal, weakest first, so that the weakest of several levels is their
/// minimum.
#[derive(Debug, Clone, Copy, PartialEq, Eq, Structural)]
pub enum ConfidenceLevel {
    /// A term this version cannot interpret.
    Unknown,
    /// Indirect evidence.
    LowConfidence,
    /// Evidence consistent with the claim without establishing it.
    MediumConfidence,
    /// Evidence complete for the claim but not re-derivable.
    HighConfidence,
    /// Evidence deterministically comparable to the claim, and the comparison held.
    Verified,
}

impl ConfidenceLevel {
    /// The stable wire name.
    pub fn as_str(self) -> (s: &'static str)
        ensures
            s@ == self.name(),
    {
        match self {
            ConfidenceLevel::Unknown => "UNKNOWN",
            ConfidenceLevel::LowConfidence => "LOW_CONFIDENCE",
            ConfidenceLevel::MediumConfidence => "MEDIUM_CONFIDENCE",
            ConfidenceLevel::HighConfidence => "HIGH_CONFIDENCE",
            ConfidenceLevel::Verified => "VERIFIED",
        }
    }

    /// The level's ordinal, as the contracts speak of it: zero for `UNKNOWN`, four for
    /// `VERIFIED`.
    pub open spec fn rank(self) -> nat {
        match self {
            ConfidenceLevel::Unknown => 0,
            ConfidenceLevel::LowConfidence => 1,
            ConfidenceLevel::MediumConfidence => 2,
            ConfidenceLevel::HighConfidence => 3,
            ConfidenceLevel::Verified => 4,
        }
    }

    /// The level's ordinal in the taxonomy.
    pub fn ordinal(self) -> (ordinal: u8)
        ensures
            ordinal == self.rank(),
    {
        match self {
            ConfidenceLevel::Unknown => 0,
            ConfidenceLevel::LowConfidence => 1,
            ConfidenceLevel::MediumConfidence => 2,
            ConfidenceLevel::HighConfidence => 3,
            ConfidenceLevel::Verified => 4,
        }
    }

    /// The weaker of two levels.
    pub fn weakest(self, other: ConfidenceLevel) -> (weaker: ConfidenceLevel)
        ensures
            weaker == (if self.rank() <= other.rank() { self } else { other }),
    {
        if self.ordinal() <= other.ordinal() { self } else { other }
    }

    /// The wire name, as the contracts speak of it.
    pub open spec fn name(self) -> Seq<char> {
        match self {
            ConfidenceLevel::Unknown => "UNKNOWN"@,
            ConfidenceLevel::LowConfidence => "LOW_CONFIDENCE"@,
            ConfidenceLevel::MediumConfidence => "MEDIUM_CONFIDENCE"@,
            ConfidenceLevel::HighConfidence => "HIGH_CONFIDENCE"@,
            ConfidenceLevel::Verified => "VERIFIED"@,
        }
    }
}

/// The shape of the support a record provides.
///
/// Ordered from the weakest to the strongest, so the weakest link of a set is its
/// minimum.
#[derive(Debug, Clone, Copy, PartialEq, Eq, Structural)]
pub enum EvidenceBasis {
    /// A term this version does not define: kept, and establishing nothing.
    Uninterpretable,
    /// Indirect evidence that something was present.
    Circumstantial,
    /// Evidence consistent with the claim without establishing it.
    Directional,
    /// Complete for the claim, but not re-derivable from the Amasario record alone.
    Authoritative,
    /// Deterministically comparable to the claim, so the check either passes or fails.
    Decisive,
}

impl EvidenceBasis {
    /// The stable wire name.
    pub fn as_str(self) -> (s: &'static str)
        ensures
            s@ == self.name(),
    {
        match self {
            EvidenceBasis::Uninterpretable => "UNINTERPRETABLE",
            EvidenceBasis::Circumstantial => "CIRCUMSTANTIAL",
            EvidenceBasis::Directional => "DIRECTIONAL",
            EvidenceBasis::Authoritative => "AUTHORITATIVE",
            EvidenceBasis::Decisive => "DECISIVE",
        }
    }

    /// The wire name, as the contracts speak of it.
    pub open spec fn name(self) -> Seq<char> {
        match self {
            EvidenceBasis::Uninterpretable => "UNINTERPRETABLE"@,
            EvidenceBasis::Circumstantial => "CIRCUMSTANTIAL"@,
            EvidenceBasis::Directional => "DIRECTIONAL"@,
            EvidenceBasis::Authoritative => "AUTHORITATIVE"@,
            EvidenceBasis::Decisive => "DECISIVE"@,
        }
    }

    /// The confidence level the basis supports.
    ///
    /// An authoritative record is capped at high confidence, which is the ceiling an
    /// attestation is held to: complete for its claim, and never re-derived here.
    pub fn level(self) -> (level: ConfidenceLevel)
        ensures
            level == self.spec_level(),
    {
        match self {
            EvidenceBasis::Decisive => ConfidenceLevel::Verified,
            EvidenceBasis::Authoritative => ConfidenceLevel::HighConfidence,
            EvidenceBasis::Directional => ConfidenceLevel::MediumConfidence,
            EvidenceBasis::Circumstantial => ConfidenceLevel::LowConfidence,
            EvidenceBasis::Uninterpretable => ConfidenceLevel::Unknown,
        }
    }

    /// The level a basis supports, as the contracts speak of it.
    pub open spec fn spec_level(self) -> ConfidenceLevel {
        match self {
            EvidenceBasis::Decisive => ConfidenceLevel::Verified,
            EvidenceBasis::Authoritative => ConfidenceLevel::HighConfidence,
            EvidenceBasis::Directional => ConfidenceLevel::MediumConfidence,
            EvidenceBasis::Circumstantial => ConfidenceLevel::LowConfidence,
            EvidenceBasis::Uninterpretable => ConfidenceLevel::Unknown,
        }
    }

    /// Whether a record of this basis alone establishes its claim.
    pub fn is_decisive(self) -> (decisive: bool)
        ensures
            decisive == (self == EvidenceBasis::Decisive),
    {
        match self {
            EvidenceBasis::Decisive => true,
            _ => false,
        }
    }

    /// Why the basis is the one it is, in terms of the record's fields.
    pub fn rationale(self) -> (s: &'static str)
        ensures
            s@ == self.spec_rationale(),
    {
        match self {
            EvidenceBasis::Decisive => "the record is deterministically comparable to the claim, so the check either passes or fails and can be repeated",
            EvidenceBasis::Authoritative => "the record is complete for the claim and cannot be re-derived from the Amasario record alone, so it is cited rather than recomputed",
            EvidenceBasis::Directional => "the record is consistent with the claim without establishing it: a mutable revision is a revision, and only a content-addressed one can be checked again",
            EvidenceBasis::Circumstantial => "the record asserts that something was present and nothing more, which is the weakest useful evidence and the honest form of an incomplete observation",
            EvidenceBasis::Uninterpretable => "the record's class is not defined at this specification version, so it is retained and establishes nothing",
        }
    }

    /// The rationale of a basis, as the contracts speak of it.
    pub open spec fn spec_rationale(self) -> Seq<char> {
        match self {
            EvidenceBasis::Decisive => "the record is deterministically comparable to the claim, so the check either passes or fails and can be repeated"@,
            EvidenceBasis::Authoritative => "the record is complete for the claim and cannot be re-derived from the Amasario record alone, so it is cited rather than recomputed"@,
            EvidenceBasis::Directional => "the record is consistent with the claim without establishing it: a mutable revision is a revision, and only a content-addressed one can be checked again"@,
            EvidenceBasis::Circumstantial => "the record asserts that something was present and nothing more, which is the weakest useful evidence and the honest form of an incomplete observation"@,
            EvidenceBasis::Uninterpretable => "the record's class is not defined at this specification version, so it is retained and establishes nothing"@,
        }
    }
}

impl EvidenceBasis {
    /// The basis's position, weakest first, as the contracts speak of it.
    pub open spec fn rank(self) -> nat {
        match self {
            EvidenceBasis::Uninterpretable => 0,
            EvidenceBasis::Circumstantial => 1,
            EvidenceBasis::Directional => 2,
            EvidenceBasis::Authoritative => 3,
            EvidenceBasis::Decisive => 4,
        }
    }

    fn position(self) -> (position: u8)
        ensures
            position == self.rank(),
    {
        match self {
            EvidenceBasis::Uninterpretable => 0,
            EvidenceBasis::Circumstantial => 1,
            EvidenceBasis::Directional => 2,
            EvidenceBasis::Authoritative => 3,
            EvidenceBasis::Decisive => 4,
        }
    }
}

/// The basis a record provides, as the contracts speak of it.
pub open spec fn basis_of(r: EvidenceRecord) -> EvidenceBasis {
    match r.class.kind() {
        None => EvidenceBasis::Uninterpretable,
        Some(EvidenceKind::Source) => {
            let kind = match r.revision_kind {
                Some(k) => k,
                None => if is_commit_identifier(match r.revision { Some(v) => v@, None => Seq::empty() }) {
                    RevisionKind::Commit
                } else {
                    RevisionKind::Branch
                },
            };
            if kind == RevisionKind::Commit { EvidenceBasis::Decisive } else { EvidenceBasis::Directional }
        },
        Some(EvidenceKind::Build) => EvidenceBasis::Authoritative,
        Some(EvidenceKind::Artifact) | Some(EvidenceKind::Wasm) => EvidenceBasis::Decisive,
        Some(EvidenceKind::Deployment) =>
            if r.transaction is Some && r.successful == Some(true) && r.boundary is Some { EvidenceBasis::Decisive } else { EvidenceBasis::Directional },
        Some(EvidenceKind::Transaction) =>
            if r.successful == Some(true) && r.boundary is Some { EvidenceBasis::Decisive } else { EvidenceBasis::Directional },
        Some(EvidenceKind::Event) => EvidenceBasis::Authoritative,
        Some(EvidenceKind::Attestation) => EvidenceBasis::Authoritative,
        Some(EvidenceKind::Observation) => EvidenceBasis::Circumstantial,
    }
}

/// The basis a record provides, derived from its class and its fields.
///
/// Every arm is a statement about checkability: a source record on a commit names one
/// tree and is decisive, while on a branch it names different trees at different times.
pub fn basis_for(record: &EvidenceRecord) -> (basis: EvidenceBasis)
    ensures
        basis == basis_of(*record),
{
    match record.class.recognised() {
        None => EvidenceBasis::Uninterpretable,
        Some(EvidenceKind::Source) => {
            let kind = match record.revision_kind {
                Some(k) => k,
                None => match &record.revision {
                    Some(v) => infer_revision_kind(v.as_str()),
                    None => infer_revision_kind(""),
                },
            };
            proof { reveal_strlit(""); }
            match kind {
                RevisionKind::Commit => EvidenceBasis::Decisive,
                _ => EvidenceBasis::Directional,
            }
        },
        Some(EvidenceKind::Build) => EvidenceBasis::Authoritative,
        Some(EvidenceKind::Artifact) | Some(EvidenceKind::Wasm) => EvidenceBasis::Decisive,
        Some(EvidenceKind::Deployment) => {
            if record.transaction.is_some() && record.successful == Some(true) && record.boundary.is_some() {
                EvidenceBasis::Decisive
            } else {
                EvidenceBasis::Directional
            }
        },
        Some(EvidenceKind::Transaction) => {
            if record.successful == Some(true) && record.boundary.is_some() {
                EvidenceBasis::Decisive
            } else {
                EvidenceBasis::Directional
            }
        },
        Some(EvidenceKind::Event) => EvidenceBasis::Authoritative,
        Some(EvidenceKind::Attestation) => EvidenceBasis::Authoritative,
        Some(EvidenceKind::Observation) => EvidenceBasis::Circumstantial,
    }
}

/// The records a list of references points at.
pub open spec fn values(s: Seq<&EvidenceRecord>) -> Seq<EvidenceRecord> {
    s.map_values(|r: &EvidenceRecord| *r)
}

/// The weakest basis among the first `n` records, or `DECISIVE` when there are none.
pub open spec fn weakest_basis(s: Seq<EvidenceRecord>, n: int) -> EvidenceBasis
    decreases n,
{
    if n <= 0 {
        EvidenceBasis::Decisive
    } else {
        let rest = weakest_basis(s, n - 1);
        let b = basis_of(s[n - 1]);
        if b.rank() < rest.rank() { b } else { rest }
    }
}

/// The level an assessment reports over `supporting`, capped below `VERIFIED` when the
/// claim is contradicted.
pub open spec fn assessed_level(supporting: Seq<EvidenceRecord>, contradicted: bool) -> ConfidenceLevel {
    let level = weakest_basis(supporting, supporting.len() as int).spec_level();
    if contradicted && level.rank() > ConfidenceLevel::HighConfidence.rank() { ConfidenceLevel::HighConfidence } else { level }
}

proof fn lemma_weakest_basis(s: Seq<EvidenceRecord>, n: int)
    requires
        0 <= n <= s.len(),
    ensures
        forall|i: int| 0 <= i < n ==> weakest_basis(s, n).rank() <= #[trigger] basis_of(s[i]).rank(),
        n > 0 ==> exists|i: int| 0 <= i < n && weakest_basis(s, n) == #[trigger] basis_of(s[i]),
    decreases n,
{
    if n > 0 {
        lemma_weakest_basis(s, n - 1);
        if n - 1 > 0 {
            let j = choose|i: int| 0 <= i < n - 1 && weakest_basis(s, n - 1) == #[trigger] basis_of(s[i]);
            assert(0 <= j < n && (weakest_basis(s, n) == basis_of(s[j]) || weakest_basis(s, n) == basis_of(s[n - 1])));
        } else {
            assert(weakest_basis(s, n) == basis_of(s[n - 1]));
        }
    }
}

/// The weakest link bounds the whole: the level assessed over a set of records is never
/// above the level any one of them supports, and, unless a contradiction capped it, it is
/// the level of one of them.
pub proof fn assessment_is_the_weakest_link(supporting: Seq<EvidenceRecord>, contradicted: bool)
    requires
        supporting.len() > 0,
    ensures
        forall|i: int| 0 <= i < supporting.len()
            ==> assessed_level(supporting, contradicted).rank() <= #[trigger] basis_of(supporting[i]).spec_level().rank(),
        !contradicted ==> exists|i: int| 0 <= i < supporting.len()
            && assessed_level(supporting, contradicted) == #[trigger] basis_of(supporting[i]).spec_level(),
{
    lemma_weakest_basis(supporting, supporting.len() as int);
    assert forall|i: int| 0 <= i < supporting.len()
        implies assessed_level(supporting, contradicted).rank() <= #[trigger] basis_of(supporting[i]).spec_level().rank() by {
        assert(weakest_basis(supporting, supporting.len() as int).rank() <= basis_of(supporting[i]).rank());
    }
    if !contradicted {
        let j = choose|i: int| 0 <= i < supporting.len()
            && weakest_basis(supporting, supporting.len() as int) == #[trigger] basis_of(supporting[i]);
        assert(assessed_level(supporting, contradicted) == basis_of(supporting[j]).spec_level());
    }
}

/// A contradicted claim is never reported at the level that means the check passed.
pub proof fn contradiction_never_verifies(supporting: Seq<EvidenceRecord>)
    ensures
        assessed_level(supporting, true) != ConfidenceLevel::Verified,
{
}

/// The identifiers of a list of records, in order.
pub open spec fn ids_of(s: Seq<EvidenceRecord>) -> Seq<Seq<char>> {
    s.map_values(|r: EvidenceRecord| r.id@)
}

/// How strongly a set of records supports a claim, with the records cited.
#[derive(Debug, Clone)]
pub struct Confidence {
    /// The level the records support.
    pub level: ConfidenceLevel,
    /// The identifiers of the supporting records, in the order given.
    pub evidence: Vec<String>,
    /// The identifiers of the records in declared conflict, in the order given.
    pub contradicting_evidence: Vec<String>,
    /// Why the level is the one it is.
    pub rationale: Option<String>,
}

impl Confidence {
    /// Whether any record in the set is in declared conflict.
    pub fn is_contradicted(&self) -> (contradicted: bool)
        ensures
            contradicted == (self.contradicting_evidence@.len() > 0),
    {
        self.contradicting_evidence.len() > 0
    }
}

/// The rationale of an assessment over `n` records whose weakest basis is `weakest`.
pub open spec fn weakest_link_rationale(n: nat, weakest: EvidenceBasis) -> Seq<char> {
    "minimum ordinal across "@ + decimal_of(n) + " evidence record(s), as taxonomies/confidence-levels.yaml requires; the weakest is "@
        + weakest.spec_level().name() + ": "@ + weakest.spec_rationale()
}

/// The sentence added when a contradiction caps the level at `capped`.
pub open spec fn capped_rationale(capped: ConfidenceLevel, m: nat) -> Seq<char> {
    "; capped at "@ + capped.name() + " because "@ + decimal_of(m)
        + " record(s) declare a contradiction, and a contradicted claim must never be reported at the level that means the check passed"@
}

fn ids(records: &[&EvidenceRecord]) -> (ids: Vec<String>)
    ensures
        ids@.map_values(|s: String| s@) == ids_of(values(records@)),
{
    let mut out: Vec<String> = Vec::new();
    for i in 0..records.len()
        invariant
            out@.map_values(|s: String| s@) == ids_of(values(records@)).take(i as int),
    {
        let ghost prior = out@;
        out.push(records[i].id.clone());
        proof {
            assert(out@.map_values(|s: String| s@) =~= prior.map_values(|s: String| s@).push(records@[i as int].id@));
            assert(ids_of(values(records@)).take(i + 1) =~= ids_of(values(records@)).take(i as int).push(records@[i as int].id@));
        }
    }
    proof { assert(ids_of(values(records@)).take(records@.len() as int) =~= ids_of(values(records@))); }
    out
}

/// Assesses the confidence a set of supporting records supports.
///
/// The level is the weakest of the records' levels; when any record is in declared
/// conflict it is capped below `VERIFIED`, and the lowering is explained. Refused over no
/// records at all: confidence never replaces evidence.
pub fn assess(supporting: &[&EvidenceRecord], contradicting: &[&EvidenceRecord]) -> (result: Result<Confidence, EngineError>)
    ensures
        supporting@.len() == 0 <==> result is Err,
        result matches Err(e) ==> e.spec_message() == (EvidenceFailureView::NoSupportingEvidence {
            claim: "the claim being assessed"@, required: "at least one evidence record"@ }).sentence(),
        result matches Ok(c) ==> {
            let weakest = weakest_basis(values(supporting@), supporting@.len() as int);
            let level = weakest.spec_level();
            let capped = assessed_level(values(supporting@), contradicting@.len() > 0);
            &&& c.level == capped
            &&& c.evidence@.map_values(|s: String| s@) == ids_of(values(supporting@))
            &&& c.contradicting_evidence@.map_values(|s: String| s@) == ids_of(values(contradicting@))
            &&& c.rationale matches Some(text) && text@ == weakest_link_rationale(supporting@.len(), weakest)
                + (if capped != level { capped_rationale(capped, contradicting@.len()) } else { Seq::empty() })
        },
{
    if supporting.len() == 0 {
        let failure = EvidenceFailure::NoSupportingEvidence {
            claim: String::from_str("the claim being assessed"),
            required: String::from_str("at least one evidence record"),
        };
        proof {
            reveal_strlit("the claim being assessed");
            reveal_strlit("at least one evidence record");
        }
        return Err(failure.into_error());
    }
    let mut weakest = EvidenceBasis::Decisive;
    for i in 0..supporting.len()
        invariant
            weakest == weakest_basis(values(supporting@), i as int),
    {
        let b = basis_for(supporting[i]);
        proof { assert(values(supporting@)[i as int] == *supporting@[i as int]); }
        if b.position() < weakest.position() {
            weakest = b;
        }
    }
    let level = weakest.level();
    let mut rationale = String::new();
    rationale.append("minimum ordinal across ");
    proof { assert(rationale@ =~= "minimum ordinal across "@); }
    let count = decimal(supporting.len());
    rationale.append(count.as_str());
    rationale.append(" evidence record(s), as taxonomies/confidence-levels.yaml requires; the weakest is ");
    rationale.append(level.as_str());
    rationale.append(": ");
    rationale.append(weakest.rationale());
    let ghost base = rationale@;
    let mut capped = level;
    if contradicting.len() > 0 {
        capped = level.weakest(ConfidenceLevel::HighConfidence);
        if capped != level {
            rationale.append("; capped at ");
            rationale.append(capped.as_str());
            rationale.append(" because ");
            let m = decimal(contradicting.len());
            rationale.append(m.as_str());
            rationale.append(" record(s) declare a contradiction, and a contradicted claim must never be reported at the level that means the check passed");
        }
    }
    proof {
        if capped == level {
            assert(rationale@ =~= base + Seq::<char>::empty());
        }
    }
    Ok(Confidence {
        level: capped,
        evidence: ids(supporting),
        contradicting_evidence: ids(contradicting),
        rationale: Some(rationale),
    })
}

/// What the evidence says about a claim.
#[derive(Debug, Clone, Copy, PartialEq, Eq, Structural)]
pub enum VerificationStatus {
    /// Every required class is present with at least one decisive record.
    Verified,
    /// Some components were checked and some were not, or none decisively.
    PartiallyVerified,
    /// No supporting record: no statement about whether the claim is true.
    Unverified,
    /// Records in the set declare a contradiction.
    Conflicting,
    /// Nothing but records this version cannot interpret.
    Unknown,
}

impl VerificationStatus {
    /// The wire name, as the contracts speak of it.
    pub open spec fn name(self) -> Seq<char> {
        match self {
            VerificationStatus::Verified => "VERIFIED"@,
            VerificationStatus::PartiallyVerified => "PARTIALLY_VERIFIED"@,
            VerificationStatus::Unverified => "UNVERIFIED"@,
            VerificationStatus::Conflicting => "CONFLICTING"@,
            VerificationStatus::Unknown => "UNKNOWN"@,
        }
    }

    /// The stable wire name.
    pub fn as_str(self) -> (s: &'static str)
        ensures
            s@ == self.name(),
    {
        match self {
            VerificationStatus::Verified => "VERIFIED",
            VerificationStatus::PartiallyVerified => "PARTIALLY_VERIFIED",
            VerificationStatus::Unverified => "UNVERIFIED",
            VerificationStatus::Conflicting => "CONFLICTING",
            VerificationStatus::Unknown => "UNKNOWN",
        }
    }

    /// Whether the status affirms the claim, fully or in part.
    pub fn is_affirmation(self) -> (affirms: bool)
        ensures
            affirms == (self == VerificationStatus::Verified || self == VerificationStatus::PartiallyVerified),
    {
        match self {
            VerificationStatus::Verified | VerificationStatus::PartiallyVerified => true,
            _ => false,
        }
    }

    /// Whether the status says nothing either way about the claim.
    pub fn is_inconclusive(self) -> (inconclusive: bool)
        ensures
            inconclusive == (self == VerificationStatus::Unverified || self == VerificationStatus::Unknown),
    {
        match self {
            VerificationStatus::Unverified | VerificationStatus::Unknown => true,
            _ => false,
        }
    }
}

/// Every record of `s` is uninterpretable.
pub open spec fn all_uninterpretable(s: Seq<EvidenceRecord>) -> bool {
    forall|i: int| 0 <= i < s.len() ==> basis_of(#[trigger] s[i]) == EvidenceBasis::Uninterpretable
}

/// Some record of `s` is decisive.
pub open spec fn any_decisive(s: Seq<EvidenceRecord>) -> bool {
    exists|i: int| 0 <= i < s.len() && basis_of(#[trigger] s[i]) == EvidenceBasis::Decisive
}

/// The verification status a set of records supports, as the contracts speak of it.
pub open spec fn status_of(supporting: Seq<EvidenceRecord>, contradicted: bool, missing_required: nat) -> VerificationStatus {
    if contradicted {
        VerificationStatus::Conflicting
    } else if supporting.len() == 0 {
        VerificationStatus::Unverified
    } else if all_uninterpretable(supporting) {
        VerificationStatus::Unknown
    } else if missing_required > 0 {
        VerificationStatus::PartiallyVerified
    } else if any_decisive(supporting) {
        VerificationStatus::Verified
    } else {
        VerificationStatus::PartiallyVerified
    }
}

/// A declared contradiction takes precedence over every other status: whatever else the
/// records say, a contradicted claim is `CONFLICTING` and never `VERIFIED`.
pub proof fn contradiction_takes_precedence(supporting: Seq<EvidenceRecord>, missing_required: nat)
    ensures
        status_of(supporting, true, missing_required) == VerificationStatus::Conflicting,
        status_of(supporting, true, missing_required) != VerificationStatus::Verified,
{
}

/// The verification status a set of records supports for a claim.
///
/// A declared contradiction takes precedence over everything; no supporting record is
/// `UNVERIFIED`; nothing but uninterpretable records is `UNKNOWN`; a required class
/// missing, or no decisive record, is `PARTIALLY_VERIFIED`; otherwise `VERIFIED`.
pub fn status_for(supporting: &[&EvidenceRecord], contradicting: &[&EvidenceRecord], missing_required: usize) -> (status: VerificationStatus)
    ensures
        status == status_of(values(supporting@), contradicting@.len() > 0, missing_required as nat),
{
    if contradicting.len() > 0 {
        return VerificationStatus::Conflicting;
    }
    if supporting.len() == 0 {
        return VerificationStatus::Unverified;
    }
    let mut all_foreign = true;
    let mut decisive = false;
    for i in 0..supporting.len()
        invariant
            all_foreign == forall|j: int| 0 <= j < i ==> basis_of(#[trigger] values(supporting@)[j]) == EvidenceBasis::Uninterpretable,
            decisive == exists|j: int| 0 <= j < i && basis_of(#[trigger] values(supporting@)[j]) == EvidenceBasis::Decisive,
    {
        let b = basis_for(supporting[i]);
        proof { assert(values(supporting@)[i as int] == *supporting@[i as int]); }
        if b != EvidenceBasis::Uninterpretable {
            all_foreign = false;
        }
        if b == EvidenceBasis::Decisive {
            decisive = true;
        }
    }
    if all_foreign {
        return VerificationStatus::Unknown;
    }
    if missing_required > 0 {
        return VerificationStatus::PartiallyVerified;
    }
    if decisive {
        VerificationStatus::Verified
    } else {
        VerificationStatus::PartiallyVerified
    }
}

} // verus!
