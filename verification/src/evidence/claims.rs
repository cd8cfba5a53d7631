//! Claims, and what the collected evidence says about each.
//!
//! A claim names the evidence classes it needs. Evaluating it gathers the records that
//! support it, names the classes that went unchecked, finds the records in declared
//! conflict, and reports a verification status and a confidence that rest on exactly
//! those records.

use vstd::prelude::*;

use crate::error::EngineError;
use crate::evidence::collector::{EvidenceRecord, EvidenceRegistry, declares_support, registry_ordered, record_values, settle, settled};
use crate::evidence::confidence::{
    Confidence, ConfidenceLevel, EvidenceBasis, VerificationStatus, assess, basis_for, basis_of, capped_rationale,
    ids_of, status_for, status_of, values, weakest_basis, weakest_link_rationale,
};
use crate::evidence::errors::{EvidenceFailure, EvidenceFailureView};
use crate::evidence::kind::{EvidenceClass, EvidenceKind};
use crate::graph::edges::Citation;
use crate::text::{decimal, decimal_of, str_equals};

verus! {

/// The shortest a claim's statement may be before it stops being one.
pub const MINIMUM_STATEMENT_LENGTH: usize = 8;

/// A claim to be checked against the collected evidence.
#[derive(Debug, Clone)]
pub struct Claim {
    /// The claim's identifier, which records cite in their `supports`.
    pub id: String,
    /// The claim, stated as a sentence.
    pub statement: String,
    /// The evidence classes the claim needs, each checking one of its components.
    pub required_classes: Vec<EvidenceKind>,
}

impl Claim {
    /// Builds a claim.
    ///
    /// Refused when the statement is too short to be one, or when the claim needs no
    /// evidence at all: a claim nothing could check is an assertion.
    pub fn new(id: String, statement: String, required_classes: Vec<EvidenceKind>) -> (result: Result<Claim, EngineError>)
        ensures
            statement@.len() < MINIMUM_STATEMENT_LENGTH ==> (result matches Err(e) && e.spec_message()
                == (EvidenceFailureView::ClaimNotStated { evidence: id@, length: statement@.len() as usize }).sentence()),
            statement@.len() >= MINIMUM_STATEMENT_LENGTH && required_classes@.len() == 0 ==> (result matches Err(e) && e.spec_message()
                == (EvidenceFailureView::NoSupportingEvidence { claim: id@, required: "at least one evidence class"@ }).sentence()),
            statement@.len() >= MINIMUM_STATEMENT_LENGTH && required_classes@.len() > 0 ==> (result matches Ok(c)
                && c.id == id && c.statement == statement && c.required_classes == required_classes),
    {
        let length = statement.as_str().unicode_len();
        if length < MINIMUM_STATEMENT_LENGTH {
            return Err(EvidenceFailure::ClaimNotStated { evidence: id, length }.into_error());
        }
        if required_classes.len() == 0 {
            proof { reveal_strlit("at least one evidence class"); }
            return Err(EvidenceFailure::NoSupportingEvidence {
                claim: id,
                required: String::from_str("at least one evidence class"),
            }.into_error());
        }
        Ok(Claim { id, statement, required_classes })
    }
}

/// The record is evidence for the claim: it declares support for the claim, or it
/// declares support for nothing and is of a class the claim needs.
pub open spec fn evidence_for(r: EvidenceRecord, claim: Claim) -> bool {
    ||| declares_support(r, claim.id@)
    ||| (r.supports@.len() == 0 && exists|k: int| 0 <= k < claim.required_classes@.len() && r.class.kind() == Some(#[trigger] claim.required_classes@[k]))
}

/// The records of `s` that are evidence for the claim, in order.
pub open spec fn supporting_of(s: Seq<EvidenceRecord>, claim: Claim) -> Seq<EvidenceRecord> {
    s.filter(|r: EvidenceRecord| evidence_for(r, claim))
}

/// Some record of `s` cites `id` as contradicted.
pub open spec fn cited_as_contradicted(s: Seq<EvidenceRecord>, id: Seq<char>) -> bool {
    exists|i: int, j: int| 0 <= i < s.len() && 0 <= j < s[i].contradicts@.len() && (#[trigger] s[i].contradicts@[j])@ == id
}

/// The record is in declared conflict within `s`: it declares a contradiction, whether
/// or not the other side is present, or some record declares one with it.
pub open spec fn in_conflict(s: Seq<EvidenceRecord>, r: EvidenceRecord) -> bool {
    r.contradicts@.len() > 0 || cited_as_contradicted(s, r.id@)
}

/// The classes of `needed` that no record of `supporting` belongs to, in order.
pub open spec fn missing_classes(needed: Seq<EvidenceKind>, supporting: Seq<EvidenceRecord>) -> Seq<EvidenceKind> {
    needed.filter(|k: EvidenceKind| forall|i: int| 0 <= i < supporting.len() ==> (#[trigger] supporting[i]).class.kind() != Some(k))
}

/// The names of some classes, joined by `separator`.
pub open spec fn joined(names: Seq<EvidenceKind>, separator: Seq<char>) -> Seq<char>
    decreases names.len(),
{
    if names.len() == 0 {
        Seq::empty()
    } else if names.len() == 1 {
        names[0].name()
    } else {
        joined(names.drop_last(), separator) + separator + names.last().name()
    }
}

/// The strongest basis among the first `n` records, or `UNINTERPRETABLE` when there are none.
pub open spec fn strongest_basis(s: Seq<EvidenceRecord>, n: int) -> EvidenceBasis
    decreases n,
{
    if n <= 0 {
        EvidenceBasis::Uninterpretable
    } else {
        let rest = strongest_basis(s, n - 1);
        let b = basis_of(s[n - 1]);
        if b.rank() > rest.rank() { b } else { rest }
    }
}

/// The citations of a list of records, in order.
pub open spec fn references_of(s: Seq<EvidenceRecord>) -> Seq<(EvidenceKind, Seq<char>)> {
    s.map_values(|r: EvidenceRecord| r.spec_reference())
}

/// What a list of citations cites, in order.
pub open spec fn citation_views(s: Seq<Citation>) -> Seq<(EvidenceKind, Seq<char>)> {
    s.map_values(|c: Citation| (c.kind, c.id@))
}

/// The rationale of an evaluation.
pub open spec fn evaluation_rationale(required: nat, missing: Seq<EvidenceKind>, supporting: nat, conflicted: nat) -> Seq<char> {
    decimal_of((required - missing.len()) as nat) + " of "@ + decimal_of(required) + " required class(es) were present across "@
        + decimal_of(supporting) + " record(s), and "@ + decimal_of(conflicted) + " record(s) were found in declared conflict"@
        + if missing.len() > 0 { "; the claim's components that went unchecked are "@ + joined(missing, ", "@) } else { Seq::empty() }
}

/// `c` is the confidence [`assess`] reports for these records.
pub open spec fn assessed(c: Confidence, supporting: Seq<EvidenceRecord>, contradicting: Seq<EvidenceRecord>) -> bool {
    let weakest = weakest_basis(supporting, supporting.len() as int);
    let level = weakest.spec_level();
    let capped = if contradicting.len() > 0 && level.rank() > ConfidenceLevel::HighConfidence.rank() { ConfidenceLevel::HighConfidence } else { level };
    &&& c.level == capped
    &&& c.evidence@.map_values(|s: String| s@) == ids_of(supporting)
    &&& c.contradicting_evidence@.map_values(|s: String| s@) == ids_of(contradicting)
    &&& c.rationale matches Some(text) && text@ == weakest_link_rationale(supporting.len(), weakest)
        + (if capped != level { capped_rationale(capped, contradicting.len()) } else { Seq::empty() })
}

/// What the evidence says about one claim.
#[derive(Debug, Clone)]
pub struct Evaluation {
    /// The claim's identifier.
    pub id: String,
    /// The claim as stated.
    pub statement: String,
    /// What the evidence says about the claim.
    pub verification: VerificationStatus,
    /// How strongly the evidence supports it.
    pub confidence: Confidence,
    /// The records the claim rests on.
    pub supporting: Vec<Citation>,
    /// The supporting records in declared conflict.
    pub contradicting: Vec<Citation>,
    /// The required classes no record covered.
    pub missing: Vec<EvidenceClass>,
    /// The strongest basis among the supporting records.
    pub strongest_basis: Option<&'static str>,
    /// Why the evaluation is what it is.
    pub rationale: String,
}

/// The kinds a list of classes names, in order; an unrecognised class names none.
pub open spec fn class_kinds(s: Seq<EvidenceClass>) -> Seq<Option<EvidenceKind>> {
    s.map_values(|c: EvidenceClass| c.kind())
}

/// The names of some classes, joined by `separator`.
pub open spec fn joined_classes(names: Seq<EvidenceClass>, separator: Seq<char>) -> Seq<char>
    decreases names.len(),
{
    if names.len() == 0 {
        Seq::empty()
    } else if names.len() == 1 {
        names[0].name()
    } else {
        joined_classes(names.drop_last(), separator) + separator + names.last().name()
    }
}

impl Evaluation {
    /// Whether every required class was covered.
    pub fn is_complete(&self) -> (complete: bool)
        ensures
            complete == (self.missing@.len() == 0),
    {
        self.missing.len() == 0
    }

    /// Whether the claim is verified.
    pub fn is_established(&self) -> (established: bool)
        ensures
            established == (self.verification == VerificationStatus::Verified),
    {
        self.verification == VerificationStatus::Verified
    }

    /// Whether the evidence is in declared conflict.
    pub fn is_contradicted(&self) -> (contradicted: bool)
        ensures
            contradicted == (self.verification == VerificationStatus::Conflicting),
    {
        self.verification == VerificationStatus::Conflicting
    }

    /// Whether the evidence says nothing either way.
    pub fn is_inconclusive(&self) -> (inconclusive: bool)
        ensures
            inconclusive == (self.verification == VerificationStatus::Unverified || self.verification == VerificationStatus::Unknown),
    {
        self.verification.is_inconclusive()
    }

    /// One line for a report: `id: STATUS at LEVEL`, and the missing classes if any.
    pub fn render(&self) -> (line: String)
        ensures
            line@ == self.id@ + ": "@ + self.verification.name() + " at "@ + self.confidence.level.name()
                + if self.missing@.len() > 0 { ", missing "@ + joined_classes(self.missing@, "+"@) } else { Seq::empty() },
    {
        let mut line = self.id.clone();
        line.append(": ");
        line.append(self.verification.as_str());
        line.append(" at ");
        line.append(self.confidence.level.as_str());
        let ghost head = line@;
        if self.missing.len() > 0 {
            line.append(", missing ");
            let names = join_classes(&self.missing, "+");
            line.append(names.as_str());
        } else {
            proof { assert(line@ =~= head + Seq::<char>::empty()); }
        }
        line
    }
}

fn join_classes(classes: &Vec<EvidenceClass>, separator: &str) -> (text: String)
    ensures
        text@ == joined_classes(classes@, separator@),
{
    let mut text = String::new();
    for i in 0..classes.len()
        invariant
            text@ == joined_classes(classes@.take(i as int), separator@),
    {
        proof {
            assert(classes@.take(i + 1).drop_last() =~= classes@.take(i as int));
        }
        if i > 0 {
            text.append(separator);
        }
        text.append(classes[i].as_str());
        proof {
            if i == 0 {
                assert(text@ =~= classes@.take(1)[0].name());
            }
        }
    }
    proof { assert(classes@.take(classes@.len() as int) =~= classes@); }
    text
}

fn join_kinds(kinds: &Vec<EvidenceKind>, separator: &str) -> (text: String)
    ensures
        text@ == joined(kinds@, separator@),
{
    let mut text = String::new();
    for i in 0..kinds.len()
        invariant
            text@ == joined(kinds@.take(i as int), separator@),
    {
        proof {
            assert(kinds@.take(i + 1).drop_last() =~= kinds@.take(i as int));
        }
        if i > 0 {
            text.append(separator);
        }
        text.append(kinds[i].as_str());
        proof {
            if i == 0 {
                assert(text@ =~= kinds@.take(1)[0].name());
            }
        }
    }
    proof { assert(kinds@.take(kinds@.len() as int) =~= kinds@); }
    text
}

fn needs_kind(required: &Vec<EvidenceKind>, kind: Option<EvidenceKind>) -> (found: bool)
    ensures
        found == exists|k: int| 0 <= k < required@.len() && kind == Some(#[trigger] required@[k]),
{
    for k in 0..required.len()
        invariant
            forall|j: int| 0 <= j < k ==> kind != Some(#[trigger] required@[j]),
    {
        if kind == Some(required[k]) {
            return true;
        }
    }
    false
}

fn cited_by_any(records: &[EvidenceRecord], id: &str) -> (cited: bool)
    ensures
        cited == cited_as_contradicted(records@, id@),
{
    for i in 0..records.len()
        invariant
            forall|a: int, b: int| 0 <= a < i && 0 <= b < records@[a].contradicts@.len() ==> (#[trigger] records@[a].contradicts@[b])@ != id@,
    {
        let record = &records[i];
        for j in 0..record.contradicts.len()
            invariant
                i < records@.len(),
                *record == records@[i as int],
                forall|a: int, b: int| 0 <= a < i && 0 <= b < records@[a].contradicts@.len() ==> (#[trigger] records@[a].contradicts@[b])@ != id@,
                forall|b: int| 0 <= b < j ==> (#[trigger] record.contradicts@[b])@ != id@,
        {
            if str_equals(record.contradicts[j].as_str(), id) {
                proof { assert(records@[i as int].contradicts@[j as int]@ == id@); }
                return true;
            }
        }
    }
    false
}

fn citations(records: &Vec<&EvidenceRecord>) -> (citations: Vec<Citation>)
    ensures
        citation_views(citations@) == references_of(record_values(records@)),
{
    let mut out: Vec<Citation> = Vec::new();
    for i in 0..records.len()
        invariant
            citation_views(out@) == references_of(record_values(records@)).take(i as int),
    {
        let ghost prior = out@;
        let c = records[i].reference();
        out.push(c);
        proof {
            assert(citation_views(out@) =~= citation_views(prior).push((c.kind, c.id@)));
            assert(references_of(record_values(records@)).take(i + 1) =~= references_of(record_values(records@)).take(i as int).push(records@[i as int].spec_reference()));
        }
    }
    proof { assert(references_of(record_values(records@)).take(records@.len() as int) =~= references_of(record_values(records@))); }
    out
}

/// The failure a claim that no record supports is refused with.
pub open spec fn unsupported_claim(claim: Claim) -> Seq<char> {
    (EvidenceFailureView::NoSupportingEvidence { claim: claim.id@, required: joined(claim.required_classes@, ", "@) }).sentence()
}

/// `ev` is the evaluation of `claim` against the records of `registry`.
pub open spec fn evaluates(claim: Claim, registry: Seq<EvidenceRecord>, ev: Evaluation) -> bool {
    let supporting = supporting_of(registry, claim);
    let conflicted = supporting.filter(|r: EvidenceRecord| in_conflict(registry, r));
    let missing = missing_classes(claim.required_classes@, supporting);
    &&& ev.id == claim.id
    &&& ev.statement == claim.statement
    &&& ev.verification == status_of(supporting, conflicted.len() > 0, missing.len())
    &&& assessed(ev.confidence, supporting, conflicted)
    &&& citation_views(ev.supporting@) == references_of(supporting)
    &&& citation_views(ev.contradicting@) == references_of(conflicted)
    &&& class_kinds(ev.missing@) == missing.map_values(|k: EvidenceKind| Some(k))
    &&& ev.strongest_basis matches Some(b) && b@ == strongest_basis(supporting, supporting.len() as int).name()
    &&& ev.rationale@ == evaluation_rationale(claim.required_classes@.len(), missing, supporting.len(), conflicted.len())
}

/// Evaluates a claim against the collected evidence.
///
/// The supporting records are those declaring support for the claim and those that
/// declare support for nothing and are of a class the claim needs, in canonical
/// order. Refused when there are none: a claim verified by nothing would be the one
/// output the engine must never produce.
pub fn evaluate(claim: &Claim, registry: &EvidenceRegistry) -> (result: Result<Evaluation, EngineError>)
    ensures
        result is Err <==> supporting_of(registry@, *claim).len() == 0,
        result matches Err(e) ==> e.spec_message() == unsupported_claim(*claim),
        result matches Ok(ev) ==> evaluates(*claim, registry@, ev),
{
    let records = registry.records();
    let ghost all = registry@;
    let mut supporting: Vec<&EvidenceRecord> = Vec::new();
    for i in 0..records.len()
        invariant
            records@ == all,
            record_values(supporting@) == supporting_of(all.take(i as int), *claim),
    {
        let record = &records[i];
        let ghost prior = supporting@;
        let declared = crate::evidence::collector::contains_text(&record.supports, claim.id.as_str());
        let wanted = declared || (record.supports.len() == 0 && needs_kind(&claim.required_classes, record.class.recognised()));
        if wanted {
            supporting.push(record);
            proof { assert(record_values(supporting@) =~= record_values(prior).push(*record)); }
        }
        proof {
            assert(all.take(i + 1).drop_last() =~= all.take(i as int));
            reveal(Seq::filter);
            assert(record_values(supporting@) =~= supporting_of(all.take(i + 1), *claim));
        }
    }
    proof { assert(all.take(all.len() as int) =~= all); }
    let ghost sup = record_values(supporting@);

    if supporting.len() == 0 {
        let required = join_kinds(&claim.required_classes, ", ");
        proof { reveal_strlit(", "); }
        return Err(EvidenceFailure::NoSupportingEvidence { claim: claim.id.clone(), required }.into_error());
    }

    let mut missing: Vec<EvidenceClass> = Vec::new();
    let mut kinds: Vec<EvidenceKind> = Vec::new();
    let mut missing_count: usize = 0;
    for k in 0..claim.required_classes.len()
        invariant
            sup == record_values(supporting@),
            missing_count == missing@.len(),
            kinds@ == missing_classes(claim.required_classes@.take(k as int), sup),
            class_kinds(missing@) == kinds@.map_values(|x: EvidenceKind| Some(x)),
            missing_count <= k,
    {
        let required = claim.required_classes[k];
        let mut covered = false;
        for i in 0..supporting.len()
            invariant
                sup == record_values(supporting@),
                covered == exists|j: int| 0 <= j < i && (#[trigger] sup[j]).class.kind() == Some(required),
        {
            proof { assert(sup[i as int] == *supporting@[i as int]); }
            if supporting[i].class.recognised() == Some(required) {
                covered = true;
            }
        }
        let ghost prior = missing@;
        let ghost prior_kinds = kinds@;
        if !covered {
            missing.push(EvidenceClass::Recognised(required));
            kinds.push(required);
            missing_count = missing_count + 1;
            proof {
                assert(class_kinds(missing@) =~= class_kinds(prior).push(Some(required)));
                assert(kinds@.map_values(|x: EvidenceKind| Some(x)) =~= prior_kinds.map_values(|x: EvidenceKind| Some(x)).push(Some(required)));
            }
        }
        proof {
            assert(claim.required_classes@.take(k + 1).drop_last() =~= claim.required_classes@.take(k as int));
            assert(claim.required_classes@.take(k + 1).last() == required);
            reveal(Seq::filter);
            assert(kinds@ =~= missing_classes(claim.required_classes@.take(k + 1), sup));
        }
    }
    proof {
        assert(claim.required_classes@.take(claim.required_classes@.len() as int) =~= claim.required_classes@);
        assert(class_kinds(missing@).len() == missing@.len());
    }

    let mut conflicted: Vec<&EvidenceRecord> = Vec::new();
    for i in 0..supporting.len()
        invariant
            records@ == all,
            sup == record_values(supporting@),
            record_values(conflicted@) == sup.take(i as int).filter(|r: EvidenceRecord| in_conflict(all, r)),
    {
        let record = supporting[i];
        let ghost prior = conflicted@;
        if record.contradicts.len() > 0 || cited_by_any(records, record.id.as_str()) {
            conflicted.push(record);
            proof { assert(record_values(conflicted@) =~= record_values(prior).push(*record)); }
        }
        proof {
            assert(sup[i as int] == *record);
            assert(sup.take(i + 1).drop_last() =~= sup.take(i as int));
            reveal(Seq::filter);
            assert(record_values(conflicted@) =~= sup.take(i + 1).filter(|r: EvidenceRecord| in_conflict(all, r)));
        }
    }
    proof { assert(sup.take(sup.len() as int) =~= sup); }
    let ghost con = record_values(conflicted@);

    let verification = status_for(supporting.as_slice(), conflicted.as_slice(), missing_count);
    let confidence = match assess(supporting.as_slice(), conflicted.as_slice()) {
        Ok(c) => c,
        Err(e) => { return Err(e); },
    };

    let mut strongest = EvidenceBasis::Uninterpretable;
    for i in 0..supporting.len()
        invariant
            sup == record_values(supporting@),
            strongest == strongest_basis(sup, i as int),
    {
        let b = basis_for(supporting[i]);
        if basis_rank(b) > basis_rank(strongest) {
            strongest = b;
        }
    }

    let mut rationale = decimal(claim.required_classes.len() - missing_count);
    rationale.append(" of ");
    let required_count = decimal(claim.required_classes.len());
    rationale.append(required_count.as_str());
    rationale.append(" required class(es) were present across ");
    let supporting_count = decimal(supporting.len());
    rationale.append(supporting_count.as_str());
    rationale.append(" record(s), and ");
    let conflicted_count = decimal(conflicted.len());
    rationale.append(conflicted_count.as_str());
    rationale.append(" record(s) were found in declared conflict");
    let ghost head = rationale@;
    if missing_count > 0 {
        rationale.append("; the claim's components that went unchecked are ");
        let names = join_kinds(&kinds, ", ");
        rationale.append(names.as_str());
    } else {
        proof { assert(rationale@ =~= head + Seq::<char>::empty()); }
    }
    proof {
        reveal_strlit(", ");
    }

    let supporting_refs = citations(&supporting);
    let conflicted_refs = citations(&conflicted);
    let evaluation = Evaluation {
        id: claim.id.clone(),
        statement: claim.statement.clone(),
        verification,
        confidence,
        supporting: supporting_refs,
        contradicting: conflicted_refs,
        missing,
        strongest_basis: Some(strongest.as_str()),
        rationale,
    };
    proof {
        let supp = supporting_of(registry@, *claim);
        let conf = supp.filter(|r: EvidenceRecord| in_conflict(registry@, r));
        let miss = missing_classes(claim.required_classes@, supp);
        assert(citation_views(evaluation.supporting@) =~= references_of(supp));
        assert(citation_views(evaluation.contradicting@) =~= references_of(conf));
        assert(class_kinds(evaluation.missing@) =~= miss.map_values(|k: EvidenceKind| Some(k)));
        assert(evaluation.rationale@ =~= evaluation_rationale(claim.required_classes@.len(), miss, supp.len(), conf.len()));
    }
    Ok(evaluation)
}

fn basis_rank(b: EvidenceBasis) -> (rank: u8)
    ensures
        rank == b.rank(),
{
    match b {
        EvidenceBasis::Uninterpretable => 0,
        EvidenceBasis::Circumstantial => 1,
        EvidenceBasis::Directional => 2,
        EvidenceBasis::Authoritative => 3,
        EvidenceBasis::Decisive => 4,
    }
}

/// Evaluates every claim in order, failing at the first that cannot be evaluated.
pub fn evaluate_all(claims: &Vec<Claim>, registry: &EvidenceRegistry) -> (result: Result<Vec<Evaluation>, EngineError>)
    ensures
        result is Ok <==> forall|i: int| 0 <= i < claims@.len()
            ==> (#[trigger] supporting_of(registry@, claims@[i])).len() > 0,
        result matches Ok(evaluations) ==> evaluations@.len() == claims@.len()
            && forall|i: int| 0 <= i < claims@.len() ==> #[trigger] evaluates(claims@[i], registry@, evaluations@[i]),
        result matches Err(e) ==> exists|i: int| 0 <= i < claims@.len()
            && (#[trigger] supporting_of(registry@, claims@[i])).len() == 0
            && (forall|j: int| 0 <= j < i ==> (#[trigger] supporting_of(registry@, claims@[j])).len() > 0)
            && e.spec_message() == unsupported_claim(claims@[i]),
{
    let mut evaluations: Vec<Evaluation> = Vec::new();
    for i in 0..claims.len()
        invariant
            evaluations@.len() == i,
            forall|j: int| 0 <= j < i ==> (#[trigger] supporting_of(registry@, claims@[j])).len() > 0,
            forall|j: int| 0 <= j < i ==> #[trigger] evaluates(claims@[j], registry@, evaluations@[j]),
    {
        match evaluate(&claims[i], registry) {
            Ok(e) => {
                let ghost prior = evaluations@;
                evaluations.push(e);
                proof {
                    assert forall|j: int| 0 <= j < i + 1 implies #[trigger] evaluates(claims@[j], registry@, evaluations@[j]) by {
                        if j < i { assert(evaluations@[j] == prior[j]); }
                    }
                }
            },
            Err(e) => {
                return Err(e);
            },
        }
    }
    Ok(evaluations)
}

/// What happened to an attestation's signature.
#[derive(Debug, Clone, Copy, PartialEq, Eq, Structural)]
pub enum SignatureState {
    /// The signature was checked and holds.
    Verified,
    /// A signature is present and was not checked.
    PresentUnverified,
    /// The signature was checked and does not hold.
    Invalid,
    /// No signature accompanies the attestation.
    Absent,
}

impl SignatureState {
    /// The wire name, as the contracts speak of it.
    pub open spec fn name(self) -> Seq<char> {
        match self {
            SignatureState::Verified => "VERIFIED"@,
            SignatureState::PresentUnverified => "PRESENT_UNVERIFIED"@,
            SignatureState::Invalid => "INVALID"@,
            SignatureState::Absent => "ABSENT"@,
        }
    }

    /// The stable wire name.
    pub fn as_str(self) -> (s: &'static str)
        ensures
            s@ == self.name(),
    {
        match self {
            SignatureState::Verified => "VERIFIED",
            SignatureState::PresentUnverified => "PRESENT_UNVERIFIED",
            SignatureState::Invalid => "INVALID",
            SignatureState::Absent => "ABSENT",
        }
    }
}

/// A third party's statement about an artifact.
#[derive(Debug, Clone)]
pub struct Attestation {
    /// The attestation's identifier.
    pub id: String,
    /// Who issued it.
    pub issuer: String,
    /// The claim it states, exactly.
    pub claim: String,
    /// What happened to its signature.
    pub signature: SignatureState,
}

impl Attestation {
    /// Whether the attestation can be cited as evidence: only with a verified signature.
    pub fn can_be_cited(&self) -> (citable: bool)
        ensures
            citable == (self.signature == SignatureState::Verified),
    {
        self.signature == SignatureState::Verified
    }
}

/// The record [`from_attestation`] builds for a citable attestation.
pub open spec fn attestation_record(r: EvidenceRecord, a: Attestation, id: String, observed_at: String) -> bool {
    &&& r.id == id && r.observed_at == observed_at && r.claim == a.claim
    &&& r.class == EvidenceClass::Recognised(EvidenceKind::Attestation)
    &&& r.attestation_id == Some(a.id) && r.attested_claim == Some(a.claim)
    &&& r.supports@.len() == 0 && r.contradicts@.len() == 0
    &&& r.boundary is None && r.digest is None && r.repository is None && r.revision is None
    &&& r.revision_kind is None && r.toolchain is None && r.configuration_digest is None
    &&& r.artifact_type is None && r.contract_id is None && r.transaction is None && r.ledger is None
    &&& r.event_index is None && r.successful is None && r.observation_note is None
}

/// A record for an attestation, which supports exactly the claim it states.
///
/// Refused, naming the signature's state, when the attestation cannot be cited.
pub fn from_attestation(attestation: &Attestation, id: String, observed_at: String) -> (result: Result<EvidenceRecord, EngineError>)
    ensures
        attestation.signature != SignatureState::Verified ==> (result matches Err(e) && e.spec_message()
            == (EvidenceFailureView::AttestationNotCitable {
                attestation: attestation.id@, issuer: attestation.issuer@, state: attestation.signature.name() }).sentence()),
        attestation.signature == SignatureState::Verified ==> exists|r: EvidenceRecord|
            #[trigger] attestation_record(r, *attestation, id, observed_at) && settled(result, r),
{
    if !attestation.can_be_cited() {
        return Err(EvidenceFailure::AttestationNotCitable {
            attestation: attestation.id.clone(),
            issuer: attestation.issuer.clone(),
            state: attestation.signature.as_str().to_owned(),
        }.into_error());
    }
    let mut record = EvidenceRecord::draft(id, EvidenceClass::Recognised(EvidenceKind::Attestation), attestation.claim.clone(), observed_at);
    record.attestation_id = Some(attestation.id.clone());
    record.attested_claim = Some(attestation.claim.clone());
    proof { assert(attestation_record(record, *attestation, id, observed_at)); }
    settle(record)
}

} // verus!
