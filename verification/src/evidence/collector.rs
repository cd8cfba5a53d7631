//! The evidence record, and the set of records an analysis collected.
//!
//! A record is about a claim, not about a thing: the statement "these bytes hash to
//! this value, which supports this claim". One record type serves every class, and
//! [`EvidenceRecord::failures`] enforces the fields each class requires, which is what
//! makes the uniformity safe rather than sloppy.

use vstd::prelude::*;

use crate::digest::{is_sha256_text, sha256_hex, sha256_text};

use crate::error::EngineError;
use crate::evidence::errors::{EvidenceFailure, EvidenceFailureView, first_failure};
use crate::evidence::kind::{EvidenceClass, EvidenceKind};
use crate::graph::edges::{Boundary, Citation};
use crate::graph::nodes::EntityRef;
use crate::order::{Keyed, in_key_order, insert_keyed, triple_lt, compare_text, Placement, lex_lt, lemma_lex_total};
use crate::text::str_equals;

verus! {

/// The shortest a claim or a note may be before it stops being one.
pub const MINIMUM_CLAIM_LENGTH: usize = 8;

/// The longest a note may be.
pub const MAXIMUM_NOTE_LENGTH: usize = 2048;

/// A digest algorithm.
#[derive(Debug, Clone, Copy, PartialEq, Eq, Structural)]
pub enum DigestAlgorithm {
    /// SHA-256, the only algorithm the specification defines.
    Sha256,
    /// SHA-512.
    Sha512,
}

impl DigestAlgorithm {
    /// The algorithm's name, as the contracts speak of it.
    pub open spec fn name(self) -> Seq<char> {
        match self {
            DigestAlgorithm::Sha256 => "SHA-256"@,
            DigestAlgorithm::Sha512 => "SHA-512"@,
        }
    }

    /// The algorithm's name.
    pub fn as_str(self) -> (s: &'static str)
        ensures
            s@ == self.name(),
    {
        match self {
            DigestAlgorithm::Sha256 => "SHA-256",
            DigestAlgorithm::Sha512 => "SHA-512",
        }
    }
}

/// A digest: the algorithm and the lower-case hexadecimal value.
#[derive(Debug, Clone, PartialEq, Eq)]
pub struct Digest {
    /// The algorithm the digest was computed under.
    pub algorithm: DigestAlgorithm,
    /// The digest value.
    pub value: String,
}

impl Digest {
    /// The SHA-256 digest of some bytes, the algorithm the specification defines.
    pub fn sha256_of(bytes: &[u8]) -> (digest: Digest)
        ensures
            digest.algorithm == DigestAlgorithm::Sha256,
            digest.value@ == sha256_hex(bytes@),
            is_sha256_text(digest.value@),
    {
        Digest { algorithm: DigestAlgorithm::Sha256, value: sha256_text(bytes) }
    }
}

/// What kind of source revision a revision is.
#[derive(Debug, Clone, Copy, PartialEq, Eq, Structural)]
pub enum RevisionKind {
    /// A content-addressed commit identifier, which names one tree.
    Commit,
    /// A tag, which can be moved.
    Tag,
    /// A branch, which names different trees at different times.
    Branch,
}

/// One collected evidence record.
///
/// Carries every class's fields; [`EvidenceRecord::failures`] checks the ones its class
/// requires.
#[derive(Debug, Clone, PartialEq, Eq)]
pub struct EvidenceRecord {
    /// The record's identifier, unique within the collected set.
    pub id: String,
    /// The class the record belongs to.
    pub class: EvidenceClass,
    /// The exact claim the record supports, stated as a sentence.
    pub claim: String,
    /// Identifiers of the edges or findings that rely on this record.
    pub supports: Vec<String>,
    /// Identifiers of records this one declares it contradicts.
    pub contradicts: Vec<String>,
    /// When this record was observed, as an RFC 3339 timestamp.
    pub observed_at: String,
    /// The network and ledger boundary of the observation.
    pub boundary: Option<Boundary>,
    /// A digest over what the record points at.
    pub digest: Option<Digest>,
    /// `SOURCE`: the repository the revision was read from.
    pub repository: Option<String>,
    /// `SOURCE`: the revision observed.
    pub revision: Option<String>,
    /// `SOURCE`: what kind of revision it is.
    pub revision_kind: Option<RevisionKind>,
    /// `BUILD`: the toolchain identity the build used.
    pub toolchain: Option<String>,
    /// `BUILD`: the digest of the build configuration.
    pub configuration_digest: Option<Digest>,
    /// `ARTIFACT`: the wire name of the artifact class the digest was computed over.
    pub artifact_type: Option<String>,
    /// `WASM`, `DEPLOYMENT` or `EVENT`: the contract address concerned.
    pub contract_id: Option<String>,
    /// `TRANSACTION`, `DEPLOYMENT` or `EVENT`: the transaction hash it derives from.
    pub transaction: Option<String>,
    /// `TRANSACTION`, `DEPLOYMENT` or `EVENT`: the ledger it derives from.
    pub ledger: Option<u64>,
    /// `EVENT`: the event's index within its emitting transaction.
    pub event_index: Option<u32>,
    /// `TRANSACTION` or `DEPLOYMENT`: whether the transaction succeeded.
    pub successful: Option<bool>,
    /// `ATTESTATION`: the identifier of the attestation this refers to.
    pub attestation_id: Option<String>,
    /// `ATTESTATION`: the claim the attestation itself states.
    pub attested_claim: Option<String>,
    /// `OBSERVATION`: what was observed, stated factually.
    pub observation_note: Option<String>,
}

/// What a list of evidence failures states, failure by failure.
pub open spec fn failure_views(failures: Seq<EvidenceFailure>) -> Seq<EvidenceFailureView> {
    failures.map_values(|f: EvidenceFailure| f@)
}

/// The optional text is present and not empty.
pub open spec fn stated(text: Option<String>) -> bool {
    text matches Some(t) && t@.len() > 0
}

/// The failure a digest produces when it is not SHA-256.
pub open spec fn digest_failure(evidence: Seq<char>, digest: Option<Digest>) -> Seq<EvidenceFailureView> {
    match digest {
        Some(d) => if d.algorithm != DigestAlgorithm::Sha256 {
            seq![EvidenceFailureView::DigestAlgorithmUnsupported { evidence, algorithm: d.algorithm.name() }]
        } else {
            Seq::empty()
        },
        None => Seq::empty(),
    }
}

/// The failures of a claim and of the digests, which every class is checked for.
pub open spec fn common_failures(r: EvidenceRecord) -> Seq<EvidenceFailureView> {
    (if r.claim@.len() < MINIMUM_CLAIM_LENGTH {
        seq![EvidenceFailureView::ClaimNotStated { evidence: r.id@, length: r.claim@.len() as usize }]
    } else {
        Seq::empty()
    })
    + digest_failure(r.id@, r.digest)
    + digest_failure(r.id@, r.configuration_digest)
}

/// The traceability failure of a recognised class.
pub open spec fn untraceable(r: EvidenceRecord) -> EvidenceFailureView {
    EvidenceFailureView::NotTraceable { evidence: r.id@, class: r.class.name(), traceable_to: r.class.traceable_text().unwrap() }
}

/// The failures specific to the record's recognised class.
pub open spec fn kind_failures(r: EvidenceRecord, kind: EvidenceKind) -> Seq<EvidenceFailureView> {
    match kind {
        EvidenceKind::Source => if !(stated(r.repository) && stated(r.revision)) { seq![untraceable(r)] } else { Seq::empty() },
        EvidenceKind::Build =>
            (if !stated(r.toolchain) { seq![EvidenceFailureView::ToolchainUnrecorded { evidence: r.id@ }] } else { Seq::empty() })
            + (if r.configuration_digest is None { seq![EvidenceFailureView::ConfigurationUnrecorded { evidence: r.id@ }] } else { Seq::empty() }),
        EvidenceKind::Artifact | EvidenceKind::Wasm =>
            (if r.digest is None { seq![EvidenceFailureView::DigestUnrecorded { evidence: r.id@, class: r.class.name() }] } else { Seq::empty() })
            + (if kind == EvidenceKind::Artifact && r.artifact_type is None { seq![EvidenceFailureView::ArtifactTypeUnrecorded { evidence: r.id@ }] } else { Seq::empty() }),
        EvidenceKind::Deployment =>
            (if r.transaction is None { seq![untraceable(r)] } else { Seq::empty() })
            + (if r.successful == Some(false) {
                seq![EvidenceFailureView::FailedTransactionCitedAsEffect {
                    transaction: match r.transaction { Some(t) => t@, None => "an unrecorded transaction"@ },
                    claim: r.claim@,
                }]
            } else {
                Seq::empty()
            }),
        EvidenceKind::Transaction =>
            (if r.successful is None {
                seq![EvidenceFailureView::TransactionOutcomeUnrecorded { transaction: match r.transaction { Some(t) => t@, None => r.id@ } }]
            } else {
                Seq::empty()
            })
            + (if r.transaction is None { seq![untraceable(r)] } else { Seq::empty() }),
        EvidenceKind::Event => if r.transaction is None || r.event_index is None {
            seq![EvidenceFailureView::EventOriginUnrecorded { evidence: r.id@ }]
        } else {
            Seq::empty()
        },
        EvidenceKind::Attestation =>
            (if !stated(r.attestation_id) { seq![EvidenceFailureView::AttestationUnrecorded { evidence: r.id@ }] } else { Seq::empty() })
            + (match r.attested_claim {
                Some(attested) => if attested@.len() > 0 && attested@ != r.claim@ {
                    seq![EvidenceFailureView::AttestationClaimMismatch {
                        attestation: match r.attestation_id { Some(a) => a@, None => Seq::empty() },
                        claim: r.claim@,
                        attested: attested@,
                    }]
                } else {
                    Seq::empty()
                },
                None => Seq::empty(),
            }),
        EvidenceKind::Observation => if r.observation_note is None {
            seq![EvidenceFailureView::ObservationNoteUnrecorded { evidence: r.id@ }]
        } else {
            Seq::empty()
        },
    }
}

/// The failure a note produces when it is outside the schema's bounds.
pub open spec fn note_failures(r: EvidenceRecord) -> Seq<EvidenceFailureView> {
    match r.observation_note {
        Some(note) => if note@.len() < MINIMUM_CLAIM_LENGTH {
            seq![EvidenceFailureView::ObservationNoteUnrecorded { evidence: r.id@ }]
        } else if note@.len() > MAXIMUM_NOTE_LENGTH {
            seq![EvidenceFailureView::NoteTooLong { evidence: r.id@, length: note@.len() as usize }]
        } else {
            Seq::empty()
        },
        None => Seq::empty(),
    }
}

/// Every way a record fails its class's requirements, in the order they are checked.
///
/// An unrecognised class is checked for its claim and its digests only: this version
/// does not know what else such a class requires.
pub open spec fn record_failures(r: EvidenceRecord) -> Seq<EvidenceFailureView> {
    common_failures(r) + match r.class.kind() {
        None => Seq::empty(),
        Some(kind) =>
            (if r.class.spec_requires_boundary() && r.boundary is None {
                seq![EvidenceFailureView::BoundaryUnrecorded { evidence: r.id@, class: r.class.name() }]
            } else {
                Seq::empty()
            })
            + kind_failures(r, kind)
            + note_failures(r),
    }
}

/// `r` is a record as [`EvidenceRecord::draft`] builds it: the four given fields, and
/// nothing else recorded.
pub open spec fn drafted(r: EvidenceRecord, id: String, class: EvidenceClass, claim: String, observed_at: String) -> bool {
    &&& r.id == id && r.class == class && r.claim == claim && r.observed_at == observed_at
    &&& r.supports@.len() == 0 && r.contradicts@.len() == 0
    &&& r.boundary is None && r.digest is None && r.repository is None && r.revision is None
    &&& r.revision_kind is None && r.toolchain is None && r.configuration_digest is None
    &&& r.artifact_type is None && r.contract_id is None && r.transaction is None && r.ledger is None
    &&& r.event_index is None && r.successful is None && r.attestation_id is None
    &&& r.attested_claim is None && r.observation_note is None
}

/// `revision` is a content-addressed commit identifier: 40 or 64 hexadecimal characters.
pub open spec fn is_commit_identifier(revision: Seq<char>) -> bool {
    &&& (revision.len() == 40 || revision.len() == 64)
    &&& forall|i: int| 0 <= i < revision.len() ==> is_hex_digit(#[trigger] revision[i])
}

/// An ASCII hexadecimal digit, in either case.
pub open spec fn is_hex_digit(c: char) -> bool {
    ('0' <= c && c <= '9') || ('a' <= c && c <= 'f') || ('A' <= c && c <= 'F')
}

/// The kind of revision a revision of unknown type behaves like.
///
/// One-sided: 40 or 64 hexadecimal characters is a commit, everything else is treated as
/// a branch, the mutable kind. Treating a commit as a branch loses only confidence, while
/// treating a branch as a commit would let an uncheckable record be reported as verified.
pub fn infer_revision_kind(revision: &str) -> (kind: RevisionKind)
    ensures
        kind == (if is_commit_identifier(revision@) { RevisionKind::Commit } else { RevisionKind::Branch }),
{
    let n = revision.unicode_len();
    if n != 40 && n != 64 {
        return RevisionKind::Branch;
    }
    for i in 0..n
        invariant
            n == revision@.len(),
            forall|j: int| 0 <= j < i ==> is_hex_digit(#[trigger] revision@[j]),
    {
        let c = revision.get_char(i);
        if !(('0' <= c && c <= '9') || ('a' <= c && c <= 'f') || ('A' <= c && c <= 'F')) {
            return RevisionKind::Branch;
        }
    }
    RevisionKind::Commit
}

fn push_views(failures: &mut Vec<EvidenceFailure>, more: Vec<EvidenceFailure>)
    ensures
        failure_views(final(failures)@) == failure_views(old(failures)@) + failure_views(more@),
{
    let mut more = more;
    let ghost start = failure_views(failures@);
    let ghost all = failure_views(more@);
    let mut k: usize = 0;
    let n = more.len();
    while more.len() > 0
        invariant
            failure_views(failures@) == start + all.take(k as int),
            failure_views(more@) == all.skip(k as int),
            k + more@.len() == n,
            n == all.len(),
        decreases more.len(),
    {
        let ghost before = more@;
        let ghost prior = failures@;
        let f = more.remove(0);
        failures.push(f);
        proof {
            assert(more@ == before.remove(0));
            assert(f@ == all[k as int]) by {
                assert(failure_views(before)[0] == before[0]@);
            }
            assert forall|j: int| 0 <= j < failure_views(more@).len() implies failure_views(more@)[j] == all.skip(k + 1)[j] by {
                assert(more@[j] == before[j + 1]);
                assert(failure_views(before)[j + 1] == before[j + 1]@);
            }
            assert(failure_views(more@) =~= all.skip(k + 1));
            assert(failures@ == prior.push(f));
            assert(failure_views(failures@) =~= failure_views(prior).push(f@));
            assert(failure_views(failures@) =~= start + all.take(k + 1));
        }
        k = k + 1;
    }
    proof {
        assert(all.take(n as int) =~= all);
    }
}

fn is_stated(text: &Option<String>) -> (present: bool)
    ensures
        present == stated(*text),
{
    match text {
        Some(t) => t.as_str().unicode_len() > 0,
        None => false,
    }
}

impl EvidenceRecord {
    /// Builds a record field by field, without validating it.
    ///
    /// A record's fields are filled in over several steps; validation happens where it
    /// matters, at [`EvidenceRecord::new`] and [`EvidenceRegistry::add`].
    pub fn draft(id: String, class: EvidenceClass, claim: String, observed_at: String) -> (record: EvidenceRecord)
        ensures
            drafted(record, id, class, claim, observed_at),
    {
        EvidenceRecord {
            id,
            class,
            claim,
            supports: Vec::new(),
            contradicts: Vec::new(),
            observed_at,
            boundary: None,
            digest: None,
            repository: None,
            revision: None,
            revision_kind: None,
            toolchain: None,
            configuration_digest: None,
            artifact_type: None,
            contract_id: None,
            transaction: None,
            ledger: None,
            event_index: None,
            successful: None,
            attestation_id: None,
            attested_claim: None,
            observation_note: None,
        }
    }

    /// Builds a record, validating it against its class's requirements.
    pub fn new(id: String, class: EvidenceClass, claim: String, observed_at: String) -> (result: Result<EvidenceRecord, EngineError>)
        ensures
            match result {
                Ok(r) => drafted(r, id, class, claim, observed_at) && record_failures(r).len() == 0,
                Err(e) => exists|r: EvidenceRecord| #[trigger] drafted(r, id, class, claim, observed_at)
                    && record_failures(r).len() > 0 && e.spec_message() == record_failures(r)[0].sentence(),
            },
    {
        let record = EvidenceRecord::draft(id, class, claim, observed_at);
        proof { assert(drafted(record, id, class, claim, observed_at)); }
        match record.validate() {
            Ok(()) => Ok(record),
            Err(e) => Err(e),
        }
    }

    /// Whether this record is permitted to support a claim: an unrecognised class is
    /// kept, and establishes nothing.
    pub fn supports_claim(&self) -> (supports: bool)
        ensures
            supports == (self.class is Recognised),
    {
        self.class.is_recognised()
    }

    /// Every way this record fails its class's requirements, in the order they are
    /// checked: the claim, the digests' algorithm, and for a recognised class its
    /// boundary, its class's own fields and its note's bounds.
    pub fn failures(&self) -> (failures: Vec<EvidenceFailure>)
        ensures
            failure_views(failures@) == record_failures(*self),
    {
        let mut failures = self.common_failures();
        match self.class.recognised() {
            None => {
                proof { assert(failure_views(failures@) =~= record_failures(*self)); }
            },
            Some(kind) => {
                let ghost common = failure_views(failures@);
                if self.class.requires_boundary() && self.boundary.is_none() {
                    failures.push(EvidenceFailure::BoundaryUnrecorded {
                        evidence: self.id.clone(),
                        class: self.class.as_str().to_owned(),
                    });
                }
                let ghost with_boundary = failure_views(failures@);
                let more = self.kind_failures(kind);
                push_views(&mut failures, more);
                let notes = self.note_failures();
                push_views(&mut failures, notes);
                proof {
                    assert(failure_views(failures@) =~= record_failures(*self));
                }
            },
        }
        failures
    }

    fn common_failures(&self) -> (failures: Vec<EvidenceFailure>)
        ensures
            failure_views(failures@) == common_failures(*self),
    {
        let mut failures: Vec<EvidenceFailure> = Vec::new();
        let claim_length = self.claim.as_str().unicode_len();
        if claim_length < MINIMUM_CLAIM_LENGTH {
            failures.push(EvidenceFailure::ClaimNotStated { evidence: self.id.clone(), length: claim_length });
        }
        match &self.digest {
            Some(d) => if d.algorithm != DigestAlgorithm::Sha256 {
                failures.push(EvidenceFailure::DigestAlgorithmUnsupported {
                    evidence: self.id.clone(),
                    algorithm: d.algorithm.as_str().to_owned(),
                });
            },
            None => {},
        }
        match &self.configuration_digest {
            Some(d) => if d.algorithm != DigestAlgorithm::Sha256 {
                failures.push(EvidenceFailure::DigestAlgorithmUnsupported {
                    evidence: self.id.clone(),
                    algorithm: d.algorithm.as_str().to_owned(),
                });
            },
            None => {},
        }
        proof {
            assert(failure_views(failures@) =~= common_failures(*self));
        }
        failures
    }

    fn untraceable(&self) -> (failure: EvidenceFailure)
        requires
            self.class is Recognised,
        ensures
            failure@ == untraceable(*self),
    {
        let traceable_to = match self.class.traceable_to() {
            Some(t) => t.to_owned(),
            None => String::new(),
        };
        EvidenceFailure::NotTraceable {
            evidence: self.id.clone(),
            class: self.class.as_str().to_owned(),
            traceable_to,
        }
    }

    fn kind_failures(&self, kind: EvidenceKind) -> (failures: Vec<EvidenceFailure>)
        requires
            self.class.kind() == Some(kind),
        ensures
            failure_views(failures@) == kind_failures(*self, kind),
    {
        let mut failures: Vec<EvidenceFailure> = Vec::new();
        match kind {
            EvidenceKind::Source => {
                if !(is_stated(&self.repository) && is_stated(&self.revision)) {
                    failures.push(self.untraceable());
                }
            },
            EvidenceKind::Build => {
                if !is_stated(&self.toolchain) {
                    failures.push(EvidenceFailure::ToolchainUnrecorded { evidence: self.id.clone() });
                }
                if self.configuration_digest.is_none() {
                    failures.push(EvidenceFailure::ConfigurationUnrecorded { evidence: self.id.clone() });
                }
            },
            EvidenceKind::Artifact | EvidenceKind::Wasm => {
                if self.digest.is_none() {
                    failures.push(EvidenceFailure::DigestUnrecorded {
                        evidence: self.id.clone(),
                        class: self.class.as_str().to_owned(),
                    });
                }
                if kind == EvidenceKind::Artifact && self.artifact_type.is_none() {
                    failures.push(EvidenceFailure::ArtifactTypeUnrecorded { evidence: self.id.clone() });
                }
            },
            EvidenceKind::Deployment => {
                if self.transaction.is_none() {
                    failures.push(self.untraceable());
                }
                if self.successful == Some(false) {
                    let transaction = match &self.transaction {
                        Some(t) => t.clone(),
                        None => String::from_str("an unrecorded transaction"),
                    };
                    failures.push(EvidenceFailure::FailedTransactionCitedAsEffect {
                        transaction,
                        claim: self.claim.clone(),
                    });
                }
            },
            EvidenceKind::Transaction => {
                if self.successful.is_none() {
                    let transaction = match &self.transaction {
                        Some(t) => t.clone(),
                        None => self.id.clone(),
                    };
                    failures.push(EvidenceFailure::TransactionOutcomeUnrecorded { transaction });
                }
                if self.transaction.is_none() {
                    failures.push(self.untraceable());
                }
            },
            EvidenceKind::Event => {
                if self.transaction.is_none() || self.event_index.is_none() {
                    failures.push(EvidenceFailure::EventOriginUnrecorded { evidence: self.id.clone() });
                }
            },
            EvidenceKind::Attestation => {
                if !is_stated(&self.attestation_id) {
                    failures.push(EvidenceFailure::AttestationUnrecorded { evidence: self.id.clone() });
                }
                match &self.attested_claim {
                    Some(attested) => {
                        if attested.as_str().unicode_len() > 0 && !crate::text::str_equals(attested.as_str(), self.claim.as_str()) {
                            let attestation = match &self.attestation_id {
                                Some(a) => a.clone(),
                                None => String::new(),
                            };
                            failures.push(EvidenceFailure::AttestationClaimMismatch {
                                attestation,
                                claim: self.claim.clone(),
                                attested: attested.clone(),
                            });
                        }
                    },
                    None => {},
                }
            },
            EvidenceKind::Observation => {
                if self.observation_note.is_none() {
                    failures.push(EvidenceFailure::ObservationNoteUnrecorded { evidence: self.id.clone() });
                }
            },
        }
        proof {
            reveal_strlit("an unrecorded transaction");
            assert(failure_views(failures@) =~= kind_failures(*self, kind));
        }
        failures
    }

    fn note_failures(&self) -> (failures: Vec<EvidenceFailure>)
        ensures
            failure_views(failures@) == note_failures(*self),
    {
        let mut failures: Vec<EvidenceFailure> = Vec::new();
        match &self.observation_note {
            Some(note) => {
                let length = note.as_str().unicode_len();
                if length < MINIMUM_CLAIM_LENGTH {
                    failures.push(EvidenceFailure::ObservationNoteUnrecorded { evidence: self.id.clone() });
                } else if length > MAXIMUM_NOTE_LENGTH {
                    failures.push(EvidenceFailure::NoteTooLong { evidence: self.id.clone(), length });
                }
            },
            None => {},
        }
        proof {
            assert(failure_views(failures@) =~= note_failures(*self));
        }
        failures
    }

    /// Validates the record, reporting the first requirement it fails.
    pub fn validate(&self) -> (result: Result<(), EngineError>)
        ensures
            result is Ok <==> record_failures(*self).len() == 0,
            result matches Err(e) ==> e.spec_message() == record_failures(*self)[0].sentence(),
    {
        let failures = self.failures();
        proof {
            if failures@.len() > 0 {
                assert(failure_views(failures@)[0] == failures@[0]@);
            }
        }
        first_failure(failures)
    }

    /// Whether the record satisfies every requirement of its class.
    pub fn is_valid(&self) -> (valid: bool)
        ensures
            valid == (record_failures(*self).len() == 0),
    {
        let failures = self.failures();
        failures.len() == 0
    }
}

impl EvidenceRecord {
    /// The citation a claim cites this record by: its class, or `OBSERVATION` for a class
    /// this version does not recognise, and its identifier.
    pub open spec fn spec_reference(&self) -> (EvidenceKind, Seq<char>) {
        (match self.class.kind() { Some(k) => k, None => EvidenceKind::Observation }, self.id@)
    }

    /// The citation a claim cites this record by.
    ///
    /// An unrecognised class is cited as an observation: the engine can say that
    /// something was observed and cannot claim what kind it was.
    pub fn reference(&self) -> (citation: Citation)
        ensures
            (citation.kind, citation.id@) == self.spec_reference(),
    {
        let kind = match self.class.recognised() {
            Some(k) => k,
            None => EvidenceKind::Observation,
        };
        Citation { kind, id: self.id.clone() }
    }

    /// Records that this evidence supports an identifier, once.
    pub fn supporting(self, target: String) -> (record: EvidenceRecord)
        ensures
            (exists|i: int| 0 <= i < self.supports@.len() && (#[trigger] self.supports@[i])@ == target@) ==> record.supports@ == self.supports@,
            (forall|i: int| 0 <= i < self.supports@.len() ==> (#[trigger] self.supports@[i])@ != target@) ==> record.supports@ == self.supports@.push(target),
            record.id == self.id,
            record.class == self.class,
            record.claim == self.claim,
            record.contradicts == self.contradicts,
    {
        let mut record = self;
        if !contains_text(&record.supports, target.as_str()) {
            record.supports.push(target);
        }
        record
    }

    /// Records that this evidence contradicts another record, once.
    pub fn contradicting(self, other: String) -> (record: EvidenceRecord)
        ensures
            (exists|i: int| 0 <= i < self.contradicts@.len() && (#[trigger] self.contradicts@[i])@ == other@) ==> record.contradicts@ == self.contradicts@,
            (forall|i: int| 0 <= i < self.contradicts@.len() ==> (#[trigger] self.contradicts@[i])@ != other@) ==> record.contradicts@ == self.contradicts@.push(other),
            record.id == self.id,
            record.class == self.class,
            record.claim == self.claim,
            record.supports == self.supports,
    {
        let mut record = self;
        if !contains_text(&record.contradicts, other.as_str()) {
            record.contradicts.push(other);
        }
        record
    }

    /// Attaches the observation boundary.
    pub fn with_boundary(self, boundary: Boundary) -> (record: EvidenceRecord)
        ensures
            record.boundary == Some(boundary),
            record.id == self.id,
            record.class == self.class,
            record.claim == self.claim,
            record.supports == self.supports,
            record.contradicts == self.contradicts,
    {
        let mut record = self;
        record.boundary = Some(boundary);
        record
    }
}

/// Whether some string of `texts` holds `text`.
pub fn contains_text(texts: &Vec<String>, text: &str) -> (found: bool)
    ensures
        found == exists|i: int| 0 <= i < texts@.len() && (#[trigger] texts@[i])@ == text@,
{
    for i in 0..texts.len()
        invariant
            forall|j: int| 0 <= j < i ==> (#[trigger] texts@[j])@ != text@,
    {
        if str_equals(texts[i].as_str(), text) {
            return true;
        }
    }
    false
}

impl Keyed for EvidenceRecord {
    /// Records sort by identifier.
    open spec fn sort_key(&self, vocabulary: Seq<String>) -> (Seq<char>, int, Seq<char>) {
        (self.id@, 0, Seq::empty())
    }

    fn precedes(&self, other: &EvidenceRecord, vocabulary: &Vec<String>) -> (before: bool) {
        proof { crate::order::lemma_lex_irreflexive(Seq::<char>::empty()); }
        match compare_text(self.id.as_str(), other.id.as_str()) {
            Placement::Before => true,
            _ => false,
        }
    }
}

/// A collected set is in canonical order: identifiers strictly increasing, so none repeats.
pub open spec fn registry_ordered(s: Seq<EvidenceRecord>) -> bool {
    forall|i: int, j: int| 0 <= i < j < s.len() ==> lex_lt(#[trigger] s[i].id@, #[trigger] s[j].id@)
}

/// No record of `s` carries the identifier `id`.
pub open spec fn absent(s: Seq<EvidenceRecord>, id: Seq<char>) -> bool {
    forall|i: int| 0 <= i < s.len() ==> (#[trigger] s[i]).id@ != id
}

/// The pairs a record `l` declares with record `r`: one for each of the first `n` of its
/// contradiction citations that names `r`.
pub open spec fn pairs_for(l: EvidenceRecord, r: EvidenceRecord, n: int) -> Seq<(EvidenceRecord, EvidenceRecord)>
    decreases n,
{
    if n <= 0 {
        Seq::empty()
    } else {
        pairs_for(l, r, n - 1) + if l.contradicts@[n - 1]@ == r.id@ { seq![(l, r)] } else { Seq::empty() }
    }
}

/// The pairs record `l` declares with the first `m` records of `s`.
pub open spec fn pairs_of(s: Seq<EvidenceRecord>, l: EvidenceRecord, m: int) -> Seq<(EvidenceRecord, EvidenceRecord)>
    decreases m,
{
    if m <= 0 {
        Seq::empty()
    } else {
        pairs_of(s, l, m - 1) + pairs_for(l, s[m - 1], l.contradicts@.len() as int)
    }
}

/// The declared contradictions among the first `k` records of `s`, ordered by the
/// declaring record and then the contradicted one: each pair as often as it is cited.
pub open spec fn declared(s: Seq<EvidenceRecord>, k: int) -> Seq<(EvidenceRecord, EvidenceRecord)>
    decreases k,
{
    if k <= 0 {
        Seq::empty()
    } else {
        declared(s, k - 1) + pairs_of(s, s[k - 1], s.len() as int)
    }
}

/// The records a list of pairs of references points at.
pub open spec fn pair_values(s: Seq<(&EvidenceRecord, &EvidenceRecord)>) -> Seq<(EvidenceRecord, EvidenceRecord)> {
    s.map_values(|p: (&EvidenceRecord, &EvidenceRecord)| (*p.0, *p.1))
}

/// The records a list of references points at.
pub open spec fn record_values(s: Seq<&EvidenceRecord>) -> Seq<EvidenceRecord> {
    s.map_values(|r: &EvidenceRecord| *r)
}

/// The failures for the first `n` contradiction citations of `r` that name no record of `s`.
pub open spec fn dangling_of(s: Seq<EvidenceRecord>, r: EvidenceRecord, n: int) -> Seq<EvidenceFailureView>
    decreases n,
{
    if n <= 0 {
        Seq::empty()
    } else {
        dangling_of(s, r, n - 1) + if absent(s, r.contradicts@[n - 1]@) {
            seq![EvidenceFailureView::ContradictionUnresolvable { evidence: r.id@, cited: r.contradicts@[n - 1]@ }]
        } else {
            Seq::empty()
        }
    }
}

/// The unresolvable contradiction citations of the first `k` records of `s`, record by
/// record and citation by citation.
pub open spec fn dangling(s: Seq<EvidenceRecord>, k: int) -> Seq<EvidenceFailureView>
    decreases k,
{
    if k <= 0 { Seq::empty() } else { dangling(s, k - 1) + dangling_of(s, s[k - 1], s[k - 1].contradicts@.len() as int) }
}

/// The record `r` declares support for `target`.
pub open spec fn declares_support(r: EvidenceRecord, target: Seq<char>) -> bool {
    exists|j: int| 0 <= j < r.supports@.len() && (#[trigger] r.supports@[j])@ == target
}

/// The class a citation of the record identified `id` carries.
pub open spec fn cited_kind(s: Seq<EvidenceRecord>, id: Seq<char>) -> EvidenceKind {
    s[choose|j: int| 0 <= j < s.len() && (#[trigger] s[j]).id@ == id].spec_reference().0
}

/// In a collected set the record carrying an identifier is the only one, so its
/// citation carries its class.
pub proof fn lemma_cited_kind(s: Seq<EvidenceRecord>, j: int)
    requires
        registry_ordered(s),
        0 <= j < s.len(),
    ensures
        cited_kind(s, s[j].id@) == s[j].spec_reference().0,
{
    let c = choose|c: int| 0 <= c < s.len() && (#[trigger] s[c]).id@ == s[j].id@;
    assert(0 <= c < s.len() && s[c].id@ == s[j].id@);
    crate::order::lemma_lex_irreflexive(s[j].id@);
    if c < j {
        assert(lex_lt(s[c].id@, s[j].id@));
    } else if c > j {
        assert(lex_lt(s[j].id@, s[c].id@));
    }
}

/// The entity a record concerns, as the contracts speak of it.
pub open spec fn subject_spec(r: EvidenceRecord) -> Option<(Seq<char>, Seq<char>)> {
    match r.digest {
        Some(d) if r.class.spec_requires_digest() =>
            Some((if r.class.kind() == Some(EvidenceKind::Wasm) { "WASM"@ } else { "ARTIFACT"@ }, d.value@)),
        _ => match r.contract_id {
            Some(address) => Some(("CONTRACT"@, address@)),
            None => None,
        },
    }
}

/// The evidence an analysis collected, in canonical order of identifier.
///
/// Two records never share an identifier: claims cite records by identifier, and a
/// duplicate would make every citation of it ambiguous.
pub struct EvidenceRegistry {
    records: Vec<EvidenceRecord>,
}

impl View for EvidenceRegistry {
    type V = Seq<EvidenceRecord>;

    closed spec fn view(&self) -> Seq<EvidenceRecord> {
        self.records@
    }
}

/// The sentence a registry refuses a record with when it already holds that record's
/// identifier or the record is invalid: the record's first failure, or the duplicate.
pub open spec fn refusal_of(r: EvidenceRecord) -> Seq<char> {
    if record_failures(r).len() > 0 {
        record_failures(r)[0].sentence()
    } else {
        (EvidenceFailureView::DuplicateEvidenceId { id: r.id@ }).sentence()
    }
}

impl EvidenceRegistry {
    #[verifier::type_invariant]
    spec fn ordered(self) -> bool {
        registry_ordered(self.records@)
    }

    /// The registry's records are in canonical order.
    pub fn check_order(&self) -> (ordered: bool)
        ensures
            ordered,
            registry_ordered(self@),
    {
        proof { use_type_invariant(self); }
        true
    }

    /// An empty registry.
    pub fn new() -> (registry: EvidenceRegistry)
        ensures
            registry@ == Seq::<EvidenceRecord>::empty(),
    {
        EvidenceRegistry { records: Vec::new() }
    }

    /// Adds a record, refusing one that fails its class or repeats an identifier.
    pub fn add(&mut self, record: EvidenceRecord) -> (result: Result<(), EngineError>)
        ensures
            registry_ordered(final(self)@),
            record_failures(record).len() > 0 ==> final(self)@ == old(self)@
                && (result matches Err(e) && e.spec_message() == record_failures(record)[0].sentence()),
            record_failures(record).len() == 0 && !absent(old(self)@, record.id@) ==> final(self)@ == old(self)@
                && (result matches Err(e) && e.spec_message() == (EvidenceFailureView::DuplicateEvidenceId { id: record.id@ }).sentence()),
            record_failures(record).len() == 0 && absent(old(self)@, record.id@) ==> result is Ok
                && exists|p: int| 0 <= p <= old(self)@.len() && final(self)@ == old(self)@.insert(p, record),
    {
        proof { use_type_invariant(&*self); }
        match record.validate() {
            Ok(()) => {},
            Err(e) => { return Err(e); },
        }
        for i in 0..self.records.len()
            invariant
                self.records@ == old(self).records@,
                registry_ordered(self.records@),
                record_failures(record).len() == 0,
                forall|j: int| 0 <= j < i ==> (#[trigger] self.records@[j]).id@ != record.id@,
        {
            if str_equals(self.records[i].id.as_str(), record.id.as_str()) {
                proof { assert(!absent(old(self)@, record.id@)) by { assert(old(self)@[i as int].id@ == record.id@); } }
                return Err(EvidenceFailure::DuplicateEvidenceId { id: record.id.clone() }.into_error());
            }
        }
        let ghost before = self.records@;
        let ghost id = record.id@;
        let empty: Vec<String> = Vec::new();
        proof {
            assert(in_key_order(before, empty@)) by {
                assert forall|i: int, j: int| 0 <= i < j < before.len() implies !triple_lt(#[trigger] before[j].sort_key(empty@), #[trigger] before[i].sort_key(empty@)) by {
                    lemma_lex_total(before[i].id@, before[j].id@);
                }
            }
        }
        let mut records: Vec<EvidenceRecord> = Vec::new();
        std::mem::swap(&mut records, &mut self.records);
        let pos = insert_keyed(&mut records, record, &empty);
        proof {
            let after = records@;
            assert forall|i: int, j: int| 0 <= i < j < after.len() implies lex_lt(#[trigger] after[i].id@, #[trigger] after[j].id@) by {
                assert(!triple_lt(after[j].sort_key(empty@), after[i].sort_key(empty@)));
                lemma_lex_total(after[i].id@, after[j].id@);
                if i == pos {
                    assert(after[j] == before[j - 1]);
                } else if j == pos {
                    assert(after[i] == before[i]);
                } else if i < pos && j < pos {
                    assert(after[i] == before[i] && after[j] == before[j]);
                } else if i < pos {
                    assert(after[i] == before[i] && after[j] == before[j - 1]);
                } else {
                    assert(after[i] == before[i - 1] && after[j] == before[j - 1]);
                }
            }
        }
        self.records = records;
        Ok(())
    }

    /// Adds every record in order, stopping at the first that cannot be added.
    #[verifier::loop_isolation(false)]
    pub fn extend(&mut self, records: Vec<EvidenceRecord>) -> (result: Result<(), EngineError>)
        ensures
            registry_ordered(final(self)@),
            result is Ok ==> final(self)@.to_multiset() == old(self)@.to_multiset().add(records@.to_multiset()),
            result matches Err(e) ==> exists|k: int| 0 <= k < records@.len()
                && final(self)@.to_multiset() == old(self)@.to_multiset().add(#[trigger] records@.take(k).to_multiset())
                && (record_failures(records@[k]).len() > 0 || !absent(final(self)@, records@[k].id@))
                && e.spec_message() == refusal_of(records@[k]),
    {
        broadcast use vstd::seq_lib::group_to_multiset_ensures;
        let ghost start = self@;
        let ghost all = records@;
        let mut rest = records;
        let mut k: usize = 0;
        let n = rest.len();
        proof { use_type_invariant(&*self); }
        while rest.len() > 0
            invariant
                rest@ == all.skip(k as int),
                n == all.len(),
                k <= all.len(),
                k + rest@.len() == n,
                self@.to_multiset() == start.to_multiset().add(all.take(k as int).to_multiset()),
                registry_ordered(self@),
            decreases rest.len(),
        {
            let ghost prior = self@;
            let record = rest.remove(0);
            proof { assert(record == all[k as int]); }
            let ghost r = record;
            match self.add(record) {
                Ok(()) => {
                    proof {
                        let p = choose|p: int| 0 <= p <= prior.len() && self@ == prior.insert(p, r);
                        vstd::seq_lib::to_multiset_insert(prior, p, r);
                        assert(all.take(k + 1) =~= all.take(k as int).push(r));
                        vstd::seq_lib::to_multiset_build(all.take(k as int), r);
                        assert(self@.to_multiset() =~= start.to_multiset().add(all.take(k + 1).to_multiset()));
                        assert(rest@ =~= all.skip(k + 1));
                    }
                },
                Err(e) => {
                    proof {
                        assert(self@ == prior);
                        assert(record_failures(all[k as int]).len() > 0 || !absent(self@, all[k as int].id@));
                        assert(self@.to_multiset() == start.to_multiset().add(all.take(k as int).to_multiset()));
                        assert(0 <= k < all.len() && self@.to_multiset() == start.to_multiset().add(all.take(k as int).to_multiset())
                            && (record_failures(all[k as int]).len() > 0 || !absent(self@, all[k as int].id@)));
                        assert(e.spec_message() == refusal_of(all[k as int]));
                        assert(exists|k2: int| 0 <= k2 < all.len() && self@.to_multiset() == start.to_multiset().add(#[trigger] all.take(k2).to_multiset())
                            && (record_failures(all[k2]).len() > 0 || !absent(self@, all[k2].id@))
                            && e.spec_message() == refusal_of(all[k2]));
                    }
                    return Err(e);
                },
            }
            k = k + 1;
        }
        proof {
            assert(all.take(k as int) =~= all);
        }
        Ok(())
    }

    /// The record with an identifier.
    pub fn get(&self, id: &str) -> (record: Option<&EvidenceRecord>)
        ensures
            registry_ordered(self@),
            record matches Some(r) ==> exists|i: int| 0 <= i < self@.len() && self@[i] == *r && r.id@ == id@,
            record is None ==> absent(self@, id@),
    {
        proof { use_type_invariant(self); }
        for i in 0..self.records.len()
            invariant
                registry_ordered(self.records@),
                forall|j: int| 0 <= j < i ==> (#[trigger] self.records@[j]).id@ != id@,
        {
            if str_equals(self.records[i].id.as_str(), id) {
                proof { assert(self@[i as int] == self.records@[i as int]); }
                return Some(&self.records[i]);
            }
        }
        None
    }

    /// Every record, in canonical order.
    pub fn records(&self) -> (records: &[EvidenceRecord])
        ensures
            records@ == self@,
            registry_ordered(self@),
    {
        proof { use_type_invariant(self); }
        self.records.as_slice()
    }

    /// How many records the registry holds.
    pub fn len(&self) -> (n: usize)
        ensures
            n == self@.len(),
    {
        self.records.len()
    }

    /// Whether the registry holds nothing.
    pub fn is_empty(&self) -> (empty: bool)
        ensures
            empty == (self@.len() == 0),
    {
        self.records.len() == 0
    }

    /// The records of one class, in canonical order.
    pub fn of_class(&self, kind: EvidenceKind) -> (records: Vec<&EvidenceRecord>)
        ensures
            record_values(records@) == self@.filter(|r: EvidenceRecord| r.class.kind() == Some(kind)),
    {
        let mut out: Vec<&EvidenceRecord> = Vec::new();
        for i in 0..self.records.len()
            invariant
                record_values(out@) == self.records@.take(i as int).filter(|r: EvidenceRecord| r.class.kind() == Some(kind)),
        {
            let record = &self.records[i];
            let ghost prior = out@;
            if record.class.recognised() == Some(kind) {
                out.push(record);
                proof { assert(record_values(out@) =~= record_values(prior).push(*record)); }
            }
            proof {
                assert(self.records@.take(i + 1).drop_last() =~= self.records@.take(i as int));
                reveal(Seq::filter);
                assert(record_values(out@) =~= self.records@.take(i + 1).filter(|r: EvidenceRecord| r.class.kind() == Some(kind)));
            }
        }
        proof { assert(self.records@.take(self.records@.len() as int) =~= self.records@); }
        out
    }

    /// The records this version cannot interpret, in canonical order.
    pub fn unrecognised(&self) -> (records: Vec<&EvidenceRecord>)
        ensures
            record_values(records@) == self@.filter(|r: EvidenceRecord| r.class is Unrecognised),
    {
        let mut out: Vec<&EvidenceRecord> = Vec::new();
        for i in 0..self.records.len()
            invariant
                record_values(out@) == self.records@.take(i as int).filter(|r: EvidenceRecord| r.class is Unrecognised),
        {
            let record = &self.records[i];
            let ghost prior = out@;
            if !record.class.is_recognised() {
                out.push(record);
                proof { assert(record_values(out@) =~= record_values(prior).push(*record)); }
            }
            proof {
                assert(self.records@.take(i + 1).drop_last() =~= self.records@.take(i as int));
                reveal(Seq::filter);
                assert(record_values(out@) =~= self.records@.take(i + 1).filter(|r: EvidenceRecord| r.class is Unrecognised));
            }
        }
        proof { assert(self.records@.take(self.records@.len() as int) =~= self.records@); }
        out
    }

    /// The records that declare support for an identifier, in canonical order.
    pub fn supporting(&self, target: &str) -> (records: Vec<&EvidenceRecord>)
        ensures
            record_values(records@) == self@.filter(|r: EvidenceRecord| declares_support(r, target@)),
    {
        let mut out: Vec<&EvidenceRecord> = Vec::new();
        for i in 0..self.records.len()
            invariant
                record_values(out@) == self.records@.take(i as int).filter(|r: EvidenceRecord| declares_support(r, target@)),
        {
            let record = &self.records[i];
            let ghost prior = out@;
            if contains_text(&record.supports, target) {
                out.push(record);
                proof { assert(record_values(out@) =~= record_values(prior).push(*record)); }
            }
            proof {
                assert(self.records@.take(i + 1).drop_last() =~= self.records@.take(i as int));
                reveal(Seq::filter);
                assert(record_values(out@) =~= self.records@.take(i + 1).filter(|r: EvidenceRecord| declares_support(r, target@)));
            }
        }
        proof { assert(self.records@.take(self.records@.len() as int) =~= self.records@); }
        out
    }

    /// The citations for a list of identifiers, in the order given.
    ///
    /// Refused at the first identifier no record carries: a citation of a record the set
    /// does not hold cannot be followed back to what it supports.
    pub fn references(&self, ids: &[String]) -> (result: Result<Vec<Citation>, EngineError>)
        ensures
            result is Ok <==> forall|i: int| 0 <= i < ids@.len() ==> !absent(self@, (#[trigger] ids@[i])@),
            result matches Ok(citations) ==> citations@.len() == ids@.len()
                && forall|i: int| 0 <= i < ids@.len() ==> (#[trigger] citations@[i]).id@ == ids@[i]@
                    && citations@[i].kind == cited_kind(self@, ids@[i]@),
            result matches Err(e) ==> exists|i: int| 0 <= i < ids@.len() && absent(self@, (#[trigger] ids@[i])@)
                && (forall|j: int| 0 <= j < i ==> !absent(self@, (#[trigger] ids@[j])@))
                && e.spec_message() == (EvidenceFailureView::NotTraceable {
                    evidence: ids@[i]@, class: "CITED"@, traceable_to: "a record present in the collected evidence"@ }).sentence(),
    {
        proof { use_type_invariant(self); }
        let mut citations: Vec<Citation> = Vec::new();
        for i in 0..ids.len()
            invariant
                citations@.len() == i,
                registry_ordered(self@),
                forall|k: int| 0 <= k < i ==> !absent(self@, (#[trigger] ids@[k])@),
                forall|k: int| 0 <= k < i ==> (#[trigger] citations@[k]).id@ == ids@[k]@
                    && citations@[k].kind == cited_kind(self@, ids@[k]@),
        {
            match self.get(ids[i].as_str()) {
                Some(record) => {
                    let ghost prior = citations@;
                    let citation = record.reference();
                    citations.push(citation);
                    proof {
                        let j = choose|j: int| 0 <= j < self@.len() && self@[j] == *record && record.id@ == ids@[i as int]@;
                        assert(self@[j].id@ == ids@[i as int]@);
                        assert(!absent(self@, ids@[i as int]@));
                        lemma_cited_kind(self@, j);
                        assert forall|k: int| 0 <= k < i + 1 implies (#[trigger] citations@[k]).id@ == ids@[k]@
                            && citations@[k].kind == cited_kind(self@, ids@[k]@) by {
                            if k < i {
                                assert(citations@[k] == prior[k]);
                            }
                        }
                    }
                },
                None => {
                    let failure = EvidenceFailure::NotTraceable {
                        evidence: ids[i].clone(),
                        class: String::from_str("CITED"),
                        traceable_to: String::from_str("a record present in the collected evidence"),
                    };
                    proof {
                        reveal_strlit("CITED");
                        reveal_strlit("a record present in the collected evidence");
                    }
                    return Err(failure.into_error());
                },
            }
        }
        Ok(citations)
    }

    /// The pairs of records that declare a contradiction, ordered by the declaring record
    /// and then the contradicted one.
    ///
    /// Only declared contradictions count: two records whose contents differ may simply be
    /// about different things, and inferring conflict from inequality would make the
    /// conflicting status meaningless.
    pub fn contradictions(&self) -> (pairs: Vec<(&EvidenceRecord, &EvidenceRecord)>)
        ensures
            pair_values(pairs@) == declared(self@, self@.len() as int),
    {
        let mut pairs: Vec<(&EvidenceRecord, &EvidenceRecord)> = Vec::new();
        let n = self.records.len();
        for a in 0..n
            invariant
                n == self.records@.len(),
                pair_values(pairs@) == declared(self.records@, a as int),
        {
            let left = &self.records[a];
            let ghost before_left = pair_values(pairs@);
            for b in 0..n
                invariant
                    n == self.records@.len(),
                    a < n,
                    *left == self.records@[a as int],
                    pair_values(pairs@) == before_left + pairs_of(self.records@, *left, b as int),
            {
                let right = &self.records[b];
                let ghost before_right = pair_values(pairs@);
                for c in 0..left.contradicts.len()
                    invariant
                        b < n,
                        *right == self.records@[b as int],
                        pair_values(pairs@) == before_right + pairs_for(*left, *right, c as int),
                {
                    let ghost prior = pairs@;
                    if str_equals(left.contradicts[c].as_str(), right.id.as_str()) {
                        pairs.push((left, right));
                        proof { assert(pair_values(pairs@) =~= pair_values(prior).push((*left, *right))); }
                    }
                    proof {
                        assert(pair_values(pairs@) =~= before_right + pairs_for(*left, *right, c + 1));
                    }
                }
                proof {
                    assert(pair_values(pairs@) =~= before_left + pairs_of(self.records@, *left, b + 1));
                }
            }
            proof {
                assert(pair_values(pairs@) =~= declared(self.records@, a + 1));
            }
        }
        pairs
    }

    /// A failure for each contradiction citation that names no record of the set, record
    /// by record and citation by citation.
    ///
    /// A conflict names two records; with one missing it cannot be evaluated, and
    /// reporting it as resolved would be worse than reporting it as unresolvable.
    pub fn unresolvable_contradictions(&self) -> (failures: Vec<EvidenceFailure>)
        ensures
            failure_views(failures@) == dangling(self@, self@.len() as int),
    {
        let mut failures: Vec<EvidenceFailure> = Vec::new();
        for a in 0..self.records.len()
            invariant
                failure_views(failures@) == dangling(self.records@, a as int),
        {
            let record = &self.records[a];
            let ghost before = failure_views(failures@);
            for c in 0..record.contradicts.len()
                invariant
                    *record == self.records@[a as int],
                    failure_views(failures@) == before + dangling_of(self.records@, *record, c as int),
            {
                let ghost prior = failures@;
                let cited = &record.contradicts[c];
                let mut present = false;
                for k in 0..self.records.len()
                    invariant
                        present == !absent(self.records@.take(k as int), cited@),
                {
                    if str_equals(self.records[k].id.as_str(), cited.as_str()) {
                        present = true;
                    }
                    proof {
                        assert forall|x: int| 0 <= x < k implies self.records@.take(k + 1)[x] == self.records@.take(k as int)[x] by {}
                        assert(self.records@.take(k + 1)[k as int] == self.records@[k as int]);
                        if !absent(self.records@.take(k as int), cited@) {
                            let x = choose|x: int| 0 <= x < k && (#[trigger] self.records@.take(k as int)[x]).id@ == cited@;
                            assert(self.records@.take(k + 1)[x].id@ == cited@);
                        }
                    }
                }
                proof { assert(self.records@.take(self.records@.len() as int) =~= self.records@); }
                if !present {
                    failures.push(EvidenceFailure::ContradictionUnresolvable { evidence: record.id.clone(), cited: cited.clone() });
                    proof { assert(failure_views(failures@) =~= failure_views(prior).push(failures@.last()@)); }
                }
                proof {
                    assert(failure_views(failures@) =~= before + dangling_of(self.records@, *record, c + 1));
                }
            }
            proof {
                assert(failure_views(failures@) =~= dangling(self.records@, a + 1));
            }
        }
        failures
    }

    /// Whether any evidence in the set is in declared conflict.
    pub fn has_conflict(&self) -> (conflict: bool)
        ensures
            conflict == (declared(self@, self@.len() as int).len() > 0),
    {
        let pairs = self.contradictions();
        pairs.len() > 0
    }

    /// The entity a record concerns, where it names one: the executable or artifact its
    /// digest addresses, or else the contract it names.
    pub fn subject_of(record: &EvidenceRecord) -> (entity: Option<EntityRef>)
        ensures
            match entity {
                Some(e) => subject_spec(*record) == Some((e.kind@, e.id@)),
                None => subject_spec(*record) is None,
            },
    {
        match &record.digest {
            Some(digest) => {
                if record.class.requires_digest() {
                    let kind = if record.class.recognised() == Some(EvidenceKind::Wasm) {
                        String::from_str("WASM")
                    } else {
                        String::from_str("ARTIFACT")
                    };
                    proof {
                        reveal_strlit("WASM");
                        reveal_strlit("ARTIFACT");
                    }
                    return Some(EntityRef::new(kind, digest.value.clone()));
                }
            },
            None => {},
        }
        match &record.contract_id {
            Some(address) => {
                proof { reveal_strlit("CONTRACT"); }
                Some(EntityRef::new(String::from_str("CONTRACT"), address.clone()))
            },
            None => None,
        }
    }
}

/// A record `r` is what a constructor builds when it is citable, and otherwise the
/// constructor refuses with the record's first failure.
pub open spec fn settled(result: Result<EvidenceRecord, EngineError>, r: EvidenceRecord) -> bool {
    match result {
        Ok(built) => built == r && record_failures(r).len() == 0,
        Err(e) => record_failures(r).len() > 0 && e.spec_message() == record_failures(r)[0].sentence(),
    }
}

/// Hands back a record when it is citable, or its first failure.
pub fn settle(record: EvidenceRecord) -> (result: Result<EvidenceRecord, EngineError>)
    ensures
        settled(result, record),
{
    match record.validate() {
        Ok(()) => Ok(record),
        Err(e) => Err(e),
    }
}

} // verus!
