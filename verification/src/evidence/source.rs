//! Source and build evidence: the repository at a revision, and the build that turned it
//! into an artifact.
//!
//! A source record must name the exact revision, not merely the repository; a build
//! record must name the toolchain and the configuration, because two builds of one
//! revision with different inputs produce different artifacts.

use vstd::prelude::*;

use crate::digest::sha256_hex;
use crate::error::EngineError;
use crate::evidence::collector::{Digest, DigestAlgorithm, EvidenceRecord, RevisionKind, settle, settled};
use crate::evidence::kind::{EvidenceClass, EvidenceKind};

verus! {

/// A source repository read at a revision.
#[derive(Debug, Clone)]
pub struct SourceProvenance {
    /// The repository's URL.
    pub repository: String,
    /// The revision read.
    pub revision: String,
    /// What kind of revision it is.
    pub revision_kind: RevisionKind,
    /// A digest over the source archive, where one was taken.
    pub archive_digest: Option<Digest>,
}

/// A compiler identity: its name, its version and, where known, where it came from.
#[derive(Debug, Clone)]
pub struct Toolchain {
    /// The toolchain's name.
    pub name: String,
    /// The toolchain's version.
    pub version: String,
    /// Where the toolchain came from, where recorded.
    pub source: Option<String>,
}

/// A recorded build.
#[derive(Debug, Clone)]
pub struct BuildProvenance {
    /// The revision built.
    pub source_revision: String,
    /// What kind of revision it is.
    pub source_revision_kind: RevisionKind,
    /// The target the build produced code for.
    pub target: String,
    /// The toolchain the build used.
    pub toolchain: Toolchain,
    /// A digest over the build configuration, where one was recorded.
    pub configuration_digest: Option<Digest>,
    /// A digest over the lockfile, where one was recorded.
    pub lockfile_digest: Option<Digest>,
}

/// What a source record must be traceable to.
pub open spec fn source_trace() -> Seq<char> {
    "the repository and the exact revision, not merely the repository"@
}

/// The claim a source record states.
pub open spec fn source_claim(p: SourceProvenance) -> Seq<char> {
    "the source at "@ + p.repository@ + " revision "@ + p.revision@ + " is the tree the artifact was built from ("@ + source_trace() + ")"@
}

/// The record [`from_source`] builds.
pub open spec fn source_record(r: EvidenceRecord, p: SourceProvenance, id: String, observed_at: String) -> bool {
    &&& r.id == id && r.observed_at == observed_at
    &&& r.class == EvidenceClass::Recognised(EvidenceKind::Source)
    &&& r.claim@ == source_claim(p)
    &&& r.repository == Some(p.repository) && r.revision == Some(p.revision)
    &&& r.revision_kind == Some(p.revision_kind) && r.digest == p.archive_digest
    &&& r.supports@.len() == 0 && r.contradicts@.len() == 0
    &&& r.boundary is None && r.toolchain is None && r.configuration_digest is None
    &&& r.artifact_type is None && r.contract_id is None && r.transaction is None
    &&& r.ledger is None && r.event_index is None && r.successful is None && r.attestation_id is None
    &&& r.attested_claim is None && r.observation_note is None
}

fn copy_digest(d: &Option<Digest>) -> (copy: Option<Digest>)
    ensures
        copy == *d,
{
    match d {
        Some(d) => Some(Digest { algorithm: d.algorithm, value: d.value.clone() }),
        None => None,
    }
}

/// A record for a source repository at a revision.
///
/// A mutable revision is a valid record: it says which tree was read at the moment it
/// was read, and it is rated below decisive for that reason.
pub fn from_source(provenance: &SourceProvenance, id: String, observed_at: String) -> (result: Result<EvidenceRecord, EngineError>)
    ensures
        exists|r: EvidenceRecord| #[trigger] source_record(r, *provenance, id, observed_at) && settled(result, r),
{
    let mut claim = String::from_str("the source at ");
    proof { reveal_strlit("the source at "); }
    claim.append(provenance.repository.as_str());
    claim.append(" revision ");
    claim.append(provenance.revision.as_str());
    claim.append(" is the tree the artifact was built from (");
    claim.append("the repository and the exact revision, not merely the repository");
    claim.append(")");
    let mut record = EvidenceRecord::draft(id, EvidenceClass::Recognised(EvidenceKind::Source), claim, observed_at);
    record.repository = Some(provenance.repository.clone());
    record.revision = Some(provenance.revision.clone());
    record.revision_kind = Some(provenance.revision_kind);
    record.digest = copy_digest(&provenance.archive_digest);
    proof { assert(source_record(record, *provenance, id, observed_at)); }
    settle(record)
}

/// The toolchain as one identity string, as the contracts speak of it.
pub open spec fn toolchain_text(t: Toolchain) -> Seq<char> {
    match t.source {
        Some(source) => t.name@ + " "@ + t.version@ + " ("@ + source@ + ")"@,
        None => t.name@ + " "@ + t.version@,
    }
}

/// The toolchain as one identity string: name, version and, where known, its source.
pub fn toolchain_identity(toolchain: &Toolchain) -> (identity: String)
    ensures
        identity@ == toolchain_text(*toolchain),
{
    let mut identity = toolchain.name.clone();
    identity.append(" ");
    identity.append(toolchain.version.as_str());
    match &toolchain.source {
        Some(source) => {
            identity.append(" (");
            identity.append(source.as_str());
            identity.append(")");
        },
        None => {},
    }
    identity
}

/// The claim a build record states.
pub open spec fn build_claim(p: BuildProvenance) -> Seq<char> {
    "the build of revision "@ + p.source_revision@ + " for target "@ + p.target@ + " produced the artifact under its recorded digest"@
}

/// The record [`from_build`] builds.
pub open spec fn build_record(r: EvidenceRecord, p: BuildProvenance, id: String, observed_at: String) -> bool {
    &&& r.id == id && r.observed_at == observed_at
    &&& r.class == EvidenceClass::Recognised(EvidenceKind::Build)
    &&& r.claim@ == build_claim(p)
    &&& r.toolchain matches Some(t) && t@ == toolchain_text(p.toolchain)
    &&& r.configuration_digest == p.configuration_digest
    &&& r.revision == Some(p.source_revision) && r.revision_kind == Some(p.source_revision_kind)
    &&& r.digest == (if p.lockfile_digest is Some { p.lockfile_digest } else { p.configuration_digest })
    &&& r.supports@.len() == 0 && r.contradicts@.len() == 0
    &&& r.boundary is None && r.repository is None && r.artifact_type is None && r.contract_id is None
    &&& r.transaction is None && r.ledger is None && r.event_index is None && r.successful is None
    &&& r.attestation_id is None && r.attested_claim is None && r.observation_note is None
}

/// A record for a recorded build.
///
/// A build that recorded no configuration cannot produce citable build evidence. The
/// lockfile digest, or failing that the configuration digest, is the record's digest.
pub fn from_build(provenance: &BuildProvenance, id: String, observed_at: String) -> (result: Result<EvidenceRecord, EngineError>)
    ensures
        exists|r: EvidenceRecord| #[trigger] build_record(r, *provenance, id, observed_at) && settled(result, r),
{
    let mut claim = String::from_str("the build of revision ");
    proof { reveal_strlit("the build of revision "); }
    claim.append(provenance.source_revision.as_str());
    claim.append(" for target ");
    claim.append(provenance.target.as_str());
    claim.append(" produced the artifact under its recorded digest");
    let mut record = EvidenceRecord::draft(id, EvidenceClass::Recognised(EvidenceKind::Build), claim, observed_at);
    record.toolchain = Some(toolchain_identity(&provenance.toolchain));
    record.configuration_digest = copy_digest(&provenance.configuration_digest);
    record.revision = Some(provenance.source_revision.clone());
    record.revision_kind = Some(provenance.source_revision_kind);
    record.digest = if provenance.lockfile_digest.is_some() {
        copy_digest(&provenance.lockfile_digest)
    } else {
        copy_digest(&provenance.configuration_digest)
    };
    proof { assert(build_record(record, *provenance, id, observed_at)); }
    settle(record)
}

/// Whether a build's configuration digest is recorded under the algorithm the
/// specification defines.
pub fn configuration_is_recorded(provenance: &BuildProvenance) -> (recorded: bool)
    ensures
        recorded == (provenance.configuration_digest matches Some(d) && d.algorithm == DigestAlgorithm::Sha256),
{
    match &provenance.configuration_digest {
        Some(d) => d.algorithm == DigestAlgorithm::Sha256,
        None => false,
    }
}

/// A digest over a build configuration, for a producer that has the configuration bytes.
///
/// Always SHA-256, the algorithm the specification defines, so that two configuration
/// digests can be compared.
pub fn configuration_digest(configuration: &[u8]) -> (digest: Digest)
    ensures
        digest.algorithm == DigestAlgorithm::Sha256,
        digest.value@ == sha256_hex(configuration@),
{
    Digest::sha256_of(configuration)
}

} // verus!
