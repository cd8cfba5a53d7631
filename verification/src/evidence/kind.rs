//! The evidence classes this version defines, and the class of a record whose term it
//! does not know.
//!
//! The vocabulary is open: a consumer must handle a term it does not recognise, so an
//! unrecognised class is kept with its raw term and is permitted to support nothing.

use vstd::prelude::*;

use crate::text::str_equals;

verus! {

/// An evidence class this version defines.
#[derive(Debug, Clone, Copy, PartialEq, Eq, Structural)]
pub enum EvidenceKind {
    /// Source code read at a revision.
    Source,
    /// A build and the inputs it declares.
    Build,
    /// An artifact addressed by its content digest.
    Artifact,
    /// An executable the network reported at a boundary.
    Wasm,
    /// A deployment transition recorded on a ledger.
    Deployment,
    /// A transaction on a named network.
    Transaction,
    /// An event emitted by a transaction.
    Event,
    /// An attestation and the claim it states.
    Attestation,
    /// An observation, stated factually.
    Observation,
}

impl EvidenceKind {
    /// The wire name, as the contracts speak of it.
    pub open spec fn name(self) -> Seq<char> {
        match self {
            EvidenceKind::Source => "SOURCE"@,
            EvidenceKind::Build => "BUILD"@,
            EvidenceKind::Artifact => "ARTIFACT"@,
            EvidenceKind::Wasm => "WASM"@,
            EvidenceKind::Deployment => "DEPLOYMENT"@,
            EvidenceKind::Transaction => "TRANSACTION"@,
            EvidenceKind::Event => "EVENT"@,
            EvidenceKind::Attestation => "ATTESTATION"@,
            EvidenceKind::Observation => "OBSERVATION"@,
        }
    }

    /// The stable wire name.
    pub fn as_str(self) -> (s: &'static str)
        ensures
            s@ == self.name(),
    {
        match self {
            EvidenceKind::Source => "SOURCE",
            EvidenceKind::Build => "BUILD",
            EvidenceKind::Artifact => "ARTIFACT",
            EvidenceKind::Wasm => "WASM",
            EvidenceKind::Deployment => "DEPLOYMENT",
            EvidenceKind::Transaction => "TRANSACTION",
            EvidenceKind::Event => "EVENT",
            EvidenceKind::Attestation => "ATTESTATION",
            EvidenceKind::Observation => "OBSERVATION",
        }
    }

    /// Every class, in the taxonomy's order.
    pub open spec fn all_spec() -> Seq<EvidenceKind> {
        seq![
            EvidenceKind::Source,
            EvidenceKind::Build,
            EvidenceKind::Artifact,
            EvidenceKind::Wasm,
            EvidenceKind::Deployment,
            EvidenceKind::Transaction,
            EvidenceKind::Event,
            EvidenceKind::Attestation,
            EvidenceKind::Observation,
        ]
    }

    /// Every class, in the taxonomy's order.
    pub fn all() -> (kinds: Vec<EvidenceKind>)
        ensures
            kinds@ == Self::all_spec(),
    {
        vec![
            EvidenceKind::Source,
            EvidenceKind::Build,
            EvidenceKind::Artifact,
            EvidenceKind::Wasm,
            EvidenceKind::Deployment,
            EvidenceKind::Transaction,
            EvidenceKind::Event,
            EvidenceKind::Attestation,
            EvidenceKind::Observation,
        ]
    }

    /// The class whose wire name is `term`, if this version defines one.
    pub fn from_term(term: &str) -> (kind: Option<EvidenceKind>)
        ensures
            kind matches Some(k) ==> k.name() == term@,
            kind is None ==> forall|k: EvidenceKind| k.name() != term@,
            forall|k: EvidenceKind| #[trigger] k.name() == term@ ==> kind == Some(k),
    {
        proof {
            assert forall|a: EvidenceKind, b: EvidenceKind| #[trigger] a.name() == #[trigger] b.name() implies a == b by {
                wire_names_are_distinct(a, b);
            }
        }
        let kinds = Self::all();
        let mut i: usize = 0;
        while i < kinds.len()
            invariant
                kinds@ == Self::all_spec(),
                i <= kinds.len(),
                forall|j: int| 0 <= j < i ==> (#[trigger] kinds@[j]).name() != term@,
                forall|a: EvidenceKind, b: EvidenceKind| #[trigger] a.name() == #[trigger] b.name() ==> a == b,
            decreases kinds.len() - i,
        {
            if str_equals(kinds[i].as_str(), term) {
                return Some(kinds[i]);
            }
            i = i + 1;
        }
        proof {
            assert forall|k: EvidenceKind| k.name() != term@ by {
                let j: int = match k {
                    EvidenceKind::Source => 0,
                    EvidenceKind::Build => 1,
                    EvidenceKind::Artifact => 2,
                    EvidenceKind::Wasm => 3,
                    EvidenceKind::Deployment => 4,
                    EvidenceKind::Transaction => 5,
                    EvidenceKind::Event => 6,
                    EvidenceKind::Attestation => 7,
                    EvidenceKind::Observation => 8,
                };
                assert(kinds@[j] == k);
            }
        }
        None
    }
}

/// Each class has a wire name of its own, so a class written out by name reads back as
/// the same class.
pub proof fn wire_names_are_distinct(a: EvidenceKind, b: EvidenceKind)
    ensures
        a.name() == b.name() ==> a == b,
{
    reveal_strlit("SOURCE");
    reveal_strlit("BUILD");
    reveal_strlit("ARTIFACT");
    reveal_strlit("WASM");
    reveal_strlit("DEPLOYMENT");
    reveal_strlit("TRANSACTION");
    reveal_strlit("EVENT");
    reveal_strlit("ATTESTATION");
    reveal_strlit("OBSERVATION");
    if a.name() == b.name() {
        assert(a.name().len() == b.name().len());
        assert(a.name()[0] == b.name()[0]);
    }
}

/// An evidence class: one this version defines, or a term it does not recognise.
#[derive(Debug, Clone, PartialEq, Eq)]
pub enum EvidenceClass {
    /// A class this version defines.
    Recognised(EvidenceKind),
    /// A term from a later version or another producer.
    Unrecognised(String),
}

impl EvidenceClass {
    /// The wire name, as the contracts speak of it.
    pub open spec fn name(&self) -> Seq<char> {
        match self {
            EvidenceClass::Recognised(kind) => kind.name(),
            EvidenceClass::Unrecognised(term) => term@,
        }
    }

    /// The recognised class, as the contracts speak of it.
    pub open spec fn kind(&self) -> Option<EvidenceKind> {
        match self {
            EvidenceClass::Recognised(kind) => Some(*kind),
            EvidenceClass::Unrecognised(_) => None,
        }
    }

    /// The class for a term, recognised or not.
    pub fn parse(term: &str) -> (class: EvidenceClass)
        ensures
            class.name() == term@,
            (class is Recognised) == exists|k: EvidenceKind| k.name() == term@,
            forall|k: EvidenceKind| #[trigger] k.name() == term@ ==> class.kind() == Some(k),
    {
        match EvidenceKind::from_term(term) {
            Some(kind) => EvidenceClass::Recognised(kind),
            None => EvidenceClass::Unrecognised(term.to_owned()),
        }
    }

    /// The stable wire name.
    pub fn as_str(&self) -> (s: &str)
        ensures
            s@ == self.name(),
    {
        match self {
            EvidenceClass::Recognised(kind) => kind.as_str(),
            EvidenceClass::Unrecognised(term) => term.as_str(),
        }
    }

    /// Whether this version understands the class.
    pub fn is_recognised(&self) -> (recognised: bool)
        ensures
            recognised == (self is Recognised),
    {
        match self {
            EvidenceClass::Recognised(_) => true,
            EvidenceClass::Unrecognised(_) => false,
        }
    }

    /// The recognised class, when this version understands it.
    pub fn recognised(&self) -> (kind: Option<EvidenceKind>)
        ensures
            kind == self.kind(),
    {
        match self {
            EvidenceClass::Recognised(kind) => Some(*kind),
            EvidenceClass::Unrecognised(_) => None,
        }
    }

    /// What an auditor consults, as the contracts speak of it.
    pub open spec fn traceable_text(&self) -> Option<Seq<char>> {
        match self.kind() {
            Some(EvidenceKind::Source) => Some("the source repository at the recorded revision"@),
            Some(EvidenceKind::Build) => Some("the build record and the inputs it declares"@),
            Some(EvidenceKind::Artifact) => Some("the artifact content addressed by the digest"@),
            Some(EvidenceKind::Wasm) => Some("the network observation at a recorded ledger boundary"@),
            Some(EvidenceKind::Deployment) => Some("the deployment transaction and the ledger it was included in"@),
            Some(EvidenceKind::Transaction) => Some("the transaction hash on a named network"@),
            Some(EvidenceKind::Event) => Some("the emitting transaction and the event index"@),
            Some(EvidenceKind::Attestation) => Some("the attestation issuer and the exact claim text"@),
            Some(EvidenceKind::Observation) => Some("the observation record with its timestamp and boundary"@),
            None => None,
        }
    }

    /// What an auditor consults to confirm evidence of this class.
    ///
    /// `None` for an unrecognised class: there is no definition for a term this version
    /// does not know, and a guess would be the interpretation the open vocabulary forbids.
    pub fn traceable_to(&self) -> (text: Option<&'static str>)
        ensures
            match text {
                Some(t) => self.traceable_text() == Some(t@),
                None => self.traceable_text() is None,
            },
    {
        match self.recognised() {
            Some(EvidenceKind::Source) => Some("the source repository at the recorded revision"),
            Some(EvidenceKind::Build) => Some("the build record and the inputs it declares"),
            Some(EvidenceKind::Artifact) => Some("the artifact content addressed by the digest"),
            Some(EvidenceKind::Wasm) => Some("the network observation at a recorded ledger boundary"),
            Some(EvidenceKind::Deployment) => Some("the deployment transaction and the ledger it was included in"),
            Some(EvidenceKind::Transaction) => Some("the transaction hash on a named network"),
            Some(EvidenceKind::Event) => Some("the emitting transaction and the event index"),
            Some(EvidenceKind::Attestation) => Some("the attestation issuer and the exact claim text"),
            Some(EvidenceKind::Observation) => Some("the observation record with its timestamp and boundary"),
            None => None,
        }
    }

    /// Whether the class derives from a chain, as the contracts speak of it.
    pub open spec fn spec_requires_boundary(&self) -> bool {
        match self.kind() {
            Some(EvidenceKind::Wasm) | Some(EvidenceKind::Transaction) | Some(EvidenceKind::Deployment)
            | Some(EvidenceKind::Event) => true,
            _ => false,
        }
    }

    /// Whether the class is derived from network observation and therefore needs a
    /// boundary: which chain, and at what point in its history.
    pub fn requires_boundary(&self) -> (required: bool)
        ensures
            required == self.spec_requires_boundary(),
    {
        match self.recognised() {
            Some(EvidenceKind::Wasm) | Some(EvidenceKind::Transaction) | Some(EvidenceKind::Deployment)
            | Some(EvidenceKind::Event) => true,
            _ => false,
        }
    }

    /// Whether the class addresses content, as the contracts speak of it.
    pub open spec fn spec_requires_digest(&self) -> bool {
        match self.kind() {
            Some(EvidenceKind::Artifact) | Some(EvidenceKind::Wasm) => true,
            _ => false,
        }
    }

    /// Whether the class addresses content and therefore needs a digest.
    pub fn requires_digest(&self) -> (required: bool)
        ensures
            required == self.spec_requires_digest(),
    {
        match self.recognised() {
            Some(EvidenceKind::Artifact) | Some(EvidenceKind::Wasm) => true,
            _ => false,
        }
    }
}

} // verus!
