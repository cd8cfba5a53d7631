//! Graph edges: one established relationship, and the boundary it was observed at.
//!
//! An edge carries the dependency facts the graph reads: its endpoints, its relationship
//! and where that relationship sits in the shared vocabulary, whether the vocabulary
//! permits it between the two endpoint kinds, the evidence it cites and how many hops
//! separate its subject from its target.

use vstd::prelude::*;

use vstd::utf8::encode_utf8;

use crate::digest::{is_sha256_text, sha256_hex, sha256_text};
use crate::evidence::kind::EvidenceKind;
use crate::graph::nodes::EntityRef;
use crate::text::{push_char, str_equals};
use crate::order::{Keyed, triple_lt, compare_text, Placement};

verus! {

/// Where an observation was made: the network and the ledger it had reached.
#[derive(Debug, Clone, PartialEq, Eq)]
pub struct Boundary {
    /// The network's identifier.
    pub network: String,
    /// The ledger sequence the observation was made at.
    pub ledger: u64,
    /// When the observation was made, as an RFC 3339 timestamp.
    pub observed_at: String,
}

/// A citation of an evidence record: its class and its identifier.
#[derive(Debug, Clone, PartialEq, Eq)]
pub struct Citation {
    /// The class of the cited record.
    pub kind: EvidenceKind,
    /// The cited record's identifier.
    pub id: String,
}

/// One established relationship in a graph.
#[derive(Debug, Clone, PartialEq, Eq)]
pub struct Edge {
    /// The edge's stable identifier.
    pub id: String,
    /// The entity the relationship starts at.
    pub source: EntityRef,
    /// The entity the relationship points at.
    pub target: EntityRef,
    /// The relationship's term, such as `INVOCATES`.
    pub relationship: String,
    /// The relationship's position in the shared vocabulary.
    pub relationship_rank: usize,
    /// Whether the vocabulary permits the relationship from the source's kind to the
    /// target's kind.
    pub permitted: bool,
    /// The evidence records establishing the edge.
    pub evidence: Vec<Citation>,
    /// The confidence level's wire name.
    pub confidence: String,
    /// Whether the edge was directly observed rather than inferred.
    pub observed: bool,
    /// How many edges separate the subject from the target: zero for a direct one.
    pub depth: usize,
    /// The boundary the edge was established at, where one was recorded.
    pub boundary: Option<Boundary>,
}

/// How an edge is written: `source -RELATIONSHIP-> target`.
pub open spec fn edge_rendering(source: Seq<char>, relationship: Seq<char>, target: Seq<char>) -> Seq<char> {
    source + " -"@ + relationship + "-> "@ + target
}

/// How edge `e` is written.
pub open spec fn edge_text(e: Edge) -> Seq<char> {
    edge_rendering(e.source.rendering(), e.relationship@, e.target.rendering())
}

/// The first edge written `text`, when one is.
pub open spec fn edge_of(edges: Seq<Edge>, text: Seq<char>) -> Option<Edge>
    decreases edges.len(),
{
    if edges.len() == 0 {
        None
    } else if edge_text(edges[0]) == text {
        Some(edges[0])
    } else {
        edge_of(edges.drop_first(), text)
    }
}

/// The first edge of `edges` written `text`, or `None`.
pub fn edge_for<'a>(edges: &'a Vec<Edge>, text: &str) -> (edge: Option<&'a Edge>)
    ensures
        match edge {
            Some(e) => edge_of(edges@, text@) == Some(*e),
            None => edge_of(edges@, text@) is None,
        },
{
    assert(edges@.skip(0) =~= edges@);
    for i in 0..edges.len()
        invariant
            edge_of(edges@, text@) == edge_of(edges@.skip(i as int), text@),
    {
        assert(edges@.skip(i as int).drop_first() =~= edges@.skip(i + 1));
        assert(edges@.skip(i as int)[0] == edges@[i as int]);
        let rendered = render(&edges[i]);
        if str_equals(rendered.as_str(), text) {
            return Some(&edges[i]);
        }
    }
    assert(edges@.skip(edges@.len() as int) =~= Seq::<Edge>::empty());
    None
}

/// The relationship of the first edge written `text`, when one is.
pub open spec fn relationship_of(edges: Seq<Edge>, text: Seq<char>) -> Option<Seq<char>>
    decreases edges.len(),
{
    if edges.len() == 0 {
        None
    } else if edge_text(edges[0]) == text {
        Some(edges[0].relationship@)
    } else {
        relationship_of(edges.drop_first(), text)
    }
}

/// The relationship of the first edge of `edges` written `text`, or `None`.
pub fn relationship_for<'a>(edges: &'a Vec<Edge>, text: &str) -> (relationship: Option<&'a String>)
    ensures
        match relationship {
            Some(r) => relationship_of(edges@, text@) == Some(r@),
            None => relationship_of(edges@, text@) is None,
        },
{
    assert(edges@.skip(0) =~= edges@);
    for i in 0..edges.len()
        invariant
            relationship_of(edges@, text@) == relationship_of(edges@.skip(i as int), text@),
    {
        assert(edges@.skip(i as int).drop_first() =~= edges@.skip(i + 1));
        assert(edges@.skip(i as int)[0] == edges@[i as int]);
        let rendered = render(&edges[i]);
        if str_equals(rendered.as_str(), text) {
            return Some(&edges[i].relationship);
        }
    }
    assert(edges@.skip(edges@.len() as int) =~= Seq::<Edge>::empty());
    None
}

/// The identifiers of the citations of one kind, in citation order.
pub open spec fn citations_of(citations: Seq<Citation>, kind: EvidenceKind) -> Seq<Seq<char>>
    decreases citations.len(),
{
    if citations.len() == 0 {
        Seq::empty()
    } else if citations.last().kind == kind {
        citations_of(citations.drop_last(), kind).push(citations.last().id@)
    } else {
        citations_of(citations.drop_last(), kind)
    }
}

impl Edge {
    /// The edge's stable identifier.
    pub fn id(&self) -> (id: &str)
        ensures
            id@ == self.id@,
    {
        self.id.as_str()
    }

    /// The entity the relationship starts at.
    pub fn source(&self) -> (source: &EntityRef)
        ensures
            *source == self.source,
    {
        &self.source
    }

    /// The entity the relationship points at.
    pub fn target(&self) -> (target: &EntityRef)
        ensures
            *target == self.target,
    {
        &self.target
    }

    /// The relationship's term.
    pub fn relationship(&self) -> (relationship: &str)
        ensures
            relationship@ == self.relationship@,
    {
        self.relationship.as_str()
    }

    /// The confidence level's wire name.
    pub fn confidence(&self) -> (confidence: &str)
        ensures
            confidence@ == self.confidence@,
    {
        self.confidence.as_str()
    }

    /// The evidence citations establishing the edge.
    pub fn evidence(&self) -> (evidence: &[Citation])
        ensures
            evidence@ == self.evidence@,
    {
        self.evidence.as_slice()
    }

    /// How many edges separate the subject from the target.
    pub fn depth(&self) -> (depth: usize)
        ensures
            depth == self.depth,
    {
        self.depth
    }

    /// Whether the edge lies in the direct partition of its set.
    pub fn is_direct(&self) -> (direct: bool)
        ensures
            direct == (self.depth == 0),
    {
        self.depth == 0
    }

    /// Whether the edge was directly observed rather than inferred.
    pub fn is_directly_observed(&self) -> (observed: bool)
        ensures
            observed == self.observed,
    {
        self.observed
    }

    /// The network the edge was established on, where one was recorded.
    pub fn network(&self) -> (network: Option<&str>)
        ensures
            match self.boundary {
                Some(b) => network matches Some(n) && n@ == b.network@,
                None => network is None,
            },
    {
        match &self.boundary {
            Some(boundary) => Some(boundary.network.as_str()),
            None => None,
        }
    }

    /// The identifiers of the evidence citations of one kind, in citation order.
    pub fn evidence_of(&self, kind: EvidenceKind) -> (ids: Vec<&str>)
        ensures
            ids@.map_values(|id: &str| id@) == citations_of(self.evidence@, kind),
    {
        let mut ids: Vec<&str> = Vec::new();
        for i in 0..self.evidence.len()
            invariant
                ids@.map_values(|id: &str| id@) == citations_of(self.evidence@.take(i as int), kind),
        {
            let citation = &self.evidence[i];
            proof {
                assert(self.evidence@.take(i + 1).drop_last() =~= self.evidence@.take(i as int));
            }
            if citation.kind == kind {
                ids.push(citation.id.as_str());
            }
            proof {
                assert(ids@.map_values(|id: &str| id@) =~= citations_of(self.evidence@.take(i + 1), kind));
            }
        }
        proof {
            assert(self.evidence@.take(self.evidence@.len() as int) =~= self.evidence@);
        }
        ids
    }

    /// The key the canonical edge order compares: source, relationship rank, target.
    pub open spec fn edge_key(&self) -> (Seq<char>, int, Seq<char>) {
        (self.source.rendering(), self.relationship_rank as int, self.target.rendering())
    }
}

impl Keyed for Edge {
    open spec fn sort_key(&self, vocabulary: Seq<String>) -> (Seq<char>, int, Seq<char>) {
        self.edge_key()
    }

    fn precedes(&self, other: &Edge, vocabulary: &Vec<String>) -> (before: bool) {
        let a = self.source.render();
        let b = other.source.render();
        match compare_text(a.as_str(), b.as_str()) {
            Placement::Before => true,
            Placement::After => false,
            Placement::Same => {
                if self.relationship_rank < other.relationship_rank {
                    true
                } else if self.relationship_rank > other.relationship_rank {
                    false
                } else {
                    let c = self.target.render();
                    let d = other.target.render();
                    match compare_text(c.as_str(), d.as_str()) {
                        Placement::Before => true,
                        _ => false,
                    }
                }
            },
        }
    }
}

/// Renders an edge the way every layer renders one: `source -RELATIONSHIP-> target`.
pub fn render(edge: &Edge) -> (text: String)
    ensures
        text@ == edge_rendering(edge.source.rendering(), edge.relationship@, edge.target.rendering()),
{
    let mut text = edge.source.render();
    text.append(" -");
    text.append(edge.relationship.as_str());
    text.append("-> ");
    let target = edge.target.render();
    text.append(target.as_str());
    text
}

/// The text an edge identifier is derived from: the source, the relationship and the
/// target, separated by the unit separator, which none of them can contain.
pub open spec fn stable_pre_image(source: Seq<char>, relationship: Seq<char>, target: Seq<char>) -> Seq<char> {
    source + seq!['\u{1f}'] + relationship + seq!['\u{1f}'] + target
}

/// Text split at its first unit separator gives back the part before it and the rest.
proof fn lemma_split_at_separator(x1: Seq<char>, y1: Seq<char>, x2: Seq<char>, y2: Seq<char>)
    requires
        !x1.contains('\u{1f}'),
        !x2.contains('\u{1f}'),
        x1 + seq!['\u{1f}'] + y1 == x2 + seq!['\u{1f}'] + y2,
    ensures
        x1 == x2,
        y1 == y2,
{
    let p = x1 + seq!['\u{1f}'] + y1;
    assert(p[x1.len() as int] == '\u{1f}');
    assert(p[x2.len() as int] == '\u{1f}');
    if x1.len() < x2.len() {
        assert(x2[x1.len() as int] == p[x1.len() as int]);
        assert(x2.contains('\u{1f}'));
    }
    if x2.len() < x1.len() {
        assert(x1[x2.len() as int] == p[x2.len() as int]);
        assert(x1.contains('\u{1f}'));
    }
    assert(x1 =~= p.subrange(0, x1.len() as int));
    assert(x2 =~= p.subrange(0, x2.len() as int));
    assert(y1 =~= p.subrange(x1.len() + 1int, p.len() as int));
    assert(y2 =~= p.subrange(x2.len() + 1int, p.len() as int));
}

/// No two different edges share a pre-image: when neither the source nor the
/// relationship contains the unit separator, the pre-image determines the source, the
/// relationship and the target, so an identifier derived from it changes whenever one of
/// them does (up to the digest's own collisions, which nothing here states).
pub proof fn pre_images_are_distinct(
    source1: Seq<char>, relationship1: Seq<char>, target1: Seq<char>,
    source2: Seq<char>, relationship2: Seq<char>, target2: Seq<char>,
)
    requires
        !source1.contains('\u{1f}'),
        !relationship1.contains('\u{1f}'),
        !source2.contains('\u{1f}'),
        !relationship2.contains('\u{1f}'),
    ensures
        stable_pre_image(source1, relationship1, target1) == stable_pre_image(source2, relationship2, target2)
            ==> source1 == source2 && relationship1 == relationship2 && target1 == target2,
{
    if stable_pre_image(source1, relationship1, target1) == stable_pre_image(source2, relationship2, target2) {
        let rest1 = relationship1 + seq!['\u{1f}'] + target1;
        let rest2 = relationship2 + seq!['\u{1f}'] + target2;
        assert(stable_pre_image(source1, relationship1, target1) =~= source1 + seq!['\u{1f}'] + rest1);
        assert(stable_pre_image(source2, relationship2, target2) =~= source2 + seq!['\u{1f}'] + rest2);
        lemma_split_at_separator(source1, rest1, source2, rest2);
        lemma_split_at_separator(relationship1, target1, relationship2, target2);
    }
}

/// The identifier an edge between two entities is given: the SHA-256 digest of its
/// three parts, so that it survives a re-run and changes whenever one of them does.
pub fn stable_id(source: &EntityRef, relationship: &str, target: &EntityRef) -> (id: String)
    ensures
        id@ == sha256_hex(encode_utf8(stable_pre_image(source.rendering(), relationship@, target.rendering()))),
        is_sha256_text(id@),
{
    let mut pre_image = source.render();
    push_char(&mut pre_image, '\u{1f}');
    pre_image.append(relationship);
    push_char(&mut pre_image, '\u{1f}');
    let rendered_target = target.render();
    pre_image.append(rendered_target.as_str());
    proof {
        assert(pre_image@ =~= stable_pre_image(source.rendering(), relationship@, target.rendering()));
    }
    let bytes = pre_image.as_str().as_bytes();
    sha256_text(bytes)
}

/// A relationship's position in the shared vocabulary: the first place it appears, or
/// `usize::MAX` for a term outside it.
pub fn relationship_rank(relationship: &str, vocabulary: &Vec<String>) -> (rank: usize)
    ensures
        rank < vocabulary@.len() ==> vocabulary@[rank as int]@ == relationship@
            && forall|j: int| 0 <= j < rank ==> (#[trigger] vocabulary@[j])@ != relationship@,
        rank >= vocabulary@.len() ==> rank == usize::MAX
            && forall|j: int| 0 <= j < vocabulary@.len() ==> (#[trigger] vocabulary@[j])@ != relationship@,
{
    crate::graph::nodes::kind_rank(relationship, vocabulary)
}

} // verus!
