//! Graph nodes: one entity per identifier, with the structural facts about it.
//!
//! A node is not a copy of an entity, it is *the* name for one: its identifier is the
//! entity reference's rendering, `KIND:id`, so an edge never has to carry a second,
//! possibly disagreeing, description of what it points at, and a `WASM` node and an
//! `ARTIFACT` node with the same content digest stay two nodes.

use vstd::prelude::*;

use crate::order::{compare_text, lex_lt, triple_lt, Keyed, Placement};
use crate::text::str_equals;

verus! {

/// Structural facts about a node's entity that the model gives a field to.
///
/// Every field is optional, and absence is meaningful: the fact was not established
/// within the observation boundary, which is a different statement from it being false.
#[derive(Debug, Clone, PartialEq, Eq)]
pub struct NodeAttributes {
    /// The contract address, for a `CONTRACT` node.
    pub contract_id: Option<String>,
    /// The network the node's entity was observed on.
    pub network_id: Option<String>,
    /// The source revision, for a `SOURCE` or `BUILD` node.
    pub revision: Option<String>,
    /// The declared version, for a `PACKAGE` or `BUILD` node.
    pub version: Option<String>,
    /// Whether the node's entity lies outside the observable boundary.
    pub external: Option<bool>,
}

impl NodeAttributes {
    /// No attribute recorded.
    pub fn new() -> (attributes: NodeAttributes)
        ensures
            attributes.contract_id is None,
            attributes.network_id is None,
            attributes.revision is None,
            attributes.version is None,
            attributes.external is None,
    {
        NodeAttributes { contract_id: None, network_id: None, revision: None, version: None, external: None }
    }

    /// Whether no attribute was recorded, as the contracts speak of it.
    pub open spec fn spec_is_empty(&self) -> bool {
        self.contract_id is None && self.network_id is None && self.revision is None
            && self.version is None && self.external is None
    }

    /// Whether any attribute was recorded.
    pub fn is_empty(&self) -> (empty: bool)
        ensures
            empty == self.spec_is_empty(),
    {
        self.contract_id.is_none() && self.network_id.is_none() && self.revision.is_none()
            && self.version.is_none() && self.external.is_none()
    }

    /// Records whether the node's entity lies outside the observable boundary.
    pub fn with_external(self, external: bool) -> (attributes: NodeAttributes)
        ensures
            attributes.external == Some(external),
            attributes.contract_id == self.contract_id,
            attributes.network_id == self.network_id,
            attributes.revision == self.revision,
            attributes.version == self.version,
    {
        let mut attributes = self;
        attributes.external = Some(external);
        attributes
    }

    /// Records the network the entity was observed on.
    pub fn with_network(self, network_id: String) -> (attributes: NodeAttributes)
        ensures
            attributes.network_id == Some(network_id),
            attributes.contract_id == self.contract_id,
            attributes.revision == self.revision,
            attributes.version == self.version,
            attributes.external == self.external,
    {
        let mut attributes = self;
        attributes.network_id = Some(network_id);
        attributes
    }

    /// Records a source revision.
    pub fn with_revision(self, revision: String) -> (attributes: NodeAttributes)
        ensures
            attributes.revision == Some(revision),
            attributes.contract_id == self.contract_id,
            attributes.network_id == self.network_id,
            attributes.version == self.version,
            attributes.external == self.external,
    {
        let mut attributes = self;
        attributes.revision = Some(revision);
        attributes
    }

    /// Records a declared version.
    pub fn with_version(self, version: String) -> (attributes: NodeAttributes)
        ensures
            attributes.version == Some(version),
            attributes.contract_id == self.contract_id,
            attributes.network_id == self.network_id,
            attributes.revision == self.revision,
            attributes.external == self.external,
    {
        let mut attributes = self;
        attributes.version = Some(version);
        attributes
    }
}

impl Default for NodeAttributes {
    fn default() -> (attributes: NodeAttributes)
        ensures
            attributes.spec_is_empty(),
    {
        NodeAttributes::new()
    }
}

/// A reference to an entity: its kind's wire name and its identifier.
#[derive(Debug, Clone, PartialEq, Eq)]
pub struct EntityRef {
    /// The entity kind's wire name, such as `CONTRACT` or `WASM`.
    pub kind: String,
    /// The identifier within that kind.
    pub id: String,
}

/// A copy of an entity reference.
pub fn copy_entity(e: &EntityRef) -> (copy: EntityRef)
    ensures
        copy == *e,
{
    EntityRef { kind: e.kind.clone(), id: e.id.clone() }
}

/// How an entity reference is written: `KIND:id`.
pub open spec fn rendered(kind: Seq<char>, id: Seq<char>) -> Seq<char> {
    kind + ":"@ + id
}

impl EntityRef {
    /// A reference to an entity of a kind.
    pub fn new(kind: String, id: String) -> (entity: EntityRef)
        ensures
            entity.kind == kind,
            entity.id == id,
    {
        EntityRef { kind, id }
    }

    /// The reference as the contracts speak of it.
    pub open spec fn rendering(&self) -> Seq<char> {
        rendered(self.kind@, self.id@)
    }

    /// The reference written `KIND:id`, the form a node is identified by.
    pub fn render(&self) -> (text: String)
        ensures
            text@ == self.rendering(),
    {
        let mut text = String::new();
        text.append(self.kind.as_str());
        proof { assert(text@ =~= self.kind@); }
        text.append(":");
        text.append(self.id.as_str());
        text
    }

    /// Whether two references name the same entity.
    pub fn same_as(&self, other: &EntityRef) -> (same: bool)
        ensures
            same == (self.kind@ == other.kind@ && self.id@ == other.id@),
    {
        str_equals(self.kind.as_str(), other.kind.as_str()) && str_equals(self.id.as_str(), other.id.as_str())
    }
}

/// A typed entity in a graph.
#[derive(Debug, Clone, PartialEq, Eq)]
pub struct Node {
    /// The node's identifier, which is also how an edge refers to it.
    pub id: String,
    /// What kind of entity the node is.
    pub kind: String,
    /// A human-readable label, for reports; never read by any analysis.
    pub label: Option<String>,
    /// The content digest of the node's entity, where one exists.
    pub digest: Option<String>,
    /// The closed set of structural facts about the node's entity.
    pub attributes: Option<NodeAttributes>,
}

impl Node {
    /// Builds the node for an entity reference.
    pub fn for_entity(entity: &EntityRef) -> (node: Node)
        ensures
            node.id@ == entity.rendering(),
            node.kind@ == entity.kind@,
            node.label is None,
            node.digest is None,
            node.attributes is None,
    {
        Node {
            id: entity.render(),
            kind: String::from_str(entity.kind.as_str()),
            label: None,
            digest: None,
            attributes: None,
        }
    }

    /// Builds the node for a `WASM` entity, identified and carrying its digest.
    pub fn for_wasm(digest: &str) -> (node: Node)
        ensures
            node.id@ == rendered("WASM"@, digest@),
            node.kind@ == "WASM"@,
            node.digest matches Some(d) && d@ == digest@,
            node.label is None,
            node.attributes is None,
    {
        let entity = EntityRef::new(String::from_str("WASM"), String::from_str(digest));
        let mut node = Node::for_entity(&entity);
        node.digest = Some(String::from_str(digest));
        node
    }

    /// Whether this node is the given entity: the identifier and the kind both agree.
    pub fn matches(&self, entity: &EntityRef) -> (matches: bool)
        ensures
            matches == (self.id@ == entity.rendering() && self.kind@ == entity.kind@),
    {
        let rendered = entity.render();
        str_equals(self.id.as_str(), rendered.as_str()) && str_equals(self.kind.as_str(), entity.kind.as_str())
    }

    /// Records a human-readable label.
    pub fn with_label(self, label: String) -> (node: Node)
        ensures
            node.label == Some(label),
            node.id == self.id,
            node.kind == self.kind,
            node.digest == self.digest,
            node.attributes == self.attributes,
    {
        let mut node = self;
        node.label = Some(label);
        node
    }

    /// Records the entity's content digest.
    pub fn with_digest(self, digest: String) -> (node: Node)
        ensures
            node.digest == Some(digest),
            node.id == self.id,
            node.kind == self.kind,
            node.label == self.label,
            node.attributes == self.attributes,
    {
        let mut node = self;
        node.digest = Some(digest);
        node
    }

    /// Records structural facts about the entity.
    pub fn with_attributes(self, attributes: NodeAttributes) -> (node: Node)
        ensures
            node.attributes == Some(attributes),
            node.id == self.id,
            node.kind == self.kind,
            node.label == self.label,
            node.digest == self.digest,
    {
        let mut node = self;
        node.attributes = Some(attributes);
        node
    }

    /// Whether the node is marked as lying outside the observable boundary, as the
    /// contracts speak of it.
    pub open spec fn spec_is_external(&self) -> bool {
        self.attributes matches Some(a) && a.external == Some(true)
    }

    /// Whether the node is marked as lying outside the observable boundary.
    pub fn is_external(&self) -> (external: bool)
        ensures
            external == self.spec_is_external(),
    {
        match &self.attributes {
            Some(attributes) => match attributes.external {
                Some(external) => external,
                None => false,
            },
            None => false,
        }
    }
}

/// A kind's position in the shared vocabulary: the first place it appears, or
/// `usize::MAX` for a kind outside it.
pub fn kind_rank(kind: &str, vocabulary: &Vec<String>) -> (rank: usize)
    ensures
        rank < vocabulary@.len() ==> vocabulary@[rank as int]@ == kind@
            && forall|j: int| 0 <= j < rank ==> (#[trigger] vocabulary@[j])@ != kind@,
        rank >= vocabulary@.len() ==> rank == usize::MAX
            && forall|j: int| 0 <= j < vocabulary@.len() ==> (#[trigger] vocabulary@[j])@ != kind@,
{
    for i in 0..vocabulary.len()
        invariant
            forall|j: int| 0 <= j < i ==> (#[trigger] vocabulary@[j])@ != kind@,
    {
        if str_equals(vocabulary[i].as_str(), kind) {
            return i;
        }
    }
    usize::MAX
}

/// Node `a` sorts strictly before node `b`: by the kind's rank in the vocabulary, then by
/// identifier.
pub open spec fn node_before(a_rank: usize, a_id: Seq<char>, b_rank: usize, b_id: Seq<char>) -> bool {
    a_rank < b_rank || (a_rank == b_rank && lex_lt(a_id, b_id))
}

/// Where node `left` sorts relative to node `right`: by the kind's position in the
/// vocabulary, then by identifier. The label takes no part.
pub fn canonical_order(left: &Node, right: &Node, vocabulary: &Vec<String>) -> (order: std::cmp::Ordering)
    ensures
        (order == std::cmp::Ordering::Less) == node_before(
            kind_rank_of(left.kind@, vocabulary@), left.id@, kind_rank_of(right.kind@, vocabulary@), right.id@),
        (order == std::cmp::Ordering::Greater) == node_before(
            kind_rank_of(right.kind@, vocabulary@), right.id@, kind_rank_of(left.kind@, vocabulary@), left.id@),
{
    let l = kind_rank(left.kind.as_str(), vocabulary);
    let r = kind_rank(right.kind.as_str(), vocabulary);
    proof {
        lemma_kind_rank_of(left.kind@, vocabulary@, l);
        lemma_kind_rank_of(right.kind@, vocabulary@, r);
        crate::order::lemma_lex_total(left.id@, right.id@);
    }
    if l < r {
        std::cmp::Ordering::Less
    } else if l > r {
        std::cmp::Ordering::Greater
    } else {
        match compare_text(left.id.as_str(), right.id.as_str()) {
            Placement::Before => std::cmp::Ordering::Less,
            Placement::Same => std::cmp::Ordering::Equal,
            Placement::After => std::cmp::Ordering::Greater,
        }
    }
}

/// The rank [`kind_rank`] computes, as the contracts speak of it.
pub open spec fn kind_rank_of(kind: Seq<char>, vocabulary: Seq<String>) -> usize {
    if exists|i: int| 0 <= i < vocabulary.len() && (#[trigger] vocabulary[i])@ == kind {
        first_index_of(kind, vocabulary)
    } else {
        usize::MAX
    }
}

/// The first position at which `kind` appears in `vocabulary`.
pub open spec fn first_index_of(kind: Seq<char>, vocabulary: Seq<String>) -> usize
    decreases vocabulary.len(),
{
    if vocabulary.len() == 0 {
        0
    } else if vocabulary.last()@ == kind && !(exists|i: int| 0 <= i < vocabulary.len() - 1 && (#[trigger] vocabulary[i])@ == kind) {
        (vocabulary.len() - 1) as usize
    } else {
        first_index_of(kind, vocabulary.drop_last())
    }
}

/// The rank [`kind_rank`] returns is the one the contracts name.
pub proof fn lemma_kind_rank_of(kind: Seq<char>, vocabulary: Seq<String>, rank: usize)
    requires
        rank < vocabulary.len() ==> vocabulary[rank as int]@ == kind
            && forall|j: int| 0 <= j < rank ==> (#[trigger] vocabulary[j])@ != kind,
        rank >= vocabulary.len() ==> rank == usize::MAX
            && forall|j: int| 0 <= j < vocabulary.len() ==> (#[trigger] vocabulary[j])@ != kind,
    ensures
        rank == kind_rank_of(kind, vocabulary),
    decreases vocabulary.len(),
{
    if rank < vocabulary.len() {
        assert(vocabulary[rank as int]@ == kind);
        lemma_first_index(kind, vocabulary, rank);
    }
}

proof fn lemma_first_index(kind: Seq<char>, vocabulary: Seq<String>, rank: usize)
    requires
        rank < vocabulary.len(),
        vocabulary[rank as int]@ == kind,
        forall|j: int| 0 <= j < rank ==> (#[trigger] vocabulary[j])@ != kind,
    ensures
        first_index_of(kind, vocabulary) == rank,
    decreases vocabulary.len(),
{
    if rank == vocabulary.len() - 1 {
    } else {
        assert(vocabulary.last()@ == kind ==> exists|i: int| 0 <= i < vocabulary.len() - 1 && (#[trigger] vocabulary[i])@ == kind);
        let shorter = vocabulary.drop_last();
        assert(shorter[rank as int] == vocabulary[rank as int]);
        assert forall|j: int| 0 <= j < rank implies (#[trigger] shorter[j])@ != kind by {
            assert(shorter[j] == vocabulary[j]);
        }
        lemma_first_index(kind, shorter, rank);
    }
}

impl<'a> Keyed for &'a Node {
    /// A reference sorts where the node it refers to does.
    open spec fn sort_key(&self, vocabulary: Seq<String>) -> (Seq<char>, int, Seq<char>) {
        (**self).sort_key(vocabulary)
    }

    fn precedes(&self, other: &&'a Node, vocabulary: &Vec<String>) -> (before: bool) {
        (**self).precedes(*other, vocabulary)
    }
}

impl Keyed for Node {
    /// Nodes sort by the kind's position in the vocabulary, then by identifier.
    open spec fn sort_key(&self, vocabulary: Seq<String>) -> (Seq<char>, int, Seq<char>) {
        (Seq::empty(), kind_rank_of(self.kind@, vocabulary) as int, self.id@)
    }

    fn precedes(&self, other: &Node, vocabulary: &Vec<String>) -> (before: bool) {
        let l = kind_rank(self.kind.as_str(), vocabulary);
        let r = kind_rank(other.kind.as_str(), vocabulary);
        proof {
            lemma_kind_rank_of(self.kind@, vocabulary@, l);
            lemma_kind_rank_of(other.kind@, vocabulary@, r);
            crate::order::lemma_lex_irreflexive(Seq::<char>::empty());
        }
        if l < r {
            true
        } else if l > r {
            false
        } else {
            match compare_text(self.id.as_str(), other.id.as_str()) {
                Placement::Before => true,
                _ => false,
            }
        }
    }
}

} // verus!
