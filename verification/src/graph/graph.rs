//! The graph: typed nodes, typed edges, and the integrity rules that make it usable.
//!
//! A graph can be assembled by hand, and a hand-assembled graph can contain an edge whose
//! endpoint was never added, a relationship connecting kinds it does not permit, or two
//! nodes claiming one identifier. Every such problem is a named failure.

use vstd::prelude::*;

use crate::error::EngineError;
use crate::graph::errors::{GraphFailure, first_failure};
use crate::graph::edges::{Boundary, Edge};
use crate::graph::nodes::{EntityRef, Node, NodeAttributes, rendered};
use crate::graph::traversal::TruncationReason;
use crate::order::{Keyed, sort_keyed, in_key_order, compare_text, Placement, lex_lt};
use crate::text::{decimal, decimal_of, str_equals};
use crate::graph::errors::FailureView;

verus! {

/// A typed, directed graph of entities and relationships.
#[derive(Debug, Clone, PartialEq, Eq)]
pub struct Graph {
    /// The graph's identifier within the document that produced it.
    pub id: String,
    /// The observation boundary the graph was assembled at, where one was recorded.
    pub boundary: Option<Boundary>,
    /// The traversal depth the graph was bounded by, where it was bounded.
    pub max_depth: Option<usize>,
    /// Whether traversal stopped before exhausting what is reachable.
    pub truncated: bool,
    /// Why traversal stopped, when it did.
    pub truncation_reason: Option<TruncationReason>,
    /// The graph's nodes.
    pub nodes: Vec<Node>,
    /// The relationships that were established.
    pub edges: Vec<Edge>,
    /// Reachability claims: transitive dependencies, each carrying its path.
    ///
    /// Not edges: a claim says the subject reaches the object, and merging it into the
    /// edges would report a path as though it were one observation.
    pub derived: Vec<Reachability>,
    /// Candidates that could not become dependencies, with the reason for each.
    pub unestablished: Vec<Refusal>,
}

/// A transitive dependency: the subject reaches the object through the intermediates.
#[derive(Debug, Clone, PartialEq, Eq)]
pub struct Reachability {
    /// The entity the claim starts at.
    pub subject: EntityRef,
    /// The entity the claim reaches.
    pub object: EntityRef,
    /// The intermediates, in order.
    pub path: Vec<EntityRef>,
    /// How many edges separate the subject from the object.
    pub depth: usize,
    /// Why the claim is made.
    pub reason: String,
}

/// A candidate that could not become a dependency, and why.
#[derive(Debug, Clone, PartialEq, Eq)]
pub struct Refusal {
    /// The entity the candidate pointed at.
    pub object: EntityRef,
    /// The relationship the candidate claimed.
    pub relationship: String,
    /// Why it was refused.
    pub reason: String,
}

/// Node `i` of `nodes` has the identifier `id`, and no earlier node does.
pub open spec fn first_with_id(nodes: Seq<Node>, id: Seq<char>, i: int) -> bool {
    &&& 0 <= i < nodes.len()
    &&& nodes[i].id@ == id
    &&& forall|j: int| 0 <= j < i ==> (#[trigger] nodes[j]).id@ != id
}

/// No node of `nodes` has the identifier `id`.
pub open spec fn no_node_with_id(nodes: Seq<Node>, id: Seq<char>) -> bool {
    forall|j: int| 0 <= j < nodes.len() ==> (#[trigger] nodes[j]).id@ != id
}

/// Edge `e` touches the node identified `id`.
pub open spec fn touches(e: Edge, id: Seq<char>) -> bool {
    e.source.rendering() == id || e.target.rendering() == id
}

/// The position of the first node identified `id`, if any.
pub fn node_position(nodes: &Vec<Node>, id: &str) -> (position: Option<usize>)
    ensures
        position matches Some(i) ==> first_with_id(nodes@, id@, i as int),
        position is None ==> no_node_with_id(nodes@, id@),
{
    for i in 0..nodes.len()
        invariant
            forall|j: int| 0 <= j < i ==> (#[trigger] nodes@[j]).id@ != id@,
    {
        if str_equals(nodes[i].id.as_str(), id) {
            return Some(i);
        }
    }
    None
}

/// Whether two optional strings hold the same text.
fn same_text(a: &Option<String>, b: &Option<String>) -> (same: bool)
    ensures
        same == (match (a, b) {
            (Some(x), Some(y)) => x@ == y@,
            (None, None) => true,
            _ => false,
        }),
{
    match (a, b) {
        (Some(x), Some(y)) => str_equals(x.as_str(), y.as_str()),
        (None, None) => true,
        _ => false,
    }
}

/// Two attribute sets record the same facts.
pub open spec fn same_attributes(a: NodeAttributes, b: NodeAttributes) -> bool {
    &&& same_text_spec(a.contract_id, b.contract_id)
    &&& same_text_spec(a.network_id, b.network_id)
    &&& same_text_spec(a.revision, b.revision)
    &&& same_text_spec(a.version, b.version)
    &&& a.external == b.external
}

/// Two optional strings hold the same text.
pub open spec fn same_text_spec(a: Option<String>, b: Option<String>) -> bool {
    match (a, b) {
        (Some(x), Some(y)) => x@ == y@,
        (None, None) => true,
        _ => false,
    }
}

/// Two nodes are the same description of one entity.
pub open spec fn same_node(a: Node, b: Node) -> bool {
    &&& a.id@ == b.id@
    &&& a.kind@ == b.kind@
    &&& same_text_spec(a.label, b.label)
    &&& same_text_spec(a.digest, b.digest)
    &&& match (a.attributes, b.attributes) {
        (Some(x), Some(y)) => same_attributes(x, y),
        (None, None) => true,
        _ => false,
    }
}

/// Whether two nodes are the same description of one entity.
pub fn nodes_equal(a: &Node, b: &Node) -> (same: bool)
    ensures
        same == same_node(*a, *b),
{
    let attributes_same = match (&a.attributes, &b.attributes) {
        (Some(x), Some(y)) => same_text(&x.contract_id, &y.contract_id) && same_text(&x.network_id, &y.network_id)
            && same_text(&x.revision, &y.revision) && same_text(&x.version, &y.version) && x.external == y.external,
        (None, None) => true,
        _ => false,
    };
    str_equals(a.id.as_str(), b.id.as_str()) && str_equals(a.kind.as_str(), b.kind.as_str())
        && same_text(&a.label, &b.label) && same_text(&a.digest, &b.digest) && attributes_same
}

/// No edge of `g` touches node `i`.
pub open spec fn is_disconnected(g: Graph, i: int) -> bool {
    forall|e: int| 0 <= e < g.edges@.len() ==> !touches(#[trigger] g.edges@[e], g.nodes@[i].id@)
}

/// `ids` lists, in node order, the identifiers of exactly the nodes of `g` that no edge
/// touches, found at `positions`.
pub open spec fn lists_disconnected(g: Graph, ids: Seq<&str>, positions: Seq<int>) -> bool {
    &&& positions.len() == ids.len()
    &&& forall|a: int, b: int| 0 <= a < b < positions.len() ==> positions[a] < positions[b]
    &&& forall|a: int| 0 <= a < positions.len() ==> 0 <= #[trigger] positions[a] < g.nodes@.len()
        && ids[a]@ == g.nodes@[positions[a]].id@
    &&& forall|i: int| 0 <= i < g.nodes@.len() ==> (positions.contains(i) <==> #[trigger] is_disconnected(g, i))
}

/// The edges a list of references points at.
pub open spec fn deref_edges(s: Seq<&Edge>) -> Seq<Edge> {
    s.map_values(|e: &Edge| *e)
}

/// The nodes a list of references points at.
pub open spec fn deref_nodes(s: Seq<&Node>) -> Seq<Node> {
    s.map_values(|n: &Node| *n)
}

/// The entities a list of references points at.
pub open spec fn deref_entities(s: Seq<&EntityRef>) -> Seq<EntityRef> {
    s.map_values(|t: &EntityRef| *t)
}

/// The targets of a list of edges, in order.
pub open spec fn targets_of(s: Seq<Edge>) -> Seq<EntityRef> {
    s.map_values(|e: Edge| e.target)
}

/// The nodes of `nodes` that no edge of `edges` points at, in order.
pub open spec fn unpointed(nodes: Seq<Node>, edges: Seq<Edge>) -> Seq<Node> {
    nodes.filter(|n: Node| no_edge_into(edges, n.id@))
}

/// The nodes of `nodes` that no edge of `edges` leaves, in order.
pub open spec fn unleft(nodes: Seq<Node>, edges: Seq<Edge>) -> Seq<Node> {
    nodes.filter(|n: Node| no_edge_from(edges, n.id@))
}

/// `a` and `b` name the same entity.
pub open spec fn same_entity(a: EntityRef, b: EntityRef) -> bool {
    a.kind@ == b.kind@ && a.id@ == b.id@
}

/// Node `n` is the plain node for `e`: its identifier and kind, and nothing else.
pub open spec fn plain_node_of(n: Node, e: EntityRef) -> bool {
    &&& n.id@ == e.rendering()
    &&& n.kind@ == e.kind@
    &&& n.label is None
    &&& n.digest is None
    &&& n.attributes is None
}

/// Adding the plain node for `e` to `nodes` would succeed: no node carries its
/// identifier, or the first that does is exactly that node.
pub open spec fn admits(nodes: Seq<Node>, e: EntityRef) -> bool {
    ||| no_node_with_id(nodes, e.rendering())
    ||| exists|i: int| first_with_id(nodes, e.rendering(), i) && plain_node_of(nodes[i], e)
}

/// Adding the plain nodes for `source` and then `target` to `nodes` would succeed.
pub open spec fn admits_both(nodes: Seq<Node>, source: EntityRef, target: EntityRef) -> bool {
    &&& admits(nodes, source)
    &&& if no_node_with_id(nodes, source.rendering()) && target.rendering() == source.rendering() {
        target.kind@ == source.kind@
    } else {
        admits(nodes, target)
    }
}

/// The identifier a deeper-than-direct dependency is reported under when offered as an edge.
pub open spec fn depth_label(depth: usize, source: Seq<char>, target: Seq<char>) -> Seq<char> {
    "depth-"@ + decimal_of(depth as nat) + " dependency "@ + source + " -> "@ + target
}

/// Edge `e` leaves `source`, where one is given, and arrives at `target`, where one is given.
pub open spec fn links(e: Edge, source: Option<EntityRef>, target: Option<EntityRef>) -> bool {
    &&& source matches Some(s) ==> same_entity(e.source, s)
    &&& target matches Some(t) ==> same_entity(e.target, t)
}

/// The edges of `edges` that leave `source` and arrive at `target`, in graph order.
pub open spec fn linking(edges: Seq<Edge>, source: Option<EntityRef>, target: Option<EntityRef>) -> Seq<Edge> {
    edges.filter(|e: Edge| links(e, source, target))
}

/// No edge of `edges` points at the node identified `id`.
pub open spec fn no_edge_into(edges: Seq<Edge>, id: Seq<char>) -> bool {
    forall|k: int| 0 <= k < edges.len() ==> (#[trigger] edges[k]).target.rendering() != id
}

/// No edge of `edges` leaves the node identified `id`.
pub open spec fn no_edge_from(edges: Seq<Edge>, id: Seq<char>) -> bool {
    forall|k: int| 0 <= k < edges.len() ==> (#[trigger] edges[k]).source.rendering() != id
}

/// Node `b` is node `a` with only its attributes changed.
pub open spec fn same_but_attributes(a: Node, b: Node) -> bool {
    &&& a.id == b.id
    &&& a.kind == b.kind
    &&& a.label == b.label
    &&& a.digest == b.digest
}

/// `b` is `a` with `external` recorded and every other attribute kept.
pub open spec fn marked(a: Option<NodeAttributes>, b: Option<NodeAttributes>, external: bool) -> bool {
    b matches Some(after) && after.external == Some(external) && match a {
        Some(before) => after.contract_id == before.contract_id && after.network_id == before.network_id
            && after.revision == before.revision && after.version == before.version,
        None => after.contract_id is None && after.network_id is None && after.revision is None && after.version is None,
    }
}

/// `b` is `a` with the network recorded and every other attribute kept.
pub open spec fn annotated(a: Option<NodeAttributes>, b: Option<NodeAttributes>, network: String) -> bool {
    b matches Some(after) && after.network_id == Some(network) && match a {
        Some(before) => after.contract_id == before.contract_id && after.external == before.external
            && after.revision == before.revision && after.version == before.version,
        None => after.contract_id is None && after.external is None && after.revision is None && after.version is None,
    }
}

/// The node carries a network attribute.
pub open spec fn carries_network(n: Node) -> bool {
    n.attributes matches Some(a) && a.network_id is Some
}

impl Graph {
    /// Builds an empty graph.
    ///
    /// Refused when the identifier is empty: a snapshot, a diff and a report all refer to
    /// a graph by it.
    pub fn new(id: String) -> (result: Result<Graph, EngineError>)
        ensures
            id@.len() == 0 ==> (result matches Err(e) && e.spec_message() == GraphFailure::MissingGraphId.error_message()),
            id@.len() > 0 ==> (result matches Ok(g) && g.id == id && g.nodes@.len() == 0 && g.edges@.len() == 0
                && g.boundary is None && g.max_depth is None && !g.truncated && g.truncation_reason is None
                && g.derived@.len() == 0 && g.unestablished@.len() == 0),
    {
        if id.as_str().unicode_len() == 0 {
            return Err(GraphFailure::MissingGraphId.into_error());
        }
        Ok(Graph {
            id,
            boundary: None,
            max_depth: None,
            truncated: false,
            truncation_reason: None,
            nodes: Vec::new(),
            edges: Vec::new(),
            derived: Vec::new(),
            unestablished: Vec::new(),
        })
    }

    /// Records the traversal bound the graph was assembled under.
    pub fn with_max_depth(self, max_depth: usize) -> (graph: Graph)
        ensures
            graph.max_depth == Some(max_depth),
            graph.id == self.id,
            graph.nodes == self.nodes,
            graph.edges == self.edges,
            graph.truncated == self.truncated,
            graph.truncation_reason == self.truncation_reason,
            graph.boundary == self.boundary,
            graph.derived == self.derived,
            graph.unestablished == self.unestablished,
    {
        let mut graph = self;
        graph.max_depth = Some(max_depth);
        graph
    }

    /// Records that traversal stopped before exhausting what is reachable, and why; the
    /// two are set together so a graph cannot claim one without the other.
    pub fn truncated_by(self, reason: TruncationReason) -> (graph: Graph)
        ensures
            graph.truncated,
            graph.truncation_reason == Some(reason),
            graph.id == self.id,
            graph.nodes == self.nodes,
            graph.edges == self.edges,
            graph.max_depth == self.max_depth,
            graph.boundary == self.boundary,
            graph.derived == self.derived,
            graph.unestablished == self.unestablished,
    {
        let mut graph = self;
        graph.truncated = true;
        graph.truncation_reason = Some(reason);
        graph
    }

    /// Records the observation boundary the graph was assembled at.
    pub fn with_boundary(self, boundary: Boundary) -> (graph: Graph)
        ensures
            graph.boundary == Some(boundary),
            graph.id == self.id,
            graph.nodes == self.nodes,
            graph.edges == self.edges,
            graph.max_depth == self.max_depth,
            graph.truncated == self.truncated,
            graph.truncation_reason == self.truncation_reason,
            graph.derived == self.derived,
            graph.unestablished == self.unestablished,
    {
        let mut graph = self;
        graph.boundary = Some(boundary);
        graph
    }

    /// The network the graph was assembled on, where a boundary was recorded.
    pub fn network(&self) -> (network: Option<&String>)
        ensures
            match self.boundary {
                Some(b) => network == Some(&b.network),
                None => network is None,
            },
    {
        match &self.boundary {
            Some(b) => Some(&b.network),
            None => None,
        }
    }

    /// Adds a node, ignoring one that is already present.
    ///
    /// Adding is idempotent, so that assembly order does not matter; a different node
    /// already claiming the identifier is refused rather than overwritten.
    pub fn add_node(&mut self, node: Node) -> (result: Result<(), EngineError>)
        ensures
            final(self).id == old(self).id,
            final(self).edges == old(self).edges,
            final(self).truncated == old(self).truncated,
            final(self).truncation_reason == old(self).truncation_reason,
            final(self).max_depth == old(self).max_depth,
            final(self).boundary == old(self).boundary,
            final(self).derived == old(self).derived,
            final(self).unestablished == old(self).unestablished,
            no_node_with_id(old(self).nodes@, node.id@) ==> result is Ok && final(self).nodes@ == old(self).nodes@.push(node),
            forall|i: int| first_with_id(old(self).nodes@, node.id@, i) ==> {
                &&& final(self).nodes@ == old(self).nodes@
                &&& same_node(old(self).nodes@[i], node) ==> result is Ok
                &&& !same_node(old(self).nodes@[i], node) ==> (result matches Err(e)
                    && e.spec_message() == (GraphFailure::DuplicateNode { id: old(self).nodes@[i].id }).error_message())
            },
    {
        match node_position(&self.nodes, node.id.as_str()) {
            Some(i) => {
                if nodes_equal(&self.nodes[i], &node) {
                    Ok(())
                } else {
                    let id = self.nodes[i].id.clone();
                    Err(GraphFailure::DuplicateNode { id }.into_error())
                }
            },
            None => {
                self.nodes.push(node);
                Ok(())
            },
        }
    }

    /// The graph's node count.
    pub fn node_count(&self) -> (count: usize)
        ensures
            count == self.nodes@.len(),
    {
        self.nodes.len()
    }

    /// The graph's edge count.
    pub fn edge_count(&self) -> (count: usize)
        ensures
            count == self.edges@.len(),
    {
        self.edges.len()
    }

    /// Whether the graph has no nodes.
    pub fn is_empty(&self) -> (empty: bool)
        ensures
            empty == (self.nodes@.len() == 0),
    {
        self.nodes.len() == 0
    }

    /// The node with an identifier.
    pub fn node(&self, id: &str) -> (node: Option<&Node>)
        ensures
            node matches Some(n) ==> exists|i: int| first_with_id(self.nodes@, id@, i) && *n == self.nodes@[i],
            node is None ==> no_node_with_id(self.nodes@, id@),
    {
        match node_position(&self.nodes, id) {
            Some(i) => Some(&self.nodes[i]),
            None => None,
        }
    }

    /// Whether the graph has a node for an entity.
    pub fn contains(&self, entity: &EntityRef) -> (found: bool)
        ensures
            found == !no_node_with_id(self.nodes@, entity.rendering()),
    {
        let id = entity.render();
        node_position(&self.nodes, id.as_str()).is_some()
    }

    /// Nodes no edge touches: discovered, but not related by anything.
    pub fn disconnected_nodes(&self) -> (ids: Vec<&str>)
        ensures
            exists|positions: Seq<int>| #[trigger] lists_disconnected(*self, ids@, positions),
    {
        let mut ids: Vec<&str> = Vec::new();
        let ghost mut positions: Seq<int> = Seq::empty();
        for i in 0..self.nodes.len()
            invariant
                positions.len() == ids@.len(),
                forall|a: int, b: int| 0 <= a < b < positions.len() ==> positions[a] < positions[b],
                forall|a: int| 0 <= a < positions.len() ==> 0 <= #[trigger] positions[a] < i
                    && ids@[a]@ == self.nodes@[positions[a]].id@,
                forall|x: int| 0 <= x < i ==> (positions.contains(x)
                    <==> is_disconnected(*self, x)),
        {
            let touched = self.touched(self.nodes[i].id.as_str());
            if !touched {
                ids.push(self.nodes[i].id.as_str());
                proof {
                    let p0 = positions;
                    positions = positions.push(i as int);
                    assert forall|x: int| 0 <= x < i + 1 implies (positions.contains(x)
                        <==> is_disconnected(*self, x)) by {
                        if x < i {
                            if p0.contains(x) {
                                let a = choose|a: int| 0 <= a < p0.len() && p0[a] == x;
                                assert(positions[a] == x);
                            }
                            if positions.contains(x) {
                                let a = choose|a: int| 0 <= a < positions.len() && positions[a] == x;
                                assert(a < p0.len());
                                assert(p0[a] == x);
                            }
                        } else {
                            assert(positions[positions.len() - 1] == x);
                        }
                    }
                }
            } else {
                proof {
                    assert(!positions.contains(i as int));
                }
            }
        }
        assert(lists_disconnected(*self, ids@, positions));
        ids
    }

    /// Whether some edge touches the node identified `id`.
    fn touched(&self, id: &str) -> (found: bool)
        ensures
            found == exists|e: int| 0 <= e < self.edges@.len() && touches(#[trigger] self.edges@[e], id@),
    {
        for e in 0..self.edges.len()
            invariant
                forall|x: int| 0 <= x < e ==> !touches(#[trigger] self.edges@[x], id@),
        {
            let source = self.edges[e].source.render();
            let target = self.edges[e].target.render();
            if str_equals(source.as_str(), id) || str_equals(target.as_str(), id) {
                return true;
            }
        }
        false
    }
}

fn select_edges<'a>(edges: &'a Vec<Edge>, source: Option<&EntityRef>, target: Option<&EntityRef>) -> (selected: Vec<&'a Edge>)
    ensures
        deref_edges(selected@) == linking(edges@, match source { Some(s) => Some(*s), None => None }, match target { Some(t) => Some(*t), None => None }),
{
    let ghost s: Option<EntityRef> = match source { Some(x) => Some(*x), None => None };
    let ghost t: Option<EntityRef> = match target { Some(x) => Some(*x), None => None };
    let mut selected: Vec<&Edge> = Vec::new();
    for i in 0..edges.len()
        invariant
            s == (match source { Some(x) => Some(*x), None => None::<EntityRef> }),
            t == (match target { Some(x) => Some(*x), None => None::<EntityRef> }),
            deref_edges(selected@) == linking(edges@.take(i as int), s, t),
    {
        let edge = &edges[i];
        let from_ok = match source {
            Some(x) => edge.source.same_as(x),
            None => true,
        };
        let to_ok = match target {
            Some(x) => edge.target.same_as(x),
            None => true,
        };
        proof {
            assert(edges@.take(i + 1).drop_last() =~= edges@.take(i as int));
            assert(edges@.take(i + 1).last() == *edge);
        }
        let ghost prior = selected@;
        if from_ok && to_ok {
            selected.push(edge);
            proof { assert(deref_edges(selected@) =~= deref_edges(prior).push(*edge)); }
        }
        proof {
            reveal(Seq::filter);
            assert(deref_edges(selected@) =~= linking(edges@.take(i + 1), s, t));
        }
    }
    proof {
        assert(edges@.take(edges@.len() as int) =~= edges@);
    }
    selected
}

fn take_node(nodes: &mut Vec<Node>, i: usize) -> (node: Node)
    requires
        i < old(nodes)@.len(),
    ensures
        node == old(nodes)@[i as int],
        final(nodes)@ == old(nodes)@.remove(i as int),
{
    nodes.remove(i)
}

fn with_external_attribute(attributes: Option<NodeAttributes>, external: bool) -> (after: Option<NodeAttributes>)
    ensures
        marked(attributes, after, external),
{
    let mut a = match attributes {
        Some(a) => a,
        None => NodeAttributes::new(),
    };
    a.external = Some(external);
    Some(a)
}

fn with_network_attribute(attributes: Option<NodeAttributes>, network: String) -> (after: Option<NodeAttributes>)
    ensures
        annotated(attributes, after, network),
{
    let mut a = match attributes {
        Some(a) => a,
        None => NodeAttributes::new(),
    };
    a.network_id = Some(network);
    Some(a)
}

impl Graph {
    /// Adds the node for an entity reference, ignoring one that is already present.
    pub fn add_entity(&mut self, entity: &EntityRef) -> (result: Result<(), EngineError>)
        ensures
            final(self).id == old(self).id,
            final(self).edges == old(self).edges,
            final(self).derived == old(self).derived,
            final(self).truncated == old(self).truncated,
            final(self).truncation_reason == old(self).truncation_reason,
            final(self).max_depth == old(self).max_depth,
            final(self).boundary == old(self).boundary,
            final(self).unestablished == old(self).unestablished,
            result is Ok <==> admits(old(self).nodes@, *entity),
            no_node_with_id(old(self).nodes@, entity.rendering()) ==> final(self).nodes@.len() == old(self).nodes@.len() + 1
                && final(self).nodes@.drop_last() == old(self).nodes@ && plain_node_of(final(self).nodes@.last(), *entity),
            !no_node_with_id(old(self).nodes@, entity.rendering()) ==> final(self).nodes@ == old(self).nodes@,
            result matches Err(e) ==> e.spec_message() == (FailureView::DuplicateNode { id: entity.rendering() }).message(),
    {
        let node = Node::for_entity(entity);
        let result = self.add_node(node);
        proof {
            if !no_node_with_id(old(self).nodes@, entity.rendering()) {
                let i = choose|i: int| 0 <= i < old(self).nodes@.len() && (#[trigger] old(self).nodes@[i]).id@ == entity.rendering();
                let f = choose|f: int| first_with_id(old(self).nodes@, entity.rendering(), f);
                assert(first_with_id(old(self).nodes@, entity.rendering(), f)) by {
                    lemma_first_exists(old(self).nodes@, entity.rendering(), i);
                }
                assert forall|k: int| first_with_id(old(self).nodes@, entity.rendering(), k) implies k == f by {
                    if k < f { assert(old(self).nodes@[k].id@ != entity.rendering()); }
                    if k > f { assert(old(self).nodes@[f].id@ != entity.rendering()); }
                }
            }
        }
        result
    }

    /// Records an edge.
    ///
    /// Refused when the edge is deeper than direct (a reachability claim is not an edge),
    /// when an edge with its identifier exists, or when an endpoint's node cannot be added.
    /// The endpoints are added first, so an accepted edge never dangles; an endpoint node
    /// added before a refusal stays.
    pub fn add_edge(&mut self, edge: Edge) -> (result: Result<(), EngineError>)
        ensures
            final(self).id == old(self).id,
            final(self).derived == old(self).derived,
            final(self).truncated == old(self).truncated,
            final(self).truncation_reason == old(self).truncation_reason,
            edge.depth != 0 ==> final(self).nodes == old(self).nodes && final(self).edges == old(self).edges
                && (result matches Err(e) && e.spec_message() == (FailureView::DuplicateEdge {
                    id: depth_label(edge.depth, edge.source.rendering(), edge.target.rendering()) }).message()),
            edge.depth == 0 && (exists|j: int| 0 <= j < old(self).edges@.len() && (#[trigger] old(self).edges@[j]).id@ == edge.id@)
                ==> final(self).nodes == old(self).nodes && final(self).edges == old(self).edges
                && (result matches Err(e) && e.spec_message() == (FailureView::DuplicateEdge { id: edge.id@ }).message()),
            edge.depth == 0 && (forall|j: int| 0 <= j < old(self).edges@.len() ==> (#[trigger] old(self).edges@[j]).id@ != edge.id@)
                ==> (result is Ok <==> admits_both(old(self).nodes@, edge.source, edge.target)),
            result is Ok ==> final(self).edges@ == old(self).edges@.push(edge)
                && crate::graph::integrity::resolves(final(self).nodes@, edge.source)
                && crate::graph::integrity::resolves(final(self).nodes@, edge.target),
            result is Err ==> final(self).edges == old(self).edges,
            old(self).nodes@.len() <= final(self).nodes@.len(),
            final(self).nodes@.subrange(0, old(self).nodes@.len() as int) == old(self).nodes@,
    {
        if edge.depth != 0 {
            let mut id = String::new();
            id.append("depth-");
            proof { assert(id@ =~= "depth-"@); }
            let depth = decimal(edge.depth);
            id.append(depth.as_str());
            id.append(" dependency ");
            let source = edge.source.render();
            id.append(source.as_str());
            id.append(" -> ");
            let target = edge.target.render();
            id.append(target.as_str());
            proof { assert(self.nodes@.subrange(0, self.nodes@.len() as int) =~= self.nodes@); }
            return Err(GraphFailure::DuplicateEdge { id }.into_error());
        }
        for j in 0..self.edges.len()
            invariant
                edge.depth == 0,
                self.nodes == old(self).nodes,
                self.edges == old(self).edges,
                forall|k: int| 0 <= k < j ==> (#[trigger] self.edges@[k]).id@ != edge.id@,
        {
            if str_equals(self.edges[j].id.as_str(), edge.id.as_str()) {
                proof { assert(self.nodes@.subrange(0, self.nodes@.len() as int) =~= self.nodes@); }
                return Err(GraphFailure::DuplicateEdge { id: edge.id.clone() }.into_error());
            }
        }
        let ghost original = self.nodes@;
        match self.add_entity(&edge.source) {
            Ok(()) => {},
            Err(e) => {
                proof { assert(self.nodes@.subrange(0, original.len() as int) =~= original); }
                return Err(e);
            },
        }
        let ghost middle = self.nodes@;
        proof {
            lemma_added_resolves(original, middle, edge.source);
        }
        match self.add_entity(&edge.target) {
            Ok(()) => {},
            Err(e) => {
                proof {
                    assert(self.nodes@.subrange(0, original.len() as int) =~= original) by {
                        if middle.len() > original.len() {
                            assert(middle.drop_last() =~= middle.subrange(0, original.len() as int));
                        }
                    }
                    lemma_admits_both(original, middle, edge.source, edge.target);
                }
                return Err(e);
            },
        }
        proof {
            lemma_added_resolves(middle, self.nodes@, edge.target);
            assert(self.nodes@.subrange(0, middle.len() as int) =~= middle) by {
                if self.nodes@.len() > middle.len() {
                    assert(self.nodes@.drop_last() =~= self.nodes@.subrange(0, middle.len() as int));
                }
            }
            lemma_resolves_grows(middle, self.nodes@, edge.source);
            lemma_admits_both(original, middle, edge.source, edge.target);
            assert(self.nodes@.subrange(0, original.len() as int) =~= original) by {
                if middle.len() > original.len() {
                    assert(middle.drop_last() =~= middle.subrange(0, original.len() as int));
                }
                if self.nodes@.len() > middle.len() {
                    assert(self.nodes@.drop_last() =~= self.nodes@.subrange(0, middle.len() as int));
                }
            }
        }
        self.edges.push(edge);
        Ok(())
    }

    /// The node for an entity reference.
    pub fn node_for(&self, entity: &EntityRef) -> (node: Option<&Node>)
        ensures
            node matches Some(n) ==> exists|i: int| first_with_id(self.nodes@, entity.rendering(), i) && *n == self.nodes@[i],
            node is None ==> no_node_with_id(self.nodes@, entity.rendering()),
    {
        let id = entity.render();
        match node_position(&self.nodes, id.as_str()) {
            Some(i) => Some(&self.nodes[i]),
            None => None,
        }
    }

    /// The edges leaving an entity, in graph order.
    pub fn edges_from(&self, entity: &EntityRef) -> (edges: Vec<&Edge>)
        ensures
            deref_edges(edges@) == linking(self.edges@, Some(*entity), None),
    {
        select_edges(&self.edges, Some(entity), None)
    }

    /// The edges arriving at an entity, in graph order.
    pub fn edges_to(&self, entity: &EntityRef) -> (edges: Vec<&Edge>)
        ensures
            deref_edges(edges@) == linking(self.edges@, None, Some(*entity)),
    {
        select_edges(&self.edges, None, Some(entity))
    }

    /// The edges connecting two entities in the stated direction, in graph order.
    pub fn edges_between(&self, source: &EntityRef, target: &EntityRef) -> (edges: Vec<&Edge>)
        ensures
            deref_edges(edges@) == linking(self.edges@, Some(*source), Some(*target)),
    {
        select_edges(&self.edges, Some(source), Some(target))
    }

    /// The entities an entity relates to directly: the targets of the edges leaving it.
    pub fn neighbours(&self, entity: &EntityRef) -> (targets: Vec<&EntityRef>)
        ensures
            deref_entities(targets@) == targets_of(linking(self.edges@, Some(*entity), None)),
    {
        let edges = self.edges_from(entity);
        let ghost chosen = deref_edges(edges@);
        let mut targets: Vec<&EntityRef> = Vec::new();
        for i in 0..edges.len()
            invariant
                chosen == deref_edges(edges@),
                deref_entities(targets@) == targets_of(chosen.take(i as int)),
        {
            let ghost prior = targets@;
            targets.push(&edges[i].target);
            proof { assert(deref_entities(targets@) =~= deref_entities(prior).push(edges@[i as int].target)); }
            proof {
                assert(chosen[i as int] == *edges@[i as int]);
                assert(deref_entities(targets@) =~= targets_of(chosen.take(i + 1)));
            }
        }
        proof {
            assert(chosen.take(chosen.len() as int) =~= chosen);
        }
        targets
    }

    /// Whether some edge points at the node identified `id`.
    fn pointed_at(&self, id: &str) -> (found: bool)
        ensures
            found == !no_edge_into(self.edges@, id@),
    {
        for e in 0..self.edges.len()
            invariant
                forall|x: int| 0 <= x < e ==> (#[trigger] self.edges@[x]).target.rendering() != id@,
        {
            let target = self.edges[e].target.render();
            if str_equals(target.as_str(), id) {
                return true;
            }
        }
        false
    }

    /// Whether some edge leaves the node identified `id`.
    fn left_from(&self, id: &str) -> (found: bool)
        ensures
            found == !no_edge_from(self.edges@, id@),
    {
        for e in 0..self.edges.len()
            invariant
                forall|x: int| 0 <= x < e ==> (#[trigger] self.edges@[x]).source.rendering() != id@,
        {
            let source = self.edges[e].source.render();
            if str_equals(source.as_str(), id) {
                return true;
            }
        }
        false
    }

    /// Nodes no edge points at, in graph order.
    pub fn roots(&self) -> (roots: Vec<&Node>)
        ensures
            deref_nodes(roots@) == unpointed(self.nodes@, self.edges@),
    {
        let mut roots: Vec<&Node> = Vec::new();
        for i in 0..self.nodes.len()
            invariant
                deref_nodes(roots@) == unpointed(self.nodes@.take(i as int), self.edges@),
        {
            let node = &self.nodes[i];
            proof {
                assert(self.nodes@.take(i + 1).drop_last() =~= self.nodes@.take(i as int));
                assert(self.nodes@.take(i + 1).last() == *node);
            }
            let ghost prior = roots@;
            if !self.pointed_at(node.id.as_str()) {
                roots.push(node);
                proof { assert(deref_nodes(roots@) =~= deref_nodes(prior).push(*node)); }
            }
            proof {
                reveal(Seq::filter);
                assert(deref_nodes(roots@) =~= unpointed(self.nodes@.take(i + 1), self.edges@));
            }
        }
        proof {
            assert(self.nodes@.take(self.nodes@.len() as int) =~= self.nodes@);
        }
        roots
    }

    /// Nodes no edge leaves, in graph order.
    pub fn leaves(&self) -> (leaves: Vec<&Node>)
        ensures
            deref_nodes(leaves@) == unleft(self.nodes@, self.edges@),
    {
        let mut leaves: Vec<&Node> = Vec::new();
        for i in 0..self.nodes.len()
            invariant
                deref_nodes(leaves@) == unleft(self.nodes@.take(i as int), self.edges@),
        {
            let node = &self.nodes[i];
            proof {
                assert(self.nodes@.take(i + 1).drop_last() =~= self.nodes@.take(i as int));
                assert(self.nodes@.take(i + 1).last() == *node);
            }
            let ghost prior = leaves@;
            if !self.left_from(node.id.as_str()) {
                leaves.push(node);
                proof { assert(deref_nodes(leaves@) =~= deref_nodes(prior).push(*node)); }
            }
            proof {
                reveal(Seq::filter);
                assert(deref_nodes(leaves@) =~= unleft(self.nodes@.take(i + 1), self.edges@));
            }
        }
        proof {
            assert(self.nodes@.take(self.nodes@.len() as int) =~= self.nodes@);
        }
        leaves
    }

    /// Marks a node as lying outside the observable boundary.
    ///
    /// Refused when no node has the entity's identifier, because marking an entity that
    /// is not in the graph would silently do nothing.
    pub fn mark_external(&mut self, entity: &EntityRef, external: bool) -> (result: Result<(), EngineError>)
        ensures
            final(self).id == old(self).id,
            final(self).edges == old(self).edges,
            final(self).derived == old(self).derived,
            final(self).boundary == old(self).boundary,
            no_node_with_id(old(self).nodes@, entity.rendering()) ==> final(self).nodes == old(self).nodes
                && (result matches Err(e) && e.spec_message() == (FailureView::DanglingEdge {
                    edge: "(node attribute)"@, endpoint: entity.rendering(), role: "source"@ }).message()),
            forall|i: int| first_with_id(old(self).nodes@, entity.rendering(), i) ==> {
                &&& result is Ok
                &&& final(self).nodes@.len() == old(self).nodes@.len()
                &&& forall|j: int| 0 <= j < old(self).nodes@.len() && j != i ==> final(self).nodes@[j] == old(self).nodes@[j]
                &&& same_but_attributes(old(self).nodes@[i], final(self).nodes@[i])
                &&& marked(old(self).nodes@[i].attributes, final(self).nodes@[i].attributes, external)
            },
    {
        let id = entity.render();
        match node_position(&self.nodes, id.as_str()) {
            None => {
                let failure = GraphFailure::DanglingEdge {
                    edge: String::from_str("(node attribute)"),
                    endpoint: id,
                    role: String::from_str("source"),
                };
                Err(failure.into_error())
            },
            Some(i) => {
                let ghost before = self.nodes@;
                let node = take_node(&mut self.nodes, i);
                let Node { id: node_id, kind, label, digest, attributes } = node;
                let attributes = with_external_attribute(attributes, external);
                self.nodes.insert(i, Node { id: node_id, kind, label, digest, attributes });
                proof {
                    assert forall|k: int| first_with_id(before, entity.rendering(), k) implies k == i by {
                        if k < i { assert(before[k].id@ != entity.rendering()); }
                        if k > i { assert(before[i as int].id@ != entity.rendering()); }
                    }
                    assert forall|j: int| 0 <= j < before.len() && j != i implies self.nodes@[j] == before[j] by {
                        if j < i {
                            assert(self.nodes@[j] == before.remove(i as int)[j]);
                        } else {
                            assert(self.nodes@[j] == before.remove(i as int)[j - 1]);
                        }
                    }
                }
                Ok(())
            },
        }
    }

    /// Records the network on every node, from the graph's boundary.
    ///
    /// A graph with no boundary annotates nothing: a network that was never observed is
    /// not filled in.
    pub fn annotate_network(&mut self)
        ensures
            final(self).id == old(self).id,
            final(self).edges == old(self).edges,
            final(self).derived == old(self).derived,
            final(self).boundary == old(self).boundary,
            old(self).boundary is None ==> final(self).nodes == old(self).nodes,
            old(self).boundary matches Some(b) ==> {
                &&& final(self).nodes@.len() == old(self).nodes@.len()
                &&& forall|i: int| 0 <= i < old(self).nodes@.len() ==> same_but_attributes(old(self).nodes@[i], #[trigger] final(self).nodes@[i])
                    && annotated(old(self).nodes@[i].attributes, final(self).nodes@[i].attributes, b.network)
            },
    {
        let network = match &self.boundary {
            Some(boundary) => boundary.network.clone(),
            None => { return; },
        };
        let ghost before = self.nodes@;
        let n = self.nodes.len();
        for i in 0..n
            invariant
                n == before.len(),
                self.nodes@.len() == n,
                self.boundary == old(self).boundary,
                self.id == old(self).id,
                self.edges == old(self).edges,
                self.derived == old(self).derived,
                old(self).boundary matches Some(b) && b.network == network,
                before == old(self).nodes@,
                forall|j: int| 0 <= j < i ==> same_but_attributes(before[j], #[trigger] self.nodes@[j])
                    && annotated(before[j].attributes, self.nodes@[j].attributes, network),
                forall|j: int| i <= j < n ==> #[trigger] self.nodes@[j] == before[j],
        {
            let ghost prior = self.nodes@;
            let node = take_node(&mut self.nodes, i);
            let Node { id, kind, label, digest, attributes } = node;
            let attributes = with_network_attribute(attributes, network.clone());
            self.nodes.insert(i, Node { id, kind, label, digest, attributes });
            proof {
                assert forall|j: int| 0 <= j < n && j != i implies self.nodes@[j] == prior[j] by {
                    if j < i {
                        assert(self.nodes@[j] == prior.remove(i as int)[j]);
                    } else {
                        assert(self.nodes@[j] == prior.remove(i as int)[j - 1]);
                    }
                }
            }
        }
    }

    /// Whether every node carries a network.
    pub fn nodes_are_annotated(&self) -> (annotated: bool)
        ensures
            annotated == forall|i: int| 0 <= i < self.nodes@.len() ==> carries_network(#[trigger] self.nodes@[i]),
    {
        for i in 0..self.nodes.len()
            invariant
                forall|j: int| 0 <= j < i ==> carries_network(#[trigger] self.nodes@[j]),
        {
            let carries = match &self.nodes[i].attributes {
                Some(a) => a.network_id.is_some(),
                None => false,
            };
            if !carries {
                return false;
            }
        }
        true
    }

    /// The attributes recorded for a node, where any were.
    pub fn attributes(&self, id: &str) -> (attributes: Option<&NodeAttributes>)
        ensures
            attributes matches Some(a) ==> exists|i: int| first_with_id(self.nodes@, id@, i) && self.nodes@[i].attributes == Some(*a),
            attributes is None ==> no_node_with_id(self.nodes@, id@)
                || exists|i: int| first_with_id(self.nodes@, id@, i) && self.nodes@[i].attributes is None,
    {
        match node_position(&self.nodes, id) {
            Some(i) => match &self.nodes[i].attributes {
                Some(a) => Some(a),
                None => None,
            },
            None => None,
        }
    }

    /// Sorts nodes, edges, claims and refusals into their canonical order.
    ///
    /// Ordering is what makes serialisation deterministic: two runs over the same
    /// evidence must produce the same bytes. A listing already in canonical order is left
    /// as it is, so canonicalising twice is canonicalising once.
    pub fn canonicalise(&mut self, vocabulary: &Vec<String>)
        ensures
            final(self).id == old(self).id,
            final(self).boundary == old(self).boundary,
            final(self).max_depth == old(self).max_depth,
            final(self).truncated == old(self).truncated,
            final(self).truncation_reason == old(self).truncation_reason,
            final(self).nodes@.to_multiset() == old(self).nodes@.to_multiset(),
            final(self).edges@.to_multiset() == old(self).edges@.to_multiset(),
            final(self).derived@.to_multiset() == old(self).derived@.to_multiset(),
            final(self).unestablished@.to_multiset() == old(self).unestablished@.to_multiset(),
            final(self).nodes@.len() == old(self).nodes@.len(),
            final(self).edges@.len() == old(self).edges@.len(),
            in_key_order(final(self).nodes@, vocabulary@),
            in_key_order(final(self).edges@, vocabulary@),
            in_key_order(final(self).derived@, vocabulary@),
            in_key_order(final(self).unestablished@, vocabulary@),
            in_key_order(old(self).nodes@, vocabulary@) ==> final(self).nodes@ == old(self).nodes@,
            in_key_order(old(self).edges@, vocabulary@) ==> final(self).edges@ == old(self).edges@,
            in_key_order(old(self).derived@, vocabulary@) ==> final(self).derived@ == old(self).derived@,
            in_key_order(old(self).unestablished@, vocabulary@) ==> final(self).unestablished@ == old(self).unestablished@,
    {
        let mut nodes: Vec<Node> = Vec::new();
        std::mem::swap(&mut nodes, &mut self.nodes);
        self.nodes = sort_keyed(nodes, vocabulary);
        let mut edges: Vec<Edge> = Vec::new();
        std::mem::swap(&mut edges, &mut self.edges);
        self.edges = sort_keyed(edges, vocabulary);
        let mut derived: Vec<Reachability> = Vec::new();
        std::mem::swap(&mut derived, &mut self.derived);
        self.derived = sort_keyed(derived, vocabulary);
        let mut unestablished: Vec<Refusal> = Vec::new();
        std::mem::swap(&mut unestablished, &mut self.unestablished);
        self.unestablished = sort_keyed(unestablished, vocabulary);
    }
}

impl Keyed for Reachability {
    /// Claims sort by subject, then depth, then object.
    open spec fn sort_key(&self, vocabulary: Seq<String>) -> (Seq<char>, int, Seq<char>) {
        (self.subject.rendering(), self.depth as int, self.object.rendering())
    }

    fn precedes(&self, other: &Reachability, vocabulary: &Vec<String>) -> (before: bool) {
        let a = self.subject.render();
        let b = other.subject.render();
        match compare_text(a.as_str(), b.as_str()) {
            Placement::Before => true,
            Placement::After => false,
            Placement::Same => {
                if self.depth < other.depth {
                    true
                } else if self.depth > other.depth {
                    false
                } else {
                    let c = self.object.render();
                    let d = other.object.render();
                    match compare_text(c.as_str(), d.as_str()) {
                        Placement::Before => true,
                        _ => false,
                    }
                }
            },
        }
    }
}

impl Keyed for Refusal {
    /// Refusals sort by the object's identifier, then the relationship.
    open spec fn sort_key(&self, vocabulary: Seq<String>) -> (Seq<char>, int, Seq<char>) {
        (self.object.id@, 0, self.relationship@)
    }

    fn precedes(&self, other: &Refusal, vocabulary: &Vec<String>) -> (before: bool) {
        match compare_text(self.object.id.as_str(), other.object.id.as_str()) {
            Placement::Before => true,
            Placement::After => false,
            Placement::Same => match compare_text(self.relationship.as_str(), other.relationship.as_str()) {
                Placement::Before => true,
                _ => false,
            },
        }
    }
}

/// A node carrying an identifier means some node is the first to carry it.
pub proof fn lemma_first_exists(nodes: Seq<Node>, id: Seq<char>, i: int)
    requires
        0 <= i < nodes.len(),
        nodes[i].id@ == id,
    ensures
        exists|f: int| first_with_id(nodes, id, f),
    decreases i,
{
    if forall|j: int| 0 <= j < i ==> (#[trigger] nodes[j]).id@ != id {
        assert(first_with_id(nodes, id, i));
    } else {
        let j = choose|j: int| 0 <= j < i && (#[trigger] nodes[j]).id@ == id;
        lemma_first_exists(nodes, id, j);
    }
}

proof fn lemma_added_resolves(before: Seq<Node>, after: Seq<Node>, e: EntityRef)
    requires
        admits(before, e),
        no_node_with_id(before, e.rendering()) ==> after.len() == before.len() + 1
            && after.drop_last() == before && plain_node_of(after.last(), e),
        !no_node_with_id(before, e.rendering()) ==> after == before,
    ensures
        crate::graph::integrity::resolves(after, e),
{
    if no_node_with_id(before, e.rendering()) {
        let k = after.len() - 1;
        assert forall|j: int| 0 <= j < k implies (#[trigger] after[j]).id@ != e.rendering() by {
            assert(after[j] == after.drop_last()[j]);
        }
        assert(first_with_id(after, e.rendering(), k));
    }
}

proof fn lemma_resolves_grows(before: Seq<Node>, after: Seq<Node>, e: EntityRef)
    requires
        crate::graph::integrity::resolves(before, e),
        after.len() >= before.len(),
        after.subrange(0, before.len() as int) == before,
    ensures
        crate::graph::integrity::resolves(after, e),
{
    let i = choose|i: int| first_with_id(before, e.rendering(), i) && before[i].kind@ == e.kind@;
    assert(after[i] == after.subrange(0, before.len() as int)[i]);
    assert forall|j: int| 0 <= j < i implies (#[trigger] after[j]).id@ != e.rendering() by {
        assert(after[j] == after.subrange(0, before.len() as int)[j]);
    }
    assert(first_with_id(after, e.rendering(), i));
}

proof fn lemma_admits_both(original: Seq<Node>, middle: Seq<Node>, source: EntityRef, target: EntityRef)
    requires
        admits(original, source),
        no_node_with_id(original, source.rendering()) ==> middle.len() == original.len() + 1
            && middle.drop_last() == original && plain_node_of(middle.last(), source),
        !no_node_with_id(original, source.rendering()) ==> middle == original,
    ensures
        admits(middle, target) == admits_both(original, source, target),
{
    if no_node_with_id(original, source.rendering()) {
        let k = middle.len() - 1;
        assert forall|j: int| 0 <= j < k implies (#[trigger] middle[j]) == original[j] by {
            assert(middle[j] == middle.drop_last()[j]);
        }
        if target.rendering() == source.rendering() {
            assert(first_with_id(middle, target.rendering(), k));
            assert(!no_node_with_id(middle, target.rendering()));
            assert forall|f: int| first_with_id(middle, target.rendering(), f) implies f == k by {
                if f < k { assert(middle[f] == original[f]); }
            }
        } else {
            if no_node_with_id(original, target.rendering()) {
                assert(no_node_with_id(middle, target.rendering()));
            } else {
                assert forall|f: int| first_with_id(middle, target.rendering(), f) <==> first_with_id(original, target.rendering(), f) by {
                    if f == k {}
                }
                if admits(original, target) {
                    let f = choose|f: int| first_with_id(original, target.rendering(), f) && plain_node_of(original[f], target);
                    assert(first_with_id(middle, target.rendering(), f));
                }
                if admits(middle, target) {
                    if !no_node_with_id(middle, target.rendering()) {
                        let f = choose|f: int| first_with_id(middle, target.rendering(), f) && plain_node_of(middle[f], target);
                        assert(first_with_id(original, target.rendering(), f));
                    }
                }
            }
        }
    }
}

} // verus!
