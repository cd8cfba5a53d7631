//! The published graph document: what a consumer reads, and the canonical way to build it.
//!
//! The document's edge is narrower than a graph edge: an identifier, the two endpoints,
//! the relationship, the evidence citations, the confidence, the boundary and whether the
//! edge was observed. Nodes and edges appear in canonical order, and the structural
//! metadata is computed from the graph rather than taken from it, so a document cannot
//! claim to be acyclic while containing a cycle.

use vstd::prelude::*;

use crate::graph::cycles::{describes, graph_is_cyclic, has_cycle};
use crate::graph::edges::{Boundary, Citation, Edge};
use crate::graph::graph::{Graph, lists_disconnected};
use crate::graph::nodes::{Node, NodeAttributes};
use crate::order::{Keyed, in_key_order, sort_keyed, triple_lt, compare_text, Placement, lex_lt};
use crate::text::str_equals;

verus! {

/// The compatibility family a document belongs to.
pub fn api_version() -> (version: &'static str)
    ensures
        version@ == "amasario.dev/v1"@,
{
    "amasario.dev/v1"
}

/// The specification version a document is produced under.
pub fn spec_version() -> (version: &'static str)
    ensures
        version@ == "1.0.0"@,
{
    "1.0.0"
}

/// One edge of a published graph.
#[derive(Debug, Clone)]
pub struct EdgeDocument {
    /// The stable edge identifier.
    pub id: String,
    /// The identifier of the source node.
    pub source: String,
    /// The identifier of the target node.
    pub target: String,
    /// The relationship's term.
    pub relationship: String,
    /// The relationship's position in the vocabulary; orders the edges and is not
    /// published.
    pub relationship_rank: usize,
    /// The identifiers of the evidence records establishing the edge.
    pub evidence: Vec<String>,
    /// The confidence level's wire name.
    pub confidence: String,
    /// The boundary of this edge, or of the graph when the edge recorded none.
    pub boundary: Option<Boundary>,
    /// Whether the edge was directly observed rather than inferred.
    pub observed: bool,
}

/// Structural facts about a published graph.
#[derive(Debug, Clone)]
pub struct GraphMetadata {
    /// Whether the graph's edges are directed. Always true.
    pub directed: bool,
    /// Whether the graph contains at least one cycle.
    pub cyclic: bool,
    /// How many nodes the graph has.
    pub node_count: usize,
    /// How many edges the graph has.
    pub edge_count: usize,
    /// The traversal depth the graph was bounded by, when it was bounded.
    pub max_depth: Option<usize>,
    /// Whether traversal stopped before exhausting the reachable graph.
    pub truncated: bool,
    /// Identifiers of nodes with no edges.
    pub disconnected_nodes: Vec<String>,
}

/// The graph document.
#[derive(Debug, Clone)]
pub struct GraphDocument {
    /// The major-version compatibility family.
    pub api_version: String,
    /// The specification version that produced the document.
    pub spec_version: String,
    /// The graph's identifier, where it has one.
    pub id: Option<String>,
    /// The graph's nodes.
    pub nodes: Vec<Node>,
    /// The graph's edges.
    pub edges: Vec<EdgeDocument>,
    /// The observation boundary the graph was assembled at.
    pub boundary: Option<Boundary>,
    /// Structural facts about the graph.
    pub metadata: Option<GraphMetadata>,
}

/// The texts of a list of strings.
pub open spec fn texts(s: Seq<String>) -> Seq<Seq<char>> {
    s.map_values(|t: String| t@)
}

/// The texts of a list of string slices.
pub open spec fn strs(s: Seq<&str>) -> Seq<Seq<char>> {
    s.map_values(|t: &str| t@)
}

/// The identifiers a list of citations cites.
pub open spec fn citation_ids(s: Seq<Citation>) -> Seq<Seq<char>> {
    s.map_values(|c: Citation| c.id@)
}

/// Document edge `d` publishes graph edge `e`, whose graph was bounded by `graph_boundary`.
pub open spec fn publishes(d: EdgeDocument, e: Edge, graph_boundary: Option<Boundary>) -> bool {
    &&& d.id == e.id
    &&& d.source@ == e.source.rendering()
    &&& d.target@ == e.target.rendering()
    &&& d.relationship == e.relationship
    &&& d.relationship_rank == e.relationship_rank
    &&& texts(d.evidence@) == citation_ids(e.evidence@)
    &&& d.confidence == e.confidence
    &&& d.boundary == (if e.boundary is Some { e.boundary } else { graph_boundary })
    &&& d.observed == e.observed
}

impl Keyed for EdgeDocument {
    /// Document edges sort by source, then relationship rank, then target.
    open spec fn sort_key(&self, vocabulary: Seq<String>) -> (Seq<char>, int, Seq<char>) {
        (self.source@, self.relationship_rank as int, self.target@)
    }

    fn precedes(&self, other: &EdgeDocument, vocabulary: &Vec<String>) -> (before: bool) {
        match compare_text(self.source.as_str(), other.source.as_str()) {
            Placement::Before => true,
            Placement::After => false,
            Placement::Same => {
                if self.relationship_rank < other.relationship_rank {
                    true
                } else if self.relationship_rank > other.relationship_rank {
                    false
                } else {
                    match compare_text(self.target.as_str(), other.target.as_str()) {
                        Placement::Before => true,
                        _ => false,
                    }
                }
            },
        }
    }
}

fn copy_text(s: &Option<String>) -> (copy: Option<String>)
    ensures
        copy == *s,
{
    match s {
        Some(t) => Some(t.clone()),
        None => None,
    }
}

/// A copy of a node.
pub fn copy_node(n: &Node) -> (copy: Node)
    ensures
        copy == *n,
{
    let attributes = match &n.attributes {
        Some(a) => Some(NodeAttributes {
            contract_id: copy_text(&a.contract_id),
            network_id: copy_text(&a.network_id),
            revision: copy_text(&a.revision),
            version: copy_text(&a.version),
            external: a.external,
        }),
        None => None,
    };
    Node {
        id: n.id.clone(),
        kind: n.kind.clone(),
        label: copy_text(&n.label),
        digest: copy_text(&n.digest),
        attributes,
    }
}

/// A copy of a boundary.
pub fn copy_boundary(b: &Option<Boundary>) -> (copy: Option<Boundary>)
    ensures
        copy == *b,
{
    match b {
        Some(b) => Some(Boundary { network: b.network.clone(), ledger: b.ledger, observed_at: b.observed_at.clone() }),
        None => None,
    }
}

impl EdgeDocument {
    /// Projects an edge into its published form; the boundary is the edge's own, or the
    /// graph's when the edge recorded none.
    pub fn of(edge: &Edge, graph_boundary: &Option<Boundary>) -> (document: EdgeDocument)
        ensures
            publishes(document, *edge, *graph_boundary),
    {
        let mut evidence: Vec<String> = Vec::new();
        for i in 0..edge.evidence.len()
            invariant
                texts(evidence@) == citation_ids(edge.evidence@.take(i as int)),
        {
            let ghost prior = evidence@;
            evidence.push(edge.evidence[i].id.clone());
            proof {
                assert(texts(evidence@) =~= texts(prior).push(edge.evidence@[i as int].id@));
                assert(citation_ids(edge.evidence@.take(i + 1)) =~= citation_ids(edge.evidence@.take(i as int)).push(edge.evidence@[i as int].id@));
            }
        }
        proof {
            assert(edge.evidence@.take(edge.evidence@.len() as int) =~= edge.evidence@);
        }
        let boundary = if edge.boundary.is_some() { copy_boundary(&edge.boundary) } else { copy_boundary(graph_boundary) };
        EdgeDocument {
            id: edge.id.clone(),
            source: edge.source.render(),
            target: edge.target.render(),
            relationship: edge.relationship.clone(),
            relationship_rank: edge.relationship_rank,
            evidence,
            confidence: edge.confidence.clone(),
            boundary,
            observed: edge.observed,
        }
    }

    /// The kinds of the two endpoints, read from the endpoint identifiers: the part before
    /// the first colon, where it is a kind of the vocabulary.
    pub fn endpoint_kinds<'a>(&'a self, vocabulary: &Vec<String>) -> (kinds: Option<(&'a str, &'a str)>)
        ensures
            match kinds {
                Some((s, t)) => kind_prefix(self.source@) == Some(s@) && kind_prefix(self.target@) == Some(t@)
                    && in_vocabulary(vocabulary@, s@) && in_vocabulary(vocabulary@, t@),
                None => !((kind_prefix(self.source@) matches Some(s) && in_vocabulary(vocabulary@, s))
                    && (kind_prefix(self.target@) matches Some(t) && in_vocabulary(vocabulary@, t))),
            },
    {
        let source = match prefix_before_colon(self.source.as_str()) {
            Some(s) => s,
            None => { return None; },
        };
        let target = match prefix_before_colon(self.target.as_str()) {
            Some(t) => t,
            None => { return None; },
        };
        if !listed(vocabulary, source) || !listed(vocabulary, target) {
            return None;
        }
        Some((source, target))
    }
}

/// The part of `s` before its first colon, where it has one.
pub open spec fn kind_prefix(s: Seq<char>) -> Option<Seq<char>> {
    if exists|i: int| 0 <= i < s.len() && s[i] == ':' {
        let i = choose|i: int| 0 <= i < s.len() && s[i] == ':' && forall|j: int| 0 <= j < i ==> s[j] != ':';
        Some(s.take(i))
    } else {
        None
    }
}

/// `kind` is a term of `vocabulary`.
pub open spec fn in_vocabulary(vocabulary: Seq<String>, kind: Seq<char>) -> bool {
    exists|i: int| 0 <= i < vocabulary.len() && (#[trigger] vocabulary[i])@ == kind
}

fn listed(vocabulary: &Vec<String>, kind: &str) -> (found: bool)
    ensures
        found == in_vocabulary(vocabulary@, kind@),
{
    for i in 0..vocabulary.len()
        invariant
            forall|j: int| 0 <= j < i ==> (#[trigger] vocabulary@[j])@ != kind@,
    {
        if str_equals(vocabulary[i].as_str(), kind) {
            return true;
        }
    }
    false
}

fn prefix_before_colon(s: &str) -> (prefix: Option<&str>)
    ensures
        match prefix {
            Some(p) => kind_prefix(s@) == Some(p@),
            None => kind_prefix(s@) is None,
        },
{
    let n = s.unicode_len();
    for i in 0..n
        invariant
            n == s@.len(),
            forall|j: int| 0 <= j < i ==> s@[j] != ':',
    {
        if s.get_char(i) == ':' {
            proof {
                let c = choose|c: int| 0 <= c < s@.len() && s@[c] == ':' && forall|j: int| 0 <= j < c ==> s@[j] != ':';
                if c < i { assert(s@[c] != ':'); }
                if c > i { assert(s@[i as int] != ':'); }
                assert(exists|c: int| 0 <= c < s@.len() && s@[c] == ':' && forall|j: int| 0 <= j < c ==> s@[j] != ':') by {
                    assert(0 <= i < s@.len() && s@[i as int] == ':' && forall|j: int| 0 <= j < i ==> s@[j] != ':');
                }
            }
            let p = s.substring_char(0, i);
            proof { assert(p@ =~= s@.take(i as int)); }
            return Some(p);
        }
    }
    None
}

/// The disconnected identifiers, as owned strings.
fn owned(ids: Vec<&str>) -> (owned: Vec<String>)
    ensures
        texts(owned@) == strs(ids@),
{
    let mut out: Vec<String> = Vec::new();
    for i in 0..ids.len()
        invariant
            texts(out@) == strs(ids@.take(i as int)),
    {
        let ghost prior = out@;
        out.push(ids[i].to_owned());
        proof {
            assert(texts(out@) =~= texts(prior).push(ids@[i as int]@));
            assert(strs(ids@.take(i + 1)) =~= strs(ids@.take(i as int)).push(ids@[i as int]@));
        }
    }
    proof { assert(ids@.take(ids@.len() as int) =~= ids@); }
    out
}

/// `x` is one of the edge's endpoints.
pub open spec fn endpoint_of(e: EdgeDocument, x: Seq<char>) -> bool {
    e.source@ == x || e.target@ == x
}

/// The identifiers of the document's edge endpoints that name no node of it.
pub open spec fn unresolved(d: GraphDocument, x: Seq<char>) -> bool {
    &&& exists|e: int| 0 <= e < d.edges@.len() && #[trigger] endpoint_of(d.edges@[e], x)
    &&& forall|n: int| 0 <= n < d.nodes@.len() ==> (#[trigger] d.nodes@[n]).id@ != x
}

/// The citation identifiers of the first `n` edges, edge by edge.
pub open spec fn cited(edges: Seq<EdgeDocument>, n: int) -> Seq<Seq<char>>
    decreases n,
{
    if n <= 0 { Seq::empty() } else { cited(edges, n - 1) + texts(edges[n - 1].evidence@) }
}

impl GraphDocument {
    /// Projects a graph into the document the specification defines.
    ///
    /// Nodes and edges are in canonical order under `vocabulary`, and `cyclic` is derived
    /// from the edges.
    pub fn of(graph: &Graph, vocabulary: &Vec<String>) -> (document: GraphDocument)
        ensures
            document.api_version@ == "amasario.dev/v1"@,
            document.spec_version@ == "1.0.0"@,
            document.id == (if graph.id@.len() == 0 { None } else { Some(graph.id) }),
            document.nodes@.to_multiset() == graph.nodes@.to_multiset(),
            in_key_order(document.nodes@, vocabulary@),
            document.edges@.len() == graph.edges@.len(),
            exists|projected: Seq<EdgeDocument>| projected.len() == graph.edges@.len()
                && (forall|i: int| 0 <= i < projected.len() ==> publishes(#[trigger] projected[i], graph.edges@[i], graph.boundary))
                && document.edges@.to_multiset() == #[trigger] projected.to_multiset(),
            in_key_order(document.edges@, vocabulary@),
            document.boundary == graph.boundary,
            document.metadata matches Some(m) && {
                &&& m.directed
                &&& m.cyclic == graph_is_cyclic(*graph)
                &&& m.node_count == graph.nodes@.len()
                &&& m.edge_count == graph.edges@.len()
                &&& m.max_depth == graph.max_depth
                &&& m.truncated == graph.truncated
                &&& exists|positions: Seq<int>, ids: Seq<&str>| #[trigger] lists_disconnected(*graph, ids, positions)
                    && texts(m.disconnected_nodes@) == strs(ids)
            },
    {
        let mut nodes: Vec<Node> = Vec::new();
        for i in 0..graph.nodes.len()
            invariant
                nodes@ == graph.nodes@.take(i as int),
        {
            nodes.push(copy_node(&graph.nodes[i]));
            proof { assert(nodes@ =~= graph.nodes@.take(i + 1)); }
        }
        proof { assert(graph.nodes@.take(graph.nodes@.len() as int) =~= graph.nodes@); }
        let nodes = sort_keyed(nodes, vocabulary);

        let mut edges: Vec<EdgeDocument> = Vec::new();
        for i in 0..graph.edges.len()
            invariant
                edges@.len() == i,
                forall|j: int| 0 <= j < i ==> publishes(#[trigger] edges@[j], graph.edges@[j], graph.boundary),
        {
            edges.push(EdgeDocument::of(&graph.edges[i], &graph.boundary));
        }
        let ghost projected = edges@;
        let edges = sort_keyed(edges, vocabulary);

        let disconnected = graph.disconnected_nodes();
        let ghost ids = disconnected@;
        let metadata = GraphMetadata {
            directed: true,
            cyclic: has_cycle(graph),
            node_count: nodes.len(),
            edge_count: edges.len(),
            max_depth: graph.max_depth,
            truncated: graph.truncated,
            disconnected_nodes: owned(disconnected),
        };
        let id = if graph.id.as_str().unicode_len() == 0 { None } else { Some(graph.id.clone()) };
        proof {
            assert(nodes@.len() == graph.nodes@.len());
        }
        GraphDocument {
            api_version: String::from_str(api_version()),
            spec_version: String::from_str(spec_version()),
            id,
            nodes,
            edges,
            boundary: copy_boundary(&graph.boundary),
            metadata: Some(metadata),
        }
    }

    /// The identifiers of the nodes no edge connects, as the metadata records them.
    pub fn disconnected_node_ids(&self) -> (ids: Vec<&str>)
        ensures
            match self.metadata {
                Some(m) => strs(ids@) == texts(m.disconnected_nodes@),
                None => ids@.len() == 0,
            },
    {
        let mut ids: Vec<&str> = Vec::new();
        match &self.metadata {
            Some(m) => {
                for i in 0..m.disconnected_nodes.len()
                    invariant
                        strs(ids@) == texts(m.disconnected_nodes@.take(i as int)),
                {
                    let ghost prior = ids@;
                    ids.push(m.disconnected_nodes[i].as_str());
                    proof {
                        assert(strs(ids@) =~= strs(prior).push(m.disconnected_nodes@[i as int]@));
                        assert(texts(m.disconnected_nodes@.take(i + 1)) =~= texts(m.disconnected_nodes@.take(i as int)).push(m.disconnected_nodes@[i as int]@));
                    }
                }
                proof { assert(m.disconnected_nodes@.take(m.disconnected_nodes@.len() as int) =~= m.disconnected_nodes@); }
            },
            None => {},
        }
        ids
    }

    /// The endpoint identifiers that name no node of the document, sorted and without
    /// repetition.
    ///
    /// The reference-integrity rule restated over the document, so a consumer holding only
    /// the document can still check it.
    pub fn unresolvable_endpoints(&self) -> (dangling: Vec<&str>)
        ensures
            forall|i: int, j: int| 0 <= i < j < dangling@.len() ==> lex_lt(#[trigger] dangling@[i]@, #[trigger] dangling@[j]@),
            forall|i: int| 0 <= i < dangling@.len() ==> unresolved(*self, (#[trigger] dangling@[i])@),
            forall|x: Seq<char>| #[trigger] unresolved(*self, x) ==> lists_text(dangling@, x),
    {
        let mut dangling: Vec<&str> = Vec::new();
        for e in 0..self.edges.len()
            invariant
                forall|i: int, j: int| 0 <= i < j < dangling@.len() ==> lex_lt(#[trigger] dangling@[i]@, #[trigger] dangling@[j]@),
                forall|i: int| 0 <= i < dangling@.len() ==> unresolved(*self, (#[trigger] dangling@[i])@),
                forall|x: Seq<char>| #[trigger] unresolved(*self, x) && (exists|k: int| 0 <= k < e && #[trigger] endpoint_of(self.edges@[k], x))
                    ==> lists_text(dangling@, x),
        {
            let edge = &self.edges[e];
            let ghost d0 = dangling@;
            proof {
                assert(endpoint_of(self.edges@[e as int], edge.source@));
                assert(endpoint_of(self.edges@[e as int], edge.target@));
            }
            if !self.names_node(edge.source.as_str()) {
                insert_text(&mut dangling, edge.source.as_str());
            }
            let ghost d1 = dangling@;
            if !self.names_node(edge.target.as_str()) {
                insert_text(&mut dangling, edge.target.as_str());
            }
            proof {
                assert forall|i: int| 0 <= i < dangling@.len() implies unresolved(*self, (#[trigger] dangling@[i])@) by {
                    let y = dangling@[i]@;
                    assert(lists_text(dangling@, y));
                    if !lists_text(d0, y) && !lists_text(d1, y) {
                    } else if lists_text(d0, y) {
                        let j = choose|j: int| 0 <= j < d0.len() && (#[trigger] d0[j])@ == y;
                        assert(unresolved(*self, d0[j]@));
                    } else {
                        let j = choose|j: int| 0 <= j < d1.len() && (#[trigger] d1[j])@ == y;
                        if !lists_text(d0, y) {
                        }
                    }
                }
                assert forall|x: Seq<char>| #[trigger] unresolved(*self, x) && (exists|k: int| 0 <= k < e + 1 && #[trigger] endpoint_of(self.edges@[k], x))
                    implies lists_text(dangling@, x) by {
                    let k = choose|k: int| 0 <= k < e + 1 && #[trigger] endpoint_of(self.edges@[k], x);
                    if k == e {
                        assert(!self.names_node_spec(x));
                    } else {
                        assert(lists_text(d0, x));
                    }
                }
            }
        }
        dangling
    }

    /// No node of the document is identified `id`, as the contracts speak of it.
    pub open spec fn names_node_spec(&self, id: Seq<char>) -> bool {
        exists|n: int| 0 <= n < self.nodes@.len() && (#[trigger] self.nodes@[n]).id@ == id
    }

    fn names_node(&self, id: &str) -> (found: bool)
        ensures
            found == self.names_node_spec(id@),
    {
        for n in 0..self.nodes.len()
            invariant
                forall|k: int| 0 <= k < n ==> (#[trigger] self.nodes@[k]).id@ != id@,
        {
            if str_equals(self.nodes[n].id.as_str(), id) {
                return true;
            }
        }
        false
    }

    /// The citation identifiers the edges publish, edge by edge.
    pub fn citations(&self) -> (ids: Vec<&str>)
        ensures
            strs(ids@) == cited(self.edges@, self.edges@.len() as int),
    {
        let mut ids: Vec<&str> = Vec::new();
        for e in 0..self.edges.len()
            invariant
                strs(ids@) == cited(self.edges@, e as int),
        {
            let edge = &self.edges[e];
            let ghost before = strs(ids@);
            for c in 0..edge.evidence.len()
                invariant
                    e < self.edges@.len(),
                    *edge == self.edges@[e as int],
                    strs(ids@) == before + texts(edge.evidence@.take(c as int)),
            {
                let ghost prior = ids@;
                ids.push(edge.evidence[c].as_str());
                proof {
                    assert(strs(ids@) =~= strs(prior).push(edge.evidence@[c as int]@));
                    assert(texts(edge.evidence@.take(c + 1)) =~= texts(edge.evidence@.take(c as int)).push(edge.evidence@[c as int]@));
                }
            }
            proof {
                assert(edge.evidence@.take(edge.evidence@.len() as int) =~= edge.evidence@);
                assert(strs(ids@) =~= cited(self.edges@, e + 1));
            }
        }
        ids
    }
}

/// Some string of `list` holds `y`.
pub open spec fn lists_text(list: Seq<&str>, y: Seq<char>) -> bool {
    exists|i: int| 0 <= i < list.len() && (#[trigger] list[i])@ == y
}

/// Inserts `x` into a strictly increasing list of strings, unless it is there already.
fn insert_text<'a>(list: &mut Vec<&'a str>, x: &'a str)
    requires
        forall|i: int, j: int| 0 <= i < j < old(list)@.len() ==> lex_lt(#[trigger] old(list)@[i]@, #[trigger] old(list)@[j]@),
    ensures
        forall|i: int, j: int| 0 <= i < j < final(list)@.len() ==> lex_lt(#[trigger] final(list)@[i]@, #[trigger] final(list)@[j]@),
        forall|y: Seq<char>| #[trigger] lists_text(final(list)@, y) <==> (y == x@ || lists_text(old(list)@, y)),
{
    let mut pos: usize = 0;
    while pos < list.len() && compare_text(list[pos], x) == Placement::Before
        invariant
            pos <= list@.len(),
            list@ == old(list)@,
            forall|i: int, j: int| 0 <= i < j < list@.len() ==> lex_lt(#[trigger] list@[i]@, #[trigger] list@[j]@),
            forall|i: int| 0 <= i < pos ==> lex_lt((#[trigger] list@[i])@, x@),
        decreases list@.len() - pos,
    {
        pos += 1;
    }
    if pos < list.len() && str_equals(list[pos], x) {
        proof {
            assert forall|y: Seq<char>| #[trigger] lists_text(list@, y) <==> (y == x@ || lists_text(old(list)@, y)) by {
                if y == x@ { assert(list@[pos as int]@ == y); }
            }
        }
        return;
    }
    let ghost before = list@;
    proof {
        crate::order::lemma_lex_total(x@, before[pos as int]@);
        assert forall|k: int| pos <= k < before.len() implies lex_lt(x@, (#[trigger] before[k])@) by {
            crate::order::lemma_lex_total(x@, before[pos as int]@);
            if k > pos {
                crate::order::lemma_lex_transitive(x@, before[pos as int]@, before[k]@);
            }
        }
    }
    list.insert(pos, x);
    proof {
        assert forall|i: int, j: int| 0 <= i < j < list@.len() implies lex_lt(#[trigger] list@[i]@, #[trigger] list@[j]@) by {
            if j < pos {
                assert(list@[i] == before[i] && list@[j] == before[j]);
            } else if j == pos {
                assert(list@[i] == before[i]);
            } else if i == pos {
                assert(list@[j] == before[j - 1]);
            } else if i < pos {
                assert(list@[i] == before[i] && list@[j] == before[j - 1]);
                crate::order::lemma_lex_transitive(before[i]@, x@, before[j - 1]@);
            } else {
                assert(list@[i] == before[i - 1] && list@[j] == before[j - 1]);
            }
        }
        assert forall|y: Seq<char>| #[trigger] lists_text(list@, y) <==> (y == x@ || lists_text(before, y)) by {
            if exists|i: int| 0 <= i < list@.len() && (#[trigger] list@[i])@ == y {
                let i = choose|i: int| 0 <= i < list@.len() && (#[trigger] list@[i])@ == y;
                if i < pos { assert(list@[i] == before[i]); }
                else if i > pos { assert(list@[i] == before[i - 1]); }
            }
            if exists|i: int| 0 <= i < before.len() && (#[trigger] before[i])@ == y {
                let i = choose|i: int| 0 <= i < before.len() && (#[trigger] before[i])@ == y;
                if i < pos { assert(list@[i] == before[i]); }
                else { assert(list@[i + 1] == before[i]); }
            }
            if y == x@ {
                assert(list@[pos as int] == x);
            }
        }
    }
}

} // verus!
