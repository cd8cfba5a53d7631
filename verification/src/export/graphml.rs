//! The GraphML export's building blocks: the key declarations every file opens with, and
//! the escaping that keeps any value readable as XML.
//!
//! A `<key>` must be declared before it is used and must agree with its use, so the
//! declarations are one list and every `<data>` element names a key from it.

use vstd::prelude::*;

use crate::error::EngineError;
use crate::export::dot::joined_texts;
use crate::export::errors::{ExportFailure, first_failure};
use crate::graph::document::{EdgeDocument, GraphDocument, texts, unresolved, strs};
use crate::graph::nodes::Node;
use crate::order::lex_lt;
use crate::text::{bool_str, bool_text, decimal, decimal_of, decimal_u64, push_char, contains_text, lemma_contains_within, lemma_contains_prefix, lemma_contains_transitive};

verus! {

/// Unicode's control characters (general category `Cc`), the set `char::is_control`
/// tests for.
pub open spec fn is_control(c: char) -> bool {
    c <= '\u{1f}' || ('\u{7f}' <= c && c <= '\u{9f}')
}

/// What one character becomes in XML content or an attribute value.
///
/// The five markup characters become entities, and the control characters XML 1.0
/// cannot carry are dropped; a newline and a tab are kept.
pub open spec fn xml_escaped_char(c: char) -> Seq<char> {
    if c == '&' {
        "&amp;"@
    } else if c == '<' {
        "&lt;"@
    } else if c == '>' {
        "&gt;"@
    } else if c == '"' {
        "&quot;"@
    } else if c == '\'' {
        "&apos;"@
    } else if is_control(c) && c != '\n' && c != '\t' {
        Seq::empty()
    } else {
        seq![c]
    }
}

/// A value escaped for XML, character by character.
pub open spec fn xml_escaped(s: Seq<char>) -> Seq<char>
    decreases s.len(),
{
    if s.len() == 0 {
        Seq::empty()
    } else {
        xml_escaped(s.drop_last()) + xml_escaped_char(s.last())
    }
}

/// A character that cannot stand unescaped in XML content or an attribute value: markup,
/// a quote, or a control character other than a newline or a tab.
pub open spec fn unsafe_in_xml(c: char) -> bool {
    c == '<' || c == '>' || c == '"' || c == '\'' || (is_control(c) && c != '\n' && c != '\t')
}

/// Escaped text is safe to write into a GraphML file: whatever the value held, no
/// character of the escaped text can end an element or an attribute, or is a control
/// character a reader would refuse.
pub proof fn escaped_xml_is_safe(s: Seq<char>)
    ensures
        forall|i: int| 0 <= i < xml_escaped(s).len() ==> !unsafe_in_xml(#[trigger] xml_escaped(s)[i]),
    decreases s.len(),
{
    if s.len() > 0 {
        escaped_xml_is_safe(s.drop_last());
        let c = s.last();
        let head = xml_escaped(s.drop_last());
        let tail = xml_escaped_char(c);
        reveal_strlit("&amp;");
        reveal_strlit("&lt;");
        reveal_strlit("&gt;");
        reveal_strlit("&quot;");
        reveal_strlit("&apos;");
        assert forall|j: int| 0 <= j < tail.len() implies !unsafe_in_xml(#[trigger] tail[j]) by {}
        assert forall|i: int| 0 <= i < xml_escaped(s).len() implies !unsafe_in_xml(#[trigger] xml_escaped(s)[i]) by {
            if i < head.len() {
                assert(xml_escaped(s)[i] == head[i]);
            } else {
                assert(xml_escaped(s)[i] == tail[i - head.len()]);
            }
        }
    }
}

/// Escapes a string for XML element content.
pub fn escape(value: &str) -> (escaped: String)
    ensures
        escaped@ == xml_escaped(value@),
{
    let n = value.unicode_len();
    let mut out = String::new();
    for i in 0..n
        invariant
            n == value@.len(),
            out@ == xml_escaped(value@.subrange(0, i as int)),
    {
        let c = value.get_char(i);
        let ghost before = out@;
        if c == '&' {
            out.append("&amp;");
        } else if c == '<' {
            out.append("&lt;");
        } else if c == '>' {
            out.append("&gt;");
        } else if c == '"' {
            out.append("&quot;");
        } else if c == '\'' {
            out.append("&apos;");
        } else if (c <= '\u{1f}' || ('\u{7f}' <= c && c <= '\u{9f}')) && c != '\n' && c != '\t' {
        } else {
            push_char(&mut out, c);
        }
        assert(value@.subrange(0, i + 1).drop_last() =~= value@.subrange(0, i as int));
        assert(out@ =~= before + xml_escaped_char(c));
    }
    assert(value@.subrange(0, n as int) =~= value@);
    out
}

/// Escapes a string for an XML attribute value.
///
/// The same transformation as [`escape`], named separately because an attribute and a
/// text node are different contexts and a change to one should not silently change the
/// other.
pub fn escape_attribute(value: &str) -> (escaped: String)
    ensures
        escaped@ == xml_escaped(value@),
{
    escape(value)
}

/// One `<key>` declaration: identifier, attribute name, element it applies to, type.
pub type KeyDeclaration = (&'static str, &'static str, &'static str, &'static str);

/// The key identifiers, attribute names, elements and types, in the order they are
/// written.
pub open spec fn declared_keys() -> Seq<(Seq<char>, Seq<char>, Seq<char>, Seq<char>)> {
    seq![
        ("d0"@, "kind"@, "node"@, "string"@),
        ("d1"@, "label"@, "node"@, "string"@),
        ("d2"@, "digest"@, "node"@, "string"@),
        ("d3"@, "id"@, "edge"@, "string"@),
        ("d4"@, "relationship"@, "edge"@, "string"@),
        ("d5"@, "confidence"@, "edge"@, "string"@),
        ("d6"@, "observed"@, "edge"@, "boolean"@),
        ("d7"@, "evidence"@, "edge"@, "string"@),
        ("d8"@, "boundary"@, "edge"@, "string"@),
    ]
}

/// The `<key>` declarations, in the order they are written.
pub fn declarations() -> (keys: Vec<KeyDeclaration>)
    ensures
        keys@.len() == declared_keys().len(),
        forall|i: int| 0 <= i < keys@.len() ==> ((#[trigger] keys@[i]).0@, keys@[i].1@, keys@[i].2@, keys@[i].3@) == declared_keys()[i],
{
    let mut keys: Vec<KeyDeclaration> = Vec::new();
    keys.push(("d0", "kind", "node", "string"));
    keys.push(("d1", "label", "node", "string"));
    keys.push(("d2", "digest", "node", "string"));
    keys.push(("d3", "id", "edge", "string"));
    keys.push(("d4", "relationship", "edge", "string"));
    keys.push(("d5", "confidence", "edge", "string"));
    keys.push(("d6", "observed", "edge", "boolean"));
    keys.push(("d7", "evidence", "edge", "string"));
    keys.push(("d8", "boundary", "edge", "string"));
    keys
}

/// The line one `<data>` element takes.
pub open spec fn data_line(key: Seq<char>, value: Seq<char>) -> Seq<char> {
    "      <data key=\""@ + key + "\">"@ + xml_escaped(value) + "</data>\n"@
}

/// Writes one `<data>` element.
pub fn push_data(out: &mut String, key: &str, value: &str)
    ensures
        final(out)@ == old(out)@ + data_line(key@, value@),
{
    let escaped = escape(value);
    out.append("      <data key=\"");
    out.append(key);
    out.append("\">");
    out.append(escaped.as_str());
    out.append("</data>\n");
    assert(final(out)@ =~= old(out)@ + data_line(key@, value@));
}

/// What one export failure of the GraphML format states: the subject and the reason.
pub open spec fn unrepresentable(f: ExportFailure, subject: Seq<char>, reason: Seq<char>) -> bool {
    f matches ExportFailure::Unrepresentable { format, subject: s, reason: r }
        && format@ == "GraphML"@ && s@ == subject && r@ == reason
}

/// The subjects and reasons of what the first `n` nodes cannot be exported as.
pub open spec fn node_problems(nodes: Seq<Node>, n: int) -> Seq<(Seq<char>, Seq<char>)>
    decreases n,
{
    if n <= 0 {
        Seq::empty()
    } else {
        node_problems(nodes, n - 1) + if nodes[n - 1].id@.len() == 0 {
            seq![("a node"@, "a node identifier cannot be empty"@)]
        } else {
            Seq::empty()
        }
    }
}

/// The subjects and reasons of what the first `n` edges cannot be exported as.
pub open spec fn edge_problems(edges: Seq<EdgeDocument>, n: int) -> Seq<(Seq<char>, Seq<char>)>
    decreases n,
{
    if n <= 0 {
        Seq::empty()
    } else {
        edge_problems(edges, n - 1)
            + (if edges[n - 1].id@.len() == 0 { seq![("an edge"@, "an edge identifier cannot be empty"@)] } else { Seq::empty() })
            + (if edges[n - 1].relationship@.len() == 0 {
                seq![("edge "@ + edges[n - 1].id@, "a relationship term cannot be empty"@)]
            } else {
                Seq::empty()
            })
    }
}

/// Everything about a document GraphML cannot represent, nodes first.
pub open spec fn problems(g: GraphDocument) -> Seq<(Seq<char>, Seq<char>)> {
    node_problems(g.nodes@, g.nodes@.len() as int) + edge_problems(g.edges@, g.edges@.len() as int)
}

/// The failures listed are exactly `expected`, in order.
pub open spec fn lists_problems(failures: Seq<ExportFailure>, expected: Seq<(Seq<char>, Seq<char>)>) -> bool {
    failures.len() == expected.len()
        && forall|i: int| 0 <= i < failures.len() ==> unrepresentable(#[trigger] failures[i], expected[i].0, expected[i].1)
}

fn unrepresentable_failure(subject: String, reason: &str) -> (failure: ExportFailure)
    ensures
        unrepresentable(failure, subject@, reason@),
{
    proof { reveal_strlit("GraphML"); }
    ExportFailure::Unrepresentable { format: String::from_str("GraphML"), subject, reason: reason.to_owned() }
}

fn push_problem(failures: &mut Vec<ExportFailure>, f: ExportFailure, subject: Ghost<Seq<char>>, reason: Ghost<Seq<char>>)
    requires
        unrepresentable(f, subject@, reason@),
    ensures
        forall|expected: Seq<(Seq<char>, Seq<char>)>| lists_problems(old(failures)@, expected)
            ==> lists_problems(final(failures)@, expected.push((subject@, reason@))),
{
    let ghost before = failures@;
    failures.push(f);
    proof {
        assert forall|expected: Seq<(Seq<char>, Seq<char>)>| lists_problems(before, expected)
            implies lists_problems(failures@, expected.push((subject@, reason@))) by {
            assert forall|i: int| 0 <= i < failures@.len() implies unrepresentable(#[trigger] failures@[i], expected.push((subject@, reason@))[i].0, expected.push((subject@, reason@))[i].1) by {
                if i < before.len() { assert(failures@[i] == before[i]); }
            }
        }
    }
}

/// Reports what about a document cannot be exported as GraphML: a node or an edge with
/// no identifier, and an edge with no relationship term.
pub fn validate(graph: &GraphDocument) -> (failures: Vec<ExportFailure>)
    ensures
        lists_problems(failures@, problems(*graph)),
{
    let mut failures: Vec<ExportFailure> = Vec::new();
    for i in 0..graph.nodes.len()
        invariant
            lists_problems(failures@, node_problems(graph.nodes@, i as int)),
    {
        if graph.nodes[i].id.as_str().unicode_len() == 0 {
            proof { reveal_strlit("a node"); reveal_strlit("a node identifier cannot be empty"); }
            let f = unrepresentable_failure(String::from_str("a node"), "a node identifier cannot be empty");
            push_problem(&mut failures, f, Ghost("a node"@), Ghost("a node identifier cannot be empty"@));
        }
        proof {
            assert(node_problems(graph.nodes@, i + 1) =~= node_problems(graph.nodes@, i as int)
                + if graph.nodes@[i as int].id@.len() == 0 { seq![("a node"@, "a node identifier cannot be empty"@)] } else { Seq::empty() });
            if graph.nodes@[i as int].id@.len() != 0 {
                assert(node_problems(graph.nodes@, i + 1) =~= node_problems(graph.nodes@, i as int));
            } else {
                assert(node_problems(graph.nodes@, i + 1) =~= node_problems(graph.nodes@, i as int).push(("a node"@, "a node identifier cannot be empty"@)));
            }
        }
    }
    let ghost nodes_done = node_problems(graph.nodes@, graph.nodes@.len() as int);
    for i in 0..graph.edges.len()
        invariant
            lists_problems(failures@, nodes_done + edge_problems(graph.edges@, i as int)),
    {
        let edge = &graph.edges[i];
        let ghost start = nodes_done + edge_problems(graph.edges@, i as int);
        if edge.id.as_str().unicode_len() == 0 {
            proof { reveal_strlit("an edge"); reveal_strlit("an edge identifier cannot be empty"); }
            let f = unrepresentable_failure(String::from_str("an edge"), "an edge identifier cannot be empty");
            push_problem(&mut failures, f, Ghost("an edge"@), Ghost("an edge identifier cannot be empty"@));
        }
        let ghost middle = start + if edge.id@.len() == 0 { seq![("an edge"@, "an edge identifier cannot be empty"@)] } else { Seq::<(Seq<char>, Seq<char>)>::empty() };
        proof {
            if edge.id@.len() != 0 { assert(middle =~= start); } else { assert(middle =~= start.push(("an edge"@, "an edge identifier cannot be empty"@))); }
        }
        if edge.relationship.as_str().unicode_len() == 0 {
            let mut subject = String::from_str("edge ");
            proof { reveal_strlit("edge "); reveal_strlit("a relationship term cannot be empty"); }
            subject.append(edge.id.as_str());
            let f = unrepresentable_failure(subject, "a relationship term cannot be empty");
            push_problem(&mut failures, f, Ghost("edge "@ + edge.id@), Ghost("a relationship term cannot be empty"@));
        }
        proof {
            let last = if edge.relationship@.len() == 0 { seq![("edge "@ + edge.id@, "a relationship term cannot be empty"@)] } else { Seq::<(Seq<char>, Seq<char>)>::empty() };
            if edge.relationship@.len() != 0 { assert(middle + last =~= middle); } else { assert(middle + last =~= middle.push(("edge "@ + edge.id@, "a relationship term cannot be empty"@))); }
            assert(nodes_done + edge_problems(graph.edges@, i + 1) =~= middle + last);
        }
    }
    failures
}

/// The opening of every GraphML file: the XML declaration and the root element.
pub open spec fn graphml_prolog() -> Seq<char> {
    "<?xml version=\"1.0\" encoding=\"UTF-8\"?>\n"@
        + "<graphml xmlns=\"http://graphml.graphdrawing.org/xmlns\" xmlns:xsi=\"http://www.w3.org/2001/XMLSchema-instance\" xsi:schemaLocation=\"http://graphml.graphdrawing.org/xmlns http://graphml.graphdrawing.org/xmlns/1.0/graphml.xsd\">\n"@
}

/// The line one key declaration takes.
pub open spec fn key_line(k: (Seq<char>, Seq<char>, Seq<char>, Seq<char>)) -> Seq<char> {
    "  <key id=\""@ + k.0 + "\" for=\""@ + k.2 + "\" attr.name=\""@ + k.1 + "\" attr.type=\""@ + k.3 + "\"/>\n"@
}

/// The lines of the first `n` key declarations.
pub open spec fn key_lines(keys: Seq<(Seq<char>, Seq<char>, Seq<char>, Seq<char>)>, n: int) -> Seq<char>
    decreases n,
{
    if n <= 0 { Seq::empty() } else { key_lines(keys, n - 1) + key_line(keys[n - 1]) }
}

/// The description a bounded graph carries.
pub open spec fn graphml_boundary(g: GraphDocument) -> Seq<char> {
    match g.boundary {
        Some(b) => "    <desc>"@ + xml_escaped(b.network@ + " at ledger "@ + decimal_of(b.ledger as nat) + ", observed "@ + b.observed_at@) + "</desc>\n"@,
        None => Seq::empty(),
    }
}

/// The element a node becomes.
pub open spec fn graphml_node(n: Node) -> Seq<char> {
    "    <node id=\""@ + xml_escaped(n.id@) + "\">\n"@ + data_line("d0"@, n.kind@)
        + match n.label { Some(l) => data_line("d1"@, l@), None => Seq::empty() }
        + match n.digest { Some(d) => data_line("d2"@, d@), None => Seq::empty() }
        + "    </node>\n"@
}

/// The opening tag of an edge's element.
pub open spec fn graphml_edge_open(e: EdgeDocument) -> Seq<char> {
    "    <edge id=\""@ + xml_escaped(e.id@) + "\" source=\""@ + xml_escaped(e.source@) + "\" target=\""@ + xml_escaped(e.target@) + "\">\n"@
}

/// The data every edge carries: its relationship, confidence and observation.
pub open spec fn graphml_edge_facts(e: EdgeDocument) -> Seq<char> {
    data_line("d4"@, e.relationship@) + data_line("d5"@, e.confidence@)
        + "      <data key=\"d6\">"@ + bool_text(e.observed) + "</data>\n"@
}

/// The data an edge carries when it cites evidence or records a boundary.
pub open spec fn graphml_edge_extras(e: EdgeDocument) -> Seq<char> {
    (if e.evidence@.len() > 0 { data_line("d7"@, joined_texts(texts(e.evidence@), " "@)) } else { Seq::empty() })
        + match e.boundary { Some(b) => data_line("d8"@, b.network@ + "@ledger"@ + decimal_of(b.ledger as nat)), None => Seq::empty() }
}

/// The element an edge becomes; `observed` is written as a real boolean.
pub open spec fn graphml_edge(e: EdgeDocument) -> Seq<char> {
    graphml_edge_open(e) + graphml_edge_facts(e) + graphml_edge_extras(e) + "    </edge>\n"@
}

/// The elements of the first `n` nodes.
pub open spec fn graphml_nodes(nodes: Seq<Node>, n: int) -> Seq<char>
    decreases n,
{
    if n <= 0 { Seq::empty() } else { graphml_nodes(nodes, n - 1) + graphml_node(nodes[n - 1]) }
}

/// The elements of the first `n` edges.
pub open spec fn graphml_edges(edges: Seq<EdgeDocument>, n: int) -> Seq<char>
    decreases n,
{
    if n <= 0 { Seq::empty() } else { graphml_edges(edges, n - 1) + graphml_edge(edges[n - 1]) }
}

/// The GraphML rendering of a document that can be exported.
pub open spec fn graphml_document(g: GraphDocument) -> Seq<char> {
    graphml_prolog() + key_lines(declared_keys(), declared_keys().len() as int)
        + "  <graph id=\"amasario\" edgedefault=\"directed\">\n"@ + graphml_boundary(g)
        + graphml_nodes(g.nodes@, g.nodes@.len() as int)
        + graphml_edges(g.edges@, g.edges@.len() as int)
        + "  </graph>\n</graphml>\n"@
}

/// The element of every one of the first `n` edges lies among their elements.
proof fn lemma_graphml_edge_listed(edges: Seq<EdgeDocument>, n: int, j: int)
    requires
        0 <= j < n,
    ensures
        contains_text(graphml_edges(edges, n), graphml_edge(edges[j])),
    decreases n,
{
    if j == n - 1 {
        assert(graphml_edges(edges, n - 1) + graphml_edge(edges[j]) + Seq::<char>::empty() == graphml_edges(edges, n));
    } else {
        lemma_graphml_edge_listed(edges, n - 1, j);
        lemma_contains_within(graphml_edges(edges, n - 1), graphml_edge(edges[j]), Seq::<char>::empty(), graphml_edge(edges[n - 1]));
        assert(Seq::<char>::empty() + graphml_edges(edges, n - 1) + graphml_edge(edges[n - 1]) =~= graphml_edges(edges, n));
    }
}

/// An edge's element opens with a tag naming its source as `source` and its target as
/// `target`, followed by its relationship, confidence and observation.
proof fn lemma_graphml_edge_opens_directed(e: EdgeDocument)
    ensures
        contains_text(graphml_edge(e), "    <edge id=\""@ + xml_escaped(e.id@) + "\" source=\""@ + xml_escaped(e.source@) + "\" target=\""@ + xml_escaped(e.target@) + "\">\n"@ + "      <data key=\"d4\">"@ + xml_escaped(e.relationship@) + "</data>\n"@ + "      <data key=\"d5\">"@ + xml_escaped(e.confidence@) + "</data>\n"@ + "      <data key=\"d6\">"@ + (if e.observed { "true"@ } else { "false"@ }) + "</data>\n"@),
{
    reveal_strlit("      <data key=\"");
    reveal_strlit("\">");
    reveal_strlit("d4");
    reveal_strlit("d5");
    reveal_strlit("      <data key=\"d4\">");
    reveal_strlit("      <data key=\"d5\">");
    let rest = graphml_edge_extras(e) + "    </edge>\n"@;
    assert(graphml_edge(e) =~= "    <edge id=\""@ + xml_escaped(e.id@) + "\" source=\""@ + xml_escaped(e.source@) + "\" target=\""@ + xml_escaped(e.target@) + "\">\n"@ + "      <data key=\"d4\">"@ + xml_escaped(e.relationship@) + "</data>\n"@ + "      <data key=\"d5\">"@ + xml_escaped(e.confidence@) + "</data>\n"@ + "      <data key=\"d6\">"@ + (if e.observed { "true"@ } else { "false"@ }) + "</data>\n"@ + rest);
    lemma_contains_prefix("    <edge id=\""@ + xml_escaped(e.id@) + "\" source=\""@ + xml_escaped(e.source@) + "\" target=\""@ + xml_escaped(e.target@) + "\">\n"@ + "      <data key=\"d4\">"@ + xml_escaped(e.relationship@) + "</data>\n"@ + "      <data key=\"d5\">"@ + xml_escaped(e.confidence@) + "</data>\n"@ + "      <data key=\"d6\">"@ + (if e.observed { "true"@ } else { "false"@ }) + "</data>\n"@, rest);
}

/// An edge's element opens with its tag.
proof fn lemma_graphml_tag_first(e: EdgeDocument)
    ensures
        contains_text("    <edge id=\""@ + xml_escaped(e.id@) + "\" source=\""@ + xml_escaped(e.source@) + "\" target=\""@ + xml_escaped(e.target@) + "\">\n"@ + "      <data key=\"d4\">"@ + xml_escaped(e.relationship@) + "</data>\n"@ + "      <data key=\"d5\">"@ + xml_escaped(e.confidence@) + "</data>\n"@ + "      <data key=\"d6\">"@ + (if e.observed { "true"@ } else { "false"@ }) + "</data>\n"@, "    <edge id=\""@ + xml_escaped(e.id@) + "\" source=\""@ + xml_escaped(e.source@) + "\" target=\""@ + xml_escaped(e.target@) + "\">\n"@),
{
    let rest = "      <data key=\"d4\">"@ + xml_escaped(e.relationship@) + "</data>\n"@ + "      <data key=\"d5\">"@ + xml_escaped(e.confidence@) + "</data>\n"@ + "      <data key=\"d6\">"@ + (if e.observed { "true"@ } else { "false"@ }) + "</data>\n"@;
    assert("    <edge id=\""@ + xml_escaped(e.id@) + "\" source=\""@ + xml_escaped(e.source@) + "\" target=\""@ + xml_escaped(e.target@) + "\">\n"@ + rest =~= "    <edge id=\""@ + xml_escaped(e.id@) + "\" source=\""@ + xml_escaped(e.source@) + "\" target=\""@ + xml_escaped(e.target@) + "\">\n"@ + "      <data key=\"d4\">"@ + xml_escaped(e.relationship@) + "</data>\n"@ + "      <data key=\"d5\">"@ + xml_escaped(e.confidence@) + "</data>\n"@ + "      <data key=\"d6\">"@ + (if e.observed { "true"@ } else { "false"@ }) + "</data>\n"@);
    lemma_contains_prefix("    <edge id=\""@ + xml_escaped(e.id@) + "\" source=\""@ + xml_escaped(e.source@) + "\" target=\""@ + xml_escaped(e.target@) + "\">\n"@, rest);
}

/// The element of every edge lies in the document's text.
proof fn lemma_graphml_edge_in_document(g: GraphDocument, j: int)
    requires
        0 <= j < g.edges@.len(),
    ensures
        contains_text(graphml_document(g), graphml_edge(g.edges@[j])),
{
    lemma_graphml_edge_listed(g.edges@, g.edges@.len() as int, j);
    let before = graphml_prolog() + key_lines(declared_keys(), declared_keys().len() as int)
        + "  <graph id=\"amasario\" edgedefault=\"directed\">\n"@ + graphml_boundary(g)
        + graphml_nodes(g.nodes@, g.nodes@.len() as int);
    let after = "  </graph>\n</graphml>\n"@;
    let edges = graphml_edges(g.edges@, g.edges@.len() as int);
    assert(graphml_document(g) =~= before + edges + after);
    lemma_contains_within(edges, graphml_edge(g.edges@[j]), before, after);
}

/// Every edge of a document is exported in its own direction: the GraphML text holds an
/// `<edge>` element whose `source` is the edge's source and whose `target` is its
/// target, each escaped, carrying the edge's relationship, confidence and observation
/// under their keys.
pub proof fn graphml_keeps_each_edge_direction(g: GraphDocument, j: int)
    requires
        0 <= j < g.edges@.len(),
    ensures
        contains_text(graphml_document(g), "    <edge id=\""@ + xml_escaped(g.edges@[j].id@) + "\" source=\""@ + xml_escaped(g.edges@[j].source@) + "\" target=\""@ + xml_escaped(g.edges@[j].target@) + "\">\n"@),
        contains_text(graphml_document(g), "    <edge id=\""@ + xml_escaped(g.edges@[j].id@) + "\" source=\""@ + xml_escaped(g.edges@[j].source@) + "\" target=\""@ + xml_escaped(g.edges@[j].target@) + "\">\n"@ + "      <data key=\"d4\">"@ + xml_escaped(g.edges@[j].relationship@) + "</data>\n"@ + "      <data key=\"d5\">"@ + xml_escaped(g.edges@[j].confidence@) + "</data>\n"@ + "      <data key=\"d6\">"@ + (if g.edges@[j].observed { "true"@ } else { "false"@ }) + "</data>\n"@),
{
    let e = g.edges@[j];
    lemma_graphml_edge_in_document(g, j);
    lemma_graphml_edge_opens_directed(e);
    lemma_contains_transitive(graphml_document(g), graphml_edge(e), "    <edge id=\""@ + xml_escaped(e.id@) + "\" source=\""@ + xml_escaped(e.source@) + "\" target=\""@ + xml_escaped(e.target@) + "\">\n"@ + "      <data key=\"d4\">"@ + xml_escaped(e.relationship@) + "</data>\n"@ + "      <data key=\"d5\">"@ + xml_escaped(e.confidence@) + "</data>\n"@ + "      <data key=\"d6\">"@ + (if e.observed { "true"@ } else { "false"@ }) + "</data>\n"@);
    lemma_graphml_tag_first(e);
    lemma_contains_transitive(graphml_document(g), "    <edge id=\""@ + xml_escaped(e.id@) + "\" source=\""@ + xml_escaped(e.source@) + "\" target=\""@ + xml_escaped(e.target@) + "\">\n"@ + "      <data key=\"d4\">"@ + xml_escaped(e.relationship@) + "</data>\n"@ + "      <data key=\"d5\">"@ + xml_escaped(e.confidence@) + "</data>\n"@ + "      <data key=\"d6\">"@ + (if e.observed { "true"@ } else { "false"@ }) + "</data>\n"@, "    <edge id=\""@ + xml_escaped(e.id@) + "\" source=\""@ + xml_escaped(e.source@) + "\" target=\""@ + xml_escaped(e.target@) + "\">\n"@);
}

/// A document is exported as a graph whose edges are directed.
pub proof fn graphml_declares_directed_edges(g: GraphDocument)
    ensures
        contains_text(graphml_document(g), "  <graph id=\"amasario\" edgedefault=\"directed\">\n"@),
{
    let before = graphml_prolog() + key_lines(declared_keys(), declared_keys().len() as int);
    let after = graphml_boundary(g) + graphml_nodes(g.nodes@, g.nodes@.len() as int)
        + graphml_edges(g.edges@, g.edges@.len() as int) + "  </graph>\n</graphml>\n"@;
    assert(before + "  <graph id=\"amasario\" edgedefault=\"directed\">\n"@ + after =~= graphml_document(g));
}

/// The element of every one of the first `n` nodes lies among their elements.
proof fn lemma_graphml_node_listed(nodes: Seq<Node>, n: int, j: int)
    requires
        0 <= j < n,
    ensures
        contains_text(graphml_nodes(nodes, n), graphml_node(nodes[j])),
    decreases n,
{
    if j == n - 1 {
        assert(graphml_nodes(nodes, n - 1) + graphml_node(nodes[j]) + Seq::<char>::empty() == graphml_nodes(nodes, n));
    } else {
        lemma_graphml_node_listed(nodes, n - 1, j);
        lemma_contains_within(graphml_nodes(nodes, n - 1), graphml_node(nodes[j]), Seq::<char>::empty(), graphml_node(nodes[n - 1]));
        assert(Seq::<char>::empty() + graphml_nodes(nodes, n - 1) + graphml_node(nodes[n - 1]) =~= graphml_nodes(nodes, n));
    }
}

/// Every node of a document is exported under its own identifier, with its kind under
/// the kind key, each escaped.
pub proof fn graphml_exports_each_node_under_its_identifier(g: GraphDocument, j: int)
    requires
        0 <= j < g.nodes@.len(),
    ensures
        contains_text(graphml_document(g), "    <node id=\""@ + xml_escaped(g.nodes@[j].id@) + "\">\n"@ + "      <data key=\"d0\">"@ + xml_escaped(g.nodes@[j].kind@) + "</data>\n"@),
{
    let n = g.nodes@[j];
    reveal_strlit("      <data key=\"");
    reveal_strlit("\">");
    reveal_strlit("d0");
    reveal_strlit("      <data key=\"d0\">");
    let rest = match n.label { Some(l) => data_line("d1"@, l@), None => Seq::empty() }
        + match n.digest { Some(d) => data_line("d2"@, d@), None => Seq::empty() }
        + "    </node>\n"@;
    assert(graphml_node(n) =~= "    <node id=\""@ + xml_escaped(n.id@) + "\">\n"@ + "      <data key=\"d0\">"@ + xml_escaped(n.kind@) + "</data>\n"@ + rest);
    lemma_contains_prefix("    <node id=\""@ + xml_escaped(n.id@) + "\">\n"@ + "      <data key=\"d0\">"@ + xml_escaped(n.kind@) + "</data>\n"@, rest);
    lemma_graphml_node_listed(g.nodes@, g.nodes@.len() as int, j);
    let before = graphml_prolog() + key_lines(declared_keys(), declared_keys().len() as int)
        + "  <graph id=\"amasario\" edgedefault=\"directed\">\n"@ + graphml_boundary(g);
    let after = graphml_edges(g.edges@, g.edges@.len() as int) + "  </graph>\n</graphml>\n"@;
    let nodes = graphml_nodes(g.nodes@, g.nodes@.len() as int);
    assert(graphml_document(g) =~= before + nodes + after);
    lemma_contains_within(nodes, graphml_node(n), before, after);
    lemma_contains_transitive(graphml_document(g), graphml_node(n), "    <node id=\""@ + xml_escaped(n.id@) + "\">\n"@ + "      <data key=\"d0\">"@ + xml_escaped(n.kind@) + "</data>\n"@);
}

/// `list` holds the document's unresolvable endpoints, sorted and without repetition.
pub open spec fn lists_unresolved(g: GraphDocument, list: Seq<Seq<char>>) -> bool {
    &&& forall|i: int, j: int| 0 <= i < j < list.len() ==> lex_lt(#[trigger] list[i], #[trigger] list[j])
    &&& forall|x: Seq<char>| unresolved(g, x) <==> #[trigger] list.contains(x)
}

/// The detail of the refusal to export a document with unresolvable endpoints.
pub open spec fn dangling_detail(list: Seq<Seq<char>>) -> Seq<char> {
    decimal_of(list.len()) + " endpoint(s) do not resolve to a node in this graph: "@ + joined_texts(list, ", "@)
}

fn join_strs(values: &Vec<&str>, separator: &str) -> (text: String)
    ensures
        text@ == joined_texts(strs(values@), separator@),
{
    let mut text = String::new();
    for i in 0..values.len()
        invariant
            text@ == joined_texts(strs(values@.take(i as int)), separator@),
    {
        proof {
            assert(strs(values@.take(i + 1)).drop_last() =~= strs(values@.take(i as int)));
        }
        if i > 0 {
            text.append(separator);
        }
        text.append(values[i]);
        proof {
            if i == 0 {
                assert(text@ =~= strs(values@.take(1))[0]);
            }
        }
    }
    proof { assert(values@.take(values@.len() as int) =~= values@); }
    text
}

fn join_owned(values: &Vec<String>, separator: &str) -> (text: String)
    ensures
        text@ == joined_texts(texts(values@), separator@),
{
    let mut text = String::new();
    for i in 0..values.len()
        invariant
            text@ == joined_texts(texts(values@.take(i as int)), separator@),
    {
        proof {
            assert(texts(values@.take(i + 1)).drop_last() =~= texts(values@.take(i as int)));
        }
        if i > 0 {
            text.append(separator);
        }
        text.append(values[i].as_str());
        proof {
            if i == 0 {
                assert(text@ =~= texts(values@.take(1))[0]);
            }
        }
    }
    proof { assert(values@.take(values@.len() as int) =~= values@); }
    text
}

fn append_node(out: &mut String, node: &Node)
    ensures
        final(out)@ == old(out)@ + graphml_node(*node),
{
    out.append("    <node id=\"");
    out.append(escape_attribute(node.id.as_str()).as_str());
    out.append("\">\n");
    push_data(out, "d0", node.kind.as_str());
    let ghost head = out@;
    match &node.label {
        Some(label) => push_data(out, "d1", label.as_str()),
        None => {},
    }
    let ghost with_label = out@;
    match &node.digest {
        Some(digest) => push_data(out, "d2", digest.as_str()),
        None => {},
    }
    out.append("    </node>\n");
    proof {
        reveal_strlit("d0");
        reveal_strlit("d1");
        reveal_strlit("d2");
        assert(final(out)@ =~= old(out)@ + graphml_node(*node));
    }
}

fn append_edge_open(out: &mut String, edge: &EdgeDocument)
    ensures
        final(out)@ == old(out)@ + graphml_edge_open(*edge),
{
    out.append("    <edge id=\"");
    out.append(escape_attribute(edge.id.as_str()).as_str());
    out.append("\" source=\"");
    out.append(escape_attribute(edge.source.as_str()).as_str());
    out.append("\" target=\"");
    out.append(escape_attribute(edge.target.as_str()).as_str());
    out.append("\">\n");
    proof { assert(final(out)@ =~= old(out)@ + graphml_edge_open(*edge)); }
}

fn append_edge_facts(out: &mut String, edge: &EdgeDocument)
    ensures
        final(out)@ == old(out)@ + graphml_edge_facts(*edge),
{
    push_data(out, "d4", edge.relationship.as_str());
    push_data(out, "d5", edge.confidence.as_str());
    out.append("      <data key=\"d6\">");
    out.append(bool_str(edge.observed));
    out.append("</data>\n");
    proof {
        reveal_strlit("d4");
        reveal_strlit("d5");
        assert(final(out)@ =~= old(out)@ + graphml_edge_facts(*edge));
    }
}

fn append_edge_extras(out: &mut String, edge: &EdgeDocument)
    ensures
        final(out)@ == old(out)@ + graphml_edge_extras(*edge),
{
    if edge.evidence.len() > 0 {
        let evidence = join_owned(&edge.evidence, " ");
        push_data(out, "d7", evidence.as_str());
    }
    let ghost with_evidence = out@;
    proof {
        reveal_strlit("d7");
        reveal_strlit(" ");
        assert(with_evidence =~= old(out)@ + (if edge.evidence@.len() > 0 { data_line("d7"@, joined_texts(texts(edge.evidence@), " "@)) } else { Seq::empty() }));
    }
    match &edge.boundary {
        Some(boundary) => {
            let mut text = boundary.network.clone();
            text.append("@ledger");
            text.append(decimal_u64(boundary.ledger).as_str());
            push_data(out, "d8", text.as_str());
        },
        None => {},
    }
    proof {
        reveal_strlit("d8");
        assert(final(out)@ =~= old(out)@ + graphml_edge_extras(*edge));
    }
}

fn append_edge(out: &mut String, edge: &EdgeDocument)
    ensures
        final(out)@ == old(out)@ + graphml_edge(*edge),
{
    append_edge_open(out, edge);
    append_edge_facts(out, edge);
    append_edge_extras(out, edge);
    out.append("    </edge>\n");
    proof { assert(final(out)@ =~= old(out)@ + graphml_edge(*edge)); }
}

/// Renders a document as GraphML.
///
/// Refused when an edge endpoint names no node of the document, since a file with a
/// dangling endpoint outlives the process that wrote it, and when anything else about the
/// document cannot be represented.
pub fn render(graph: &GraphDocument) -> (result: Result<String, EngineError>)
    ensures
        (exists|x: Seq<char>| unresolved(*graph, x)) ==> (result matches Err(e) && exists|list: Seq<Seq<char>>|
            #[trigger] lists_unresolved(*graph, list) && e.spec_message() == "the graph cannot be exported: "@ + dangling_detail(list)),
        !(exists|x: Seq<char>| unresolved(*graph, x)) && problems(*graph).len() > 0 ==> (result matches Err(e)
            && e.spec_message() == "GraphML"@ + " cannot represent "@ + problems(*graph)[0].0 + ": "@ + problems(*graph)[0].1),
        !(exists|x: Seq<char>| unresolved(*graph, x)) && problems(*graph).len() == 0 ==> (result matches Ok(text)
            && text@ == graphml_document(*graph)),
        result matches Ok(text) ==> forall|j: int| 0 <= j < graph.edges@.len() ==> contains_text(text@, "    <edge id=\""@ + xml_escaped((#[trigger] graph.edges@[j]).id@) + "\" source=\""@ + xml_escaped(graph.edges@[j].source@) + "\" target=\""@ + xml_escaped(graph.edges@[j].target@) + "\">\n"@ + "      <data key=\"d4\">"@ + xml_escaped(graph.edges@[j].relationship@) + "</data>\n"@ + "      <data key=\"d5\">"@ + xml_escaped(graph.edges@[j].confidence@) + "</data>\n"@ + "      <data key=\"d6\">"@ + (if graph.edges@[j].observed { "true"@ } else { "false"@ }) + "</data>\n"@),
        result matches Ok(text) ==> forall|j: int| 0 <= j < graph.nodes@.len() ==> contains_text(text@, "    <node id=\""@ + xml_escaped((#[trigger] graph.nodes@[j]).id@) + "\">\n"@ + "      <data key=\"d0\">"@ + xml_escaped(graph.nodes@[j].kind@) + "</data>\n"@),
        result matches Ok(text) ==> contains_text(text@, "  <graph id=\"amasario\" edgedefault=\"directed\">\n"@),
{
    let dangling = graph.unresolvable_endpoints();
    if dangling.len() > 0 {
        let mut detail = decimal(dangling.len());
        detail.append(" endpoint(s) do not resolve to a node in this graph: ");
        let names = join_strs(&dangling, ", ");
        detail.append(names.as_str());
        let failure = ExportFailure::InvalidGraph { detail };
        proof {
            reveal_strlit(", ");
            let list = strs(dangling@);
            assert(unresolved(*graph, dangling@[0]@));
            assert forall|x: Seq<char>| unresolved(*graph, x) <==> #[trigger] list.contains(x) by {
                if list.contains(x) {
                    let i = choose|i: int| 0 <= i < list.len() && list[i] == x;
                    assert(unresolved(*graph, dangling@[i]@));
                }
                if unresolved(*graph, x) {
                    let i = choose|i: int| 0 <= i < dangling@.len() && (#[trigger] dangling@[i])@ == x;
                    assert(list[i] == x);
                }
            }
            assert(lists_unresolved(*graph, list));
        }
        return Err(failure.into_error());
    }
    let failures = validate(graph);
    match first_failure(failures) {
        Some(f) => {
            return Err(f.into_error());
        },
        None => {},
    }
    let mut out = String::new();
    out.append("<?xml version=\"1.0\" encoding=\"UTF-8\"?>\n");
    proof { assert(out@ =~= "<?xml version=\"1.0\" encoding=\"UTF-8\"?>\n"@); }
    out.append("<graphml xmlns=\"http://graphml.graphdrawing.org/xmlns\" xmlns:xsi=\"http://www.w3.org/2001/XMLSchema-instance\" xsi:schemaLocation=\"http://graphml.graphdrawing.org/xmlns http://graphml.graphdrawing.org/xmlns/1.0/graphml.xsd\">\n");
    let ghost prolog = out@;
    let keys = declarations();
    for i in 0..keys.len()
        invariant
            keys@.len() == declared_keys().len(),
            forall|k: int| 0 <= k < keys@.len() ==> ((#[trigger] keys@[k]).0@, keys@[k].1@, keys@[k].2@, keys@[k].3@) == declared_keys()[k],
            out@ == prolog + key_lines(declared_keys(), i as int),
    {
        let (id, name, target, kind) = keys[i];
        out.append("  <key id=\"");
        out.append(id);
        out.append("\" for=\"");
        out.append(target);
        out.append("\" attr.name=\"");
        out.append(name);
        out.append("\" attr.type=\"");
        out.append(kind);
        out.append("\"/>\n");
        proof {
            assert(out@ =~= prolog + key_lines(declared_keys(), i + 1));
        }
    }
    out.append("  <graph id=\"amasario\" edgedefault=\"directed\">\n");
    let ghost opened = out@;
    match &graph.boundary {
        Some(boundary) => {
            let mut text = boundary.network.clone();
            text.append(" at ledger ");
            text.append(decimal_u64(boundary.ledger).as_str());
            text.append(", observed ");
            text.append(boundary.observed_at.as_str());
            out.append("    <desc>");
            out.append(escape(text.as_str()).as_str());
            out.append("</desc>\n");
        },
        None => {},
    }
    proof { assert(out@ =~= opened + graphml_boundary(*graph)); }
    let ghost top = out@;
    for i in 0..graph.nodes.len()
        invariant
            out@ == top + graphml_nodes(graph.nodes@, i as int),
    {
        append_node(&mut out, &graph.nodes[i]);
        proof { assert(out@ =~= top + graphml_nodes(graph.nodes@, i + 1)); }
    }
    let ghost after_nodes = out@;
    for i in 0..graph.edges.len()
        invariant
            out@ == after_nodes + graphml_edges(graph.edges@, i as int),
    {
        append_edge(&mut out, &graph.edges[i]);
        proof { assert(out@ =~= after_nodes + graphml_edges(graph.edges@, i + 1)); }
    }
    out.append("  </graph>\n</graphml>\n");
    proof {
        assert(out@ =~= graphml_document(*graph));
        assert forall|j: int| 0 <= j < graph.edges@.len() implies contains_text(out@, "    <edge id=\""@ + xml_escaped((#[trigger] graph.edges@[j]).id@) + "\" source=\""@ + xml_escaped(graph.edges@[j].source@) + "\" target=\""@ + xml_escaped(graph.edges@[j].target@) + "\">\n"@ + "      <data key=\"d4\">"@ + xml_escaped(graph.edges@[j].relationship@) + "</data>\n"@ + "      <data key=\"d5\">"@ + xml_escaped(graph.edges@[j].confidence@) + "</data>\n"@ + "      <data key=\"d6\">"@ + (if graph.edges@[j].observed { "true"@ } else { "false"@ }) + "</data>\n"@) by {
            graphml_keeps_each_edge_direction(*graph, j);
        }
        assert forall|j: int| 0 <= j < graph.nodes@.len() implies contains_text(out@, "    <node id=\""@ + xml_escaped((#[trigger] graph.nodes@[j]).id@) + "\">\n"@ + "      <data key=\"d0\">"@ + xml_escaped(graph.nodes@[j].kind@) + "</data>\n"@) by {
            graphml_exports_each_node_under_its_identifier(*graph, j);
        }
        graphml_declares_directed_edges(*graph);
    }
    Ok(out)
}

} // verus!
