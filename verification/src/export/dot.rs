//! The DOT export's escaping: what makes any value safe inside a double-quoted DOT string.
//!
//! DOT has no escape for a carriage return and an unescaped quote or backslash ends the
//! string early, which produces a file Graphviz rejects rather than a picture with a
//! wrong label.

use vstd::prelude::*;

use crate::graph::document::{EdgeDocument, GraphDocument, texts};
use crate::graph::nodes::Node;
use crate::text::{bool_str, bool_text, decimal_of, decimal_u64, push_char, contains_text, lemma_contains_within, lemma_contains_prefix, lemma_contains_transitive};

verus! {

/// What one character becomes inside a DOT double-quoted string.
pub open spec fn dot_escaped_char(c: char) -> Seq<char> {
    if c == '"' {
        seq!['\\', '"']
    } else if c == '\\' {
        seq!['\\', '\\']
    } else if c == '\n' {
        seq!['\\', 'n']
    } else if c == '\r' {
        Seq::empty()
    } else {
        seq![c]
    }
}

/// A value escaped for a DOT double-quoted string, character by character.
pub open spec fn dot_escaped(s: Seq<char>) -> Seq<char>
    decreases s.len(),
{
    if s.len() == 0 {
        Seq::empty()
    } else {
        dot_escaped(s.drop_last()) + dot_escaped_char(s.last())
    }
}

/// How a DOT reader reads a double-quoted string back: a backslash followed by `n` is a
/// newline, a backslash followed by any other character is that character.
pub open spec fn dot_unescaped(t: Seq<char>) -> Seq<char>
    decreases t.len(),
{
    if t.len() == 0 {
        Seq::empty()
    } else if t[0] == '\\' && t.len() >= 2 {
        (if t[1] == 'n' { seq!['\n'] } else { seq![t[1]] }) + dot_unescaped(t.skip(2))
    } else {
        seq![t[0]] + dot_unescaped(t.skip(1))
    }
}

/// Escaping distributes over concatenation.
proof fn lemma_dot_escaped_concat(a: Seq<char>, b: Seq<char>)
    ensures
        dot_escaped(a + b) == dot_escaped(a) + dot_escaped(b),
    decreases b.len(),
{
    if b.len() == 0 {
        assert(a + b =~= a);
    } else {
        lemma_dot_escaped_concat(a, b.drop_last());
        assert((a + b).drop_last() =~= a + b.drop_last());
        assert((a + b).last() == b.last());
    }
}

/// Reading back an escaped character gives the character, whatever follows it.
proof fn lemma_dot_read_char(c: char, rest: Seq<char>)
    requires
        c != '\r',
    ensures
        dot_unescaped(dot_escaped_char(c) + rest) == seq![c] + dot_unescaped(rest),
{
    let t = dot_escaped_char(c) + rest;
    if c == '"' || c == '\\' || c == '\n' {
        assert(t.skip(2) =~= rest);
    } else {
        assert(t.skip(1) =~= rest);
    }
}

/// A value written into a DOT file is read back unchanged, so a quote, a backslash or a
/// line break in an identifier cannot end the string early or split the file. The one
/// character not carried is a carriage return, which the writer drops. The escaped text
/// never holds a line break.
pub proof fn escaped_dot_reads_back(s: Seq<char>)
    requires
        !s.contains('\r'),
    ensures
        dot_unescaped(dot_escaped(s)) == s,
        !dot_escaped(s).contains('\n'),
        !dot_escaped(s).contains('\r'),
    decreases s.len(),
{
    if s.len() > 0 {
        let c = s[0];
        let rest = s.skip(1);
        assert(s =~= seq![c] + rest);
        assert(!rest.contains('\r')) by {
            if rest.contains('\r') {
                let i = choose|i: int| 0 <= i < rest.len() && rest[i] == '\r';
                assert(s[i + 1] == '\r');
            }
        }
        assert(c != '\r') by {
            assert(s[0] == c);
        }
        escaped_dot_reads_back(rest);
        lemma_dot_escaped_concat(seq![c], rest);
        assert(dot_escaped(seq![c]) =~= dot_escaped_char(c)) by {
            let one = seq![c];
            assert(one.drop_last() =~= Seq::<char>::empty());
            assert(one.last() == c);
            assert(dot_escaped(Seq::<char>::empty()) == Seq::<char>::empty());
            assert(dot_escaped(one) == dot_escaped(one.drop_last()) + dot_escaped_char(one.last()));
        }
        lemma_dot_read_char(c, dot_escaped(rest));
        let e = dot_escaped(s);
        assert(e == dot_escaped_char(c) + dot_escaped(rest));
        assert(!e.contains('\n') && !e.contains('\r')) by {
            if e.contains('\n') || e.contains('\r') {
                let i = choose|i: int| 0 <= i < e.len() && (e[i] == '\n' || e[i] == '\r');
                let k = dot_escaped_char(c).len();
                if i >= k {
                    assert(dot_escaped(rest)[i - k] == e[i]);
                }
            }
        }
    }
}

/// Escapes a string for a DOT double-quoted context.
pub fn escape(value: &str) -> (escaped: String)
    ensures
        escaped@ == dot_escaped(value@),
{
    let n = value.unicode_len();
    let mut out = String::new();
    for i in 0..n
        invariant
            n == value@.len(),
            out@ == dot_escaped(value@.subrange(0, i as int)),
    {
        let c = value.get_char(i);
        let ghost before = out@;
        if c == '"' {
            push_char(&mut out, '\\');
            push_char(&mut out, '"');
        } else if c == '\\' {
            push_char(&mut out, '\\');
            push_char(&mut out, '\\');
        } else if c == '\n' {
            push_char(&mut out, '\\');
            push_char(&mut out, 'n');
        } else if c == '\r' {
        } else {
            push_char(&mut out, c);
        }
        assert(value@.subrange(0, i + 1).drop_last() =~= value@.subrange(0, i as int));
        assert(out@ =~= before + dot_escaped_char(c));
    }
    assert(value@.subrange(0, n as int) =~= value@);
    out
}

/// Texts joined by a separator.
pub open spec fn joined_texts(s: Seq<Seq<char>>, separator: Seq<char>) -> Seq<char>
    decreases s.len(),
{
    if s.len() == 0 {
        Seq::empty()
    } else if s.len() == 1 {
        s[0]
    } else {
        joined_texts(s.drop_last(), separator) + separator + s.last()
    }
}

/// The graph-level label a bounded graph carries.
pub open spec fn dot_boundary(g: GraphDocument) -> Seq<char> {
    match g.boundary {
        Some(b) => "  label=\""@ + dot_escaped(b.network@ + " at ledger "@ + decimal_of(b.ledger as nat)) + "\";\n  labelloc=\"t\";\n"@,
        None => Seq::empty(),
    }
}

/// The statement a node becomes.
pub open spec fn dot_node(n: Node) -> Seq<char> {
    "  \""@ + dot_escaped(n.id@) + "\" [label=\""@ + dot_escaped(n.id@) + "\", amasarioKind=\""@ + dot_escaped(n.kind@) + "\""@
        + match n.label { Some(l) => ", amasarioLabel=\""@ + dot_escaped(l@) + "\""@, None => Seq::empty() }
        + match n.digest { Some(d) => ", amasarioDigest=\""@ + dot_escaped(d@) + "\""@, None => Seq::empty() }
        + "];\n"@
}

/// The start of an edge's statement: its endpoints, its label and its style.
pub open spec fn dot_edge_label(e: EdgeDocument) -> Seq<char> {
    "  \""@ + dot_escaped(e.source@) + "\" -> \""@ + dot_escaped(e.target@) + "\" [label=\""@ + dot_escaped(e.relationship@)
        + "\\n"@ + dot_escaped(e.confidence@) + "\", style="@ + (if e.observed { "solid"@ } else { "dashed"@ })
}

/// The identifier, observation and confidence attributes of an edge.
pub open spec fn dot_edge_facts(e: EdgeDocument) -> Seq<char> {
    ", amasarioEdge=\""@ + dot_escaped(e.id@) + "\", amasarioObserved=\""@ + bool_text(e.observed)
        + "\", amasarioConfidence=\""@ + dot_escaped(e.confidence@) + "\""@
}

/// The evidence attribute of an edge that cites any.
pub open spec fn dot_edge_evidence(e: EdgeDocument) -> Seq<char> {
    if e.evidence@.len() > 0 { ", amasarioEvidence=\""@ + dot_escaped(joined_texts(texts(e.evidence@), ","@)) + "\""@ } else { Seq::empty() }
}

/// The boundary attribute of an edge that records one.
pub open spec fn dot_edge_boundary(e: EdgeDocument) -> Seq<char> {
    match e.boundary {
        Some(b) => ", amasarioBoundary=\""@ + dot_escaped(b.network@) + "@ledger"@ + decimal_of(b.ledger as nat) + "\""@,
        None => Seq::empty(),
    }
}

/// The statement an edge becomes: solid when observed, dashed when inferred.
pub open spec fn dot_edge(e: EdgeDocument) -> Seq<char> {
    dot_edge_label(e) + dot_edge_facts(e) + dot_edge_evidence(e) + dot_edge_boundary(e) + "];\n"@
}

/// The statements of the first `n` nodes.
pub open spec fn dot_nodes(nodes: Seq<Node>, n: int) -> Seq<char>
    decreases n,
{
    if n <= 0 { Seq::empty() } else { dot_nodes(nodes, n - 1) + dot_node(nodes[n - 1]) }
}

/// The statements of the first `n` edges.
pub open spec fn dot_edges(edges: Seq<EdgeDocument>, n: int) -> Seq<char>
    decreases n,
{
    if n <= 0 { Seq::empty() } else { dot_edges(edges, n - 1) + dot_edge(edges[n - 1]) }
}

/// The note a truncated graph carries, so the picture says the analysis was bounded.
pub open spec fn dot_truncation(g: GraphDocument) -> Seq<char> {
    if g.metadata matches Some(m) && m.truncated {
        "  \"amasario:truncated\" [label=\"the analysis was bounded\\nand did not run to exhaustion\", shape=note];\n"@
    } else {
        Seq::empty()
    }
}

/// The DOT rendering of a document.
pub open spec fn dot_document(g: GraphDocument) -> Seq<char> {
    "digraph amasario {\n"@ + "  rankdir=LR;\n"@ + dot_boundary(g)
        + dot_nodes(g.nodes@, g.nodes@.len() as int)
        + dot_edges(g.edges@, g.edges@.len() as int)
        + dot_truncation(g)
        + "}\n"@
}

/// The statement of every one of the first `n` edges lies among their statements.
proof fn lemma_dot_edge_listed(edges: Seq<EdgeDocument>, n: int, j: int)
    requires
        0 <= j < n,
    ensures
        contains_text(dot_edges(edges, n), dot_edge(edges[j])),
    decreases n,
{
    if j == n - 1 {
        assert(dot_edges(edges, n - 1) + dot_edge(edges[j]) + Seq::<char>::empty() == dot_edges(edges, n));
    } else {
        lemma_dot_edge_listed(edges, n - 1, j);
        lemma_contains_within(dot_edges(edges, n - 1), dot_edge(edges[j]), Seq::<char>::empty(), dot_edge(edges[n - 1]));
        assert(Seq::<char>::empty() + dot_edges(edges, n - 1) + dot_edge(edges[n - 1]) =~= dot_edges(edges, n));
    }
}

/// Every edge of a document is drawn as an arrow from its source to its target: the
/// DOT text holds a statement whose left endpoint is the edge's source and whose right
/// endpoint is its target, each escaped, labelled with the edge's relationship over its
/// confidence, solid when the edge was observed and dashed when it was inferred.
pub proof fn dot_draws_each_edge_from_source_to_target(g: GraphDocument, j: int)
    requires
        0 <= j < g.edges@.len(),
    ensures
        contains_text(dot_document(g), "  \""@ + dot_escaped(g.edges@[j].source@) + "\" -> \""@ + dot_escaped(g.edges@[j].target@) + "\" [label=\""@),
        contains_text(dot_document(g), "  \""@ + dot_escaped(g.edges@[j].source@) + "\" -> \""@ + dot_escaped(g.edges@[j].target@) + "\" [label=\""@ + dot_escaped(g.edges@[j].relationship@) + "\\n"@ + dot_escaped(g.edges@[j].confidence@) + "\", style="@ + (if g.edges@[j].observed { "solid"@ } else { "dashed"@ })),
{
    let e = g.edges@[j];
    lemma_dot_edge_in_document(g, j);
    lemma_dot_edge_opens_with_arrow(e);
    lemma_contains_transitive(dot_document(g), dot_edge(e), "  \""@ + dot_escaped(e.source@) + "\" -> \""@ + dot_escaped(e.target@) + "\" [label=\""@ + dot_escaped(e.relationship@) + "\\n"@ + dot_escaped(e.confidence@) + "\", style="@ + (if e.observed { "solid"@ } else { "dashed"@ }));
    lemma_dot_label_opens_with_arrow(e);
    lemma_contains_transitive(dot_document(g), "  \""@ + dot_escaped(e.source@) + "\" -> \""@ + dot_escaped(e.target@) + "\" [label=\""@ + dot_escaped(e.relationship@) + "\\n"@ + dot_escaped(e.confidence@) + "\", style="@ + (if e.observed { "solid"@ } else { "dashed"@ }), "  \""@ + dot_escaped(e.source@) + "\" -> \""@ + dot_escaped(e.target@) + "\" [label=\""@);
}

/// The statement of every edge lies in the document's text.
proof fn lemma_dot_edge_in_document(g: GraphDocument, j: int)
    requires
        0 <= j < g.edges@.len(),
    ensures
        contains_text(dot_document(g), dot_edge(g.edges@[j])),
{
    lemma_dot_edge_listed(g.edges@, g.edges@.len() as int, j);
    let before = "digraph amasario {\n"@ + "  rankdir=LR;\n"@ + dot_boundary(g) + dot_nodes(g.nodes@, g.nodes@.len() as int);
    let after = dot_truncation(g) + "}\n"@;
    let edges = dot_edges(g.edges@, g.edges@.len() as int);
    assert(dot_document(g) =~= before + edges + after);
    lemma_contains_within(edges, dot_edge(g.edges@[j]), before, after);
}

/// An edge's label opens with the arrow from its source to its target.
proof fn lemma_dot_label_opens_with_arrow(e: EdgeDocument)
    ensures
        contains_text("  \""@ + dot_escaped(e.source@) + "\" -> \""@ + dot_escaped(e.target@) + "\" [label=\""@ + dot_escaped(e.relationship@) + "\\n"@ + dot_escaped(e.confidence@) + "\", style="@ + (if e.observed { "solid"@ } else { "dashed"@ }), "  \""@ + dot_escaped(e.source@) + "\" -> \""@ + dot_escaped(e.target@) + "\" [label=\""@),
{
    let rest = dot_escaped(e.relationship@) + "\\n"@ + dot_escaped(e.confidence@) + "\", style="@ + (if e.observed { "solid"@ } else { "dashed"@ });
    assert("  \""@ + dot_escaped(e.source@) + "\" -> \""@ + dot_escaped(e.target@) + "\" [label=\""@ + rest =~= "  \""@ + dot_escaped(e.source@) + "\" -> \""@ + dot_escaped(e.target@) + "\" [label=\""@ + dot_escaped(e.relationship@) + "\\n"@ + dot_escaped(e.confidence@) + "\", style="@ + (if e.observed { "solid"@ } else { "dashed"@ }));
    lemma_contains_prefix("  \""@ + dot_escaped(e.source@) + "\" -> \""@ + dot_escaped(e.target@) + "\" [label=\""@, rest);
}

/// An edge's statement opens with the arrow from its source to its target and its label.
proof fn lemma_dot_edge_opens_with_arrow(e: EdgeDocument)
    ensures
        contains_text(dot_edge(e), "  \""@ + dot_escaped(e.source@) + "\" -> \""@ + dot_escaped(e.target@) + "\" [label=\""@ + dot_escaped(e.relationship@) + "\\n"@ + dot_escaped(e.confidence@) + "\", style="@ + (if e.observed { "solid"@ } else { "dashed"@ })),
{
    let rest = dot_edge_facts(e) + dot_edge_evidence(e) + dot_edge_boundary(e) + "];\n"@;
    assert(dot_edge(e) =~= "  \""@ + dot_escaped(e.source@) + "\" -> \""@ + dot_escaped(e.target@) + "\" [label=\""@ + dot_escaped(e.relationship@) + "\\n"@ + dot_escaped(e.confidence@) + "\", style="@ + (if e.observed { "solid"@ } else { "dashed"@ }) + rest);
    lemma_contains_prefix("  \""@ + dot_escaped(e.source@) + "\" -> \""@ + dot_escaped(e.target@) + "\" [label=\""@ + dot_escaped(e.relationship@) + "\\n"@ + dot_escaped(e.confidence@) + "\", style="@ + (if e.observed { "solid"@ } else { "dashed"@ }), rest);
}

/// A document is drawn as a directed graph, and a document that records a bounded
/// analysis carries a note saying so.
pub proof fn dot_is_directed_and_marks_truncation(g: GraphDocument)
    ensures
        ("digraph amasario {\n"@).is_prefix_of(dot_document(g)),
        (g.metadata matches Some(m) && m.truncated) ==> contains_text(dot_document(g),
            "  \"amasario:truncated\" [label=\"the analysis was bounded\\nand did not run to exhaustion\", shape=note];\n"@),
{
    let rest = "  rankdir=LR;\n"@ + dot_boundary(g) + dot_nodes(g.nodes@, g.nodes@.len() as int)
        + dot_edges(g.edges@, g.edges@.len() as int) + dot_truncation(g) + "}\n"@;
    assert(dot_document(g) =~= "digraph amasario {\n"@ + rest);
    assert(dot_document(g).subrange(0, ("digraph amasario {\n"@).len() as int) =~= "digraph amasario {\n"@);
    if g.metadata matches Some(m) && m.truncated {
        let before = "digraph amasario {\n"@ + "  rankdir=LR;\n"@ + dot_boundary(g) + dot_nodes(g.nodes@, g.nodes@.len() as int)
            + dot_edges(g.edges@, g.edges@.len() as int);
        assert(before + dot_truncation(g) + "}\n"@ =~= dot_document(g));
    }
}

/// The statement of every one of the first `n` nodes lies among their statements.
proof fn lemma_dot_node_listed(nodes: Seq<Node>, n: int, j: int)
    requires
        0 <= j < n,
    ensures
        contains_text(dot_nodes(nodes, n), dot_node(nodes[j])),
    decreases n,
{
    if j == n - 1 {
        assert(dot_nodes(nodes, n - 1) + dot_node(nodes[j]) + Seq::<char>::empty() == dot_nodes(nodes, n));
    } else {
        lemma_dot_node_listed(nodes, n - 1, j);
        lemma_contains_within(dot_nodes(nodes, n - 1), dot_node(nodes[j]), Seq::<char>::empty(), dot_node(nodes[n - 1]));
        assert(Seq::<char>::empty() + dot_nodes(nodes, n - 1) + dot_node(nodes[n - 1]) =~= dot_nodes(nodes, n));
    }
}

/// Every node of a document is drawn under its own identifier, labelled with that
/// identifier and carrying its kind, each escaped.
pub proof fn dot_draws_each_node_under_its_identifier(g: GraphDocument, j: int)
    requires
        0 <= j < g.nodes@.len(),
    ensures
        contains_text(dot_document(g), "  \""@ + dot_escaped(g.nodes@[j].id@) + "\" [label=\""@ + dot_escaped(g.nodes@[j].id@) + "\", amasarioKind=\""@ + dot_escaped(g.nodes@[j].kind@) + "\""@),
{
    let n = g.nodes@[j];
    let rest = match n.label { Some(l) => ", amasarioLabel=\""@ + dot_escaped(l@) + "\""@, None => Seq::empty() }
        + match n.digest { Some(d) => ", amasarioDigest=\""@ + dot_escaped(d@) + "\""@, None => Seq::empty() }
        + "];\n"@;
    assert(dot_node(n) =~= "  \""@ + dot_escaped(n.id@) + "\" [label=\""@ + dot_escaped(n.id@) + "\", amasarioKind=\""@ + dot_escaped(n.kind@) + "\""@ + rest);
    lemma_contains_prefix("  \""@ + dot_escaped(n.id@) + "\" [label=\""@ + dot_escaped(n.id@) + "\", amasarioKind=\""@ + dot_escaped(n.kind@) + "\""@, rest);
    lemma_dot_node_listed(g.nodes@, g.nodes@.len() as int, j);
    let before = "digraph amasario {\n"@ + "  rankdir=LR;\n"@ + dot_boundary(g);
    let after = dot_edges(g.edges@, g.edges@.len() as int) + dot_truncation(g) + "}\n"@;
    let nodes = dot_nodes(g.nodes@, g.nodes@.len() as int);
    assert(dot_document(g) =~= before + nodes + after);
    lemma_contains_within(nodes, dot_node(n), before, after);
    lemma_contains_transitive(dot_document(g), dot_node(n), "  \""@ + dot_escaped(n.id@) + "\" [label=\""@ + dot_escaped(n.id@) + "\", amasarioKind=\""@ + dot_escaped(n.kind@) + "\""@);
}

fn join_texts(values: &Vec<String>, separator: &str) -> (text: String)
    ensures
        text@ == joined_texts(texts(values@), separator@),
{
    let mut text = String::new();
    for i in 0..values.len()
        invariant
            text@ == joined_texts(texts(values@.take(i as int)), separator@),
    {
        proof {
            assert(texts(values@.take(i + 1)).drop_last() =~= texts(values@.take(i as int)));
        }
        if i > 0 {
            text.append(separator);
        }
        text.append(values[i].as_str());
        proof {
            if i == 0 {
                assert(text@ =~= texts(values@.take(1))[0]);
            }
        }
    }
    proof { assert(values@.take(values@.len() as int) =~= values@); }
    text
}

#[verifier::rlimit(30)]
#[verifier::spinoff_prover]
fn append_node(out: &mut String, node: &Node)
    ensures
        final(out)@ == old(out)@ + dot_node(*node),
{
    out.append("  \"");
    out.append(escape(node.id.as_str()).as_str());
    out.append("\" [label=\"");
    out.append(escape(node.id.as_str()).as_str());
    out.append("\", amasarioKind=\"");
    out.append(escape(node.kind.as_str()).as_str());
    out.append("\"");
    let ghost head = out@;
    match &node.label {
        Some(label) => {
            out.append(", amasarioLabel=\"");
            out.append(escape(label.as_str()).as_str());
            out.append("\"");
        },
        None => {},
    }
    let ghost with_label = out@;
    match &node.digest {
        Some(digest) => {
            out.append(", amasarioDigest=\"");
            out.append(escape(digest.as_str()).as_str());
            out.append("\"");
        },
        None => {},
    }
    out.append("];\n");
    proof {
        assert(final(out)@ =~= old(out)@ + dot_node(*node));
    }
}

fn append_edge_label(out: &mut String, edge: &EdgeDocument)
    ensures
        final(out)@ == old(out)@ + dot_edge_label(*edge),
{
    let style = if edge.observed { "solid" } else { "dashed" };
    out.append("  \"");
    out.append(escape(edge.source.as_str()).as_str());
    out.append("\" -> \"");
    out.append(escape(edge.target.as_str()).as_str());
    out.append("\" [label=\"");
    out.append(escape(edge.relationship.as_str()).as_str());
    out.append("\\n");
    out.append(escape(edge.confidence.as_str()).as_str());
    out.append("\", style=");
    out.append(style);
    proof { assert(final(out)@ =~= old(out)@ + dot_edge_label(*edge)); }
}

fn append_edge_facts(out: &mut String, edge: &EdgeDocument)
    ensures
        final(out)@ == old(out)@ + dot_edge_facts(*edge),
{
    out.append(", amasarioEdge=\"");
    out.append(escape(edge.id.as_str()).as_str());
    out.append("\", amasarioObserved=\"");
    out.append(bool_str(edge.observed));
    out.append("\", amasarioConfidence=\"");
    out.append(escape(edge.confidence.as_str()).as_str());
    out.append("\"");
    proof { assert(final(out)@ =~= old(out)@ + dot_edge_facts(*edge)); }
}

fn append_edge_extras(out: &mut String, edge: &EdgeDocument)
    ensures
        final(out)@ == old(out)@ + dot_edge_evidence(*edge) + dot_edge_boundary(*edge),
{
    if edge.evidence.len() > 0 {
        out.append(", amasarioEvidence=\"");
        let evidence = join_texts(&edge.evidence, ",");
        out.append(escape(evidence.as_str()).as_str());
        out.append("\"");
    }
    let ghost with_evidence = out@;
    proof { assert(with_evidence =~= old(out)@ + dot_edge_evidence(*edge)); }
    match &edge.boundary {
        Some(boundary) => {
            out.append(", amasarioBoundary=\"");
            out.append(escape(boundary.network.as_str()).as_str());
            out.append("@ledger");
            out.append(decimal_u64(boundary.ledger).as_str());
            out.append("\"");
        },
        None => {},
    }
    proof { assert(final(out)@ =~= with_evidence + dot_edge_boundary(*edge)); }
}

fn append_edge(out: &mut String, edge: &EdgeDocument)
    ensures
        final(out)@ == old(out)@ + dot_edge(*edge),
{
    append_edge_label(out, edge);
    append_edge_facts(out, edge);
    append_edge_extras(out, edge);
    out.append("];\n");
    proof {
        assert(final(out)@ =~= old(out)@ + dot_edge(*edge));
    }
}

/// Renders a graph document as DOT.
///
/// Nodes carry their kind, label and digest as attributes; edges carry their
/// relationship and confidence as a label, are solid when observed and dashed when
/// inferred, and carry their evidence and boundary. A bounded graph says so.
pub fn render(graph: &GraphDocument) -> (dot: String)
    ensures
        dot@ == dot_document(*graph),
        forall|j: int| 0 <= j < graph.edges@.len()
            ==> contains_text(dot@, "  \""@ + dot_escaped(#[trigger] graph.edges@[j].source@) + "\" -> \""@ + dot_escaped(graph.edges@[j].target@) + "\" [label=\""@),
        forall|j: int| 0 <= j < graph.edges@.len() ==> contains_text(dot@, "  \""@ + dot_escaped((#[trigger] graph.edges@[j]).source@) + "\" -> \""@ + dot_escaped(graph.edges@[j].target@) + "\" [label=\""@ + dot_escaped(graph.edges@[j].relationship@) + "\\n"@ + dot_escaped(graph.edges@[j].confidence@) + "\", style="@ + (if graph.edges@[j].observed { "solid"@ } else { "dashed"@ })),
        forall|j: int| 0 <= j < graph.nodes@.len() ==> contains_text(dot@, "  \""@ + dot_escaped((#[trigger] graph.nodes@[j]).id@) + "\" [label=\""@ + dot_escaped(graph.nodes@[j].id@) + "\", amasarioKind=\""@ + dot_escaped(graph.nodes@[j].kind@) + "\""@),
        ("digraph amasario {\n"@).is_prefix_of(dot@),
        (graph.metadata matches Some(m) && m.truncated) ==> contains_text(dot@,
            "  \"amasario:truncated\" [label=\"the analysis was bounded\\nand did not run to exhaustion\", shape=note];\n"@),
{
    let mut out = String::new();
    out.append("digraph amasario {\n");
    proof { assert(out@ =~= "digraph amasario {\n"@); }
    out.append("  rankdir=LR;\n");
    let ghost opening = out@;
    match &graph.boundary {
        Some(boundary) => {
            let mut text = boundary.network.clone();
            text.append(" at ledger ");
            text.append(decimal_u64(boundary.ledger).as_str());
            out.append("  label=\"");
            out.append(escape(text.as_str()).as_str());
            out.append("\";\n  labelloc=\"t\";\n");
        },
        None => {},
    }
    proof { assert(out@ =~= opening + dot_boundary(*graph)); }
    let ghost top = out@;
    for i in 0..graph.nodes.len()
        invariant
            out@ == top + dot_nodes(graph.nodes@, i as int),
    {
        append_node(&mut out, &graph.nodes[i]);
        proof { assert(out@ =~= top + dot_nodes(graph.nodes@, i + 1)); }
    }
    let ghost after_nodes = out@;
    for i in 0..graph.edges.len()
        invariant
            out@ == after_nodes + dot_edges(graph.edges@, i as int),
    {
        append_edge(&mut out, &graph.edges[i]);
        proof { assert(out@ =~= after_nodes + dot_edges(graph.edges@, i + 1)); }
    }
    let ghost after_edges = out@;
    let truncated = match &graph.metadata {
        Some(m) => m.truncated,
        None => false,
    };
    if truncated {
        out.append("  \"amasario:truncated\" [label=\"the analysis was bounded\\nand did not run to exhaustion\", shape=note];\n");
    }
    proof { assert(out@ =~= after_edges + dot_truncation(*graph)); }
    out.append("}\n");
    proof {
        assert(out@ =~= dot_document(*graph));
        assert forall|j: int| 0 <= j < graph.edges@.len()
            implies contains_text(out@, "  \""@ + dot_escaped(#[trigger] graph.edges@[j].source@) + "\" -> \""@ + dot_escaped(graph.edges@[j].target@) + "\" [label=\""@) by {
            dot_draws_each_edge_from_source_to_target(*graph, j);
        }
        assert forall|j: int| 0 <= j < graph.edges@.len() implies contains_text(out@, "  \""@ + dot_escaped((#[trigger] graph.edges@[j]).source@) + "\" -> \""@ + dot_escaped(graph.edges@[j].target@) + "\" [label=\""@ + dot_escaped(graph.edges@[j].relationship@) + "\\n"@ + dot_escaped(graph.edges@[j].confidence@) + "\", style="@ + (if graph.edges@[j].observed { "solid"@ } else { "dashed"@ })) by {
            dot_draws_each_edge_from_source_to_target(*graph, j);
        }
        assert forall|j: int| 0 <= j < graph.nodes@.len() implies contains_text(out@, "  \""@ + dot_escaped((#[trigger] graph.nodes@[j]).id@) + "\" [label=\""@ + dot_escaped(graph.nodes@[j].id@) + "\", amasarioKind=\""@ + dot_escaped(graph.nodes@[j].kind@) + "\""@) by {
            dot_draws_each_node_under_its_identifier(*graph, j);
        }
        dot_is_directed_and_marks_truncation(*graph);
    }
    out
}

} // verus!
