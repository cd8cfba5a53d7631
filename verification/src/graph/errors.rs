//! The ways a graph can fail to be a graph, and how each is classified.
//!
//! An edge whose endpoint has no node is a relationship a consumer cannot follow, so
//! every structural problem is a named failure rather than a warning. Two failures are
//! about unreadable input rather than graph structure, and are classified apart so that a
//! caller reports a bad document rather than a broken graph.

use vstd::prelude::*;

use crate::error::{EngineError, ErrorCategory};
use crate::text::{debug_str, debug_text};

verus! {

/// A way a graph can fail to be constructed, traversed or interpreted.
#[derive(Debug, Clone, PartialEq, Eq)]
pub enum GraphFailure {
    /// An edge names an endpoint that is not a node in the graph.
    DanglingEdge {
        /// The edge that dangles, by identifier.
        edge: String,
        /// The identifier that did not resolve.
        endpoint: String,
        /// Which end of the edge it was: `source`, `target` or `intermediate`.
        role: String,
    },
    /// An edge's source and target are the same entity.
    SelfEdge {
        /// The entity that was both endpoints.
        entity: String,
    },
    /// Two nodes share an identifier.
    DuplicateNode {
        /// The identifier that appeared twice.
        id: String,
    },
    /// Two edges share an identifier.
    DuplicateEdge {
        /// The identifier that appeared twice.
        id: String,
    },
    /// A relationship connects entity kinds it does not permit.
    EndpointsNotPermitted {
        /// The relationship that was used.
        relationship: String,
        /// The kind of the subject.
        subject_kind: String,
        /// The kind of the object.
        object_kind: String,
    },
    /// An edge cites no evidence.
    EdgeWithoutEvidence {
        /// The edge that cites nothing.
        edge: String,
    },
    /// A graph was built without an identifier.
    MissingGraphId,
    /// A graph claims to be truncated without saying why, or gives a reason without claiming truncation.
    TruncationUnreported,
    /// A node names an entity kind that its identifier does not carry.
    UnknownEntityKind {
        /// The node the kind appeared on.
        node: String,
        /// The kind that was read.
        kind: String,
    },
    /// The document could not be read at all.
    MalformedDocument {
        /// What went wrong, in the parser's words.
        detail: String,
    },
}

/// What a failure states: its variant and the text of each of its fields.
pub enum FailureView {
    /// See [`GraphFailure::DanglingEdge`].
    DanglingEdge { edge: Seq<char>, endpoint: Seq<char>, role: Seq<char> },
    /// See [`GraphFailure::SelfEdge`].
    SelfEdge { entity: Seq<char> },
    /// See [`GraphFailure::DuplicateNode`].
    DuplicateNode { id: Seq<char> },
    /// See [`GraphFailure::DuplicateEdge`].
    DuplicateEdge { id: Seq<char> },
    /// See [`GraphFailure::EndpointsNotPermitted`].
    EndpointsNotPermitted { relationship: Seq<char>, subject_kind: Seq<char>, object_kind: Seq<char> },
    /// See [`GraphFailure::EdgeWithoutEvidence`].
    EdgeWithoutEvidence { edge: Seq<char> },
    /// See [`GraphFailure::MissingGraphId`].
    MissingGraphId,
    /// See [`GraphFailure::TruncationUnreported`].
    TruncationUnreported,
    /// See [`GraphFailure::UnknownEntityKind`].
    UnknownEntityKind { node: Seq<char>, kind: Seq<char> },
    /// See [`GraphFailure::MalformedDocument`].
    MalformedDocument { detail: Seq<char> },
}

impl FailureView {
    /// The sentence a failure with these facts becomes as an error.
    pub open spec fn message(self) -> Seq<char> {
        match self {
            FailureView::DanglingEdge { edge, endpoint, role } => "edge "@ + edge + " names a "@ + role + " node "@ + debug_text(endpoint) + " that is not in the graph; an edge whose endpoint has no node cannot be followed, and a graph that looks complete while containing one is worse than no graph"@,
            FailureView::SelfEdge { entity } => "the edge from "@ + entity + " to itself is not representable: a contract cannot depend on itself, and a one-node cycle would be reported as real topology"@,
            FailureView::DuplicateNode { id } => "node "@ + debug_text(id) + " appears more than once; edges resolve by identifier, so a duplicate makes every edge to it ambiguous"@,
            FailureView::DuplicateEdge { id } => "edge "@ + debug_text(id) + " appears more than once; a stable edge identifier is what lets a snapshot diff tell an unchanged edge from a replaced one"@,
            FailureView::EndpointsNotPermitted { relationship, subject_kind, object_kind } => relationship + " does not connect a "@ + subject_kind + " to a "@ + object_kind + "; relationship-types declares the endpoint kinds each relationship permits"@,
            FailureView::EdgeWithoutEvidence { edge } => "edge "@ + edge + " cites no evidence; the specification requires at least one record, so an unsupported edge is a schema violation rather than a weak claim"@,
            FailureView::MissingGraphId => "a graph needs an identifier, because a snapshot, a diff and a report all refer to a graph by it"@,
            FailureView::TruncationUnreported => "the graph says traversal was truncated but not why; a bounded search that does not say it was bounded invites the reader to conclude the relationship is absent"@,
            FailureView::UnknownEntityKind { node, kind } => debug_text(kind) + " is not an entity kind; the set is shared with graph.schema.json and node kinds and entity references cannot disagree about the vocabulary"@,
            FailureView::MalformedDocument { detail } => "the graph document could not be read: "@ + detail,
        }
    }
}

impl View for GraphFailure {
    type V = FailureView;

    open spec fn view(&self) -> FailureView {
        match self {
            GraphFailure::DanglingEdge { edge, endpoint, role } => FailureView::DanglingEdge { edge: edge@, endpoint: endpoint@, role: role@ },
            GraphFailure::SelfEdge { entity } => FailureView::SelfEdge { entity: entity@ },
            GraphFailure::DuplicateNode { id } => FailureView::DuplicateNode { id: id@ },
            GraphFailure::DuplicateEdge { id } => FailureView::DuplicateEdge { id: id@ },
            GraphFailure::EndpointsNotPermitted { relationship, subject_kind, object_kind } => FailureView::EndpointsNotPermitted { relationship: relationship@, subject_kind: subject_kind@, object_kind: object_kind@ },
            GraphFailure::EdgeWithoutEvidence { edge } => FailureView::EdgeWithoutEvidence { edge: edge@ },
            GraphFailure::MissingGraphId => FailureView::MissingGraphId,
            GraphFailure::TruncationUnreported => FailureView::TruncationUnreported,
            GraphFailure::UnknownEntityKind { node, kind } => FailureView::UnknownEntityKind { node: node@, kind: kind@ },
            GraphFailure::MalformedDocument { detail } => FailureView::MalformedDocument { detail: detail@ },
        }
    }
}

impl GraphFailure {
    /// The sentence the failure becomes as an error, as the contracts speak of it.
    pub open spec fn error_message(self) -> Seq<char> {
        self@.message()
    }

    /// Where in a document a validation failure lies, as the contracts speak of it.
    pub open spec fn error_path(self) -> Seq<char> {
        match self {
            GraphFailure::UnknownEntityKind { node, kind } => "/graph/nodes/"@ + node@ + "/kind"@,
            GraphFailure::MalformedDocument { detail } => "/graph"@,
            _ => Seq::empty(),
        }
    }

    /// The one-line description of a failure, as the contracts speak of it.
    pub open spec fn description(self) -> Seq<char> {
        match self {
            GraphFailure::DanglingEdge { edge, endpoint, role } => "an edge names an unresolved "@ + role@ + " node "@ + endpoint@,
            GraphFailure::SelfEdge { entity } => entity@ + " is related to itself"@,
            GraphFailure::DuplicateNode { id } => "node "@ + id@ + " appears twice"@,
            GraphFailure::DuplicateEdge { id } => "edge "@ + id@ + " appears twice"@,
            GraphFailure::EndpointsNotPermitted { relationship, subject_kind, object_kind } => relationship@ + " cannot connect a "@ + subject_kind@ + " to a "@ + object_kind@,
            GraphFailure::EdgeWithoutEvidence { edge } => "edge "@ + edge@ + " cites no evidence"@,
            GraphFailure::MissingGraphId => "the graph has no identifier"@,
            GraphFailure::TruncationUnreported => "the graph is truncated without a reason"@,
            GraphFailure::UnknownEntityKind { node, kind } => "node "@ + node@ + " has unrecognised kind "@ + kind@,
            GraphFailure::MalformedDocument { detail } => "unreadable document: "@ + detail@,
        }
    }

    /// The category of a failure, as the contracts speak of it.
    pub open spec fn spec_category(self) -> ErrorCategory {
        match self {
            GraphFailure::UnknownEntityKind { .. } | GraphFailure::MalformedDocument { .. } => ErrorCategory::Validation,
            _ => ErrorCategory::Graph,
        }
    }

    /// The category this failure belongs to.
    ///
    /// Deliberately not uniform: a dangling reference is a graph failure, unreadable
    /// input a validation failure.
    pub fn category(&self) -> (category: ErrorCategory)
        ensures
            category == self.spec_category(),
    {
        match self {
            GraphFailure::UnknownEntityKind { .. } | GraphFailure::MalformedDocument { .. } => ErrorCategory::Validation,
            _ => ErrorCategory::Graph,
        }
    }

    /// Whether the failure can be repaired by collecting more evidence.
    ///
    /// Only a dangling edge: its missing endpoint may be an entity a wider observation
    /// boundary would reach. Every other failure is a statement about the document.
    pub fn is_repairable_by_observation(&self) -> (repairable: bool)
        ensures
            repairable == (self is DanglingEdge),
    {
        match self {
            GraphFailure::DanglingEdge { .. } => true,
            _ => false,
        }
    }

    /// Whether the failure means the input is unreadable rather than wrong.
    pub fn is_malformed_input(&self) -> (malformed: bool)
        ensures
            malformed == (self is MalformedDocument || self is UnknownEntityKind),
    {
        match self {
            GraphFailure::MalformedDocument { .. } | GraphFailure::UnknownEntityKind { .. } => true,
            _ => false,
        }
    }

    /// The sentence the failure becomes as an error.
    pub fn error_sentence(&self) -> (sentence: String)
        ensures
            sentence@ == self.error_message(),
    {
        let mut out = String::new();
        match self {
            GraphFailure::DanglingEdge { edge, endpoint, role } => {
                out.append("edge ");
                proof { assert(out@ =~= "edge "@); }
                out.append(edge.as_str());
                out.append(" names a ");
                out.append(role.as_str());
                out.append(" node ");
                out.append(debug_str(endpoint.as_str()).as_str());
                out.append(" that is not in the graph; an edge whose endpoint has no node cannot be followed, and a graph that looks complete while containing one is worse than no graph");
            },
            GraphFailure::SelfEdge { entity } => {
                out.append("the edge from ");
                proof { assert(out@ =~= "the edge from "@); }
                out.append(entity.as_str());
                out.append(" to itself is not representable: a contract cannot depend on itself, and a one-node cycle would be reported as real topology");
            },
            GraphFailure::DuplicateNode { id } => {
                out.append("node ");
                proof { assert(out@ =~= "node "@); }
                out.append(debug_str(id.as_str()).as_str());
                out.append(" appears more than once; edges resolve by identifier, so a duplicate makes every edge to it ambiguous");
            },
            GraphFailure::DuplicateEdge { id } => {
                out.append("edge ");
                proof { assert(out@ =~= "edge "@); }
                out.append(debug_str(id.as_str()).as_str());
                out.append(" appears more than once; a stable edge identifier is what lets a snapshot diff tell an unchanged edge from a replaced one");
            },
            GraphFailure::EndpointsNotPermitted { relationship, subject_kind, object_kind } => {
                out.append(relationship.as_str());
                proof { assert(out@ =~= relationship@); }
                out.append(" does not connect a ");
                out.append(subject_kind.as_str());
                out.append(" to a ");
                out.append(object_kind.as_str());
                out.append("; relationship-types declares the endpoint kinds each relationship permits");
            },
            GraphFailure::EdgeWithoutEvidence { edge } => {
                out.append("edge ");
                proof { assert(out@ =~= "edge "@); }
                out.append(edge.as_str());
                out.append(" cites no evidence; the specification requires at least one record, so an unsupported edge is a schema violation rather than a weak claim");
            },
            GraphFailure::MissingGraphId => {
                out.append("a graph needs an identifier, because a snapshot, a diff and a report all refer to a graph by it");
                proof { assert(out@ =~= "a graph needs an identifier, because a snapshot, a diff and a report all refer to a graph by it"@); }
            },
            GraphFailure::TruncationUnreported => {
                out.append("the graph says traversal was truncated but not why; a bounded search that does not say it was bounded invites the reader to conclude the relationship is absent");
                proof { assert(out@ =~= "the graph says traversal was truncated but not why; a bounded search that does not say it was bounded invites the reader to conclude the relationship is absent"@); }
            },
            GraphFailure::UnknownEntityKind { node, kind } => {
                out.append(debug_str(kind.as_str()).as_str());
                proof { assert(out@ =~= debug_text(kind@)); }
                out.append(" is not an entity kind; the set is shared with graph.schema.json and node kinds and entity references cannot disagree about the vocabulary");
            },
            GraphFailure::MalformedDocument { detail } => {
                out.append("the graph document could not be read: ");
                proof { assert(out@ =~= "the graph document could not be read: "@); }
                out.append(detail.as_str());
            },
        }
        out
    }

    /// Where in a document a validation failure lies; empty for a structural failure.
    pub fn error_location(&self) -> (sentence: String)
        ensures
            sentence@ == self.error_path(),
    {
        let mut out = String::new();
        match self {
            GraphFailure::DanglingEdge { .. } => {},
            GraphFailure::SelfEdge { .. } => {},
            GraphFailure::DuplicateNode { .. } => {},
            GraphFailure::DuplicateEdge { .. } => {},
            GraphFailure::EndpointsNotPermitted { .. } => {},
            GraphFailure::EdgeWithoutEvidence { .. } => {},
            GraphFailure::MissingGraphId => {},
            GraphFailure::TruncationUnreported => {},
            GraphFailure::UnknownEntityKind { node, kind } => {
                out.append("/graph/nodes/");
                proof { assert(out@ =~= "/graph/nodes/"@); }
                out.append(node.as_str());
                out.append("/kind");
            },
            GraphFailure::MalformedDocument { .. } => {
                out.append("/graph");
                proof { assert(out@ =~= "/graph"@); }
            },
        }
        out
    }

    /// The one-line description of the failure.
    pub fn description_text(&self) -> (sentence: String)
        ensures
            sentence@ == self.description(),
    {
        let mut out = String::new();
        match self {
            GraphFailure::DanglingEdge { edge, endpoint, role } => {
                out.append("an edge names an unresolved ");
                proof { assert(out@ =~= "an edge names an unresolved "@); }
                out.append(role.as_str());
                out.append(" node ");
                out.append(endpoint.as_str());
            },
            GraphFailure::SelfEdge { entity } => {
                out.append(entity.as_str());
                proof { assert(out@ =~= entity@); }
                out.append(" is related to itself");
            },
            GraphFailure::DuplicateNode { id } => {
                out.append("node ");
                proof { assert(out@ =~= "node "@); }
                out.append(id.as_str());
                out.append(" appears twice");
            },
            GraphFailure::DuplicateEdge { id } => {
                out.append("edge ");
                proof { assert(out@ =~= "edge "@); }
                out.append(id.as_str());
                out.append(" appears twice");
            },
            GraphFailure::EndpointsNotPermitted { relationship, subject_kind, object_kind } => {
                out.append(relationship.as_str());
                proof { assert(out@ =~= relationship@); }
                out.append(" cannot connect a ");
                out.append(subject_kind.as_str());
                out.append(" to a ");
                out.append(object_kind.as_str());
            },
            GraphFailure::EdgeWithoutEvidence { edge } => {
                out.append("edge ");
                proof { assert(out@ =~= "edge "@); }
                out.append(edge.as_str());
                out.append(" cites no evidence");
            },
            GraphFailure::MissingGraphId => {
                out.append("the graph has no identifier");
                proof { assert(out@ =~= "the graph has no identifier"@); }
            },
            GraphFailure::TruncationUnreported => {
                out.append("the graph is truncated without a reason");
                proof { assert(out@ =~= "the graph is truncated without a reason"@); }
            },
            GraphFailure::UnknownEntityKind { node, kind } => {
                out.append("node ");
                proof { assert(out@ =~= "node "@); }
                out.append(node.as_str());
                out.append(" has unrecognised kind ");
                out.append(kind.as_str());
            },
            GraphFailure::MalformedDocument { detail } => {
                out.append("unreadable document: ");
                proof { assert(out@ =~= "unreadable document: "@); }
                out.append(detail.as_str());
            },
        }
        out
    }

    /// Converts the failure into the engine's structured error.
    pub fn into_error(self) -> (error: EngineError)
        ensures
            error.spec_category() == self.spec_category(),
            error.spec_message() == self.error_message(),
            error.spec_category() == ErrorCategory::Validation ==> error.spec_path() == self.error_path(),
    {
        let message = self.error_sentence();
        match self {
            GraphFailure::UnknownEntityKind { .. } | GraphFailure::MalformedDocument { .. } => {
                let path = self.error_location();
                EngineError::Validation { path, detail: message }
            },
            _ => EngineError::Graph(message),
        }
    }
}

/// A failure that more observation can repair is a broken graph and never unreadable
/// input, and exactly the unreadable-input failures are validation failures.
pub proof fn repairable_failures_are_structural(failure: GraphFailure)
    ensures
        failure is DanglingEdge ==> failure.spec_category() == ErrorCategory::Graph,
        failure is DanglingEdge ==> !(failure is MalformedDocument || failure is UnknownEntityKind),
        (failure is MalformedDocument || failure is UnknownEntityKind) <==> failure.spec_category() == ErrorCategory::Validation,
{
}

/// A one-line description of a failure, for a report or a summary.
pub fn describe(failure: &GraphFailure) -> (line: String)
    ensures
        line@ == failure.description(),
{
    failure.description_text()
}

/// Reports the first failure in a list, or succeeds when there are none.
pub fn first_failure(failures: Vec<GraphFailure>) -> (result: Result<(), EngineError>)
    ensures
        result is Ok <==> failures@.len() == 0,
        result matches Err(error) ==> error.spec_category() == failures@[0].spec_category()
            && error.spec_message() == failures@[0].error_message(),
{
    if failures.len() == 0 {
        Ok(())
    } else {
        let mut failures = failures;
        let first = failures.remove(0);
        Err(first.into_error())
    }
}

} // verus!
