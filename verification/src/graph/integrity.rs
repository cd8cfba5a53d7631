//! The integrity rules a graph must satisfy before anything reads it.
//!
//! Every rule is checked and every violation reported, in a deterministic order, so a
//! caller fixing a hand-assembled graph sees the whole list at once.

use vstd::prelude::*;

use crate::error::EngineError;
use crate::graph::edges::Edge;
use crate::graph::errors::{FailureView, GraphFailure, first_failure};
use crate::graph::graph::{Graph, Reachability, first_with_id, no_node_with_id, node_position};
use crate::graph::nodes::{EntityRef, Node};
use crate::text::{starts_with, str_equals};

verus! {

/// What a list of failures states, failure by failure.
pub open spec fn views(failures: Seq<GraphFailure>) -> Seq<FailureView> {
    failures.map_values(|f: GraphFailure| f@)
}

/// `entity` names a node of `nodes` of the entity's own kind: the first node carrying
/// its identifier has its kind.
pub open spec fn resolves(nodes: Seq<Node>, entity: EntityRef) -> bool {
    exists|i: int| first_with_id(nodes, entity.rendering(), i) && nodes[i].kind@ == entity.kind@
}

/// The failures of the graph as a whole: its identifier and its truncation report.
pub open spec fn header_failures(g: Graph) -> Seq<FailureView> {
    (if g.id@.len() == 0 { seq![FailureView::MissingGraphId] } else { Seq::empty() })
    + (if g.truncated && g.truncation_reason is None { seq![FailureView::TruncationUnreported] } else { Seq::empty() })
    + (if !g.truncated && g.truncation_reason is Some { seq![FailureView::TruncationUnreported] } else { Seq::empty() })
}

/// The failures of node `i`: a repeated identifier, and an identifier that does not
/// begin with the node's kind.
pub open spec fn node_failures_at(nodes: Seq<Node>, i: int) -> Seq<FailureView> {
    (if exists|j: int| 0 <= j < i && (#[trigger] nodes[j]).id@ == nodes[i].id@ {
        seq![FailureView::DuplicateNode { id: nodes[i].id@ }]
    } else {
        Seq::empty()
    })
    + (if !(nodes[i].kind@ + ":"@).is_prefix_of(nodes[i].id@) {
        seq![FailureView::UnknownEntityKind { node: nodes[i].id@, kind: nodes[i].kind@ }]
    } else {
        Seq::empty()
    })
}

/// The failures of the first `n` nodes, node by node.
pub open spec fn node_failures(nodes: Seq<Node>, n: int) -> Seq<FailureView>
    decreases n,
{
    if n <= 0 { Seq::empty() } else { node_failures(nodes, n - 1) + node_failures_at(nodes, n - 1) }
}

/// The failure an endpoint of an edge produces when it does not resolve.
pub open spec fn endpoint_failures(nodes: Seq<Node>, edge: Seq<char>, endpoint: EntityRef, role: Seq<char>) -> Seq<FailureView> {
    if resolves(nodes, endpoint) {
        Seq::empty()
    } else {
        seq![FailureView::DanglingEdge { edge, endpoint: endpoint.rendering(), role }]
    }
}

/// The failures of edge `i`: a repeated identifier, a self edge, a relationship the
/// endpoint kinds do not permit, no evidence, and each endpoint that does not resolve.
pub open spec fn edge_failures_at(g: Graph, i: int) -> Seq<FailureView> {
    let edges = g.edges@;
    let e = edges[i];
    (if exists|j: int| 0 <= j < i && (#[trigger] edges[j]).id@ == e.id@ {
        seq![FailureView::DuplicateEdge { id: e.id@ }]
    } else {
        Seq::empty()
    })
    + (if e.source.kind@ == e.target.kind@ && e.source.id@ == e.target.id@ {
        seq![FailureView::SelfEdge { entity: e.source.rendering() }]
    } else {
        Seq::empty()
    })
    + (if !e.permitted {
        seq![FailureView::EndpointsNotPermitted { relationship: e.relationship@, subject_kind: e.source.kind@, object_kind: e.target.kind@ }]
    } else {
        Seq::empty()
    })
    + (if e.evidence@.len() == 0 { seq![FailureView::EdgeWithoutEvidence { edge: e.id@ }] } else { Seq::empty() })
    + endpoint_failures(g.nodes@, e.id@, e.source, "source"@)
    + endpoint_failures(g.nodes@, e.id@, e.target, "target"@)
}

/// The failures of the first `n` edges, edge by edge.
pub open spec fn edge_failures(g: Graph, n: int) -> Seq<FailureView>
    decreases n,
{
    if n <= 0 { Seq::empty() } else { edge_failures(g, n - 1) + edge_failures_at(g, n - 1) }
}

/// How a failure names a reachability claim: `derived(reason)`.
pub open spec fn claim_label(reason: Seq<char>) -> Seq<char> {
    "derived("@ + reason + ")"@
}

/// The failure an entity named by a claim produces when no node carries its identifier.
pub open spec fn claim_entity_failures(nodes: Seq<Node>, label: Seq<char>, entity: EntityRef, role: Seq<char>) -> Seq<FailureView> {
    if no_node_with_id(nodes, entity.rendering()) {
        seq![FailureView::DanglingEdge { edge: label, endpoint: entity.rendering(), role }]
    } else {
        Seq::empty()
    }
}

/// The failures of the first `n` intermediates of a claim's path.
pub open spec fn path_failures(nodes: Seq<Node>, label: Seq<char>, path: Seq<EntityRef>, n: int) -> Seq<FailureView>
    decreases n,
{
    if n <= 0 {
        Seq::empty()
    } else {
        path_failures(nodes, label, path, n - 1) + claim_entity_failures(nodes, label, path[n - 1], "intermediate"@)
    }
}

/// The failures of one claim: its subject, its object and each intermediate.
pub open spec fn claim_failures(nodes: Seq<Node>, c: Reachability) -> Seq<FailureView> {
    let label = claim_label(c.reason@);
    claim_entity_failures(nodes, label, c.subject, "source"@)
    + claim_entity_failures(nodes, label, c.object, "target"@)
    + path_failures(nodes, label, c.path@, c.path@.len() as int)
}

/// The failures of the first `n` claims, claim by claim.
pub open spec fn derived_failures(g: Graph, n: int) -> Seq<FailureView>
    decreases n,
{
    if n <= 0 { Seq::empty() } else { derived_failures(g, n - 1) + claim_failures(g.nodes@, g.derived@[n - 1]) }
}

/// Every integrity rule `g` violates, in the order the rules are checked.
pub open spec fn integrity(g: Graph) -> Seq<FailureView> {
    header_failures(g)
    + node_failures(g.nodes@, g.nodes@.len() as int)
    + edge_failures(g, g.edges@.len() as int)
    + derived_failures(g, g.derived@.len() as int)
}

/// Whether `entity` names a node of its own kind.
pub fn resolves_in(nodes: &Vec<Node>, entity: &EntityRef) -> (found: bool)
    ensures
        found == resolves(nodes@, *entity),
{
    let id = entity.render();
    match node_position(nodes, id.as_str()) {
        Some(i) => {
            let same = str_equals(nodes[i].kind.as_str(), entity.kind.as_str());
            proof {
                if !same {
                    assert forall|k: int| first_with_id(nodes@, entity.rendering(), k) implies nodes@[k].kind@ != entity.kind@ by {
                        if k < i {
                            assert(nodes@[k].id@ != entity.rendering());
                        } else if k > i {
                            assert(nodes@[i as int].id@ != entity.rendering());
                        }
                    }
                }
            }
            same
        },
        None => false,
    }
}

fn has_node(nodes: &Vec<Node>, id: &str) -> (found: bool)
    ensures
        found == !no_node_with_id(nodes@, id@),
{
    node_position(nodes, id).is_some()
}

fn label_of(reason: &str) -> (label: String)
    ensures
        label@ == claim_label(reason@),
{
    let mut label = String::new();
    label.append("derived(");
    proof { assert(label@ =~= "derived("@); }
    label.append(reason);
    label.append(")");
    label
}

fn push_all(failures: &mut Vec<GraphFailure>, more: Vec<GraphFailure>)
    ensures
        views(final(failures)@) == views(old(failures)@) + views(more@),
{
    let mut more = more;
    let ghost start = views(failures@);
    let ghost all = views(more@);
    let mut k: usize = 0;
    let n = more.len();
    while more.len() > 0
        invariant
            views(failures@) == start + all.take(k as int),
            views(more@) == all.skip(k as int),
            k + more@.len() == n,
            n == all.len(),
        decreases more.len(),
    {
        let ghost before = more@;
        let ghost prior = failures@;
        let f = more.remove(0);
        failures.push(f);
        proof {
            assert(more@ == before.remove(0));
            assert(views(before) == all.skip(k as int));
            assert(f@ == all[k as int]) by {
                assert(views(before)[0] == before[0]@);
            }
            assert forall|j: int| 0 <= j < views(more@).len() implies views(more@)[j] == all.skip(k + 1)[j] by {
                assert(more@[j] == before[j + 1]);
                assert(views(before)[j + 1] == before[j + 1]@);
            }
            assert(views(more@) =~= all.skip(k + 1));
            assert(failures@ == prior.push(f));
            assert(views(failures@) =~= views(prior).push(f@));
            assert(views(failures@) =~= start + all.take(k + 1));
        }
        k = k + 1;
    }
    proof {
        assert(all.take(n as int) =~= all);
    }
}

impl Graph {
    /// Every integrity rule the graph violates, in a deterministic order.
    ///
    /// The graph-level rules first, then each node, each edge and each reachability
    /// claim in turn.
    pub fn integrity_failures(&self) -> (failures: Vec<GraphFailure>)
        ensures
            views(failures@) == integrity(*self),
    {
        let mut failures: Vec<GraphFailure> = Vec::new();
        if self.id.as_str().unicode_len() == 0 {
            failures.push(GraphFailure::MissingGraphId);
        }
        if self.truncated && self.truncation_reason.is_none() {
            failures.push(GraphFailure::TruncationUnreported);
        }
        if !self.truncated && self.truncation_reason.is_some() {
            failures.push(GraphFailure::TruncationUnreported);
        }
        proof {
            assert(views(failures@) =~= header_failures(*self));
        }

        let ghost header = header_failures(*self);
        for i in 0..self.nodes.len()
            invariant
                views(failures@) == header + node_failures(self.nodes@, i as int),
        {
            let more = self.node_failures(i);
            push_all(&mut failures, more);
            proof {
                assert(views(failures@) =~= header + node_failures(self.nodes@, i + 1));
            }
        }
        let ghost nodes_done = header + node_failures(self.nodes@, self.nodes@.len() as int);
        for i in 0..self.edges.len()
            invariant
                views(failures@) == nodes_done + edge_failures(*self, i as int),
        {
            let more = self.edge_failures(i);
            push_all(&mut failures, more);
            proof {
                assert(views(failures@) =~= nodes_done + edge_failures(*self, i + 1));
            }
        }
        let ghost edges_done = nodes_done + edge_failures(*self, self.edges@.len() as int);
        for i in 0..self.derived.len()
            invariant
                views(failures@) == edges_done + derived_failures(*self, i as int),
        {
            let more = self.claim_failures(i);
            push_all(&mut failures, more);
            proof {
                assert(views(failures@) =~= edges_done + derived_failures(*self, i + 1));
            }
        }
        proof {
            assert(edges_done + derived_failures(*self, self.derived@.len() as int) =~= integrity(*self));
        }
        failures
    }

    fn node_failures(&self, i: usize) -> (failures: Vec<GraphFailure>)
        requires
            i < self.nodes@.len(),
        ensures
            views(failures@) == node_failures_at(self.nodes@, i as int),
    {
        let mut failures: Vec<GraphFailure> = Vec::new();
        let node = &self.nodes[i];
        let mut repeated = false;
        for j in 0..i
            invariant
                i < self.nodes@.len(),
                node == self.nodes@[i as int],
                repeated == exists|k: int| 0 <= k < j && (#[trigger] self.nodes@[k]).id@ == node.id@,
        {
            if str_equals(self.nodes[j].id.as_str(), node.id.as_str()) {
                repeated = true;
            }
        }
        if repeated {
            failures.push(GraphFailure::DuplicateNode { id: node.id.clone() });
        }
        let mut prefix = node.kind.clone();
        prefix.append(":");
        if !starts_with(node.id.as_str(), prefix.as_str()) {
            failures.push(GraphFailure::UnknownEntityKind { node: node.id.clone(), kind: node.kind.clone() });
        }
        proof {
            assert(views(failures@) =~= node_failures_at(self.nodes@, i as int));
        }
        failures
    }

    fn endpoint_failure(&self, edge: &Edge, endpoint: &EntityRef, role: &str) -> (failures: Vec<GraphFailure>)
        ensures
            views(failures@) == endpoint_failures(self.nodes@, edge.id@, *endpoint, role@),
    {
        let mut failures: Vec<GraphFailure> = Vec::new();
        if !resolves_in(&self.nodes, endpoint) {
            failures.push(GraphFailure::DanglingEdge { edge: edge.id.clone(), endpoint: endpoint.render(), role: role.to_owned() });
        }
        proof {
            assert(views(failures@) =~= endpoint_failures(self.nodes@, edge.id@, *endpoint, role@));
        }
        failures
    }

    fn edge_failures(&self, i: usize) -> (failures: Vec<GraphFailure>)
        requires
            i < self.edges@.len(),
        ensures
            views(failures@) == edge_failures_at(*self, i as int),
    {
        let mut failures: Vec<GraphFailure> = Vec::new();
        let edge = &self.edges[i];
        let mut repeated = false;
        for j in 0..i
            invariant
                i < self.edges@.len(),
                edge == self.edges@[i as int],
                repeated == exists|k: int| 0 <= k < j && (#[trigger] self.edges@[k]).id@ == edge.id@,
        {
            if str_equals(self.edges[j].id.as_str(), edge.id.as_str()) {
                repeated = true;
            }
        }
        if repeated {
            failures.push(GraphFailure::DuplicateEdge { id: edge.id.clone() });
        }
        if edge.source.same_as(&edge.target) {
            failures.push(GraphFailure::SelfEdge { entity: edge.source.render() });
        }
        if !edge.permitted {
            failures.push(GraphFailure::EndpointsNotPermitted {
                relationship: edge.relationship.clone(),
                subject_kind: edge.source.kind.clone(),
                object_kind: edge.target.kind.clone(),
            });
        }
        if edge.evidence.len() == 0 {
            failures.push(GraphFailure::EdgeWithoutEvidence { edge: edge.id.clone() });
        }
        let ghost checked = views(failures@);
        let source = self.endpoint_failure(edge, &edge.source, "source");
        push_all(&mut failures, source);
        let target = self.endpoint_failure(edge, &edge.target, "target");
        push_all(&mut failures, target);
        proof {
            reveal_strlit("source");
            reveal_strlit("target");
            assert(views(failures@) =~= edge_failures_at(*self, i as int));
        }
        failures
    }

    fn entity_failure(&self, label: &String, entity: &EntityRef, role: &str) -> (failures: Vec<GraphFailure>)
        ensures
            views(failures@) == claim_entity_failures(self.nodes@, label@, *entity, role@),
    {
        let mut failures: Vec<GraphFailure> = Vec::new();
        let id = entity.render();
        if !has_node(&self.nodes, id.as_str()) {
            failures.push(GraphFailure::DanglingEdge { edge: label.clone(), endpoint: id, role: role.to_owned() });
        }
        proof {
            assert(views(failures@) =~= claim_entity_failures(self.nodes@, label@, *entity, role@));
        }
        failures
    }

    fn claim_failures(&self, c: usize) -> (failures: Vec<GraphFailure>)
        requires
            c < self.derived@.len(),
        ensures
            views(failures@) == claim_failures(self.nodes@, self.derived@[c as int]),
    {
        let claim = &self.derived[c];
        let label = label_of(claim.reason.as_str());
        let mut failures = self.entity_failure(&label, &claim.subject, "source");
        let object = self.entity_failure(&label, &claim.object, "target");
        push_all(&mut failures, object);
        let ghost ends = views(failures@);
        for k in 0..claim.path.len()
            invariant
                claim == self.derived@[c as int],
                label@ == claim_label(claim.reason@),
                views(failures@) == ends + path_failures(self.nodes@, label@, claim.path@, k as int),
        {
            let more = self.entity_failure(&label, &claim.path[k], "intermediate");
            push_all(&mut failures, more);
            proof {
                reveal_strlit("intermediate");
                assert(views(failures@) =~= ends + path_failures(self.nodes@, label@, claim.path@, k + 1));
            }
        }
        proof {
            reveal_strlit("source");
            reveal_strlit("target");
            assert(views(failures@) =~= claim_failures(self.nodes@, self.derived@[c as int]));
        }
        failures
    }

    /// Validates the graph, reporting the first integrity rule it violates.
    pub fn validate(&self) -> (result: Result<(), EngineError>)
        ensures
            result is Ok <==> integrity(*self).len() == 0,
            result matches Err(error) ==> error.spec_message() == integrity(*self)[0].message(),
    {
        let failures = self.integrity_failures();
        proof {
            if failures@.len() > 0 {
                assert(views(failures@)[0] == failures@[0]@);
            }
        }
        first_failure(failures)
    }
}

} // verus!
