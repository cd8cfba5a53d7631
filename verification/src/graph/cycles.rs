//! The graph's adjacency over node positions, and the cycles it contains.
//!
//! A node is found for an edge endpoint by the first node of the endpoint's identifier and
//! kind; an edge whose endpoint names no node takes no part, because it cannot be
//! followed. Neighbours are listed by the target's kind and identifier, so a traversal
//! visiting them in order visits them in an order a second run reproduces.

use vstd::prelude::*;

use crate::graph::graph::Graph;
use crate::graph::nodes::{EntityRef, Node, copy_entity};
use crate::graph::edges::{Edge, edge_text, relationship_for, relationship_of, render};
use crate::graph::paths::{closing_route, distinct};
use crate::graph::traversal::{Direction, follows, uses_edge, node_route, lemma_node_route_walks};
use crate::graph::topology::{
    Adjacency, adjacency_well_formed, has_edge, is_walk, step, walk_between, reaches, on_cycle, is_cyclic,
    mutually_reachable, component_is_cyclic, strictly_increasing, in_some_component, cyclic_components,
    lemma_walk_single, lemma_walk_push, lemma_walk_concat, lemma_closed_walk_mutual,
};
use crate::order::{is_permutation, sort_by_text_pair, lemma_permutation_onto, Keyed, sort_keyed, in_key_order, compare_text, Placement};
use crate::text::str_equals;

verus! {

/// Node `n` is the node for entity `e`: its identifier and kind agree.
pub open spec fn node_matches(n: Node, e: EntityRef) -> bool {
    n.id@ == e.rendering() && n.kind@ == e.kind@
}

/// Node `i` is the first node for entity `e`.
pub open spec fn located(nodes: Seq<Node>, e: EntityRef, i: int) -> bool {
    &&& 0 <= i < nodes.len()
    &&& node_matches(nodes[i], e)
    &&& forall|j: int| 0 <= j < i ==> !node_matches(#[trigger] nodes[j], e)
}

/// No node is the node for entity `e`.
pub open spec fn unlocated(nodes: Seq<Node>, e: EntityRef) -> bool {
    forall|j: int| 0 <= j < nodes.len() ==> !node_matches(#[trigger] nodes[j], e)
}

/// Edge `e` of the graph runs from node `u` to node `t`.
pub open spec fn links(g: Graph, e: int, u: int, t: int) -> bool {
    &&& 0 <= e < g.edges@.len()
    &&& located(g.nodes@, g.edges@[e].source, u)
    &&& located(g.nodes@, g.edges@[e].target, t)
}

/// `adj` is the graph's adjacency: one list per node, holding exactly the pairs
/// `(edge, target)` of the edges leaving that node.
pub open spec fn describes(adj: Seq<Vec<(usize, usize)>>, g: Graph) -> bool {
    &&& adj.len() == g.nodes@.len()
    &&& forall|u: int, k: int| 0 <= u < adj.len() && 0 <= k < adj[u]@.len()
        ==> links(g, (#[trigger] adj[u]@[k]).0 as int, u, adj[u]@[k].1 as int)
    &&& forall|e: int, u: int, t: int| #[trigger] links(g, e, u, t)
        ==> exists|k: int| 0 <= k < adj[u]@.len() && #[trigger] adj[u]@[k] == (e as usize, t as usize)
}

/// No list of `adj` holds one edge twice.
pub open spec fn rows_distinct(adj: Seq<Vec<(usize, usize)>>) -> bool {
    forall|u: int, k1: int, k2: int| 0 <= u < adj.len() && 0 <= k1 < k2 < adj[u]@.len() ==> (#[trigger] adj[u]@[k1]).0 != (#[trigger] adj[u]@[k2]).0
}

/// The first node for an entity.
pub fn locate(nodes: &Vec<Node>, entity: &EntityRef) -> (position: Option<usize>)
    ensures
        position matches Some(i) ==> located(nodes@, *entity, i as int),
        position is None ==> unlocated(nodes@, *entity),
{
    let rendered = entity.render();
    for i in 0..nodes.len()
        invariant
            rendered@ == entity.rendering(),
            forall|j: int| 0 <= j < i ==> !node_matches(#[trigger] nodes@[j], *entity),
    {
        if str_equals(nodes[i].id.as_str(), rendered.as_str()) && str_equals(nodes[i].kind.as_str(), entity.kind.as_str()) {
            return Some(i);
        }
    }
    None
}

/// A node is located at most once.
pub proof fn lemma_located_unique(nodes: Seq<Node>, e: EntityRef, i: int, j: int)
    requires
        located(nodes, e, i),
        located(nodes, e, j),
    ensures
        i == j,
{
    if i < j {
        assert(!node_matches(nodes[i], e));
    } else if j < i {
        assert(!node_matches(nodes[j], e));
    }
}

/// An adjacency that describes the graph names only its nodes.
pub proof fn lemma_describes_well_formed(adj: Seq<Vec<(usize, usize)>>, g: Graph)
    requires
        describes(adj, g),
    ensures
        adjacency_well_formed(adj),
        forall|u: int, v: int| #[trigger] has_edge(adj, u, v) <==> (0 <= u < adj.len() && exists|e: int| links(g, e, u, v)),
{
    assert forall|u: int, k: int| 0 <= u < adj.len() && 0 <= k < adj[u]@.len() implies (#[trigger] adj[u]@[k]).1 < adj.len() by {
        assert(links(g, adj[u]@[k].0 as int, u, adj[u]@[k].1 as int));
    }
    assert forall|u: int, v: int| #[trigger] has_edge(adj, u, v) <==> (0 <= u < adj.len() && exists|e: int| links(g, e, u, v)) by {
        if has_edge(adj, u, v) {
            let k = choose|k: int| 0 <= k < adj[u]@.len() && (#[trigger] adj[u]@[k]).1 == v;
            assert(links(g, adj[u]@[k].0 as int, u, adj[u]@[k].1 as int));
        }
        if 0 <= u < adj.len() && exists|e: int| links(g, e, u, v) {
            let e = choose|e: int| links(g, e, u, v);
            assert(g.nodes@.len() == g.nodes.len());
            assert(g.edges@.len() == g.edges.len());
            assert(0 <= v < g.nodes@.len());
            let k = choose|k: int| 0 <= k < adj[u]@.len() && #[trigger] adj[u]@[k] == (e as usize, v as usize);
            assert(adj[u]@[k].1 == v);
        }
    }
}

/// Two adjacencies with the same edges between the same nodes agree about walks.
proof fn lemma_same_walks(a: Seq<Vec<(usize, usize)>>, b: Seq<Vec<(usize, usize)>>, p: Seq<int>)
    requires
        a.len() == b.len(),
        forall|u: int, v: int| #[trigger] has_edge(a, u, v) == #[trigger] has_edge(b, u, v),
        is_walk(a, p),
    ensures
        is_walk(b, p),
{
    assert forall|i: int| 0 <= i < p.len() - 1 implies #[trigger] step(b, p, i) by {
        assert(step(a, p, i));
        assert(has_edge(a, p[i], p[i + 1]) == has_edge(b, p[i], p[i + 1]));
    }
}

/// Two adjacencies with the same edges between the same nodes agree about reachability
/// and cycles.
pub proof fn lemma_same_cycles(a: Seq<Vec<(usize, usize)>>, b: Seq<Vec<(usize, usize)>>)
    requires
        a.len() == b.len(),
        forall|u: int, v: int| #[trigger] has_edge(a, u, v) == #[trigger] has_edge(b, u, v),
    ensures
        forall|u: int, v: int| #[trigger] reaches(a, u, v) == reaches(b, u, v),
        forall|u: int| #[trigger] on_cycle(a, u) == on_cycle(b, u),
        is_cyclic(a) == is_cyclic(b),
{
    assert forall|u: int, v: int| #[trigger] reaches(a, u, v) == reaches(b, u, v) by {
        if reaches(a, u, v) {
            let p = choose|p: Seq<int>| walk_between(a, p, u, v);
            lemma_same_walks(a, b, p);
            assert(walk_between(b, p, u, v));
        }
        if reaches(b, u, v) {
            let p = choose|p: Seq<int>| walk_between(b, p, u, v);
            lemma_same_walks(b, a, p);
            assert(walk_between(a, p, u, v));
        }
    }
    assert forall|u: int| #[trigger] on_cycle(a, u) == on_cycle(b, u) by {
        if on_cycle(a, u) {
            let w = choose|w: int| #[trigger] has_edge(a, u, w) && reaches(a, w, u);
            assert(has_edge(b, u, w) && reaches(b, w, u));
        }
        if on_cycle(b, u) {
            let w = choose|w: int| #[trigger] has_edge(b, u, w) && reaches(b, w, u);
            assert(has_edge(a, u, w) && reaches(a, w, u));
        }
    }
    if is_cyclic(a) {
        let u = choose|u: int| 0 <= u < a.len() && #[trigger] on_cycle(a, u);
        assert(on_cycle(b, u));
    }
    if is_cyclic(b) {
        let u = choose|u: int| 0 <= u < b.len() && #[trigger] on_cycle(b, u);
        assert(on_cycle(a, u));
    }
}

/// Any two adjacencies that describe the graph agree about reachability and cycles.
pub proof fn lemma_descriptions_agree(a: Seq<Vec<(usize, usize)>>, b: Seq<Vec<(usize, usize)>>, g: Graph)
    requires
        describes(a, g),
        describes(b, g),
    ensures
        forall|u: int, v: int| #[trigger] reaches(a, u, v) == reaches(b, u, v),
        forall|u: int| #[trigger] on_cycle(a, u) == on_cycle(b, u),
        is_cyclic(a) == is_cyclic(b),
{
    lemma_describes_well_formed(a, g);
    lemma_describes_well_formed(b, g);
    assert forall|u: int, v: int| #[trigger] has_edge(a, u, v) == #[trigger] has_edge(b, u, v) by {}
    lemma_same_cycles(a, b);
}

/// The graph has a cycle, as the contracts speak of it.
pub open spec fn graph_is_cyclic(g: Graph) -> bool {
    forall|adj: Seq<Vec<(usize, usize)>>| #[trigger] describes(adj, g) ==> is_cyclic(adj)
}

impl Graph {
    /// The graph's adjacency: for each node, the edges leaving it as `(edge, target)`
    /// pairs, listed by the target's kind and identifier.
    pub fn adjacency(&self) -> (adj: Adjacency)
        ensures
            describes(adj@, *self),
            adjacency_well_formed(adj@),
            rows_distinct(adj@),
    {
        let n = self.nodes.len();
        let mut keys: Vec<(String, String)> = Vec::new();
        for i in 0..n
            invariant
                n == self.nodes@.len(),
                keys@.len() == i,
        {
            keys.push((self.nodes[i].kind.clone(), self.nodes[i].id.clone()));
        }
        let order = sort_by_text_pair(&keys);
        let mut sources: Vec<Option<usize>> = Vec::new();
        let mut targets: Vec<Option<usize>> = Vec::new();
        for e in 0..self.edges.len()
            invariant
                sources@.len() == e,
                targets@.len() == e,
                forall|x: int| 0 <= x < e ==> match #[trigger] sources@[x] {
                    Some(u) => located(self.nodes@, self.edges@[x].source, u as int),
                    None => unlocated(self.nodes@, self.edges@[x].source),
                },
                forall|x: int| 0 <= x < e ==> match #[trigger] targets@[x] {
                    Some(t) => located(self.nodes@, self.edges@[x].target, t as int),
                    None => unlocated(self.nodes@, self.edges@[x].target),
                },
        {
            sources.push(locate(&self.nodes, &self.edges[e].source));
            targets.push(locate(&self.nodes, &self.edges[e].target));
        }
        let m = self.edges.len();
        let mut adj: Adjacency = Vec::new();
        for u in 0..n
            invariant
                n == self.nodes@.len(),
                m == self.edges@.len(),
                is_permutation(order@, n as nat),
                sources@.len() == m,
                targets@.len() == m,
                forall|x: int| 0 <= x < m ==> match #[trigger] sources@[x] {
                    Some(s) => located(self.nodes@, self.edges@[x].source, s as int),
                    None => unlocated(self.nodes@, self.edges@[x].source),
                },
                forall|x: int| 0 <= x < m ==> match #[trigger] targets@[x] {
                    Some(t) => located(self.nodes@, self.edges@[x].target, t as int),
                    None => unlocated(self.nodes@, self.edges@[x].target),
                },
                adj@.len() == u,
                forall|a: int, k: int| 0 <= a < u && 0 <= k < adj@[a]@.len()
                    ==> links(*self, (#[trigger] adj@[a]@[k]).0 as int, a, adj@[a]@[k].1 as int),
                forall|e: int, a: int, t: int| 0 <= a < u && #[trigger] links(*self, e, a, t)
                    ==> exists|k: int| 0 <= k < adj@[a]@.len() && #[trigger] adj@[a]@[k] == (e as usize, t as usize),
                rows_distinct(adj@),
        {
            let mut row: Vec<(usize, usize)> = Vec::new();
            for j in 0..n
                invariant
                    n == self.nodes@.len(),
                    m == self.edges@.len(),
                    is_permutation(order@, n as nat),
                    sources@.len() == m,
                    targets@.len() == m,
                    u < n,
                    forall|x: int| 0 <= x < m ==> match #[trigger] sources@[x] {
                        Some(s) => located(self.nodes@, self.edges@[x].source, s as int),
                        None => unlocated(self.nodes@, self.edges@[x].source),
                    },
                    forall|x: int| 0 <= x < m ==> match #[trigger] targets@[x] {
                        Some(t) => located(self.nodes@, self.edges@[x].target, t as int),
                        None => unlocated(self.nodes@, self.edges@[x].target),
                    },
                    forall|k: int| 0 <= k < row@.len() ==> links(*self, (#[trigger] row@[k]).0 as int, u as int, row@[k].1 as int),
                    forall|e: int, jj: int| 0 <= jj < j && #[trigger] links(*self, e, u as int, order@[jj] as int)
                        ==> exists|k: int| 0 <= k < row@.len() && #[trigger] row@[k] == (e as usize, order@[jj]),
                    forall|k1: int, k2: int| 0 <= k1 < k2 < row@.len() ==> (#[trigger] row@[k1]).0 != (#[trigger] row@[k2]).0,
                    forall|k: int, jj: int| 0 <= k < row@.len() && j <= jj < n ==> (#[trigger] row@[k]).1 != #[trigger] order@[jj],
            {
                let t = order[j];
                for e in 0..m
                    invariant
                        n == self.nodes@.len(),
                        m == self.edges@.len(),
                        is_permutation(order@, n as nat),
                        sources@.len() == m,
                        targets@.len() == m,
                        u < n,
                        j < n,
                        t == order@[j as int],
                        forall|x: int| 0 <= x < m ==> match #[trigger] sources@[x] {
                            Some(s) => located(self.nodes@, self.edges@[x].source, s as int),
                            None => unlocated(self.nodes@, self.edges@[x].source),
                        },
                        forall|x: int| 0 <= x < m ==> match #[trigger] targets@[x] {
                            Some(tt) => located(self.nodes@, self.edges@[x].target, tt as int),
                            None => unlocated(self.nodes@, self.edges@[x].target),
                        },
                        forall|k: int| 0 <= k < row@.len() ==> links(*self, (#[trigger] row@[k]).0 as int, u as int, row@[k].1 as int),
                        forall|ee: int, jj: int| 0 <= jj < j && #[trigger] links(*self, ee, u as int, order@[jj] as int)
                            ==> exists|k: int| 0 <= k < row@.len() && #[trigger] row@[k] == (ee as usize, order@[jj]),
                        forall|ee: int| 0 <= ee < e && #[trigger] links(*self, ee, u as int, t as int)
                            ==> exists|k: int| 0 <= k < row@.len() && row@[k] == (ee as usize, t),
                        forall|k1: int, k2: int| 0 <= k1 < k2 < row@.len() ==> (#[trigger] row@[k1]).0 != (#[trigger] row@[k2]).0,
                        forall|k: int, jj: int| 0 <= k < row@.len() && j < jj < n ==> (#[trigger] row@[k]).1 != #[trigger] order@[jj],
                        forall|k: int| 0 <= k < row@.len() && (#[trigger] row@[k]).1 == t ==> row@[k].0 < e,
                {
                    let ghost before = row@;
                    if sources[e] == Some(u) && targets[e] == Some(t) {
                        row.push((e, t));
                        proof {
                            assert(row@[before.len() as int] == (e, t));
                            assert(links(*self, e as int, u as int, t as int));
                            assert forall|k1: int, k2: int| 0 <= k1 < k2 < row@.len() implies (#[trigger] row@[k1]).0 != (#[trigger] row@[k2]).0 by {
                                assert(row@[k1] == before[k1]);
                                if k2 < before.len() {
                                    assert(row@[k2] == before[k2]);
                                } else if before[k1].0 == e {
                                    assert(links(*self, before[k1].0 as int, u as int, before[k1].1 as int));
                                    lemma_located_unique(self.nodes@, self.edges@[e as int].target, before[k1].1 as int, t as int);
                                }
                            }
                            assert forall|k: int, jj: int| 0 <= k < row@.len() && j < jj < n implies (#[trigger] row@[k]).1 != #[trigger] order@[jj] by {
                                if k < before.len() {
                                    assert(row@[k] == before[k]);
                                } else {
                                    assert(order@[j as int] != order@[jj]);
                                }
                            }
                            assert forall|k: int| 0 <= k < row@.len() && (#[trigger] row@[k]).1 == t implies row@[k].0 < e + 1 by {
                                if k < before.len() {
                                    assert(row@[k] == before[k]);
                                }
                            }
                        }
                    }
                    proof {
                        assert forall|k: int| 0 <= k < before.len() implies row@[k] == before[k] by {}
                        assert forall|ee: int| 0 <= ee < e + 1 && #[trigger] links(*self, ee, u as int, t as int)
                            implies exists|k: int| 0 <= k < row@.len() && row@[k] == (ee as usize, t) by {
                            if ee == e {
                                let sx = sources@[e as int];
                                let tx = targets@[e as int];
                                match sx {
                                    Some(s) => { lemma_located_unique(self.nodes@, self.edges@[e as int].source, s as int, u as int); },
                                    None => {},
                                }
                                match tx {
                                    Some(tt) => { lemma_located_unique(self.nodes@, self.edges@[e as int].target, tt as int, t as int); },
                                    None => {},
                                }
                                assert(row@[before.len() as int] == (e, t));
                            } else {
                                let k = choose|k: int| 0 <= k < before.len() && before[k] == (ee as usize, t);
                                assert(row@[k] == (ee as usize, t));
                            }
                        }
                        assert forall|ee: int, jj: int| 0 <= jj < j && #[trigger] links(*self, ee, u as int, order@[jj] as int)
                            implies exists|k: int| 0 <= k < row@.len() && #[trigger] row@[k] == (ee as usize, order@[jj]) by {
                            let k = choose|k: int| 0 <= k < before.len() && before[k] == (ee as usize, order@[jj]);
                            assert(row@[k] == (ee as usize, order@[jj]));
                        }
                    }
                }
                proof {
                    assert forall|ee: int, jj: int| 0 <= jj < j + 1 && #[trigger] links(*self, ee, u as int, order@[jj] as int)
                        implies exists|k: int| 0 <= k < row@.len() && #[trigger] row@[k] == (ee as usize, order@[jj]) by {
                        if jj == j {
                            assert(links(*self, ee, u as int, t as int));
                        }
                    }
                }
            }
            let ghost prior = adj@;
            let ghost rv = row@;
            adj.push(row);
            proof {
                assert forall|a: int, k1: int, k2: int| 0 <= a < adj@.len() && 0 <= k1 < k2 < adj@[a]@.len()
                    implies (#[trigger] adj@[a]@[k1]).0 != (#[trigger] adj@[a]@[k2]).0 by {
                    if a < u {
                        assert(adj@[a] == prior[a]);
                    } else {
                        assert(adj@[a]@ == rv);
                    }
                }
                assert forall|a: int, k: int| 0 <= a < u + 1 && 0 <= k < adj@[a]@.len()
                    implies links(*self, (#[trigger] adj@[a]@[k]).0 as int, a, adj@[a]@[k].1 as int) by {
                    if a < u { assert(adj@[a] == prior[a]); }
                }
                assert forall|e: int, a: int, t: int| 0 <= a < u + 1 && #[trigger] links(*self, e, a, t)
                    implies exists|k: int| 0 <= k < adj@[a]@.len() && #[trigger] adj@[a]@[k] == (e as usize, t as usize) by {
                    if a < u {
                        assert(adj@[a] == prior[a]);
                    } else {
                        assert(adj@[a]@ == rv);
                        assert(0 <= t < n);
                        lemma_permutation_onto(order@, n as nat, t);
                        let jj = choose|jj: int| 0 <= jj < order@.len() && order@[jj] == t;
                        assert(links(*self, e, u as int, order@[jj] as int));
                        let k = choose|k: int| 0 <= k < rv.len() && #[trigger] rv[k] == (e as usize, order@[jj]);
                        assert(adj@[a]@[k] == (e as usize, t as usize));
                    }
                }
            }
        }
        proof {
            lemma_describes_well_formed(adj@, *self);
        }
        adj
    }
}

/// Whether the graph contains a cycle.
pub fn has_cycle(graph: &Graph) -> (cyclic: bool)
    ensures
        cyclic == graph_is_cyclic(*graph),
        forall|adj: Seq<Vec<(usize, usize)>>| #[trigger] describes(adj, *graph) ==> (cyclic == is_cyclic(adj)),
{
    let adj = graph.adjacency();
    let cyclic = crate::graph::topology::has_cycle(&adj);
    proof {
        assert forall|other: Seq<Vec<(usize, usize)>>| #[trigger] describes(other, *graph) implies (cyclic == is_cyclic(other)) by {
            lemma_descriptions_agree(adj@, other, *graph);
        }
    }
    cyclic
}

/// One cycle: the entities it passes through, starting and ending at the same one, and
/// the edges between them, each written `source -RELATIONSHIP-> target`.
#[derive(Debug, Clone, PartialEq, Eq)]
pub struct Cycle {
    /// The entities on the cycle; the first is repeated at the end.
    pub entities: Vec<EntityRef>,
    /// The edges traversed, in order.
    pub edges: Vec<String>,
}

impl Cycle {
    /// The identifiers of the entities on the cycle, for an error message or a report.
    pub fn entity_ids(&self) -> (ids: Vec<&str>)
        ensures
            ids@.len() == self.entities@.len(),
            forall|i: int| 0 <= i < ids@.len() ==> ids@[i]@ == (#[trigger] self.entities@[i]).id@,
    {
        let mut ids: Vec<&str> = Vec::new();
        for i in 0..self.entities.len()
            invariant
                ids@.len() == i,
                forall|x: int| 0 <= x < i ==> ids@[x]@ == (#[trigger] self.entities@[x]).id@,
        {
            ids.push(self.entities[i].id.as_str());
        }
        ids
    }
}

/// `entities` and `texts` report the route over node positions `nodes` taken by edge
/// positions `edges`: each edge links one node to the next, the entities are the first
/// edge's source and then each edge's target, and each text is how its edge is written.
pub open spec fn traces(g: Graph, nodes: Seq<usize>, edges: Seq<usize>, entities: Seq<EntityRef>, texts: Seq<String>) -> bool {
    &&& edges.len() >= 1
    &&& nodes.len() == edges.len() + 1
    &&& entities.len() == nodes.len()
    &&& texts.len() == edges.len()
    &&& forall|i: int| 0 <= i < edges.len() ==> #[trigger] links(g, edges[i] as int, nodes[i] as int, nodes[i + 1] as int)
    &&& forall|i: int| 0 <= i < edges.len() ==> (#[trigger] texts[i])@ == edge_text(g.edges@[edges[i] as int])
    &&& entities[0] == g.edges@[edges[0] as int].source
    &&& forall|i: int| 0 <= i < edges.len() ==> #[trigger] entities[i + 1] == g.edges@[edges[i] as int].target
}

/// `c` is a cycle of the graph: a closed route that visits no node twice before it
/// returns to where it started.
pub open spec fn is_cycle_of(g: Graph, c: Cycle) -> bool {
    exists|nodes: Seq<usize>, edges: Seq<usize>|
        #[trigger] traces(g, nodes, edges, c.entities@, c.edges@)
            && nodes[0] == nodes[nodes.len() - 1] && distinct(nodes.drop_last())
}

/// Reports a route over positions as entities and edge texts.
pub(crate) fn trace(graph: &Graph, adj: &Adjacency, nodes: &Vec<usize>, edges: &Vec<usize>) -> (c: Cycle)
    requires
        describes(adj@, *graph),
        follows(adj@, nodes@, edges@),
        edges@.len() >= 1,
    ensures
        traces(*graph, nodes@, edges@, c.entities@, c.edges@),
{
    proof {
        assert forall|i: int| 0 <= i < edges@.len() implies #[trigger] links(*graph, edges@[i] as int, nodes@[i] as int, nodes@[i + 1] as int) by {
            assert(uses_edge(adj@, nodes@, edges@, i));
            let k = choose|k: int| 0 <= k < adj@[nodes@[i] as int]@.len() && #[trigger] adj@[nodes@[i] as int]@[k] == (edges@[i], nodes@[i + 1]);
            assert(links(*graph, (adj@[nodes@[i] as int]@[k]).0 as int, nodes@[i] as int, adj@[nodes@[i] as int]@[k].1 as int));
        }
        assert(uses_edge(adj@, nodes@, edges@, 0));
        let k0 = choose|k: int| 0 <= k < adj@[nodes@[0] as int]@.len() && #[trigger] adj@[nodes@[0] as int]@[k] == (edges@[0], nodes@[1]);
        assert(links(*graph, (adj@[nodes@[0] as int]@[k0]).0 as int, nodes@[0] as int, adj@[nodes@[0] as int]@[k0].1 as int));
    }
    let mut entities: Vec<EntityRef> = Vec::new();
    entities.push(copy_entity(&graph.edges[edges[0]].source));
    let mut texts: Vec<String> = Vec::new();
    for i in 0..edges.len()
        invariant
            forall|j: int| 0 <= j < edges@.len() ==> #[trigger] links(*graph, edges@[j] as int, nodes@[j] as int, nodes@[j + 1] as int),
            edges@.len() >= 1,
            entities@.len() == i + 1,
            texts@.len() == i,
            entities@[0] == graph.edges@[edges@[0] as int].source,
            forall|j: int| 0 <= j < i ==> (#[trigger] texts@[j])@ == edge_text(graph.edges@[edges@[j] as int]),
            forall|j: int| 0 <= j < i ==> #[trigger] entities@[j + 1] == graph.edges@[edges@[j] as int].target,
    {
        assert(links(*graph, edges@[i as int] as int, nodes@[i as int] as int, nodes@[i + 1] as int));
        let e = &graph.edges[edges[i]];
        entities.push(copy_entity(&e.target));
        texts.push(render(e));
    }
    Cycle { entities, edges: texts }
}

/// Marks the members of a component.
fn membership(comp: &Vec<usize>, n: usize) -> (members: Vec<bool>)
    requires
        forall|j: int| 0 <= j < comp@.len() ==> (#[trigger] comp@[j]) < n,
    ensures
        members@.len() == n,
        forall|j: int| 0 <= j < comp@.len() ==> members@[(#[trigger] comp@[j]) as int],
{
    let mut members: Vec<bool> = Vec::new();
    for i in 0..n
        invariant
            members@.len() == i,
    {
        members.push(false);
    }
    for j in 0..comp.len()
        invariant
            members@.len() == n,
            forall|x: int| 0 <= x < comp@.len() ==> (#[trigger] comp@[x]) < n,
            forall|x: int| 0 <= x < j ==> members@[(#[trigger] comp@[x]) as int],
    {
        members.set(comp[j], true);
    }
    members
}

impl Keyed for Cycle {
    /// Cycles sort by the identifier of their first entity.
    open spec fn sort_key(&self, vocabulary: Seq<String>) -> (Seq<char>, int, Seq<char>) {
        (if self.entities@.len() > 0 { self.entities@[0].id@ } else { Seq::empty() }, 0, Seq::empty())
    }

    fn precedes(&self, other: &Cycle, vocabulary: &Vec<String>) -> (before: bool) {
        let a: &str = if self.entities.len() > 0 { self.entities[0].id.as_str() } else { "" };
        let b: &str = if other.entities.len() > 0 { other.entities[0].id.as_str() } else { "" };
        proof {
            reveal_strlit("");
        }
        match compare_text(a, b) {
            Placement::Before => true,
            _ => false,
        }
    }
}

/// No closed route of the graph through node `s` takes fewer hops than cycle `c`.
pub open spec fn shortest_through(g: Graph, c: Cycle, s: int) -> bool {
    forall|p: Seq<int>| #[trigger] node_route(g, Direction::Forward, p) && p[0] == s && p[p.len() - 1] == s && p.len() > 1
        ==> p.len() - 1 >= c.edges@.len()
}

/// Every cycle the graph contains, one per strongly connected component that holds one,
/// ordered by the identifier of the cycle's first entity.
///
/// Each cycle is found breadth first from the component's first node, within the
/// component, so it is a shortest cycle through that node and two runs over the same
/// graph report the same cycles.
pub fn find(graph: &Graph) -> (cycles: Vec<Cycle>)
    ensures
        forall|i: int| 0 <= i < cycles@.len() ==> is_cycle_of(*graph, #[trigger] cycles@[i]),
        !graph_is_cyclic(*graph) ==> cycles@.len() == 0,
        in_key_order(cycles@, Seq::<String>::empty()),
        forall|v: int| 0 <= v < graph.nodes@.len() && #[trigger] graph_on_cycle(*graph, v) ==>
            exists|i: int, u: int| 0 <= i < cycles@.len() && #[trigger] located(graph.nodes@, cycles@[i].entities@[0], u)
                && graph_mutually_reachable(*graph, u, v),
        forall|i: int, s: int| 0 <= i < cycles@.len() && #[trigger] located(graph.nodes@, cycles@[i].entities@[0], s)
            ==> shortest_through(*graph, cycles@[i], s),
        forall|i: int, s: int, v: int| 0 <= i < cycles@.len() && #[trigger] located(graph.nodes@, cycles@[i].entities@[0], s)
            && 0 <= v < graph.nodes@.len() && #[trigger] graph_mutually_reachable(*graph, s, v) ==> s <= v,
        forall|i: int, j: int, s: int, t: int| 0 <= i < cycles@.len() && 0 <= j < cycles@.len() && i != j
            && #[trigger] located(graph.nodes@, cycles@[i].entities@[0], s) && #[trigger] located(graph.nodes@, cycles@[j].entities@[0], t)
            ==> !graph_mutually_reachable(*graph, s, t),
{
    broadcast use vstd::seq_lib::group_to_multiset_ensures;
    let adj = graph.adjacency();
    let n = adj.len();
    let comps = cyclic_components(&adj);
    let mut found: Vec<Cycle> = Vec::new();
    for c in 0..comps.len()
        invariant
            n == adj.len(),
            describes(adj@, *graph),
            adjacency_well_formed(adj@),
            forall|i: int| 0 <= i < comps.len() ==> (#[trigger] comps@[i])@.len() > 0,
            forall|i: int, j: int| 0 <= i < comps.len() && 0 <= j < comps@[i]@.len() ==> (#[trigger] comps@[i]@[j]) < n,
            c > 0 ==> comps.len() > 0,
            forall|i: int| 0 <= i < found@.len() ==> is_cycle_of(*graph, #[trigger] found@[i]),
            found@.len() == c,
            forall|i: int| 0 <= i < c ==> located(graph.nodes@, (#[trigger] found@[i]).entities@[0], comps@[i]@[0] as int),
            forall|i: int| 0 <= i < c ==> shortest_through(*graph, #[trigger] found@[i], comps@[i]@[0] as int),
            forall|v: int| 0 <= v < adj.len() ==> (#[trigger] on_cycle(adj@, v) <==> in_some_component(comps@, v)),
            forall|i: int, j: int, w: int| 0 <= i < comps.len() && 0 <= j < comps@[i]@.len() && 0 <= w < adj.len()
                && #[trigger] mutually_reachable(adj@, comps@[i]@[j] as int, w) ==> comps@[i]@.contains(w as usize),
            forall|i: int| 0 <= i < comps.len() ==> strictly_increasing(#[trigger] comps@[i]@),
            forall|i: int, j: int| 0 <= i < j < comps.len() ==> comps@[i]@[0] < comps@[j]@[0],
    {
        let comp = &comps[c];
        proof {
            assert forall|j: int| 0 <= j < comp@.len() implies (#[trigger] comp@[j]) < n by {
                assert(comps@[c as int]@[j] < n);
            }
        }
        let members = membership(comp, n);
        let start = comp[0];
        match closing_route(&adj, start, &members) {
            Some(r) => {
                let cycle = trace(graph, &adj, &r.nodes, &r.edges);
                let ghost found0 = found@;
                found.push(cycle);
                proof {
                    assert(traces(*graph, r.nodes@, r.edges@, cycle.entities@, cycle.edges@));
                    assert(links(*graph, r.edges@[0] as int, r.nodes@[0] as int, r.nodes@[1] as int));
                    assert(located(graph.nodes@, cycle.entities@[0], start as int));
                    assert forall|i: int| 0 <= i < c + 1 implies located(graph.nodes@, (#[trigger] found@[i]).entities@[0], comps@[i]@[0] as int) by {
                        if i < c {
                            assert(found@[i] == found0[i]);
                        }
                    }
                    let st = start as int;
                    assert(comps@[c as int]@[0] == start);
                    assert forall|p: Seq<int>| #[trigger] node_route(*graph, Direction::Forward, p) && p[0] == st && p[p.len() - 1] == st && p.len() > 1
                        implies p.len() - 1 >= cycle.edges@.len() by {
                        lemma_node_route_walks(adj@, *graph, Direction::Forward, p);
                        assert(walk_between(adj@, p, st, st));
                        assert forall|i: int| 0 <= i < p.len() implies members@[p[i]] by {
                            lemma_closed_walk_mutual(adj@, p, st, i);
                            assert(0 <= p[i] < adj@.len());
                            assert(mutually_reachable(adj@, comps@[c as int]@[0] as int, p[i]));
                            assert(comps@[c as int]@.contains(p[i] as usize));
                            let jj = choose|jj: int| 0 <= jj < comps@[c as int]@.len() && comps@[c as int]@[jj] == p[i] as usize;
                            assert(members@[comps@[c as int]@[jj] as int]);
                        }
                    }
                    assert forall|i: int| 0 <= i < c + 1 implies shortest_through(*graph, #[trigger] found@[i], comps@[i]@[0] as int) by {
                        if i < c {
                            assert(found@[i] == found0[i]);
                        }
                    }
                }
            },
            None => {
                proof {
                    let st = start as int;
                    assert(comps@[c as int]@[0] == start);
                    assert(comps@[c as int]@.contains(st as usize));
                    assert(in_some_component(comps@, st));
                    assert(on_cycle(adj@, st));
                    let w = choose|w: int| #[trigger] has_edge(adj@, st, w) && reaches(adj@, w, st);
                    let kw = choose|kw: int| 0 <= kw < adj@[st]@.len() && (#[trigger] adj@[st]@[kw]).1 == w;
                    assert(0 <= w < adj@.len());
                    let q = choose|q: Seq<int>| walk_between(adj@, q, w, st);
                    lemma_walk_single(adj@, st);
                    lemma_walk_push(adj@, seq![st], st, st, w);
                    lemma_walk_concat(adj@, seq![st].push(w), q, st, w, st);
                    let p = seq![st].push(w) + q.drop_first();
                    assert(p.len() > 1);
                    assert forall|i: int| 0 <= i < p.len() implies members@[p[i]] by {
                        lemma_closed_walk_mutual(adj@, p, st, i);
                        assert(comps@[c as int]@[0] == start);
                        assert(0 <= p[i] < adj@.len());
                        assert(mutually_reachable(adj@, comps@[c as int]@[0] as int, p[i]));
                        assert(comps@[c as int]@.contains(p[i] as usize));
                        let jj = choose|jj: int| 0 <= jj < comps@[c as int]@.len() && comps@[c as int]@[jj] == p[i] as usize;
                        assert(members@[comps@[c as int]@[jj] as int]);
                    }
                    assert(walk_between(adj@, p, st, st));
                }
            },
        }
    }
    proof {
        if !graph_is_cyclic(*graph) && comps.len() > 0 {
            assert(comps@[0]@.len() > 0);
            let v = comps@[0]@[0] as int;
            assert(comps@[0]@.contains(v as usize));
            assert(in_some_component(comps@, v));
            assert(on_cycle(adj@, v));
            assert(is_cyclic(adj@));
            assert forall|other: Seq<Vec<(usize, usize)>>| #[trigger] describes(other, *graph) implies is_cyclic(other) by {
                lemma_descriptions_agree(adj@, other, *graph);
            }
            assert(graph_is_cyclic(*graph));
        }
    }
    let ghost unsorted = found@;
    let empty: Vec<String> = Vec::new();
    let cycles = sort_keyed(found, &empty);
    proof {
        assert(empty@ =~= Seq::<String>::empty());
        assert forall|i: int| 0 <= i < cycles@.len() implies is_cycle_of(*graph, #[trigger] cycles@[i]) by {
            assert(cycles@.contains(cycles@[i]));
            assert(cycles@.to_multiset().count(cycles@[i]) > 0);
            assert(unsorted.to_multiset().count(cycles@[i]) > 0);
            assert(unsorted.contains(cycles@[i]));
        }
        lemma_graph_cycles(adj@, *graph);
        assert forall|v: int| 0 <= v < graph.nodes@.len() && #[trigger] graph_on_cycle(*graph, v) implies
            exists|i: int, u: int| 0 <= i < cycles@.len() && #[trigger] located(graph.nodes@, cycles@[i].entities@[0], u)
                && graph_mutually_reachable(*graph, u, v) by {
            assert(on_cycle(adj@, v));
            assert(in_some_component(comps@, v));
            let i = choose|i: int| 0 <= i < comps@.len() && #[trigger] comps@[i]@.contains(v as usize);
            let j = choose|j: int| 0 <= j < comps@[i]@.len() && comps@[i]@[j] == v as usize;
            assert(mutually_reachable(adj@, comps@[i]@[0] as int, comps@[i]@[j] as int));
            let u = comps@[i]@[0] as int;
            assert(graph_mutually_reachable(*graph, u, v));
            let cy = unsorted[i];
            assert(located(graph.nodes@, cy.entities@[0], u));
            assert(unsorted.contains(cy));
            assert(unsorted.to_multiset().count(cy) > 0);
            assert(cycles@.to_multiset().count(cy) > 0);
            assert(cycles@.contains(cy));
            let x = choose|x: int| 0 <= x < cycles@.len() && cycles@[x] == cy;
            assert(located(graph.nodes@, cycles@[x].entities@[0], u));
        }
        assert forall|x: int, v: int| 0 <= x < unsorted.len() && 0 <= v < graph.nodes@.len()
            && #[trigger] graph_mutually_reachable(*graph, comps@[x]@[0] as int, v) implies comps@[x]@[0] <= v && comps@[x]@.contains(v as usize) by {
            assert(mutually_reachable(adj@, comps@[x]@[0] as int, v));
            assert(comps@[x]@.contains(v as usize));
            let k = choose|k: int| 0 <= k < comps@[x]@.len() && comps@[x]@[k] == v as usize;
            if k > 0 {
                assert(comps@[x]@[0] < comps@[x]@[k]);
            }
        }
        assert(unsorted.no_duplicates()) by {
            assert forall|x: int, y: int| 0 <= x < unsorted.len() && 0 <= y < unsorted.len() && x != y implies unsorted[x] != unsorted[y] by {
                if unsorted[x] == unsorted[y] {
                    lemma_located_unique(graph.nodes@, unsorted[x].entities@[0], comps@[x]@[0] as int, comps@[y]@[0] as int);
                    if x < y { assert(comps@[x]@[0] < comps@[y]@[0]); } else { assert(comps@[y]@[0] < comps@[x]@[0]); }
                }
            }
        }
        unsorted.lemma_multiset_has_no_duplicates();
        cycles@.lemma_multiset_has_no_duplicates_conv();
        assert forall|i: int, s: int, v: int| 0 <= i < cycles@.len() && #[trigger] located(graph.nodes@, cycles@[i].entities@[0], s)
            && 0 <= v < graph.nodes@.len() && #[trigger] graph_mutually_reachable(*graph, s, v) implies s <= v by {
            let cy = cycles@[i];
            assert(cycles@.contains(cy));
            assert(cycles@.to_multiset().count(cy) > 0);
            assert(unsorted.to_multiset().count(cy) > 0);
            assert(unsorted.contains(cy));
            let x = choose|x: int| 0 <= x < unsorted.len() && unsorted[x] == cy;
            assert(located(graph.nodes@, unsorted[x].entities@[0], comps@[x]@[0] as int));
            lemma_located_unique(graph.nodes@, cy.entities@[0], s, comps@[x]@[0] as int);
            assert(graph_mutually_reachable(*graph, comps@[x]@[0] as int, v));
        }
        assert forall|i: int, j: int, s: int, t: int| 0 <= i < cycles@.len() && 0 <= j < cycles@.len() && i != j
            && #[trigger] located(graph.nodes@, cycles@[i].entities@[0], s) && #[trigger] located(graph.nodes@, cycles@[j].entities@[0], t)
            implies !graph_mutually_reachable(*graph, s, t) by {
            let ci = cycles@[i];
            let cj = cycles@[j];
            assert(cycles@.contains(ci) && cycles@.contains(cj));
            assert(unsorted.to_multiset().count(ci) > 0 && unsorted.to_multiset().count(cj) > 0);
            assert(unsorted.contains(ci) && unsorted.contains(cj));
            let x = choose|x: int| 0 <= x < unsorted.len() && unsorted[x] == ci;
            let y = choose|y: int| 0 <= y < unsorted.len() && unsorted[y] == cj;
            lemma_located_unique(graph.nodes@, ci.entities@[0], s, comps@[x]@[0] as int);
            lemma_located_unique(graph.nodes@, cj.entities@[0], t, comps@[y]@[0] as int);
            if graph_mutually_reachable(*graph, s, t) {
                assert(graph_mutually_reachable(*graph, t, s)) by {
                    assert(mutually_reachable(adj@, s, t));
                    assert(mutually_reachable(adj@, t, s));
                }
                assert(0 <= t < graph.nodes@.len());
                assert(0 <= s < graph.nodes@.len());
                assert(comps@[x]@.contains(t as usize));
                assert(comps@[y]@.contains(s as usize));
                assert(s <= t && t <= s);
                assert(ci != cj);
                assert(x != y);
                if x < y { assert(comps@[x]@[0] < comps@[y]@[0]); } else { assert(comps@[y]@[0] < comps@[x]@[0]); }
            }
        }
        assert forall|i: int, s: int| 0 <= i < cycles@.len() && #[trigger] located(graph.nodes@, cycles@[i].entities@[0], s)
            implies shortest_through(*graph, cycles@[i], s) by {
            let cy = cycles@[i];
            assert(cycles@.contains(cy));
            assert(cycles@.to_multiset().count(cy) > 0);
            assert(unsorted.to_multiset().count(cy) > 0);
            assert(unsorted.contains(cy));
            let x = choose|x: int| 0 <= x < unsorted.len() && unsorted[x] == cy;
            assert(located(graph.nodes@, unsorted[x].entities@[0], comps@[x]@[0] as int));
            lemma_located_unique(graph.nodes@, cy.entities@[0], s, comps@[x]@[0] as int);
            assert(shortest_through(*graph, unsorted[x], comps@[x]@[0] as int));
        }
    }
    cycles
}

/// A node's identifier carries its kind: it is at least the kind and a separator.
pub open spec fn identifier_carries_kind(n: Node) -> bool {
    n.id@.len() > n.kind@.len()
}

/// `e` is the entity node `n` stands for: its kind, and its identifier without the
/// `KIND:` prefix.
pub open spec fn names(n: Node, e: EntityRef) -> bool {
    e.kind == n.kind && e.id@ == n.id@.subrange(n.kind@.len() + 1int, n.id@.len() as int)
}

/// Node `v` lies on a cycle of the graph.
pub open spec fn graph_on_cycle(g: Graph, v: int) -> bool {
    forall|adj: Seq<Vec<(usize, usize)>>| #[trigger] describes(adj, g) ==> on_cycle(adj, v)
}

/// Nodes `u` and `v` of the graph reach each other.
pub open spec fn graph_mutually_reachable(g: Graph, u: int, v: int) -> bool {
    forall|adj: Seq<Vec<(usize, usize)>>| #[trigger] describes(adj, g) ==> mutually_reachable(adj, u, v)
}

/// Every node's identifier carries its kind.
pub open spec fn identifiers_carry_kinds(g: Graph) -> bool {
    forall|i: int| 0 <= i < g.nodes@.len() ==> identifier_carries_kind(#[trigger] g.nodes@[i])
}

/// The entity a node stands for, read back from its identifier.
pub fn node_entity(node: &Node) -> (entity: EntityRef)
    requires
        identifier_carries_kind(*node),
    ensures
        entity.kind == node.kind,
        entity.id@ == node.id@.subrange(node.kind@.len() + 1int, node.id@.len() as int),
{
    let total = node.id.as_str().unicode_len();
    let skip = node.kind.as_str().unicode_len() + 1;
    let id = node.id.as_str().substring_char(skip, total);
    EntityRef { kind: node.kind.clone(), id: id.to_owned() }
}

/// What one description of the graph says about cycles, every description says.
proof fn lemma_graph_cycles(adj: Seq<Vec<(usize, usize)>>, g: Graph)
    requires
        describes(adj, g),
    ensures
        forall|v: int| #[trigger] graph_on_cycle(g, v) <==> on_cycle(adj, v),
        forall|u: int, v: int| #[trigger] graph_mutually_reachable(g, u, v) <==> mutually_reachable(adj, u, v),
{
    assert forall|v: int| #[trigger] graph_on_cycle(g, v) <==> on_cycle(adj, v) by {
        if on_cycle(adj, v) {
            assert forall|other: Seq<Vec<(usize, usize)>>| #[trigger] describes(other, g) implies on_cycle(other, v) by {
                lemma_descriptions_agree(adj, other, g);
            }
        }
    }
    assert forall|u: int, v: int| #[trigger] graph_mutually_reachable(g, u, v) <==> mutually_reachable(adj, u, v) by {
        if mutually_reachable(adj, u, v) {
            assert forall|other: Seq<Vec<(usize, usize)>>| #[trigger] describes(other, g) implies mutually_reachable(other, u, v) by {
                lemma_descriptions_agree(adj, other, g);
            }
        }
    }
}

/// Marks every member of every component.
fn mark_members(comps: &Vec<Vec<usize>>, n: usize) -> (marks: Vec<bool>)
    requires
        forall|i: int, j: int| 0 <= i < comps@.len() && 0 <= j < comps@[i]@.len() ==> (#[trigger] comps@[i]@[j]) < n,
    ensures
        marks@.len() == n,
        forall|v: int| 0 <= v < n ==> (#[trigger] marks@[v] <==> in_some_component(comps@, v)),
{
    let mut marks: Vec<bool> = Vec::new();
    for i in 0..n
        invariant
            marks@.len() == i,
            forall|v: int| 0 <= v < i ==> !#[trigger] marks@[v],
    {
        marks.push(false);
    }
    for c in 0..comps.len()
        invariant
            marks@.len() == n,
            forall|i: int, j: int| 0 <= i < comps@.len() && 0 <= j < comps@[i]@.len() ==> (#[trigger] comps@[i]@[j]) < n,
            forall|v: int| 0 <= v < n ==> (#[trigger] marks@[v] <==> in_some_component(comps@.subrange(0, c as int), v)),
    {
        let comp = &comps[c];
        for j in 0..comp.len()
            invariant
                marks@.len() == n,
                c < comps@.len(),
                comp == comps@[c as int],
                forall|i: int, j: int| 0 <= i < comps@.len() && 0 <= j < comps@[i]@.len() ==> (#[trigger] comps@[i]@[j]) < n,
                forall|v: int| 0 <= v < n ==> (#[trigger] marks@[v] <==> (in_some_component(comps@.subrange(0, c as int), v)
                    || exists|x: int| 0 <= x < j && #[trigger] comp@[x] == v as usize)),
        {
            assert(comps@[c as int]@[j as int] < n);
            marks.set(comp[j], true);
            proof {
                assert forall|v: int| 0 <= v < n implies (#[trigger] marks@[v] <==> (in_some_component(comps@.subrange(0, c as int), v)
                    || exists|x: int| 0 <= x < j + 1 && #[trigger] comp@[x] == v as usize)) by {
                    if v == comp@[j as int] {
                        assert(comp@[j as int] == v as usize);
                    }
                }
            }
        }
        proof {
            assert forall|v: int| 0 <= v < n implies (#[trigger] marks@[v] <==> in_some_component(comps@.subrange(0, c + 1), v)) by {
                if in_some_component(comps@.subrange(0, c as int), v) {
                    let i = choose|i: int| 0 <= i < c && #[trigger] comps@.subrange(0, c as int)[i]@.contains(v as usize);
                    assert(comps@.subrange(0, c + 1)[i] == comps@.subrange(0, c as int)[i]);
                }
                if exists|x: int| 0 <= x < comp@.len() && #[trigger] comp@[x] == v as usize {
                    let x = choose|x: int| 0 <= x < comp@.len() && #[trigger] comp@[x] == v as usize;
                    assert(comps@.subrange(0, c + 1)[c as int] == comp);
                    assert(comp@.contains(v as usize));
                }
                if in_some_component(comps@.subrange(0, c + 1), v) {
                    let i = choose|i: int| 0 <= i < c + 1 && #[trigger] comps@.subrange(0, c + 1)[i]@.contains(v as usize);
                    if i < c {
                        assert(comps@.subrange(0, c as int)[i] == comps@.subrange(0, c + 1)[i]);
                    } else {
                        assert(comps@.subrange(0, c + 1)[i] == comp);
                        let x = choose|x: int| 0 <= x < comp@.len() && comp@[x] == v as usize;
                        assert(comp@[x] == v as usize);
                    }
                }
            }
        }
    }
    assert(comps@.subrange(0, comps@.len() as int) =~= comps@);
    marks
}

/// `nodes` are the nodes at `positions`, which increase and are exactly the positions
/// of the nodes that lie on a cycle.
pub open spec fn selects_cyclic(g: Graph, nodes: Seq<&Node>, positions: Seq<int>) -> bool {
    &&& positions.len() == nodes.len()
    &&& forall|i: int, j: int| 0 <= i < j < positions.len() ==> positions[i] < positions[j]
    &&& forall|i: int| 0 <= i < positions.len() ==> 0 <= #[trigger] positions[i] < g.nodes@.len()
        && *nodes[i] == g.nodes@[positions[i]]
    &&& forall|v: int| 0 <= v < g.nodes@.len() ==> (graph_on_cycle(g, v) <==> #[trigger] positions.contains(v))
}

/// The nodes of the graph that lie on some cycle, in canonical order: by the kind's
/// position in `vocabulary`, then by identifier.
pub fn cyclic_nodes<'a>(graph: &'a Graph, vocabulary: &Vec<String>) -> (nodes: Vec<&'a Node>)
    ensures
        exists|selected: Seq<&Node>, positions: Seq<int>| #[trigger] selects_cyclic(*graph, selected, positions)
            && nodes@.to_multiset() == selected.to_multiset(),
        in_key_order(nodes@, vocabulary@),
{
    let adj = graph.adjacency();
    let n = adj.len();
    let comps = cyclic_components(&adj);
    let marks = mark_members(&comps, n);
    proof {
        lemma_graph_cycles(adj@, *graph);
    }
    let mut nodes: Vec<&Node> = Vec::new();
    let ghost mut positions: Seq<int> = Seq::empty();
    for v in 0..n
        invariant
            n == adj.len(),
            n == graph.nodes@.len(),
            marks@.len() == n,
            forall|x: int| 0 <= x < n ==> (#[trigger] marks@[x] <==> graph_on_cycle(*graph, x)),
            positions.len() == nodes@.len(),
            forall|i: int, j: int| 0 <= i < j < positions.len() ==> positions[i] < positions[j],
            forall|i: int| 0 <= i < positions.len() ==> 0 <= #[trigger] positions[i] < v
                && *nodes@[i] == graph.nodes@[positions[i]],
            forall|x: int| 0 <= x < v ==> (graph_on_cycle(*graph, x) <==> #[trigger] positions.contains(x)),
    {
        if marks[v] {
            nodes.push(&graph.nodes[v]);
            proof {
                let old_positions = positions;
                positions = positions.push(v as int);
                assert forall|x: int| 0 <= x < v + 1 implies (graph_on_cycle(*graph, x) <==> #[trigger] positions.contains(x)) by {
                    if x < v {
                        if old_positions.contains(x) {
                            let i = choose|i: int| 0 <= i < old_positions.len() && old_positions[i] == x;
                            assert(positions[i] == x);
                        }
                        if positions.contains(x) {
                            let i = choose|i: int| 0 <= i < positions.len() && positions[i] == x;
                            assert(i < old_positions.len());
                            assert(old_positions[i] == x);
                        }
                    } else {
                        assert(positions[positions.len() - 1] == x);
                    }
                }
            }
        } else {
            proof {
                assert forall|x: int| 0 <= x < v + 1 implies (graph_on_cycle(*graph, x) <==> #[trigger] positions.contains(x)) by {
                    if x == v && positions.contains(x) {
                        let i = choose|i: int| 0 <= i < positions.len() && positions[i] == x;
                        assert(positions[i] < v);
                    }
                }
            }
        }
    }
    proof {
        assert(selects_cyclic(*graph, nodes@, positions));
    }
    let ghost selected = nodes@;
    let sorted = sort_keyed(nodes, vocabulary);
    proof {
        assert(selects_cyclic(*graph, selected, positions));
    }
    sorted
}

/// Entity `e` is the one node `v` stands for.
pub open spec fn stands_for(g: Graph, e: EntityRef, v: int) -> bool {
    0 <= v < g.nodes@.len() && names(g.nodes@[v], e)
}

/// Entity `e` is one a node on a cycle stands for.
pub open spec fn on_cycle_member(g: Graph, e: EntityRef) -> bool {
    exists|v: int| #[trigger] stands_for(g, e, v) && graph_on_cycle(g, v)
}

/// Entities `a` and `b` are ones two nodes that reach each other stand for.
pub open spec fn reach_each_other(g: Graph, a: EntityRef, b: EntityRef) -> bool {
    exists|v: int, w: int| #[trigger] stands_for(g, a, v) && #[trigger] stands_for(g, b, w) && graph_mutually_reachable(g, v, w)
}

/// Every node that reaches node `v` and is reached from it has an entity in `group`: the
/// group is the whole of `v`'s strongly connected component.
pub open spec fn closed_under_reach(g: Graph, group: Seq<EntityRef>, v: int) -> bool {
    forall|w: int| 0 <= w < g.nodes@.len() && #[trigger] graph_mutually_reachable(g, v, w)
        ==> exists|k: int| 0 <= k < group.len() && #[trigger] stands_for(g, group[k], w)
}

/// `group` is the whole of a strongly connected component: its first entity stands for
/// a node every node mutually reachable with which has an entity in the group.
pub open spec fn whole_component(g: Graph, group: Seq<EntityRef>) -> bool {
    exists|v: int| #[trigger] stands_for(g, group[0], v) && closed_under_reach(g, group, v)
}

/// `group` is a group of entities on cycles that reach each other.
pub open spec fn is_cyclic_group(g: Graph, group: Seq<EntityRef>) -> bool {
    &&& group.len() > 0
    &&& forall|j: int| 0 <= j < group.len() ==> #[trigger] on_cycle_member(g, group[j])
    &&& forall|j: int, k: int| 0 <= j < group.len() && 0 <= k < group.len() ==> #[trigger] reach_each_other(g, group[j], group[k])
}

impl Keyed for Vec<EntityRef> {
    /// Groups sort by size, then by how their first entity is written.
    open spec fn sort_key(&self, vocabulary: Seq<String>) -> (Seq<char>, int, Seq<char>) {
        (Seq::empty(), self@.len() as int, if self@.len() > 0 { self@[0].rendering() } else { Seq::empty() })
    }

    fn precedes(&self, other: &Vec<EntityRef>, vocabulary: &Vec<String>) -> (before: bool) {
        proof {
            crate::order::lemma_lex_total(Seq::<char>::empty(), Seq::<char>::empty());
        }
        if self.len() < other.len() {
            true
        } else if self.len() > other.len() {
            false
        } else if self.len() == 0 {
            false
        } else {
            let a = self[0].render();
            let b = other[0].render();
            match compare_text(a.as_str(), b.as_str()) {
                Placement::Before => true,
                _ => false,
            }
        }
    }
}

/// The groups of entities that lie on cycles and reach each other, one per strongly
/// connected component that holds a cycle, ordered by size and then by how their first
/// entity is written. Each group lists its entities in graph order.
pub fn components(graph: &Graph) -> (groups: Vec<Vec<EntityRef>>)
    requires
        identifiers_carry_kinds(*graph),
    ensures
        forall|i: int| 0 <= i < groups@.len() ==> is_cyclic_group(*graph, #[trigger] groups@[i]@),
        forall|v: int| 0 <= v < graph.nodes@.len() && graph_on_cycle(*graph, v) ==>
            exists|i: int, j: int| 0 <= i < groups@.len() && 0 <= j < groups@[i]@.len() && #[trigger] stands_for(*graph, groups@[i]@[j], v),
        forall|i: int| 0 <= i < groups@.len() ==> whole_component(*graph, #[trigger] groups@[i]@),
        in_key_order(groups@, Seq::<String>::empty()),
{
    broadcast use vstd::seq_lib::group_to_multiset_ensures;
    let adj = graph.adjacency();
    let n = adj.len();
    let comps = cyclic_components(&adj);
    proof {
        lemma_graph_cycles(adj@, *graph);
    }
    let mut found: Vec<Vec<EntityRef>> = Vec::new();
    for c in 0..comps.len()
        invariant
            n == adj.len(),
            n == graph.nodes@.len(),
            identifiers_carry_kinds(*graph),
            found@.len() == c,
            forall|x: int| #[trigger] graph_on_cycle(*graph, x) <==> on_cycle(adj@, x),
            forall|u: int, v: int| #[trigger] graph_mutually_reachable(*graph, u, v) <==> mutually_reachable(adj@, u, v),
            forall|i: int| 0 <= i < comps.len() ==> (#[trigger] comps@[i])@.len() > 0,
            forall|i: int, j: int| 0 <= i < comps.len() && 0 <= j < comps@[i]@.len() ==> (#[trigger] comps@[i]@[j]) < n,
            forall|i: int, j: int, k: int|
                0 <= i < comps.len() && 0 <= j < comps@[i]@.len() && 0 <= k < comps@[i]@.len()
                    ==> mutually_reachable(adj@, #[trigger] comps@[i]@[j] as int, #[trigger] comps@[i]@[k] as int),
            forall|v: int| 0 <= v < adj.len() ==> (#[trigger] on_cycle(adj@, v) <==> in_some_component(comps@, v)),
            forall|i: int, j: int, w: int| 0 <= i < comps.len() && 0 <= j < comps@[i]@.len() && 0 <= w < adj.len()
                && #[trigger] mutually_reachable(adj@, comps@[i]@[j] as int, w) ==> comps@[i]@.contains(w as usize),
            forall|i: int| 0 <= i < c ==> (#[trigger] found@[i])@.len() == comps@[i]@.len(),
            forall|i: int, j: int| 0 <= i < c && 0 <= j < comps@[i]@.len() ==> #[trigger] stands_for(*graph, found@[i]@[j], comps@[i]@[j] as int),
    {
        let comp = &comps[c];
        let mut group: Vec<EntityRef> = Vec::new();
        for j in 0..comp.len()
            invariant
                n == graph.nodes@.len(),
                identifiers_carry_kinds(*graph),
                c < comps@.len(),
                comp == comps@[c as int],
                forall|i: int, j: int| 0 <= i < comps.len() && 0 <= j < comps@[i]@.len() ==> (#[trigger] comps@[i]@[j]) < n,
                group@.len() == j,
                forall|x: int| 0 <= x < j ==> #[trigger] stands_for(*graph, group@[x], comp@[x] as int),
        {
            assert(comps@[c as int]@[j as int] < n);
            let e = node_entity(&graph.nodes[comp[j]]);
            group.push(e);
        }
        found.push(group);
        proof {
            assert forall|i: int, j: int| 0 <= i < c + 1 && 0 <= j < comps@[i]@.len() implies #[trigger] stands_for(*graph, found@[i]@[j], comps@[i]@[j] as int) by {
                if i == c {
                    assert(found@[i] == group);
                    assert(stands_for(*graph, group@[j], comp@[j] as int));
                }
            }
        }
    }
    proof {
        assert(found@.len() == comps@.len());
        assert forall|i: int| 0 <= i < found@.len() implies is_cyclic_group(*graph, #[trigger] found@[i]@) by {
            assert(comps@[i]@.len() > 0);
            assert(found@[i]@.len() == comps@[i]@.len());
            assert forall|j: int| 0 <= j < found@[i]@.len() implies #[trigger] on_cycle_member(*graph, found@[i]@[j]) by {
                let v = comps@[i]@[j] as int;
                assert(stands_for(*graph, found@[i]@[j], v));
                assert(comps@[i]@.contains(v as usize));
                assert(in_some_component(comps@, v));
                assert(on_cycle(adj@, v));
                assert(graph_on_cycle(*graph, v));
            }
            assert forall|j: int, k: int| 0 <= j < found@[i]@.len() && 0 <= k < found@[i]@.len() implies #[trigger] reach_each_other(*graph, found@[i]@[j], found@[i]@[k]) by {
                let v = comps@[i]@[j] as int;
                let w = comps@[i]@[k] as int;
                assert(stands_for(*graph, found@[i]@[j], v));
                assert(stands_for(*graph, found@[i]@[k], w));
                assert(mutually_reachable(adj@, comps@[i]@[j] as int, comps@[i]@[k] as int));
                assert(graph_mutually_reachable(*graph, v, w));
            }
        }
    }
    proof {
        assert forall|i: int| 0 <= i < found@.len() implies whole_component(*graph, #[trigger] found@[i]@) by {
            let v = comps@[i]@[0] as int;
            assert(stands_for(*graph, found@[i]@[0], v));
            assert forall|w: int| 0 <= w < graph.nodes@.len() && #[trigger] graph_mutually_reachable(*graph, v, w)
                implies exists|k: int| 0 <= k < found@[i]@.len() && #[trigger] stands_for(*graph, found@[i]@[k], w) by {
                assert(mutually_reachable(adj@, comps@[i]@[0] as int, w));
                assert(comps@[i]@.contains(w as usize));
                let k = choose|k: int| 0 <= k < comps@[i]@.len() && comps@[i]@[k] == w as usize;
                assert(stands_for(*graph, found@[i]@[k], comps@[i]@[k] as int));
            }
            assert(closed_under_reach(*graph, found@[i]@, v));
        }
    }
    let ghost unsorted = found@;
    let empty: Vec<String> = Vec::new();
    let groups = sort_keyed(found, &empty);
    proof {
        assert(empty@ =~= Seq::<String>::empty());
        assert forall|i: int| 0 <= i < groups@.len() implies whole_component(*graph, #[trigger] groups@[i]@) by {
            assert(groups@.contains(groups@[i]));
            assert(groups@.to_multiset().count(groups@[i]) > 0);
            assert(unsorted.to_multiset().count(groups@[i]) > 0);
            assert(unsorted.contains(groups@[i]));
            let x = choose|x: int| 0 <= x < unsorted.len() && unsorted[x] == groups@[i];
            assert(whole_component(*graph, unsorted[x]@));
        }
        assert forall|i: int| 0 <= i < groups@.len() implies is_cyclic_group(*graph, #[trigger] groups@[i]@) by {
            assert(groups@.contains(groups@[i]));
            assert(groups@.to_multiset().count(groups@[i]) > 0);
            assert(unsorted.to_multiset().count(groups@[i]) > 0);
            assert(unsorted.contains(groups@[i]));
        }
        assert forall|v: int| 0 <= v < graph.nodes@.len() && graph_on_cycle(*graph, v) implies
            exists|i: int, j: int| 0 <= i < groups@.len() && 0 <= j < groups@[i]@.len() && #[trigger] stands_for(*graph, groups@[i]@[j], v) by {
            assert(on_cycle(adj@, v));
            assert(in_some_component(comps@, v));
            let i = choose|i: int| 0 <= i < comps@.len() && #[trigger] comps@[i]@.contains(v as usize);
            let j = choose|j: int| 0 <= j < comps@[i]@.len() && comps@[i]@[j] == v as usize;
            assert(stands_for(*graph, unsorted[i]@[j], v));
            assert(unsorted.contains(unsorted[i]));
            assert(unsorted.to_multiset().count(unsorted[i]) > 0);
            assert(groups@.to_multiset().count(unsorted[i]) > 0);
            assert(groups@.contains(unsorted[i]));
            let a = choose|a: int| 0 <= a < groups@.len() && groups@[a] == unsorted[i];
            assert(stands_for(*graph, groups@[a]@[j], v));
        }
    }
    groups
}

/// The relationship every edge of a cycle has, when they all have the same one.
///
/// `None` when an edge is not found in the graph, when the edges disagree, or when the
/// cycle has no edges: a mixed chain described as one relationship would be given a
/// meaning no single edge has.
pub open spec fn uniform_over(edges: Seq<Edge>, texts: Seq<String>) -> Option<Seq<char>> {
    if texts.len() > 0 && relationship_of(edges, texts[0]@) is Some
        && forall|i: int| 0 <= i < texts.len() ==> relationship_of(edges, (#[trigger] texts[i])@) == relationship_of(edges, texts[0]@) {
        relationship_of(edges, texts[0]@)
    } else {
        None
    }
}

/// The relationship of a run of edge texts, when every one names an edge of the graph
/// and they all agree.
pub fn uniform_of(edges: &Vec<Edge>, texts: &Vec<String>) -> (relationship: Option<String>)
    ensures
        match relationship {
            Some(r) => uniform_over(edges@, texts@) == Some(r@),
            None => uniform_over(edges@, texts@) is None,
        },
{
    if texts.len() == 0 {
        return None;
    }
    let first = match relationship_for(edges, texts[0].as_str()) {
        Some(r) => r,
        None => return None,
    };
    for i in 0..texts.len()
        invariant
            texts@.len() > 0,
            relationship_of(edges@, texts@[0]@) == Some(first@),
            forall|j: int| 0 <= j < i ==> relationship_of(edges@, (#[trigger] texts@[j])@) == relationship_of(edges@, texts@[0]@),
    {
        match relationship_for(edges, texts[i].as_str()) {
            Some(r) => {
                if !str_equals(r.as_str(), first.as_str()) {
                    proof {
                        assert(relationship_of(edges@, texts@[i as int]@) != relationship_of(edges@, texts@[0]@));
                    }
                    return None;
                }
            },
            None => {
                return None;
            },
        }
    }
    Some(first.clone())
}

/// The relationship every edge of a cycle has, when they all have the same one.
pub fn uniform_relationship(cycle: &Cycle, graph: &Graph) -> (relationship: Option<String>)
    ensures
        match relationship {
            Some(r) => uniform_over(graph.edges@, cycle.edges@) == Some(r@),
            None => uniform_over(graph.edges@, cycle.edges@) is None,
        },
{
    uniform_of(&graph.edges, &cycle.edges)
}

/// `adj` is the graph's adjacency read against the edges: one list per node, holding
/// exactly the pairs `(edge, source)` of the edges arriving at that node.
pub open spec fn describes_reversed(adj: Seq<Vec<(usize, usize)>>, g: Graph) -> bool {
    &&& adj.len() == g.nodes@.len()
    &&& forall|v: int, k: int| 0 <= v < adj.len() && 0 <= k < adj[v]@.len()
        ==> links(g, (#[trigger] adj[v]@[k]).0 as int, adj[v]@[k].1 as int, v)
    &&& forall|e: int, u: int, v: int| #[trigger] links(g, e, u, v)
        ==> exists|k: int| 0 <= k < adj[v]@.len() && #[trigger] adj[v]@[k] == (e as usize, u as usize)
}

/// The edges arriving at node `v`, as `(edge, source)` pairs, in order of the source.
fn arriving(graph: &Graph, adj: &Adjacency, v: usize) -> (list: Vec<(usize, usize)>)
    requires
        describes(adj@, *graph),
        v < adj.len(),
    ensures
        forall|k: int| 0 <= k < list@.len() ==> links(*graph, (#[trigger] list@[k]).0 as int, list@[k].1 as int, v as int),
        forall|e: int, u: int| #[trigger] links(*graph, e, u, v as int) ==> exists|k: int| 0 <= k < list@.len() && #[trigger] list@[k] == (e as usize, u as usize),
{
    let n = adj.len();
    let mut list: Vec<(usize, usize)> = Vec::new();
    for u in 0..n
        invariant
            n == adj.len(),
            describes(adj@, *graph),
            v < n,
            forall|k: int| 0 <= k < list@.len() ==> links(*graph, (#[trigger] list@[k]).0 as int, list@[k].1 as int, v as int),
            forall|e: int, x: int| 0 <= x < u && #[trigger] links(*graph, e, x, v as int) ==> exists|k: int| 0 <= k < list@.len() && #[trigger] list@[k] == (e as usize, x as usize),
    {
        let ghost start = list@;
        let out = &adj[u];
        for j in 0..out.len()
            invariant
                n == adj.len(),
                describes(adj@, *graph),
                v < n,
                u < n,
                out == adj@[u as int],
                list@.len() >= start.len(),
                forall|k: int| 0 <= k < start.len() ==> list@[k] == start[k],
                forall|k: int| 0 <= k < list@.len() ==> links(*graph, (#[trigger] list@[k]).0 as int, list@[k].1 as int, v as int),
                forall|jj: int| 0 <= jj < j && (#[trigger] adj@[u as int]@[jj]).1 == v ==>
                    exists|k: int| 0 <= k < list@.len() && #[trigger] list@[k] == (adj@[u as int]@[jj].0, u),
        {
            let (e, w) = out[j];
            if w == v {
                let ghost before = list@;
                proof {
                    assert(links(*graph, (adj@[u as int]@[j as int]).0 as int, u as int, adj@[u as int]@[j as int].1 as int));
                }
                list.push((e, u));
                proof {
                    let last = list@.len() - 1;
                    assert forall|k: int| 0 <= k < list@.len() implies links(*graph, (#[trigger] list@[k]).0 as int, list@[k].1 as int, v as int) by {
                        if k < last {
                            assert(list@[k] == before[k]);
                        }
                    }
                    assert forall|jj: int| 0 <= jj < j + 1 && (#[trigger] adj@[u as int]@[jj]).1 == v implies
                        exists|k: int| 0 <= k < list@.len() && #[trigger] list@[k] == (adj@[u as int]@[jj].0, u) by {
                        if jj < j {
                            let k = choose|k: int| 0 <= k < before.len() && #[trigger] before[k] == (adj@[u as int]@[jj].0, u);
                            assert(list@[k] == before[k]);
                        } else {
                            assert(list@[last] == (adj@[u as int]@[jj].0, u));
                        }
                    }
                }
            }
        }
        proof {
            assert forall|e: int, x: int| 0 <= x < u + 1 && #[trigger] links(*graph, e, x, v as int) implies exists|k: int| 0 <= k < list@.len() && #[trigger] list@[k] == (e as usize, x as usize) by {
                if x < u {
                    let k = choose|k: int| 0 <= k < start.len() && #[trigger] start[k] == (e as usize, x as usize);
                    assert(list@[k] == start[k]);
                } else {
                    let jj = choose|jj: int| 0 <= jj < adj@[x]@.len() && #[trigger] adj@[x]@[jj] == (e as usize, v);
                    assert(adj@[u as int]@[jj].1 == v);
                }
            }
        }
    }
    proof {
        assert forall|e: int, u: int| #[trigger] links(*graph, e, u, v as int) implies exists|k: int| 0 <= k < list@.len() && #[trigger] list@[k] == (e as usize, u as usize) by {
            assert(0 <= u < n);
        }
    }
    list
}

impl Graph {
    /// The graph's adjacency read against the edges: for each node, the edges arriving at
    /// it as `(edge, source)` pairs, in order of the source's position.
    pub fn reverse_adjacency(&self) -> (adj: Adjacency)
        ensures
            describes_reversed(adj@, *self),
            adjacency_well_formed(adj@),
    {
        let forward = self.adjacency();
        let n = forward.len();
        let mut rev: Adjacency = Vec::new();
        for v in 0..n
            invariant
                n == forward.len(),
                describes(forward@, *self),
                rev@.len() == v,
                forall|w: int, k: int| 0 <= w < v && 0 <= k < rev@[w]@.len()
                    ==> links(*self, (#[trigger] rev@[w]@[k]).0 as int, rev@[w]@[k].1 as int, w),
                forall|e: int, u: int, w: int| 0 <= w < v && #[trigger] links(*self, e, u, w)
                    ==> exists|k: int| 0 <= k < rev@[w]@.len() && #[trigger] rev@[w]@[k] == (e as usize, u as usize),
        {
            let list = arriving(self, &forward, v);
            let ghost before = rev@;
            rev.push(list);
            proof {
                assert forall|w: int, k: int| 0 <= w < v + 1 && 0 <= k < rev@[w]@.len()
                    implies links(*self, (#[trigger] rev@[w]@[k]).0 as int, rev@[w]@[k].1 as int, w) by {
                    if w < v {
                        assert(rev@[w] == before[w]);
                    } else {
                        assert(rev@[w]@[k] == list@[k]);
                    }
                }
                assert forall|e: int, u: int, w: int| 0 <= w < v + 1 && #[trigger] links(*self, e, u, w)
                    implies exists|k: int| 0 <= k < rev@[w]@.len() && #[trigger] rev@[w]@[k] == (e as usize, u as usize) by {
                    if w < v {
                        assert(rev@[w] == before[w]);
                        let k = choose|k: int| 0 <= k < before[w]@.len() && #[trigger] before[w]@[k] == (e as usize, u as usize);
                        assert(rev@[w]@[k] == before[w]@[k]);
                    } else {
                        let k = choose|k: int| 0 <= k < list@.len() && #[trigger] list@[k] == (e as usize, u as usize);
                        assert(rev@[w]@[k] == list@[k]);
                    }
                }
            }
        }
        proof {
            assert forall|u: int, k: int| 0 <= u < rev@.len() && 0 <= k < rev@[u]@.len() implies (#[trigger] rev@[u]@[k]).1 < rev@.len() by {
                assert(links(*self, rev@[u]@[k].0 as int, rev@[u]@[k].1 as int, u));
            }
            assert forall|e: int, u: int, w: int| #[trigger] links(*self, e, u, w)
                implies exists|k: int| 0 <= k < rev@[w]@.len() && #[trigger] rev@[w]@[k] == (e as usize, u as usize) by {
                assert(0 <= w < n);
            }
        }
        rev
    }
}

} // verus!
