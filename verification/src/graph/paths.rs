//! Path discovery over node positions: the shortest route between two nodes, and every
//! simple route within explicit bounds.
//!
//! The number of simple routes is exponential in the worst case, so an enumeration is
//! bounded on three axes - hops, explored edges and reported routes - and says so
//! whenever a bound stopped it: a partial list of routes that does not say it is partial
//! reads as a complete one.

use vstd::prelude::*;

use crate::graph::cycles::{describes, links, locate, located, unlocated, traces, trace, lemma_located_unique, rows_distinct};
use crate::graph::edges::{Edge, relationship_for, relationship_of, edge_text};
use crate::graph::graph::{Graph, same_entity};
use crate::graph::nodes::{EntityRef, copy_entity};
use crate::graph::topology::{Adjacency, adjacency_well_formed, is_walk, walk_between, step, has_edge};
use crate::order::{Keyed, compare_text, in_key_order, sort_keyed, Placement};
use crate::text::{push_char, str_equals};
use crate::graph::traversal::{Direction, Limits, TruncationReason, follows, uses_edge, node_route, reaches_within, lemma_node_route_walks, leads_on, lemma_reads_leads_on, joined_at, leads};

verus! {

/// The greatest number of distinct routes an enumeration reports by default.
pub const DEFAULT_MAX_PATHS: usize = 64;

/// One route over node positions: the nodes from source to destination, both ends
/// included, and the edge taken at each hop.
#[derive(Debug, Clone)]
pub struct Route {
    /// The nodes on the route, starting at the source and ending at the destination.
    pub nodes: Vec<usize>,
    /// The edges traversed, by edge position, one per hop.
    pub edges: Vec<usize>,
}

/// No node appears twice in `s`.
pub open spec fn distinct(s: Seq<usize>) -> bool {
    forall|i: int, j: int| 0 <= i < j < s.len() ==> s[i] != s[j]
}

/// A simple route from `from` to `to`, each hop an edge of the graph.
pub open spec fn route_between(adj: Seq<Vec<(usize, usize)>>, nodes: Seq<usize>, edges: Seq<usize>, from: usize, to: usize) -> bool {
    &&& follows(adj, nodes, edges)
    &&& nodes[0] == from
    &&& nodes[nodes.len() - 1] == to
    &&& distinct(nodes)
}

fn contains_position(v: &Vec<usize>, x: usize) -> (found: bool)
    ensures
        found == v@.contains(x),
{
    for i in 0..v.len()
        invariant
            forall|j: int| 0 <= j < i ==> v@[j] != x,
    {
        if v[i] == x {
            return true;
        }
    }
    false
}

/// What a route enumeration produced.
pub struct RouteSearch {
    /// The routes found.
    pub routes: Vec<Route>,
    /// Whether the search stopped before exhausting what is reachable.
    pub truncated: bool,
    /// Why it stopped, when it did.
    pub truncation_reason: Option<TruncationReason>,
    /// How many candidate edges the search expanded.
    pub explored: usize,
    /// The greatest number of hops any reported route traverses.
    pub deepest: usize,
}

/// A simple route of `max_depth` hops that never passes `to`: one the depth bound stops
/// an enumeration towards `to` at.
pub open spec fn at_bound(adj: Seq<Vec<(usize, usize)>>, nodes: Seq<usize>, edges: Seq<usize>, to: usize, max_depth: usize) -> bool {
    &&& follows(adj, nodes, edges)
    &&& distinct(nodes)
    &&& !nodes.contains(to)
    &&& edges.len() == max_depth
}

/// A simple route from `from` at the depth bound, never passing `to`, with an edge
/// leading on from where it ends: what the depth bound cut off.
pub open spec fn cut_short(adj: Seq<Vec<(usize, usize)>>, from: usize, to: usize, max_depth: usize) -> bool {
    exists|nodes: Seq<usize>, edges: Seq<usize>|
        #[trigger] at_bound(adj, nodes, edges, to, max_depth) && nodes[0] == from && adj[nodes[nodes.len() - 1] as int]@.len() > 0
}

/// The invariant of a route enumeration in progress.
pub open spec fn search_sound(adj: Seq<Vec<(usize, usize)>>, from: usize, to: usize, limits: Limits, max_paths: usize, search: RouteSearch) -> bool {
    &&& forall|i: int| 0 <= i < search.routes@.len()
        ==> route_between(adj, (#[trigger] search.routes@[i]).nodes@, search.routes@[i].edges@, from, to)
    &&& forall|i: int| 0 <= i < search.routes@.len()
        ==> 1 <= (#[trigger] search.routes@[i]).edges@.len() <= limits.max_depth
    &&& forall|i: int| 0 <= i < search.routes@.len() ==> (#[trigger] search.routes@[i]).edges@.len() <= search.deepest
    &&& search.routes@.len() <= max_paths
    &&& search.explored <= limits.max_nodes
    &&& search.truncated <==> search.truncation_reason is Some
    &&& search.truncation_reason == Some(TruncationReason::MaxNodesReached)
        ==> search.routes@.len() >= max_paths || search.explored >= limits.max_nodes
    &&& search.truncation_reason == Some(TruncationReason::MaxDepthReached) ==> cut_short(adj, from, to, limits.max_depth)
    &&& search.truncation_reason != Some(TruncationReason::BoundaryReached)
    &&& search.deepest == 0 || exists|i: int| 0 <= i < search.routes@.len() && (#[trigger] search.routes@[i]).edges@.len() == search.deepest
}

/// Route `nodes` over `edges` continues the partial route `chain` over `so_far`: it
/// starts with it and goes at least one node further.
pub open spec fn continues(chain: Seq<usize>, so_far: Seq<usize>, nodes: Seq<usize>, edges: Seq<usize>) -> bool {
    &&& nodes.len() > chain.len()
    &&& nodes.subrange(0, chain.len() as int) == chain
    &&& edges.subrange(0, so_far.len() as int) == so_far
}

/// `q` runs along `p` and at least one edge further.
pub open spec fn extends(p: Seq<usize>, q: Seq<usize>) -> bool {
    q.len() > p.len() && q.subrange(0, p.len() as int) == p
}

/// No two routes take the same edges.
pub open spec fn edges_distinct(routes: Seq<Route>) -> bool {
    forall|i: int, j: int| 0 <= i < j < routes.len() ==> routes[i].edges@ != routes[j].edges@
}

/// Edge `c` of `es` is the edge of one of the first `k` entries of `row`.
pub open spec fn hop_among(row: Seq<(usize, usize)>, es: Seq<usize>, c: int, k: int) -> bool {
    exists|kk: int| 0 <= kk < k && es[c] == (#[trigger] row[kk]).0
}

/// Running along a prefix one edge longer runs along the prefix, through that edge.
proof fn lemma_extends_push(p: Seq<usize>, x: usize, q: Seq<usize>)
    requires
        extends(p.push(x), q),
    ensures
        extends(p, q),
        q[p.len() as int] == x,
{
    let m: int = p.len() as int;
    assert(q.subrange(0, m + 1) == p.push(x));
    assert forall|i: int| 0 <= i < m implies q.subrange(0, m)[i] == p[i] by {
        assert(q.subrange(0, m + 1)[i] == q[i]);
        assert(p.push(x)[i] == p[i]);
    }
    assert(q.subrange(0, m) =~= p);
    assert(q.subrange(0, m + 1)[m] == q[m]);
}

/// Some route of `routes` takes exactly the nodes `nodes` and the edges `edges`.
pub open spec fn lists(routes: Seq<Route>, nodes: Seq<usize>, edges: Seq<usize>) -> bool {
    exists|i: int| 0 <= i < routes.len() && (#[trigger] routes[i]).nodes@ == nodes && routes[i].edges@ == edges
}

/// A route listed among some routes is still listed once more are appended.
proof fn lemma_lists_grow(before: Seq<Route>, after: Seq<Route>)
    requires
        before.len() <= after.len(),
        forall|i: int| 0 <= i < before.len() ==> after[i] == before[i],
    ensures
        forall|nodes: Seq<usize>, edges: Seq<usize>| #[trigger] lists(before, nodes, edges) ==> lists(after, nodes, edges),
{
    assert forall|nodes: Seq<usize>, edges: Seq<usize>| #[trigger] lists(before, nodes, edges) implies lists(after, nodes, edges) by {
        let i = choose|i: int| 0 <= i < before.len() && (#[trigger] before[i]).nodes@ == nodes && before[i].edges@ == edges;
        assert(after[i] == before[i]);
    }
}

/// A simple route continuing a partial route does not return to a node of it.
proof fn lemma_hop_leaves_chain(chain: Seq<usize>, so_far: Seq<usize>, nodes: Seq<usize>, edges: Seq<usize>)
    requires
        distinct(nodes),
        continues(chain, so_far, nodes, edges),
    ensures
        !chain.contains(nodes[chain.len() as int]),
{
    if chain.contains(nodes[chain.len() as int]) {
        let i = choose|i: int| 0 <= i < chain.len() && chain[i] == nodes[chain.len() as int];
        assert(nodes.subrange(0, chain.len() as int)[i] == nodes[i]);
        assert(nodes[i] == nodes[chain.len() as int]);
    }
}

/// A simple route to the target continuing a partial route, whose next node is the
/// target, ends there: it is the partial route and one hop more.
proof fn lemma_hop_reaches_target(
    adj: Seq<Vec<(usize, usize)>>,
    chain: Seq<usize>,
    so_far: Seq<usize>,
    nodes: Seq<usize>,
    edges: Seq<usize>,
    from: usize,
    target: usize,
)
    requires
        route_between(adj, nodes, edges, from, target),
        continues(chain, so_far, nodes, edges),
        chain.len() == so_far.len() + 1,
        nodes[chain.len() as int] == target,
    ensures
        nodes == chain.push(target),
        edges == so_far.push(edges[so_far.len() as int]),
{
    let c = chain.len() as int;
    if c != nodes.len() - 1 {
        assert(nodes[nodes.len() - 1] == target);
        if c < nodes.len() - 1 {
            assert(nodes[c] != nodes[nodes.len() - 1]);
        }
    }
    assert forall|i: int| 0 <= i < c implies nodes[i] == chain[i] by {
        assert(nodes.subrange(0, c)[i] == nodes[i]);
    }
    assert(nodes =~= chain.push(target));
    assert forall|i: int| 0 <= i < so_far.len() implies edges[i] == so_far[i] by {
        assert(edges.subrange(0, so_far.len() as int)[i] == edges[i]);
    }
    assert(edges =~= so_far.push(edges[so_far.len() as int]));
}

/// A route continuing a partial route by more than one hop continues the partial route
/// extended by its next hop.
proof fn lemma_hop_extends(chain: Seq<usize>, so_far: Seq<usize>, nodes: Seq<usize>, edges: Seq<usize>)
    requires
        continues(chain, so_far, nodes, edges),
        nodes.len() == edges.len() + 1,
        chain.len() == so_far.len() + 1,
        nodes.len() > chain.len() + 1,
    ensures
        continues(chain.push(nodes[chain.len() as int]), so_far.push(edges[so_far.len() as int]), nodes, edges),
{
    let c = chain.len() as int;
    assert(nodes.subrange(0, c + 1) =~= chain.push(nodes[c])) by {
        assert forall|i: int| 0 <= i < c implies nodes.subrange(0, c + 1)[i] == chain[i] by {
            assert(nodes.subrange(0, c)[i] == nodes[i]);
        }
    }
    assert(edges.subrange(0, so_far.len() + 1int) =~= so_far.push(edges[so_far.len() as int])) by {
        assert forall|i: int| 0 <= i < so_far.len() implies edges.subrange(0, so_far.len() + 1int)[i] == so_far[i] by {
            assert(edges.subrange(0, so_far.len() as int)[i] == edges[i]);
        }
    }
}

/// A route continuing a partial route through its next hop continues the partial route
/// extended by that hop.
proof fn lemma_hop_continues(chain: Seq<usize>, so_far: Seq<usize>, nodes: Seq<usize>, edges: Seq<usize>, target: usize)
    requires
        continues(chain, so_far, nodes, edges),
        nodes.len() == edges.len() + 1,
        chain.len() == so_far.len() + 1,
        nodes[nodes.len() - 1] == target,
        nodes[chain.len() as int] != target,
    ensures
        continues(chain.push(nodes[chain.len() as int]), so_far.push(edges[so_far.len() as int]), nodes, edges),
        edges.len() >= so_far.len() + 2,
{
    let c = chain.len() as int;
    assert(nodes.len() > c + 1);
    lemma_hop_extends(chain, so_far, nodes, edges);
}

/// Extends a partial route by one edge at a time, depth first, recording each route
/// that reaches the target.
///
/// `chain` is the route so far and starts at the source, so a neighbour already in it is
/// a repeat: that keeps the enumeration to simple routes. The cap, and any truncation a
/// nested call recorded, are checked again before every edge.
fn extend(
    adj: &Adjacency,
    current: usize,
    target: usize,
    limits: Limits,
    max_paths: usize,
    chain: &mut Vec<usize>,
    edges: &mut Vec<usize>,
    search: &mut RouteSearch,
)
    requires
        adjacency_well_formed(adj@),
        current < adj.len(),
        old(chain)@.len() >= 1,
        old(chain)@[old(chain)@.len() - 1] == current,
        follows(adj@, old(chain)@, old(edges)@),
        distinct(old(chain)@),
        old(edges)@.len() < limits.max_depth,
        !old(chain)@.contains(target),
        search_sound(adj@, old(chain)@[0], target, limits, max_paths, *old(search)),
        old(search).routes@.len() >= max_paths ==> old(search).truncated,
        rows_distinct(adj@),
        edges_distinct(old(search).routes@),
        forall|i: int| 0 <= i < old(search).routes@.len() ==> !extends(old(edges)@, #[trigger] old(search).routes@[i].edges@),
    ensures
        edges_distinct(final(search).routes@),
        forall|i: int| old(search).routes@.len() <= i < final(search).routes@.len() ==> extends(old(edges)@, #[trigger] final(search).routes@[i].edges@),
        final(chain)@ == old(chain)@,
        final(edges)@ == old(edges)@,
        search_sound(adj@, old(chain)@[0], target, limits, max_paths, *final(search)),
        old(search).truncated ==> final(search).truncated,
        final(search).routes@.len() >= max_paths ==> final(search).truncated,
        old(search).routes@.len() <= final(search).routes@.len(),
        forall|i: int| 0 <= i < old(search).routes@.len() ==> final(search).routes@[i] == old(search).routes@[i],
        !final(search).truncated ==> forall|nodes: Seq<usize>, es: Seq<usize>|
            #[trigger] route_between(adj@, nodes, es, old(chain)@[0], target) && es.len() <= limits.max_depth
                && continues(old(chain)@, old(edges)@, nodes, es) ==> lists(final(search).routes@, nodes, es),
        !final(search).truncated ==> forall|nodes: Seq<usize>, es: Seq<usize>|
            #[trigger] at_bound(adj@, nodes, es, target, limits.max_depth) && continues(old(chain)@, old(edges)@, nodes, es)
                ==> adj@[nodes[nodes.len() - 1] as int]@.len() == 0,
    decreases limits.max_depth - old(edges)@.len(),
{
    let ghost from = chain@[0];
    if search.truncated || search.routes.len() >= max_paths {
        return;
    }
    let deg = adj[current].len();
    let mut k: usize = 0;
    let mut done = false;
    while k < deg && !done
        invariant
            adjacency_well_formed(adj@),
            current < adj.len(),
            deg == adj@[current as int]@.len(),
            k <= deg,
            chain@ == old(chain)@,
            edges@ == old(edges)@,
            from == chain@[0],
            chain@[chain@.len() - 1] == current,
            follows(adj@, chain@, edges@),
            distinct(chain@),
            edges@.len() < limits.max_depth,
            !chain@.contains(target),
            search_sound(adj@, from, target, limits, max_paths, *search),
            old(search).truncated ==> search.truncated,
            search.routes@.len() >= max_paths ==> search.truncated,
            done ==> search.truncated,
            old(search).routes@.len() <= search.routes@.len(),
            forall|i: int| 0 <= i < old(search).routes@.len() ==> search.routes@[i] == old(search).routes@[i],
            !search.truncated ==> forall|nodes: Seq<usize>, es: Seq<usize>, kk: int|
                #![trigger route_between(adj@, nodes, es, from, target), adj@[current as int]@[kk]]
                route_between(adj@, nodes, es, from, target) && es.len() <= limits.max_depth
                    && continues(chain@, edges@, nodes, es)
                    && 0 <= kk < k && adj@[current as int]@[kk] == (es[edges@.len() as int], nodes[chain@.len() as int])
                    ==> lists(search.routes@, nodes, es),
            !search.truncated ==> forall|nodes: Seq<usize>, es: Seq<usize>, kk: int|
                #![trigger at_bound(adj@, nodes, es, target, limits.max_depth), adj@[current as int]@[kk]]
                at_bound(adj@, nodes, es, target, limits.max_depth) && continues(chain@, edges@, nodes, es)
                    && 0 <= kk < k && adj@[current as int]@[kk] == (es[edges@.len() as int], nodes[chain@.len() as int])
                    ==> adj@[nodes[nodes.len() - 1] as int]@.len() == 0,
            rows_distinct(adj@),
            edges_distinct(search.routes@),
            forall|i: int| 0 <= i < old(search).routes@.len() ==> !extends(edges@, #[trigger] search.routes@[i].edges@),
            forall|i: int| old(search).routes@.len() <= i < search.routes@.len() ==> extends(edges@, #[trigger] search.routes@[i].edges@)
                && hop_among(adj@[current as int]@, search.routes@[i].edges@, edges@.len() as int, k as int),
        decreases deg - k, (if done { 0int } else { 1int }),
    {
        if search.truncated || search.routes.len() >= max_paths {
            done = true;
        } else {
            let (edge, neighbour) = adj[current][k];
            let ghost routes_it = search.routes@;
            let ghost edges_it = edges@;
            proof {
                assert(adj@[current as int]@[k as int] == (edge, neighbour));
            }
            if contains_position(chain, neighbour) {
                proof {
                    if !search.truncated {
                        assert forall|nodes: Seq<usize>, es: Seq<usize>, kk: int|
                            #![trigger route_between(adj@, nodes, es, from, target), adj@[current as int]@[kk]]
                            route_between(adj@, nodes, es, from, target) && es.len() <= limits.max_depth
                                && continues(chain@, edges@, nodes, es)
                                && 0 <= kk < k + 1 && adj@[current as int]@[kk] == (es[edges@.len() as int], nodes[chain@.len() as int])
                            implies lists(search.routes@, nodes, es) by {
                            if kk == k {
                                lemma_hop_leaves_chain(chain@, edges@, nodes, es);
                            }
                        }
                        assert forall|nodes: Seq<usize>, es: Seq<usize>, kk: int|
                            #![trigger at_bound(adj@, nodes, es, target, limits.max_depth), adj@[current as int]@[kk]]
                            at_bound(adj@, nodes, es, target, limits.max_depth) && continues(chain@, edges@, nodes, es)
                                && 0 <= kk < k + 1 && adj@[current as int]@[kk] == (es[edges@.len() as int], nodes[chain@.len() as int])
                            implies adj@[nodes[nodes.len() - 1] as int]@.len() == 0 by {
                            if kk == k {
                                lemma_hop_leaves_chain(chain@, edges@, nodes, es);
                            }
                        }
                    }
                }
            } else if search.explored >= limits.max_nodes {
                search.truncated = true;
                if search.truncation_reason.is_none() {
                    search.truncation_reason = Some(TruncationReason::MaxNodesReached);
                }
                done = true;
            } else {
                search.explored = search.explored + 1;
                let ghost chain0 = chain@;
                let ghost edges0 = edges@;
                chain.push(neighbour);
                edges.push(edge);
                proof {
                    assert(adj@[current as int]@[k as int] == (edge, neighbour));
                    assert forall|i: int| 0 <= i < edges@.len() implies #[trigger] uses_edge(adj@, chain@, edges@, i) by {
                        if i < edges0.len() {
                            assert(uses_edge(adj@, chain0, edges0, i));
                            let kk = choose|kk: int| 0 <= kk < adj@[chain0[i] as int]@.len() && #[trigger] adj@[chain0[i] as int]@[kk] == (edges0[i], chain0[i + 1]);
                            assert(adj@[chain@[i] as int]@[kk] == (edges@[i], chain@[i + 1]));
                        } else {
                            assert(chain@[i] == current);
                            assert(adj@[chain@[i] as int]@[k as int] == (edges@[i], chain@[i + 1]));
                        }
                    }
                    assert forall|i: int| 0 <= i < chain@.len() implies (#[trigger] chain@[i]) < adj@.len() by {
                        if i < chain0.len() {
                            assert(chain@[i] == chain0[i]);
                        }
                    }
                    assert(distinct(chain@)) by {
                        assert forall|i: int, j: int| 0 <= i < j < chain@.len() implies chain@[i] != chain@[j] by {
                            if j == chain@.len() - 1 {
                                assert(chain@[i] == chain0[i]);
                            } else {
                                assert(chain@[i] == chain0[i] && chain@[j] == chain0[j]);
                            }
                        }
                    }
                }
                if neighbour == target {
                    let ghost deepest0 = search.deepest;
                    if edges.len() > search.deepest {
                        search.deepest = edges.len();
                    }
                    let found = Route { nodes: copy_route(chain), edges: copy_route(edges) };
                    let ghost routes0 = search.routes@;
                    search.routes.push(found);
                    proof {
                        assert(search.routes@[search.routes@.len() - 1] == found);
                        assert(edges@ == edges0.push(edge));
                        let c = edges0.len() as int;
                        assert(found.edges@.subrange(0, c) =~= edges0);
                        assert(extends(edges0, found.edges@));
                        assert(found.edges@[c] == edge);
                        assert forall|i: int, j: int| 0 <= i < j < search.routes@.len() implies search.routes@[i].edges@ != search.routes@[j].edges@ by {
                            assert(search.routes@[i] == routes0[i]);
                            if j < routes0.len() {
                                assert(search.routes@[j] == routes0[j]);
                            } else if i < old(search).routes@.len() {
                                assert(!extends(edges0, routes0[i].edges@));
                            } else {
                                assert(hop_among(adj@[current as int]@, routes0[i].edges@, c, k as int));
                                let kk = choose|kk: int| 0 <= kk < k && routes0[i].edges@[c] == (#[trigger] adj@[current as int]@[kk]).0;
                                assert(adj@[current as int]@[kk].0 != adj@[current as int]@[k as int].0);
                            }
                        }
                        assert forall|i: int| routes_it.len() <= i < search.routes@.len() implies
                            extends(edges0, #[trigger] search.routes@[i].edges@) && search.routes@[i].edges@[c] == edge by {
                            assert(search.routes@[i] == found);
                        }
                        if search.deepest == found.edges@.len() {
                            assert(search.routes@[routes0.len() as int] == found);
                        } else if deepest0 != 0 {
                            let j = choose|j: int| 0 <= j < routes0.len() && (#[trigger] routes0[j]).edges@.len() == deepest0;
                            assert(search.routes@[j] == routes0[j]);
                        }
                        assert forall|i: int| 0 <= i < search.routes@.len() implies
                            route_between(adj@, (#[trigger] search.routes@[i]).nodes@, search.routes@[i].edges@, from, target) by {
                            if i < routes0.len() {
                                assert(search.routes@[i] == routes0[i]);
                            }
                        }
                        assert forall|i: int| 0 <= i < search.routes@.len() implies
                            1 <= (#[trigger] search.routes@[i]).edges@.len() <= limits.max_depth by {
                            if i < routes0.len() {
                                assert(search.routes@[i] == routes0[i]);
                            }
                        }
                        assert forall|i: int| 0 <= i < search.routes@.len() implies
                            (#[trigger] search.routes@[i]).edges@.len() <= search.deepest by {
                            if i < routes0.len() {
                                assert(search.routes@[i] == routes0[i]);
                            }
                        }
                    }
                    chain.pop();
                    edges.pop();
                    proof {
                        assert(chain@ =~= chain0);
                        assert(edges@ =~= edges0);
                    }
                    if search.routes.len() >= max_paths {
                        search.truncated = true;
                        if search.truncation_reason.is_none() {
                            search.truncation_reason = Some(TruncationReason::MaxNodesReached);
                        }
                        done = true;
                    }
                    proof {
                        lemma_lists_grow(routes0, search.routes@);
                        assert forall|i: int| 0 <= i < old(search).routes@.len() implies search.routes@[i] == old(search).routes@[i] by {
                            assert(search.routes@[i] == routes0[i]);
                        }
                        if !search.truncated {
                            assert forall|nodes: Seq<usize>, es: Seq<usize>, kk: int|
                                #![trigger route_between(adj@, nodes, es, from, target), adj@[current as int]@[kk]]
                                route_between(adj@, nodes, es, from, target) && es.len() <= limits.max_depth
                                    && continues(chain@, edges@, nodes, es)
                                    && 0 <= kk < k + 1 && adj@[current as int]@[kk] == (es[edges@.len() as int], nodes[chain@.len() as int])
                                implies lists(search.routes@, nodes, es) by {
                                if kk == k {
                                    lemma_hop_reaches_target(adj@, chain0, edges0, nodes, es, from, target);
                                    assert(found.nodes@ == nodes && found.edges@ == es);
                                    assert(search.routes@[routes0.len() as int] == found);
                                } else {
                                    assert(lists(routes0, nodes, es));
                                }
                            }
                            assert forall|nodes: Seq<usize>, es: Seq<usize>, kk: int|
                                #![trigger at_bound(adj@, nodes, es, target, limits.max_depth), adj@[current as int]@[kk]]
                                at_bound(adj@, nodes, es, target, limits.max_depth) && continues(chain@, edges@, nodes, es)
                                    && 0 <= kk < k + 1 && adj@[current as int]@[kk] == (es[edges@.len() as int], nodes[chain@.len() as int])
                                implies adj@[nodes[nodes.len() - 1] as int]@.len() == 0 by {
                                if kk == k {
                                    assert(nodes[chain@.len() as int] == target);
                                    assert(nodes.contains(target));
                                }
                            }
                        }
                    }
                } else if edges.len() >= limits.max_depth {
                    if adj[neighbour].len() > 0 {
                        search.truncated = true;
                        if search.truncation_reason.is_none() {
                            search.truncation_reason = Some(TruncationReason::MaxDepthReached);
                        }
                        proof {
                            assert(follows(adj@, chain@, edges@));
                            assert(chain@[chain@.len() - 1] == neighbour);
                            assert(!chain@.contains(target)) by {
                                if chain@.contains(target) {
                                    let i = choose|i: int| 0 <= i < chain@.len() && chain@[i] == target;
                                    if i < chain0.len() {
                                        assert(chain0[i] == target);
                                    }
                                }
                            }
                            assert(at_bound(adj@, chain@, edges@, target, limits.max_depth));
                            assert(cut_short(adj@, from, target, limits.max_depth));
                        }
                    }
                    chain.pop();
                    edges.pop();
                    proof {
                        assert(chain@ =~= chain0);
                        assert(edges@ =~= edges0);
                        if !search.truncated {
                            assert forall|nodes: Seq<usize>, es: Seq<usize>, kk: int|
                                #![trigger route_between(adj@, nodes, es, from, target), adj@[current as int]@[kk]]
                                route_between(adj@, nodes, es, from, target) && es.len() <= limits.max_depth
                                    && continues(chain@, edges@, nodes, es)
                                    && 0 <= kk < k + 1 && adj@[current as int]@[kk] == (es[edges@.len() as int], nodes[chain@.len() as int])
                                implies lists(search.routes@, nodes, es) by {
                                if kk == k {
                                    lemma_hop_continues(chain0, edges0, nodes, es, target);
                                }
                            }
                            assert forall|nodes: Seq<usize>, es: Seq<usize>, kk: int|
                                #![trigger at_bound(adj@, nodes, es, target, limits.max_depth), adj@[current as int]@[kk]]
                                at_bound(adj@, nodes, es, target, limits.max_depth) && continues(chain@, edges@, nodes, es)
                                    && 0 <= kk < k + 1 && adj@[current as int]@[kk] == (es[edges@.len() as int], nodes[chain@.len() as int])
                                implies adj@[nodes[nodes.len() - 1] as int]@.len() == 0 by {
                                if kk == k {
                                    assert(nodes.len() == chain0.len() + 1);
                                    assert(nodes[chain0.len() as int] == neighbour);
                                }
                            }
                        }
                    }
                } else {
                    proof {
                        assert(!chain@.contains(target)) by {
                            if chain@.contains(target) {
                                let i = choose|i: int| 0 <= i < chain@.len() && chain@[i] == target;
                                if i < chain0.len() {
                                    assert(chain0[i] == target);
                                }
                            }
                        }
                        assert(chain@[0] == from);
                    }
                    let ghost routes_pre = search.routes@;
                    proof {
                        assert(edges@ == edges0.push(edge));
                        assert forall|i: int| 0 <= i < search.routes@.len() implies !extends(edges@, #[trigger] search.routes@[i].edges@) by {
                            if extends(edges@, search.routes@[i].edges@) {
                                lemma_extends_push(edges0, edge, search.routes@[i].edges@);
                                if i >= old(search).routes@.len() {
                                    let c = edges0.len() as int;
                                    assert(hop_among(adj@[current as int]@, search.routes@[i].edges@, c, k as int));
                                    let kk = choose|kk: int| 0 <= kk < k && search.routes@[i].edges@[c] == (#[trigger] adj@[current as int]@[kk]).0;
                                    assert(adj@[current as int]@[kk].0 != adj@[current as int]@[k as int].0);
                                }
                            }
                        }
                    }
                    extend(adj, neighbour, target, limits, max_paths, chain, edges, search);
                    proof {
                        assert forall|i: int| routes_it.len() <= i < search.routes@.len() implies
                            extends(edges0, #[trigger] search.routes@[i].edges@) && search.routes@[i].edges@[edges0.len() as int] == edge by {
                            lemma_extends_push(edges0, edge, search.routes@[i].edges@);
                        }
                    }
                    chain.pop();
                    edges.pop();
                    proof {
                        assert(chain@ =~= chain0);
                        assert(edges@ =~= edges0);
                        lemma_lists_grow(routes_pre, search.routes@);
                        if !search.truncated {
                            assert forall|nodes: Seq<usize>, es: Seq<usize>, kk: int|
                                #![trigger route_between(adj@, nodes, es, from, target), adj@[current as int]@[kk]]
                                route_between(adj@, nodes, es, from, target) && es.len() <= limits.max_depth
                                    && continues(chain@, edges@, nodes, es)
                                    && 0 <= kk < k + 1 && adj@[current as int]@[kk] == (es[edges@.len() as int], nodes[chain@.len() as int])
                                implies lists(search.routes@, nodes, es) by {
                                if kk == k {
                                    lemma_hop_continues(chain0, edges0, nodes, es, target);
                                    assert(chain0.push(neighbour)[0] == from);
                                } else {
                                    assert(lists(routes_pre, nodes, es));
                                }
                            }
                            assert forall|nodes: Seq<usize>, es: Seq<usize>, kk: int|
                                #![trigger at_bound(adj@, nodes, es, target, limits.max_depth), adj@[current as int]@[kk]]
                                at_bound(adj@, nodes, es, target, limits.max_depth) && continues(chain@, edges@, nodes, es)
                                    && 0 <= kk < k + 1 && adj@[current as int]@[kk] == (es[edges@.len() as int], nodes[chain@.len() as int])
                                implies adj@[nodes[nodes.len() - 1] as int]@.len() == 0 by {
                                if kk == k {
                                    lemma_hop_extends(chain0, edges0, nodes, es);
                                    assert(chain0.push(nodes[chain0.len() as int]) == chain0.push(neighbour));
                                }
                            }
                        }
                    }
                }
            }
            proof {
                assert(edges@ == edges_it);
                let c = edges@.len() as int;
                assert forall|i: int| old(search).routes@.len() <= i < search.routes@.len() implies
                    extends(edges@, #[trigger] search.routes@[i].edges@)
                        && hop_among(adj@[current as int]@, search.routes@[i].edges@, c, k + 1) by {
                    if i < routes_it.len() {
                        assert(search.routes@[i] == routes_it[i]);
                        assert(hop_among(adj@[current as int]@, routes_it[i].edges@, c, k as int));
                        let kk = choose|kk: int| 0 <= kk < k && routes_it[i].edges@[c] == (#[trigger] adj@[current as int]@[kk]).0;
                        assert(search.routes@[i].edges@[c] == adj@[current as int]@[kk].0);
                    } else {
                        assert(search.routes@[i].edges@[c] == adj@[current as int]@[k as int].0);
                    }
                }
            }
            k += 1;
        }
    }
    proof {
        if !search.truncated {
            assert forall|nodes: Seq<usize>, es: Seq<usize>|
                #[trigger] route_between(adj@, nodes, es, old(chain)@[0], target) && es.len() <= limits.max_depth
                    && continues(old(chain)@, old(edges)@, nodes, es) implies lists(search.routes@, nodes, es) by {
                let c = chain@.len() - 1;
                assert(uses_edge(adj@, nodes, es, c));
                assert(nodes.subrange(0, chain@.len() as int)[c] == nodes[c]);
                assert(nodes[c] == current);
                let kk = choose|kk: int| 0 <= kk < adj@[nodes[c] as int]@.len() && #[trigger] adj@[nodes[c] as int]@[kk] == (es[c], nodes[c + 1]);
                assert(adj@[current as int]@[kk] == (es[edges@.len() as int], nodes[chain@.len() as int]));
            }
            assert forall|nodes: Seq<usize>, es: Seq<usize>|
                #[trigger] at_bound(adj@, nodes, es, target, limits.max_depth) && continues(old(chain)@, old(edges)@, nodes, es)
                implies adj@[nodes[nodes.len() - 1] as int]@.len() == 0 by {
                let c = chain@.len() - 1;
                assert(uses_edge(adj@, nodes, es, c));
                assert(nodes.subrange(0, chain@.len() as int)[c] == nodes[c]);
                assert(nodes[c] == current);
                let kk = choose|kk: int| 0 <= kk < adj@[nodes[c] as int]@.len() && #[trigger] adj@[nodes[c] as int]@[kk] == (es[c], nodes[c + 1]);
                assert(adj@[current as int]@[kk] == (es[edges@.len() as int], nodes[chain@.len() as int]));
            }
        }
    }
}

/// A copy of a list of positions.
fn copy_route(v: &Vec<usize>) -> (copy: Vec<usize>)
    ensures
        copy@ == v@,
{
    let mut copy: Vec<usize> = Vec::new();
    for i in 0..v.len()
        invariant
            copy@ == v@.subrange(0, i as int),
    {
        copy.push(v[i]);
        assert(copy@ =~= v@.subrange(0, i + 1));
    }
    assert(v@.subrange(0, v@.len() as int) =~= v@);
    copy
}

/// Every simple route from one node to another, within the bounds and a cap on how many
/// are reported, in the order the depth-first search found them. Each route is reported
/// once: no two take the same edges, as long as no list of the adjacency holds an edge
/// twice.
pub fn enumerate_routes(adj: &Adjacency, from: usize, to: usize, limits: Limits, max_paths: usize) -> (search: RouteSearch)
    requires
        adjacency_well_formed(adj@),
        rows_distinct(adj@),
        from < adj.len(),
        limits.max_depth > 0,
    ensures
        edges_distinct(search.routes@),
        search_sound(adj@, from, to, limits, max_paths, search),
        from == to ==> search.routes@.len() == 0 && !search.truncated,
        from != to && max_paths == 0 ==> search.routes@.len() == 0 && search.truncated
            && search.truncation_reason == Some(TruncationReason::MaxNodesReached),
        !search.truncated ==> forall|nodes: Seq<usize>, es: Seq<usize>|
            #[trigger] route_between(adj@, nodes, es, from, to) && 1 <= es.len() <= limits.max_depth ==> lists(search.routes@, nodes, es),
        cut_short(adj@, from, to, limits.max_depth) ==> search.truncated,
{
    let mut search = RouteSearch {
        routes: Vec::new(),
        truncated: false,
        truncation_reason: None,
        explored: 0,
        deepest: 0,
    };
    if from == to {
        proof {
            assert forall|nodes: Seq<usize>, es: Seq<usize>|
                #[trigger] route_between(adj@, nodes, es, from, to) && 1 <= es.len() <= limits.max_depth implies lists(search.routes@, nodes, es) by {
                assert(nodes[0] == nodes[nodes.len() - 1]);
            }
            if cut_short(adj@, from, to, limits.max_depth) {
                let (nodes, es) = choose|nodes: Seq<usize>, es: Seq<usize>|
                    #[trigger] at_bound(adj@, nodes, es, to, limits.max_depth) && nodes[0] == from && adj@[nodes[nodes.len() - 1] as int]@.len() > 0;
                assert(nodes.contains(to));
            }
        }
        return search;
    }
    if max_paths == 0 {
        search.truncated = true;
        search.truncation_reason = Some(TruncationReason::MaxNodesReached);
        return search;
    }
    let mut chain: Vec<usize> = Vec::new();
    chain.push(from);
    let mut edges: Vec<usize> = Vec::new();
    proof {
        assert(follows(adj@, chain@, edges@));
        assert(!chain@.contains(to)) by {
            if chain@.contains(to) {
                let i = choose|i: int| 0 <= i < chain@.len() && chain@[i] == to;
                assert(chain@[0] == from);
            }
        }
    }
    let ghost chain0 = chain@;
    let ghost edges0 = edges@;
    extend(adj, from, to, limits, max_paths, &mut chain, &mut edges, &mut search);
    proof {
        if !search.truncated {
            assert forall|nodes: Seq<usize>, es: Seq<usize>|
                #[trigger] route_between(adj@, nodes, es, from, to) && 1 <= es.len() <= limits.max_depth implies lists(search.routes@, nodes, es) by {
                assert(nodes.subrange(0, 1) =~= chain0);
                assert(es.subrange(0, 0) =~= edges0);
                assert(continues(chain0, edges0, nodes, es));
                assert(chain0[0] == from);
            }
            if cut_short(adj@, from, to, limits.max_depth) {
                let (nodes, es) = choose|nodes: Seq<usize>, es: Seq<usize>|
                    #[trigger] at_bound(adj@, nodes, es, to, limits.max_depth) && nodes[0] == from && adj@[nodes[nodes.len() - 1] as int]@.len() > 0;
                assert(nodes.subrange(0, 1) =~= chain0);
                assert(es.subrange(0, 0) =~= edges0);
                assert(continues(chain0, edges0, nodes, es));
            }
        }
    }
    search
}

/// The records a breadth-first search keeps: every seen node but the source was reached
/// from a seen node one hop nearer the source, by a recorded edge.
pub open spec fn parents_valid(
    adj: Seq<Vec<(usize, usize)>>,
    from: usize,
    seen: Seq<bool>,
    parent_node: Seq<usize>,
    parent_edge: Seq<usize>,
    depth: Seq<usize>,
) -> bool {
    &&& seen.len() == adj.len()
    &&& parent_node.len() == adj.len()
    &&& parent_edge.len() == adj.len()
    &&& depth.len() == adj.len()
    &&& from < adj.len()
    &&& seen[from as int]
    &&& depth[from as int] == 0
    &&& forall|v: int| 0 <= v < adj.len() && #[trigger] seen[v] && v != from ==> {
        &&& parent_node[v] < adj.len()
        &&& seen[parent_node[v] as int]
        &&& depth[v] == depth[parent_node[v] as int] + 1
        &&& exists|k: int| 0 <= k < adj[parent_node[v] as int]@.len()
            && #[trigger] adj[parent_node[v] as int]@[k] == (parent_edge[v], v as usize)
    }
}

/// Node `v` lies within `k` hops of `from`: some simple route leads there.
pub open spec fn within(adj: Seq<Vec<(usize, usize)>>, from: usize, v: usize, k: usize) -> bool {
    exists|nodes: Seq<usize>, edges: Seq<usize>| #[trigger] route_between(adj, nodes, edges, from, v) && edges.len() <= k
}

/// At least `max_nodes` distinct nodes lie within `max_depth` hops of `from`: a
/// breadth-first search bounded by both can stop before it has seen them all.
pub open spec fn crowded(adj: Seq<Vec<(usize, usize)>>, from: usize, max_depth: usize, max_nodes: usize) -> bool {
    exists|q: Seq<usize>| q.len() >= max_nodes && #[trigger] distinct(q)
        && forall|i: int| 0 <= i < q.len() ==> #[trigger] within(adj, from, q[i], max_depth)
}

/// The parent records of a breadth-first search lead back from every seen node to the
/// source, by a simple route as long as the node's recorded depth.
proof fn lemma_parents_route(
    adj: Seq<Vec<(usize, usize)>>,
    from: usize,
    seen: Seq<bool>,
    parent_node: Seq<usize>,
    parent_edge: Seq<usize>,
    depth: Seq<usize>,
    v: usize,
) -> (r: (Seq<usize>, Seq<usize>))
    requires
        parents_valid(adj, from, seen, parent_node, parent_edge, depth),
        v < adj.len(),
        seen[v as int],
    ensures
        route_between(adj, r.0, r.1, from, v),
        r.1.len() == depth[v as int],
        forall|i: int| 0 <= i < r.0.len() ==> depth[(#[trigger] r.0[i]) as int] == i,
    decreases depth[v as int],
{
    if v == from {
        let nodes = seq![from];
        let edges = Seq::<usize>::empty();
        assert(follows(adj, nodes, edges));
        (nodes, edges)
    } else {
        let p = parent_node[v as int];
        let (ns, es) = lemma_parents_route(adj, from, seen, parent_node, parent_edge, depth, p);
        let nodes = ns.push(v);
        let edges = es.push(parent_edge[v as int]);
        let k = choose|k: int| 0 <= k < adj[p as int]@.len() && #[trigger] adj[p as int]@[k] == (parent_edge[v as int], v);
        assert(depth[ns[ns.len() - 1] as int] == ns.len() - 1);
        assert forall|i: int| 0 <= i < edges.len() implies #[trigger] uses_edge(adj, nodes, edges, i) by {
            if i < es.len() {
                assert(uses_edge(adj, ns, es, i));
                let kk = choose|kk: int| 0 <= kk < adj[ns[i] as int]@.len() && #[trigger] adj[ns[i] as int]@[kk] == (es[i], ns[i + 1]);
                assert(nodes[i] == ns[i] && nodes[i + 1] == ns[i + 1] && edges[i] == es[i]);
                assert(adj[nodes[i] as int]@[kk] == (edges[i], nodes[i + 1]));
            } else {
                assert(nodes[i] == p && nodes[i + 1] == v);
                assert(adj[nodes[i] as int]@[k] == (edges[i], nodes[i + 1]));
            }
        }
        assert forall|i: int| 0 <= i < nodes.len() implies (#[trigger] nodes[i]) < adj.len() by {
            if i < ns.len() {
                assert(nodes[i] == ns[i]);
            }
        }
        assert forall|i: int| 0 <= i < nodes.len() implies depth[(#[trigger] nodes[i]) as int] == i by {
            if i < ns.len() {
                assert(nodes[i] == ns[i]);
            }
        }
        assert forall|i: int, j: int| 0 <= i < j < nodes.len() implies nodes[i] != nodes[j] by {
            assert(depth[nodes[i] as int] == i && depth[nodes[j] as int] == j);
        }
        (nodes, edges)
    }
}

/// Rebuilds the route a breadth-first search found, by following the parent records
/// back from the destination.
fn reconstruct(
    adj: &Adjacency,
    from: usize,
    to: usize,
    seen: &Vec<bool>,
    parent_node: &Vec<usize>,
    parent_edge: &Vec<usize>,
    depth: &Vec<usize>,
) -> (route: Route)
    requires
        adjacency_well_formed(adj@),
        parents_valid(adj@, from, seen@, parent_node@, parent_edge@, depth@),
        to < adj.len(),
        seen@[to as int],
    ensures
        route_between(adj@, route.nodes@, route.edges@, from, to),
        route.edges@.len() == depth@[to as int],
        forall|i: int| 0 <= i < route.nodes@.len() ==> seen@[(#[trigger] route.nodes@[i]) as int],
{
    let mut nodes: Vec<usize> = Vec::new();
    nodes.push(to);
    let mut edges: Vec<usize> = Vec::new();
    let mut cur = to;
    while cur != from
        invariant
            adjacency_well_formed(adj@),
            parents_valid(adj@, from, seen@, parent_node@, parent_edge@, depth@),
            to < adj.len(),
            cur < adj.len(),
            seen@[cur as int],
            nodes@.len() >= 1,
            nodes@[0] == cur,
            nodes@[nodes@.len() - 1] == to,
            follows(adj@, nodes@, edges@),
            forall|i: int| 0 <= i < nodes@.len() ==> depth@[(#[trigger] nodes@[i]) as int] == depth@[cur as int] + i,
            edges@.len() + depth@[cur as int] == depth@[to as int],
            forall|i: int| 0 <= i < nodes@.len() ==> seen@[(#[trigger] nodes@[i]) as int],
        decreases depth@[cur as int],
    {
        let p = parent_node[cur];
        let e = parent_edge[cur];
        let ghost nodes0 = nodes@;
        let ghost edges0 = edges@;
        proof {
            assert(seen@[cur as int] && cur != from);
        }
        nodes.insert(0, p);
        edges.insert(0, e);
        proof {
            let k = choose|k: int| 0 <= k < adj@[parent_node@[cur as int] as int]@.len()
                && #[trigger] adj@[parent_node@[cur as int] as int]@[k] == (parent_edge@[cur as int], cur);
            assert forall|i: int| 0 <= i < edges@.len() implies #[trigger] uses_edge(adj@, nodes@, edges@, i) by {
                if i == 0 {
                    assert(nodes@[0] == p && nodes@[1] == cur && edges@[0] == e);
                    assert(adj@[nodes@[0] as int]@[k] == (edges@[0], nodes@[1]));
                } else {
                    assert(uses_edge(adj@, nodes0, edges0, i - 1));
                    let kk = choose|kk: int| 0 <= kk < adj@[nodes0[i - 1] as int]@.len() && #[trigger] adj@[nodes0[i - 1] as int]@[kk] == (edges0[i - 1], nodes0[i]);
                    assert(nodes@[i] == nodes0[i - 1] && nodes@[i + 1] == nodes0[i] && edges@[i] == edges0[i - 1]);
                    assert(adj@[nodes@[i] as int]@[kk] == (edges@[i], nodes@[i + 1]));
                }
            }
            assert forall|i: int| 0 <= i < nodes@.len() implies (#[trigger] nodes@[i]) < adj@.len() by {
                if i > 0 {
                    assert(nodes@[i] == nodes0[i - 1]);
                }
            }
            assert forall|i: int| 0 <= i < nodes@.len() implies depth@[(#[trigger] nodes@[i]) as int] == depth@[p as int] + i by {
                if i > 0 {
                    assert(nodes@[i] == nodes0[i - 1]);
                }
            }
            assert forall|i: int| 0 <= i < nodes@.len() implies seen@[(#[trigger] nodes@[i]) as int] by {
                if i > 0 {
                    assert(nodes@[i] == nodes0[i - 1]);
                }
            }
        }
        cur = p;
    }
    proof {
        assert forall|i: int, j: int| 0 <= i < j < nodes@.len() implies nodes@[i] != nodes@[j] by {
            assert(depth@[nodes@[i] as int] != depth@[nodes@[j] as int]);
        }
    }
    Route { nodes, edges }
}

/// Every seen node fewer than `bound` hops from the start has had each of its neighbours
/// among `members` seen, at most one hop further out.
pub open spec fn expanded_within(adj: Seq<Vec<(usize, usize)>>, members: Seq<bool>, seen: Seq<bool>, depth: Seq<usize>, bound: int) -> bool {
    forall|x: int, k: int| 0 <= x < adj.len() && seen[x] && depth[x] < bound && 0 <= k < adj[x]@.len() && members[adj[x]@[k].1 as int]
        ==> seen[(#[trigger] adj[x]@[k]).1 as int] && depth[adj[x]@[k].1 as int] <= depth[x] + 1
}

/// Under a search expanded within `members` below `bound`, every node of a walk through
/// members of at most `bound` hops from the start is seen, no deeper than its place on
/// the walk.
proof fn lemma_short_member_walks_seen(
    adj: Seq<Vec<(usize, usize)>>,
    members: Seq<bool>,
    seen: Seq<bool>,
    depth: Seq<usize>,
    from: int,
    bound: int,
    p: Seq<int>,
)
    requires
        adjacency_well_formed(adj),
        seen.len() == adj.len(),
        depth.len() == adj.len(),
        members.len() == adj.len(),
        0 <= from < adj.len(),
        seen[from],
        depth[from] == 0,
        expanded_within(adj, members, seen, depth, bound),
        is_walk(adj, p),
        p[0] == from,
        p.len() - 1 <= bound,
        forall|i: int| 0 <= i < p.len() ==> members[#[trigger] p[i]],
    ensures
        forall|i: int| 0 <= i < p.len() ==> seen[#[trigger] p[i]] && depth[p[i]] <= i,
    decreases p.len(),
{
    if p.len() > 1 {
        let q = p.drop_last();
        assert forall|i: int| 0 <= i < q.len() - 1 implies #[trigger] step(adj, q, i) by {
            assert(step(adj, p, i));
            assert(q[i] == p[i] && q[i + 1] == p[i + 1]);
        }
        assert forall|i: int| 0 <= i < q.len() implies 0 <= #[trigger] q[i] < adj.len() by {
            assert(q[i] == p[i]);
        }
        assert forall|i: int| 0 <= i < q.len() implies members[#[trigger] q[i]] by {
            assert(q[i] == p[i]);
        }
        lemma_short_member_walks_seen(adj, members, seen, depth, from, bound, q);
        let i = p.len() - 2;
        assert(q[i] == p[i]);
        assert(seen[p[i]] && depth[p[i]] <= i);
        assert(step(adj, p, i));
        let k = choose|k: int| 0 <= k < adj[p[i]]@.len() && (#[trigger] adj[p[i]]@[k]).1 == p[i + 1];
        assert(members[p[i + 1]]);
        assert(seen[adj[p[i]]@[k].1 as int] && depth[adj[p[i]]@[k].1 as int] <= depth[p[i]] + 1);
        assert forall|j: int| 0 <= j < p.len() implies seen[#[trigger] p[j]] && depth[p[j]] <= j by {
            if j < p.len() - 1 {
                assert(q[j] == p[j]);
            }
        }
    }
}

/// A breadth-first queue whose first `processed` entries have been expanded within
/// `members`, and whose later entries lie at least `bound` hops out, is expanded within
/// `members` below `bound`.
proof fn lemma_processed_expanded_within(
    adj: Seq<Vec<(usize, usize)>>,
    members: Seq<bool>,
    queue: Seq<usize>,
    seen: Seq<bool>,
    depth: Seq<usize>,
    processed: int,
    bound: int,
)
    requires
        seen.len() == adj.len(),
        depth.len() == adj.len(),
        adj.len() <= usize::MAX,
        forall|v: int| 0 <= v < adj.len() ==> (#[trigger] seen[v] <==> queue.contains(v as usize)),
        forall|i: int, j: int| 0 <= i < j < queue.len() ==> depth[queue[i] as int] <= depth[queue[j] as int],
        forall|j: int, k: int| 0 <= j < processed && 0 <= k < adj[queue[j] as int]@.len() && members[adj[queue[j] as int]@[k].1 as int]
            ==> seen[(#[trigger] adj[queue[j] as int]@[k]).1 as int] && depth[adj[queue[j] as int]@[k].1 as int] <= depth[queue[j] as int] + 1,
        0 <= processed <= queue.len(),
        processed < queue.len() ==> depth[queue[processed] as int] >= bound,
    ensures
        expanded_within(adj, members, seen, depth, bound),
{
    assert forall|x: int, k: int| 0 <= x < adj.len() && seen[x] && depth[x] < bound && 0 <= k < adj[x]@.len() && members[adj[x]@[k].1 as int]
        implies seen[(#[trigger] adj[x]@[k]).1 as int] && depth[adj[x]@[k].1 as int] <= depth[x] + 1 by {
        assert(queue.contains(x as usize));
        let i = choose|i: int| 0 <= i < queue.len() && queue[i] == x as usize;
        assert(queue[i] as int == x);
        if i >= processed {
            assert(depth[queue[processed] as int] <= depth[queue[i] as int]);
        }
        assert(adj[queue[i] as int]@[k] == adj[x]@[k]);
    }
}

/// Every seen node fewer than `bound` hops from the start has had each of its neighbours
/// seen, at most one hop further out.
pub open spec fn expanded_below(adj: Seq<Vec<(usize, usize)>>, seen: Seq<bool>, depth: Seq<usize>, bound: int) -> bool {
    forall|x: int, k: int| 0 <= x < adj.len() && seen[x] && depth[x] < bound && 0 <= k < adj[x]@.len()
        ==> seen[(#[trigger] adj[x]@[k]).1 as int] && depth[adj[x]@[k].1 as int] <= depth[x] + 1
}

/// Under a search expanded below `bound`, every node of a walk of at most `bound` hops
/// from the start is seen, no deeper than its place on the walk.
pub(crate) proof fn lemma_short_walks_seen(adj: Seq<Vec<(usize, usize)>>, seen: Seq<bool>, depth: Seq<usize>, from: int, bound: int, p: Seq<int>)
    requires
        adjacency_well_formed(adj),
        seen.len() == adj.len(),
        depth.len() == adj.len(),
        0 <= from < adj.len(),
        seen[from],
        depth[from] == 0,
        expanded_below(adj, seen, depth, bound),
        is_walk(adj, p),
        p[0] == from,
        p.len() - 1 <= bound,
    ensures
        forall|i: int| 0 <= i < p.len() ==> seen[#[trigger] p[i]] && depth[p[i]] <= i,
    decreases p.len(),
{
    if p.len() > 1 {
        let q = p.drop_last();
        assert forall|i: int| 0 <= i < q.len() - 1 implies #[trigger] step(adj, q, i) by {
            assert(step(adj, p, i));
            assert(q[i] == p[i] && q[i + 1] == p[i + 1]);
        }
        assert forall|i: int| 0 <= i < q.len() implies 0 <= #[trigger] q[i] < adj.len() by {
            assert(q[i] == p[i]);
        }
        lemma_short_walks_seen(adj, seen, depth, from, bound, q);
        let i = p.len() - 2;
        assert(q[i] == p[i]);
        assert(seen[p[i]] && depth[p[i]] <= i);
        assert(step(adj, p, i));
        let k = choose|k: int| 0 <= k < adj[p[i]]@.len() && (#[trigger] adj[p[i]]@[k]).1 == p[i + 1];
        assert(seen[adj[p[i]]@[k].1 as int] && depth[adj[p[i]]@[k].1 as int] <= depth[p[i]] + 1);
        assert forall|j: int| 0 <= j < p.len() implies seen[#[trigger] p[j]] && depth[p[j]] <= j by {
            if j < p.len() - 1 {
                assert(q[j] == p[j]);
            }
        }
    }
}

/// A breadth-first queue whose first `processed` entries have been expanded, and whose
/// later entries lie at least `bound` hops out, is expanded below `bound`.
proof fn lemma_processed_expanded(
    adj: Seq<Vec<(usize, usize)>>,
    queue: Seq<usize>,
    seen: Seq<bool>,
    depth: Seq<usize>,
    processed: int,
    bound: int,
    max_depth: usize,
)
    requires
        seen.len() == adj.len(),
        depth.len() == adj.len(),
        adj.len() <= usize::MAX,
        forall|v: int| 0 <= v < adj.len() ==> (#[trigger] seen[v] <==> queue.contains(v as usize)),
        forall|i: int, j: int| 0 <= i < j < queue.len() ==> depth[queue[i] as int] <= depth[queue[j] as int],
        forall|j: int, k: int| 0 <= j < processed && depth[queue[j] as int] < max_depth && 0 <= k < adj[queue[j] as int]@.len()
            ==> seen[(#[trigger] adj[queue[j] as int]@[k]).1 as int] && depth[adj[queue[j] as int]@[k].1 as int] <= depth[queue[j] as int] + 1,
        0 <= processed <= queue.len(),
        bound <= max_depth,
        processed < queue.len() ==> depth[queue[processed] as int] >= bound,
    ensures
        expanded_below(adj, seen, depth, bound),
{
    assert forall|x: int, k: int| 0 <= x < adj.len() && seen[x] && depth[x] < bound && 0 <= k < adj[x]@.len()
        implies seen[(#[trigger] adj[x]@[k]).1 as int] && depth[adj[x]@[k].1 as int] <= depth[x] + 1 by {
        assert(queue.contains(x as usize));
        let i = choose|i: int| 0 <= i < queue.len() && queue[i] == x as usize;
        assert(queue[i] as int == x);
        if i >= processed {
            assert(depth[queue[processed] as int] <= depth[queue[i] as int]);
        }
        assert(adj[queue[i] as int]@[k] == adj[x]@[k]);
    }
}

/// The shortest route from one node to another, found breadth first, or `None`.
///
/// `None` both when no route exists within the bounds and when the search was stopped by
/// its bound on visited nodes. A route from a node to itself is not a route.
pub fn shortest_route(adj: &Adjacency, from: usize, to: usize, limits: Limits) -> (route: Option<Route>)
    requires
        adjacency_well_formed(adj@),
        from < adj.len(),
        to < adj.len(),
    ensures
        (from == to || limits.max_depth == 0) ==> route is None,
        route matches Some(r) ==> route_between(adj@, r.nodes@, r.edges@, from, to)
            && 1 <= r.edges@.len() <= limits.max_depth
            && forall|p: Seq<int>| #[trigger] walk_between(adj@, p, from as int, to as int) ==> p.len() >= r.nodes@.len(),
        route is None && from != to && limits.max_nodes > adj.len() ==>
            forall|p: Seq<int>| #[trigger] walk_between(adj@, p, from as int, to as int) ==> p.len() - 1 > limits.max_depth,
        route is None && from != to && !crowded(adj@, from, limits.max_depth, limits.max_nodes) ==>
            forall|p: Seq<int>| #[trigger] walk_between(adj@, p, from as int, to as int) ==> p.len() - 1 > limits.max_depth,
{
    if from == to || limits.max_depth == 0 {
        return None;
    }
    let n = adj.len();
    let mut seen: Vec<bool> = Vec::new();
    let mut parent_node: Vec<usize> = Vec::new();
    let mut parent_edge: Vec<usize> = Vec::new();
    let mut depth: Vec<usize> = Vec::new();
    for i in 0..n
        invariant
            seen@.len() == i,
            parent_node@.len() == i,
            parent_edge@.len() == i,
            depth@.len() == i,
            forall|v: int| 0 <= v < i ==> !#[trigger] seen@[v],
            forall|v: int| 0 <= v < i ==> #[trigger] depth@[v] == 0,
    {
        seen.push(false);
        parent_node.push(0);
        parent_edge.push(0);
        depth.push(0);
    }
    seen.set(from, true);
    let mut queue: Vec<usize> = Vec::new();
    queue.push(from);
    proof {
        assert(queue@[0] == from);
        assert forall|v: int| 0 <= v < n implies (#[trigger] seen@[v] <==> queue@.contains(v as usize)) by {
            if queue@.contains(v as usize) {
                let j = choose|j: int| 0 <= j < queue@.len() && queue@[j] == v as usize;
                assert(j == 0);
            }
        }
    }
    let mut head: usize = 0;
    while head < queue.len()
        invariant
            n == adj.len(),
            adjacency_well_formed(adj@),
            from < n,
            to < n,
            from != to,
            parents_valid(adj@, from, seen@, parent_node@, parent_edge@, depth@),
            !seen@[to as int],
            forall|v: int| 0 <= v < n && #[trigger] seen@[v] ==> depth@[v] <= limits.max_depth,
            forall|v: int| 0 <= v < n ==> (#[trigger] seen@[v] <==> queue@.contains(v as usize)),
            forall|j: int| 0 <= j < queue@.len() ==> (#[trigger] queue@[j]) < n,
            forall|i: int, j: int| 0 <= i < j < queue@.len() ==> queue@[i] != queue@[j],
            queue@.len() <= n,
            head <= queue@.len(),
            forall|i: int, j: int| 0 <= i < j < queue@.len() ==> depth@[queue@[i] as int] <= depth@[queue@[j] as int],
            head < queue@.len() ==> forall|j: int| 0 <= j < queue@.len() ==> depth@[queue@[j] as int] <= depth@[queue@[head as int] as int] + 1,
            forall|j: int, k: int| 0 <= j < head && depth@[queue@[j] as int] < limits.max_depth && 0 <= k < adj@[queue@[j] as int]@.len()
                ==> seen@[(#[trigger] adj@[queue@[j] as int]@[k]).1 as int] && depth@[adj@[queue@[j] as int]@[k].1 as int] <= depth@[queue@[j] as int] + 1,
        decreases n - head,
    {
        let u = queue[head];
        head += 1;
        if depth[u] < limits.max_depth {
            let deg = adj[u].len();
            let mut k: usize = 0;
            while k < deg
                invariant
                    n == adj.len(),
                    adjacency_well_formed(adj@),
                    from < n,
                    to < n,
                    from != to,
                    u < n,
                    seen@[u as int],
                    depth@[u as int] < limits.max_depth,
                    deg == adj@[u as int]@.len(),
                    k <= deg,
                    parents_valid(adj@, from, seen@, parent_node@, parent_edge@, depth@),
                    !seen@[to as int],
                    forall|v: int| 0 <= v < n && #[trigger] seen@[v] ==> depth@[v] <= limits.max_depth,
                    forall|v: int| 0 <= v < n ==> (#[trigger] seen@[v] <==> queue@.contains(v as usize)),
                    forall|j: int| 0 <= j < queue@.len() ==> (#[trigger] queue@[j]) < n,
                    forall|i: int, j: int| 0 <= i < j < queue@.len() ==> queue@[i] != queue@[j],
                    queue@.len() <= n,
                    head <= queue@.len(),
                    1 <= head,
                    u == queue@[head - 1],
                    forall|i: int, j: int| 0 <= i < j < queue@.len() ==> depth@[queue@[i] as int] <= depth@[queue@[j] as int],
                    forall|j: int| 0 <= j < queue@.len() ==> depth@[queue@[j] as int] <= depth@[u as int] + 1,
                    forall|j: int, kk: int| 0 <= j < head - 1 && depth@[queue@[j] as int] < limits.max_depth && 0 <= kk < adj@[queue@[j] as int]@.len()
                        ==> seen@[(#[trigger] adj@[queue@[j] as int]@[kk]).1 as int] && depth@[adj@[queue@[j] as int]@[kk].1 as int] <= depth@[queue@[j] as int] + 1,
                    forall|kk: int| 0 <= kk < k ==> seen@[(#[trigger] adj@[u as int]@[kk]).1 as int] && depth@[adj@[u as int]@[kk].1 as int] <= depth@[u as int] + 1,
                decreases deg - k,
            {
                let (edge, neighbour) = adj[u][k];
                if !seen[neighbour] {
                    if queue.len() >= limits.max_nodes {
                        proof {
                            assert forall|i: int| 0 <= i < queue@.len() implies #[trigger] within(adj@, from, queue@[i], limits.max_depth) by {
                                assert(queue@.contains(queue@[i]));
                                assert(seen@[queue@[i] as int]);
                                let r = lemma_parents_route(adj@, from, seen@, parent_node@, parent_edge@, depth@, queue@[i]);
                                assert(route_between(adj@, r.0, r.1, from, queue@[i]));
                            }
                            assert(distinct(queue@));
                            assert(crowded(adj@, from, limits.max_depth, limits.max_nodes));
                        }
                        return None;
                    }
                    proof {
                        lemma_processed_expanded(adj@, queue@, seen@, depth@, head - 1, depth@[u as int] as int, limits.max_depth);
                    }
                    let ghost seen0 = seen@;
                    let ghost pn0 = parent_node@;
                    let ghost pe0 = parent_edge@;
                    let ghost d0 = depth@;
                    let ghost q0 = queue@;
                    seen.set(neighbour, true);
                    parent_node.set(neighbour, u);
                    parent_edge.set(neighbour, edge);
                    depth.set(neighbour, depth[u] + 1);
                    queue.push(neighbour);
                    proof {
                        assert(adj@[u as int]@[k as int] == (edge, neighbour));
                        assert forall|v: int| 0 <= v < adj@.len() && #[trigger] seen@[v] && v != from implies {
                            &&& parent_node@[v] < adj@.len()
                            &&& seen@[parent_node@[v] as int]
                            &&& depth@[v] == depth@[parent_node@[v] as int] + 1
                            &&& exists|kk: int| 0 <= kk < adj@[parent_node@[v] as int]@.len()
                                && #[trigger] adj@[parent_node@[v] as int]@[kk] == (parent_edge@[v], v as usize)
                        } by {
                            if v == neighbour as int {
                                assert(adj@[parent_node@[v] as int]@[k as int] == (parent_edge@[v], v as usize));
                            } else {
                                assert(seen0[v]);
                                let kk = choose|kk: int| 0 <= kk < adj@[pn0[v] as int]@.len()
                                    && #[trigger] adj@[pn0[v] as int]@[kk] == (pe0[v], v as usize);
                                assert(parent_node@[v] == pn0[v]);
                                assert(pn0[v] != neighbour) by {
                                    assert(seen0[pn0[v] as int]);
                                }
                                assert(adj@[parent_node@[v] as int]@[kk] == (parent_edge@[v], v as usize));
                            }
                        }
                        assert forall|v: int| 0 <= v < n implies (#[trigger] seen@[v] <==> queue@.contains(v as usize)) by {
                            if v != neighbour as int {
                                assert(seen@[v] == seen0[v]);
                                if q0.contains(v as usize) {
                                    let j = choose|j: int| 0 <= j < q0.len() && q0[j] == v as usize;
                                    assert(queue@[j] == v as usize);
                                }
                                if queue@.contains(v as usize) {
                                    let j = choose|j: int| 0 <= j < queue@.len() && queue@[j] == v as usize;
                                    assert(j < q0.len());
                                    assert(q0[j] == v as usize);
                                }
                            } else {
                                assert(queue@[queue@.len() - 1] == neighbour);
                            }
                        }
                        assert forall|i: int, j: int| 0 <= i < j < queue@.len() implies queue@[i] != queue@[j] by {
                            if j == queue@.len() - 1 {
                                assert(queue@[i] == q0[i]);
                                assert(seen0[q0[i] as int]);
                            } else {
                                assert(queue@[i] == q0[i] && queue@[j] == q0[j]);
                            }
                        }
                        assert(queue@.len() <= n) by {
                            assert(seen0.len() == n);
                            lemma_distinct_bounded(queue@, n as nat);
                        }
                        assert forall|j: int| 0 <= j < q0.len() implies #[trigger] depth@[q0[j] as int] == d0[q0[j] as int] by {
                            assert(seen0[q0[j] as int]);
                        }
                        assert(queue@[head - 1] == q0[head - 1]);
                        assert forall|i: int, j: int| 0 <= i < j < queue@.len() implies depth@[queue@[i] as int] <= depth@[queue@[j] as int] by {
                            assert(queue@[i] == q0[i]);
                            if j < q0.len() {
                                assert(queue@[j] == q0[j]);
                            }
                        }
                        assert forall|j: int| 0 <= j < queue@.len() implies depth@[queue@[j] as int] <= depth@[u as int] + 1 by {
                            if j < q0.len() {
                                assert(queue@[j] == q0[j]);
                            }
                        }
                        assert forall|j: int, kk: int| 0 <= j < head - 1 && depth@[queue@[j] as int] < limits.max_depth && 0 <= kk < adj@[queue@[j] as int]@.len()
                            implies seen@[(#[trigger] adj@[queue@[j] as int]@[kk]).1 as int] && depth@[adj@[queue@[j] as int]@[kk].1 as int] <= depth@[queue@[j] as int] + 1 by {
                            assert(queue@[j] == q0[j]);
                            let y = adj@[q0[j] as int]@[kk].1 as int;
                            assert(seen0[y]);
                        }
                        assert forall|kk: int| 0 <= kk < k + 1 implies seen@[(#[trigger] adj@[u as int]@[kk]).1 as int] && depth@[adj@[u as int]@[kk].1 as int] <= depth@[u as int] + 1 by {
                            if kk < k {
                                let y = adj@[u as int]@[kk].1 as int;
                                assert(seen0[y]);
                            }
                        }
                    }
                    if neighbour == to {
                        let route = reconstruct(adj, from, to, &seen, &parent_node, &parent_edge, &depth);
                        proof {
                            assert forall|p: Seq<int>| #[trigger] walk_between(adj@, p, from as int, to as int) implies p.len() >= route.nodes@.len() by {
                                if p.len() - 1 <= d0[u as int] {
                                    lemma_short_walks_seen(adj@, seen0, d0, from as int, d0[u as int] as int, p);
                                    assert(seen0[p[p.len() - 1]]);
                                }
                            }
                        }
                        return Some(route);
                    }
                } else {
                    proof {
                        assert(queue@.contains(neighbour));
                        let j = choose|j: int| 0 <= j < queue@.len() && queue@[j] == neighbour;
                        assert(depth@[queue@[j] as int] <= depth@[u as int] + 1);
                        assert(adj@[u as int]@[k as int].1 == neighbour);
                    }
                }
                k += 1;
            }
        }
        proof {
            if head < queue@.len() {
                assert(depth@[queue@[head - 1] as int] <= depth@[queue@[head as int] as int]);
            }
        }
    }
    proof {
        lemma_processed_expanded(adj@, queue@, seen@, depth@, head as int, limits.max_depth as int, limits.max_depth);
        assert forall|p: Seq<int>| #[trigger] walk_between(adj@, p, from as int, to as int) implies p.len() - 1 > limits.max_depth by {
            if p.len() - 1 <= limits.max_depth {
                lemma_short_walks_seen(adj@, seen@, depth@, from as int, limits.max_depth as int, p);
                assert(seen@[p[p.len() - 1]]);
            }
        }
    }
    None
}

/// The route a breadth-first search recorded to `u`, closed by the edge from `u` back
/// to `start`.
fn close_route(
    adj: &Adjacency,
    start: usize,
    u: usize,
    edge: usize,
    k: usize,
    members: &Vec<bool>,
    seen: &Vec<bool>,
    parent_node: &Vec<usize>,
    parent_edge: &Vec<usize>,
    depth: &Vec<usize>,
) -> (r: Route)
    requires
        adjacency_well_formed(adj@),
        parents_valid(adj@, start, seen@, parent_node@, parent_edge@, depth@),
        u < adj.len(),
        seen@[u as int],
        k < adj@[u as int]@.len(),
        adj@[u as int]@[k as int] == (edge, start),
        members@.len() == adj.len(),
        forall|v: int| 0 <= v < adj.len() && #[trigger] seen@[v] ==> members@[v],
    ensures
        closed_route(adj@, r.nodes@, r.edges@, start),
        forall|i: int| 0 <= i < r.nodes@.len() ==> members@[(#[trigger] r.nodes@[i]) as int],
        r.nodes@.len() == depth@[u as int] + 2,
{
    let route = reconstruct(adj, start, u, seen, parent_node, parent_edge, depth);
    let mut nodes = route.nodes;
    let mut edges = route.edges;
    let ghost nodes0 = nodes@;
    let ghost edges0 = edges@;
    nodes.push(start);
    edges.push(edge);
    proof {
        assert(nodes@.drop_last() =~= nodes0);
        assert forall|i: int| 0 <= i < edges@.len() implies #[trigger] uses_edge(adj@, nodes@, edges@, i) by {
            if i == edges@.len() - 1 {
                assert(nodes@[i] == u && nodes@[i + 1] == start && edges@[i] == edge);
                assert(adj@[nodes@[i] as int]@[k as int] == (edges@[i], nodes@[i + 1]));
            } else {
                assert(uses_edge(adj@, nodes0, edges0, i));
                let kk = choose|kk: int| 0 <= kk < adj@[nodes0[i] as int]@.len() && #[trigger] adj@[nodes0[i] as int]@[kk] == (edges0[i], nodes0[i + 1]);
                assert(nodes@[i] == nodes0[i] && nodes@[i + 1] == nodes0[i + 1] && edges@[i] == edges0[i]);
                assert(adj@[nodes@[i] as int]@[kk] == (edges@[i], nodes@[i + 1]));
            }
        }
        assert forall|i: int| 0 <= i < nodes@.len() implies (#[trigger] nodes@[i]) < adj@.len() by {
            if i < nodes0.len() {
                assert(nodes@[i] == nodes0[i]);
            }
        }
        assert forall|i: int| 0 <= i < nodes@.len() implies members@[(#[trigger] nodes@[i]) as int] by {
            if i < nodes0.len() {
                assert(nodes@[i] == nodes0[i]);
                assert(seen@[nodes0[i] as int]);
            }
        }
    }
    Route { nodes, edges }
}

/// Records `neighbour` as reached from `u` by `edge`, and queues it.
fn enqueue(
    adj: &Adjacency,
    start: usize,
    members: &Vec<bool>,
    seen: &mut Vec<bool>,
    parent_node: &mut Vec<usize>,
    parent_edge: &mut Vec<usize>,
    depth: &mut Vec<usize>,
    queue: &mut Vec<usize>,
    u: usize,
    k: usize,
    edge: usize,
    neighbour: usize,
)
    requires
        adjacency_well_formed(adj@),
        start < adj.len(),
        members@.len() == adj.len(),
        u < adj.len(),
        k < adj@[u as int]@.len(),
        adj@[u as int]@[k as int] == (edge, neighbour),
        old(seen)@[u as int],
        !old(seen)@[neighbour as int],
        members@[neighbour as int],
        parents_valid(adj@, start, old(seen)@, old(parent_node)@, old(parent_edge)@, old(depth)@),
        forall|v: int| 0 <= v < adj.len() && #[trigger] old(seen)@[v] ==> members@[v],
        forall|v: int| 0 <= v < adj.len() && #[trigger] old(seen)@[v] ==> old(depth)@[v] < old(queue)@.len(),
        forall|v: int| 0 <= v < adj.len() ==> (#[trigger] old(seen)@[v] <==> old(queue)@.contains(v as usize)),
        forall|j: int| 0 <= j < old(queue)@.len() ==> (#[trigger] old(queue)@[j]) < adj.len(),
        forall|i: int, j: int| 0 <= i < j < old(queue)@.len() ==> old(queue)@[i] != old(queue)@[j],
        old(queue)@.len() <= adj.len(),
    ensures
        final(queue)@ == old(queue)@.push(neighbour),
        parents_valid(adj@, start, final(seen)@, final(parent_node)@, final(parent_edge)@, final(depth)@),
        forall|v: int| 0 <= v < adj.len() && #[trigger] final(seen)@[v] ==> members@[v],
        forall|v: int| 0 <= v < adj.len() && #[trigger] final(seen)@[v] ==> final(depth)@[v] < final(queue)@.len(),
        forall|v: int| 0 <= v < adj.len() ==> (#[trigger] final(seen)@[v] <==> final(queue)@.contains(v as usize)),
        forall|j: int| 0 <= j < final(queue)@.len() ==> (#[trigger] final(queue)@[j]) < adj.len(),
        forall|i: int, j: int| 0 <= i < j < final(queue)@.len() ==> final(queue)@[i] != final(queue)@[j],
        final(queue)@.len() <= adj.len(),
        final(seen)@[u as int],
        final(seen)@ == old(seen)@.update(neighbour as int, true),
        final(depth)@ == old(depth)@.update(neighbour as int, (old(depth)@[u as int] + 1) as usize),
{
    let n = adj.len();
    let ghost seen0 = seen@;
    let ghost pn0 = parent_node@;
    let ghost pe0 = parent_edge@;
    let ghost d0 = depth@;
    let ghost q0 = queue@;
    let du = depth[u];
    seen.set(neighbour, true);
    parent_node.set(neighbour, u);
    parent_edge.set(neighbour, edge);
    depth.set(neighbour, du + 1);
    queue.push(neighbour);
    proof {
        assert forall|v: int| 0 <= v < adj@.len() && #[trigger] seen@[v] && v != start implies {
            &&& parent_node@[v] < adj@.len()
            &&& seen@[parent_node@[v] as int]
            &&& depth@[v] == depth@[parent_node@[v] as int] + 1
            &&& exists|kk: int| 0 <= kk < adj@[parent_node@[v] as int]@.len()
                && #[trigger] adj@[parent_node@[v] as int]@[kk] == (parent_edge@[v], v as usize)
        } by {
            if v == neighbour as int {
                assert(adj@[parent_node@[v] as int]@[k as int] == (parent_edge@[v], v as usize));
            } else {
                assert(seen0[v]);
                let kk = choose|kk: int| 0 <= kk < adj@[pn0[v] as int]@.len()
                    && #[trigger] adj@[pn0[v] as int]@[kk] == (pe0[v], v as usize);
                assert(parent_node@[v] == pn0[v]);
                assert(pn0[v] != neighbour) by {
                    assert(seen0[pn0[v] as int]);
                }
                assert(adj@[parent_node@[v] as int]@[kk] == (parent_edge@[v], v as usize));
            }
        }
        assert forall|v: int| 0 <= v < n implies (#[trigger] seen@[v] <==> queue@.contains(v as usize)) by {
            if v != neighbour as int {
                assert(seen@[v] == seen0[v]);
                if q0.contains(v as usize) {
                    let j = choose|j: int| 0 <= j < q0.len() && q0[j] == v as usize;
                    assert(queue@[j] == v as usize);
                }
                if queue@.contains(v as usize) {
                    let j = choose|j: int| 0 <= j < queue@.len() && queue@[j] == v as usize;
                    assert(j < q0.len());
                    assert(q0[j] == v as usize);
                }
            } else {
                assert(queue@[queue@.len() - 1] == neighbour);
            }
        }
        assert forall|i: int, j: int| 0 <= i < j < queue@.len() implies queue@[i] != queue@[j] by {
            if j == queue@.len() - 1 {
                assert(queue@[i] == q0[i]);
                assert(seen0[q0[i] as int]);
            } else {
                assert(queue@[i] == q0[i] && queue@[j] == q0[j]);
            }
        }
        assert(queue@.len() <= n) by {
            assert(seen0.len() == n);
            lemma_distinct_bounded(queue@, n as nat);
        }
        assert forall|v: int| 0 <= v < n && #[trigger] seen@[v] implies depth@[v] < queue@.len() by {
            if v != neighbour as int {
                assert(seen0[v]);
            }
        }
    }
}

/// A closed route through `start`: it leaves `start`, follows edges, and returns to
/// it, visiting no node twice on the way.
pub open spec fn closed_route(adj: Seq<Vec<(usize, usize)>>, nodes: Seq<usize>, edges: Seq<usize>, start: usize) -> bool {
    &&& follows(adj, nodes, edges)
    &&& nodes.len() >= 2
    &&& nodes[0] == start
    &&& nodes[nodes.len() - 1] == start
    &&& distinct(nodes.drop_last())
}

/// A walk from `start` through members, in a set of seen nodes that holds `start`, never
/// leads back to `start` and holds every member an edge of it leads to, stays in the set.
proof fn lemma_walk_stays_seen(adj: Seq<Vec<(usize, usize)>>, seen: Seq<bool>, members: Seq<bool>, start: int, p: Seq<int>, i: int)
    requires
        adjacency_well_formed(adj),
        seen.len() == adj.len(),
        members.len() == adj.len(),
        seen[start],
        forall|x: int, kk: int| 0 <= x < adj.len() && seen[x] && 0 <= kk < adj[x]@.len()
            ==> (#[trigger] adj[x]@[kk]).1 != start && (members[adj[x]@[kk].1 as int] ==> seen[adj[x]@[kk].1 as int]),
        walk_between(adj, p, start, start),
        forall|j: int| 0 <= j < p.len() ==> members[p[j]],
        0 <= i < p.len(),
    ensures
        seen[p[i]],
    decreases i,
{
    if i > 0 {
        lemma_walk_stays_seen(adj, seen, members, start, p, i - 1);
        assert(step(adj, p, i - 1));
        let kk = choose|kk: int| 0 <= kk < adj[p[i - 1]]@.len() && (#[trigger] adj[p[i - 1]]@[kk]).1 == p[i - 1 + 1];
        assert(p[i - 1 + 1] == p[i]);
        assert(members[p[i]]);
    }
}

/// The closed route through `start` that a breadth-first search among `members` meets
/// first: the route to the first node dequeued that has an edge back to `start`,
/// followed by that edge. `None` when no such edge is met.
#[verifier::rlimit(50)]
pub fn closing_route(adj: &Adjacency, start: usize, members: &Vec<bool>) -> (cycle: Option<Route>)
    requires
        adjacency_well_formed(adj@),
        start < adj.len(),
        members@.len() == adj.len(),
        members@[start as int],
    ensures
        cycle matches Some(r) ==> closed_route(adj@, r.nodes@, r.edges@, start)
            && forall|i: int| 0 <= i < r.nodes@.len() ==> members@[(#[trigger] r.nodes@[i]) as int],
        cycle is None ==> forall|p: Seq<int>| #[trigger] walk_between(adj@, p, start as int, start as int) && p.len() > 1
            ==> exists|i: int| 0 <= i < p.len() && !members@[p[i]],
        cycle matches Some(r) ==> forall|p: Seq<int>| #[trigger] walk_between(adj@, p, start as int, start as int) && p.len() > 1
            && (forall|i: int| 0 <= i < p.len() ==> members@[p[i]]) ==> p.len() >= r.nodes@.len(),
{
    let n = adj.len();
    let mut seen: Vec<bool> = Vec::new();
    let mut parent_node: Vec<usize> = Vec::new();
    let mut parent_edge: Vec<usize> = Vec::new();
    let mut depth: Vec<usize> = Vec::new();
    for i in 0..n
        invariant
            seen@.len() == i,
            parent_node@.len() == i,
            parent_edge@.len() == i,
            depth@.len() == i,
            forall|v: int| 0 <= v < i ==> !#[trigger] seen@[v],
            forall|v: int| 0 <= v < i ==> #[trigger] depth@[v] == 0,
    {
        seen.push(false);
        parent_node.push(0);
        parent_edge.push(0);
        depth.push(0);
    }
    seen.set(start, true);
    let mut queue: Vec<usize> = Vec::new();
    queue.push(start);
    proof {
        assert(queue@[0] == start);
        assert forall|v: int| 0 <= v < n implies (#[trigger] seen@[v] <==> queue@.contains(v as usize)) by {
            if queue@.contains(v as usize) {
                let j = choose|j: int| 0 <= j < queue@.len() && queue@[j] == v as usize;
                assert(j == 0);
            }
        }
    }
    let mut head: usize = 0;
    while head < queue.len()
        invariant
            n == adj.len(),
            n == members@.len(),
            adjacency_well_formed(adj@),
            start < n,
            members@[start as int],
            parents_valid(adj@, start, seen@, parent_node@, parent_edge@, depth@),
            forall|v: int| 0 <= v < n && #[trigger] seen@[v] ==> members@[v],
            forall|v: int| 0 <= v < n && #[trigger] seen@[v] ==> depth@[v] < queue@.len(),
            forall|v: int| 0 <= v < n ==> (#[trigger] seen@[v] <==> queue@.contains(v as usize)),
            forall|j: int| 0 <= j < queue@.len() ==> (#[trigger] queue@[j]) < n,
            forall|i: int, j: int| 0 <= i < j < queue@.len() ==> queue@[i] != queue@[j],
            queue@.len() <= n,
            head <= queue@.len(),
            forall|j: int, kk: int| 0 <= j < head && 0 <= kk < adj@[queue@[j] as int]@.len()
                ==> (#[trigger] adj@[queue@[j] as int]@[kk]).1 != start
                    && (members@[adj@[queue@[j] as int]@[kk].1 as int] ==> seen@[adj@[queue@[j] as int]@[kk].1 as int]),
            forall|i: int, j: int| 0 <= i < j < queue@.len() ==> depth@[queue@[i] as int] <= depth@[queue@[j] as int],
            head < queue@.len() ==> forall|j: int| 0 <= j < queue@.len() ==> depth@[queue@[j] as int] <= depth@[queue@[head as int] as int] + 1,
            forall|j: int, kk: int| 0 <= j < head && 0 <= kk < adj@[queue@[j] as int]@.len() && members@[adj@[queue@[j] as int]@[kk].1 as int]
                ==> depth@[(#[trigger] adj@[queue@[j] as int]@[kk]).1 as int] <= depth@[queue@[j] as int] + 1,
        decreases n - head,
    {
        let u = queue[head];
        head += 1;
        let deg = adj[u].len();
        let mut k: usize = 0;
        while k < deg
            invariant
                n == adj.len(),
                n == members@.len(),
                adjacency_well_formed(adj@),
                start < n,
                members@[start as int],
                u < n,
                seen@[u as int],
                deg == adj@[u as int]@.len(),
                k <= deg,
                parents_valid(adj@, start, seen@, parent_node@, parent_edge@, depth@),
                forall|v: int| 0 <= v < n && #[trigger] seen@[v] ==> members@[v],
                forall|v: int| 0 <= v < n && #[trigger] seen@[v] ==> depth@[v] < queue@.len(),
                forall|v: int| 0 <= v < n ==> (#[trigger] seen@[v] <==> queue@.contains(v as usize)),
                forall|j: int| 0 <= j < queue@.len() ==> (#[trigger] queue@[j]) < n,
                forall|i: int, j: int| 0 <= i < j < queue@.len() ==> queue@[i] != queue@[j],
                queue@.len() <= n,
                head <= queue@.len(),
                1 <= head,
                u == queue@[head - 1],
                forall|j: int, kk: int| 0 <= j < head - 1 && 0 <= kk < adj@[queue@[j] as int]@.len()
                    ==> (#[trigger] adj@[queue@[j] as int]@[kk]).1 != start
                        && (members@[adj@[queue@[j] as int]@[kk].1 as int] ==> seen@[adj@[queue@[j] as int]@[kk].1 as int]),
                forall|kk: int| 0 <= kk < k
                    ==> (#[trigger] adj@[u as int]@[kk]).1 != start
                        && (members@[adj@[u as int]@[kk].1 as int] ==> seen@[adj@[u as int]@[kk].1 as int]),
                forall|i: int, j: int| 0 <= i < j < queue@.len() ==> depth@[queue@[i] as int] <= depth@[queue@[j] as int],
                forall|j: int| 0 <= j < queue@.len() ==> depth@[queue@[j] as int] <= depth@[u as int] + 1,
                forall|j: int, kk: int| 0 <= j < head - 1 && 0 <= kk < adj@[queue@[j] as int]@.len() && members@[adj@[queue@[j] as int]@[kk].1 as int]
                    ==> depth@[(#[trigger] adj@[queue@[j] as int]@[kk]).1 as int] <= depth@[queue@[j] as int] + 1,
                forall|kk: int| 0 <= kk < k && members@[adj@[u as int]@[kk].1 as int]
                    ==> depth@[(#[trigger] adj@[u as int]@[kk]).1 as int] <= depth@[u as int] + 1,
            decreases deg - k,
        {
            let (edge, neighbour) = adj[u][k];
            proof { assert(adj@[u as int]@[k as int] == (edge, neighbour)); }
            if neighbour == start {
                let route = close_route(adj, start, u, edge, k, members, &seen, &parent_node, &parent_edge, &depth);
                proof {
                    lemma_processed_expanded_within(adj@, members@, queue@, seen@, depth@, head - 1, depth@[u as int] as int);
                    assert forall|p: Seq<int>| #[trigger] walk_between(adj@, p, start as int, start as int) && p.len() > 1
                        && (forall|i: int| 0 <= i < p.len() ==> members@[p[i]]) implies p.len() >= route.nodes@.len() by {
                        if p.len() - 1 <= depth@[u as int] {
                            let q = p.drop_last();
                            assert forall|i: int| 0 <= i < q.len() - 1 implies #[trigger] step(adj@, q, i) by {
                                assert(step(adj@, p, i));
                                assert(q[i] == p[i] && q[i + 1] == p[i + 1]);
                            }
                            assert forall|i: int| 0 <= i < q.len() implies 0 <= #[trigger] q[i] < adj@.len() by {
                                assert(q[i] == p[i]);
                            }
                            assert forall|i: int| 0 <= i < q.len() implies members@[#[trigger] q[i]] by {
                                assert(q[i] == p[i]);
                            }
                            lemma_short_member_walks_seen(adj@, members@, seen@, depth@, start as int, depth@[u as int] as int, q);
                            let w = p[p.len() - 2];
                            assert(q[q.len() - 1] == w);
                            assert(seen@[w] && depth@[w] <= p.len() - 2);
                            assert(queue@.contains(w as usize));
                            let iw = choose|iw: int| 0 <= iw < queue@.len() && queue@[iw] == w as usize;
                            assert(queue@[iw] as int == w);
                            if iw >= head - 1 {
                                assert(depth@[queue@[head - 1] as int] <= depth@[queue@[iw] as int]);
                            }
                            assert(step(adj@, p, p.len() - 2));
                            let kw = choose|kw: int| 0 <= kw < adj@[p[p.len() - 2]]@.len() && (#[trigger] adj@[p[p.len() - 2]]@[kw]).1 == p[p.len() - 2 + 1];
                            assert(adj@[queue@[iw] as int]@[kw] == adj@[w]@[kw]);
                            assert(adj@[queue@[iw] as int]@[kw].1 != start);
                        }
                    }
                }
                return Some(route);
            }
            if members[neighbour] && !seen[neighbour] {
                let ghost seen0 = seen@;
                let ghost d0 = depth@;
                let ghost q0 = queue@;
                enqueue(adj, start, members, &mut seen, &mut parent_node, &mut parent_edge, &mut depth, &mut queue, u, k, edge, neighbour);
                proof {
                    assert(queue@[queue@.len() - 1] == neighbour);
                    assert(queue@.contains(neighbour));
                    assert forall|v: int| 0 <= v < n && seen0[v] implies #[trigger] seen@[v] by {
                        assert(q0.contains(v as usize));
                        let j = choose|j: int| 0 <= j < q0.len() && q0[j] == v as usize;
                        assert(queue@[j] == v as usize);
                    }
                    assert(queue@[head - 1] == q0[head - 1]);
                    assert forall|j: int, kk: int| 0 <= j < head - 1 && 0 <= kk < adj@[queue@[j] as int]@.len()
                        implies (#[trigger] adj@[queue@[j] as int]@[kk]).1 != start
                            && (members@[adj@[queue@[j] as int]@[kk].1 as int] ==> seen@[adj@[queue@[j] as int]@[kk].1 as int]) by {
                        assert(queue@[j] == q0[j]);
                        if members@[adj@[q0[j] as int]@[kk].1 as int] {
                            assert(seen0[adj@[q0[j] as int]@[kk].1 as int]);
                        }
                    }
                    assert forall|kk: int| 0 <= kk < k + 1
                        implies (#[trigger] adj@[u as int]@[kk]).1 != start
                            && (members@[adj@[u as int]@[kk].1 as int] ==> seen@[adj@[u as int]@[kk].1 as int]) by {
                        if kk < k && members@[adj@[u as int]@[kk].1 as int] {
                            assert(seen0[adj@[u as int]@[kk].1 as int]);
                        }
                    }
                    assert forall|j: int| 0 <= j < q0.len() implies #[trigger] depth@[q0[j] as int] == d0[q0[j] as int] by {
                        assert(seen0[q0[j] as int]);
                    }
                    assert(depth@[u as int] == d0[u as int]);
                    assert forall|i: int, j: int| 0 <= i < j < queue@.len() implies depth@[queue@[i] as int] <= depth@[queue@[j] as int] by {
                        assert(queue@[i] == q0[i]);
                        if j < q0.len() {
                            assert(queue@[j] == q0[j]);
                        }
                    }
                    assert forall|j: int| 0 <= j < queue@.len() implies depth@[queue@[j] as int] <= depth@[u as int] + 1 by {
                        if j < q0.len() {
                            assert(queue@[j] == q0[j]);
                        }
                    }
                    assert forall|j: int, kk: int| 0 <= j < head - 1 && 0 <= kk < adj@[queue@[j] as int]@.len() && members@[adj@[queue@[j] as int]@[kk].1 as int]
                        implies depth@[(#[trigger] adj@[queue@[j] as int]@[kk]).1 as int] <= depth@[queue@[j] as int] + 1 by {
                        assert(queue@[j] == q0[j]);
                        assert(seen0[adj@[q0[j] as int]@[kk].1 as int]);
                    }
                    assert forall|kk: int| 0 <= kk < k + 1 && members@[adj@[u as int]@[kk].1 as int]
                        implies depth@[(#[trigger] adj@[u as int]@[kk]).1 as int] <= depth@[u as int] + 1 by {
                        if kk < k {
                            assert(seen0[adj@[u as int]@[kk].1 as int]);
                        }
                    }
                }
            } else {
                proof {
                    if members@[neighbour as int] {
                        assert(queue@.contains(neighbour));
                        let j = choose|j: int| 0 <= j < queue@.len() && queue@[j] == neighbour;
                        assert(depth@[queue@[j] as int] <= depth@[u as int] + 1);
                    }
                }
            }
            k += 1;
        }
        proof {
            if head < queue@.len() {
                assert(depth@[queue@[head - 1] as int] <= depth@[queue@[head as int] as int]);
            }
        }
    }
    proof {
        assert forall|x: int, kk: int| 0 <= x < n && seen@[x] && 0 <= kk < adj@[x]@.len()
            implies (#[trigger] adj@[x]@[kk]).1 != start && (members@[adj@[x]@[kk].1 as int] ==> seen@[adj@[x]@[kk].1 as int]) by {
            assert(queue@.contains(x as usize));
            let j = choose|j: int| 0 <= j < queue@.len() && queue@[j] == x as usize;
            assert(queue@[j] as int == x);
            assert(adj@[queue@[j] as int]@[kk] == adj@[x]@[kk]);
        }
        assert forall|p: Seq<int>| #[trigger] walk_between(adj@, p, start as int, start as int) && p.len() > 1
            implies exists|i: int| 0 <= i < p.len() && !members@[p[i]] by {
            if forall|i: int| 0 <= i < p.len() ==> members@[p[i]] {
                lemma_walk_stays_seen(adj@, seen@, members@, start as int, p, p.len() - 2);
                assert(step(adj@, p, p.len() - 2));
                let kk = choose|kk: int| 0 <= kk < adj@[p[p.len() - 2]]@.len() && (#[trigger] adj@[p[p.len() - 2]]@[kk]).1 == p[p.len() - 2 + 1];
                assert(adj@[p[p.len() - 2]]@[kk].1 != start);
            }
        }
    }
    None
}

/// A list of distinct positions below `n` holds at most `n` of them.
proof fn lemma_distinct_bounded(s: Seq<usize>, n: nat)
    requires
        forall|i: int| 0 <= i < s.len() ==> (#[trigger] s[i]) < n,
        forall|i: int, j: int| 0 <= i < j < s.len() ==> s[i] != s[j],
    ensures
        s.len() <= n,
{
    let t = s.map_values(|v: usize| v as int);
    assert(t.no_duplicates()) by {
        assert forall|i: int, j: int| 0 <= i < t.len() && 0 <= j < t.len() && i != j implies t[i] != t[j] by {
            if i < j {
                assert(s[i] != s[j]);
            } else {
                assert(s[j] != s[i]);
            }
        }
    }
    t.unique_seq_to_set();
    vstd::set_lib::lemma_int_range(0, n as int);
    let range = vstd::set_lib::set_int_range(0, n as int);
    assert(t.to_set().subset_of(range)) by {
        assert forall|y: int| t.to_set().contains(y) implies range.contains(y) by {
            let i = choose|i: int| 0 <= i < t.len() && t[i] == y;
            assert(s[i] < n);
        }
    }
    vstd::set_lib::lemma_len_subset(t.to_set(), range);
}

/// One route from a source to a destination.
#[derive(Debug, Clone, PartialEq, Eq)]
pub struct Path {
    /// The entities on the route, from the source to the destination, both included.
    pub entities: Vec<EntityRef>,
    /// The edges traversed, in order, each written `source -RELATIONSHIP-> target`.
    pub edges: Vec<String>,
}

/// `p` reports a simple route of the graph from node `f` to node `t`.
pub open spec fn is_route_of(g: Graph, p: Path, f: int, t: int) -> bool {
    exists|nodes: Seq<usize>, edges: Seq<usize>| #[trigger] traces(g, nodes, edges, p.entities@, p.edges@)
        && nodes[0] == f && nodes[nodes.len() - 1] == t && distinct(nodes)
}

/// The entities of a route written one after another, separated by the unit separator:
/// how routes with the same number of hops are ordered.
pub open spec fn joined_entities(entities: Seq<EntityRef>) -> Seq<char>
    decreases entities.len(),
{
    if entities.len() == 0 {
        Seq::empty()
    } else if entities.len() == 1 {
        entities[0].rendering()
    } else {
        joined_entities(entities.drop_last()) + seq!['\u{1f}'] + entities.last().rendering()
    }
}

/// The edge texts of a route joined with ` -> `.
pub open spec fn joined_edges(texts: Seq<String>) -> Seq<char>
    decreases texts.len(),
{
    if texts.len() == 0 {
        Seq::empty()
    } else if texts.len() == 1 {
        texts[0]@
    } else {
        joined_edges(texts.drop_last()) + " -> "@ + texts.last()@
    }
}

/// Writes the entities of a route one after another, separated by the unit separator.
fn join_entities(entities: &Vec<EntityRef>) -> (text: String)
    ensures
        text@ == joined_entities(entities@),
{
    let mut text = String::new();
    for i in 0..entities.len()
        invariant
            text@ == joined_entities(entities@.subrange(0, i as int)),
    {
        let ghost before = entities@.subrange(0, i as int);
        let ghost after = entities@.subrange(0, i + 1);
        proof {
            assert(after.drop_last() =~= before);
        }
        if i > 0 {
            push_char(&mut text, '\u{1f}');
        }
        let rendered = entities[i].render();
        text.append(rendered.as_str());
        proof {
            if i == 0 {
                assert(text@ =~= joined_entities(after));
            } else {
                assert(text@ =~= joined_entities(after));
            }
        }
    }
    assert(entities@.subrange(0, entities@.len() as int) =~= entities@);
    text
}

impl Keyed for Path {
    /// Routes sort by how many hops they take, then by their entities as written.
    open spec fn sort_key(&self, vocabulary: Seq<String>) -> (Seq<char>, int, Seq<char>) {
        (Seq::empty(), self.edges@.len() as int, joined_entities(self.entities@))
    }

    fn precedes(&self, other: &Path, vocabulary: &Vec<String>) -> (before: bool) {
        proof {
            crate::order::lemma_lex_total(Seq::<char>::empty(), Seq::<char>::empty());
        }
        if self.edges.len() < other.edges.len() {
            true
        } else if self.edges.len() > other.edges.len() {
            false
        } else {
            let a = join_entities(&self.entities);
            let b = join_entities(&other.entities);
            match compare_text(a.as_str(), b.as_str()) {
                Placement::Before => true,
                _ => false,
            }
        }
    }
}

impl Path {
    /// How many edges the route traverses.
    pub fn hops(&self) -> (hops: usize)
        ensures
            hops == self.edges@.len(),
    {
        self.edges.len()
    }

    /// The entity the route starts at.
    pub fn source(&self) -> (source: Option<&EntityRef>)
        ensures
            self.entities@.len() == 0 ==> source is None,
            self.entities@.len() > 0 ==> source == Some(&self.entities@[0]),
    {
        if self.entities.len() == 0 { None } else { Some(&self.entities[0]) }
    }

    /// The entity the route ends at.
    pub fn destination(&self) -> (destination: Option<&EntityRef>)
        ensures
            self.entities@.len() == 0 ==> destination is None,
            self.entities@.len() > 0 ==> destination == Some(&self.entities@[self.entities@.len() - 1]),
    {
        if self.entities.len() == 0 { None } else { Some(&self.entities[self.entities.len() - 1]) }
    }

    /// The entities strictly between the source and the destination.
    pub fn intermediates(&self) -> (between: Vec<EntityRef>)
        ensures
            self.entities@.len() <= 2 ==> between@.len() == 0,
            self.entities@.len() > 2 ==> between@ == self.entities@.subrange(1, self.entities@.len() - 1),
    {
        let mut between: Vec<EntityRef> = Vec::new();
        if self.entities.len() <= 2 {
            return between;
        }
        let last = self.entities.len() - 1;
        for i in 1..last
            invariant
                last == self.entities@.len() - 1,
                between@ == self.entities@.subrange(1, i as int),
        {
            between.push(copy_entity(&self.entities[i]));
            assert(between@ =~= self.entities@.subrange(1, i + 1));
        }
        between
    }

    /// The edges as one line, for a report or an error message.
    pub fn render(&self) -> (text: String)
        ensures
            text@ == joined_edges(self.edges@),
    {
        let mut text = String::new();
        for i in 0..self.edges.len()
            invariant
                text@ == joined_edges(self.edges@.subrange(0, i as int)),
        {
            let ghost before = self.edges@.subrange(0, i as int);
            let ghost after = self.edges@.subrange(0, i + 1);
            proof {
                assert(after.drop_last() =~= before);
            }
            if i > 0 {
                text.append(" -> ");
            }
            text.append(self.edges[i].as_str());
            proof {
                assert(text@ =~= joined_edges(after));
            }
        }
        assert(self.edges@.subrange(0, self.edges@.len() as int) =~= self.edges@);
        text
    }

    /// Whether the route names one entity twice.
    pub fn repeats_an_entity(&self) -> (repeats: bool)
        ensures
            repeats == exists|i: int, j: int| 0 <= i < j < self.entities@.len()
                && same_entity(#[trigger] self.entities@[i], #[trigger] self.entities@[j]),
    {
        for j in 0..self.entities.len()
            invariant
                forall|a: int, b: int| 0 <= a < b < j ==> !same_entity(#[trigger] self.entities@[a], #[trigger] self.entities@[b]),
        {
            for i in 0..j
                invariant
                    j < self.entities@.len(),
                    forall|a: int, b: int| 0 <= a < b < j ==> !same_entity(#[trigger] self.entities@[a], #[trigger] self.entities@[b]),
                    forall|a: int| 0 <= a < i ==> !same_entity(#[trigger] self.entities@[a], self.entities@[j as int]),
            {
                if self.entities[i].same_as(&self.entities[j]) {
                    return true;
                }
            }
        }
        false
    }
}

/// Reports a route over positions as entities and edge texts.
fn path_of(graph: &Graph, adj: &Adjacency, route: &Route) -> (path: Path)
    requires
        describes(adj@, *graph),
        follows(adj@, route.nodes@, route.edges@),
        route.edges@.len() >= 1,
    ensures
        traces(*graph, route.nodes@, route.edges@, path.entities@, path.edges@),
{
    let c = trace(graph, adj, &route.nodes, &route.edges);
    Path { entities: c.entities, edges: c.edges }
}

/// The shortest route from one entity to another, found breadth first, or `None`.
///
/// `None` when the two are the same entity, when the depth bound is zero, when either is
/// not a node of the graph, when no route exists within the bounds, and when the search
/// was stopped by its bound on visited entities: use [`all_paths`] and check
/// [`PathSearch::is_inconclusive`] when the difference matters.
pub fn shortest_path(graph: &Graph, from: &EntityRef, to: &EntityRef, limits: Limits) -> (path: Option<Path>)
    ensures
        (same_entity(*from, *to) || limits.max_depth == 0) ==> path is None,
        path matches Some(p) ==> exists|f: int, t: int| #[trigger] located(graph.nodes@, *from, f) && #[trigger] located(graph.nodes@, *to, t)
            && is_route_of(*graph, p, f, t) && 1 <= p.edges@.len() <= limits.max_depth
            && !reaches_within(*graph, Direction::Forward, f, t, p.edges@.len() - 1),
        path is None && limits.max_nodes > graph.nodes@.len() ==> forall|f: int, t: int|
            #[trigger] located(graph.nodes@, *from, f) && #[trigger] located(graph.nodes@, *to, t) && f != t
            ==> !reaches_within(*graph, Direction::Forward, f, t, limits.max_depth as int),
        path is None ==> forall|f: int, t: int|
            #[trigger] located(graph.nodes@, *from, f) && #[trigger] located(graph.nodes@, *to, t) && f != t
            ==> !reaches_within(*graph, Direction::Forward, f, t, limits.max_depth as int)
                || crowded_from(*graph, f, limits.max_depth, limits.max_nodes),
{
    if from.same_as(to) || limits.max_depth == 0 {
        proof {
            if limits.max_depth == 0 {
                assert forall|f: int, t: int| #[trigger] located(graph.nodes@, *from, f) && #[trigger] located(graph.nodes@, *to, t) && f != t
                    implies !reaches_within(*graph, Direction::Forward, f, t, 0) by {
                    if reaches_within(*graph, Direction::Forward, f, t, 0) {
                        let p = choose|p: Seq<int>| #[trigger] node_route(*graph, Direction::Forward, p) && p[0] == f && p[p.len() - 1] == t && p.len() - 1 <= 0;
                    }
                }
            } else {
                assert forall|f: int, t: int| #[trigger] located(graph.nodes@, *from, f) && #[trigger] located(graph.nodes@, *to, t)
                    implies f == t by {
                    lemma_located_unique(graph.nodes@, *from, f, t);
                }
            }
        }
        return None;
    }
    let f = match locate(&graph.nodes, from) {
        Some(f) => f,
        None => return None,
    };
    let t = match locate(&graph.nodes, to) {
        Some(t) => t,
        None => return None,
    };
    let adj = graph.adjacency();
    match shortest_route(&adj, f, t, limits) {
        Some(route) => {
            let path = path_of(graph, &adj, &route);
            proof {
                assert(traces(*graph, route.nodes@, route.edges@, path.entities@, path.edges@));
                assert(is_route_of(*graph, path, f as int, t as int));
                if reaches_within(*graph, Direction::Forward, f as int, t as int, path.edges@.len() - 1) {
                    let p = choose|p: Seq<int>| #[trigger] node_route(*graph, Direction::Forward, p) && p[0] == f && p[p.len() - 1] == t
                        && p.len() - 1 <= path.edges@.len() - 1;
                    lemma_node_route_walks(adj@, *graph, Direction::Forward, p);
                    assert(walk_between(adj@, p, f as int, t as int));
                }
            }
            Some(path)
        },
        None => {
            proof {
                if crowded(adj@, f, limits.max_depth, limits.max_nodes) {
                    lemma_crowded_read(adj@, *graph, f, limits.max_depth, limits.max_nodes);
                }
                assert forall|ff: int, tt: int| #[trigger] located(graph.nodes@, *from, ff) && #[trigger] located(graph.nodes@, *to, tt) && ff != tt
                    implies !reaches_within(*graph, Direction::Forward, ff, tt, limits.max_depth as int)
                        || crowded_from(*graph, ff, limits.max_depth, limits.max_nodes) by {
                    lemma_located_unique(graph.nodes@, *from, ff, f as int);
                    lemma_located_unique(graph.nodes@, *to, tt, t as int);
                    if reaches_within(*graph, Direction::Forward, ff, tt, limits.max_depth as int) && !crowded(adj@, f, limits.max_depth, limits.max_nodes) {
                        let p = choose|p: Seq<int>| #[trigger] node_route(*graph, Direction::Forward, p) && p[0] == ff && p[p.len() - 1] == tt
                            && p.len() - 1 <= limits.max_depth;
                        lemma_node_route_walks(adj@, *graph, Direction::Forward, p);
                        assert(walk_between(adj@, p, f as int, t as int));
                    }
                }
                if limits.max_nodes > graph.nodes@.len() {
                    assert forall|ff: int, tt: int| #[trigger] located(graph.nodes@, *from, ff) && #[trigger] located(graph.nodes@, *to, tt) && ff != tt
                        implies !reaches_within(*graph, Direction::Forward, ff, tt, limits.max_depth as int) by {
                        lemma_located_unique(graph.nodes@, *from, ff, f as int);
                        lemma_located_unique(graph.nodes@, *to, tt, t as int);
                        if reaches_within(*graph, Direction::Forward, ff, tt, limits.max_depth as int) {
                            let p = choose|p: Seq<int>| #[trigger] node_route(*graph, Direction::Forward, p) && p[0] == ff && p[p.len() - 1] == tt
                                && p.len() - 1 <= limits.max_depth;
                            lemma_node_route_walks(adj@, *graph, Direction::Forward, p);
                            assert(walk_between(adj@, p, f as int, t as int));
                        }
                    }
                }
            }
            None
        },
    }
}

/// At least `max_nodes` distinct nodes of the graph lie within `max_depth` hops of node
/// `f`, along the edges.
pub open spec fn crowded_from(g: Graph, f: int, max_depth: usize, max_nodes: usize) -> bool {
    exists|q: Seq<int>| #![trigger q.len()] q.len() >= max_nodes && (forall|i: int, j: int| 0 <= i < j < q.len() ==> #[trigger] q[i] != #[trigger] q[j])
        && forall|i: int| 0 <= i < q.len() ==> #[trigger] reaches_within(g, Direction::Forward, f, q[i], max_depth as int)
}

/// Nodes crowded around a node of an adjacency that describes the graph are crowded
/// around it in the graph.
proof fn lemma_crowded_read(adj: Seq<Vec<(usize, usize)>>, g: Graph, f: usize, max_depth: usize, max_nodes: usize)
    requires
        describes(adj, g),
        crowded(adj, f, max_depth, max_nodes),
    ensures
        crowded_from(g, f as int, max_depth, max_nodes),
{
    let q = choose|q: Seq<usize>| q.len() >= max_nodes && #[trigger] distinct(q)
        && forall|i: int| 0 <= i < q.len() ==> #[trigger] within(adj, f, q[i], max_depth);
    let qi = Seq::new(q.len(), |i: int| q[i] as int);
    assert forall|i: int| 0 <= i < qi.len() implies #[trigger] reaches_within(g, Direction::Forward, f as int, qi[i], max_depth as int) by {
        assert(within(adj, f, q[i], max_depth));
        let (nodes, edges) = choose|nodes: Seq<usize>, edges: Seq<usize>| #[trigger] route_between(adj, nodes, edges, f, q[i]) && edges.len() <= max_depth;
        let p = Seq::new(nodes.len(), |x: int| nodes[x] as int);
        assert forall|x: int| 0 <= x < p.len() implies 0 <= #[trigger] p[x] < g.nodes@.len() by {
            assert(nodes[x] < adj.len());
        }
        assert forall|x: int| 0 <= x < p.len() - 1 implies #[trigger] joined_at(g, Direction::Forward, p, x) by {
            assert(uses_edge(adj, nodes, edges, x));
            let k = choose|k: int| 0 <= k < adj[nodes[x] as int]@.len() && #[trigger] adj[nodes[x] as int]@[k] == (edges[x], nodes[x + 1]);
            assert(nodes[x] < adj.len());
            assert(links(g, edges[x] as int, nodes[x] as int, nodes[x + 1] as int));
            assert(leads(g, Direction::Forward, edges[x] as int, p[x], p[x + 1]));
        }
        assert(node_route(g, Direction::Forward, p));
    }
    assert forall|i: int, j: int| 0 <= i < j < qi.len() implies #[trigger] qi[i] != #[trigger] qi[j] by {
        assert(q[i] != q[j]);
    }
    assert(qi.len() >= max_nodes);
}

/// What a path enumeration produced.
#[derive(Debug, Clone, PartialEq, Eq)]
pub struct PathSearch {
    /// The routes found, shortest first, then by their entities as written.
    pub paths: Vec<Path>,
    /// Whether the search stopped before exhausting what is reachable.
    pub truncated: bool,
    /// Why it stopped, when it did.
    pub truncation_reason: Option<TruncationReason>,
    /// How many candidate edges the search expanded.
    pub explored: usize,
    /// The greatest number of hops any reported route traverses.
    pub deepest: usize,
}

/// `p` is a simple route of the graph from the node of `from` to the node of `to`.
pub open spec fn connects(g: Graph, from: EntityRef, to: EntityRef, p: Path) -> bool {
    exists|f: int, t: int| located(g.nodes@, from, f) && located(g.nodes@, to, t) && #[trigger] is_route_of(g, p, f, t)
}

/// Nodes `nodes` joined by edges `edges` of the graph form a simple route from node `f`
/// to node `t`.
pub open spec fn graph_route(g: Graph, nodes: Seq<usize>, edges: Seq<usize>, f: int, t: int) -> bool {
    &&& nodes.len() == edges.len() + 1
    &&& nodes[0] == f
    &&& nodes[nodes.len() - 1] == t
    &&& distinct(nodes)
    &&& forall|i: int| 0 <= i < edges.len() ==> #[trigger] links(g, edges[i] as int, nodes[i] as int, nodes[i + 1] as int)
}

/// A simple route of the graph is a route of any adjacency that describes it.
proof fn lemma_graph_route_is_route(adj: Seq<Vec<(usize, usize)>>, g: Graph, nodes: Seq<usize>, edges: Seq<usize>, f: int, t: int)
    requires
        describes(adj, g),
        graph_route(g, nodes, edges, f, t),
        0 <= f < g.nodes@.len(),
    ensures
        route_between(adj, nodes, edges, f as usize, t as usize),
{
    assert forall|i: int| 0 <= i < nodes.len() implies (#[trigger] nodes[i]) < adj.len() by {
        if i < edges.len() {
            assert(links(g, edges[i] as int, nodes[i] as int, nodes[i + 1] as int));
        } else if i > 0 {
            let j = i - 1;
            assert(links(g, edges[j] as int, nodes[j] as int, nodes[j + 1] as int));
            assert(j + 1 == i);
        }
    }
    assert forall|i: int| 0 <= i < edges.len() implies #[trigger] uses_edge(adj, nodes, edges, i) by {
        assert(links(g, edges[i] as int, nodes[i] as int, nodes[i + 1] as int));
        let k = choose|k: int| 0 <= k < adj[nodes[i] as int]@.len()
            && #[trigger] adj[nodes[i] as int]@[k] == (edges[i] as int as usize, nodes[i + 1] as int as usize);
        assert(adj[nodes[i] as int]@[k] == (edges[i], nodes[i + 1]));
    }
}

/// Nodes `nodes` joined by edges `edges` of the graph form a simple route leaving node
/// `f`.
pub open spec fn graph_walk_from(g: Graph, nodes: Seq<usize>, edges: Seq<usize>, f: int) -> bool {
    &&& nodes.len() == edges.len() + 1
    &&& nodes[0] == f
    &&& distinct(nodes)
    &&& forall|i: int| 0 <= i < edges.len() ==> #[trigger] links(g, edges[i] as int, nodes[i] as int, nodes[i + 1] as int)
}

/// A simple route of the graph leaving node `f` with `max_depth` hops, none of whose
/// nodes is the node of `to`.
pub open spec fn graph_at_bound(g: Graph, to: EntityRef, nodes: Seq<usize>, edges: Seq<usize>, f: int, max_depth: usize) -> bool {
    &&& graph_walk_from(g, nodes, edges, f)
    &&& edges.len() == max_depth
    &&& forall|i: int| 0 <= i < nodes.len() ==> !located(g.nodes@, to, #[trigger] nodes[i] as int)
}

/// The depth bound stopped a simple route from `from`: it has `max_depth` hops, never
/// passes `to`, and an edge of the graph leads on from where it ends.
pub open spec fn stopped_at_depth(g: Graph, from: EntityRef, to: EntityRef, max_depth: usize) -> bool {
    exists|f: int, nodes: Seq<usize>, edges: Seq<usize>|
        located(g.nodes@, from, f) && #[trigger] graph_at_bound(g, to, nodes, edges, f, max_depth)
            && leads_on(g, Direction::Forward, nodes[nodes.len() - 1] as int)
}

/// What the depth bound cut off in an adjacency that describes the graph is what it
/// stopped in the graph.
proof fn lemma_cut_short_stopped(adj: Seq<Vec<(usize, usize)>>, g: Graph, from: EntityRef, to: EntityRef, f: usize, t: usize, max_depth: usize)
    requires
        describes(adj, g),
        located(g.nodes@, from, f as int),
        located(g.nodes@, to, t as int) || (t == adj.len() && unlocated(g.nodes@, to)),
    ensures
        cut_short(adj, f, t, max_depth) == stopped_at_depth(g, from, to, max_depth),
{
    if cut_short(adj, f, t, max_depth) {
        let (nodes, edges) = choose|nodes: Seq<usize>, edges: Seq<usize>|
            #[trigger] at_bound(adj, nodes, edges, t, max_depth) && nodes[0] == f && adj[nodes[nodes.len() - 1] as int]@.len() > 0;
        assert forall|i: int| 0 <= i < edges.len() implies #[trigger] links(g, edges[i] as int, nodes[i] as int, nodes[i + 1] as int) by {
            assert(uses_edge(adj, nodes, edges, i));
            let k = choose|k: int| 0 <= k < adj[nodes[i] as int]@.len() && #[trigger] adj[nodes[i] as int]@[k] == (edges[i], nodes[i + 1]);
            assert(nodes[i] < adj.len());
        }
        let last = nodes[nodes.len() - 1] as int;
        assert(nodes[nodes.len() - 1] < adj.len());
        lemma_reads_leads_on(adj, g, Direction::Forward, last);
        assert forall|i: int| 0 <= i < nodes.len() implies !located(g.nodes@, to, #[trigger] nodes[i] as int) by {
            if located(g.nodes@, to, nodes[i] as int) {
                if located(g.nodes@, to, t as int) {
                    lemma_located_unique(g.nodes@, to, nodes[i] as int, t as int);
                }
                assert(nodes.contains(t));
            }
        }
        assert(graph_at_bound(g, to, nodes, edges, f as int, max_depth));
    }
    if stopped_at_depth(g, from, to, max_depth) {
        let (ff, nodes, edges) = choose|ff: int, nodes: Seq<usize>, edges: Seq<usize>|
            located(g.nodes@, from, ff) && #[trigger] graph_at_bound(g, to, nodes, edges, ff, max_depth)
                && leads_on(g, Direction::Forward, nodes[nodes.len() - 1] as int);
        lemma_located_unique(g.nodes@, from, ff, f as int);
        assert forall|i: int| 0 <= i < nodes.len() implies (#[trigger] nodes[i]) < adj.len() by {
            if i < edges.len() {
                assert(links(g, edges[i] as int, nodes[i] as int, nodes[i + 1] as int));
            } else if i > 0 {
                let j = i - 1;
                assert(links(g, edges[j] as int, nodes[j] as int, nodes[j + 1] as int));
                assert(j + 1 == i);
            } else {
                assert(nodes[0] == f);
            }
        }
        assert forall|i: int| 0 <= i < edges.len() implies #[trigger] uses_edge(adj, nodes, edges, i) by {
            assert(links(g, edges[i] as int, nodes[i] as int, nodes[i + 1] as int));
            let k = choose|k: int| 0 <= k < adj[nodes[i] as int]@.len()
                && #[trigger] adj[nodes[i] as int]@[k] == (edges[i] as int as usize, nodes[i + 1] as int as usize);
            assert(adj[nodes[i] as int]@[k] == (edges[i], nodes[i + 1]));
        }
        assert(!nodes.contains(t)) by {
            if nodes.contains(t) {
                let i = choose|i: int| 0 <= i < nodes.len() && nodes[i] == t;
                assert(!located(g.nodes@, to, nodes[i] as int));
                assert(nodes[i] < adj.len());
            }
        }
        let last = nodes[nodes.len() - 1] as int;
        assert(nodes[nodes.len() - 1] < adj.len());
        lemma_reads_leads_on(adj, g, Direction::Forward, last);
        assert(at_bound(adj, nodes, edges, t, max_depth));
    }
}

/// No two edges of the graph are written alike.
pub open spec fn texts_distinct(g: Graph) -> bool {
    forall|a: int, b: int| 0 <= a < b < g.edges@.len() ==> edge_text(g.edges@[a]) != edge_text(g.edges@[b])
}

/// What an enumeration of the routes from `from` to `to` reports about the graph.
pub open spec fn paths_report(g: Graph, from: EntityRef, to: EntityRef, limits: Limits, max_paths: usize, search: PathSearch) -> bool {
    &&& same_entity(from, to) ==> search.paths@.len() == 0 && !search.truncated
    &&& !same_entity(from, to) && max_paths == 0 ==> search.paths@.len() == 0 && search.truncated
        && search.truncation_reason == Some(TruncationReason::MaxNodesReached)
    &&& forall|i: int| 0 <= i < search.paths@.len() ==> #[trigger] connects(g, from, to, search.paths@[i])
    &&& forall|i: int| 0 <= i < search.paths@.len() ==> 1 <= (#[trigger] search.paths@[i]).edges@.len() <= limits.max_depth
    &&& forall|i: int| 0 <= i < search.paths@.len() ==> (#[trigger] search.paths@[i]).edges@.len() <= search.deepest
    &&& search.paths@.len() <= max_paths
    &&& search.explored <= limits.max_nodes
    &&& search.truncated <==> search.truncation_reason is Some
    &&& search.truncation_reason == Some(TruncationReason::MaxNodesReached)
        ==> search.paths@.len() >= max_paths || search.explored >= limits.max_nodes
    &&& search.truncation_reason == Some(TruncationReason::MaxDepthReached) ==> stopped_at_depth(g, from, to, limits.max_depth)
    &&& limits.max_depth > 0 && stopped_at_depth(g, from, to, limits.max_depth) ==> search.truncated
    &&& search.truncation_reason != Some(TruncationReason::BoundaryReached)
    &&& search.deepest == 0 || exists|i: int| 0 <= i < search.paths@.len() && (#[trigger] search.paths@[i]).edges@.len() == search.deepest
    &&& texts_distinct(g) ==> forall|i: int, j: int| 0 <= i < j < search.paths@.len() ==> search.paths@[i] != search.paths@[j]
    &&& in_key_order(search.paths@, Seq::<String>::empty())
    &&& !search.truncated ==> forall|f: int, t: int, nodes: Seq<usize>, edges: Seq<usize>|
        #[trigger] located(g.nodes@, from, f) && #[trigger] located(g.nodes@, to, t) && #[trigger] graph_route(g, nodes, edges, f, t)
            && 1 <= edges.len() <= limits.max_depth
        ==> exists|i: int| 0 <= i < search.paths@.len() && #[trigger] traces(g, nodes, edges, search.paths@[i].entities@, search.paths@[i].edges@)
}

/// A bounded enumeration of routes is truncated only where a bound stopped it: the cap
/// on reported routes was reached, the budget of explored edges was spent, or a simple
/// route at the depth bound, never passing the destination, had an edge leading on; and
/// such a route always marks it truncated.
pub proof fn a_path_search_is_truncated_where_a_bound_stopped_it(
    g: Graph,
    from: EntityRef,
    to: EntityRef,
    limits: Limits,
    max_paths: usize,
    search: PathSearch,
)
    requires
        paths_report(g, from, to, limits, max_paths, search),
    ensures
        search.truncated ==> search.paths@.len() >= max_paths || search.explored >= limits.max_nodes
            || stopped_at_depth(g, from, to, limits.max_depth),
        limits.max_depth > 0 && stopped_at_depth(g, from, to, limits.max_depth) ==> search.truncated,
{
    if search.truncated {
        let reason = search.truncation_reason.unwrap();
        assert(search.truncation_reason == Some(reason));
        match reason {
            TruncationReason::MaxDepthReached => {},
            TruncationReason::MaxNodesReached => {},
            TruncationReason::BoundaryReached => {},
        }
    }
}

/// Every simple route from one entity to another, within the default cap on how many
/// are reported.
pub fn all_paths(graph: &Graph, from: &EntityRef, to: &EntityRef, limits: Limits) -> (search: PathSearch)
    ensures
        paths_report(*graph, *from, *to, limits, DEFAULT_MAX_PATHS, search),
{
    all_paths_bounded(graph, from, to, limits, DEFAULT_MAX_PATHS)
}

/// Every simple route from one entity to another, depth first within the bounds and an
/// explicit cap on how many are reported, then ordered shortest first.
///
/// A bound that stopped the search marks it truncated, so a partial list never reads as
/// a complete one, and a route that the depth bound stopped where an edge still leads on
/// marks it truncated too. No route is reported twice. No route is reported when either entity is not a node of the graph or
/// when the depth bound is zero; a search towards an entity that is not a node still
/// spends its bounds, and says so when they stopped it.
pub fn all_paths_bounded(graph: &Graph, from: &EntityRef, to: &EntityRef, limits: Limits, max_paths: usize) -> (search: PathSearch)
    ensures
        paths_report(*graph, *from, *to, limits, max_paths, search),
{
    broadcast use vstd::seq_lib::group_to_multiset_ensures;
    let mut search = PathSearch { paths: Vec::new(), truncated: false, truncation_reason: None, explored: 0, deepest: 0 };
    if from.same_as(to) {
        proof {
            assert forall|f: int, t: int, nodes: Seq<usize>, edges: Seq<usize>|
                #[trigger] located(graph.nodes@, *from, f) && #[trigger] located(graph.nodes@, *to, t) && #[trigger] graph_route(*graph, nodes, edges, f, t)
                    && 1 <= edges.len() <= limits.max_depth
                implies exists|i: int| 0 <= i < search.paths@.len() && #[trigger] traces(*graph, nodes, edges, search.paths@[i].entities@, search.paths@[i].edges@) by {
                assert(located(graph.nodes@, *from, t));
                lemma_located_unique(graph.nodes@, *from, f, t);
                assert(nodes[0] == nodes[nodes.len() - 1]);
            }
        }
        return search;
    }
    if max_paths == 0 {
        search.truncated = true;
        search.truncation_reason = Some(TruncationReason::MaxNodesReached);
        return search;
    }
    if limits.max_depth == 0 {
        return search;
    }
    let f = match locate(&graph.nodes, from) {
        Some(f) => f,
        None => return search,
    };
    let adj = graph.adjacency();
    let t = match locate(&graph.nodes, to) {
        Some(t) => t,
        None => {
            let beyond = adj.len();
            let found = enumerate_routes(&adj, f, beyond, limits, max_paths);
            proof {
                if found.routes@.len() > 0 {
                    let r = found.routes@[0];
                    assert(route_between(adj@, r.nodes@, r.edges@, f, beyond));
                    assert(r.nodes@[r.nodes@.len() - 1] < adj@.len());
                }
                lemma_cut_short_stopped(adj@, *graph, *from, *to, f, beyond, limits.max_depth);
            }
            return PathSearch {
                paths: Vec::new(),
                truncated: found.truncated,
                truncation_reason: found.truncation_reason,
                explored: found.explored,
                deepest: found.deepest,
            };
        },
    };
    let found = enumerate_routes(&adj, f, t, limits, max_paths);
    let mut paths: Vec<Path> = Vec::new();
    for i in 0..found.routes.len()
        invariant
            describes(adj@, *graph),
            search_sound(adj@, f, t, limits, max_paths, found),
            located(graph.nodes@, *from, f as int),
            located(graph.nodes@, *to, t as int),
            paths@.len() == i,
            forall|x: int| 0 <= x < i ==> #[trigger] is_route_of(*graph, paths@[x], f as int, t as int),
            forall|x: int| 0 <= x < i ==> (#[trigger] paths@[x]).edges@.len() == found.routes@[x].edges@.len(),
            forall|x: int| 0 <= x < i ==> traces(*graph, found.routes@[x].nodes@, found.routes@[x].edges@, (#[trigger] paths@[x]).entities@, paths@[x].edges@),
            edges_distinct(found.routes@),
    {
        let route = &found.routes[i];
        proof {
            assert(route_between(adj@, route.nodes@, route.edges@, f, t));
            assert(1 <= route.edges@.len());
        }
        let path = path_of(graph, &adj, route);
        proof {
            assert(traces(*graph, route.nodes@, route.edges@, path.entities@, path.edges@));
            assert(is_route_of(*graph, path, f as int, t as int));
        }
        paths.push(path);
    }
    let ghost unsorted = paths@;
    let empty: Vec<String> = Vec::new();
    let sorted = sort_keyed(paths, &empty);
    let result = PathSearch {
        paths: sorted,
        truncated: found.truncated,
        truncation_reason: found.truncation_reason,
        explored: found.explored,
        deepest: found.deepest,
    };
    proof {
        assert(empty@ =~= Seq::<String>::empty());
        assert forall|i: int| 0 <= i < result.paths@.len() implies
            (#[trigger] is_route_of(*graph, result.paths@[i], f as int, t as int)
            && 1 <= result.paths@[i].edges@.len() <= limits.max_depth
            && result.paths@[i].edges@.len() <= found.deepest) by {
            let p = result.paths@[i];
            assert(result.paths@.contains(p));
            assert(result.paths@.to_multiset().count(p) > 0);
            assert(unsorted.to_multiset().count(p) > 0);
            assert(unsorted.contains(p));
            let x = choose|x: int| 0 <= x < unsorted.len() && unsorted[x] == p;
            assert(is_route_of(*graph, unsorted[x], f as int, t as int));
            assert(unsorted[x].edges@.len() == found.routes@[x].edges@.len());
        }
        lemma_cut_short_stopped(adj@, *graph, *from, *to, f, t, limits.max_depth);
        if texts_distinct(*graph) {
            assert(unsorted.no_duplicates()) by {
                assert forall|x: int, y: int| 0 <= x < unsorted.len() && 0 <= y < unsorted.len() && x != y implies unsorted[x] != unsorted[y] by {
                    let a = if x < y { x } else { y };
                    let b = if x < y { y } else { x };
                    let ea = found.routes@[a].edges@;
                    let eb = found.routes@[b].edges@;
                    assert(ea != eb);
                    assert(traces(*graph, found.routes@[a].nodes@, ea, unsorted[a].entities@, unsorted[a].edges@));
                    assert(traces(*graph, found.routes@[b].nodes@, eb, unsorted[b].entities@, unsorted[b].edges@));
                    if unsorted[a] == unsorted[b] {
                        assert(ea.len() == eb.len());
                        if forall|k: int| 0 <= k < ea.len() ==> ea[k] == eb[k] {
                            assert(ea =~= eb);
                        }
                        let k = choose|k: int| 0 <= k < ea.len() && ea[k] != eb[k];
                        let ta = unsorted[a].edges@;
                        assert(ta[k]@ == edge_text(graph.edges@[ea[k] as int]));
                        assert(unsorted[b].edges@[k]@ == edge_text(graph.edges@[eb[k] as int]));
                        assert(links(*graph, ea[k] as int, found.routes@[a].nodes@[k] as int, found.routes@[a].nodes@[k + 1] as int));
                        assert(links(*graph, eb[k] as int, found.routes@[b].nodes@[k] as int, found.routes@[b].nodes@[k + 1] as int));
                        if ea[k] < eb[k] {
                            assert(edge_text(graph.edges@[ea[k] as int]) != edge_text(graph.edges@[eb[k] as int]));
                        } else {
                            assert(edge_text(graph.edges@[eb[k] as int]) != edge_text(graph.edges@[ea[k] as int]));
                        }
                    }
                }
            }
            unsorted.lemma_multiset_has_no_duplicates();
            assert forall|p: Path| result.paths@.to_multiset().contains(p) implies result.paths@.to_multiset().count(p) == 1 by {
                assert(unsorted.to_multiset().count(p) == result.paths@.to_multiset().count(p));
            }
            result.paths@.lemma_multiset_has_no_duplicates_conv();
        }
        assert(result.paths@.len() == unsorted.len()) by {
            assert(result.paths@.to_multiset().len() == unsorted.to_multiset().len());
        }
        if result.deepest != 0 {
            let x = choose|x: int| 0 <= x < found.routes@.len() && (#[trigger] found.routes@[x]).edges@.len() == found.deepest;
            let p = unsorted[x];
            assert(p.edges@.len() == found.deepest);
            assert(unsorted.contains(p));
            assert(unsorted.to_multiset().count(p) > 0);
            assert(result.paths@.to_multiset().count(p) > 0);
            assert(result.paths@.contains(p));
            let i = choose|i: int| 0 <= i < result.paths@.len() && result.paths@[i] == p;
            assert(result.paths@[i].edges@.len() == result.deepest);
        }
        assert forall|i: int| 0 <= i < result.paths@.len() implies #[trigger] connects(*graph, *from, *to, result.paths@[i]) by {
            assert(is_route_of(*graph, result.paths@[i], f as int, t as int));
        }
        assert forall|i: int| 0 <= i < result.paths@.len() implies 1 <= (#[trigger] result.paths@[i]).edges@.len() <= limits.max_depth by {
            assert(is_route_of(*graph, result.paths@[i], f as int, t as int));
        }
        assert forall|i: int| 0 <= i < result.paths@.len() implies (#[trigger] result.paths@[i]).edges@.len() <= result.deepest by {
            assert(is_route_of(*graph, result.paths@[i], f as int, t as int));
        }
        if !result.truncated {
            assert forall|ff: int, tt: int, nodes: Seq<usize>, edges: Seq<usize>|
                #[trigger] located(graph.nodes@, *from, ff) && #[trigger] located(graph.nodes@, *to, tt) && #[trigger] graph_route(*graph, nodes, edges, ff, tt)
                    && 1 <= edges.len() <= limits.max_depth
                implies exists|i: int| 0 <= i < result.paths@.len() && #[trigger] traces(*graph, nodes, edges, result.paths@[i].entities@, result.paths@[i].edges@) by {
                lemma_located_unique(graph.nodes@, *from, ff, f as int);
                lemma_located_unique(graph.nodes@, *to, tt, t as int);
                lemma_graph_route_is_route(adj@, *graph, nodes, edges, ff, tt);
                assert(route_between(adj@, nodes, edges, f, t));
                let x = choose|x: int| 0 <= x < found.routes@.len() && (#[trigger] found.routes@[x]).nodes@ == nodes && found.routes@[x].edges@ == edges;
                let p = unsorted[x];
                assert(traces(*graph, nodes, edges, p.entities@, p.edges@));
                assert(unsorted.contains(p));
                assert(unsorted.to_multiset().count(p) > 0);
                assert(result.paths@.to_multiset().count(p) > 0);
                assert(result.paths@.contains(p));
                let i = choose|i: int| 0 <= i < result.paths@.len() && result.paths@[i] == p;
                assert(traces(*graph, nodes, edges, result.paths@[i].entities@, result.paths@[i].edges@));
            }
        }
    }
    result
}

/// Every edge text of a route names an edge of the graph whose relationship is `r`.
pub open spec fn route_agrees(edges: Seq<Edge>, texts: Seq<String>, r: Seq<char>) -> bool {
    forall|k: int| 0 <= k < texts.len() ==> relationship_of(edges, (#[trigger] texts[k])@) == Some(r)
}

/// The relationship every edge of every route has, when they all agree.
pub open spec fn uniform_over_routes(edges: Seq<Edge>, paths: Seq<Path>) -> Option<Seq<char>> {
    if paths.len() > 0 && paths[0].edges@.len() > 0 && relationship_of(edges, paths[0].edges@[0]@) is Some
        && forall|i: int| 0 <= i < paths.len() ==> route_agrees(edges, (#[trigger] paths[i]).edges@, relationship_of(edges, paths[0].edges@[0]@)->0) {
        relationship_of(edges, paths[0].edges@[0]@)
    } else {
        None
    }
}

impl PathSearch {
    /// Whether no route was found.
    pub fn is_empty(&self) -> (empty: bool)
        ensures
            empty == (self.paths@.len() == 0),
    {
        self.paths.len() == 0
    }

    /// How many routes were found.
    pub fn len(&self) -> (n: usize)
        ensures
            n == self.paths@.len(),
    {
        self.paths.len()
    }

    /// Whether an empty result is inconclusive rather than a negative finding.
    pub fn is_inconclusive(&self) -> (inconclusive: bool)
        ensures
            inconclusive == self.truncated,
    {
        self.truncated
    }

    /// The shortest route found, if any.
    pub fn shortest(&self) -> (path: Option<&Path>)
        ensures
            self.paths@.len() == 0 ==> path is None,
            self.paths@.len() > 0 ==> path == Some(&self.paths@[0]),
    {
        if self.paths.len() == 0 { None } else { Some(&self.paths[0]) }
    }

    /// The only route found, when there is exactly one; `None` for none and for several,
    /// because "the route" is ambiguous when there are two.
    pub fn only(&self) -> (path: Option<&Path>)
        ensures
            self.paths@.len() != 1 ==> path is None,
            self.paths@.len() == 1 ==> path == Some(&self.paths@[0]),
    {
        if self.paths.len() == 1 { Some(&self.paths[0]) } else { None }
    }

    /// The relationship every edge of every route uses, when they all agree; `None` when
    /// the routes disagree, when a route mixes relationships, when an edge is not in the
    /// graph, or when there are no routes.
    pub fn uniform_relationship(&self, graph: &Graph) -> (relationship: Option<String>)
        ensures
            match relationship {
                Some(r) => uniform_over_routes(graph.edges@, self.paths@) == Some(r@),
                None => uniform_over_routes(graph.edges@, self.paths@) is None,
            },
    {
        if self.paths.len() == 0 || self.paths[0].edges.len() == 0 {
            return None;
        }
        let first = match relationship_for(&graph.edges, self.paths[0].edges[0].as_str()) {
            Some(r) => r,
            None => return None,
        };
        for i in 0..self.paths.len()
            invariant
                self.paths@.len() > 0,
                self.paths@[0].edges@.len() > 0,
                relationship_of(graph.edges@, self.paths@[0].edges@[0]@) == Some(first@),
                forall|x: int| 0 <= x < i ==> route_agrees(graph.edges@, (#[trigger] self.paths@[x]).edges@, first@),
        {
            let texts = &self.paths[i].edges;
            for k in 0..texts.len()
                invariant
                    i < self.paths@.len(),
                    self.paths@.len() > 0,
                    self.paths@[0].edges@.len() > 0,
                    relationship_of(graph.edges@, self.paths@[0].edges@[0]@) == Some(first@),
                    texts == self.paths@[i as int].edges,
                    forall|y: int| 0 <= y < k ==> relationship_of(graph.edges@, (#[trigger] texts@[y])@) == Some(first@),
            {
                match relationship_for(&graph.edges, texts[k].as_str()) {
                    Some(r) => {
                        if !str_equals(r.as_str(), first.as_str()) {
                            proof {
                                assert(relationship_of(graph.edges@, texts@[k as int]@) != Some(first@));
                                assert(!route_agrees(graph.edges@, self.paths@[i as int].edges@, first@));
                                assert(relationship_of(graph.edges@, self.paths@[0].edges@[0]@)->0 == first@);
                            }
                            return None;
                        }
                    },
                    None => {
                        proof {
                            assert(relationship_of(graph.edges@, texts@[k as int]@) != Some(first@));
                            assert(!route_agrees(graph.edges@, self.paths@[i as int].edges@, first@));
                            assert(relationship_of(graph.edges@, self.paths@[0].edges@[0]@)->0 == first@);
                        }
                        return None;
                    },
                }
            }
        }
        Some(first.clone())
    }
}

} // verus!
