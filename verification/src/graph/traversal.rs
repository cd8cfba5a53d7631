//! Bounded traversal: what an entity reaches, and what reaches it.
//!
//! A dependency question walks the edges forwards and an impact question walks them
//! backwards; both are the same breadth-first walk over an adjacency, with one set of
//! bounds and one way of saying the search stopped. A walk that stopped early and one
//! that exhausted the graph both end, so truncation is part of every result.

use vstd::prelude::*;

use crate::graph::topology::{Adjacency, adjacency_well_formed, count_true, reaches, walk_between, is_walk, step, has_edge};
use crate::graph::cycles::{Cycle, traces, node_matches, describes, describes_reversed, find, is_cycle_of, links, locate, located, lemma_located_unique, unlocated, shortest_through, graph_on_cycle, graph_mutually_reachable, graph_is_cyclic};
use crate::graph::edges::{Edge, edge_for, edge_of, edge_text, render};
use crate::graph::graph::Graph;
use crate::graph::nodes::{EntityRef, Node, copy_entity};
use crate::graph::graph::same_entity;
use crate::graph::paths::{distinct, expanded_below, lemma_short_walks_seen};
use crate::order::{is_permutation, lemma_permutation_onto, pair_lt, sort_by_pair, sort_by_text_pair, text_key, text_pair_lt, in_key_order};

verus! {

/// Which way a traversal reads the edges.
#[derive(Debug, Clone, Copy, PartialEq, Eq, Structural)]
pub enum Direction {
    /// Along the edges: from a subject to the entities it depends on.
    Forward,
    /// Against the edges: from an object to the entities that depend on it.
    Reverse,
}

impl Direction {
    /// The stable wire name.
    pub fn as_str(self) -> (s: &'static str)
        ensures
            s@ == (match self {
                Direction::Forward => "forward"@,
                Direction::Reverse => "reverse"@,
            }),
    {
        match self {
            Direction::Forward => "forward",
            Direction::Reverse => "reverse",
        }
    }
}

/// Why a bounded search stopped before exhausting what it could reach.
#[derive(Debug, Clone, Copy, PartialEq, Eq, Structural)]
pub enum TruncationReason {
    /// The depth bound was reached with edges still leading on.
    MaxDepthReached,
    /// The bound on entities or explored edges was reached.
    MaxNodesReached,
    /// The observation boundary was reached.
    BoundaryReached,
}

/// The bounds a traversal runs under.
#[derive(Debug, Clone, Copy, PartialEq, Eq, Structural)]
pub struct Limits {
    /// How many edges a route may traverse.
    pub max_depth: usize,
    /// How many entities a walk may visit, or how many edges a path search may explore.
    pub max_nodes: usize,
}

impl Limits {
    /// Bounds for a search, refusing a zero bound: a search bounded at zero cannot report
    /// anything and would read as a search that found nothing.
    pub fn new(max_depth: usize, max_nodes: usize) -> (limits: Option<Limits>)
        ensures
            limits is Some <==> (max_depth > 0 && max_nodes > 0),
            limits matches Some(l) ==> l.max_depth == max_depth && l.max_nodes == max_nodes,
    {
        if max_depth == 0 || max_nodes == 0 {
            None
        } else {
            Some(Limits { max_depth, max_nodes })
        }
    }
}

/// One node reached by a walk over positions, with how it was reached.
#[derive(Debug, Clone)]
pub struct Step {
    /// The node reached.
    pub node: usize,
    /// How many edges lie between the start and this node.
    pub depth: usize,
    /// The nodes strictly between the start and this one, in traversal order.
    pub path: Vec<usize>,
    /// The edges traversed, in order, by edge position.
    pub edges: Vec<usize>,
}

/// The nodes a step's route visits: the start, the intermediates, the node reached.
pub open spec fn route_of(start: usize, s: Step) -> Seq<usize> {
    seq![start] + s.path@ + seq![s.node]
}

/// Entry `i` of `edges` is an edge leading from `route[i]` to `route[i + 1]`.
pub open spec fn uses_edge(adj: Seq<Vec<(usize, usize)>>, route: Seq<usize>, edges: Seq<usize>, i: int) -> bool {
    exists|k: int|
        0 <= k < adj[route[i] as int]@.len() && #[trigger] adj[route[i] as int]@[k] == (edges[i], route[i + 1])
}

/// `edges` leads along `route`, one edge per hop.
pub open spec fn follows(adj: Seq<Vec<(usize, usize)>>, route: Seq<usize>, edges: Seq<usize>) -> bool {
    &&& route.len() == edges.len() + 1
    &&& forall|i: int| 0 <= i < route.len() ==> (#[trigger] route[i]) < adj.len()
    &&& forall|i: int| 0 <= i < edges.len() ==> #[trigger] uses_edge(adj, route, edges, i)
}

/// A step is a route from `start` of `depth` hops, recorded by its intermediates and
/// its edges.
pub open spec fn step_is_route(adj: Seq<Vec<(usize, usize)>>, start: usize, s: Step) -> bool {
    &&& s.depth >= 1
    &&& s.edges@.len() == s.depth
    &&& s.path@.len() + 1 == s.depth
    &&& follows(adj, route_of(start, s), s.edges@)
}

/// What a bounded walk over positions produced.
pub struct PositionWalk {
    /// What was reached, by depth and then by the rank of the node.
    pub steps: Vec<Step>,
    /// Whether the walk stopped before exhausting what is reachable.
    pub truncated: bool,
    /// Why it stopped, when it did.
    pub truncation_reason: Option<TruncationReason>,
    /// How many nodes were visited, including the start.
    pub nodes_visited: usize,
    /// The greatest depth any step reached.
    pub deepest: usize,
}

/// The node item `j` of a walk's queue stands for: the start first, then each step.
pub open spec fn item_node(start: usize, steps: Seq<Step>, j: int) -> usize {
    if j == 0 { start } else { steps[j - 1].node }
}

/// How far item `j` of a walk's queue lies from the start: none for the start itself.
pub open spec fn item_depth(steps: Seq<Step>, j: int) -> usize {
    if j == 0 { 0 } else { steps[j - 1].depth }
}

/// A breadth-first queue of steps whose first `processed` items have been expanded, and
/// whose later items lie at least `bound` hops out, is expanded below `bound`.
proof fn lemma_walk_expanded(
    adj: Seq<Vec<(usize, usize)>>,
    start: usize,
    steps: Seq<Step>,
    visited: Seq<bool>,
    dmap: Seq<usize>,
    processed: int,
    bound: int,
    max_depth: usize,
)
    requires
        visited.len() == adj.len(),
        dmap.len() == adj.len(),
        start < adj.len(),
        forall|v: int| 0 <= v < adj.len() ==> (#[trigger] visited[v] <==> reached(start, steps, v)),
        dmap[start as int] == 0,
        forall|j: int| 0 <= j < steps.len() ==> dmap[(#[trigger] steps[j]).node as int] == steps[j].depth,
        forall|i: int, j: int| 0 <= i < j <= steps.len() ==> item_depth(steps, i) <= item_depth(steps, j),
        forall|j: int, k: int| 0 <= j < processed && item_depth(steps, j) < max_depth && 0 <= k < adj[item_node(start, steps, j) as int]@.len()
            ==> visited[(#[trigger] adj[item_node(start, steps, j) as int]@[k]).1 as int]
                && dmap[adj[item_node(start, steps, j) as int]@[k].1 as int] <= item_depth(steps, j) + 1,
        0 <= processed <= steps.len() + 1,
        bound <= max_depth,
        processed <= steps.len() ==> item_depth(steps, processed) >= bound,
    ensures
        expanded_below(adj, visited, dmap, bound),
{
    assert forall|x: int, k: int| 0 <= x < adj.len() && visited[x] && dmap[x] < bound && 0 <= k < adj[x]@.len()
        implies visited[(#[trigger] adj[x]@[k]).1 as int] && dmap[adj[x]@[k].1 as int] <= dmap[x] + 1 by {
        let jj: int = if x == start as int {
            0
        } else {
            let j = choose|j: int| 0 <= j < steps.len() && (#[trigger] steps[j]).node == x;
            j + 1
        };
        assert(item_node(start, steps, jj) as int == x);
        assert(item_depth(steps, jj) == dmap[x]);
        if jj >= processed {
            assert(item_depth(steps, processed) <= item_depth(steps, jj));
        }
        assert(adj[item_node(start, steps, jj) as int]@[k] == adj[x]@[k]);
    }
}

/// A node a walk has reached lies no further out than the furthest item of its queue.
proof fn lemma_item_depth_bounds(start: usize, steps: Seq<Step>, dmap: Seq<usize>, v: int, cur: int)
    requires
        reached(start, steps, v),
        dmap[start as int] == 0,
        forall|j: int| 0 <= j < steps.len() ==> dmap[(#[trigger] steps[j]).node as int] == steps[j].depth,
        forall|j: int| 0 <= j <= steps.len() ==> item_depth(steps, j) <= cur + 1,
        cur >= 0,
    ensures
        dmap[v] <= cur + 1,
{
    if v != start as int {
        let j = choose|j: int| 0 <= j < steps.len() && (#[trigger] steps[j]).node == v;
        assert(item_depth(steps, j + 1) == steps[j].depth);
    }
}


/// A copy of a list of positions.
pub fn copy_positions(v: &Vec<usize>) -> (copy: Vec<usize>)
    ensures
        copy@ == v@,
{
    let mut copy: Vec<usize> = Vec::new();
    for i in 0..v.len()
        invariant
            copy@ == v@.subrange(0, i as int),
    {
        copy.push(v[i]);
        assert(copy@ =~= v@.subrange(0, i + 1));
    }
    assert(v@.subrange(0, v@.len() as int) =~= v@);
    copy
}

/// A copy of a step.
pub fn copy_step(s: &Step) -> (copy: Step)
    ensures
        copy.node == s.node,
        copy.depth == s.depth,
        copy.path@ == s.path@,
        copy.edges@ == s.edges@,
{
    Step { node: s.node, depth: s.depth, path: copy_positions(&s.path), edges: copy_positions(&s.edges) }
}

fn positions_contain(v: &Vec<usize>, x: usize) -> (found: bool)
    ensures
        found == v@.contains(x),
{
    for i in 0..v.len()
        invariant
            forall|j: int| 0 <= j < i ==> v@[j] != x,
    {
        if v[i] == x {
            return true;
        }
    }
    false
}


/// `v` is the start or the node of one of `steps`.
pub open spec fn reached(start: usize, steps: Seq<Step>, v: int) -> bool {
    v == start || exists|j: int| 0 <= j < steps.len() && (#[trigger] steps[j]).node == v
}

/// The greater of a bound and one: a walk always visits its start.
pub open spec fn at_least_one(n: usize) -> nat {
    if n == 0 { 1 } else { n as nat }
}

proof fn lemma_count_true_bound_local(s: Seq<bool>)
    ensures
        count_true(s) <= s.len(),
    decreases s.len(),
{
    if s.len() > 0 {
        lemma_count_true_bound_local(s.drop_last());
    }
}

proof fn lemma_count_true_set_local(s: Seq<bool>, v: int)
    requires
        0 <= v < s.len(),
        !s[v],
    ensures
        count_true(s.update(v, true)) == count_true(s) + 1,
    decreases s.len(),
{
    let t = s.update(v, true);
    if v == s.len() - 1 {
        assert(t.drop_last() =~= s.drop_last());
    } else {
        assert(t.drop_last() =~= s.drop_last().update(v, true));
        lemma_count_true_set_local(s.drop_last(), v);
    }
}

proof fn lemma_count_true_zero_local(s: Seq<bool>)
    requires
        forall|v: int| 0 <= v < s.len() ==> !#[trigger] s[v],
    ensures
        count_true(s) == 0,
    decreases s.len(),
{
    if s.len() > 0 {
        lemma_count_true_zero_local(s.drop_last());
    }
}

/// A set of nodes containing `start` and closed under the edges holds every node
/// `start` reaches.
proof fn lemma_closed_holds_reached(adj: Seq<Vec<(usize, usize)>>, marked: Seq<bool>, start: int, p: Seq<int>, i: int)
    requires
        marked.len() == adj.len(),
        adjacency_well_formed(adj),
        is_walk(adj, p),
        p[0] == start,
        marked[start],
        forall|v: int, k: int|
            0 <= v < adj.len() && marked[v] && 0 <= k < adj[v]@.len() ==> marked[(#[trigger] adj[v]@[k]).1 as int],
        0 <= i < p.len(),
    ensures
        marked[p[i]],
    decreases i,
{
    if i > 0 {
        lemma_closed_holds_reached(adj, marked, start, p, i - 1);
        assert(step(adj, p, i - 1));
        let k = choose|k: int| 0 <= k < adj[p[i - 1]]@.len() && (#[trigger] adj[p[i - 1]]@[k]).1 == p[i];
        assert(marked[(adj[p[i - 1]]@[k]).1 as int]);
    }
}

/// Some node the walk holds lies at or beyond the depth bound with an edge leading on
/// from it: the start, when the bound is zero, or the node of a step.
pub open spec fn depth_cut(adj: Seq<Vec<(usize, usize)>>, start: usize, steps: Seq<Step>, max_depth: usize) -> bool {
    ||| max_depth == 0 && adj[start as int]@.len() > 0
    ||| exists|j: int| 0 <= j < steps.len() && (#[trigger] steps[j]).depth >= max_depth && adj[steps[j].node as int]@.len() > 0
}

/// Some node the walk holds lies short of the depth bound with an edge leading on from
/// it.
pub open spec fn open_short_of(adj: Seq<Vec<(usize, usize)>>, start: usize, steps: Seq<Step>, max_depth: usize) -> bool {
    ||| 0 < max_depth && adj[start as int]@.len() > 0
    ||| exists|j: int| 0 <= j < steps.len() && (#[trigger] steps[j]).depth < max_depth && adj[steps[j].node as int]@.len() > 0
}

/// Reordering the steps of a walk changes neither which nodes it holds at which depth.
proof fn lemma_cuts_permuted(
    adj: Seq<Vec<(usize, usize)>>,
    start: usize,
    steps: Seq<Step>,
    sorted: Seq<Step>,
    order: Seq<usize>,
    max_depth: usize,
)
    requires
        is_permutation(order, steps.len()),
        sorted.len() == order.len(),
        forall|a: int| 0 <= a < sorted.len() ==> (#[trigger] sorted[a]).node == steps[order[a] as int].node
            && sorted[a].depth == steps[order[a] as int].depth,
    ensures
        depth_cut(adj, start, sorted, max_depth) == depth_cut(adj, start, steps, max_depth),
        open_short_of(adj, start, sorted, max_depth) == open_short_of(adj, start, steps, max_depth),
{
    if exists|j: int| 0 <= j < steps.len() && (#[trigger] steps[j]).depth >= max_depth && adj[steps[j].node as int]@.len() > 0 {
        let j = choose|j: int| 0 <= j < steps.len() && (#[trigger] steps[j]).depth >= max_depth && adj[steps[j].node as int]@.len() > 0;
        lemma_permutation_onto(order, steps.len(), j);
        let a = choose|a: int| 0 <= a < order.len() && order[a] == j;
        assert(sorted[a].node == steps[j].node);
    }
    if exists|a: int| 0 <= a < sorted.len() && (#[trigger] sorted[a]).depth >= max_depth && adj[sorted[a].node as int]@.len() > 0 {
        let a = choose|a: int| 0 <= a < sorted.len() && (#[trigger] sorted[a]).depth >= max_depth && adj[sorted[a].node as int]@.len() > 0;
        assert(steps[order[a] as int].node == sorted[a].node);
    }
    if exists|j: int| 0 <= j < steps.len() && (#[trigger] steps[j]).depth < max_depth && adj[steps[j].node as int]@.len() > 0 {
        let j = choose|j: int| 0 <= j < steps.len() && (#[trigger] steps[j]).depth < max_depth && adj[steps[j].node as int]@.len() > 0;
        lemma_permutation_onto(order, steps.len(), j);
        let a = choose|a: int| 0 <= a < order.len() && order[a] == j;
        assert(sorted[a].node == steps[j].node);
    }
    if exists|a: int| 0 <= a < sorted.len() && (#[trigger] sorted[a]).depth < max_depth && adj[sorted[a].node as int]@.len() > 0 {
        let a = choose|a: int| 0 <= a < sorted.len() && (#[trigger] sorted[a]).depth < max_depth && adj[sorted[a].node as int]@.len() > 0;
        assert(steps[order[a] as int].node == sorted[a].node);
    }
}

/// Walks from `start` over an adjacency, breadth first, within the bounds.
///
/// A node already visited is not expanded again, so each node is reached once, by a
/// route with no more hops than any route found later. A node at the depth bound with
/// edges leading on, or a walk that has visited as many nodes as it may, marks the walk
/// truncated; a node at the bound with nothing beyond it missed nothing. The steps come
/// back ordered by depth and then by the rank the caller gives each node.
#[verifier::rlimit(40)]
#[verifier::spinoff_prover]
pub fn walk_positions(adj: &Adjacency, start: usize, limits: Limits, ranks: &Vec<usize>) -> (walk: PositionWalk)
    requires
        adjacency_well_formed(adj@),
        start < adj.len(),
        ranks.len() == adj.len(),
    ensures
        forall|j: int| 0 <= j < walk.steps.len() ==> step_is_route(adj@, start, #[trigger] walk.steps@[j]),
        forall|j: int| 0 <= j < walk.steps.len() ==> (#[trigger] walk.steps@[j]).node != start,
        forall|j: int| 0 <= j < walk.steps.len() ==> (#[trigger] walk.steps@[j]).depth <= limits.max_depth,
        forall|i: int, j: int| 0 <= i < j < walk.steps.len() ==> walk.steps@[i].node != walk.steps@[j].node,
        forall|i: int, j: int| 0 <= i < j < walk.steps.len() ==>
            !pair_lt((walk.steps@[j].depth, ranks@[walk.steps@[j].node as int]), (walk.steps@[i].depth, ranks@[walk.steps@[i].node as int])),
        walk.nodes_visited == walk.steps.len() + 1,
        walk.nodes_visited <= at_least_one(limits.max_nodes),
        walk.truncated <==> walk.truncation_reason is Some,
        forall|j: int| 0 <= j < walk.steps.len() ==> (#[trigger] walk.steps@[j]).depth <= walk.deepest,
        walk.deepest == 0 || exists|j: int| 0 <= j < walk.steps.len() && (#[trigger] walk.steps@[j]).depth == walk.deepest,
        !walk.truncated ==> forall|v: int| 0 <= v < adj.len() && #[trigger] reaches(adj@, start as int, v) ==> reached(start, walk.steps@, v),
        forall|j: int, p: Seq<int>| 0 <= j < walk.steps.len() && #[trigger] walk_between(adj@, p, start as int, walk.steps@[j].node as int)
            ==> p.len() - 1 >= walk.steps@[j].depth,
        walk.truncation_reason == Some(TruncationReason::MaxDepthReached) ==> depth_cut(adj@, start, walk.steps@, limits.max_depth),
        walk.truncation_reason == Some(TruncationReason::MaxNodesReached) ==>
            walk.nodes_visited >= limits.max_nodes && open_short_of(adj@, start, walk.steps@, limits.max_depth),
        walk.truncation_reason != Some(TruncationReason::BoundaryReached),
        depth_cut(adj@, start, walk.steps@, limits.max_depth) ==> walk.truncated,
{
    let n = adj.len();
    let mut visited: Vec<bool> = Vec::new();
    for i in 0..n
        invariant
            visited.len() == i,
            forall|v: int| 0 <= v < i ==> !#[trigger] visited@[v],
    {
        visited.push(false);
    }
    proof {
        lemma_count_true_zero_local(visited@);
        lemma_count_true_set_local(visited@, start as int);
    }
    visited.set(start, true);
    let ghost mut dmap: Seq<usize> = Seq::new(n as nat, |i: int| 0usize);
    let mut count: usize = 1;
    let mut steps: Vec<Step> = Vec::new();
    let mut h: usize = 0;
    let mut truncated = false;
    let mut reason: Option<TruncationReason> = None;
    let mut deepest: usize = 0;
    while h <= steps.len()
        invariant
            n == adj.len(),
            adjacency_well_formed(adj@),
            start < n,
            visited.len() == n,
            count == count_true(visited@),
            count == steps.len() + 1,
            h <= steps.len() + 1,
            visited@[start as int],
            forall|v: int| 0 <= v < n ==> (#[trigger] visited@[v] <==> reached(start, steps@, v)),
            forall|j: int| 0 <= j < steps.len() ==> step_is_route(adj@, start, #[trigger] steps@[j]),
            forall|j: int| 0 <= j < steps.len() ==> (#[trigger] steps@[j]).node != start,
            forall|j: int| 0 <= j < steps.len() ==> (#[trigger] steps@[j]).depth <= limits.max_depth,
            forall|j: int, i: int| 0 <= j < steps.len() && 0 <= i < steps@[j].path@.len() ==> visited@[(#[trigger] steps@[j].path@[i]) as int],
            forall|i: int, j: int| 0 <= i < j < steps.len() ==> steps@[i].node != steps@[j].node,
            count <= at_least_one(limits.max_nodes),
            truncated <==> reason is Some,
            forall|j: int| 0 <= j < steps.len() ==> (#[trigger] steps@[j]).depth <= deepest,
            deepest == 0 || exists|j: int| 0 <= j < steps.len() && (#[trigger] steps@[j]).depth == deepest,
            !truncated ==> forall|j: int, k: int|
                0 <= j < h && 0 <= k < adj@[item_node(start, steps@, j) as int]@.len()
                    ==> visited@[(#[trigger] adj@[item_node(start, steps@, j) as int]@[k]).1 as int],
            dmap.len() == n,
            dmap[start as int] == 0,
            forall|j: int| 0 <= j < steps.len() ==> dmap[(#[trigger] steps@[j]).node as int] == steps@[j].depth,
            forall|i: int, j: int| 0 <= i < j <= steps.len() ==> item_depth(steps@, i) <= item_depth(steps@, j),
            h <= steps.len() ==> forall|j: int| 0 <= j <= steps.len() ==> item_depth(steps@, j) <= item_depth(steps@, h as int) + 1,
            count < limits.max_nodes ==> forall|j: int, kk: int|
                0 <= j < h && item_depth(steps@, j) < limits.max_depth && 0 <= kk < adj@[item_node(start, steps@, j) as int]@.len()
                    ==> visited@[(#[trigger] adj@[item_node(start, steps@, j) as int]@[kk]).1 as int]
                        && dmap[adj@[item_node(start, steps@, j) as int]@[kk].1 as int] <= item_depth(steps@, j) + 1,
            forall|j: int, p: Seq<int>| 0 <= j < steps.len() && #[trigger] walk_between(adj@, p, start as int, steps@[j].node as int)
                ==> p.len() - 1 >= steps@[j].depth,
            reason == Some(TruncationReason::MaxDepthReached) ==> depth_cut(adj@, start, steps@, limits.max_depth),
            reason == Some(TruncationReason::MaxNodesReached) ==>
                count >= limits.max_nodes && open_short_of(adj@, start, steps@, limits.max_depth),
            reason != Some(TruncationReason::BoundaryReached),
            forall|j: int| 0 <= j < h && #[trigger] item_depth(steps@, j) >= limits.max_depth
                && adj@[item_node(start, steps@, j) as int]@.len() > 0 ==> truncated,
        decreases n + 1 - h,
    {
        proof {
            lemma_count_true_bound_local(visited@);
        }
        let node: usize;
        let mut queue_path: Vec<usize>;
        let cur_edges: Vec<usize>;
        let cur_depth: usize;
        if h == 0 {
            node = start;
            queue_path = Vec::new();
            cur_edges = Vec::new();
            cur_depth = 0;
            proof {
                assert(follows(adj@, seq![start] + queue_path@, cur_edges@)) by {
                    assert(seq![start] + queue_path@ =~= seq![start]);
                }
            }
        } else {
            let s = &steps[h - 1];
            node = s.node;
            queue_path = copy_positions(&s.path);
            queue_path.push(s.node);
            cur_edges = copy_positions(&s.edges);
            cur_depth = s.depth;
            proof {
                assert(seq![start] + queue_path@ =~= route_of(start, steps@[h - 1]));
            }
        }
        let ghost h0 = h;
        assert(node == item_node(start, steps@, h as int));
        assert(follows(adj@, seq![start] + queue_path@, cur_edges@));
        assert(cur_depth == cur_edges@.len() && cur_depth == queue_path@.len());
        assert((seq![start] + queue_path@)[cur_depth as int] == node);
        assert(forall|i: int| 0 <= i < queue_path@.len() ==> visited@[(#[trigger] queue_path@[i]) as int]) by {
            if h > 0 {
                assert forall|i: int| 0 <= i < queue_path@.len() implies visited@[(#[trigger] queue_path@[i]) as int] by {
                    if i < steps@[h - 1].path@.len() {
                        assert(queue_path@[i] == steps@[h - 1].path@[i]);
                    } else {
                        assert(queue_path@[i] == steps@[h - 1].node);
                        assert(reached(start, steps@, steps@[h - 1].node as int));
                    }
                }
            }
        }
        let deg = adj[node].len();
        assert(cur_depth == item_depth(steps@, h as int));
        proof {
            if h > 0 {
                assert(steps@[h - 1].node == node && steps@[h - 1].depth == cur_depth);
            }
        }
        if cur_depth >= limits.max_depth && deg > 0 {
            truncated = true;
            if reason.is_none() {
                reason = Some(TruncationReason::MaxDepthReached);
            }
            proof {
                assert(depth_cut(adj@, start, steps@, limits.max_depth));
                if h + 1 <= steps.len() {
                    assert(item_depth(steps@, h as int) <= item_depth(steps@, h + 1));
                }
            }
            h += 1;
            continue;
        }
        if count >= limits.max_nodes && deg > 0 {
            truncated = true;
            if reason.is_none() {
                reason = Some(TruncationReason::MaxNodesReached);
            }
            proof {
                assert(open_short_of(adj@, start, steps@, limits.max_depth));
                if h + 1 <= steps.len() {
                    assert(item_depth(steps@, h as int) <= item_depth(steps@, h + 1));
                }
            }
            h += 1;
            continue;
        }
        let ghost steps_at_item = steps@;
        let mut k: usize = 0;
        let mut stop = false;
        while k < deg && !stop
            invariant
                k <= deg,
                stop ==> truncated,
                n == adj.len(),
                adjacency_well_formed(adj@),
                start < n,
                node < n,
                h == h0,
                h <= steps_at_item.len(),
                steps_at_item.len() <= steps.len(),
                forall|j: int| 0 <= j < steps_at_item.len() ==> steps@[j] == steps_at_item[j],
                node == item_node(start, steps@, h as int),
                deg == adj@[node as int]@.len(),
                cur_depth < limits.max_depth || deg == 0,
                follows(adj@, seq![start] + queue_path@, cur_edges@),
                cur_depth == cur_edges@.len(),
                cur_depth == queue_path@.len(),
                (seq![start] + queue_path@)[cur_depth as int] == node,
                forall|i: int| 0 <= i < queue_path@.len() ==> visited@[(#[trigger] queue_path@[i]) as int],
                visited.len() == n,
                count == count_true(visited@),
                count == steps.len() + 1,
                visited@[start as int],
                forall|v: int| 0 <= v < n ==> (#[trigger] visited@[v] <==> reached(start, steps@, v)),
                forall|j: int| 0 <= j < steps.len() ==> step_is_route(adj@, start, #[trigger] steps@[j]),
                forall|j: int| 0 <= j < steps.len() ==> (#[trigger] steps@[j]).node != start,
                forall|j: int| 0 <= j < steps.len() ==> (#[trigger] steps@[j]).depth <= limits.max_depth,
                forall|j: int, i: int| 0 <= j < steps.len() && 0 <= i < steps@[j].path@.len() ==> visited@[(#[trigger] steps@[j].path@[i]) as int],
                forall|i: int, j: int| 0 <= i < j < steps.len() ==> steps@[i].node != steps@[j].node,
                count <= at_least_one(limits.max_nodes),
                truncated <==> reason is Some,
                forall|j: int| 0 <= j < steps.len() ==> (#[trigger] steps@[j]).depth <= deepest,
                deepest == 0 || exists|j: int| 0 <= j < steps.len() && (#[trigger] steps@[j]).depth == deepest,
                !truncated ==> forall|j: int, kk: int|
                    0 <= j < h && 0 <= kk < adj@[item_node(start, steps@, j) as int]@.len()
                        ==> visited@[(#[trigger] adj@[item_node(start, steps@, j) as int]@[kk]).1 as int],
                !truncated ==> forall|kk: int| 0 <= kk < k ==> visited@[(#[trigger] adj@[node as int]@[kk]).1 as int],
                stop ==> count >= limits.max_nodes,
                dmap.len() == n,
                dmap[start as int] == 0,
                forall|j: int| 0 <= j < steps.len() ==> dmap[(#[trigger] steps@[j]).node as int] == steps@[j].depth,
                cur_depth == item_depth(steps@, h as int),
                forall|i: int, j: int| 0 <= i < j <= steps.len() ==> item_depth(steps@, i) <= item_depth(steps@, j),
                forall|j: int| 0 <= j <= steps.len() ==> item_depth(steps@, j) <= cur_depth + 1,
                count < limits.max_nodes ==> forall|j: int, kk: int|
                    0 <= j < h && item_depth(steps@, j) < limits.max_depth && 0 <= kk < adj@[item_node(start, steps@, j) as int]@.len()
                        ==> visited@[(#[trigger] adj@[item_node(start, steps@, j) as int]@[kk]).1 as int]
                            && dmap[adj@[item_node(start, steps@, j) as int]@[kk].1 as int] <= item_depth(steps@, j) + 1,
                count < limits.max_nodes ==> forall|kk: int| 0 <= kk < k
                    ==> visited@[(#[trigger] adj@[node as int]@[kk]).1 as int] && dmap[adj@[node as int]@[kk].1 as int] <= cur_depth + 1,
                forall|j: int, p: Seq<int>| 0 <= j < steps.len() && #[trigger] walk_between(adj@, p, start as int, steps@[j].node as int)
                    ==> p.len() - 1 >= steps@[j].depth,
                reason == Some(TruncationReason::MaxDepthReached) ==> depth_cut(adj@, start, steps@, limits.max_depth),
                reason == Some(TruncationReason::MaxNodesReached) ==>
                    count >= limits.max_nodes && open_short_of(adj@, start, steps@, limits.max_depth),
                reason != Some(TruncationReason::BoundaryReached),
                forall|j: int| 0 <= j < h && #[trigger] item_depth(steps@, j) >= limits.max_depth
                    && adj@[item_node(start, steps@, j) as int]@.len() > 0 ==> truncated,
                h == 0 ==> node == start && cur_depth == 0,
                h > 0 ==> steps@[h - 1].node == node && steps@[h - 1].depth == cur_depth,
            decreases deg - k,
        {
            let (edge, neighbour) = adj[node][k];
            proof {
                assert(adj@[node as int]@[k as int] == (edge, neighbour));
            }
            if neighbour == start || positions_contain(&queue_path, neighbour) {
                proof {
                    if neighbour != start {
                        let i = choose|i: int| 0 <= i < queue_path@.len() && queue_path@[i] == neighbour;
                        assert(visited@[queue_path@[i] as int]);
                    }
                    lemma_item_depth_bounds(start, steps@, dmap, neighbour as int, cur_depth as int);
                }
            } else if visited[neighbour] {
                proof {
                    lemma_item_depth_bounds(start, steps@, dmap, neighbour as int, cur_depth as int);
                }
            } else if count >= limits.max_nodes {
                truncated = true;
                if reason.is_none() {
                    reason = Some(TruncationReason::MaxNodesReached);
                }
                proof {
                    assert(open_short_of(adj@, start, steps@, limits.max_depth));
                }
                stop = true;
            } else {
            let path = copy_positions(&queue_path);
            let mut edges = copy_positions(&cur_edges);
            edges.push(edge);
            let depth = cur_depth + 1;
            if depth > deepest {
                deepest = depth;
            }
            let ghost steps_before = steps@;
            let ghost visited_before = visited@;
            let new_step = Step { node: neighbour, depth, path, edges };
            proof {
                let route = route_of(start, new_step);
                let old_route = seq![start] + queue_path@;
                assert(route =~= old_route.push(neighbour));
                assert(adj@[node as int]@[k as int] == (edge, neighbour));
                assert(neighbour < n);
                assert forall|i: int| 0 <= i < new_step.edges@.len() implies #[trigger] uses_edge(adj@, route, new_step.edges@, i) by {
                    if i < cur_edges@.len() {
                        assert(uses_edge(adj@, old_route, cur_edges@, i));
                        let kk = choose|kk: int| 0 <= kk < adj@[old_route[i] as int]@.len() && #[trigger] adj@[old_route[i] as int]@[kk] == (cur_edges@[i], old_route[i + 1]);
                        assert(route[i] == old_route[i]);
                        assert(route[i + 1] == old_route[i + 1]);
                        assert(adj@[route[i] as int]@[kk] == (new_step.edges@[i], route[i + 1]));
                    } else {
                        assert(route[i] == node);
                        assert(adj@[route[i] as int]@[k as int] == (new_step.edges@[i], route[i + 1]));
                    }
                }
                assert forall|i: int| 0 <= i < route.len() implies (#[trigger] route[i]) < adj@.len() by {
                    if i < old_route.len() {
                        assert(route[i] == old_route[i]);
                    }
                }
                lemma_count_true_set_local(visited@, neighbour as int);
                lemma_walk_expanded(adj@, start, steps@, visited@, dmap, h as int, cur_depth as int, limits.max_depth);
                assert forall|p: Seq<int>| #[trigger] walk_between(adj@, p, start as int, neighbour as int) implies p.len() - 1 >= depth by {
                    if p.len() - 1 <= cur_depth {
                        lemma_short_walks_seen(adj@, visited@, dmap, start as int, cur_depth as int, p);
                        assert(visited@[p[p.len() - 1]]);
                    }
                }
            }
            let ghost dmap_before = dmap;
            visited.set(neighbour, true);
            proof {
                dmap = dmap.update(neighbour as int, depth);
            }
            count += 1;
            steps.push(new_step);
            proof {
                assert forall|j: int| 0 <= j <= steps_before.len() implies #[trigger] item_depth(steps@, j) == item_depth(steps_before, j)
                    && item_node(start, steps@, j) == item_node(start, steps_before, j) by {
                    if j > 0 {
                        assert(steps@[j - 1] == steps_before[j - 1]);
                    }
                }
                assert(item_depth(steps@, steps@.len() as int) == depth);
                assert forall|j: int| 0 <= j < steps.len() implies dmap[(#[trigger] steps@[j]).node as int] == steps@[j].depth by {
                    if j < steps_before.len() {
                        assert(steps@[j] == steps_before[j]);
                        assert(step_is_route(adj@, start, steps_before[j]));
                        let r = route_of(start, steps_before[j]);
                        assert(r[r.len() - 1] == steps_before[j].node);
                        assert(reached(start, steps_before, steps_before[j].node as int));
                        assert(visited_before[steps_before[j].node as int]);
                        assert(steps_before[j].node != neighbour);
                    }
                }
                assert forall|i: int, j: int| 0 <= i < j <= steps.len() implies item_depth(steps@, i) <= item_depth(steps@, j) by {
                    assert(item_depth(steps@, i) == item_depth(steps_before, i));
                    if j < steps.len() {
                        assert(item_depth(steps@, j) == item_depth(steps_before, j));
                    }
                }
                assert forall|j: int| 0 <= j <= steps.len() implies item_depth(steps@, j) <= cur_depth + 1 by {
                    if j < steps.len() {
                        assert(item_depth(steps@, j) == item_depth(steps_before, j));
                    }
                }
                assert(cur_depth == item_depth(steps@, h as int));
                if count < limits.max_nodes {
                    assert forall|j: int, kk: int|
                        0 <= j < h && item_depth(steps@, j) < limits.max_depth && 0 <= kk < adj@[item_node(start, steps@, j) as int]@.len()
                            implies visited@[(#[trigger] adj@[item_node(start, steps@, j) as int]@[kk]).1 as int]
                                && dmap[adj@[item_node(start, steps@, j) as int]@[kk].1 as int] <= item_depth(steps@, j) + 1 by {
                        assert(item_node(start, steps@, j) == item_node(start, steps_before, j));
                        assert(item_depth(steps@, j) == item_depth(steps_before, j));
                        if j > 0 {
                            assert(step_is_route(adj@, start, steps_before[j - 1]));
                            let r = route_of(start, steps_before[j - 1]);
                            assert(r[r.len() - 1] == steps_before[j - 1].node);
                        }
                        assert(item_node(start, steps_before, j) < n);
                        let y = adj@[item_node(start, steps_before, j) as int]@[kk].1 as int;
                        assert(visited_before[y]);
                        assert(y != neighbour as int);
                        assert(dmap[y] == dmap_before[y]);
                    }
                    assert forall|kk: int| 0 <= kk < k + 1
                        implies visited@[(#[trigger] adj@[node as int]@[kk]).1 as int] && dmap[adj@[node as int]@[kk].1 as int] <= cur_depth + 1 by {
                        if kk < k {
                            let y = adj@[node as int]@[kk].1 as int;
                            assert(visited_before[y]);
                        }
                    }
                }
                assert forall|j: int, p: Seq<int>| 0 <= j < steps.len() && #[trigger] walk_between(adj@, p, start as int, steps@[j].node as int)
                    implies p.len() - 1 >= steps@[j].depth by {
                    if j < steps_before.len() {
                        assert(steps@[j] == steps_before[j]);
                    }
                }
                assert(steps@[steps@.len() - 1] == new_step);
                assert forall|j: int| 0 <= j < steps.len() implies step_is_route(adj@, start, #[trigger] steps@[j]) by {
                    if j < steps_before.len() {
                        assert(steps@[j] == steps_before[j]);
                    }
                }
                assert forall|v: int| 0 <= v < n implies (#[trigger] visited@[v] <==> reached(start, steps@, v)) by {
                    if v != neighbour as int {
                        assert(visited@[v] == visited_before[v]);
                        if reached(start, steps_before, v) && v != start as int {
                            let j = choose|j: int| 0 <= j < steps_before.len() && (#[trigger] steps_before[j]).node == v;
                            assert(steps@[j] == steps_before[j]);
                        }
                        if reached(start, steps@, v) && v != start as int {
                            let j = choose|j: int| 0 <= j < steps@.len() && (#[trigger] steps@[j]).node == v;
                            assert(j < steps_before.len());
                            assert(steps@[j] == steps_before[j]);
                        }
                    } else {
                        assert(steps@[steps@.len() - 1].node == v);
                    }
                }
                assert forall|i: int, j: int| 0 <= i < j < steps.len() implies steps@[i].node != steps@[j].node by {
                    if j < steps_before.len() {
                        assert(steps@[i] == steps_before[i] && steps@[j] == steps_before[j]);
                    } else {
                        assert(steps@[i] == steps_before[i]);
                        assert(reached(start, steps_before, steps_before[i].node as int));
                    }
                }
                assert forall|j: int, i: int| 0 <= j < steps.len() && 0 <= i < steps@[j].path@.len() implies visited@[(#[trigger] steps@[j].path@[i]) as int] by {
                    if j < steps_before.len() {
                        assert(steps@[j] == steps_before[j]);
                        assert(visited_before[steps_before[j].path@[i] as int]);
                        assert(step_is_route(adj@, start, steps_before[j]));
                        assert(route_of(start, steps_before[j])[i + 1] == steps_before[j].path@[i]);
                        assert(visited@[steps_before[j].path@[i] as int]);
                    } else {
                        assert(steps@[j].path@[i] == queue_path@[i]);
                        assert(visited_before[queue_path@[i] as int]);
                        assert((seq![start] + queue_path@)[i + 1] == queue_path@[i]);
                        assert(visited@[queue_path@[i] as int]);
                    }
                }
                assert forall|j: int| 0 <= j < steps.len() implies (#[trigger] steps@[j]).depth <= deepest by {
                    if j < steps_before.len() {
                        assert(steps@[j] == steps_before[j]);
                    }
                }
                if deepest != 0 {
                    if deepest == depth {
                        assert(steps@[steps@.len() - 1].depth == deepest);
                    } else {
                        let j = choose|j: int| 0 <= j < steps_before.len() && (#[trigger] steps_before[j]).depth == deepest;
                        assert(steps@[j] == steps_before[j]);
                    }
                }
                assert forall|j: int| 0 <= j < steps_at_item.len() implies steps@[j] == steps_at_item[j] by {
                    assert(steps@[j] == steps_before[j]);
                }
                if depth_cut(adj@, start, steps_before, limits.max_depth) && !(limits.max_depth == 0 && adj@[start as int]@.len() > 0) {
                    let j = choose|j: int| 0 <= j < steps_before.len() && (#[trigger] steps_before[j]).depth >= limits.max_depth
                        && adj@[steps_before[j].node as int]@.len() > 0;
                    assert(steps@[j] == steps_before[j]);
                }
                if open_short_of(adj@, start, steps_before, limits.max_depth) && !(0 < limits.max_depth && adj@[start as int]@.len() > 0) {
                    let j = choose|j: int| 0 <= j < steps_before.len() && (#[trigger] steps_before[j]).depth < limits.max_depth
                        && adj@[steps_before[j].node as int]@.len() > 0;
                    assert(steps@[j] == steps_before[j]);
                }
                if h > 0 {
                    assert(steps@[h - 1] == steps_before[h - 1]);
                }
                assert forall|j: int| 0 <= j < steps.len() implies (#[trigger] steps@[j]).node != start by {
                    if j < steps_before.len() {
                        assert(steps@[j] == steps_before[j]);
                    }
                }
                assert forall|j: int| 0 <= j < steps.len() implies (#[trigger] steps@[j]).depth <= limits.max_depth by {
                    if j < steps_before.len() {
                        assert(steps@[j] == steps_before[j]);
                    }
                }
                if !truncated {
                    assert forall|j: int, kk: int|
                        0 <= j < h && 0 <= kk < adj@[item_node(start, steps@, j) as int]@.len()
                            implies visited@[(#[trigger] adj@[item_node(start, steps@, j) as int]@[kk]).1 as int] by {
                        if j > 0 {
                            assert(steps@[j - 1] == steps_before[j - 1]);
                            assert(step_is_route(adj@, start, steps_before[j - 1]));
                            let r = route_of(start, steps_before[j - 1]);
                            assert(r[r.len() - 1] == steps_before[j - 1].node);
                        }
                        assert(item_node(start, steps_before, j) < n);
                        assert(item_node(start, steps@, j) == item_node(start, steps_before, j));
                        assert(visited_before[adj@[item_node(start, steps_before, j) as int]@[kk].1 as int]);
                        assert(visited@[adj@[item_node(start, steps_before, j) as int]@[kk].1 as int]);
                    }
                }
            }
            }
            k += 1;
        }
        proof {
            if !truncated {
                assert forall|j: int, kk: int|
                    0 <= j < h + 1 && 0 <= kk < adj@[item_node(start, steps@, j) as int]@.len()
                        implies visited@[(#[trigger] adj@[item_node(start, steps@, j) as int]@[kk]).1 as int] by {
                    if j == h {
                        assert(item_node(start, steps@, j) == node);
                    }
                }
            }
            if count < limits.max_nodes {
                assert forall|j: int, kk: int|
                    0 <= j < h + 1 && item_depth(steps@, j) < limits.max_depth && 0 <= kk < adj@[item_node(start, steps@, j) as int]@.len()
                        implies visited@[(#[trigger] adj@[item_node(start, steps@, j) as int]@[kk]).1 as int]
                            && dmap[adj@[item_node(start, steps@, j) as int]@[kk].1 as int] <= item_depth(steps@, j) + 1 by {
                    if j == h {
                        assert(item_node(start, steps@, j) == node);
                    }
                }
            }
            if h + 1 <= steps.len() {
                assert(item_depth(steps@, h as int) <= item_depth(steps@, h + 1));
            }
        }
        h += 1;
    }
    proof {
        if !truncated {
            assert forall|v: int| 0 <= v < adj.len() && #[trigger] reaches(adj@, start as int, v) implies reached(start, steps@, v) by {
                assert forall|x: int, k: int|
                    0 <= x < adj@.len() && visited@[x] && 0 <= k < adj@[x]@.len() implies visited@[(#[trigger] adj@[x]@[k]).1 as int] by {
                    assert(reached(start, steps@, x));
                    if x == start as int {
                        assert(item_node(start, steps@, 0) == start);
                    } else {
                        let j = choose|j: int| 0 <= j < steps@.len() && (#[trigger] steps@[j]).node == x;
                        assert(item_node(start, steps@, j + 1) == x);
                    }
                }
                let p = choose|p: Seq<int>| walk_between(adj@, p, start as int, v);
                lemma_closed_holds_reached(adj@, visited@, start as int, p, p.len() - 1);
            }
        }
    }
    proof {
        assert forall|i: int| 0 <= i < steps.len() implies (#[trigger] steps@[i]).node < adj.len() by {
            assert(step_is_route(adj@, start, steps@[i]));
            let r = route_of(start, steps@[i]);
            assert(r[r.len() - 1] == steps@[i].node);
        }
    }
    let mut keys: Vec<(usize, usize)> = Vec::new();
    for j in 0..steps.len()
        invariant
            ranks.len() == adj.len(),
            forall|i: int| 0 <= i < steps.len() ==> (#[trigger] steps@[i]).node < adj.len(),
            keys@.len() == j,
            forall|i: int| 0 <= i < j ==> #[trigger] keys@[i] == (steps@[i].depth, ranks@[steps@[i].node as int]),
    {
        keys.push((steps[j].depth, ranks[steps[j].node]));
    }
    let order = sort_by_pair(&keys);
    let mut sorted: Vec<Step> = Vec::new();
    for i in 0..order.len()
        invariant
            is_permutation(order@, steps@.len()),
            keys@.len() == steps@.len(),
            sorted@.len() == i,
            forall|a: int| 0 <= a < i ==> (#[trigger] sorted@[a]).node == steps@[order@[a] as int].node
                && sorted@[a].depth == steps@[order@[a] as int].depth
                && sorted@[a].path@ == steps@[order@[a] as int].path@
                && sorted@[a].edges@ == steps@[order@[a] as int].edges@,
    {
        sorted.push(copy_step(&steps[order[i]]));
    }
    proof {
        if !truncated {
            assert forall|v: int| 0 <= v < adj.len() && #[trigger] reaches(adj@, start as int, v) implies reached(start, sorted@, v) by {
                if v != start as int {
                    assert(reached(start, steps@, v));
                    let j = choose|j: int| 0 <= j < steps@.len() && (#[trigger] steps@[j]).node == v;
                    lemma_permutation_onto(order@, steps@.len(), j);
                    let a = choose|a: int| 0 <= a < order@.len() && order@[a] == j;
                    assert(sorted@[a].node == v);
                }
            }
        }
        assert forall|j: int| 0 <= j < sorted.len() implies step_is_route(adj@, start, #[trigger] sorted@[j]) by {
            let o = order@[j] as int;
            assert(step_is_route(adj@, start, steps@[o]));
            assert(route_of(start, sorted@[j]) =~= route_of(start, steps@[o]));
        }
        lemma_cuts_permuted(adj@, start, steps@, sorted@, order@, limits.max_depth);
        if depth_cut(adj@, start, steps@, limits.max_depth) {
            if !(limits.max_depth == 0 && adj@[start as int]@.len() > 0) {
                let j = choose|j: int| 0 <= j < steps@.len() && (#[trigger] steps@[j]).depth >= limits.max_depth
                    && adj@[steps@[j].node as int]@.len() > 0;
                assert(item_depth(steps@, j + 1) >= limits.max_depth);
            } else {
                assert(item_depth(steps@, 0) >= limits.max_depth);
            }
        }
    }
    let mut deepest: usize = 0;
    let mut j: usize = 0;
    while j < sorted.len()
        invariant
            j <= sorted.len(),
            forall|i: int| 0 <= i < j ==> (#[trigger] sorted@[i]).depth <= deepest,
            deepest == 0 || exists|i: int| 0 <= i < j && (#[trigger] sorted@[i]).depth == deepest,
        decreases sorted.len() - j,
    {
        if sorted[j].depth > deepest {
            deepest = sorted[j].depth;
            assert(sorted@[j as int].depth == deepest);
        }
        j += 1;
    }
    let walk = PositionWalk {
        steps: sorted,
        truncated,
        truncation_reason: reason,
        nodes_visited: count,
        deepest,
    };
    proof {
        if deepest != 0 {
            let i = choose|i: int| 0 <= i < j && (#[trigger] sorted@[i]).depth == deepest;
            assert(walk.steps@[i].depth == walk.deepest);
        }
    }
    walk
}


/// Edge `e` of the graph leads from node `u` to node `v` when read in direction `d`.
pub open spec fn leads(g: Graph, d: Direction, e: int, u: int, v: int) -> bool {
    match d {
        Direction::Forward => links(g, e, u, v),
        Direction::Reverse => links(g, e, v, u),
    }
}

/// The entity an edge leads to, read in direction `d`.
pub open spec fn far_end(e: Edge, d: Direction) -> EntityRef {
    match d {
        Direction::Forward => e.target,
        Direction::Reverse => e.source,
    }
}

/// `adj` lists the edges of the graph read in direction `d`.
pub open spec fn reads(adj: Seq<Vec<(usize, usize)>>, g: Graph, d: Direction) -> bool {
    match d {
        Direction::Forward => describes(adj, g),
        Direction::Reverse => describes_reversed(adj, g),
    }
}

/// Some edge of the graph, read in direction `d`, leads from entry `i` of `p` to the next.
pub open spec fn joined_at(g: Graph, d: Direction, p: Seq<int>, i: int) -> bool {
    exists|e: int| #[trigger] leads(g, d, e, p[i], p[i + 1])
}

/// `p` is a non-empty run of nodes of the graph, each joined to the next by an edge read
/// in direction `d`.
pub open spec fn node_route(g: Graph, d: Direction, p: Seq<int>) -> bool {
    &&& p.len() >= 1
    &&& forall|i: int| 0 <= i < p.len() ==> 0 <= #[trigger] p[i] < g.nodes@.len()
    &&& forall|i: int| 0 <= i < p.len() - 1 ==> #[trigger] joined_at(g, d, p, i)
}

/// Node `u` reaches node `v` along the edges read in direction `d` (every node of the
/// graph reaches itself).
pub open spec fn graph_reaches(g: Graph, d: Direction, u: int, v: int) -> bool {
    exists|p: Seq<int>| #[trigger] node_route(g, d, p) && p[0] == u && p[p.len() - 1] == v
}

/// Node `u` reaches node `v` along the edges read in direction `d` in at most `k` hops.
pub open spec fn reaches_within(g: Graph, d: Direction, u: int, v: int, k: int) -> bool {
    exists|p: Seq<int>| #[trigger] node_route(g, d, p) && p[0] == u && p[p.len() - 1] == v && p.len() - 1 <= k
}

/// The other way of reading the edges.
pub open spec fn opposite(d: Direction) -> Direction {
    match d {
        Direction::Forward => Direction::Reverse,
        Direction::Reverse => Direction::Forward,
    }
}

/// A run of nodes joined along the edges, read backwards, is joined against them.
proof fn lemma_reversed_route(g: Graph, d: Direction, p: Seq<int>)
    requires
        node_route(g, d, p),
    ensures
        node_route(g, opposite(d), p.reverse()),
        p.reverse()[0] == p[p.len() - 1],
        p.reverse()[p.len() - 1] == p[0],
{
    let q = p.reverse();
    let n = p.len();
    assert forall|i: int| 0 <= i < q.len() implies 0 <= #[trigger] q[i] < g.nodes@.len() by {
        assert(q[i] == p[n - 1 - i]);
    }
    assert forall|i: int| 0 <= i < q.len() - 1 implies #[trigger] joined_at(g, opposite(d), q, i) by {
        let j = n - 2 - i;
        assert(joined_at(g, d, p, j));
        let e = choose|e: int| #[trigger] leads(g, d, e, p[j], p[j + 1]);
        assert(q[i] == p[j + 1] && q[i + 1] == p[j]);
        assert(leads(g, opposite(d), e, q[i], q[i + 1]));
    }
}

/// Reading the edges backwards mirrors reachability: node `u` reaches node `v` along the
/// edges, in at most `k` hops, exactly when `v` reaches `u` against them in at most `k`
/// hops, so what [`walk`] finds below an entity is what [`walk_reverse`] finds above it,
/// at the same depth.
pub proof fn reverse_reachability_mirrors_forward(g: Graph, u: int, v: int, k: int)
    ensures
        graph_reaches(g, Direction::Forward, u, v) <==> graph_reaches(g, Direction::Reverse, v, u),
        reaches_within(g, Direction::Forward, u, v, k) <==> reaches_within(g, Direction::Reverse, v, u, k),
{
    if reaches_within(g, Direction::Forward, u, v, k) {
        let p = choose|p: Seq<int>| #[trigger] node_route(g, Direction::Forward, p) && p[0] == u && p[p.len() - 1] == v && p.len() - 1 <= k;
        lemma_reversed_route(g, Direction::Forward, p);
        assert(node_route(g, Direction::Reverse, p.reverse()));
    }
    if reaches_within(g, Direction::Reverse, v, u, k) {
        let p = choose|p: Seq<int>| #[trigger] node_route(g, Direction::Reverse, p) && p[0] == v && p[p.len() - 1] == u && p.len() - 1 <= k;
        lemma_reversed_route(g, Direction::Reverse, p);
        assert(node_route(g, Direction::Forward, p.reverse()));
    }
    if graph_reaches(g, Direction::Forward, u, v) {
        let p = choose|p: Seq<int>| #[trigger] node_route(g, Direction::Forward, p) && p[0] == u && p[p.len() - 1] == v;
        lemma_reversed_route(g, Direction::Forward, p);
        assert(node_route(g, Direction::Reverse, p.reverse()));
    }
    if graph_reaches(g, Direction::Reverse, v, u) {
        let p = choose|p: Seq<int>| #[trigger] node_route(g, Direction::Reverse, p) && p[0] == v && p[p.len() - 1] == u;
        lemma_reversed_route(g, Direction::Reverse, p);
        assert(node_route(g, Direction::Forward, p.reverse()));
    }
}

/// A run of nodes joined by edges of the graph is a walk of any adjacency that reads it.
pub(crate) proof fn lemma_node_route_walks(adj: Seq<Vec<(usize, usize)>>, g: Graph, d: Direction, p: Seq<int>)
    requires
        reads(adj, g, d),
        node_route(g, d, p),
    ensures
        is_walk(adj, p),
{
    assert forall|i: int| 0 <= i < p.len() - 1 implies #[trigger] step(adj, p, i) by {
        assert(joined_at(g, d, p, i));
        let e = choose|e: int| #[trigger] leads(g, d, e, p[i], p[i + 1]);
        assert(0 <= p[i + 1] < g.nodes@.len());
        assert(g.nodes@.len() == g.nodes.len());
        match d {
            Direction::Forward => {
                assert(links(g, e, p[i], p[i + 1]));
                let k = choose|k: int| 0 <= k < adj[p[i]]@.len() && #[trigger] adj[p[i]]@[k] == (e as usize, p[i + 1] as usize);
                assert(adj[p[i]]@[k].1 == p[i + 1]);
            },
            Direction::Reverse => {
                assert(links(g, e, p[i + 1], p[i]));
                let k = choose|k: int| 0 <= k < adj[p[i]]@.len() && #[trigger] adj[p[i]]@[k] == (e as usize, p[i + 1] as usize);
                assert(adj[p[i]]@[k].1 == p[i + 1]);
            },
        }
    }
}

/// How an entity is ordered among others: by kind, then by how it is written.
pub open spec fn entity_key(e: EntityRef) -> (Seq<char>, Seq<char>) {
    (e.kind@, e.rendering())
}

/// One entity reached by a traversal, with how it was reached.
#[derive(Debug, Clone, PartialEq, Eq)]
pub struct Reach {
    /// The entity reached; never the start.
    pub entity: EntityRef,
    /// How many edges lie between the start and this entity.
    pub depth: usize,
    /// The entities strictly between the start and this one, in traversal order.
    pub path: Vec<EntityRef>,
    /// The edges traversed, in order, each written `source -RELATIONSHIP-> target`.
    pub edges: Vec<String>,
}

/// `r` reports the route over node positions `nodes`, starting at node `s`, taken by
/// edge positions `edges` read in direction `d`.
pub open spec fn hops(g: Graph, d: Direction, s: int, nodes: Seq<usize>, edges: Seq<usize>, r: Reach) -> bool {
    &&& r.depth >= 1
    &&& edges.len() == r.depth
    &&& nodes.len() == r.depth + 1
    &&& nodes[0] == s
    &&& r.path@.len() + 1 == r.depth
    &&& r.edges@.len() == r.depth
    &&& forall|i: int| 0 <= i < edges.len() ==> #[trigger] leads(g, d, edges[i] as int, nodes[i] as int, nodes[i + 1] as int)
    &&& forall|i: int| 0 <= i < edges.len() ==> (#[trigger] r.edges@[i])@ == edge_text(g.edges@[edges[i] as int])
    &&& forall|i: int| 0 <= i < r.path@.len() ==> #[trigger] r.path@[i] == far_end(g.edges@[edges[i] as int], d)
    &&& r.entity == far_end(g.edges@[edges[edges.len() - 1] as int], d)
}

/// `r` is reached from node `s` by a route of the graph read in direction `d`.
pub open spec fn reached_by_route(g: Graph, d: Direction, s: int, r: Reach) -> bool {
    exists|nodes: Seq<usize>, edges: Seq<usize>| #[trigger] hops(g, d, s, nodes, edges, r)
}

/// A copy of the entity an edge leads to.
fn far_entity(e: &Edge, d: Direction) -> (entity: EntityRef)
    ensures
        entity == far_end(*e, d),
{
    match d {
        Direction::Forward => copy_entity(&e.target),
        Direction::Reverse => copy_entity(&e.source),
    }
}

/// An edge listed by an adjacency that reads the graph leads where the list says.
proof fn lemma_read_leads(adj: Seq<Vec<(usize, usize)>>, g: Graph, d: Direction, u: int, k: int)
    requires
        reads(adj, g, d),
        0 <= u < adj.len(),
        0 <= k < adj[u]@.len(),
    ensures
        leads(g, d, adj[u]@[k].0 as int, u, adj[u]@[k].1 as int),
{
    match d {
        Direction::Forward => {
            assert(links(g, (adj[u]@[k]).0 as int, u, adj[u]@[k].1 as int));
        },
        Direction::Reverse => {
            assert(links(g, (adj[u]@[k]).0 as int, adj[u]@[k].1 as int, u));
        },
    }
}

/// The entity an edge leads to is the one its far node stands for.
proof fn lemma_far_located(g: Graph, d: Direction, e: int, u: int, v: int)
    requires
        leads(g, d, e, u, v),
    ensures
        located(g.nodes@, far_end(g.edges@[e], d), v),
        0 <= e < g.edges@.len(),
{
}

/// Reports one step of a walk over positions as entities and edge texts.
fn reach_of(graph: &Graph, adj: &Adjacency, d: Direction, s: usize, step: &Step) -> (r: Reach)
    requires
        reads(adj@, *graph, d),
        step_is_route(adj@, s, *step),
    ensures
        hops(*graph, d, s as int, route_of(s, *step), step.edges@, r),
        r.depth == step.depth,
{
    let ghost route = route_of(s, *step);
    proof {
        assert forall|i: int| 0 <= i < step.edges@.len() implies #[trigger] leads(*graph, d, step.edges@[i] as int, route[i] as int, route[i + 1] as int) by {
            assert(uses_edge(adj@, route, step.edges@, i));
            let k = choose|k: int| 0 <= k < adj@[route[i] as int]@.len() && #[trigger] adj@[route[i] as int]@[k] == (step.edges@[i], route[i + 1]);
            lemma_read_leads(adj@, *graph, d, route[i] as int, k);
        }
    }
    let depth = step.depth;
    let mut path: Vec<EntityRef> = Vec::new();
    let mut texts: Vec<String> = Vec::new();
    for i in 0..depth
        invariant
            depth == step.depth,
            depth >= 1,
            step.edges@.len() == depth,
            forall|x: int| 0 <= x < depth ==> #[trigger] leads(*graph, d, step.edges@[x] as int, route[x] as int, route[x + 1] as int),
            texts@.len() == i,
            path@.len() == (if i == 0 { 0 } else { i - 1 }),
            forall|x: int| 0 <= x < i ==> (#[trigger] texts@[x])@ == edge_text(graph.edges@[step.edges@[x] as int]),
            forall|x: int| 0 <= x < path@.len() ==> #[trigger] path@[x] == far_end(graph.edges@[step.edges@[x] as int], d),
    {
        proof {
            lemma_far_located(*graph, d, step.edges@[i as int] as int, route[i as int] as int, route[i + 1] as int);
        }
        let e = &graph.edges[step.edges[i]];
        texts.push(render(e));
        if i > 0 {
            proof {
                let j: int = i - 1;
                assert(leads(*graph, d, step.edges@[j] as int, route[j] as int, route[j + 1] as int));
                lemma_far_located(*graph, d, step.edges@[j] as int, route[j] as int, route[j + 1] as int);
            }
            let previous = &graph.edges[step.edges[i - 1]];
            path.push(far_entity(previous, d));
        }
    }
    proof {
        let j: int = depth - 1;
        assert(leads(*graph, d, step.edges@[j] as int, route[j] as int, route[j + 1] as int));
        lemma_far_located(*graph, d, step.edges@[j] as int, route[j] as int, route[j + 1] as int);
    }
    let last = &graph.edges[step.edges[depth - 1]];
    let entity = far_entity(last, d);
    let r = Reach { entity, depth, path, edges: texts };
    proof {
        assert(route[0] == s);
        assert(hops(*graph, d, s as int, route, step.edges@, r));
    }
    r
}

/// How a node is ordered among others: by kind, then by identifier.
pub open spec fn node_key(n: Node) -> (Seq<char>, Seq<char>) {
    (n.kind@, n.id@)
}

/// A rank for every node, agreeing with the order of kind and then identifier.
fn node_ranks(graph: &Graph) -> (ranks: Vec<usize>)
    ensures
        ranks@.len() == graph.nodes@.len(),
        forall|a: int, b: int| 0 <= a < graph.nodes@.len() && 0 <= b < graph.nodes@.len()
            && text_pair_lt(node_key(graph.nodes@[a]), node_key(graph.nodes@[b])) ==> #[trigger] ranks@[a] < #[trigger] ranks@[b],
{
    let n = graph.nodes.len();
    let mut keys: Vec<(String, String)> = Vec::new();
    for i in 0..n
        invariant
            n == graph.nodes@.len(),
            keys@.len() == i,
            forall|x: int| 0 <= x < i ==> text_key(#[trigger] keys@[x]) == node_key(graph.nodes@[x]),
    {
        keys.push((graph.nodes[i].kind.clone(), graph.nodes[i].id.clone()));
    }
    let order = sort_by_text_pair(&keys);
    let mut ranks: Vec<usize> = Vec::new();
    for i in 0..n
        invariant
            ranks@.len() == i,
    {
        ranks.push(0);
    }
    for i in 0..n
        invariant
            n == graph.nodes@.len(),
            ranks@.len() == n,
            is_permutation(order@, n as nat),
            forall|p: int| 0 <= p < i ==> #[trigger] ranks@[order@[p] as int] == p,
    {
        ranks.set(order[i], i);
        proof {
            assert forall|p: int| 0 <= p < i + 1 implies #[trigger] ranks@[order@[p] as int] == p by {
                if p < i {
                    assert(order@[p] != order@[i as int]);
                }
            }
        }
    }
    proof {
        assert forall|a: int, b: int| 0 <= a < graph.nodes@.len() && 0 <= b < graph.nodes@.len()
            && text_pair_lt(node_key(graph.nodes@[a]), node_key(graph.nodes@[b])) implies #[trigger] ranks@[a] < #[trigger] ranks@[b] by {
            lemma_permutation_onto(order@, n as nat, a);
            lemma_permutation_onto(order@, n as nat, b);
            let pa = choose|pa: int| 0 <= pa < order@.len() && order@[pa] == a;
            let pb = choose|pb: int| 0 <= pb < order@.len() && order@[pb] == b;
            assert(ranks@[order@[pa] as int] == pa);
            assert(ranks@[order@[pb] as int] == pb);
            crate::order::lemma_text_pair_order(node_key(graph.nodes@[a]), node_key(graph.nodes@[b]));
            assert(text_key(keys@[a]) == node_key(graph.nodes@[a]));
            assert(text_key(keys@[b]) == node_key(graph.nodes@[b]));
            if pb < pa {
                assert(!text_pair_lt(text_key(keys@[order@[pa] as int]), text_key(keys@[order@[pb] as int])));
            }
            assert(pa != pb);
        }
    }
    ranks
}

/// What a bounded traversal produced.
#[derive(Debug, Clone, PartialEq, Eq)]
pub struct Walk {
    /// The entity traversal started from.
    pub start: EntityRef,
    /// Which way it read the edges.
    pub direction: Direction,
    /// The bounds it ran under.
    pub limits: Limits,
    /// What it reached: by depth, then by entity kind and identifier.
    pub entries: Vec<Reach>,
    /// Whether traversal stopped before exhausting what is reachable.
    pub truncated: bool,
    /// Why it stopped, when it did.
    pub truncation_reason: Option<TruncationReason>,
    /// How many entities were visited, including the start.
    pub nodes_visited: usize,
    /// The greatest depth any entry reached.
    pub deepest: usize,
    /// The cycles of the graph every entity of which the walk visited.
    pub cycles: Vec<Cycle>,
}

/// Entity `e` is the start or one of the entities reached.
pub open spec fn visited_entity(start: EntityRef, entries: Seq<Reach>, e: EntityRef) -> bool {
    same_entity(e, start) || exists|j: int| 0 <= j < entries.len() && same_entity(e, #[trigger] entries[j].entity)
}

/// Entity `e` is a node of the graph other than node `s`.
pub open spec fn located_elsewhere(nodes: Seq<Node>, e: EntityRef, s: int) -> bool {
    exists|v: int| v != s && #[trigger] located(nodes, e, v)
}

/// Some edge of the graph, read in direction `d`, leads on from node `u`.
pub open spec fn leads_on(g: Graph, d: Direction, u: int) -> bool {
    exists|e: int, t: int| #[trigger] leads(g, d, e, u, t)
}

/// The entity of `r` is a node with an edge, read in direction `d`, leading on from it.
pub open spec fn entry_leads_on(g: Graph, d: Direction, r: Reach) -> bool {
    exists|v: int| #[trigger] located(g.nodes@, r.entity, v) && leads_on(g, d, v)
}

/// A walk from node `s` that holds `entries` holds a node at or beyond the depth bound
/// with an edge leading on from it: what the bound cut off.
pub open spec fn cut_by_depth(g: Graph, d: Direction, s: int, max_depth: usize, entries: Seq<Reach>) -> bool {
    ||| max_depth == 0 && leads_on(g, d, s)
    ||| exists|j: int| 0 <= j < entries.len() && (#[trigger] entries[j]).depth >= max_depth && entry_leads_on(g, d, entries[j])
}

/// A walk from node `s` that holds `entries` holds a node short of the depth bound with
/// an edge leading on from it.
pub open spec fn open_below(g: Graph, d: Direction, s: int, max_depth: usize, entries: Seq<Reach>) -> bool {
    ||| 0 < max_depth && leads_on(g, d, s)
    ||| exists|j: int| 0 <= j < entries.len() && (#[trigger] entries[j]).depth < max_depth && entry_leads_on(g, d, entries[j])
}

/// A node has an edge leading on exactly when its list in an adjacency that reads the
/// graph is not empty.
pub(crate) proof fn lemma_reads_leads_on(adj: Seq<Vec<(usize, usize)>>, g: Graph, d: Direction, v: int)
    requires
        reads(adj, g, d),
        0 <= v < adj.len(),
    ensures
        adj[v]@.len() > 0 <==> leads_on(g, d, v),
{
    if adj[v]@.len() > 0 {
        let (e, t) = adj[v]@[0];
        match d {
            Direction::Forward => {
                assert(links(g, e as int, v, t as int));
                assert(leads(g, d, e as int, v, t as int));
            },
            Direction::Reverse => {
                assert(links(g, e as int, t as int, v));
                assert(leads(g, d, e as int, v, t as int));
            },
        }
    }
    if leads_on(g, d, v) {
        let (e, t) = choose|e: int, t: int| #[trigger] leads(g, d, e, v, t);
        match d {
            Direction::Forward => {
                assert(links(g, e, v, t));
            },
            Direction::Reverse => {
                assert(links(g, e, t, v));
            },
        }
    }
}

/// What a walk over positions cut off is what its entries, read on the graph, cut off.
proof fn lemma_cuts_read(adj: Seq<Vec<(usize, usize)>>, g: Graph, d: Direction, s: usize, steps: Seq<Step>, es: Seq<Reach>, max_depth: usize)
    requires
        reads(adj, g, d),
        s < adj.len(),
        es.len() == steps.len(),
        forall|j: int| 0 <= j < steps.len() ==> (#[trigger] steps[j]).node < adj.len(),
        forall|j: int| 0 <= j < es.len() ==> located(g.nodes@, #[trigger] es[j].entity, steps[j].node as int),
        forall|j: int| 0 <= j < es.len() ==> (#[trigger] es[j]).depth == steps[j].depth,
    ensures
        depth_cut(adj, s, steps, max_depth) == cut_by_depth(g, d, s as int, max_depth, es),
        open_short_of(adj, s, steps, max_depth) == open_below(g, d, s as int, max_depth, es),
{
    lemma_reads_leads_on(adj, g, d, s as int);
    assert forall|j: int| 0 <= j < es.len() implies (entry_leads_on(g, d, #[trigger] es[j]) <==> adj[steps[j].node as int]@.len() > 0) by {
        let v = steps[j].node as int;
        assert(located(g.nodes@, es[j].entity, v));
        lemma_reads_leads_on(adj, g, d, v);
        if entry_leads_on(g, d, es[j]) {
            let x = choose|x: int| #[trigger] located(g.nodes@, es[j].entity, x) && leads_on(g, d, x);
            lemma_located_unique(g.nodes@, es[j].entity, x, v);
        }
    }
    if exists|j: int| 0 <= j < steps.len() && (#[trigger] steps[j]).depth >= max_depth && adj[steps[j].node as int]@.len() > 0 {
        let j = choose|j: int| 0 <= j < steps.len() && (#[trigger] steps[j]).depth >= max_depth && adj[steps[j].node as int]@.len() > 0;
        assert(entry_leads_on(g, d, es[j]));
    }
    if exists|j: int| 0 <= j < es.len() && (#[trigger] es[j]).depth >= max_depth && entry_leads_on(g, d, es[j]) {
        let j = choose|j: int| 0 <= j < es.len() && (#[trigger] es[j]).depth >= max_depth && entry_leads_on(g, d, es[j]);
        assert(steps[j].depth >= max_depth);
    }
    if exists|j: int| 0 <= j < steps.len() && (#[trigger] steps[j]).depth < max_depth && adj[steps[j].node as int]@.len() > 0 {
        let j = choose|j: int| 0 <= j < steps.len() && (#[trigger] steps[j]).depth < max_depth && adj[steps[j].node as int]@.len() > 0;
        assert(entry_leads_on(g, d, es[j]));
    }
    if exists|j: int| 0 <= j < es.len() && (#[trigger] es[j]).depth < max_depth && entry_leads_on(g, d, es[j]) {
        let j = choose|j: int| 0 <= j < es.len() && (#[trigger] es[j]).depth < max_depth && entry_leads_on(g, d, es[j]);
        assert(steps[j].depth < max_depth);
    }
}

/// What a walk from node `s`, the start's node, reports about the graph.
pub open spec fn walk_from(g: Graph, s: int, limits: Limits, d: Direction, w: Walk) -> bool {
    &&& forall|j: int| 0 <= j < w.entries@.len() ==> #[trigger] reached_by_route(g, d, s, w.entries@[j])
    &&& forall|j: int| 0 <= j < w.entries@.len() ==> (#[trigger] w.entries@[j]).depth <= limits.max_depth
    &&& w.nodes_visited <= at_least_one(limits.max_nodes)
    &&& forall|j: int| 0 <= j < w.entries@.len() ==> #[trigger] located_elsewhere(g.nodes@, w.entries@[j].entity, s)
    &&& forall|i: int, j: int| 0 <= i < j < w.entries@.len() ==> w.entries@[i].entity != w.entries@[j].entity
    &&& forall|i: int, j: int| 0 <= i < j < w.entries@.len() ==> w.entries@[i].depth <= w.entries@[j].depth
    &&& forall|i: int, j: int| 0 <= i < j < w.entries@.len() && w.entries@[i].depth == w.entries@[j].depth
        ==> !text_pair_lt(entity_key(w.entries@[j].entity), entity_key(w.entries@[i].entity))
    &&& !w.truncated ==> forall|v: int| 0 <= v < g.nodes@.len() && #[trigger] graph_reaches(g, d, s, v)
        ==> v == s || exists|j: int| 0 <= j < w.entries@.len() && located(g.nodes@, #[trigger] w.entries@[j].entity, v)
    &&& forall|j: int, v: int| 0 <= j < w.entries@.len() && #[trigger] located(g.nodes@, w.entries@[j].entity, v)
        ==> !reaches_within(g, d, s, v, w.entries@[j].depth - 1)
    &&& w.truncation_reason == Some(TruncationReason::MaxDepthReached) ==> cut_by_depth(g, d, s, limits.max_depth, w.entries@)
    &&& w.truncation_reason == Some(TruncationReason::MaxNodesReached)
        ==> w.nodes_visited >= limits.max_nodes && open_below(g, d, s, limits.max_depth, w.entries@)
    &&& cut_by_depth(g, d, s, limits.max_depth, w.entries@) ==> w.truncated
}

/// What a walk from `start` reports about the graph, read in direction `d`.
pub open spec fn walk_reports(g: Graph, start: EntityRef, limits: Limits, d: Direction, w: Walk) -> bool {
    &&& w.start == start
    &&& w.direction == d
    &&& w.limits == limits
    &&& w.truncated <==> w.truncation_reason is Some
    &&& w.truncation_reason != Some(TruncationReason::BoundaryReached)
    &&& w.nodes_visited == w.entries@.len() + 1
    &&& forall|j: int| 0 <= j < w.entries@.len() ==> (#[trigger] w.entries@[j]).depth <= w.deepest
    &&& w.deepest == 0 || exists|j: int| 0 <= j < w.entries@.len() && (#[trigger] w.entries@[j]).depth == w.deepest
    &&& forall|c: int| 0 <= c < w.cycles@.len() ==> is_cycle_of(g, #[trigger] w.cycles@[c])
    &&& forall|c: int, x: int| 0 <= c < w.cycles@.len() && 0 <= x < w.cycles@[c].entities@.len()
        ==> visited_entity(start, w.entries@, #[trigger] w.cycles@[c].entities@[x])
    &&& unlocated(g.nodes@, start) ==> w.entries@.len() == 0 && !w.truncated && w.cycles@.len() == 0
    &&& forall|s: int| #[trigger] located(g.nodes@, start, s) ==> walk_from(g, s, limits, d, w)
    &&& exists|all: Seq<Cycle>| #[trigger] finds(g, all)
        && w.cycles@.map_values(|c: Cycle| cycle_text(c)) == visited_cycles(start, w.entries@, all)
}

/// Whether an entity is the start or one of the entities reached.
fn is_visited(start: &EntityRef, entries: &Vec<Reach>, e: &EntityRef) -> (visited: bool)
    ensures
        visited == visited_entity(*start, entries@, *e),
{
    if e.same_as(start) {
        return true;
    }
    for j in 0..entries.len()
        invariant
            !same_entity(*e, *start),
            forall|x: int| 0 <= x < j ==> !same_entity(*e, #[trigger] entries@[x].entity),
    {
        if e.same_as(&entries[j].entity) {
            return true;
        }
    }
    false
}

/// A copy of a cycle.
fn copy_cycle(c: &Cycle) -> (copy: Cycle)
    ensures
        copy.entities@ == c.entities@,
        copy.edges@ == c.edges@,
{
    let mut entities: Vec<EntityRef> = Vec::new();
    for i in 0..c.entities.len()
        invariant
            entities@ == c.entities@.subrange(0, i as int),
    {
        entities.push(copy_entity(&c.entities[i]));
        assert(entities@ =~= c.entities@.subrange(0, i + 1));
    }
    let mut edges: Vec<String> = Vec::new();
    for i in 0..c.edges.len()
        invariant
            edges@ == c.edges@.subrange(0, i as int),
    {
        edges.push(c.edges[i].clone());
        assert(edges@ =~= c.edges@.subrange(0, i + 1));
    }
    assert(entities@ =~= c.entities@);
    assert(edges@ =~= c.edges@);
    Cycle { entities, edges }
}

/// What [`find`] reports of a graph: cycles of the graph, none in an acyclic graph, in
/// canonical order, one per cyclic component, each starting at its component's first node
/// in graph order and a shortest cycle through it.
pub open spec fn finds(g: Graph, cycles: Seq<Cycle>) -> bool {
    &&& forall|i: int| 0 <= i < cycles.len() ==> is_cycle_of(g, #[trigger] cycles[i])
    &&& !graph_is_cyclic(g) ==> cycles.len() == 0
    &&& in_key_order(cycles, Seq::<String>::empty())
    &&& forall|v: int| 0 <= v < g.nodes@.len() && #[trigger] graph_on_cycle(g, v) ==>
        exists|i: int, u: int| 0 <= i < cycles.len() && #[trigger] located(g.nodes@, cycles[i].entities@[0], u)
            && graph_mutually_reachable(g, u, v)
    &&& forall|i: int, s: int| 0 <= i < cycles.len() && #[trigger] located(g.nodes@, cycles[i].entities@[0], s)
        ==> shortest_through(g, cycles[i], s)
    &&& forall|i: int, s: int, v: int| 0 <= i < cycles.len() && #[trigger] located(g.nodes@, cycles[i].entities@[0], s)
        && 0 <= v < g.nodes@.len() && #[trigger] graph_mutually_reachable(g, s, v) ==> s <= v
    &&& forall|i: int, j: int, s: int, t: int| 0 <= i < cycles.len() && 0 <= j < cycles.len() && i != j
        && #[trigger] located(g.nodes@, cycles[i].entities@[0], s) && #[trigger] located(g.nodes@, cycles[j].entities@[0], t)
        ==> !graph_mutually_reachable(g, s, t)
}

/// Every entity of cycle `c` is the start or one of the entities reached.
pub open spec fn wholly_visited(start: EntityRef, entries: Seq<Reach>, c: Cycle) -> bool {
    forall|x: int| 0 <= x < c.entities@.len() ==> visited_entity(start, entries, #[trigger] c.entities@[x])
}

/// What a cycle holds: its entities and its edge texts.
pub open spec fn cycle_text(c: Cycle) -> (Seq<EntityRef>, Seq<String>) {
    (c.entities@, c.edges@)
}

/// The cycles of `all` that were wholly visited, in order.
pub open spec fn visited_cycles(start: EntityRef, entries: Seq<Reach>, all: Seq<Cycle>) -> Seq<(Seq<EntityRef>, Seq<String>)>
    decreases all.len(),
{
    if all.len() == 0 {
        Seq::empty()
    } else {
        let rest = visited_cycles(start, entries, all.drop_last());
        if wholly_visited(start, entries, all.last()) { rest.push(cycle_text(all.last())) } else { rest }
    }
}

/// The cycles of the graph every entity of which was visited: of the cycles [`find`]
/// reports, exactly those wholly visited, in the order it reports them.
fn cycles_within(graph: &Graph, start: &EntityRef, entries: &Vec<Reach>) -> (cycles: Vec<Cycle>)
    ensures
        exists|all: Seq<Cycle>| #[trigger] finds(*graph, all)
            && cycles@.map_values(|c: Cycle| cycle_text(c)) == visited_cycles(*start, entries@, all),
        forall|c: int| 0 <= c < cycles@.len() ==> is_cycle_of(*graph, #[trigger] cycles@[c]),
        forall|c: int, x: int| 0 <= c < cycles@.len() && 0 <= x < cycles@[c].entities@.len()
            ==> visited_entity(*start, entries@, #[trigger] cycles@[c].entities@[x]),
{
    let all = find(graph);
    proof {
        assert(finds(*graph, all@));
    }
    let mut kept: Vec<Cycle> = Vec::new();
    for c in 0..all.len()
        invariant
            forall|i: int| 0 <= i < all@.len() ==> is_cycle_of(*graph, #[trigger] all@[i]),
            forall|i: int| 0 <= i < kept@.len() ==> is_cycle_of(*graph, #[trigger] kept@[i]),
            forall|i: int, x: int| 0 <= i < kept@.len() && 0 <= x < kept@[i].entities@.len()
                ==> visited_entity(*start, entries@, #[trigger] kept@[i].entities@[x]),
            kept@.map_values(|k: Cycle| cycle_text(k)) == visited_cycles(*start, entries@, all@.take(c as int)),
    {
        let cycle = &all[c];
        let mut inside = true;
        for x in 0..cycle.entities.len()
            invariant
                inside == forall|y: int| 0 <= y < x ==> visited_entity(*start, entries@, #[trigger] cycle.entities@[y]),
        {
            if !is_visited(start, entries, &cycle.entities[x]) {
                inside = false;
            }
        }
        proof {
            assert(all@.take(c + 1).drop_last() =~= all@.take(c as int));
            assert(all@.take(c + 1).last() == all@[c as int]);
            assert(inside == wholly_visited(*start, entries@, all@[c as int]));
        }
        let ghost kept0 = kept@;
        if inside {
            let ghost before = kept@;
            let copy = copy_cycle(cycle);
            kept.push(copy);
            proof {
                assert(kept@.map_values(|k: Cycle| cycle_text(k)) =~= kept0.map_values(|k: Cycle| cycle_text(k)).push(cycle_text(all@[c as int])));
                assert forall|i: int, x: int| 0 <= i < kept@.len() && 0 <= x < kept@[i].entities@.len()
                    implies visited_entity(*start, entries@, #[trigger] kept@[i].entities@[x]) by {
                    if i < before.len() {
                        assert(kept@[i] == before[i]);
                    }
                }
                assert forall|i: int| 0 <= i < kept@.len() implies is_cycle_of(*graph, #[trigger] kept@[i]) by {
                    if i < before.len() {
                        assert(kept@[i] == before[i]);
                    } else {
                        assert(is_cycle_of(*graph, all@[c as int]));
                        let w = choose|nodes: Seq<usize>, edges: Seq<usize>| #[trigger] traces(*graph, nodes, edges, all@[c as int].entities@, all@[c as int].edges@)
                            && nodes[0] == nodes[nodes.len() - 1] && distinct(nodes.drop_last());
                        assert(traces(*graph, w.0, w.1, kept@[i].entities@, kept@[i].edges@));
                    }
                }
            }
        }
    }
    proof {
        assert(all@.take(all@.len() as int) =~= all@);
    }
    kept
}

/// The adjacency that reads the graph in a direction.
fn adjacency_in(graph: &Graph, d: Direction) -> (adj: Adjacency)
    ensures
        reads(adj@, *graph, d),
        adjacency_well_formed(adj@),
        adj@.len() == graph.nodes@.len(),
{
    match d {
        Direction::Forward => graph.adjacency(),
        Direction::Reverse => graph.reverse_adjacency(),
    }
}

/// The entries a walk over positions reports, one per step.
fn reaches_of(graph: &Graph, adj: &Adjacency, d: Direction, s: usize, steps: &Vec<Step>) -> (entries: Vec<Reach>)
    requires
        reads(adj@, *graph, d),
        forall|j: int| 0 <= j < steps@.len() ==> step_is_route(adj@, s, #[trigger] steps@[j]),
    ensures
        entries@.len() == steps@.len(),
        forall|j: int| 0 <= j < steps@.len() ==> #[trigger] hops(*graph, d, s as int, route_of(s, steps@[j]), steps@[j].edges@, entries@[j]),
        forall|j: int| 0 <= j < steps@.len() ==> (#[trigger] entries@[j]).depth == steps@[j].depth,
{
    let mut entries: Vec<Reach> = Vec::new();
    for j in 0..steps.len()
        invariant
            reads(adj@, *graph, d),
            forall|x: int| 0 <= x < steps@.len() ==> step_is_route(adj@, s, #[trigger] steps@[x]),
            entries@.len() == j,
            forall|x: int| 0 <= x < j ==> #[trigger] hops(*graph, d, s as int, route_of(s, steps@[x]), steps@[x].edges@, entries@[x]),
            forall|x: int| 0 <= x < j ==> (#[trigger] entries@[x]).depth == steps@[x].depth,
    {
        let r = reach_of(graph, adj, d, s, &steps[j]);
        entries.push(r);
    }
    entries
}

/// The entity an entry reports is the node its step reached.
proof fn lemma_entry_located(g: Graph, d: Direction, s: usize, step: Step, r: Reach)
    requires
        hops(g, d, s as int, route_of(s, step), step.edges@, r),
    ensures
        located(g.nodes@, r.entity, step.node as int),
{
    let route = route_of(s, step);
    let last: int = step.edges@.len() - 1;
    assert(leads(g, d, step.edges@[last] as int, route[last] as int, route[last + 1] as int));
    lemma_far_located(g, d, step.edges@[last] as int, route[last] as int, route[last + 1] as int);
    assert(route[last + 1] == step.node);
}

/// The traversal both directions share: breadth first from the start's node, reporting
/// each entity reached with the route that reached it first.
fn traverse(graph: &Graph, start: &EntityRef, limits: Limits, d: Direction) -> (w: Walk)
    ensures
        walk_reports(*graph, *start, limits, d, w),
{
    let position = locate(&graph.nodes, start);
    match position {
        None => {
            let entries: Vec<Reach> = Vec::new();
            let cycles = cycles_within(graph, start, &entries);
            proof {
                if cycles@.len() > 0 {
                    let cy = cycles@[0];
                    assert(is_cycle_of(*graph, cy));
                    let w = choose|nodes: Seq<usize>, edges: Seq<usize>| #[trigger] traces(*graph, nodes, edges, cy.entities@, cy.edges@)
                        && nodes[0] == nodes[nodes.len() - 1] && distinct(nodes.drop_last());
                    let nodes = w.0;
                    let edges = w.1;
                    let i: int = 0;
                    assert(links(*graph, edges[i] as int, nodes[i] as int, nodes[i + 1] as int));
                    assert(visited_entity(*start, entries@, cy.entities@[0]));
                    assert(cy.entities@[0].rendering() == start.rendering());
                    assert(node_matches(graph.nodes@[nodes[0] as int], *start));
                    assert(false);
                }
            }
            let w = Walk {
                start: copy_entity(start),
                direction: d,
                limits,
                entries,
                truncated: false,
                truncation_reason: None,
                nodes_visited: 1,
                deepest: 0,
                cycles,
            };
            proof {
                assert forall|s: int| #[trigger] located(graph.nodes@, *start, s) implies walk_from(*graph, s, limits, d, w) by {
                    assert(node_matches(graph.nodes@[s], *start));
                }
            }
            w
        },
        Some(s) => {
            let adj = adjacency_in(graph, d);
            let ranks = node_ranks(graph);
            let pw = walk_positions(&adj, s, limits, &ranks);
            let entries = reaches_of(graph, &adj, d, s, &pw.steps);
            let cycles = cycles_within(graph, start, &entries);
            let w = Walk {
                start: copy_entity(start),
                direction: d,
                limits,
                entries,
                truncated: pw.truncated,
                truncation_reason: pw.truncation_reason,
                nodes_visited: pw.nodes_visited,
                deepest: pw.deepest,
                cycles,
            };
            proof {
                let steps = pw.steps@;
                let es = w.entries@;
                assert forall|j: int| 0 <= j < es.len() implies located(graph.nodes@, #[trigger] es[j].entity, steps[j].node as int) by {
                    lemma_entry_located(*graph, d, s, steps[j], es[j]);
                }
                assert forall|j: int| 0 <= j < es.len() implies (#[trigger] es[j]).depth <= w.deepest by {
                    assert(steps[j].depth <= pw.deepest);
                }
                if w.deepest != 0 {
                    let j = choose|j: int| 0 <= j < steps.len() && (#[trigger] steps[j]).depth == pw.deepest;
                    assert(es[j].depth == w.deepest);
                }
                assert forall|j: int| 0 <= j < steps.len() implies (#[trigger] steps[j]).node < adj@.len() by {
                    assert(step_is_route(adj@, s, steps[j]));
                    let r = route_of(s, steps[j]);
                    assert(r[r.len() - 1] == steps[j].node);
                }
                lemma_cuts_read(adj@, *graph, d, s, steps, es, limits.max_depth);
                assert forall|x: int| #[trigger] located(graph.nodes@, *start, x) implies walk_from(*graph, x, limits, d, w) by {
                    lemma_located_unique(graph.nodes@, *start, x, s as int);
                    assert forall|j: int| 0 <= j < es.len() implies #[trigger] reached_by_route(*graph, d, x, es[j]) by {
                        assert(hops(*graph, d, s as int, route_of(s, steps[j]), steps[j].edges@, es[j]));
                    }
                    assert forall|j: int| 0 <= j < es.len() implies (#[trigger] es[j]).depth <= limits.max_depth by {
                        assert(steps[j].depth <= limits.max_depth);
                    }
                    assert forall|j: int| 0 <= j < es.len() implies #[trigger] located_elsewhere(graph.nodes@, es[j].entity, x) by {
                        assert(located(graph.nodes@, es[j].entity, steps[j].node as int));
                        assert(steps[j].node != s);
                    }
                    assert forall|i: int, j: int| 0 <= i < j < es.len() implies es[i].entity != es[j].entity by {
                        assert(located(graph.nodes@, es[i].entity, steps[i].node as int));
                        assert(located(graph.nodes@, es[j].entity, steps[j].node as int));
                        assert(steps[i].node != steps[j].node);
                        if es[i].entity == es[j].entity {
                            lemma_located_unique(graph.nodes@, es[i].entity, steps[i].node as int, steps[j].node as int);
                        }
                    }
                    assert forall|i: int, j: int| 0 <= i < j < es.len() implies es[i].depth <= es[j].depth by {
                        assert(!pair_lt((steps[j].depth, ranks@[steps[j].node as int]), (steps[i].depth, ranks@[steps[i].node as int])));
                    }
                    assert forall|i: int, j: int| 0 <= i < j < es.len() && es[i].depth == es[j].depth
                        implies !text_pair_lt(entity_key(es[j].entity), entity_key(es[i].entity)) by {
                        let a = steps[j].node as int;
                        let b = steps[i].node as int;
                        assert(located(graph.nodes@, es[i].entity, b));
                        assert(located(graph.nodes@, es[j].entity, a));
                        assert(entity_key(es[j].entity) == node_key(graph.nodes@[a]));
                        assert(entity_key(es[i].entity) == node_key(graph.nodes@[b]));
                        assert(!pair_lt((steps[j].depth, ranks@[a]), (steps[i].depth, ranks@[b])));
                        if text_pair_lt(node_key(graph.nodes@[a]), node_key(graph.nodes@[b])) {
                            assert(ranks@[a] < ranks@[b]);
                        }
                    }
                    assert forall|j: int, v: int| 0 <= j < es.len() && #[trigger] located(graph.nodes@, es[j].entity, v)
                        implies !reaches_within(*graph, d, x, v, es[j].depth - 1) by {
                        assert(located(graph.nodes@, es[j].entity, steps[j].node as int));
                        lemma_located_unique(graph.nodes@, es[j].entity, v, steps[j].node as int);
                        if reaches_within(*graph, d, x, v, es[j].depth - 1) {
                            let p = choose|p: Seq<int>| #[trigger] node_route(*graph, d, p) && p[0] == x && p[p.len() - 1] == v
                                && p.len() - 1 <= es[j].depth - 1;
                            lemma_node_route_walks(adj@, *graph, d, p);
                            assert(walk_between(adj@, p, s as int, steps[j].node as int));
                        }
                    }
                    if !w.truncated {
                        assert forall|v: int| 0 <= v < graph.nodes@.len() && #[trigger] graph_reaches(*graph, d, x, v)
                            implies v == x || exists|j: int| 0 <= j < es.len() && located(graph.nodes@, #[trigger] es[j].entity, v) by {
                            assert(reads(adj@, *graph, d));
                            let p = choose|p: Seq<int>| #[trigger] node_route(*graph, d, p) && p[0] == x && p[p.len() - 1] == v;
                            lemma_node_route_walks(adj@, *graph, d, p);
                            assert(walk_between(adj@, p, s as int, v));
                            assert(reaches(adj@, s as int, v));
                            assert(reached(s, steps, v));
                            if v != s {
                                let j = choose|j: int| 0 <= j < steps.len() && (#[trigger] steps[j]).node == v;
                                assert(located(graph.nodes@, es[j].entity, steps[j].node as int));
                            }
                        }
                    }
                }
            }
            w
        },
    }
}

/// A bounded walk is truncated exactly when a bound cut something off: a node it holds
/// at the depth bound has an edge leading on, or it met the bound on visited nodes while
/// a node short of the depth bound had an edge leading on. A node at the bound with
/// nothing beyond it missed nothing, so it is no truncation.
pub proof fn a_walk_is_truncated_where_a_bound_cut_it(g: Graph, start: EntityRef, limits: Limits, d: Direction, w: Walk, s: int)
    requires
        walk_reports(g, start, limits, d, w),
        located(g.nodes@, start, s),
    ensures
        cut_by_depth(g, d, s, limits.max_depth, w.entries@) ==> w.truncated,
        w.truncated ==> cut_by_depth(g, d, s, limits.max_depth, w.entries@)
            || (w.nodes_visited >= limits.max_nodes && open_below(g, d, s, limits.max_depth, w.entries@)),
        w.nodes_visited < limits.max_nodes && !cut_by_depth(g, d, s, limits.max_depth, w.entries@) ==> !w.truncated,
{
    assert(walk_from(g, s, limits, d, w));
    if w.truncated {
        let reason = w.truncation_reason.unwrap();
        assert(w.truncation_reason == Some(reason));
        match reason {
            TruncationReason::MaxDepthReached => {},
            TruncationReason::MaxNodesReached => {},
            TruncationReason::BoundaryReached => {},
        }
    }
}

/// Traverses from an entity along the edges, within the given bounds.
///
/// Breadth first, so the first route to an entity is a shortest one; an entity already
/// reached is not expanded again. An entity that is not a node of the graph reaches
/// nothing.
pub fn walk(graph: &Graph, start: &EntityRef, limits: Limits) -> (w: Walk)
    ensures
        walk_reports(*graph, *start, limits, Direction::Forward, w),
{
    traverse(graph, start, limits, Direction::Forward)
}

/// Traverses from an entity against the edges, within the given bounds: which entities
/// depend on this one, and by which route.
pub fn walk_reverse(graph: &Graph, start: &EntityRef, limits: Limits) -> (w: Walk)
    ensures
        walk_reports(*graph, *start, limits, Direction::Reverse, w),
{
    traverse(graph, start, limits, Direction::Reverse)
}

impl Walk {
    /// Whether anything was reached.
    pub fn is_empty(&self) -> (empty: bool)
        ensures
            empty == (self.entries@.len() == 0),
    {
        self.entries.len() == 0
    }

    /// Whether a cycle was found inside the visited set.
    pub fn has_cycles(&self) -> (found: bool)
        ensures
            found == (self.cycles@.len() > 0),
    {
        self.cycles.len() > 0
    }

    /// Whether traversal stopped early, which makes an empty result inconclusive rather
    /// than a negative finding.
    pub fn is_inconclusive(&self) -> (inconclusive: bool)
        ensures
            inconclusive == self.truncated,
    {
        self.truncated
    }

    /// The entry for an entity, if it was reached.
    pub fn find(&self, entity: &EntityRef) -> (entry: Option<&Reach>)
        ensures
            match entry {
                Some(r) => exists|j: int| 0 <= j < self.entries@.len() && self.entries@[j] == *r
                    && same_entity(r.entity, *entity)
                    && forall|i: int| 0 <= i < j ==> !same_entity((#[trigger] self.entries@[i]).entity, *entity),
                None => forall|i: int| 0 <= i < self.entries@.len() ==> !same_entity((#[trigger] self.entries@[i]).entity, *entity),
            },
    {
        for i in 0..self.entries.len()
            invariant
                forall|x: int| 0 <= x < i ==> !same_entity((#[trigger] self.entries@[x]).entity, *entity),
        {
            if self.entries[i].entity.same_as(entity) {
                return Some(&self.entries[i]);
            }
        }
        None
    }

    /// The depth an entity was reached at, if it was reached.
    pub fn depth_of(&self, entity: &EntityRef) -> (depth: Option<usize>)
        ensures
            match depth {
                Some(n) => exists|j: int| 0 <= j < self.entries@.len() && self.entries@[j].depth == n
                    && same_entity(self.entries@[j].entity, *entity)
                    && forall|i: int| 0 <= i < j ==> !same_entity((#[trigger] self.entries@[i]).entity, *entity),
                None => forall|i: int| 0 <= i < self.entries@.len() ==> !same_entity((#[trigger] self.entries@[i]).entity, *entity),
            },
    {
        match self.find(entity) {
            Some(r) => Some(r.depth),
            None => None,
        }
    }

    /// Every entity reached, in the walk's order.
    pub fn entities(&self) -> (entities: Vec<&EntityRef>)
        ensures
            entities@.len() == self.entries@.len(),
            forall|i: int| 0 <= i < entities@.len() ==> *entities@[i] == (#[trigger] self.entries@[i]).entity,
    {
        let mut entities: Vec<&EntityRef> = Vec::new();
        for i in 0..self.entries.len()
            invariant
                entities@.len() == i,
                forall|x: int| 0 <= x < i ==> *entities@[x] == (#[trigger] self.entries@[x]).entity,
        {
            entities.push(&self.entries[i].entity);
        }
        entities
    }

    /// The entries at one depth, in the walk's order.
    pub fn at_depth(&self, depth: usize) -> (entries: Vec<&Reach>)
        ensures
            exists|positions: Seq<int>| #[trigger] picks_depth(self.entries@, depth, entries@, positions),
    {
        let mut out: Vec<&Reach> = Vec::new();
        let ghost mut positions: Seq<int> = Seq::empty();
        for i in 0..self.entries.len()
            invariant
                positions.len() == out@.len(),
                forall|a: int, b: int| 0 <= a < b < positions.len() ==> positions[a] < positions[b],
                forall|a: int| 0 <= a < positions.len() ==> 0 <= #[trigger] positions[a] < i && *out@[a] == self.entries@[positions[a]],
                forall|x: int| 0 <= x < i ==> ((#[trigger] self.entries@[x]).depth == depth <==> positions.contains(x)),
        {
            if self.entries[i].depth == depth {
                out.push(&self.entries[i]);
                proof {
                    let before = positions;
                    positions = positions.push(i as int);
                    assert forall|x: int| 0 <= x < i + 1 implies ((#[trigger] self.entries@[x]).depth == depth <==> positions.contains(x)) by {
                        if x < i {
                            if before.contains(x) {
                                let a = choose|a: int| 0 <= a < before.len() && before[a] == x;
                                assert(positions[a] == x);
                            }
                            if positions.contains(x) {
                                let a = choose|a: int| 0 <= a < positions.len() && positions[a] == x;
                                assert(a < before.len());
                                assert(before[a] == x);
                            }
                        } else {
                            assert(positions[positions.len() - 1] == x);
                        }
                    }
                }
            } else {
                proof {
                    assert forall|x: int| 0 <= x < i + 1 implies ((#[trigger] self.entries@[x]).depth == depth <==> positions.contains(x)) by {
                        if x == i && positions.contains(x) {
                            let a = choose|a: int| 0 <= a < positions.len() && positions[a] == x;
                            assert(positions[a] < i);
                        }
                    }
                }
            }
        }
        proof {
            assert(picks_depth(self.entries@, depth, out@, positions));
        }
        out
    }

    /// The identifiers of the entities reached, for an error message or a report.
    pub fn entity_ids(&self) -> (ids: Vec<&str>)
        ensures
            ids@.len() == self.entries@.len(),
            forall|i: int| 0 <= i < ids@.len() ==> ids@[i]@ == (#[trigger] self.entries@[i]).entity.id@,
    {
        let mut ids: Vec<&str> = Vec::new();
        for i in 0..self.entries.len()
            invariant
                ids@.len() == i,
                forall|x: int| 0 <= x < i ==> ids@[x]@ == (#[trigger] self.entries@[x]).entity.id@,
        {
            ids.push(self.entries[i].entity.id.as_str());
        }
        ids
    }
}

/// `chosen` are the entries at `positions`, which increase and are exactly the positions
/// of the entries at `depth`.
pub open spec fn picks_depth(entries: Seq<Reach>, depth: usize, chosen: Seq<&Reach>, positions: Seq<int>) -> bool {
    &&& positions.len() == chosen.len()
    &&& forall|a: int, b: int| 0 <= a < b < positions.len() ==> positions[a] < positions[b]
    &&& forall|a: int| 0 <= a < positions.len() ==> 0 <= #[trigger] positions[a] < entries.len() && *chosen[a] == entries[positions[a]]
    &&& forall|x: int| 0 <= x < entries.len() ==> ((#[trigger] entries[x]).depth == depth <==> positions.contains(x))
}

/// The depth at which one entity reaches another within the bounds, or `None`.
///
/// `None` is not a negative answer when the search was bounded: use [`walk`] and check
/// [`Walk::is_inconclusive`] when the difference matters.
pub fn reachable(graph: &Graph, from: &EntityRef, to: &EntityRef, limits: Limits) -> (depth: Option<usize>)
    ensures
        exists|w: Walk| #[trigger] walk_reports(*graph, *from, limits, Direction::Forward, w) && match depth {
            Some(n) => exists|j: int| 0 <= j < w.entries@.len() && w.entries@[j].depth == n
                && same_entity(w.entries@[j].entity, *to)
                && forall|i: int| 0 <= i < j ==> !same_entity((#[trigger] w.entries@[i]).entity, *to),
            None => forall|i: int| 0 <= i < w.entries@.len() ==> !same_entity((#[trigger] w.entries@[i]).entity, *to),
        },
{
    let w = walk(graph, from, limits);
    w.depth_of(to)
}

/// The edges a run of edge texts names, each the first edge written that way; a text
/// that names no edge of the graph is skipped.
pub open spec fn resolved(edges: Seq<Edge>, texts: Seq<String>) -> Seq<Edge>
    decreases texts.len(),
{
    if texts.len() == 0 {
        Seq::empty()
    } else {
        let rest = resolved(edges, texts.drop_last());
        match edge_of(edges, texts.last()@) {
            Some(e) => rest.push(e),
            None => rest,
        }
    }
}

impl Reach {
    /// The edges traversed, looked up in the graph rather than stored, so that an entry
    /// cannot hold a copy of an edge that disagrees with the graph it came from.
    pub fn resolve_edges<'a>(&self, graph: &'a Graph) -> (edges: Vec<&'a Edge>)
        ensures
            edges@.len() == resolved(graph.edges@, self.edges@).len(),
            forall|i: int| #![trigger edges@[i]] 0 <= i < edges@.len() ==> *edges@[i] == resolved(graph.edges@, self.edges@)[i],
    {
        let mut out: Vec<&'a Edge> = Vec::new();
        assert(self.edges@.subrange(0, 0) =~= Seq::<String>::empty());
        for i in 0..self.edges.len()
            invariant
                out@.len() == resolved(graph.edges@, self.edges@.subrange(0, i as int)).len(),
                forall|x: int| #![trigger out@[x]] 0 <= x < out@.len() ==> *out@[x] == resolved(graph.edges@, self.edges@.subrange(0, i as int))[x],
        {
            let ghost before = self.edges@.subrange(0, i as int);
            let ghost after = self.edges@.subrange(0, i + 1);
            proof {
                assert(after.drop_last() =~= before);
                assert(after.last() == self.edges@[i as int]);
            }
            let ghost out0 = out@;
            match edge_for(&graph.edges, self.edges[i].as_str()) {
                Some(e) => {
                    out.push(e);
                    proof {
                        assert(resolved(graph.edges@, after) == resolved(graph.edges@, before).push(*e));
                        assert forall|x: int| #![trigger out@[x]] 0 <= x < out@.len() implies *out@[x] == resolved(graph.edges@, after)[x] by {
                            if x < out0.len() {
                                assert(out@[x] == out0[x]);
                                assert(*out0[x] == resolved(graph.edges@, before)[x]);
                                assert(resolved(graph.edges@, after)[x] == resolved(graph.edges@, before)[x]);
                            } else {
                                assert(out@[x] == e);
                                assert(resolved(graph.edges@, after)[x] == *e);
                            }
                        }
                    }
                },
                None => {
                    proof {
                        assert(resolved(graph.edges@, after) == resolved(graph.edges@, before));
                    }
                },
            }
        }
        assert(self.edges@.subrange(0, self.edges@.len() as int) =~= self.edges@);
        out
    }
}

} // verus!
