//! The graph's edges as adjacency over node positions, and what can be read off it:
//! reachability, strongly connected components and cycles.
//!
//! A node is its position in the graph's node list and an adjacency entry is the pair
//! `(edge position, target position)`, so every result here can be mapped back to the
//! entities and edges it came from without a second lookup that could disagree.

use vstd::prelude::*;

verus! {

/// Adjacency lists: for each node, the edges leaving it as `(edge index, target node)`.
pub type Adjacency = Vec<Vec<(usize, usize)>>;

/// Every target named by an adjacency list is a node of the graph.
pub open spec fn adjacency_well_formed(adj: Seq<Vec<(usize, usize)>>) -> bool {
    forall|u: int, k: int|
        0 <= u < adj.len() && 0 <= k < adj[u]@.len() ==> (#[trigger] adj[u]@[k]).1 < adj.len()
}

/// There is an edge from `u` to `v`.
pub open spec fn has_edge(adj: Seq<Vec<(usize, usize)>>, u: int, v: int) -> bool {
    0 <= u < adj.len() && exists|k: int| 0 <= k < adj[u]@.len() && (#[trigger] adj[u]@[k]).1 == v
}

/// Consecutive entries `i` and `i + 1` of `p` are joined by an edge.
pub open spec fn step(adj: Seq<Vec<(usize, usize)>>, p: Seq<int>, i: int) -> bool {
    has_edge(adj, p[i], p[i + 1])
}

/// `p` is a walk: a non-empty sequence of nodes, each joined to the next by an edge.
pub open spec fn is_walk(adj: Seq<Vec<(usize, usize)>>, p: Seq<int>) -> bool {
    &&& p.len() >= 1
    &&& forall|i: int| 0 <= i < p.len() ==> 0 <= #[trigger] p[i] < adj.len()
    &&& forall|i: int| 0 <= i < p.len() - 1 ==> #[trigger] step(adj, p, i)
}

/// `p` is a walk from `u` to `v`.
pub open spec fn walk_between(adj: Seq<Vec<(usize, usize)>>, p: Seq<int>, u: int, v: int) -> bool {
    is_walk(adj, p) && p[0] == u && p[p.len() - 1] == v
}

/// Some walk leads from `u` to `v` (every node reaches itself).
pub open spec fn reaches(adj: Seq<Vec<(usize, usize)>>, u: int, v: int) -> bool {
    exists|p: Seq<int>| #[trigger] walk_between(adj, p, u, v)
}

/// `u` and `v` reach each other.
pub open spec fn mutually_reachable(adj: Seq<Vec<(usize, usize)>>, u: int, v: int) -> bool {
    reaches(adj, u, v) && reaches(adj, v, u)
}

/// Some walk of at least one edge leaves `u` and returns to it.
pub open spec fn on_cycle(adj: Seq<Vec<(usize, usize)>>, u: int) -> bool {
    exists|w: int| #[trigger] has_edge(adj, u, w) && reaches(adj, w, u)
}

/// Some node lies on a cycle.
pub open spec fn is_cyclic(adj: Seq<Vec<(usize, usize)>>) -> bool {
    exists|u: int| 0 <= u < adj.len() && #[trigger] on_cycle(adj, u)
}

/// The entries of `s` strictly increase.
pub open spec fn strictly_increasing(s: Seq<usize>) -> bool {
    forall|i: int, j: int| 0 <= i < j < s.len() ==> s[i] < s[j]
}

/// `comps` lists the strongly connected components of the graph: each is non-empty and
/// strictly increasing, its members reach each other, it holds every node that reaches
/// its members both ways, and every node is in one of them.
pub open spec fn are_components(adj: Seq<Vec<(usize, usize)>>, comps: Seq<Vec<usize>>) -> bool {
    &&& forall|i: int| 0 <= i < comps.len() ==> (#[trigger] comps[i])@.len() > 0
    &&& forall|i: int| 0 <= i < comps.len() ==> strictly_increasing(#[trigger] comps[i]@)
    &&& forall|i: int, j: int|
        0 <= i < comps.len() && 0 <= j < comps[i]@.len() ==> (#[trigger] comps[i]@[j]) < adj.len()
    &&& forall|i: int, j: int, k: int|
        0 <= i < comps.len() && 0 <= j < comps[i]@.len() && 0 <= k < comps[i]@.len()
            ==> mutually_reachable(adj, #[trigger] comps[i]@[j] as int, #[trigger] comps[i]@[k] as int)
    &&& forall|i: int, j: int, w: int|
        0 <= i < comps.len() && 0 <= j < comps[i]@.len() && 0 <= w < adj.len()
            && #[trigger] mutually_reachable(adj, comps[i]@[j] as int, w)
            ==> comps[i]@.contains(w as usize)
    &&& forall|v: int| 0 <= v < adj.len() ==> #[trigger] in_some_component(comps, v)
}

/// `v` is a member of one of `comps`.
pub open spec fn in_some_component(comps: Seq<Vec<usize>>, v: int) -> bool {
    exists|i: int| 0 <= i < comps.len() && #[trigger] comps[i]@.contains(v as usize)
}

/// A component holds a cycle: it has more than one member, or its one member has an edge
/// to itself.
pub open spec fn component_is_cyclic(adj: Seq<Vec<(usize, usize)>>, comp: Seq<usize>) -> bool {
    comp.len() > 1 || (comp.len() == 1 && has_edge(adj, comp[0] as int, comp[0] as int))
}

/// How many entries of `s` are `true`.
pub open spec fn count_true(s: Seq<bool>) -> nat
    decreases s.len(),
{
    if s.len() == 0 {
        0
    } else {
        count_true(s.drop_last()) + if s.last() { 1nat } else { 0nat }
    }
}

proof fn lemma_count_true_bound(s: Seq<bool>)
    ensures
        count_true(s) <= s.len(),
    decreases s.len(),
{
    if s.len() > 0 {
        lemma_count_true_bound(s.drop_last());
    }
}

proof fn lemma_count_true_set(s: Seq<bool>, v: int)
    requires
        0 <= v < s.len(),
        !s[v],
    ensures
        count_true(s.update(v, true)) == count_true(s) + 1,
    decreases s.len(),
{
    let t = s.update(v, true);
    if v == s.len() - 1 {
        assert(t.drop_last() =~= s.drop_last());
    } else {
        assert(t.drop_last() =~= s.drop_last().update(v, true));
        lemma_count_true_set(s.drop_last(), v);
    }
}

/// A single node is a walk.
pub proof fn lemma_walk_single(adj: Seq<Vec<(usize, usize)>>, u: int)
    requires
        0 <= u < adj.len(),
    ensures
        walk_between(adj, seq![u], u, u),
        reaches(adj, u, u),
{
    let p = seq![u];
    assert(is_walk(adj, p));
    assert(walk_between(adj, p, u, u));
}

/// A walk extended by an edge from its last node is a walk.
pub proof fn lemma_walk_push(adj: Seq<Vec<(usize, usize)>>, p: Seq<int>, u: int, v: int, w: int)
    requires
        walk_between(adj, p, u, v),
        has_edge(adj, v, w),
        0 <= w < adj.len(),
    ensures
        walk_between(adj, p.push(w), u, w),
        reaches(adj, u, w),
{
    let q = p.push(w);
    assert forall|i: int| 0 <= i < q.len() - 1 implies #[trigger] step(adj, q, i) by {
        if i < p.len() - 1 {
            assert(step(adj, p, i));
        }
    }
    assert(walk_between(adj, q, u, w));
}

/// An edge is a walk of one step.
pub proof fn lemma_edge_reaches(adj: Seq<Vec<(usize, usize)>>, u: int, w: int)
    requires
        has_edge(adj, u, w),
        0 <= w < adj.len(),
    ensures
        reaches(adj, u, w),
{
    lemma_walk_single(adj, u);
    lemma_walk_push(adj, seq![u], u, u, w);
}

/// Two walks that meet can be joined.
pub proof fn lemma_walk_concat(adj: Seq<Vec<(usize, usize)>>, p: Seq<int>, q: Seq<int>, u: int, v: int, w: int)
    requires
        walk_between(adj, p, u, v),
        walk_between(adj, q, v, w),
    ensures
        walk_between(adj, p + q.drop_first(), u, w),
    decreases q.len(),
{
    if q.len() == 1 {
        assert(p + q.drop_first() =~= p);
    } else {
        let q0 = q.drop_last();
        let x = q0[q0.len() - 1];
        assert(is_walk(adj, q0)) by {
            assert forall|i: int| 0 <= i < q0.len() - 1 implies #[trigger] step(adj, q0, i) by {
                assert(step(adj, q, i));
            }
        }
        lemma_walk_concat(adj, p, q0, u, v, x);
        assert(step(adj, q, q.len() - 2));
        lemma_walk_push(adj, p + q0.drop_first(), u, x, w);
        assert((p + q0.drop_first()).push(w) =~= p + q.drop_first());
    }
}

/// Every node of a walk that leaves `s` and returns to it reaches `s` and is reached from
/// it.
pub proof fn lemma_closed_walk_mutual(adj: Seq<Vec<(usize, usize)>>, p: Seq<int>, s: int, i: int)
    requires
        walk_between(adj, p, s, s),
        0 <= i < p.len(),
    ensures
        mutually_reachable(adj, s, p[i]),
{
    let pre = p.subrange(0, i + 1);
    assert forall|j: int| 0 <= j < pre.len() - 1 implies #[trigger] step(adj, pre, j) by {
        assert(step(adj, p, j));
        assert(pre[j] == p[j] && pre[j + 1] == p[j + 1]);
    }
    assert forall|j: int| 0 <= j < pre.len() implies 0 <= #[trigger] pre[j] < adj.len() by {
        assert(pre[j] == p[j]);
    }
    assert(walk_between(adj, pre, s, p[i]));
    let suf = p.subrange(i, p.len() as int);
    assert forall|j: int| 0 <= j < suf.len() - 1 implies #[trigger] step(adj, suf, j) by {
        assert(step(adj, p, i + j));
        assert(suf[j] == p[i + j] && suf[j + 1] == p[i + j + 1]);
    }
    assert forall|j: int| 0 <= j < suf.len() implies 0 <= #[trigger] suf[j] < adj.len() by {
        assert(suf[j] == p[i + j]);
    }
    assert(walk_between(adj, suf, p[i], s));
}

/// Reachability is transitive.
pub proof fn lemma_reaches_trans(adj: Seq<Vec<(usize, usize)>>, u: int, v: int, w: int)
    requires
        reaches(adj, u, v),
        reaches(adj, v, w),
    ensures
        reaches(adj, u, w),
{
    let p = choose|p: Seq<int>| walk_between(adj, p, u, v);
    let q = choose|q: Seq<int>| walk_between(adj, q, v, w);
    lemma_walk_concat(adj, p, q, u, v, w);
}

/// Every node of a walk that starts in a set closed under the edges is in the set.
proof fn lemma_closed_contains_walk(adj: Seq<Vec<(usize, usize)>>, marked: Seq<bool>, p: Seq<int>, i: int)
    requires
        marked.len() == adj.len(),
        adjacency_well_formed(adj),
        is_walk(adj, p),
        marked[p[0]],
        forall|v: int, k: int|
            0 <= v < adj.len() && marked[v] && 0 <= k < adj[v]@.len() ==> marked[(#[trigger] adj[v]@[k]).1 as int],
        0 <= i < p.len(),
    ensures
        marked[p[i]],
    decreases i,
{
    if i > 0 {
        lemma_closed_contains_walk(adj, marked, p, i - 1);
        assert(step(adj, p, i - 1));
        let k = choose|k: int| 0 <= k < adj[p[i - 1]]@.len() && (#[trigger] adj[p[i - 1]]@[k]).1 == p[i];
        assert(marked[(adj[p[i - 1]]@[k]).1 as int]);
    }
}

/// The nodes `start` reaches, as a membership vector over node positions.
pub fn reach_from(adj: &Adjacency, start: usize) -> (marked: Vec<bool>)
    requires
        adjacency_well_formed(adj@),
        start < adj.len(),
    ensures
        marked.len() == adj.len(),
        forall|v: int| 0 <= v < adj.len() ==> (#[trigger] marked@[v] <==> reaches(adj@, start as int, v)),
{
    let n = adj.len();
    let mut marked: Vec<bool> = Vec::new();
    let mut i: usize = 0;
    while i < n
        invariant
            i <= n,
            marked.len() == i,
            forall|v: int| 0 <= v < i ==> !#[trigger] marked@[v],
        decreases n - i,
    {
        marked.push(false);
        i += 1;
    }
    proof {
        assert(count_true(marked@) == 0) by {
            lemma_count_true_zero(marked@);
        }
        lemma_count_true_set(marked@, start as int);
        lemma_walk_single(adj@, start as int);
    }
    marked.set(start, true);
    let mut count: usize = 1;
    let mut stack: Vec<usize> = Vec::new();
    stack.push(start);
    assert(stack@[0] == start);
    while stack.len() > 0
        invariant
            n == adj.len(),
            adjacency_well_formed(adj@),
            start < n,
            marked.len() == n,
            count == count_true(marked@),
            marked@[start as int],
            forall|v: int| 0 <= v < n && #[trigger] marked@[v] ==> reaches(adj@, start as int, v),
            forall|j: int| 0 <= j < stack.len() ==> (#[trigger] stack@[j]) < n && marked@[stack@[j] as int],
            forall|j1: int, j2: int| 0 <= j1 < j2 < stack.len() ==> stack@[j1] != stack@[j2],
            forall|v: int, k: int|
                0 <= v < n && marked@[v] && !stack@.contains(v as usize) && 0 <= k < adj@[v]@.len()
                    ==> marked@[(#[trigger] adj@[v]@[k]).1 as int],
        decreases 2 * (n - count) + stack.len(),
    {
        proof {
            lemma_count_true_bound(marked@);
        }
        let ghost measure0 = 2 * (n - count) + stack.len();
        let ghost full = stack@;
        let u = stack.pop().unwrap();
        let ghost stack0 = stack@;
        assert(full =~= stack0.push(u));
        assert(!stack@.contains(u)) by {
            if stack@.contains(u) {
                let j = choose|j: int| 0 <= j < stack@.len() && stack@[j] == u;
                assert(full[j] == full[full.len() - 1]);
            }
        };
        let deg = adj[u].len();
        let mut k: usize = 0;
        while k < deg
            invariant
                n == adj.len(),
                adjacency_well_formed(adj@),
                start < n,
                u < n,
                deg == adj@[u as int]@.len(),
                k <= deg,
                marked.len() == n,
                count == count_true(marked@),
                count <= n,
                marked@[start as int],
                marked@[u as int],
                !stack@.contains(u),
                stack0.len() <= stack.len(),
                2 * (n - count) + stack.len() + 1 <= measure0,
                forall|v: int| 0 <= v < n && #[trigger] marked@[v] ==> reaches(adj@, start as int, v),
                forall|j: int| 0 <= j < stack.len() ==> (#[trigger] stack@[j]) < n && marked@[stack@[j] as int],
                forall|j1: int, j2: int| 0 <= j1 < j2 < stack.len() ==> stack@[j1] != stack@[j2],
                forall|kk: int| 0 <= kk < k ==> marked@[(#[trigger] adj@[u as int]@[kk]).1 as int],
                forall|v: int, kk: int|
                    0 <= v < n && v != u && marked@[v] && !stack@.contains(v as usize) && 0 <= kk < adj@[v]@.len()
                        ==> marked@[(#[trigger] adj@[v]@[kk]).1 as int],
            decreases deg - k,
        {
            let w = adj[u][k].1;
            let ghost marked_before = marked@;
            let ghost stack_before = stack@;
            if !marked[w] {
                proof {
                    lemma_count_true_set(marked@, w as int);
                    lemma_count_true_bound(marked@.update(w as int, true));
                    let p = choose|p: Seq<int>| walk_between(adj@, p, start as int, u as int);
                    assert(has_edge(adj@, u as int, w as int));
                    lemma_walk_push(adj@, p, start as int, u as int, w as int);
                }
                marked.set(w, true);
                count += 1;
                stack.push(w);
                assert(stack@[stack@.len() - 1] == w);
                assert forall|v: int, kk: int|
                    0 <= v < n && v != u && marked@[v] && !stack@.contains(v as usize) && 0 <= kk < adj@[v]@.len()
                        implies marked@[(#[trigger] adj@[v]@[kk]).1 as int] by {
                    if v != w {
                        assert(marked_before[v]);
                        if stack_before.contains(v as usize) {
                            let j = choose|j: int| 0 <= j < stack_before.len() && stack_before[j] == v;
                            assert(stack@[j] == v);
                        }
                    }
                }
            }
            k += 1;
        }
    }
    proof {
        assert forall|v: int| 0 <= v < n implies (#[trigger] marked@[v] <==> reaches(adj@, start as int, v)) by {
            if reaches(adj@, start as int, v) {
                let p = choose|p: Seq<int>| walk_between(adj@, p, start as int, v);
                lemma_closed_contains_walk(adj@, marked@, p, p.len() - 1);
            }
        }
    }
    marked
}

proof fn lemma_count_true_zero(s: Seq<bool>)
    requires
        forall|v: int| 0 <= v < s.len() ==> !#[trigger] s[v],
    ensures
        count_true(s) == 0,
    decreases s.len(),
{
    if s.len() > 0 {
        lemma_count_true_zero(s.drop_last());
    }
}

/// Mutual reachability is symmetric and transitive, so membership in the class of a
/// representative is shared by everything in that class.
proof fn lemma_mutual_trans(adj: Seq<Vec<(usize, usize)>>, a: int, b: int, c: int)
    requires
        mutually_reachable(adj, a, b),
        mutually_reachable(adj, b, c),
    ensures
        mutually_reachable(adj, a, c),
{
    lemma_reaches_trans(adj, a, b, c);
    lemma_reaches_trans(adj, c, b, a);
}

/// The strongly connected components of the graph.
///
/// Each component is listed once, in increasing order of node position, and components
/// appear in order of their smallest member: by position, not in the order a depth-first
/// search would finish them, so an edge may lead from an earlier component into a later
/// one. Each node's reach is computed once and two nodes share a component exactly when
/// each reaches the other; the callers put the components in the order they report.
pub fn strong_components(adj: &Adjacency) -> (comps: Vec<Vec<usize>>)
    requires
        adjacency_well_formed(adj@),
    ensures
        are_components(adj@, comps@),
        forall|i: int, j: int| 0 <= i < j < comps.len() ==> comps@[i]@[0] < comps@[j]@[0],
{
    let n = adj.len();
    let mut reach: Vec<Vec<bool>> = Vec::new();
    for u in 0..n
        invariant
            n == adj.len(),
            adjacency_well_formed(adj@),
            reach.len() == u,
            forall|a: int| 0 <= a < u ==> (#[trigger] reach@[a])@.len() == n,
            forall|a: int, b: int| 0 <= a < u && 0 <= b < n ==> (#[trigger] reach@[a]@[b] <==> reaches(adj@, a, b)),
    {
        let row = reach_from(adj, u);
        reach.push(row);
        proof {
            assert(reach@[u as int] == row);
        }
    }
    let mut assigned: Vec<bool> = Vec::new();
    for v in 0..n
        invariant
            assigned.len() == v,
            forall|x: int| 0 <= x < v ==> !#[trigger] assigned@[x],
    {
        assigned.push(false);
    }
    let mut comps: Vec<Vec<usize>> = Vec::new();
    for u in 0..n
        invariant
            n == adj.len(),
            adjacency_well_formed(adj@),
            reach.len() == n,
            forall|a: int| 0 <= a < n ==> (#[trigger] reach@[a])@.len() == n,
            forall|a: int, b: int| 0 <= a < n && 0 <= b < n ==> (#[trigger] reach@[a]@[b] <==> reaches(adj@, a, b)),
            assigned.len() == n,
            forall|i: int| 0 <= i < comps.len() ==> (#[trigger] comps@[i])@.len() > 0,
            forall|i: int| 0 <= i < comps.len() ==> strictly_increasing(#[trigger] comps@[i]@),
            forall|i: int, j: int|
                0 <= i < comps.len() && 0 <= j < comps@[i]@.len() ==> (#[trigger] comps@[i]@[j]) < n,
            forall|i: int| 0 <= i < comps.len() ==> (#[trigger] comps@[i])@[0] < u,
            forall|i: int, j: int| 0 <= i < j < comps.len() ==> comps@[i]@[0] < comps@[j]@[0],
            forall|i: int, j: int|
                0 <= i < comps.len() && 0 <= j < comps@[i]@.len()
                    ==> mutually_reachable(adj@, comps@[i]@[0] as int, #[trigger] comps@[i]@[j] as int),
            forall|i: int, w: int|
                0 <= i < comps.len() && 0 <= w < n
                    && #[trigger] mutually_reachable(adj@, comps@[i]@[0] as int, w)
                    ==> comps@[i]@.contains(w as usize),
            forall|v: int| 0 <= v < n ==> (#[trigger] assigned@[v] <==> in_some_component(comps@, v)),
            forall|v: int| 0 <= v < u ==> #[trigger] assigned@[v],
    {
        if !assigned[u] {
            let mut comp: Vec<usize> = Vec::new();
            let ghost assigned0 = assigned@;
            proof {
                lemma_walk_single(adj@, u as int);
                assert forall|x: int| 0 <= x < u implies !#[trigger] mutually_reachable(adj@, u as int, x) by {
                    if mutually_reachable(adj@, u as int, x) {
                        assert(assigned@[x]);
                        let i = choose|i: int| 0 <= i < comps@.len() && #[trigger] comps@[i]@.contains(x as usize);
                        let j = choose|j: int| 0 <= j < comps@[i]@.len() && comps@[i]@[j] == x as usize;
                        assert(mutually_reachable(adj@, comps@[i]@[0] as int, comps@[i]@[j] as int));
                        lemma_mutual_trans(adj@, comps@[i]@[0] as int, x, u as int);
                        assert(comps@[i]@.contains(u));
                        assert(in_some_component(comps@, u as int));
                    }
                }
            }
            for v in 0..n
                invariant
                    n == adj.len(),
                    u < n,
                    reach.len() == n,
                    forall|a: int| 0 <= a < n ==> (#[trigger] reach@[a])@.len() == n,
                    forall|a: int, b: int| 0 <= a < n && 0 <= b < n ==> (#[trigger] reach@[a]@[b] <==> reaches(adj@, a, b)),
                    assigned.len() == n,
                    reaches(adj@, u as int, u as int),
                    forall|j: int| 0 <= j < comp.len() ==> (#[trigger] comp@[j]) < v,
                    strictly_increasing(comp@),
                    v <= u ==> comp@.len() == 0,
                    v > u ==> comp@.len() > 0 && comp@[0] == u,
                    forall|x: int| 0 <= x < u ==> !#[trigger] mutually_reachable(adj@, u as int, x),
                    forall|j: int| 0 <= j < comp.len() ==> mutually_reachable(adj@, u as int, #[trigger] comp@[j] as int),
                    forall|x: int| 0 <= x < v && #[trigger] mutually_reachable(adj@, u as int, x) ==> comp@.contains(x as usize),
                    forall|x: int| 0 <= x < n ==> (#[trigger] assigned@[x] <==> (assigned0[x] || comp@.contains(x as usize))),
                    forall|x: int| 0 <= x < u ==> assigned0[x],
            {
                let ghost comp_before = comp@;
                let ghost assigned_before = assigned@;
                if reach[u][v] && reach[v][u] {
                    comp.push(v);
                    assigned.set(v, true);
                    proof {
                        assert(mutually_reachable(adj@, u as int, v as int));
                        assert(comp@ == comp_before.push(v));
                        assert(comp@[comp@.len() - 1] == v);
                        assert forall|x: int| 0 <= x < n implies (#[trigger] assigned@[x] <==> (assigned0[x] || comp@.contains(x as usize))) by {
                            if x != v as int {
                                assert(assigned@[x] == assigned_before[x]);
                                if comp_before.contains(x as usize) {
                                    let j = choose|j: int| 0 <= j < comp_before.len() && comp_before[j] == x as usize;
                                    assert(comp@[j] == x as usize);
                                }
                                if comp@.contains(x as usize) {
                                    let j = choose|j: int| 0 <= j < comp@.len() && comp@[j] == x as usize;
                                    assert(comp_before[j] == x as usize);
                                }
                            }
                        }
                        assert forall|x: int| 0 <= x < v + 1 && #[trigger] mutually_reachable(adj@, u as int, x)
                            implies comp@.contains(x as usize) by {
                            if x < v {
                                let j = choose|j: int| 0 <= j < comp_before.len() && comp_before[j] == x as usize;
                                assert(comp@[j] == x as usize);
                            }
                        }
                    }
                } else {
                    proof {
                        assert(!mutually_reachable(adj@, u as int, v as int));
                    }
                }
            }
            let ghost comps0 = comps@;
            comps.push(comp);
            proof {
                assert(comps@[comps@.len() - 1] == comp);
                assert forall|i: int, j: int|
                    0 <= i < comps.len() && 0 <= j < comps@[i]@.len()
                        implies mutually_reachable(adj@, comps@[i]@[0] as int, #[trigger] comps@[i]@[j] as int) by {
                    if i < comps0.len() {
                        assert(comps@[i] == comps0[i]);
                    } else {
                        assert(mutually_reachable(adj@, u as int, comp@[j] as int));
                    }
                }
                assert forall|i: int, w: int|
                    0 <= i < comps.len() && 0 <= w < n
                        && #[trigger] mutually_reachable(adj@, comps@[i]@[0] as int, w)
                        implies comps@[i]@.contains(w as usize) by {
                    if i < comps0.len() {
                        assert(comps@[i] == comps0[i]);
                    }
                }
                assert forall|v: int| 0 <= v < n implies (#[trigger] assigned@[v] <==> in_some_component(comps@, v)) by {
                    if assigned@[v] {
                        if comp@.contains(v as usize) {
                            assert(comps@[comps@.len() - 1]@.contains(v as usize));
                        } else {
                            assert(in_some_component(comps0, v));
                            let i = choose|i: int| 0 <= i < comps0.len() && #[trigger] comps0[i]@.contains(v as usize);
                            assert(comps@[i] == comps0[i]);
                        }
                    }
                    if in_some_component(comps@, v) {
                        let i = choose|i: int| 0 <= i < comps@.len() && #[trigger] comps@[i]@.contains(v as usize);
                        if i < comps0.len() {
                            assert(comps@[i] == comps0[i]);
                            assert(in_some_component(comps0, v));
                        }
                    }
                }
            }
        }
    }
    proof {
        assert forall|i: int, j: int, k: int|
            0 <= i < comps.len() && 0 <= j < comps@[i]@.len() && 0 <= k < comps@[i]@.len()
                implies mutually_reachable(adj@, #[trigger] comps@[i]@[j] as int, #[trigger] comps@[i]@[k] as int) by {
            let r = comps@[i]@[0] as int;
            assert(mutually_reachable(adj@, r, comps@[i]@[j] as int));
            assert(mutually_reachable(adj@, r, comps@[i]@[k] as int));
            lemma_mutual_trans(adj@, comps@[i]@[j] as int, r, comps@[i]@[k] as int);
        }
        assert forall|i: int, j: int, w: int|
            0 <= i < comps.len() && 0 <= j < comps@[i]@.len() && 0 <= w < adj.len()
                && #[trigger] mutually_reachable(adj@, comps@[i]@[j] as int, w)
                implies comps@[i]@.contains(w as usize) by {
            let r = comps@[i]@[0] as int;
            assert(mutually_reachable(adj@, r, comps@[i]@[j] as int));
            lemma_mutual_trans(adj@, r, comps@[i]@[j] as int, w);
        }
        assert forall|v: int| 0 <= v < adj.len() implies #[trigger] in_some_component(comps@, v) by {
            assert(assigned@[v]);
        }
    }
    comps
}

/// A walk between two different nodes leaves the first by an edge to a node that still
/// reaches the second.
proof fn lemma_first_step(adj: Seq<Vec<(usize, usize)>>, p: Seq<int>, u: int, v: int)
    requires
        walk_between(adj, p, u, v),
        u != v,
    ensures
        has_edge(adj, u, p[1]),
        reaches(adj, p[1], v),
{
    assert(step(adj, p, 0));
    let q = p.drop_first();
    assert forall|i: int| 0 <= i < q.len() - 1 implies #[trigger] step(adj, q, i) by {
        assert(step(adj, p, i + 1));
    }
    assert(walk_between(adj, q, p[1], v));
}

/// A node is on a cycle exactly when its component holds one.
proof fn lemma_on_cycle_iff_component(adj: Seq<Vec<(usize, usize)>>, comps: Seq<Vec<usize>>, i: int, j: int)
    requires
        adjacency_well_formed(adj),
        are_components(adj, comps),
        0 <= i < comps.len(),
        0 <= j < comps[i]@.len(),
    ensures
        on_cycle(adj, comps[i]@[j] as int) <==> component_is_cyclic(adj, comps[i]@),
{
    let c = comps[i]@;
    let u = c[j] as int;
    if component_is_cyclic(adj, c) {
        if c.len() > 1 {
            let other = if j == 0 { c[1] as int } else { c[0] as int };
            assert(u != other);
            assert(mutually_reachable(adj, c[j] as int, other)) by {
                if j == 0 {
                    assert(mutually_reachable(adj, c[0] as int, c[1] as int));
                } else {
                    assert(mutually_reachable(adj, c[j] as int, c[0] as int));
                }
            }
            let p = choose|p: Seq<int>| walk_between(adj, p, u, other);
            lemma_first_step(adj, p, u, other);
            lemma_reaches_trans(adj, p[1], other, u);
            assert(has_edge(adj, u, p[1]) && reaches(adj, p[1], u));
        } else {
            lemma_walk_single(adj, u);
            assert(has_edge(adj, u, u) && reaches(adj, u, u));
        }
    }
    if on_cycle(adj, u) {
        let w = choose|w: int| #[trigger] has_edge(adj, u, w) && reaches(adj, w, u);
        let k = choose|k: int| 0 <= k < adj[u]@.len() && (#[trigger] adj[u]@[k]).1 == w;
        assert(0 <= w < adj.len());
        lemma_edge_reaches(adj, u, w);
        assert(mutually_reachable(adj, c[j] as int, w));
        assert(c.contains(w as usize));
        if w != u {
            let jw = choose|jw: int| 0 <= jw < c.len() && c[jw] == w as usize;
            assert(jw != j);
            assert(c.len() > 1);
        } else if c.len() == 1 {
            assert(j == 0);
        }
    }
}

/// Whether a component holds a cycle: it has more than one member, or its member has an
/// edge to itself.
pub fn component_has_cycle(adj: &Adjacency, comp: &Vec<usize>) -> (cyclic: bool)
    requires
        adjacency_well_formed(adj@),
        comp.len() > 0,
        comp@[0] < adj.len(),
    ensures
        cyclic == component_is_cyclic(adj@, comp@),
{
    if comp.len() > 1 {
        return true;
    }
    let first = comp[0];
    let deg = adj[first].len();
    for k in 0..deg
        invariant
            deg == adj@[first as int]@.len(),
            comp.len() == 1,
            first == comp@[0],
            first < adj.len(),
            forall|kk: int| 0 <= kk < k ==> (#[trigger] adj@[first as int]@[kk]).1 != first,
    {
        if adj[first][k].1 == first {
            return true;
        }
    }
    false
}

/// The components that hold a cycle, in order of their smallest member.
pub fn cyclic_components(adj: &Adjacency) -> (comps: Vec<Vec<usize>>)
    requires
        adjacency_well_formed(adj@),
    ensures
        forall|i: int| 0 <= i < comps.len() ==> component_is_cyclic(adj@, #[trigger] comps@[i]@),
        forall|i: int| 0 <= i < comps.len() ==> (#[trigger] comps@[i])@.len() > 0,
        forall|i: int| 0 <= i < comps.len() ==> strictly_increasing(#[trigger] comps@[i]@),
        forall|i: int, j: int, k: int|
            0 <= i < comps.len() && 0 <= j < comps@[i]@.len() && 0 <= k < comps@[i]@.len()
                ==> mutually_reachable(adj@, #[trigger] comps@[i]@[j] as int, #[trigger] comps@[i]@[k] as int),
        forall|i: int, j: int| 0 <= i < j < comps.len() ==> comps@[i]@[0] < comps@[j]@[0],
        forall|v: int| 0 <= v < adj.len() ==> (#[trigger] on_cycle(adj@, v) <==> in_some_component(comps@, v)),
        forall|i: int, j: int, w: int| 0 <= i < comps.len() && 0 <= j < comps@[i]@.len() && 0 <= w < adj.len()
            && #[trigger] mutually_reachable(adj@, comps@[i]@[j] as int, w) ==> comps@[i]@.contains(w as usize),
{
    let all = strong_components(adj);
    let mut comps: Vec<Vec<usize>> = Vec::new();
    let ghost picked: Seq<int> = Seq::empty();
    for i in 0..all.len()
        invariant
            adjacency_well_formed(adj@),
            are_components(adj@, all@),
            forall|a: int, b: int| 0 <= a < b < all.len() ==> all@[a]@[0] < all@[b]@[0],
            picked.len() == comps.len(),
            forall|a: int| 0 <= a < picked.len() ==> 0 <= #[trigger] picked[a] < i && comps@[a]@ == all@[picked[a]]@,
            forall|a: int, b: int| 0 <= a < b < picked.len() ==> picked[a] < picked[b],
            forall|a: int| 0 <= a < comps.len() ==> component_is_cyclic(adj@, #[trigger] comps@[a]@),
            forall|a: int| 0 <= a < i && component_is_cyclic(adj@, #[trigger] all@[a]@) ==> picked.contains(a),
    {
        let cyclic = component_has_cycle(adj, &all[i]);
        let ghost picked0 = picked;
        let ghost comps0 = comps@;
        if cyclic {
            let c = all[i].clone();
            comps.push(c);
            proof {
                picked = picked.push(i as int);
                assert(comps@[comps@.len() - 1]@ == all@[i as int]@);
                assert forall|a: int| 0 <= a < picked.len() implies 0 <= #[trigger] picked[a] < i + 1 && comps@[a]@ == all@[picked[a]]@ by {
                    if a < picked0.len() {
                        assert(comps@[a] == comps0[a]);
                    }
                }
                assert forall|a: int| 0 <= a < i + 1 && component_is_cyclic(adj@, #[trigger] all@[a]@) implies picked.contains(a) by {
                    if a < i {
                        let b = choose|b: int| 0 <= b < picked0.len() && picked0[b] == a;
                        assert(picked[b] == a);
                    } else {
                        assert(picked[picked.len() - 1] == a);
                    }
                }
            }
        }
    }
    proof {
        assert forall|a: int| 0 <= a < comps.len() implies strictly_increasing(#[trigger] comps@[a]@) by {
            assert(strictly_increasing(all@[picked[a]]@));
        }
        assert forall|a: int, j: int, k: int|
            0 <= a < comps.len() && 0 <= j < comps@[a]@.len() && 0 <= k < comps@[a]@.len()
                implies mutually_reachable(adj@, #[trigger] comps@[a]@[j] as int, #[trigger] comps@[a]@[k] as int) by {
            let b = picked[a];
            assert(all@[b]@[j] == comps@[a]@[j]);
            assert(all@[b]@[k] == comps@[a]@[k]);
            assert(mutually_reachable(adj@, all@[b]@[j] as int, all@[b]@[k] as int));
        }
        assert forall|a: int| 0 <= a < comps.len() implies (#[trigger] comps@[a])@.len() > 0 by {
            assert(all@[picked[a]]@.len() > 0);
        }
        assert forall|a: int, j: int, w: int| 0 <= a < comps.len() && 0 <= j < comps@[a]@.len() && 0 <= w < adj.len()
            && #[trigger] mutually_reachable(adj@, comps@[a]@[j] as int, w) implies comps@[a]@.contains(w as usize) by {
            let b = picked[a];
            assert(all@[b]@[j] == comps@[a]@[j]);
            assert(mutually_reachable(adj@, all@[b]@[j] as int, w));
        }
        assert forall|a: int, b: int| 0 <= a < b < comps.len() implies comps@[a]@[0] < comps@[b]@[0] by {
            assert(all@[picked[a]]@[0] < all@[picked[b]]@[0]);
        }
        assert forall|v: int| 0 <= v < adj.len() implies (#[trigger] on_cycle(adj@, v) <==> in_some_component(comps@, v)) by {
            assert(in_some_component(all@, v));
            let i = choose|i: int| 0 <= i < all@.len() && #[trigger] all@[i]@.contains(v as usize);
            let j = choose|j: int| 0 <= j < all@[i]@.len() && all@[i]@[j] == v as usize;
            lemma_on_cycle_iff_component(adj@, all@, i, j);
            if on_cycle(adj@, v) {
                let a = choose|a: int| 0 <= a < picked.len() && picked[a] == i;
                assert(comps@[a]@.contains(v as usize));
            }
            if in_some_component(comps@, v) {
                let a = choose|a: int| 0 <= a < comps@.len() && #[trigger] comps@[a]@.contains(v as usize);
                let b = picked[a];
                let ja = choose|ja: int| 0 <= ja < comps@[a]@.len() && comps@[a]@[ja] == v as usize;
                assert(all@[b]@[ja] == v as usize);
                assert(all@[b]@.contains(v as usize));
                let jb = choose|jb: int| 0 <= jb < all@[b]@.len() && all@[b]@[jb] == v as usize;
                assert(mutually_reachable(adj@, all@[b]@[jb] as int, all@[i]@[j] as int)) by {
                    lemma_walk_single(adj@, v);
                }
                assert(all@[b]@.contains(v as usize));
                lemma_on_cycle_iff_component(adj@, all@, b, jb);
            }
        }
    }
    comps
}

/// Whether the graph contains a cycle.
pub fn has_cycle(adj: &Adjacency) -> (cyclic: bool)
    requires
        adjacency_well_formed(adj@),
    ensures
        cyclic == is_cyclic(adj@),
{
    let comps = cyclic_components(adj);
    proof {
        if comps.len() > 0 {
            let v = comps@[0]@[0] as int;
            assert(comps@[0]@.contains(v as usize));
            assert(in_some_component(comps@, v));
            assert(on_cycle(adj@, v));
        }
        if is_cyclic(adj@) {
            let v = choose|v: int| 0 <= v < adj.len() && #[trigger] on_cycle(adj@, v);
            assert(in_some_component(comps@, v));
        }
    }
    comps.len() > 0
}

} // verus!
