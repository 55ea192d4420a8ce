use vstd::prelude::*;
use crate::graph::{Adjacency, Graph, GraphError, adjacent, has_entry};
use crate::paths::{closed, is_hop_dist, is_path, lemma_path_push, lemma_closed_path, lemma_path_take, lemma_reach_self, lemma_reach_step, reachable, trace_back};

verus! {

/// The nodes flagged in `flags`, as a set.
pub open spec fn flagged(flags: Seq<bool>) -> Set<usize> {
    Set::new(|v: usize| v < flags.len() && flags[v as int])
}

/// What a full traversal from `start` hands back: discovery order, the flag of
/// each discovered node, and the parent through which each was discovered.
pub(crate) open spec fn traversal_ok(
    adj: Adjacency,
    start: usize,
    order: Seq<usize>,
    flags: Seq<bool>,
    parent: Seq<usize>,
    rank: Seq<nat>,
) -> bool {
    &&& order.len() > 0
    &&& order[0] == start
    &&& order.no_duplicates()
    &&& flags.len() == adj.len()
    &&& parent.len() == adj.len()
    &&& rank.len() == adj.len()
    &&& forall|i: int| 0 <= i < order.len() ==> rank[#[trigger] order[i] as int] == i
    &&& forall|i: int| 0 <= i < order.len() ==> #[trigger] order[i] < adj.len()
    &&& forall|v: usize| v < adj.len() ==> (flags[v as int] <==> order.contains(v))
    &&& forall|v: usize| #[trigger] order.contains(v) ==> reachable(adj, start, v)
    &&& forall|v: usize| #[trigger] flagged(flags).contains(v) ==> v < adj.len()
    &&& forall|v: usize|
        #[trigger] flagged(flags).contains(v) && v != start ==> flagged(flags).contains(parent[v as int])
            && adjacent(adj, parent[v as int], v) && rank[parent[v as int] as int] < rank[v as int]
}

/// Breadth-first levels: `lvl` counts the edges from `start` along parent
/// links, the queue `order` is sorted by level and spans at most two levels
/// from `head` on, no walk to a discovered node is shorter than its level,
/// and every node closer than the level at `head` has already been expanded.
pub(crate) open spec fn levels_ok(
    adj: Adjacency,
    start: usize,
    order: Seq<usize>,
    flags: Seq<bool>,
    parent: Seq<usize>,
    lvl: Seq<nat>,
    head: int,
) -> bool {
    &&& lvl.len() == adj.len()
    &&& lvl[start as int] == 0
    &&& forall|v: usize| #[trigger] flagged(flags).contains(v) && v != start ==> lvl[v as int] == lvl[parent[v as int] as int] + 1
    &&& forall|i: int, j: int| 0 <= i <= j < order.len() ==> lvl[#[trigger] order[i] as int] <= lvl[#[trigger] order[j] as int]
    &&& head < order.len() ==> lvl[order.last() as int] <= lvl[order[head] as int] + 1
    &&& forall|v: usize, p: Seq<usize>|
        flagged(flags).contains(v) && #[trigger] is_path(adj, p, start, v) ==> lvl[v as int] <= p.len() - 1
    &&& forall|y: usize, p: Seq<usize>|
        #[trigger] is_path(adj, p, start, y) && head < order.len() && p.len() - 1 < lvl[order[head] as int] ==> exists|j: int|
            0 <= j < head && order[j] == y
}

/// Breadth-first walk of everything reachable from `start`: nodes are
/// recorded the moment they are discovered, neighbors in adjacency order.
pub(crate) fn bfs_core(graph: &Graph, start: usize) -> (res: (Vec<usize>, Vec<bool>, Vec<usize>, Ghost<Seq<nat>>, Ghost<Seq<nat>>))
    requires
        graph.wf(),
        start < graph.node_seq().len(),
    ensures
        traversal_ok(graph.adjacency(), start, res.0@, res.1@, res.2@, res.3@),
        closed(graph.adjacency(), flagged(res.1@)),
        levels_ok(graph.adjacency(), start, res.0@, res.1@, res.2@, res.4@, res.0@.len() as int),
{
    let ghost adj = graph.adjacency();
    let n = graph.node_count();
    let mut visited: Vec<bool> = Vec::new();
    let mut parent: Vec<usize> = Vec::new();
    let mut i: usize = 0;
    while i < n
        invariant
            0 <= i <= n,
            visited@.len() == i,
            parent@.len() == i,
            forall|v: int| 0 <= v < i ==> !visited@[v],
        decreases n - i,
    {
        visited.push(false);
        parent.push(0);
        i = i + 1;
    }
    let ghost mut rank: Seq<nat> = Seq::new(n as nat, |v: int| 0nat);
    let ghost mut lvl: Seq<nat> = Seq::new(n as nat, |v: int| 0nat);
    visited.set(start, true);
    let mut order: Vec<usize> = Vec::new();
    order.push(start);
    proof {
        lemma_reach_self(adj, start);
        assert forall|v: usize, p: Seq<usize>|
            flagged(visited@).contains(v) && #[trigger] is_path(adj, p, start, v) implies lvl[v as int] <= p.len() - 1 by {
            assert(visited@[v as int]);
            assert(v == start);
        }
        assert forall|v: usize| v < adj.len() implies (visited@[v as int] <==> order@.contains(v)) by {
            if v == start {
                assert(order@[0] == v);
            }
        }
    }
    let mut head: usize = 0;
    while head < order.len()
        invariant
            graph.wf(),
            adj == graph.adjacency(),
            n == adj.len(),
            start < n,
            0 <= head <= order@.len(),
            order@.len() <= n,
            traversal_ok(adj, start, order@, visited@, parent@, rank),
            forall|i: int| 0 <= i < order@.len() ==> rank[#[trigger] order@[i] as int] == i,
            forall|j: int, k: int|
                0 <= j < head && 0 <= k < adj[order@[j] as int].len() ==> visited@[#[trigger] adj[order@[j] as int][k].0 as int],
            levels_ok(adj, start, order@, visited@, parent@, lvl, head as int),
        decreases n - head, n - order@.len(),
    {
        let u = order[head];
        let list = graph.adj_list(u);
        let mut k: usize = 0;
        while k < list.len()
            invariant
                graph.wf(),
                adj == graph.adjacency(),
                n == adj.len(),
                start < n,
                u < n,
                list@ == adj[u as int],
                0 <= head < order@.len(),
                order@[head as int] == u,
                0 <= k <= list@.len(),
                order@.len() <= n,
                traversal_ok(adj, start, order@, visited@, parent@, rank),
                forall|i: int| 0 <= i < order@.len() ==> rank[#[trigger] order@[i] as int] == i,
                forall|j: int, k2: int|
                    0 <= j < head && 0 <= k2 < adj[order@[j] as int].len() ==> visited@[#[trigger] adj[order@[j] as int][k2].0 as int],
                forall|k2: int| 0 <= k2 < k ==> visited@[#[trigger] list@[k2].0 as int],
                levels_ok(adj, start, order@, visited@, parent@, lvl, head as int),
            decreases list@.len() - k,
        {
            let (v, w) = list[k];
            proof {
                assert(adj[u as int][k as int] == (v, w));
                assert(has_entry(adj, u, v, w));
                assert(adjacent(adj, u, v));
            }
            if !visited[v] {
                let ghost o_order = order@;
                let ghost o_vis = visited@;
                let ghost o_par = parent@;
                let ghost o_lvl = lvl;
                proof {
                    assert(order@.contains(u));
                    lemma_reach_step(adj, start, u, v);
                    lemma_room(order@, n, v);
                    // no walk reaches `v` in fewer than `lvl[u] + 1` edges
                    assert forall|p: Seq<usize>| #[trigger] is_path(adj, p, start, v) implies lvl[u as int] + 1 <= p.len() - 1 by {
                        let ln = p.len() - 1;
                        if ln == 0 {
                            assert(visited@[start as int]);
                        } else if ln - 1 < lvl[u as int] {
                            lemma_path_take(adj, p, start, v, ln);
                            let x = p[ln - 1];
                            assert(is_path(adj, p.take(ln), start, x));
                            let j = choose|j: int| 0 <= j < head && order@[j] == x;
                            assert(adjacent(adj, p[ln - 1], p[ln]));
                            let w2 = choose|w2: u64| has_entry(adj, x, v, w2);
                            let k2 = choose|k2: int| 0 <= k2 < adj[x as int].len() && adj[x as int][k2] == (v, w2);
                            assert(visited@[adj[order@[j] as int][k2].0 as int]);
                        }
                    }
                }
                visited.set(v, true);
                parent.set(v, u);
                order.push(v);
                proof {
                    rank = rank.update(v as int, (order@.len() - 1) as nat);
                    lvl = lvl.update(v as int, lvl[u as int] + 1);
                    assert(order@[order@.len() - 1] == v);
                    assert forall|x: usize| #[trigger] flagged(visited@).contains(x) && x != v implies lvl[x as int] == o_lvl[x as int] by {}
                    assert forall|v2: usize| #[trigger] flagged(visited@).contains(v2) && v2 != start implies lvl[v2 as int] == lvl[parent@[v2 as int] as int] + 1 by {
                        if v2 != v {
                            assert(flagged(o_vis).contains(v2));
                            assert(flagged(o_vis).contains(o_par[v2 as int]));
                        }
                    }
                    assert forall|i: int, j: int| 0 <= i <= j < order@.len() implies lvl[#[trigger] order@[i] as int] <= lvl[#[trigger] order@[j] as int] by {
                        if j < o_order.len() {
                            assert(order@[i] == o_order[i] && order@[j] == o_order[j]);
                            assert(o_order[i] != v && o_order[j] != v);
                        } else if i < o_order.len() {
                            assert(order@[i] == o_order[i]);
                            assert(o_order[i] != v);
                            assert(o_lvl[o_order[i] as int] <= o_lvl[o_order[o_order.len() - 1] as int]);
                            assert(o_order[o_order.len() - 1] != v);
                        }
                    }
                    assert forall|v2: usize, p: Seq<usize>|
                        flagged(visited@).contains(v2) && #[trigger] is_path(adj, p, start, v2) implies lvl[v2 as int] <= p.len() - 1 by {
                        if v2 != v {
                            assert(flagged(o_vis).contains(v2));
                        }
                    }
                    assert forall|y: usize, p: Seq<usize>|
                        #[trigger] is_path(adj, p, start, y) && head < order@.len() && p.len() - 1 < lvl[order@[head as int] as int] implies exists|j: int|
                            0 <= j < head && order@[j] == y by {
                        assert(order@[head as int] == u);
                        assert(u != v);
                        let j = choose|j: int| 0 <= j < head && o_order[j] == y;
                        assert(order@[j] == y);
                    }
                    assert forall|v2: usize| v2 < adj.len() implies (visited@[v2 as int] <==> order@.contains(v2)) by {
                        if v2 == v {
                            assert(order@[order@.len() - 1] == v);
                        } else if o_order.contains(v2) {
                            let j = choose|j: int| 0 <= j < o_order.len() && o_order[j] == v2;
                            assert(order@[j] == v2);
                        } else if order@.contains(v2) {
                            let j = choose|j: int| 0 <= j < order@.len() && order@[j] == v2;
                            assert(o_order[j] == v2);
                        }
                    }
                    assert forall|v2: usize| #[trigger] order@.contains(v2) implies reachable(adj, start, v2) by {
                        if v2 != v {
                            let j = choose|j: int| 0 <= j < order@.len() && order@[j] == v2;
                            assert(o_order[j] == v2);
                        }
                    }
                    assert forall|i: int| 0 <= i < order@.len() implies rank[#[trigger] order@[i] as int] == i by {
                        if i < o_order.len() {
                            assert(o_order[i] != v);
                        }
                    }
                    assert forall|v2: usize|
                        #[trigger] flagged(visited@).contains(v2) && v2 != start implies flagged(visited@).contains(parent@[v2 as int])
                            && adjacent(adj, parent@[v2 as int], v2) && rank[parent@[v2 as int] as int] < rank[v2 as int] by {
                        if v2 != v {
                            assert(flagged(o_vis).contains(v2));
                        } else {
                            assert(flagged(o_vis).contains(u));
                        }
                    }
                    assert(order@.no_duplicates());
                }
            }
            k = k + 1;
        }
        proof {
            let nh = head + 1;
            assert forall|k2: int| 0 <= k2 < adj[order@[head as int] as int].len() implies visited@[#[trigger] adj[order@[head as int] as int][k2].0 as int] by {
                assert(list@[k2] == adj[u as int][k2]);
            }
            if nh < order@.len() {
                assert(lvl[u as int] <= lvl[order@[nh] as int]) by {
                    assert(order@[head as int] == u);
                }
                assert forall|y: usize, p: Seq<usize>|
                    #[trigger] is_path(adj, p, start, y) && nh < order@.len() && p.len() - 1 < lvl[order@[nh] as int] implies exists|j: int|
                        0 <= j < nh && order@[j] == y by {
                    let ln = p.len() - 1;
                    if ln < lvl[u as int] {
                        let j = choose|j: int| 0 <= j < head && order@[j] == y;
                    } else if ln == 0 {
                        assert(order@[0] == start);
                    } else {
                        lemma_path_take(adj, p, start, y, ln);
                        let x = p[ln - 1];
                        assert(is_path(adj, p.take(ln), start, x));
                        let j = choose|j: int| 0 <= j < head && order@[j] == x;
                        assert(adjacent(adj, p[ln - 1], p[ln]));
                        let w2 = choose|w2: u64| has_entry(adj, x, y, w2);
                        let k2 = choose|k2: int| 0 <= k2 < adj[x as int].len() && adj[x as int][k2] == (y, w2);
                        assert(visited@[adj[order@[j] as int][k2].0 as int]);
                        assert(order@.contains(y));
                        let m = choose|m: int| 0 <= m < order@.len() && order@[m] == y;
                        assert(flagged(visited@).contains(y));
                        assert(lvl[y as int] <= ln);
                        if m >= nh {
                            assert(lvl[order@[nh] as int] <= lvl[order@[m] as int]);
                        }
                    }
                }
            }
        }
        head = head + 1;
    }
    proof {
        assert forall|a: usize, b: usize| flagged(visited@).contains(a) && #[trigger] adjacent(adj, a, b) implies flagged(visited@).contains(b) by {
            assert(order@.contains(a));
            let j = choose|j: int| 0 <= j < order@.len() && order@[j] == a;
            let w = choose|w: u64| has_entry(adj, a, b, w);
            let k2 = choose|k2: int| 0 <= k2 < adj[a as int].len() && adj[a as int][k2] == (b, w);
            assert(visited@[adj[order@[j] as int][k2].0 as int]);
        }
    }
    (order, visited, parent, Ghost(rank), Ghost(lvl))
}

/// Path from `start` to `goal` with the fewest edges, found breadth-first;
/// `None` when `goal` cannot be reached.
pub fn bfs(graph: &Graph, start: usize, goal: usize) -> (r: Result<Option<Vec<usize>>, GraphError>)
    requires
        graph.wf(),
    ensures
        r is Err <==> (start >= graph.node_seq().len() || goal >= graph.node_seq().len()),
        r is Err ==> r->Err_0 == GraphError::InvalidHandle,
        r is Ok ==> (r->Ok_0 is Some <==> reachable(graph.adjacency(), start, goal)),
        r matches Ok(Some(p)) ==> is_path(graph.adjacency(), p@, start, goal) && p@.no_duplicates(),
        r matches Ok(Some(p)) ==> forall|q: Seq<usize>| #[trigger] is_path(graph.adjacency(), q, start, goal) ==> p@.len() <= q.len(),
{
    if start >= graph.node_count() || goal >= graph.node_count() {
        return Err(GraphError::InvalidHandle);
    }
    let (order, visited, parent, Ghost(rank), Ghost(lvl)) = bfs_core(graph, start);
    let ghost adj = graph.adjacency();
    proof {
        assert(order@[0] == start);
        assert(order@.contains(start));
    }
    if visited[goal] {
        let p = trace_back(Ghost(adj), &parent, Ghost(rank), Ghost(flagged(visited@)), start, goal);
        proof {
            lemma_walk_levels(adj, start, visited@, parent@, lvl, p@);
            assert(flagged(visited@).contains(goal));
        }
        Ok(Some(p))
    } else {
        proof {
            if reachable(adj, start, goal) {
                let p = choose|p: Seq<usize>| is_path(adj, p, start, goal);
                lemma_closed_path(adj, flagged(visited@), p, start, goal);
            }
        }
        Ok(None)
    }
}

/// The fewest-edge distance from `start` never decreases along `order`.
pub open spec fn level_order(adj: Adjacency, start: usize, order: Seq<usize>) -> bool {
    forall|i: int, j: int, d1: int, d2: int|
        0 <= i <= j < order.len() && #[trigger] is_hop_dist(adj, start, order[i], d1)
            && #[trigger] is_hop_dist(adj, start, order[j], d2) ==> d1 <= d2
}

/// Along a breadth-first order the fewest-edge distance from `start` never decreases.
proof fn lemma_levels_sorted(
    adj: Adjacency,
    start: usize,
    order: Seq<usize>,
    flags: Seq<bool>,
    parent: Seq<usize>,
    rank: Seq<nat>,
    lvl: Seq<nat>,
)
    requires
        traversal_ok(adj, start, order, flags, parent, rank),
        levels_ok(adj, start, order, flags, parent, lvl, order.len() as int),
    ensures
        level_order(adj, start, order),
{
    assert forall|i: int, j: int, d1: int, d2: int|
        0 <= i <= j < order.len() && #[trigger] is_hop_dist(adj, start, order[i], d1)
            && #[trigger] is_hop_dist(adj, start, order[j], d2) implies d1 <= d2 by {
        let (x, y) = (order[i], order[j]);
        assert(order.contains(x) && order.contains(y));
        assert(flagged(flags).contains(x) && flagged(flags).contains(y));
        lemma_level_path(adj, start, order, flags, parent, rank, lvl, x);
        let px = choose|p: Seq<usize>| is_path(adj, p, start, x) && p.len() == lvl[x as int] + 1;
        assert(d1 + 1 <= px.len());
        let py = choose|p: Seq<usize>| is_path(adj, p, start, y) && p.len() == d2 + 1;
        assert(lvl[y as int] <= py.len() - 1);
        assert(lvl[order[i] as int] <= lvl[order[j] as int]);
    }
}

/// Parent links from a discovered node give a walk from `start` with as
/// many edges as the node's level.
proof fn lemma_level_path(
    adj: Adjacency,
    start: usize,
    order: Seq<usize>,
    flags: Seq<bool>,
    parent: Seq<usize>,
    rank: Seq<nat>,
    lvl: Seq<nat>,
    v: usize,
)
    requires
        traversal_ok(adj, start, order, flags, parent, rank),
        levels_ok(adj, start, order, flags, parent, lvl, order.len() as int),
        flagged(flags).contains(v),
    ensures
        exists|p: Seq<usize>| is_path(adj, p, start, v) && p.len() == lvl[v as int] + 1,
    decreases rank[v as int],
{
    if v == start {
        assert(is_path(adj, seq![start], start, start));
    } else {
        let pv = parent[v as int];
        lemma_level_path(adj, start, order, flags, parent, rank, lvl, pv);
        let p = choose|p: Seq<usize>| is_path(adj, p, start, pv) && p.len() == lvl[pv as int] + 1;
        lemma_path_push(adj, p, start, pv, v);
        assert(is_path(adj, p.push(v), start, v) && p.push(v).len() == lvl[v as int] + 1);
    }
}

/// A walk that follows parent links from `start` has as many edges as the
/// level of its end.
proof fn lemma_walk_levels(adj: Adjacency, start: usize, flags: Seq<bool>, parent: Seq<usize>, lvl: Seq<nat>, p: Seq<usize>)
    requires
        lvl[start as int] == 0,
        forall|v: usize| #[trigger] flagged(flags).contains(v) && v != start ==> lvl[v as int] == lvl[parent[v as int] as int] + 1,
        p.len() > 0,
        p[0] == start,
        forall|i: int| 0 <= i < p.len() ==> flagged(flags).contains(#[trigger] p[i]),
        forall|i: int| 0 < i < p.len() ==> p[i - 1] == parent[#[trigger] p[i] as int],
        forall|i: int| 0 < i < p.len() ==> #[trigger] p[i] != start,
    ensures
        p.len() - 1 == lvl[p.last() as int],
    decreases p.len(),
{
    if p.len() >= 2 {
        let q = p.drop_last();
        assert forall|i: int| 0 < i < q.len() implies q[i - 1] == parent[#[trigger] q[i] as int] by {
            assert(q[i - 1] == p[i - 1] && q[i] == p[i]);
        }
        assert forall|i: int| 0 <= i < q.len() implies flagged(flags).contains(#[trigger] q[i]) && (i > 0 ==> q[i] != start) by {
            assert(q[i] == p[i]);
        }
        lemma_walk_levels(adj, start, flags, parent, lvl, q);
        assert(p[p.len() - 2] == parent[p[p.len() - 1] as int]);
        assert(flagged(flags).contains(p[p.len() - 1]));
    }
}

/// Breadth-first traversal from `start`: the flag of each handle and the
/// nodes in the order in which they were discovered.
pub fn bfs_traversal(graph: &Graph, start: usize) -> (r: Result<(Vec<bool>, Vec<usize>), GraphError>)
    requires
        graph.wf(),
    ensures
        r is Err <==> start >= graph.node_seq().len(),
        r is Err ==> r->Err_0 == GraphError::InvalidHandle,
        r matches Ok((flags, order)) ==> traversal_result(graph.adjacency(), start, flags@, order@),
        r matches Ok((flags, order)) ==> level_order(graph.adjacency(), start, order@),
{
    if start >= graph.node_count() {
        return Err(GraphError::InvalidHandle);
    }
    let (order, visited, parent, Ghost(rank), Ghost(lvl)) = bfs_core(graph, start);
    let ghost adj = graph.adjacency();
    proof {
        lemma_traversal_complete(graph.adjacency(), start, order@, visited@, parent@, rank);
        lemma_levels_sorted(adj, start, order@, visited@, parent@, rank, lvl);
    }
    Ok((visited, order))
}

/// A traversal from `start` lists each node that `start` reaches exactly
/// once, beginning with `start`, each later node joined to an earlier one,
/// and flags exactly those nodes.
pub open spec fn traversal_result(adj: Adjacency, start: usize, flags: Seq<bool>, order: Seq<usize>) -> bool {
    &&& order.len() > 0
    &&& forall|j: int| 0 < j < order.len() ==> exists|k: int| 0 <= k < j && adjacent(adj, order[k], #[trigger] order[j])
    &&& order[0] == start
    &&& order.no_duplicates()
    &&& flags.len() == adj.len()
    &&& forall|v: usize| #[trigger] order.contains(v) <==> (v < adj.len() && reachable(adj, start, v))
    &&& forall|v: usize| v < adj.len() ==> (flags[v as int] <==> order.contains(v))
}

/// Two traversals from the same start in the same graph flag the same nodes
/// and visit the same set of them, as many as each other.
pub proof fn lemma_traversals_agree(
    adj: Adjacency,
    start: usize,
    flags1: Seq<bool>,
    order1: Seq<usize>,
    flags2: Seq<bool>,
    order2: Seq<usize>,
)
    requires
        adj.len() <= usize::MAX,
        traversal_result(adj, start, flags1, order1),
        traversal_result(adj, start, flags2, order2),
    ensures
        flags1 == flags2,
        order1.to_set() == order2.to_set(),
        order1.len() == order2.len(),
{
    assert forall|v: int| 0 <= v < flags1.len() implies flags1[v] == flags2[v] by {
        assert(order1.contains(v as usize) == order2.contains(v as usize));
    }
    assert(flags1 =~= flags2);
    assert forall|v: usize| order1.to_set().contains(v) <==> order2.to_set().contains(v) by {
        assert(order1.contains(v) == order2.contains(v));
    }
    assert(order1.to_set() =~= order2.to_set());
    order1.unique_seq_to_set();
    order2.unique_seq_to_set();
}

pub(crate) proof fn lemma_traversal_complete(
    adj: Adjacency,
    start: usize,
    order: Seq<usize>,
    flags: Seq<bool>,
    parent: Seq<usize>,
    rank: Seq<nat>,
)
    requires
        traversal_ok(adj, start, order, flags, parent, rank),
        closed(adj, flagged(flags)),
    ensures
        traversal_result(adj, start, flags, order),
{
    assert(order.contains(start)) by {
        assert(order[0] == start);
    }
    assert forall|v: usize| #[trigger] order.contains(v) <==> (v < adj.len() && reachable(adj, start, v)) by {
        if order.contains(v) {
            let j = choose|j: int| 0 <= j < order.len() && order[j] == v;
            assert(order[j] < adj.len());
        }
        if v < adj.len() && reachable(adj, start, v) {
            let p = choose|p: Seq<usize>| is_path(adj, p, start, v);
            lemma_closed_path(adj, flagged(flags), p, start, v);
        }
    }
    assert forall|j: int| 0 < j < order.len() implies exists|k: int| 0 <= k < j && adjacent(adj, order[k], #[trigger] order[j]) by {
        let v = order[j];
        assert(order.contains(v));
        assert(v != start) by {
            assert(order[0] == start);
        }
        assert(flagged(flags).contains(v));
        let p = parent[v as int];
        assert(flagged(flags).contains(p));
        assert(order.contains(p));
        let k = choose|k: int| 0 <= k < order.len() && order[k] == p;
        assert(rank[order[k] as int] == k);
        assert(rank[order[j] as int] == j);
        assert(0 <= k < j && adjacent(adj, order[k], order[j]));
    }
}

/// Distinct handles below `n` that leave out one such handle number fewer than `n`.
pub(crate) proof fn lemma_room(order: Seq<usize>, n: usize, v: usize)
    requires
        order.no_duplicates(),
        forall|i: int| 0 <= i < order.len() ==> #[trigger] order[i] < n,
        v < n,
        !order.contains(v),
    ensures
        order.len() < n,
{
    let s = order.to_set();
    order.unique_seq_to_set();
    let full = <usize as vstd::set_lib::FiniteRange>::range_set(0, n);
    vstd::set_lib::range_set_properties::<usize>(0, n);
    assert(s.insert(v).subset_of(full)) by {
        assert forall|x: usize| #[trigger] s.insert(v).contains(x) implies full.contains(x) by {
            if x != v {
                let j = choose|j: int| 0 <= j < order.len() && order[j] == x;
            }
        }
    }
    vstd::set_lib::lemma_len_subset(s.insert(v), full);
}

} // verus!
