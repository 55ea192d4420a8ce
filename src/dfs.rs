use vstd::prelude::*;
use crate::bfs::{flagged, lemma_room, lemma_traversal_complete, traversal_ok, traversal_result};
use crate::graph::{Adjacency, Graph, GraphError, adjacency_wf, adjacent, has_entry};
use crate::paths::{closed, is_path, lemma_closed_path, lemma_reach_self, lemma_reach_step, reachable, trace_back};

verus! {

/// A pending entry of the stack leads to node `x` from node `u`.
pub open spec fn on_stack(st: Seq<(usize, usize)>, x: usize, u: usize) -> bool {
    exists|i: int| 0 <= i < st.len() && (#[trigger] st[i]).0 == x && st[i].1 == u
}

/// Every neighbor of `u` is flagged or pending on the stack.
pub open spec fn covered(adj: Adjacency, flags: Seq<bool>, st: Seq<(usize, usize)>, u: usize) -> bool {
    forall|k: int| 0 <= k < adj[u as int].len() ==> flags[(#[trigger] adj[u as int][k]).0 as int] || on_stack(st, adj[u as int][k].0, u)
}

/// Each pending entry `(x, p)` is an edge out of the flagged node `p`.
pub open spec fn stack_ok(adj: Adjacency, flags: Seq<bool>, st: Seq<(usize, usize)>) -> bool {
    forall|i: int| 0 <= i < st.len() ==> (#[trigger] st[i]).0 < adj.len() && flagged(flags).contains(st[i].1)
        && adjacent(adj, st[i].1, st[i].0)
}

/// Node `order[k]` still has a neighbor outside the first `j` visited nodes.
pub open spec fn open_at(adj: Adjacency, order: Seq<usize>, j: int, k: int) -> bool {
    exists|x: usize| adjacent(adj, order[k], x) && !order.take(j).contains(x)
}

/// Node `order[j]` is a neighbor of the latest earlier node that was still
/// open when `order[j]` was visited.
pub open spec fn depth_step(adj: Adjacency, order: Seq<usize>, j: int) -> bool {
    forall|k: int|
        0 <= k < j && #[trigger] open_at(adj, order, j, k) && (forall|k2: int| k < k2 < j ==> !#[trigger] open_at(adj, order, j, k2))
            ==> adjacent(adj, order[k], order[j])
}

/// `order` is a depth-first order: each node after the first continues from
/// the deepest node that can still go on.
pub open spec fn depth_first(adj: Adjacency, order: Seq<usize>) -> bool {
    forall|j: int| 0 < j < order.len() ==> #[trigger] depth_step(adj, order, j)
}

/// Pending entries lie in the order their sources were visited.
pub open spec fn stack_sorted(st: Seq<(usize, usize)>, rank: Seq<nat>) -> bool {
    forall|i: int, i2: int| 0 <= i < i2 < st.len() ==> rank[(#[trigger] st[i]).1 as int] <= rank[(#[trigger] st[i2]).1 as int]
}

/// A step fact about a prefix of the order holds of the whole order.
proof fn lemma_depth_prefix(adj: Adjacency, o: Seq<usize>, v: usize, j: int)
    requires
        0 < j < o.len(),
        depth_step(adj, o, j),
    ensures
        depth_step(adj, o.push(v), j),
{
    let n = o.push(v);
    assert(n.take(j) =~= o.take(j));
    assert forall|k: int| 0 <= k < j implies #[trigger] open_at(adj, n, j, k) == open_at(adj, o, j, k) by {
        assert(n[k] == o[k]);
    }
    assert(n[j] == o[j]);
    assert forall|k: int|
        0 <= k < j && #[trigger] open_at(adj, n, j, k) && (forall|k2: int| k < k2 < j ==> !#[trigger] open_at(adj, n, j, k2))
            implies adjacent(adj, n[k], n[j]) by {
        assert(open_at(adj, o, j, k));
        assert forall|k2: int| k < k2 < j implies !#[trigger] open_at(adj, o, j, k2) by {
            assert(!open_at(adj, n, j, k2));
        }
        assert(n[k] == o[k]);
    }
}

/// The node taken from the top of the stack continues from the latest
/// visited node that is still open.
proof fn lemma_depth_step_new(
    adj: Adjacency,
    order: Seq<usize>,
    flags: Seq<bool>,
    st: Seq<(usize, usize)>,
    rank: Seq<nat>,
    v: usize,
    p: usize,
)
    requires
        adjacency_wf(adj),
        flags.len() == adj.len(),
        order.no_duplicates(),
        forall|i: int| 0 <= i < order.len() ==> #[trigger] order[i] < adj.len(),
        forall|i: int| 0 <= i < order.len() ==> rank[#[trigger] order[i] as int] == i,
        forall|x: usize| x < adj.len() ==> (flags[x as int] <==> order.contains(x)),
        st.len() > 0,
        st.last() == (v, p),
        order.contains(p),
        !order.contains(v),
        v < adj.len(),
        adjacent(adj, p, v),
        stack_sorted(st, rank),
        stack_ok(adj, flags, st),
        forall|u: usize| #[trigger] flagged(flags).contains(u) ==> covered(adj, flags, st, u),
    ensures
        depth_step(adj, order.push(v), order.len() as int),
{
    let n = order.push(v);
    let j = order.len() as int;
    assert(n.take(j) =~= order);
    let kp = choose|kp: int| 0 <= kp < order.len() && order[kp] == p;
    assert(n[kp] == p);
    assert(open_at(adj, n, j, kp));
    assert forall|k: int|
        0 <= k < j && #[trigger] open_at(adj, n, j, k) && (forall|k2: int| k < k2 < j ==> !#[trigger] open_at(adj, n, j, k2))
            implies adjacent(adj, n[k], n[j]) by {
        if k < kp {
            assert(!open_at(adj, n, j, kp));
        } else if k > kp {
            let q = n[k];
            assert(q == order[k]);
            let x = choose|x: usize| adjacent(adj, q, x) && !n.take(j).contains(x);
            let w = choose|w: u64| has_entry(adj, q, x, w);
            let k1 = choose|k1: int| 0 <= k1 < adj[q as int].len() && adj[q as int][k1] == (x, w);
            assert(adj[q as int][k1].0 < adj.len());
            assert(!flags[x as int]);
            assert(order.contains(q));
            assert(flagged(flags).contains(q));
            assert(covered(adj, flags, st, q));
            assert(flags[adj[q as int][k1].0 as int] || on_stack(st, adj[q as int][k1].0, q));
            let i = choose|i: int| 0 <= i < st.len() && (#[trigger] st[i]).0 == x && st[i].1 == q;
            if i == st.len() - 1 {
                assert(q == p);
                assert(order[k] == order[kp]);
            } else {
                assert(rank[st[i].1 as int] <= rank[st[st.len() - 1].1 as int]);
                assert(rank[order[k] as int] == k);
                assert(rank[order[kp] as int] == kp);
            }
        }
        assert(n[j] == v);
    }
}

/// Pushes the neighbors of the flagged node `u` that are not flagged yet, the
/// last neighbor first, so that they are expanded in adjacency order.
fn push_neighbors(graph: &Graph, u: usize, visited: &Vec<bool>, stack: &mut Vec<(usize, usize)>)
    requires
        graph.wf(),
        u < graph.node_seq().len(),
        visited@.len() == graph.node_seq().len(),
        visited@[u as int],
        stack_ok(graph.adjacency(), visited@, old(stack)@),
    ensures
        stack_ok(graph.adjacency(), visited@, final(stack)@),
        covered(graph.adjacency(), visited@, final(stack)@, u),
        old(stack)@.len() <= final(stack)@.len(),
        forall|i: int| 0 <= i < old(stack)@.len() ==> final(stack)@[i] == old(stack)@[i],
        forall|i: int| old(stack)@.len() <= i < final(stack)@.len() ==> (#[trigger] final(stack)@[i]).1 == u,
{
    let ghost adj = graph.adjacency();
    let ghost st0 = stack@;
    let list = graph.adj_list(u);
    let mut k: usize = list.len();
    while k > 0
        invariant
            graph.wf(),
            adj == graph.adjacency(),
            u < adj.len(),
            list@ == adj[u as int],
            visited@.len() == adj.len(),
            visited@[u as int],
            0 <= k <= list@.len(),
            stack_ok(adj, visited@, stack@),
            st0.len() <= stack@.len(),
            forall|i: int| 0 <= i < st0.len() ==> stack@[i] == st0[i],
            forall|i: int| st0.len() <= i < stack@.len() ==> (#[trigger] stack@[i]).1 == u,
            forall|k2: int| k <= k2 < list@.len() ==> visited@[(#[trigger] list@[k2]).0 as int] || on_stack(stack@, list@[k2].0, u),
        decreases k,
    {
        k = k - 1;
        let (x, w) = list[k];
        proof {
            assert(adj[u as int][k as int] == (x, w));
            assert(has_entry(adj, u, x, w));
            assert(x < adj.len());
        }
        if !visited[x] {
            let ghost before = stack@;
            stack.push((x, u));
            proof {
                assert(stack@[before.len() as int].0 == x);
                assert forall|k2: int| k <= k2 < list@.len() implies visited@[(#[trigger] list@[k2]).0 as int] || on_stack(stack@, list@[k2].0, u) by {
                    if k2 > k && !visited@[list@[k2].0 as int] {
                        let i = choose|i: int| 0 <= i < before.len() && (#[trigger] before[i]).0 == list@[k2].0 && before[i].1 == u;
                        assert(stack@[i] == before[i]);
                    }
                }
                assert forall|i: int| 0 <= i < stack@.len() implies (#[trigger] stack@[i]).0 < adj.len() && flagged(visited@).contains(stack@[i].1)
                    && adjacent(adj, stack@[i].1, stack@[i].0) by {
                    if i < before.len() {
                        assert(stack@[i] == before[i]);
                    }
                }
            }
        }
    }
}

/// Depth-first walk of everything reachable from `start`: a node is recorded
/// when it is first expanded.
pub(crate) fn dfs_core(graph: &Graph, start: usize) -> (res: (Vec<usize>, Vec<bool>, Vec<usize>, Ghost<Seq<nat>>))
    requires
        graph.wf(),
        start < graph.node_seq().len(),
    ensures
        traversal_ok(graph.adjacency(), start, res.0@, res.1@, res.2@, res.3@),
        closed(graph.adjacency(), flagged(res.1@)),
        depth_first(graph.adjacency(), res.0@),
{
    let ghost adj = graph.adjacency();
    let n = graph.node_count();
    let mut visited: Vec<bool> = Vec::new();
    let mut parent: Vec<usize> = Vec::new();
    let mut i: usize = 0;
    while i < n
        invariant
            0 <= i <= n,
            visited@.len() == i,
            parent@.len() == i,
            forall|v: int| 0 <= v < i ==> !visited@[v],
        decreases n - i,
    {
        visited.push(false);
        parent.push(0);
        i = i + 1;
    }
    let ghost mut rank: Seq<nat> = Seq::new(n as nat, |v: int| 0nat);
    visited.set(start, true);
    let mut order: Vec<usize> = Vec::new();
    order.push(start);
    let mut stack: Vec<(usize, usize)> = Vec::new();
    proof {
        lemma_reach_self(adj, start);
        assert forall|v: usize| v < adj.len() implies (visited@[v as int] <==> order@.contains(v)) by {
            if v == start {
                assert(order@[0] == v);
            }
        }
    }
    push_neighbors(graph, start, &visited, &mut stack);
    proof {
        assert forall|u: usize| #[trigger] flagged(visited@).contains(u) implies covered(adj, visited@, stack@, u) by {
            assert(u == start);
        }
    }
    while stack.len() > 0
        invariant
            graph.wf(),
            adj == graph.adjacency(),
            n == adj.len(),
            start < n,
            order@.len() <= n,
            traversal_ok(adj, start, order@, visited@, parent@, rank),
            forall|i: int| 0 <= i < order@.len() ==> rank[#[trigger] order@[i] as int] == i,
            stack_ok(adj, visited@, stack@),
            forall|u: usize| #[trigger] flagged(visited@).contains(u) ==> covered(adj, visited@, stack@, u),
            stack_sorted(stack@, rank),
            depth_first(adj, order@),
        decreases n - order@.len(), stack@.len(),
    {
        let ghost st = stack@;
        let (v, p) = stack.pop().unwrap();
        proof {
            assert(st[st.len() - 1] == (v, p));
            assert(stack@ =~= st.drop_last());
        }
        if !visited[v] {
            let ghost o_order = order@;
            let ghost o_vis = visited@;
            proof {
                assert(flagged(visited@).contains(p));
                assert(order@.contains(p));
                lemma_reach_step(adj, start, p, v);
                assert(!order@.contains(v));
                lemma_room(order@, n, v);
                let j = choose|j: int| 0 <= j < order@.len() && order@[j] == p;
                assert(rank[order@[j] as int] == j);
                lemma_depth_step_new(adj, order@, visited@, st, rank, v, p);
                assert forall|j2: int| 0 < j2 < order@.len() + 1 implies #[trigger] depth_step(adj, order@.push(v), j2) by {
                    if j2 < order@.len() {
                        lemma_depth_prefix(adj, order@, v, j2);
                    }
                }
            }
            visited.set(v, true);
            parent.set(v, p);
            order.push(v);
            proof {
                rank = rank.update(v as int, (order@.len() - 1) as nat);
                assert forall|v2: usize| v2 < adj.len() implies (visited@[v2 as int] <==> order@.contains(v2)) by {
                    if v2 == v {
                        assert(order@[order@.len() - 1] == v);
                    } else if o_order.contains(v2) {
                        let j = choose|j: int| 0 <= j < o_order.len() && o_order[j] == v2;
                        assert(order@[j] == v2);
                    } else if order@.contains(v2) {
                        let j = choose|j: int| 0 <= j < order@.len() && order@[j] == v2;
                        assert(o_order[j] == v2);
                    }
                }
                assert forall|v2: usize| #[trigger] order@.contains(v2) implies reachable(adj, start, v2) by {
                    if v2 != v {
                        let j = choose|j: int| 0 <= j < order@.len() && order@[j] == v2;
                        assert(o_order[j] == v2);
                    }
                }
                assert forall|i: int| 0 <= i < order@.len() implies rank[#[trigger] order@[i] as int] == i by {
                    if i < o_order.len() {
                        assert(o_order[i] != v);
                    }
                }
                assert forall|v2: usize|
                    #[trigger] flagged(visited@).contains(v2) && v2 != start implies flagged(visited@).contains(parent@[v2 as int])
                        && adjacent(adj, parent@[v2 as int], v2) && rank[parent@[v2 as int] as int] < rank[v2 as int] by {
                    if v2 != v {
                        assert(flagged(o_vis).contains(v2));
                    }
                }
                assert(order@.no_duplicates());
                assert forall|i: int| 0 <= i < stack@.len() implies (#[trigger] stack@[i]).0 < adj.len() && flagged(visited@).contains(stack@[i].1)
                    && adjacent(adj, stack@[i].1, stack@[i].0) by {
                    assert(stack@[i] == st[i]);
                    assert(flagged(o_vis).contains(stack@[i].1));
                }
                assert forall|u: usize| #[trigger] flagged(visited@).contains(u) && u != v implies covered(adj, visited@, stack@, u) by {
                    assert(flagged(o_vis).contains(u));
                    assert forall|k: int| 0 <= k < adj[u as int].len() implies visited@[(#[trigger] adj[u as int][k]).0 as int] || on_stack(stack@, adj[u as int][k].0, u) by {
                        let x = adj[u as int][k].0;
                        if !visited@[x as int] {
                            assert(!o_vis[x as int]);
                            let i = choose|i: int| 0 <= i < st.len() && (#[trigger] st[i]).0 == x && st[i].1 == u;
                            assert(i != st.len() - 1);
                            assert(stack@[i] == st[i]);
                        }
                    }
                }
            }
            let ghost st1 = stack@;
            push_neighbors(graph, v, &visited, &mut stack);
            proof {
                assert forall|u: usize| #[trigger] flagged(visited@).contains(u) implies covered(adj, visited@, stack@, u) by {
                    if u != v {
                        assert(covered(adj, visited@, st1, u));
                        assert forall|k: int| 0 <= k < adj[u as int].len() implies visited@[(#[trigger] adj[u as int][k]).0 as int] || on_stack(stack@, adj[u as int][k].0, u) by {
                            let x = adj[u as int][k].0;
                            if !visited@[x as int] {
                                let i = choose|i: int| 0 <= i < st1.len() && (#[trigger] st1[i]).0 == x && st1[i].1 == u;
                                assert(stack@[i] == st1[i]);
                            }
                        }
                    }
                }
            }
        } else {
            proof {
                assert forall|i: int| 0 <= i < stack@.len() implies (#[trigger] stack@[i]).0 < adj.len() && flagged(visited@).contains(stack@[i].1)
                    && adjacent(adj, stack@[i].1, stack@[i].0) by {
                    assert(stack@[i] == st[i]);
                }
                assert forall|u: usize| #[trigger] flagged(visited@).contains(u) implies covered(adj, visited@, stack@, u) by {
                    assert forall|k: int| 0 <= k < adj[u as int].len() implies visited@[(#[trigger] adj[u as int][k]).0 as int] || on_stack(stack@, adj[u as int][k].0, u) by {
                        let x = adj[u as int][k].0;
                        if !visited@[x as int] {
                            let i = choose|i: int| 0 <= i < st.len() && (#[trigger] st[i]).0 == x && st[i].1 == u;
                            assert(i != st.len() - 1);
                            assert(stack@[i] == st[i]);
                        }
                    }
                }
            }
        }
    }
    proof {
        assert forall|a: usize, b: usize| flagged(visited@).contains(a) && #[trigger] adjacent(adj, a, b) implies flagged(visited@).contains(b) by {
            let w = choose|w: u64| has_entry(adj, a, b, w);
            let k2 = choose|k2: int| 0 <= k2 < adj[a as int].len() && adj[a as int][k2] == (b, w);
            assert(covered(adj, visited@, stack@, a));
            assert(visited@[adj[a as int][k2].0 as int] || on_stack(stack@, adj[a as int][k2].0, a));
        }
    }
    (order, visited, parent, Ghost(rank))
}

/// Some path from `start` to `goal`, found depth-first (not necessarily the
/// shortest); `None` when `goal` cannot be reached.
pub fn dfs(graph: &Graph, start: usize, goal: usize) -> (r: Result<Option<Vec<usize>>, GraphError>)
    requires
        graph.wf(),
    ensures
        r is Err <==> (start >= graph.node_seq().len() || goal >= graph.node_seq().len()),
        r is Err ==> r->Err_0 == GraphError::InvalidHandle,
        r is Ok ==> (r->Ok_0 is Some <==> reachable(graph.adjacency(), start, goal)),
        r matches Ok(Some(p)) ==> is_path(graph.adjacency(), p@, start, goal) && p@.no_duplicates(),
{
    if start >= graph.node_count() || goal >= graph.node_count() {
        return Err(GraphError::InvalidHandle);
    }
    let (order, visited, parent, Ghost(rank)) = dfs_core(graph, start);
    let ghost adj = graph.adjacency();
    proof {
        assert(order@[0] == start);
        assert(order@.contains(start));
    }
    if visited[goal] {
        let p = trace_back(Ghost(adj), &parent, Ghost(rank), Ghost(flagged(visited@)), start, goal);
        Ok(Some(p))
    } else {
        proof {
            if reachable(adj, start, goal) {
                let p = choose|p: Seq<usize>| is_path(adj, p, start, goal);
                lemma_closed_path(adj, flagged(visited@), p, start, goal);
            }
        }
        Ok(None)
    }
}

/// Depth-first traversal from `start`: the flag of each handle and the nodes
/// in the order in which they were expanded.
pub fn dfs_traversal(graph: &Graph, start: usize) -> (r: Result<(Vec<bool>, Vec<usize>), GraphError>)
    requires
        graph.wf(),
    ensures
        r is Err <==> start >= graph.node_seq().len(),
        r is Err ==> r->Err_0 == GraphError::InvalidHandle,
        r matches Ok((flags, order)) ==> traversal_result(graph.adjacency(), start, flags@, order@),
        r matches Ok((flags, order)) ==> depth_first(graph.adjacency(), order@),
{
    if start >= graph.node_count() {
        return Err(GraphError::InvalidHandle);
    }
    let (order, visited, parent, Ghost(rank)) = dfs_core(graph, start);
    proof {
        lemma_traversal_complete(graph.adjacency(), start, order@, visited@, parent@, rank);
    }
    Ok((visited, order))
}

} // verus!
