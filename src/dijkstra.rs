use vstd::prelude::*;
use crate::bfs::{flagged, lemma_room};
use crate::graph::{Adjacency, Graph, GraphError, adjacency_wf, adjacent, has_entry, lemma_weight_of_entry, weight};
use crate::paths::{
    closed, is_min_cost, is_path, lemma_closed_path, lemma_cost_prefix, lemma_exit, lemma_path_push, lemma_path_take,
    path_cost, reachable, trace_back,
};

verus! {

/// Bound on one edge weight, used to show that distances fit in `u128`.
pub const WEIGHT_BOUND: u128 = 18_446_744_073_709_551_615;

/// The bookkeeping of a shortest-distance search from `start`: finalized
/// nodes in `order` and `done`, tentative distances in `dist` for `known`
/// nodes, and the parent that last improved each of them.
pub open spec fn search_state(
    adj: Adjacency,
    start: usize,
    dist: Seq<u128>,
    known: Seq<bool>,
    done: Seq<bool>,
    parent: Seq<usize>,
    order: Seq<usize>,
    rank: Seq<nat>,
) -> bool {
    &&& frontier_state(adj, start, dist, known, done, parent, order, rank)
    &&& forall|u: usize, p: Seq<usize>|
        u < adj.len() && done[u as int] && #[trigger] is_path(adj, p, start, u) ==> dist[u as int] <= path_cost(adj, p)
}

/// The tentative node of least distance is as close as any walk allows.
proof fn lemma_select_optimal(
    adj: Adjacency,
    start: usize,
    dist: Seq<u128>,
    known: Seq<bool>,
    done: Seq<bool>,
    parent: Seq<usize>,
    order: Seq<usize>,
    rank: Seq<nat>,
    u: usize,
)
    requires
        adjacency_wf(adj),
        search_state(adj, start, dist, known, done, parent, order, rank),
        u < adj.len(),
        known[u as int],
        !done[u as int],
        forall|v: int| 0 <= v < known.len() && known[v] && !done[v] ==> dist[u as int] <= dist[v],
    ensures
        forall|p: Seq<usize>| #[trigger] is_path(adj, p, start, u) ==> dist[u as int] <= path_cost(adj, p),
{
    assert forall|p: Seq<usize>| #[trigger] is_path(adj, p, start, u) implies dist[u as int] <= path_cost(adj, p) by {
        lemma_cost_prefix(adj, p, 1);
        if u != start {
            let c = flagged(done);
            assert(done[start as int]) by {
                if !done[start as int] {
                    let pu = parent[u as int];
                    assert(done[pu as int]);
                    assert(order.contains(pu));
                }
            }
            assert(c.contains(p[0]));
            lemma_exit(adj, c, p);
            let j = choose|j: int| 1 <= j < p.len() && c.contains(p[j - 1]) && !c.contains(#[trigger] p[j]);
            let x = p[j - 1];
            let y = p[j];
            assert(adjacent(adj, p[j - 1], p[j]));
            let w = choose|w: u64| has_entry(adj, x, y, w);
            lemma_weight_of_entry(adj, x, y, w);
            lemma_path_take(adj, p, start, u, j);
            assert(is_path(adj, p.take(j), start, x));
            assert(p.take(j + 1).drop_last() =~= p.take(j));
            lemma_cost_prefix(adj, p, j + 1);
            let q = p.take(j + 1);
            assert(q[q.len() - 2] == x);
            assert(path_cost(adj, q) == path_cost(adj, p.take(j)) + weight(adj, x, y));
            assert(dist[x as int] <= path_cost(adj, p.take(j)));
            assert(known[y as int] && !done[y as int]);
            assert(dist[y as int] <= dist[x as int] + w);
            assert(dist[u as int] <= dist[y as int]);
        }
    }
}

/// What the parent links of finalized nodes satisfy: each leads to a node
/// finalized earlier, along an edge whose weight makes up the distance.
pub open spec fn chain_state(
    adj: Adjacency,
    start: usize,
    dist: Seq<u128>,
    done: Seq<bool>,
    parent: Seq<usize>,
    order: Seq<usize>,
    rank: Seq<nat>,
) -> bool {
    &&& dist.len() == adj.len() && done.len() == adj.len()
    &&& parent.len() == adj.len() && rank.len() == adj.len()
    &&& start < adj.len()
    &&& order.no_duplicates()
    &&& forall|i: int| 0 <= i < order.len() ==> #[trigger] order[i] < adj.len()
    &&& forall|v: usize| v < adj.len() ==> (done[v as int] <==> order.contains(v))
    &&& forall|i: int| 0 <= i < order.len() ==> rank[#[trigger] order[i] as int] == i
    &&& forall|v: usize| #[trigger] flagged(done).contains(v) ==> v < adj.len()
    &&& done[start as int] && dist[start as int] == 0
    &&& forall|v: usize|
        #![trigger done[v as int]]
        v < adj.len() && done[v as int] && v != start ==> done[parent[v as int] as int] && parent[v as int]
            < adj.len() && adjacent(adj, parent[v as int], v) && dist[v as int] == dist[parent[v as int] as int]
            + weight(adj, parent[v as int], v) && rank[parent[v as int] as int] < rank[v as int]
}

/// Once `start` is finalized, the frontier state holds the chain state.
pub(crate) proof fn lemma_frontier_chain(
    adj: Adjacency,
    start: usize,
    dist: Seq<u128>,
    known: Seq<bool>,
    done: Seq<bool>,
    parent: Seq<usize>,
    order: Seq<usize>,
    rank: Seq<nat>,
)
    requires
        frontier_state(adj, start, dist, known, done, parent, order, rank),
        done[start as int],
    ensures
        chain_state(adj, start, dist, done, parent, order, rank),
{
    assert forall|v: usize|
        #![trigger done[v as int]]
        v < adj.len() && done[v as int] && v != start implies done[parent[v as int] as int] && parent[v as int]
            < adj.len() && adjacent(adj, parent[v as int], v) && dist[v as int] == dist[parent[v as int] as int]
            + weight(adj, parent[v as int], v) && rank[parent[v as int] as int] < rank[v as int] by {
        assert(known[v as int]);
    }
}

/// The part of the search state that holds whatever order nodes are
/// finalized in.
pub open spec fn frontier_state(
    adj: Adjacency,
    start: usize,
    dist: Seq<u128>,
    known: Seq<bool>,
    done: Seq<bool>,
    parent: Seq<usize>,
    order: Seq<usize>,
    rank: Seq<nat>,
) -> bool {
    &&& dist.len() == adj.len() && known.len() == adj.len() && done.len() == adj.len()
    &&& parent.len() == adj.len() && rank.len() == adj.len()
    &&& start < adj.len()
    &&& order.no_duplicates()
    &&& order.len() <= adj.len()
    &&& forall|i: int| 0 <= i < order.len() ==> #[trigger] order[i] < adj.len()
    &&& forall|v: usize| v < adj.len() ==> (done[v as int] <==> order.contains(v))
    &&& forall|i: int| 0 <= i < order.len() ==> rank[#[trigger] order[i] as int] == i
    &&& forall|v: usize| #[trigger] flagged(done).contains(v) ==> v < adj.len()
    &&& known[start as int] && dist[start as int] == 0
    &&& !done[start as int] ==> order.len() == 0
    &&& forall|v: int| 0 <= v < adj.len() && done[v] ==> known[v]
    &&& forall|v: int| 0 <= v < adj.len() && known[v] ==> dist[v] <= order.len() * WEIGHT_BOUND
    &&& forall|v: usize|
        #![trigger known[v as int]]
        v < adj.len() && known[v as int] && v != start ==> done[parent[v as int] as int] && parent[v as int]
            < adj.len() && adjacent(adj, parent[v as int], v) && dist[v as int] == dist[parent[v as int] as int]
            + weight(adj, parent[v as int], v) && rank[parent[v as int] as int] < order.len() && (done[v as int]
            ==> rank[parent[v as int] as int] < rank[v as int])
    &&& forall|x: usize, v: usize, w: u64|
        #[trigger] has_entry(adj, x, v, w) && done[x as int] ==> known[v as int] && (!done[v as int] ==> dist[v as int]
            <= dist[x as int] + w)
}

/// The tentative node with the least distance, the lowest handle among equals;
/// `None` when no tentative node is left.
fn pick_min(dist: &Vec<u128>, known: &Vec<bool>, done: &Vec<bool>) -> (r: Option<usize>)
    requires
        dist@.len() == known@.len(),
        done@.len() == known@.len(),
    ensures
        r is None ==> forall|v: int| 0 <= v < known@.len() ==> !(known@[v] && !done@[v]),
        r matches Some(u) ==> u < known@.len() && known@[u as int] && !done@[u as int] && forall|v: int|
            0 <= v < known@.len() && known@[v] && !done@[v] ==> dist@[u as int] <= dist@[v],
{
    let mut best: Option<usize> = None;
    let mut v: usize = 0;
    while v < known.len()
        invariant
            dist@.len() == known@.len(),
            done@.len() == known@.len(),
            0 <= v <= known@.len(),
            best is None ==> forall|x: int| 0 <= x < v ==> !(known@[x] && !done@[x]),
            best matches Some(u) ==> u < v && known@[u as int] && !done@[u as int] && forall|x: int|
                0 <= x < v && known@[x] && !done@[x] ==> dist@[u as int] <= dist@[x],
        decreases known@.len() - v,
    {
        if known[v] && !done[v] {
            match best {
                None => {
                    best = Some(v);
                },
                Some(u) => {
                    if dist[v] < dist[u] {
                        best = Some(v);
                    }
                },
            }
        }
        v = v + 1;
    }
    best
}

/// Dijkstra's relaxation from `start`, run until no tentative node is left.
#[verifier::rlimit(100)]
pub(crate) fn dijkstra_core(graph: &Graph, start: usize) -> (res: (Vec<u128>, Vec<bool>, Vec<usize>, Vec<usize>, Ghost<Seq<nat>>))
    requires
        graph.wf(),
        start < graph.node_seq().len(),
    ensures
        ({
            let (dist, done, parent, order, rank) = res;
            &&& search_state(graph.adjacency(), start, dist@, done@, done@, parent@, order@, rank@)
            &&& closed(graph.adjacency(), flagged(done@))
            &&& done@[start as int]
        }),
{
    let ghost adj = graph.adjacency();
    let n = graph.node_count();
    let mut dist: Vec<u128> = Vec::new();
    let mut known: Vec<bool> = Vec::new();
    let mut done: Vec<bool> = Vec::new();
    let mut parent: Vec<usize> = Vec::new();
    let mut i: usize = 0;
    while i < n
        invariant
            0 <= i <= n,
            dist@.len() == i && known@.len() == i && done@.len() == i && parent@.len() == i,
            forall|v: int| 0 <= v < i ==> !known@[v] && !done@[v] && dist@[v] == 0,
        decreases n - i,
    {
        dist.push(0);
        known.push(false);
        done.push(false);
        parent.push(0);
        i = i + 1;
    }
    known.set(start, true);
    let mut order: Vec<usize> = Vec::new();
    let ghost mut rank: Seq<nat> = Seq::new(n as nat, |v: int| 0nat);
    proof {
        assert forall|u: usize, p: Seq<usize>|
            u < adj.len() && done@[u as int] && #[trigger] is_path(adj, p, start, u) implies dist@[u as int] <= path_cost(adj, p) by {}
    }
    loop
        invariant
            graph.wf(),
            adj == graph.adjacency(),
            n == adj.len(),
            frontier_state(adj, start, dist@, known@, done@, parent@, order@, rank),
            forall|u: usize, p: Seq<usize>|
                u < adj.len() && done@[u as int] && #[trigger] is_path(adj, p, start, u) ==> dist@[u as int] <= path_cost(adj, p),
        ensures
            forall|v: int| 0 <= v < n ==> !(known@[v] && !done@[v]),
        decreases n - order@.len(),
    {
        let next = pick_min(&dist, &known, &done);
        let u = match next {
            None => {
                break;
            },
            Some(u) => u,
        };
        let ghost o_order = order@;
        let ghost o_done = done@;
        let ghost o_rank = rank;
        proof {
            assert(!order@.contains(u));
            lemma_room(order@, n, u);
            lemma_select_optimal(adj, start, dist@, known@, done@, parent@, order@, rank, u);
        }
        done.set(u, true);
        order.push(u);
        proof {
            rank = rank.update(u as int, (order@.len() - 1) as nat);
            assert forall|v: usize| v < adj.len() implies (done@[v as int] <==> order@.contains(v)) by {
                if v == u {
                    assert(order@[order@.len() - 1] == v);
                } else if o_order.contains(v) {
                    let j = choose|j: int| 0 <= j < o_order.len() && o_order[j] == v;
                    assert(order@[j] == v);
                } else if order@.contains(v) {
                    let j = choose|j: int| 0 <= j < order@.len() && order@[j] == v;
                    assert(o_order[j] == v);
                }
            }
            assert forall|i: int| 0 <= i < order@.len() implies rank[#[trigger] order@[i] as int] == i by {
                if i < o_order.len() {
                    assert(o_order[i] != u);
                }
            }
            assert forall|v: usize|
                #![trigger known@[v as int]]
                v < adj.len() && known@[v as int] && v != start implies done@[parent@[v as int] as int] && parent@[v as int]
                    < adj.len() && adjacent(adj, parent@[v as int], v) && dist@[v as int] == dist@[parent@[v as int] as int]
                    + weight(adj, parent@[v as int], v) && rank[parent@[v as int] as int] < order@.len() && (done@[v as int]
                    ==> rank[parent@[v as int] as int] < rank[v as int]) by {
                let pv = parent@[v as int];
                if pv != u {
                    assert(rank[pv as int] == o_rank[pv as int]);
                }
                if v == u {
                    assert(o_done[pv as int]);
                    assert(o_order.contains(pv));
                    let j = choose|j: int| 0 <= j < o_order.len() && o_order[j] == pv;
                    assert(order@[j] == pv);
                }
            }
            assert forall|x: usize, v: usize, w: u64|
                #[trigger] has_entry(adj, x, v, w) && done@[x as int] && x != u implies known@[v as int] && (!done@[v as int] ==> dist@[v as int]
                    <= dist@[x as int] + w) by {
                assert(o_done[x as int]);
            }
        }
        let list = graph.adj_list(u);
        let mut k: usize = 0;
        while k < list.len()
            invariant
                graph.wf(),
                adj == graph.adjacency(),
                n == adj.len(),
                u < n,
                list@ == adj[u as int],
                0 <= k <= list@.len(),
                done@[u as int],
                order@.len() > 0,
                order@.last() == u,
                dist@[u as int] <= (order@.len() - 1) * WEIGHT_BOUND,
                order@.len() <= usize::MAX,
                search_state_but_u(adj, start, dist@, known@, done@, parent@, order@, rank, u),
                forall|k2: int| 0 <= k2 < k ==> ({
                    let (v, w) = #[trigger] list@[k2];
                    known@[v as int] && (!done@[v as int] ==> dist@[v as int] <= dist@[u as int] + w)
                }),
            decreases list@.len() - k,
        {
            let (v, w) = list[k];
            proof {
                assert(adj[u as int][k as int] == (v, w));
                assert(has_entry(adj, u, v, w));
                lemma_weight_of_entry(adj, u, v, w);
            }
            if !done[v] {
                assert(dist@[u as int] + w <= order@.len() * WEIGHT_BOUND) by (nonlinear_arith)
                    requires
                        dist@[u as int] <= (order@.len() - 1) * WEIGHT_BOUND,
                        w <= WEIGHT_BOUND,
                        order@.len() >= 1;
                assert(order@.len() * WEIGHT_BOUND <= u128::MAX) by (nonlinear_arith)
                    requires order@.len() <= usize::MAX;
                let nd: u128 = dist[u] + w as u128;
                if !known[v] || nd < dist[v] {
                    let ghost o_dist = dist@;
                    let ghost o_known = known@;
                    dist.set(v, nd);
                    known.set(v, true);
                    parent.set(v, u);
                    proof {
                        assert(search_state_but_u(adj, start, dist@, known@, done@, parent@, order@, rank, u)) by {
                            assert forall|x: usize, v2: usize, w2: u64|
                                #[trigger] has_entry(adj, x, v2, w2) && done@[x as int] && x != u implies known@[v2 as int] && (!done@[v2 as int] ==> dist@[v2 as int]
                                    <= dist@[x as int] + w2) by {
                                assert(o_known[v2 as int] && (!done@[v2 as int] ==> o_dist[v2 as int] <= o_dist[x as int] + w2));
                            }
                            assert forall|x: usize, p: Seq<usize>|
                                x < adj.len() && done@[x as int] && #[trigger] is_path(adj, p, start, x) implies dist@[x as int] <= path_cost(adj, p) by {
                                assert(o_dist[x as int] <= path_cost(adj, p));
                            }
                            assert forall|v2: usize|
                                #![trigger known@[v2 as int]]
                                v2 < adj.len() && known@[v2 as int] && v2 != start implies done@[parent@[v2 as int] as int] && parent@[v2 as int]
                                    < adj.len() && adjacent(adj, parent@[v2 as int], v2) && dist@[v2 as int] == dist@[parent@[v2 as int] as int]
                                    + weight(adj, parent@[v2 as int], v2) && rank[parent@[v2 as int] as int] < order@.len() && (done@[v2 as int]
                                    ==> rank[parent@[v2 as int] as int] < rank[v2 as int]) by {
                                if v2 != v {
                                    assert(o_known[v2 as int]);
                                } else {
                                    assert(order@[order@.len() - 1] == u);
                                }
                            }
                            assert(v != start) by {
                                if v == start {
                                    assert(done@[start as int]) by {
                                        assert(o_done[start as int] || u == start);
                                    }
                                }
                            }
                        }
                    }
                }
            }
            k = k + 1;
        }
        proof {
            assert forall|x: usize, v: usize, w: u64|
                #[trigger] has_entry(adj, x, v, w) && done@[x as int] implies known@[v as int] && (!done@[v as int] ==> dist@[v as int]
                    <= dist@[x as int] + w) by {
                if x == u {
                    let k2 = choose|k2: int| 0 <= k2 < adj[u as int].len() && adj[u as int][k2] == (v, w);
                    assert(list@[k2] == (v, w));
                }
            }
        }
    }
    proof {
        assert forall|v: int| 0 <= v < adj.len() implies known@[v] == done@[v] by {}
        assert(known@ =~= done@);
        assert forall|a: usize, b: usize| flagged(done@).contains(a) && #[trigger] adjacent(adj, a, b) implies flagged(done@).contains(b) by {
            let w = choose|w: u64| has_entry(adj, a, b, w);
        }
    }
    (dist, done, parent, order, Ghost(rank))
}

/// The search state with the entries of `u`, the node being finalized, not
/// yet all relaxed.
pub open spec fn search_state_but_u(
    adj: Adjacency,
    start: usize,
    dist: Seq<u128>,
    known: Seq<bool>,
    done: Seq<bool>,
    parent: Seq<usize>,
    order: Seq<usize>,
    rank: Seq<nat>,
    u: usize,
) -> bool {
    &&& dist.len() == adj.len() && known.len() == adj.len() && done.len() == adj.len()
    &&& parent.len() == adj.len() && rank.len() == adj.len()
    &&& start < adj.len()
    &&& order.no_duplicates()
    &&& order.len() <= adj.len()
    &&& forall|i: int| 0 <= i < order.len() ==> #[trigger] order[i] < adj.len()
    &&& forall|v: usize| v < adj.len() ==> (done[v as int] <==> order.contains(v))
    &&& forall|i: int| 0 <= i < order.len() ==> rank[#[trigger] order[i] as int] == i
    &&& forall|v: usize| #[trigger] flagged(done).contains(v) ==> v < adj.len()
    &&& known[start as int] && dist[start as int] == 0
    &&& !done[start as int] ==> order.len() == 0
    &&& forall|v: int| 0 <= v < adj.len() && done[v] ==> known[v]
    &&& forall|v: int| 0 <= v < adj.len() && known[v] ==> dist[v] <= order.len() * WEIGHT_BOUND
    &&& forall|v: usize|
        #![trigger known[v as int]]
        v < adj.len() && known[v as int] && v != start ==> done[parent[v as int] as int] && parent[v as int]
            < adj.len() && adjacent(adj, parent[v as int], v) && dist[v as int] == dist[parent[v as int] as int]
            + weight(adj, parent[v as int], v) && rank[parent[v as int] as int] < order.len() && (done[v as int]
            ==> rank[parent[v as int] as int] < rank[v as int])
    &&& forall|x: usize, v: usize, w: u64|
        #[trigger] has_entry(adj, x, v, w) && done[x as int] && x != u ==> known[v as int] && (!done[v as int] ==> dist[v as int]
            <= dist[x as int] + w)
    &&& forall|x: usize, p: Seq<usize>|
        x < adj.len() && done[x as int] && #[trigger] is_path(adj, p, start, x) ==> dist[x as int] <= path_cost(adj, p)
}

/// Following parent links back from a finalized node gives a walk from
/// `start` whose cost is the node's distance.
pub(crate) proof fn lemma_chain_path(
    adj: Adjacency,
    start: usize,
    dist: Seq<u128>,
    done: Seq<bool>,
    parent: Seq<usize>,
    order: Seq<usize>,
    rank: Seq<nat>,
    v: usize,
)
    requires
        chain_state(adj, start, dist, done, parent, order, rank),
        v < adj.len(),
        done[v as int],
    ensures
        exists|p: Seq<usize>| is_path(adj, p, start, v) && path_cost(adj, p) == dist[v as int],
    decreases rank[v as int],
{
    if v == start {
        assert(is_path(adj, seq![start], start, start));
        assert(path_cost(adj, seq![start]) == 0);
    } else {
        assert(done[v as int]);
        let pv = parent[v as int];
        lemma_chain_path(adj, start, dist, done, parent, order, rank, pv);
        let p = choose|p: Seq<usize>| is_path(adj, p, start, pv) && path_cost(adj, p) == dist[pv as int];
        lemma_path_push(adj, p, start, pv, v);
        assert(p.push(v).drop_last() =~= p);
        assert(path_cost(adj, p.push(v)) == dist[v as int]);
    }
}

/// A walk that follows parent links from `start` costs the distance of its end.
pub(crate) proof fn lemma_walk_cost(
    adj: Adjacency,
    start: usize,
    dist: Seq<u128>,
    done: Seq<bool>,
    parent: Seq<usize>,
    order: Seq<usize>,
    rank: Seq<nat>,
    p: Seq<usize>,
)
    requires
        chain_state(adj, start, dist, done, parent, order, rank),
        p.len() > 0,
        p[0] == start,
        forall|i: int| 0 <= i < p.len() ==> #[trigger] p[i] < adj.len() && done[p[i] as int],
        forall|i: int| 0 < i < p.len() ==> p[i - 1] == parent[#[trigger] p[i] as int],
        forall|i: int| 0 < i < p.len() ==> #[trigger] p[i] != start,
    ensures
        path_cost(adj, p) == dist[p.last() as int],
    decreases p.len(),
{
    if p.len() >= 2 {
        let q = p.drop_last();
        assert forall|i: int| 0 < i < q.len() implies q[i - 1] == parent[#[trigger] q[i] as int] by {
            assert(q[i - 1] == p[i - 1] && q[i] == p[i]);
        }
        assert forall|i: int| 0 <= i < q.len() implies #[trigger] q[i] < adj.len() && done[q[i] as int] && (i > 0 ==> q[i] != start) by {
            assert(q[i] == p[i]);
        }
        lemma_walk_cost(adj, start, dist, done, parent, order, rank, q);
        let v = p.last();
        assert(p[p.len() - 2] == parent[p[p.len() - 1] as int]);
        assert(v != start);
        assert(known_parent(adj, start, dist, done, parent, order, rank, v));
    }
}

spec fn known_parent(
    adj: Adjacency,
    start: usize,
    dist: Seq<u128>,
    done: Seq<bool>,
    parent: Seq<usize>,
    order: Seq<usize>,
    rank: Seq<nat>,
    v: usize,
) -> bool {
    v != start ==> dist[v as int] == dist[parent[v as int] as int] + weight(adj, parent[v as int], v)
}

/// Each handle's shortest distance from `start`, `None` where `start` does not reach it.
pub open spec fn distances_ok(adj: Adjacency, start: usize, d: Seq<Option<u128>>) -> bool {
    &&& d.len() == adj.len()
    &&& forall|v: usize| v < adj.len() ==> (#[trigger] d[v as int] is Some <==> reachable(adj, start, v))
    &&& forall|v: usize| v < adj.len() && #[trigger] d[v as int] is Some ==> is_min_cost(adj, start, v, d[v as int]->Some_0 as int)
}

/// Shortest distance from `start` to every node, by Dijkstra's algorithm.
pub fn dijkstra_algorithm(graph: &Graph, start: usize) -> (r: Result<Vec<Option<u128>>, GraphError>)
    requires
        graph.wf(),
    ensures
        r is Err <==> start >= graph.node_seq().len(),
        r is Err ==> r->Err_0 == GraphError::InvalidHandle,
        r matches Ok(d) ==> distances_ok(graph.adjacency(), start, d@),
{
    if start >= graph.node_count() {
        return Err(GraphError::InvalidHandle);
    }
    let ghost adj = graph.adjacency();
    let (dist, done, parent, order, Ghost(rank)) = dijkstra_core(graph, start);
    proof {
        lemma_frontier_chain(adj, start, dist@, done@, done@, parent@, order@, rank);
    }
    let mut d: Vec<Option<u128>> = Vec::new();
    let mut v: usize = 0;
    while v < done.len()
        invariant
            chain_state(adj, start, dist@, done@, parent@, order@, rank),
            search_state(adj, start, dist@, done@, done@, parent@, order@, rank),
            closed(adj, flagged(done@)),
            done@[start as int],
            0 <= v <= done@.len(),
            d@.len() == v,
            forall|x: usize| x < v ==> (#[trigger] d@[x as int] is Some <==> reachable(adj, start, x)),
            forall|x: usize| x < v && #[trigger] d@[x as int] is Some ==> is_min_cost(adj, start, x, d@[x as int]->Some_0 as int),
        decreases done@.len() - v,
    {
        if done[v] {
            proof {
                lemma_chain_path(adj, start, dist@, done@, parent@, order@, rank, v);
            }
            d.push(Some(dist[v]));
        } else {
            proof {
                if reachable(adj, start, v) {
                    let p = choose|p: Seq<usize>| is_path(adj, p, start, v);
                    lemma_closed_path(adj, flagged(done@), p, start, v);
                }
            }
            d.push(None);
        }
        v = v + 1;
    }
    Ok(d)
}

/// Dijkstra's search from `start`: the cheapest path to `goal` with its cost
/// (`None` when `goal` cannot be reached), and the nodes in the order in
/// which their distances became final.
pub fn dijkstra_visit(graph: &Graph, start: usize, goal: usize) -> (r: Result<(Option<(Vec<usize>, u128)>, Vec<usize>), GraphError>)
    requires
        graph.wf(),
    ensures
        r is Err <==> (start >= graph.node_seq().len() || goal >= graph.node_seq().len()),
        r is Err ==> r->Err_0 == GraphError::InvalidHandle,
        r matches Ok((found, visited)) ==> {
            &&& found is Some <==> reachable(graph.adjacency(), start, goal)
            &&& found matches Some((p, c)) ==> is_path(graph.adjacency(), p@, start, goal) && p@.no_duplicates() && path_cost(graph.adjacency(), p@) == c
                && is_min_cost(graph.adjacency(), start, goal, c as int)
            &&& visited@.no_duplicates()
            &&& forall|v: usize| #[trigger] visited@.contains(v) <==> (v < graph.adjacency().len() && reachable(graph.adjacency(), start, v))
        },
{
    if start >= graph.node_count() || goal >= graph.node_count() {
        return Err(GraphError::InvalidHandle);
    }
    let ghost adj = graph.adjacency();
    let (dist, done, parent, order, Ghost(rank)) = dijkstra_core(graph, start);
    proof {
        lemma_frontier_chain(adj, start, dist@, done@, done@, parent@, order@, rank);
        assert forall|v: usize| #[trigger] order@.contains(v) <==> (v < adj.len() && reachable(adj, start, v)) by {
            if order@.contains(v) {
                let j = choose|j: int| 0 <= j < order@.len() && order@[j] == v;
                assert(order@[j] < adj.len());
                lemma_chain_path(adj, start, dist@, done@, parent@, order@, rank, v);
            }
            if v < adj.len() && reachable(adj, start, v) {
                let p = choose|p: Seq<usize>| is_path(adj, p, start, v);
                lemma_closed_path(adj, flagged(done@), p, start, v);
            }
        }
    }
    if done[goal] {
        proof {
            assert forall|v: usize| #[trigger] flagged(done@).contains(v) && v != start implies flagged(done@).contains(parent@[v as int])
                && adjacent(adj, parent@[v as int], v) && rank[parent@[v as int] as int] < rank[v as int] by {
                assert(done@[v as int]);
            }
        }
        let p = trace_back(Ghost(adj), &parent, Ghost(rank), Ghost(flagged(done@)), start, goal);
        proof {
            lemma_walk_cost(adj, start, dist@, done@, parent@, order@, rank, p@);
            lemma_chain_path(adj, start, dist@, done@, parent@, order@, rank, goal);
        }
        Ok((Some((p, dist[goal])), order))
    } else {
        proof {
            if reachable(adj, start, goal) {
                let p = choose|p: Seq<usize>| is_path(adj, p, start, goal);
                lemma_closed_path(adj, flagged(done@), p, start, goal);
            }
        }
        Ok((None, order))
    }
}

/// The cheapest path from `start` to `goal` and its cost; `None` when `goal`
/// cannot be reached.
pub fn dijkstra_path(graph: &Graph, start: usize, goal: usize) -> (r: Result<Option<(Vec<usize>, u128)>, GraphError>)
    requires
        graph.wf(),
    ensures
        r is Err <==> (start >= graph.node_seq().len() || goal >= graph.node_seq().len()),
        r is Err ==> r->Err_0 == GraphError::InvalidHandle,
        r is Ok ==> (r->Ok_0 is Some <==> reachable(graph.adjacency(), start, goal)),
        r matches Ok(Some((p, c))) ==> is_path(graph.adjacency(), p@, start, goal) && p@.no_duplicates() && path_cost(graph.adjacency(), p@) == c
            && is_min_cost(graph.adjacency(), start, goal, c as int),
{
    match dijkstra_visit(graph, start, goal) {
        Ok((found, _)) => Ok(found),
        Err(e) => Err(e),
    }
}

} // verus!
