use vstd::prelude::*;
use crate::bfs::{flagged, lemma_room};
use crate::dijkstra::{WEIGHT_BOUND, chain_state, lemma_chain_path, frontier_state, lemma_frontier_chain, lemma_walk_cost};
use crate::distance::{COORD_LIMIT, coords_ok, euclidean_distance, isqrt_of, lemma_isqrt_of, sq_dist};
use crate::graph::{Adjacency, Graph, GraphError, adjacency_wf, adjacent, has_entry, lemma_weight_of_entry, weight};
use crate::paths::{
    closed, consistent, is_min_cost, is_path, lemma_closed_path, lemma_consistent_walk, lemma_cost_prefix, lemma_cost_split,
    lemma_exit, lemma_path_skip, lemma_path_take, path_cost, reachable, trace_back,
};

verus! {

/// An estimate of the remaining cost between two nodes, guiding A*.
pub trait Heuristic {
    /// The estimate between `a` and `b` in `graph`.
    spec fn spec_estimate(&self, graph: Graph, a: usize, b: usize) -> u64;

    fn estimate(&self, graph: &Graph, a: usize, b: usize) -> (r: u64)
        requires
            graph.wf(),
            a < graph.node_seq().len(),
            b < graph.node_seq().len(),
        ensures
            r == self.spec_estimate(*graph, a, b),
    ;
}

/// The estimate of every node towards `goal`, by handle.
pub open spec fn estimates<H: Heuristic>(heuristic: &H, graph: Graph, goal: usize) -> Seq<u64> {
    Seq::new(graph.node_seq().len(), |v: int| heuristic.spec_estimate(graph, v as usize, goal))
}

/// Every finalized distance is at most the cost of any walk to that node.
pub open spec fn settled_optimal(adj: Adjacency, start: usize, dist: Seq<u128>, done: Seq<bool>) -> bool {
    forall|u: usize, p: Seq<usize>|
        u < adj.len() && done[u as int] && #[trigger] is_path(adj, p, start, u) ==> dist[u as int] <= path_cost(adj, p)
}

/// Straight-line distance between the two nodes' coordinates (0 for a node
/// whose coordinates the distance model does not accept).
pub struct EuclideanHeuristic;

impl Heuristic for EuclideanHeuristic {
    open spec fn spec_estimate(&self, graph: Graph, a: usize, b: usize) -> u64 {
        let na = graph.node_seq()[a as int];
        let nb = graph.node_seq()[b as int];
        if a < graph.node_seq().len() && b < graph.node_seq().len() && coords_ok(na) && coords_ok(nb) {
            isqrt_of(sq_dist(na, nb))
        } else {
            0
        }
    }

    fn estimate(&self, graph: &Graph, a: usize, b: usize) -> (r: u64) {
        let na = match graph.node_data(a) {
            Ok(n) => n,
            Err(_) => {
                return 0;
            },
        };
        let nb = match graph.node_data(b) {
            Ok(n) => n,
            Err(_) => {
                return 0;
            },
        };
        if -COORD_LIMIT <= na.lon && na.lon <= COORD_LIMIT && -COORD_LIMIT <= na.lat && na.lat <= COORD_LIMIT
            && -COORD_LIMIT <= nb.lon && nb.lon <= COORD_LIMIT && -COORD_LIMIT <= nb.lat && nb.lat <= COORD_LIMIT {
            let d = euclidean_distance(na, nb);
            proof {
                lemma_isqrt_of(sq_dist(*na, *nb), d);
            }
            d
        } else {
            0
        }
    }
}

/// The tentative node with the least distance plus estimate, the lowest
/// handle among equals; `None` when no tentative node is left.
fn pick_min_key(dist: &Vec<u128>, est: &Vec<u64>, known: &Vec<bool>, done: &Vec<bool>) -> (r: Option<usize>)
    requires
        dist@.len() == known@.len(),
        est@.len() == known@.len(),
        done@.len() == known@.len(),
        forall|v: int| 0 <= v < known@.len() && known@[v] ==> dist@[v] <= 18_446_744_073_709_551_615 * WEIGHT_BOUND,
    ensures
        r is None ==> forall|v: int| 0 <= v < known@.len() ==> !(known@[v] && !done@[v]),
        r matches Some(u) ==> u < known@.len() && known@[u as int] && !done@[u as int] && forall|v: int|
            0 <= v < known@.len() && known@[v] && !done@[v] ==> dist@[u as int] + est@[u as int] <= dist@[v] + est@[v],
{
    let mut best: Option<usize> = None;
    let mut best_key: u128 = 0;
    let mut v: usize = 0;
    while v < known.len()
        invariant
            dist@.len() == known@.len(),
            est@.len() == known@.len(),
            done@.len() == known@.len(),
            forall|x: int| 0 <= x < known@.len() && known@[x] ==> dist@[x] <= 18_446_744_073_709_551_615 * WEIGHT_BOUND,
            0 <= v <= known@.len(),
            best is None ==> forall|x: int| 0 <= x < v ==> !(known@[x] && !done@[x]),
            best matches Some(u) ==> u < v && known@[u as int] && !done@[u as int] && best_key == dist@[u as int] + est@[u as int]
                && forall|x: int| 0 <= x < v && known@[x] && !done@[x] ==> dist@[u as int] + est@[u as int] <= dist@[x] + est@[x],
        decreases known@.len() - v,
    {
        if known[v] && !done[v] {
            let key: u128 = dist[v] + est[v] as u128;
            match best {
                None => {
                    best = Some(v);
                    best_key = key;
                },
                Some(_) => {
                    if key < best_key {
                        best = Some(v);
                        best_key = key;
                    }
                },
            }
        }
        v = v + 1;
    }
    best
}

/// A* from `start` towards `goal`: nodes are finalized by least distance plus
/// estimate, and the search stops when `goal` is finalized or no tentative
/// node is left.
#[verifier::rlimit(100)]
pub(crate) fn a_star_core<H: Heuristic>(graph: &Graph, start: usize, goal: usize, heuristic: &H) -> (res: (Vec<u128>, Vec<bool>, Vec<usize>, Vec<usize>, Ghost<Seq<nat>>))
    requires
        graph.wf(),
        start < graph.node_seq().len(),
        goal < graph.node_seq().len(),
    ensures
        ({
            let (dist, done, parent, order, rank) = res;
            &&& chain_state(graph.adjacency(), start, dist@, done@, parent@, order@, rank@)
            &&& done@[goal as int] || closed(graph.adjacency(), flagged(done@))
            &&& done@[start as int]
            &&& done@[goal as int] ==> order@.len() > 0 && order@.last() == goal
            &&& consistent(graph.adjacency(), estimates(heuristic, *graph, goal)) ==> settled_optimal(graph.adjacency(), start, dist@, done@)
        }),
{
    let ghost adj = graph.adjacency();
    let n = graph.node_count();
    let mut dist: Vec<u128> = Vec::new();
    let mut known: Vec<bool> = Vec::new();
    let mut done: Vec<bool> = Vec::new();
    let mut parent: Vec<usize> = Vec::new();
    let mut i: usize = 0;
    while i < n
        invariant
            0 <= i <= n,
            dist@.len() == i && known@.len() == i && done@.len() == i && parent@.len() == i,
            forall|v: int| 0 <= v < i ==> !known@[v] && !done@[v] && dist@[v] == 0,
        decreases n - i,
    {
        dist.push(0);
        known.push(false);
        done.push(false);
        parent.push(0);
        i = i + 1;
    }
    let mut est: Vec<u64> = Vec::new();
    let mut e: usize = 0;
    while e < n
        invariant
            graph.wf(),
            n == graph.node_seq().len(),
            0 <= e <= n,
            goal < n,
            est@.len() == e,
            forall|v: int| 0 <= v < e ==> est@[v] == estimates(heuristic, *graph, goal)[v],
        decreases n - e,
    {
        est.push(heuristic.estimate(graph, e, goal));
        e = e + 1;
    }
    assert(est@ =~= estimates(heuristic, *graph, goal));
    known.set(start, true);
    let mut order: Vec<usize> = Vec::new();
    let ghost mut rank: Seq<nat> = Seq::new(n as nat, |v: int| 0nat);
    loop
        invariant_except_break
            !done@[goal as int],
        invariant
            graph.wf(),
            adj == graph.adjacency(),
            n == adj.len(),
            goal < n,
            est@.len() == n,
            est@ == estimates(heuristic, *graph, goal),
            frontier_state(adj, start, dist@, known@, done@, parent@, order@, rank),
            consistent(adj, est@) ==> settled_optimal(adj, start, dist@, done@),
        ensures
            done@[goal as int] || forall|v: int| 0 <= v < n ==> !(known@[v] && !done@[v]),
            done@[goal as int] ==> order@.len() > 0 && order@.last() == goal,
        decreases n - order@.len(),
    {
        proof {
            assert forall|v: int| 0 <= v < n && known@[v] implies dist@[v] <= 18_446_744_073_709_551_615 * WEIGHT_BOUND by {
                {
                    assert(dist@[v] <= order@.len() * WEIGHT_BOUND);
                    assert(order@.len() * WEIGHT_BOUND <= 18_446_744_073_709_551_615 * WEIGHT_BOUND) by (nonlinear_arith)
                        requires order@.len() <= 18_446_744_073_709_551_615;
                }
            }
        }
        let next = pick_min_key(&dist, &est, &known, &done);
        let u = match next {
            None => {
                break;
            },
            Some(u) => u,
        };
        let ghost o_order = order@;
        let ghost o_done = done@;
        let ghost o_rank = rank;
        proof {
            assert(!order@.contains(u));
            lemma_room(order@, n, u);
            if consistent(adj, est@) {
                lemma_select_optimal_key(adj, start, dist@, known@, done@, parent@, order@, rank, est@, u);
            }
        }
        done.set(u, true);
        order.push(u);
        proof {
            rank = rank.update(u as int, (order@.len() - 1) as nat);
            if consistent(adj, est@) {
                assert forall|x: usize, p: Seq<usize>|
                    x < adj.len() && done@[x as int] && #[trigger] is_path(adj, p, start, x) implies dist@[x as int] <= path_cost(adj, p) by {
                    if x != u {
                        assert(o_done[x as int]);
                    }
                }
            }
            assert forall|v: usize| v < adj.len() implies (done@[v as int] <==> order@.contains(v)) by {
                if v == u {
                    assert(order@[order@.len() - 1] == v);
                } else if o_order.contains(v) {
                    let j = choose|j: int| 0 <= j < o_order.len() && o_order[j] == v;
                    assert(order@[j] == v);
                } else if order@.contains(v) {
                    let j = choose|j: int| 0 <= j < order@.len() && order@[j] == v;
                    assert(o_order[j] == v);
                }
            }
            assert forall|i: int| 0 <= i < order@.len() implies rank[#[trigger] order@[i] as int] == i by {
                if i < o_order.len() {
                    assert(o_order[i] != u);
                }
            }
            assert forall|v: usize|
                #![trigger known@[v as int]]
                v < adj.len() && known@[v as int] && v != start implies done@[parent@[v as int] as int] && parent@[v as int]
                    < adj.len() && adjacent(adj, parent@[v as int], v) && dist@[v as int] == dist@[parent@[v as int] as int]
                    + weight(adj, parent@[v as int], v) && rank[parent@[v as int] as int] < order@.len() && (done@[v as int]
                    ==> rank[parent@[v as int] as int] < rank[v as int]) by {
                let pv = parent@[v as int];
                if pv != u {
                    assert(rank[pv as int] == o_rank[pv as int]);
                }
                if v == u {
                    assert(o_done[pv as int]);
                    assert(o_order.contains(pv));
                    let j = choose|j: int| 0 <= j < o_order.len() && o_order[j] == pv;
                    assert(order@[j] == pv);
                }
            }
            assert forall|x: usize, v: usize, w: u64|
                #[trigger] has_entry(adj, x, v, w) && done@[x as int] && x != u implies known@[v as int] && (!done@[v as int] ==> dist@[v as int]
                    <= dist@[x as int] + w) by {
                assert(o_done[x as int]);
            }
        }
        let list = graph.adj_list(u);
        let mut k: usize = 0;
        while k < list.len()
            invariant
                graph.wf(),
                adj == graph.adjacency(),
                n == adj.len(),
                u < n,
                list@ == adj[u as int],
                est@.len() == n,
                est@ == estimates(heuristic, *graph, goal),
                consistent(adj, est@) ==> settled_optimal(adj, start, dist@, done@),
                goal < n,
                u != goal ==> !done@[goal as int],
                0 <= k <= list@.len(),
                done@[u as int],
                order@.len() > 0,
                order@.last() == u,
                dist@[u as int] <= (order@.len() - 1) * WEIGHT_BOUND,
                order@.len() <= usize::MAX,
                frontier_state_but_u(adj, start, dist@, known@, done@, parent@, order@, rank, u),
                forall|k2: int| 0 <= k2 < k ==> ({
                    let (v, w) = #[trigger] list@[k2];
                    known@[v as int] && (!done@[v as int] ==> dist@[v as int] <= dist@[u as int] + w)
                }),
            decreases list@.len() - k,
        {
            let (v, w) = list[k];
            proof {
                assert(adj[u as int][k as int] == (v, w));
                assert(has_entry(adj, u, v, w));
                lemma_weight_of_entry(adj, u, v, w);
            }
            if !done[v] {
                assert(dist@[u as int] + w <= order@.len() * WEIGHT_BOUND) by (nonlinear_arith)
                    requires
                        dist@[u as int] <= (order@.len() - 1) * WEIGHT_BOUND,
                        w <= WEIGHT_BOUND,
                        order@.len() >= 1;
                assert(order@.len() * WEIGHT_BOUND <= u128::MAX) by (nonlinear_arith)
                    requires order@.len() <= usize::MAX;
                let nd: u128 = dist[u] + w as u128;
                if !known[v] || nd < dist[v] {
                    let ghost o_dist = dist@;
                    let ghost o_known = known@;
                    dist.set(v, nd);
                    known.set(v, true);
                    parent.set(v, u);
                    proof {
                        assert(frontier_state_but_u(adj, start, dist@, known@, done@, parent@, order@, rank, u)) by {
                            assert forall|x: usize, v2: usize, w2: u64|
                                #[trigger] has_entry(adj, x, v2, w2) && done@[x as int] && x != u implies known@[v2 as int] && (!done@[v2 as int] ==> dist@[v2 as int]
                                    <= dist@[x as int] + w2) by {
                                assert(o_known[v2 as int] && (!done@[v2 as int] ==> o_dist[v2 as int] <= o_dist[x as int] + w2));
                            }
                            if consistent(adj, est@) {
                                assert forall|x: usize, p: Seq<usize>|
                                    x < adj.len() && done@[x as int] && #[trigger] is_path(adj, p, start, x) implies dist@[x as int] <= path_cost(adj, p) by {
                                    assert(o_dist[x as int] <= path_cost(adj, p));
                                }
                            }
                            assert forall|v2: usize|
                                #![trigger known@[v2 as int]]
                                v2 < adj.len() && known@[v2 as int] && v2 != start implies done@[parent@[v2 as int] as int] && parent@[v2 as int]
                                    < adj.len() && adjacent(adj, parent@[v2 as int], v2) && dist@[v2 as int] == dist@[parent@[v2 as int] as int]
                                    + weight(adj, parent@[v2 as int], v2) && rank[parent@[v2 as int] as int] < order@.len() && (done@[v2 as int]
                                    ==> rank[parent@[v2 as int] as int] < rank[v2 as int]) by {
                                if v2 != v {
                                    assert(o_known[v2 as int]);
                                } else {
                                    assert(order@[order@.len() - 1] == u);
                                }
                            }
                            assert(v != start) by {
                                if v == start {
                                    assert(done@[start as int]) by {
                                        assert(o_done[start as int] || u == start);
                                    }
                                }
                            }
                        }
                    }
                }
            }
            k = k + 1;
        }
        proof {
            assert forall|x: usize, v: usize, w: u64|
                #[trigger] has_entry(adj, x, v, w) && done@[x as int] implies known@[v as int] && (!done@[v as int] ==> dist@[v as int]
                    <= dist@[x as int] + w) by {
                if x == u {
                    let k2 = choose|k2: int| 0 <= k2 < adj[u as int].len() && adj[u as int][k2] == (v, w);
                    assert(list@[k2] == (v, w));
                }
            }
        }
        if u == goal {
            break;
        }
    }
    if !done[goal] {
        assert forall|v: int| 0 <= v < adj.len() implies known@[v] == done@[v] by {}
        assert(known@ =~= done@);
        assert forall|a: usize, b: usize| flagged(done@).contains(a) && #[trigger] adjacent(adj, a, b) implies flagged(done@).contains(b) by {
            let w = choose|w: u64| has_entry(adj, a, b, w);
        }
    }
    proof {
        assert(done@[start as int]) by {
            if !done@[start as int] {
                assert(known@[start as int]);
                if done@[goal as int] {
                    assert(order@.contains(goal));
                }
            }
        }
        lemma_frontier_chain(adj, start, dist@, known@, done@, parent@, order@, rank);
    }
    (dist, done, parent, order, Ghost(rank))
}

/// The frontier state with the entries of `u`, the node being finalized, not
/// yet all relaxed.
pub open spec fn frontier_state_but_u(
    adj: Adjacency,
    start: usize,
    dist: Seq<u128>,
    known: Seq<bool>,
    done: Seq<bool>,
    parent: Seq<usize>,
    order: Seq<usize>,
    rank: Seq<nat>,
    u: usize,
) -> bool {
    &&& dist.len() == adj.len() && known.len() == adj.len() && done.len() == adj.len()
    &&& parent.len() == adj.len() && rank.len() == adj.len()
    &&& start < adj.len()
    &&& order.no_duplicates()
    &&& order.len() <= adj.len()
    &&& forall|i: int| 0 <= i < order.len() ==> #[trigger] order[i] < adj.len()
    &&& forall|v: usize| v < adj.len() ==> (done[v as int] <==> order.contains(v))
    &&& forall|i: int| 0 <= i < order.len() ==> rank[#[trigger] order[i] as int] == i
    &&& forall|v: usize| #[trigger] flagged(done).contains(v) ==> v < adj.len()
    &&& known[start as int] && dist[start as int] == 0
    &&& !done[start as int] ==> order.len() == 0
    &&& forall|v: int| 0 <= v < adj.len() && done[v] ==> known[v]
    &&& forall|v: int| 0 <= v < adj.len() && known[v] ==> dist[v] <= order.len() * WEIGHT_BOUND
    &&& forall|v: usize|
        #![trigger known[v as int]]
        v < adj.len() && known[v as int] && v != start ==> done[parent[v as int] as int] && parent[v as int]
            < adj.len() && adjacent(adj, parent[v as int], v) && dist[v as int] == dist[parent[v as int] as int]
            + weight(adj, parent[v as int], v) && rank[parent[v as int] as int] < order.len() && (done[v as int]
            ==> rank[parent[v as int] as int] < rank[v as int])
    &&& forall|x: usize, v: usize, w: u64|
        #[trigger] has_entry(adj, x, v, w) && done[x as int] && x != u ==> known[v as int] && (!done[v as int] ==> dist[v as int]
            <= dist[x as int] + w)
}

/// With consistent estimates, the tentative node of least distance plus
/// estimate is as close as any walk allows.
proof fn lemma_select_optimal_key(
    adj: Adjacency,
    start: usize,
    dist: Seq<u128>,
    known: Seq<bool>,
    done: Seq<bool>,
    parent: Seq<usize>,
    order: Seq<usize>,
    rank: Seq<nat>,
    est: Seq<u64>,
    u: usize,
)
    requires
        adjacency_wf(adj),
        frontier_state(adj, start, dist, known, done, parent, order, rank),
        settled_optimal(adj, start, dist, done),
        est.len() == adj.len(),
        consistent(adj, est),
        u < adj.len(),
        known[u as int],
        !done[u as int],
        forall|v: int| 0 <= v < known.len() && known[v] && !done[v] ==> dist[u as int] + est[u as int] <= dist[v] + est[v],
    ensures
        forall|p: Seq<usize>| #[trigger] is_path(adj, p, start, u) ==> dist[u as int] <= path_cost(adj, p),
{
    assert forall|p: Seq<usize>| #[trigger] is_path(adj, p, start, u) implies dist[u as int] <= path_cost(adj, p) by {
        lemma_cost_prefix(adj, p, 1);
        if u != start {
            let c = flagged(done);
            assert(done[start as int]) by {
                if !done[start as int] {
                    let pu = parent[u as int];
                    assert(done[pu as int]);
                    assert(order.contains(pu));
                }
            }
            lemma_exit(adj, c, p);
            let j = choose|j: int| 1 <= j < p.len() && c.contains(p[j - 1]) && !c.contains(#[trigger] p[j]);
            let x = p[j - 1];
            let y = p[j];
            assert(adjacent(adj, p[j - 1], p[j]));
            let w = choose|w: u64| has_entry(adj, x, y, w);
            lemma_weight_of_entry(adj, x, y, w);
            lemma_path_take(adj, p, start, u, j);
            assert(p.take(j + 1).drop_last() =~= p.take(j));
            let q = p.take(j + 1);
            assert(q[q.len() - 2] == x && q.last() == y);
            assert(path_cost(adj, q) == path_cost(adj, p.take(j)) + weight(adj, x, y));
            assert(dist[x as int] <= path_cost(adj, p.take(j)));
            assert(known[y as int] && !done[y as int]);
            assert(dist[u as int] + est[u as int] <= dist[y as int] + est[y as int]);
            lemma_path_skip(adj, p, start, u, j);
            lemma_consistent_walk(adj, est, p.skip(j), y, u);
            lemma_cost_split(adj, p, j);
        }
    }
}

/// A* search from `start` to `goal` guided by `heuristic`: a path with its
/// cost and the nodes in the order in which they were expanded; `None` when
/// `goal` cannot be reached.
pub fn a_star_traversal<H: Heuristic>(graph: &Graph, start: usize, goal: usize, heuristic: &H) -> (r: Result<
    Option<(Vec<usize>, u128, Vec<usize>)>,
    GraphError,
>)
    requires
        graph.wf(),
    ensures
        r is Err <==> (start >= graph.node_seq().len() || goal >= graph.node_seq().len()),
        r is Err ==> r->Err_0 == GraphError::InvalidHandle,
        r is Ok ==> (r->Ok_0 is Some <==> reachable(graph.adjacency(), start, goal)),
        r matches Ok(Some((p, c, visited))) ==> {
            &&& is_path(graph.adjacency(), p@, start, goal) && p@.no_duplicates()
            &&& path_cost(graph.adjacency(), p@) == c
            &&& visited@.no_duplicates()
            &&& visited@.len() > 0 && visited@[0] == start && visited@.contains(goal) && visited@.last() == goal
            &&& forall|v: usize| #[trigger] visited@.contains(v) ==> reachable(graph.adjacency(), start, v)
            &&& consistent(graph.adjacency(), estimates(heuristic, *graph, goal)) ==> is_min_cost(graph.adjacency(), start, goal, c as int)
        },
{
    if start >= graph.node_count() || goal >= graph.node_count() {
        return Err(GraphError::InvalidHandle);
    }
    let ghost adj = graph.adjacency();
    let (dist, done, parent, order, Ghost(rank)) = a_star_core(graph, start, goal, heuristic);
    if done[goal] {
        proof {
            assert forall|v: usize| #[trigger] flagged(done@).contains(v) && v != start implies flagged(done@).contains(parent@[v as int])
                && adjacent(adj, parent@[v as int], v) && rank[parent@[v as int] as int] < rank[v as int] by {
                assert(done@[v as int]);
            }
            assert forall|v: usize| #[trigger] order@.contains(v) implies reachable(adj, start, v) by {
                let j = choose|j: int| 0 <= j < order@.len() && order@[j] == v;
                assert(order@[j] < adj.len());
                lemma_chain_path(adj, start, dist@, done@, parent@, order@, rank, v);
            }
            assert(order@.contains(start));
            let j = choose|j: int| 0 <= j < order@.len() && order@[j] == start;
            assert(rank[order@[j] as int] == j);
            assert(rank[start as int] == 0) by {
                if j != 0 {
                    assert(order@.len() > 0);
                    let s0 = order@[0];
                    assert(done@[s0 as int]);
                    if s0 != start {
                        assert(rank[parent@[s0 as int] as int] < rank[s0 as int]);
                    }
                }
            }
            assert(order@[0] == start);
        }
        let p = trace_back(Ghost(adj), &parent, Ghost(rank), Ghost(flagged(done@)), start, goal);
        proof {
            lemma_walk_cost(adj, start, dist@, done@, parent@, order@, rank, p@);
            assert(is_path(adj, p@, start, goal) && path_cost(adj, p@) == dist@[goal as int]);
        }
        Ok(Some((p, dist[goal], order)))
    } else {
        proof {
            if reachable(adj, start, goal) {
                let p = choose|p: Seq<usize>| is_path(adj, p, start, goal);
                lemma_closed_path(adj, flagged(done@), p, start, goal);
            }
        }
        Ok(None)
    }
}

} // verus!
