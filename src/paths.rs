use vstd::prelude::*;
use crate::graph::{Adjacency, adjacency_wf, adjacent, has_entry, lemma_weight_of_entry, weight};

verus! {

/// `p` is a walk along edges from `s` to `t`.
pub open spec fn is_path(adj: Adjacency, p: Seq<usize>, s: usize, t: usize) -> bool {
    &&& p.len() > 0
    &&& p[0] == s
    &&& p.last() == t
    &&& forall|i: int| 0 <= i < p.len() ==> #[trigger] p[i] < adj.len()
    &&& forall|i: int| 0 <= i < p.len() - 1 ==> adjacent(adj, #[trigger] p[i], p[i + 1])
}

/// Some walk leads from `s` to `t`.
pub open spec fn reachable(adj: Adjacency, s: usize, t: usize) -> bool {
    exists|p: Seq<usize>| is_path(adj, p, s, t)
}

/// Sum of the edge weights along `p`.
pub open spec fn path_cost(adj: Adjacency, p: Seq<usize>) -> int
    decreases p.len(),
{
    if p.len() < 2 {
        0
    } else {
        path_cost(adj, p.drop_last()) + weight(adj, p[p.len() - 2], p.last())
    }
}

/// No edge leaves the set `c`.
pub open spec fn closed(adj: Adjacency, c: Set<usize>) -> bool {
    forall|a: usize, b: usize| c.contains(a) && #[trigger] adjacent(adj, a, b) ==> c.contains(b)
}

/// A walk extended by one edge is a walk.
pub proof fn lemma_path_push(adj: Adjacency, p: Seq<usize>, s: usize, t: usize, u: usize)
    requires
        is_path(adj, p, s, t),
        adjacent(adj, t, u),
        u < adj.len(),
    ensures
        is_path(adj, p.push(u), s, u),
{
    let q = p.push(u);
    assert forall|i: int| 0 <= i < q.len() - 1 implies adjacent(adj, #[trigger] q[i], q[i + 1]) by {
        if i < p.len() - 1 {
            assert(q[i] == p[i] && q[i + 1] == p[i + 1]);
        }
    }
}

/// A node that `s` reaches, joined to `u`, makes `u` reachable.
pub proof fn lemma_reach_step(adj: Adjacency, s: usize, t: usize, u: usize)
    requires
        reachable(adj, s, t),
        adjacent(adj, t, u),
        u < adj.len(),
    ensures
        reachable(adj, s, u),
{
    let p = choose|p: Seq<usize>| is_path(adj, p, s, t);
    lemma_path_push(adj, p, s, t, u);
}

/// Every node reaches itself.
pub proof fn lemma_reach_self(adj: Adjacency, s: usize)
    requires
        s < adj.len(),
    ensures
        reachable(adj, s, s),
{
    assert(is_path(adj, seq![s], s, s));
}

/// A walk that starts inside a closed set stays inside it.
pub proof fn lemma_closed_path(adj: Adjacency, c: Set<usize>, p: Seq<usize>, s: usize, t: usize)
    requires
        closed(adj, c),
        c.contains(s),
        is_path(adj, p, s, t),
    ensures
        c.contains(t),
    decreases p.len(),
{
    if p.len() > 1 {
        let q = p.drop_last();
        let m = q.last();
        assert(adjacent(adj, p[p.len() - 2], p[p.len() - 1]));
        assert forall|i: int| 0 <= i < q.len() - 1 implies adjacent(adj, #[trigger] q[i], q[i + 1]) by {
            assert(q[i] == p[i] && q[i + 1] == p[i + 1]);
        }
        assert forall|i: int| 0 <= i < q.len() implies #[trigger] q[i] < adj.len() by {
            assert(q[i] == p[i]);
        }
        lemma_closed_path(adj, c, q, s, m);
    }
}

/// The cheapest walk from `s` to `t` costs `c`.
pub open spec fn is_min_cost(adj: Adjacency, s: usize, t: usize, c: int) -> bool {
    &&& exists|p: Seq<usize>| is_path(adj, p, s, t) && path_cost(adj, p) == c
    &&& forall|p: Seq<usize>| is_path(adj, p, s, t) ==> c <= #[trigger] path_cost(adj, p)
}

/// The least cost between two nodes is unique, so every search that reports
/// a cheapest path for the same graph and endpoints reports the same cost.
pub proof fn lemma_min_cost_unique(adj: Adjacency, s: usize, t: usize, c1: int, c2: int)
    requires
        is_min_cost(adj, s, t, c1),
        is_min_cost(adj, s, t, c2),
    ensures
        c1 == c2,
{
    let p1 = choose|p: Seq<usize>| is_path(adj, p, s, t) && path_cost(adj, p) == c1;
    let p2 = choose|p: Seq<usize>| is_path(adj, p, s, t) && path_cost(adj, p) == c2;
    assert(c1 <= path_cost(adj, p2));
    assert(c2 <= path_cost(adj, p1));
}

/// The fewest edges on a walk from `s` to `t` number `d`.
pub open spec fn is_hop_dist(adj: Adjacency, s: usize, t: usize, d: int) -> bool {
    &&& exists|p: Seq<usize>| is_path(adj, p, s, t) && p.len() == d + 1
    &&& forall|p: Seq<usize>| #[trigger] is_path(adj, p, s, t) ==> d + 1 <= p.len()
}

/// A graph with every edge of another, at the same weights, offers no
/// costlier cheapest path: adding edges never raises the least cost.
pub proof fn lemma_more_edges_no_costlier(adj1: Adjacency, adj2: Adjacency, s: usize, t: usize, c1: int, c2: int)
    requires
        adjacency_wf(adj1),
        adjacency_wf(adj2),
        adj1.len() == adj2.len(),
        forall|a: usize, b: usize, w: u64| #[trigger] has_entry(adj1, a, b, w) ==> has_entry(adj2, a, b, w),
        is_min_cost(adj1, s, t, c1),
        is_min_cost(adj2, s, t, c2),
    ensures
        c2 <= c1,
{
    let p = choose|p: Seq<usize>| is_path(adj1, p, s, t) && path_cost(adj1, p) == c1;
    lemma_walk_transfer(adj1, adj2, p, s, t);
}

/// A walk of a subgraph is a walk of the larger graph, at the same cost.
proof fn lemma_walk_transfer(adj1: Adjacency, adj2: Adjacency, p: Seq<usize>, s: usize, t: usize)
    requires
        adjacency_wf(adj1),
        adjacency_wf(adj2),
        adj1.len() == adj2.len(),
        forall|a: usize, b: usize, w: u64| #[trigger] has_entry(adj1, a, b, w) ==> has_entry(adj2, a, b, w),
        is_path(adj1, p, s, t),
    ensures
        is_path(adj2, p, s, t),
        path_cost(adj2, p) == path_cost(adj1, p),
    decreases p.len(),
{
    assert forall|i: int| 0 <= i < p.len() - 1 implies adjacent(adj2, #[trigger] p[i], p[i + 1]) by {
        let (x, y) = (p[i], p[i + 1]);
        assert(adjacent(adj1, x, y));
        let w = choose|w: u64| has_entry(adj1, x, y, w);
        assert(has_entry(adj2, x, y, w));
    }
    if p.len() >= 2 {
        let q = p.drop_last();
        lemma_path_take(adj1, p, s, t, p.len() - 1);
        assert(p.take(p.len() - 1) =~= q);
        lemma_walk_transfer(adj1, adj2, q, s, q.last());
        let (x, y) = (p[p.len() - 2], p[p.len() - 1]);
        assert(adjacent(adj1, x, y));
        let w = choose|w: u64| has_entry(adj1, x, y, w);
        lemma_weight_of_entry(adj1, x, y, w);
        lemma_weight_of_entry(adj2, x, y, w);
    }
}

/// A prefix of a walk is a walk to its last node.
pub proof fn lemma_path_take(adj: Adjacency, p: Seq<usize>, s: usize, t: usize, j: int)
    requires
        is_path(adj, p, s, t),
        1 <= j <= p.len(),
    ensures
        is_path(adj, p.take(j), s, p[j - 1]),
{
    let q = p.take(j);
    assert forall|i: int| 0 <= i < q.len() - 1 implies adjacent(adj, #[trigger] q[i], q[i + 1]) by {
        assert(q[i] == p[i] && q[i + 1] == p[i + 1]);
    }
    assert forall|i: int| 0 <= i < q.len() implies #[trigger] q[i] < adj.len() by {
        assert(q[i] == p[i]);
    }
}

/// A suffix of a walk is a walk from its first node.
pub proof fn lemma_path_skip(adj: Adjacency, p: Seq<usize>, s: usize, t: usize, j: int)
    requires
        is_path(adj, p, s, t),
        0 <= j < p.len(),
    ensures
        is_path(adj, p.skip(j), p[j], t),
{
    let q = p.skip(j);
    assert forall|i: int| 0 <= i < q.len() - 1 implies adjacent(adj, #[trigger] q[i], q[i + 1]) by {
        assert(q[i] == p[i + j] && q[i + 1] == p[i + j + 1]);
    }
    assert forall|i: int| 0 <= i < q.len() implies #[trigger] q[i] < adj.len() by {
        assert(q[i] == p[i + j]);
    }
}

/// The cost of a walk splits at any of its nodes.
pub proof fn lemma_cost_split(adj: Adjacency, p: Seq<usize>, j: int)
    requires
        0 <= j < p.len(),
    ensures
        path_cost(adj, p) == path_cost(adj, p.take(j + 1)) + path_cost(adj, p.skip(j)),
    decreases p.len(),
{
    if j == p.len() - 1 {
        assert(p.take(j + 1) =~= p);
        assert(p.skip(j).len() == 1);
    } else {
        let dl = p.drop_last();
        lemma_cost_split(adj, dl, j);
        assert(dl.take(j + 1) =~= p.take(j + 1));
        assert(p.skip(j).drop_last() =~= dl.skip(j));
        let q = p.skip(j);
        assert(q[q.len() - 2] == p[p.len() - 2]);
        assert(q.last() == p.last());
    }
}

/// Estimates that drop by at most the weight of each edge drop by at most the
/// cost of each walk.
pub proof fn lemma_consistent_walk(adj: Adjacency, h: Seq<u64>, p: Seq<usize>, s: usize, t: usize)
    requires
        adjacency_wf(adj),
        h.len() == adj.len(),
        consistent(adj, h),
        is_path(adj, p, s, t),
    ensures
        h[s as int] <= path_cost(adj, p) + h[t as int],
    decreases p.len(),
{
    if p.len() >= 2 {
        let dl = p.drop_last();
        let m = dl.last();
        lemma_path_take(adj, p, s, t, p.len() - 1);
        assert(p.take(p.len() - 1) =~= dl);
        lemma_consistent_walk(adj, h, dl, s, m);
        assert(adjacent(adj, p[p.len() - 2], p[p.len() - 1]));
        let w = choose|w: u64| has_entry(adj, m, t, w);
        lemma_weight_of_entry(adj, m, t, w);
    }
}

/// Along every edge `(x, y, w)` the estimate drops by at most `w`.
pub open spec fn consistent(adj: Adjacency, h: Seq<u64>) -> bool {
    forall|x: usize, y: usize, w: u64| #[trigger] has_entry(adj, x, y, w) ==> h[x as int] <= w + h[y as int]
}

/// Weights are never negative, so a prefix costs no more than the walk.
pub proof fn lemma_cost_prefix(adj: Adjacency, p: Seq<usize>, j: int)
    requires
        1 <= j <= p.len(),
    ensures
        path_cost(adj, p.take(j)) <= path_cost(adj, p),
        0 <= path_cost(adj, p),
    decreases p.len(),
{
    if p.len() >= 2 {
        lemma_cost_prefix(adj, p.drop_last(), if j == p.len() { j - 1 } else { j });
    }
    if j < p.len() {
        assert(p.drop_last().take(j) =~= p.take(j));
    } else {
        assert(p.take(j) =~= p);
    }
}

/// A walk that starts in `c` and ends outside it leaves `c` along some edge.
pub proof fn lemma_exit(adj: Adjacency, c: Set<usize>, p: Seq<usize>)
    requires
        p.len() > 0,
        c.contains(p[0]),
        !c.contains(p.last()),
    ensures
        exists|j: int| 1 <= j < p.len() && c.contains(p[j - 1]) && !c.contains(#[trigger] p[j]),
    decreases p.len(),
{
    let m = p.len() - 1;
    if c.contains(p[m - 1]) {
        assert(1 <= m < p.len() && c.contains(p[m - 1]) && !c.contains(p[m]));
    } else {
        let q = p.drop_last();
        lemma_exit(adj, c, q);
        let j = choose|j: int| 1 <= j < q.len() && c.contains(q[j - 1]) && !c.contains(#[trigger] q[j]);
        assert(p[j - 1] == q[j - 1] && p[j] == q[j]);
    }
}

/// Follows parent links back from `goal` to `start` and returns the walk
/// from `start` to `goal`, in which each node's predecessor is its parent.
pub(crate) fn trace_back(
    Ghost(adj): Ghost<Adjacency>,
    parent: &Vec<usize>,
    Ghost(rank): Ghost<Seq<nat>>,
    Ghost(reached): Ghost<Set<usize>>,
    start: usize,
    goal: usize,
) -> (p: Vec<usize>)
    requires
        parent@.len() == adj.len(),
        rank.len() == adj.len(),
        reached.contains(start),
        reached.contains(goal),
        forall|v: usize| #[trigger] reached.contains(v) ==> v < adj.len(),
        forall|v: usize|
            #[trigger] reached.contains(v) && v != start ==> reached.contains(parent@[v as int])
                && adjacent(adj, parent@[v as int], v) && rank[parent@[v as int] as int] < rank[v as int],
    ensures
        is_path(adj, p@, start, goal),
        forall|i: int| 0 < i < p@.len() ==> p@[i - 1] == parent@[#[trigger] p@[i] as int],
        forall|i: int| 0 <= i < p@.len() ==> reached.contains(#[trigger] p@[i]),
        forall|i: int| 0 < i < p@.len() ==> #[trigger] p@[i] != start,
        p@.no_duplicates(),
{
    let mut rev: Vec<usize> = Vec::new();
    rev.push(goal);
    let mut cur: usize = goal;
    while cur != start
        invariant
            rev@.len() > 0,
            rev@[0] == goal,
            rev@.last() == cur,
            reached.contains(cur),
            parent@.len() == adj.len(),
            rank.len() == adj.len(),
            forall|v: usize| #[trigger] reached.contains(v) ==> v < adj.len(),
            forall|v: usize|
                #[trigger] reached.contains(v) && v != start ==> reached.contains(parent@[v as int])
                    && adjacent(adj, parent@[v as int], v) && rank[parent@[v as int] as int] < rank[v as int],
            forall|i: int| 0 <= i < rev@.len() ==> #[trigger] rev@[i] < adj.len(),
            forall|i: int| 0 <= i < rev@.len() ==> reached.contains(#[trigger] rev@[i]),
            forall|i: int| 0 <= i < rev@.len() - 1 ==> #[trigger] rev@[i] != start,
            forall|i: int, j: int| 0 <= i < j < rev@.len() ==> rank[#[trigger] rev@[j] as int] < rank[#[trigger] rev@[i] as int],
            forall|i: int|
                0 <= i < rev@.len() - 1 ==> rev@[i + 1] == parent@[#[trigger] rev@[i] as int]
                    && adjacent(adj, rev@[i + 1], rev@[i]),
        decreases rank[cur as int],
    {
        let ghost old_rev = rev@;
        cur = parent[cur];
        rev.push(cur);
        assert forall|i: int, j: int| 0 <= i < j < rev@.len() implies rank[#[trigger] rev@[j] as int] < rank[#[trigger] rev@[i] as int] by {
            if j < old_rev.len() {
                assert(rev@[i] == old_rev[i] && rev@[j] == old_rev[j]);
            } else if i < old_rev.len() - 1 {
                assert(rev@[i] == old_rev[i]);
                assert(rank[old_rev[old_rev.len() - 1] as int] < rank[old_rev[i] as int]);
            }
        }
        assert forall|i: int| 0 <= i < rev@.len() implies reached.contains(#[trigger] rev@[i]) && (i < rev@.len() - 1 ==> rev@[i] != start) by {
            if i < old_rev.len() {
                assert(rev@[i] == old_rev[i]);
            }
        }
        assert forall|i: int| 0 <= i < rev@.len() - 1 implies rev@[i + 1] == parent@[#[trigger] rev@[i] as int]
            && adjacent(adj, rev@[i + 1], rev@[i]) by {
            if i < old_rev.len() - 1 {
                assert(rev@[i] == old_rev[i] && rev@[i + 1] == old_rev[i + 1]);
            }
        }
    }
    let mut p: Vec<usize> = Vec::new();
    let mut k: usize = rev.len();
    while k > 0
        invariant
            0 <= k <= rev@.len(),
            p@.len() == rev@.len() - k,
            forall|i: int| 0 <= i < p@.len() ==> p@[i] == rev@[rev@.len() - 1 - i],
        decreases k,
    {
        k = k - 1;
        p.push(rev[k]);
    }
    let ghost m = rev@.len();
    assert forall|i: int| 0 <= i < p@.len() - 1 implies adjacent(adj, #[trigger] p@[i], p@[i + 1]) by {
        let j = m - 2 - i;
        assert(p@[i] == rev@[j + 1] && p@[i + 1] == rev@[j]);
    }
    assert forall|i: int, j: int| 0 <= i < p@.len() && 0 <= j < p@.len() && i != j implies p@[i] != p@[j] by {
        assert(p@[i] == rev@[m - 1 - i] && p@[j] == rev@[m - 1 - j]);
        if i < j {
            assert(rank[rev@[m - 1 - i] as int] < rank[rev@[m - 1 - j] as int]);
        } else {
            assert(rank[rev@[m - 1 - j] as int] < rank[rev@[m - 1 - i] as int]);
        }
    }
    assert forall|i: int| 0 < i < p@.len() implies p@[i - 1] == parent@[#[trigger] p@[i] as int] by {
        let j = m - 1 - i;
        assert(p@[i - 1] == rev@[j + 1] && p@[i] == rev@[j]);
    }
    assert forall|i: int| 0 <= i < p@.len() implies #[trigger] p@[i] < adj.len() && reached.contains(p@[i]) && (i > 0 ==> p@[i] != start) by {
        assert(p@[i] == rev@[m - 1 - i]);
    }
    p
}

} // verus!
