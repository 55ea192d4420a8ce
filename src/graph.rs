use vstd::prelude::*;
use crate::models::Node;

verus! {

/// Adjacency as the searches see it: for each handle, its `(neighbor, weight)` entries.
pub type Adjacency = Seq<Seq<(usize, u64)>>;

/// The entry `(b, w)` stands in the adjacency list of `a`.
pub open spec fn has_entry(adj: Adjacency, a: usize, b: usize, w: u64) -> bool {
    a < adj.len() && adj[a as int].contains((b, w))
}

/// `a` and `b` are joined by an edge.
pub open spec fn adjacent(adj: Adjacency, a: usize, b: usize) -> bool {
    exists|w: u64| has_entry(adj, a, b, w)
}

/// The weight of the edge from `a` to `b` (meaningful when they are adjacent).
pub open spec fn weight(adj: Adjacency, a: usize, b: usize) -> u64 {
    choose|w: u64| has_entry(adj, a, b, w)
}

/// No neighbor appears twice in one adjacency list.
pub open spec fn keys_unique(l: Seq<(usize, u64)>) -> bool {
    forall|i: int, j: int|
        0 <= i < l.len() && 0 <= j < l.len() && #[trigger] l[i].0 == #[trigger] l[j].0 ==> i == j
}

/// Every entry names an existing handle, lists hold each neighbor once, and
/// each edge is stored in both directions with the same weight.
pub open spec fn adjacency_wf(adj: Adjacency) -> bool {
    &&& forall|a: int| 0 <= a < adj.len() ==> keys_unique(#[trigger] adj[a])
    &&& forall|a: int, i: int|
        0 <= a < adj.len() && 0 <= i < adj[a].len() ==> (#[trigger] adj[a][i]).0 < adj.len()
    &&& forall|a: usize, b: usize, w: u64|
        #[trigger] has_entry(adj, a, b, w) ==> has_entry(adj, b, a, w)
}

/// Number of stored entries: each undirected edge counts once per direction.
pub open spec fn entry_total(adj: Adjacency) -> int
    decreases adj.len(),
{
    if adj.len() == 0 {
        0
    } else {
        entry_total(adj.drop_last()) + adj.last().len()
    }
}

/// Within a list without repeated neighbors, a neighbor has one weight.
pub proof fn lemma_weight_unique(adj: Adjacency, a: usize, b: usize, w1: u64, w2: u64)
    requires
        adjacency_wf(adj),
        has_entry(adj, a, b, w1),
        has_entry(adj, a, b, w2),
    ensures
        w1 == w2,
{
    let l = adj[a as int];
    assert(keys_unique(l));
    let i = choose|i: int| 0 <= i < l.len() && l[i] == (b, w1);
    let j = choose|j: int| 0 <= j < l.len() && l[j] == (b, w2);
    assert(l[i].0 == l[j].0);
}

/// An edge's weight is the weight of the stored entry.
pub proof fn lemma_weight_of_entry(adj: Adjacency, a: usize, b: usize, w: u64)
    requires
        adjacency_wf(adj),
        has_entry(adj, a, b, w),
    ensures
        adjacent(adj, a, b),
        weight(adj, a, b) == w,
{
    lemma_weight_unique(adj, a, b, w, weight(adj, a, b));
}

/// Edges are undirected: an entry from `a` to `b` has its twin from `b` to
/// `a` with the same weight.
pub proof fn lemma_edge_symmetric(g: Graph, a: usize, b: usize, w: u64)
    requires
        g.wf(),
        has_entry(g.adjacency(), a, b, w),
    ensures
        has_entry(g.adjacency(), b, a, w),
        weight(g.adjacency(), a, b) == weight(g.adjacency(), b, a),
{
    lemma_weight_of_entry(g.adjacency(), a, b, w);
    lemma_weight_of_entry(g.adjacency(), b, a, w);
}

/// Errors of the graph store and of the searches.
#[derive(Debug, Clone, Copy, PartialEq, Eq, Structural)]
pub enum GraphError {
    /// A handle that does not name a node of the graph.
    InvalidHandle,
    /// Node data that the graph cannot hold (a coordinate out of range).
    MalformedGraph,
    /// The start id of a query names no node.
    UnknownStartId,
    /// The goal id of a query names no node.
    UnknownGoalId,
}


/// Replaces or adds the entry for neighbor `b`, keeping neighbors unique.
fn set_entry(l: &mut Vec<(usize, u64)>, b: usize, w: u64)
    requires
        keys_unique(old(l)@),
    ensures
        keys_unique(final(l)@),
        forall|k: usize, v: u64|
            #[trigger] final(l)@.contains((k, v)) <==> ((k == b && v == w) || (k != b
                && old(l)@.contains((k, v)))),
        forall|i: int| 0 <= i < final(l)@.len() ==> final(l)@[i] == (b, w) || old(l)@.contains(#[trigger] final(l)@[i]),
{
    let ghost o = l@;
    let mut i: usize = 0;
    while i < l.len()
        invariant
            l@ == o,
            o == old(l)@,
            keys_unique(o),
            0 <= i <= l@.len(),
            forall|j: int| 0 <= j < i ==> (#[trigger] l@[j]).0 != b,
        decreases l@.len() - i,
    {
        if l[i].0 == b {
            l.set(i, (b, w));
            assert forall|k: usize, v: u64| #[trigger] l@.contains((k, v)) <==> ((k == b && v == w) || (k != b && o.contains((k, v)))) by {
                if l@.contains((k, v)) {
                    let j = choose|j: int| 0 <= j < l@.len() && l@[j] == (k, v);
                    if j != i {
                        assert(o[j] == (k, v));
                        assert(o[j].0 != o[i as int].0);
                    }
                }
                if k == b && v == w {
                    assert(l@[i as int] == (k, v));
                }
                if k != b && o.contains((k, v)) {
                    let j = choose|j: int| 0 <= j < o.len() && o[j] == (k, v);
                    assert(l@[j] == (k, v));
                }
            }
            assert forall|x: int, y: int|
                0 <= x < l@.len() && 0 <= y < l@.len() && #[trigger] l@[x].0 == #[trigger] l@[y].0 implies x == y by {
                assert(o[x].0 == l@[x].0);
                assert(o[y].0 == l@[y].0);
            }
            assert forall|x: int| 0 <= x < l@.len() implies l@[x] == (b, w) || o.contains(#[trigger] l@[x]) by {
                if x != i {
                    assert(o[x] == l@[x]);
                }
            }
            return;
        }
        i = i + 1;
    }
    l.push((b, w));
    assert forall|k: usize, v: u64| #[trigger] l@.contains((k, v)) <==> ((k == b && v == w) || (k != b && o.contains((k, v)))) by {
        if l@.contains((k, v)) {
            let j = choose|j: int| 0 <= j < l@.len() && l@[j] == (k, v);
            if j < o.len() {
                assert(o[j] == (k, v));
            }
        }
        if k == b && v == w {
            assert(l@[o.len() as int] == (k, v));
        }
        if k != b && o.contains((k, v)) {
            let j = choose|j: int| 0 <= j < o.len() && o[j] == (k, v);
            assert(l@[j] == (k, v));
        }
    }
    assert forall|x: int| 0 <= x < l@.len() implies l@[x] == (b, w) || o.contains(#[trigger] l@[x]) by {
        if x < o.len() {
            assert(o[x] == l@[x]);
        }
    }
}

/// The graph store: nodes by handle (their insertion order) and, for each
/// node, its incident edges. An edge inserted again between the same pair
/// replaces the earlier weight.
pub struct Graph {
    nodes: Vec<Node>,
    adj: Vec<Vec<(usize, u64)>>,
}

impl Graph {
    /// The nodes, by handle.
    pub closed spec fn node_seq(&self) -> Seq<Node> {
        self.nodes@
    }

    /// The adjacency lists, by handle.
    pub closed spec fn adjacency(&self) -> Adjacency {
        self.adj@.map_values(|l: Vec<(usize, u64)>| l@)
    }

    pub open spec fn wf(&self) -> bool {
        &&& self.adjacency().len() == self.node_seq().len()
        &&& adjacency_wf(self.adjacency())
    }

    /// An empty graph.
    pub fn new() -> (g: Graph)
        ensures
            g.wf(),
            g.node_seq().len() == 0,
            g.adjacency().len() == 0,
    {
        let g = Graph { nodes: Vec::new(), adj: Vec::new() };
        assert(g.adjacency() =~= Seq::empty());
        g
    }

    /// A graph of the given nodes, by handle, without edges.
    pub fn from_nodes(nodes: Vec<Node>) -> (g: Graph)
        ensures
            g.wf(),
            g.node_seq() == nodes@,
            forall|a: usize, b: usize, w: u64| !(#[trigger] has_entry(g.adjacency(), a, b, w)),
    {
        let mut adj: Vec<Vec<(usize, u64)>> = Vec::new();
        let mut i: usize = 0;
        while i < nodes.len()
            invariant
                0 <= i <= nodes@.len(),
                adj@.len() == i,
                forall|j: int| 0 <= j < i ==> (#[trigger] adj@[j])@.len() == 0,
            decreases nodes@.len() - i,
        {
            adj.push(Vec::new());
            i = i + 1;
        }
        let g = Graph { nodes, adj };
        assert forall|a: usize, b: usize, w: u64| !(#[trigger] has_entry(g.adjacency(), a, b, w)) by {
            if a < g.adjacency().len() {
                assert(g.adjacency()[a as int].len() == 0);
            }
        }
        g
    }

    /// Appends a node without edges and returns its handle.
    pub fn add_node(&mut self, data: Node) -> (h: usize)
        requires
            old(self).wf(),
            old(self).node_seq().len() < usize::MAX,
        ensures
            final(self).wf(),
            h == old(self).node_seq().len(),
            final(self).node_seq() == old(self).node_seq().push(data),
            final(self).adjacency() == old(self).adjacency().push(Seq::empty()),
    {
        let h = self.nodes.len();
        self.nodes.push(data);
        self.adj.push(Vec::new());
        let ghost adj = self.adjacency();
        let ghost o = old(self).adjacency();
        assert(adj =~= o.push(Seq::empty()));
        assert forall|a: usize, b: usize, w: u64| #[trigger] has_entry(adj, a, b, w) implies has_entry(adj, b, a, w) by {
            assert(has_entry(o, a, b, w));
        }
        assert forall|a: int| 0 <= a < adj.len() implies keys_unique(#[trigger] adj[a]) by {
            if a < o.len() {
                assert(adj[a] == o[a]);
            }
        }
        h
    }

    /// Stores an undirected edge between `a` and `b`, replacing the weight of
    /// an edge already there.
    pub fn add_weighted_edge(&mut self, a: usize, b: usize, w: u64) -> (r: Result<(), GraphError>)
        requires
            old(self).wf(),
        ensures
            final(self).wf(),
            final(self).node_seq() == old(self).node_seq(),
            final(self).adjacency().len() == old(self).adjacency().len(),
            r is Err <==> (a >= old(self).node_seq().len() || b >= old(self).node_seq().len()),
            r is Err ==> r == Err::<(), GraphError>(GraphError::InvalidHandle) && final(self).adjacency() == old(self).adjacency(),
            r is Ok ==> has_entry(final(self).adjacency(), a, b, w) && has_entry(final(self).adjacency(), b, a, w),
            r is Ok ==> forall|x: usize, y: usize, v: u64|
                #[trigger] has_entry(final(self).adjacency(), x, y, v) <==> if (x == a && y == b) || (x == b && y == a) {
                    v == w
                } else {
                    has_entry(old(self).adjacency(), x, y, v)
                },
    {
        if a >= self.nodes.len() || b >= self.nodes.len() {
            return Err(GraphError::InvalidHandle);
        }
        let ghost o = self.adjacency();
        let mut la: Vec<(usize, u64)> = Vec::new();
        self.adj.set_and_swap(a, &mut la);
        assert(la@ == o[a as int]);
        set_entry(&mut la, b, w);
        self.adj.set(a, la);
        let ghost mid = self.adjacency();
        assert(mid =~= o.update(a as int, mid[a as int]));
        if a != b {
            let mut lb: Vec<(usize, u64)> = Vec::new();
            self.adj.set_and_swap(b, &mut lb);
            assert(lb@ == o[b as int]);
            set_entry(&mut lb, a, w);
            self.adj.set(b, lb);
        }
        let ghost adj = self.adjacency();
        assert(adj.len() == o.len());
        assert forall|x: usize, y: usize, v: u64|
            #[trigger] has_entry(adj, x, y, v) <==> if (x == a && y == b) || (x == b && y == a) {
                v == w
            } else {
                has_entry(o, x, y, v)
            } by {
            if x != a && x != b && x < adj.len() {
                assert(adj[x as int] == o[x as int]);
            }
        }
        assert forall|x: usize, y: usize, v: u64| #[trigger] has_entry(adj, x, y, v) implies has_entry(adj, y, x, v) by {
            if !((x == a && y == b) || (x == b && y == a)) {
                assert(has_entry(o, y, x, v));
            }
        }
        assert forall|x: int| 0 <= x < adj.len() implies keys_unique(#[trigger] adj[x]) by {
            assert(keys_unique(o[x]));
        }
        assert forall|x: int, i: int| 0 <= x < adj.len() && 0 <= i < adj[x].len() implies (#[trigger] adj[x][i]).0 < adj.len() by {
            if x != a && x != b {
                assert(adj[x] == o[x]);
            } else if adj[x][i].0 != a && adj[x][i].0 != b {
                assert(o[x].contains(adj[x][i]));
                let j = choose|j: int| 0 <= j < o[x].len() && o[x][j] == adj[x][i];
                assert(o[x][j].0 < o.len());
            }
        }
        Ok(())
    }

    /// Number of nodes.
    pub fn node_count(&self) -> (r: usize)
        ensures
            r == self.node_seq().len(),
    {
        self.nodes.len()
    }

    /// Number of stored adjacency entries: an undirected edge counts twice,
    /// once per direction (a self-loop once).
    pub fn edge_count(&self) -> (r: usize)
        requires
            self.wf(),
            entry_total(self.adjacency()) <= usize::MAX,
        ensures
            r == entry_total(self.adjacency()),
    {
        let ghost adj = self.adjacency();
        let mut total: usize = 0;
        let mut i: usize = 0;
        while i < self.adj.len()
            invariant
                adj == self.adjacency(),
                0 <= i <= self.adj@.len(),
                adj.len() == self.adj@.len(),
                total == entry_total(adj.take(i as int)),
                entry_total(adj) <= usize::MAX,
            decreases self.adj@.len() - i,
        {
            assert(adj.take(i as int + 1).drop_last() =~= adj.take(i as int));
            proof {
                lemma_entry_total_prefix(adj, i as int + 1);
            }
            total = total + self.adj[i].len();
            i = i + 1;
        }
        assert(adj.take(i as int) =~= adj);
        total
    }

    /// The data of the node with handle `h`.
    pub fn node_data(&self, h: usize) -> (r: Result<&Node, GraphError>)
        ensures
            h < self.node_seq().len() ==> r == Ok::<&Node, GraphError>(&self.node_seq()[h as int]),
            h >= self.node_seq().len() ==> r == Err::<&Node, GraphError>(GraphError::InvalidHandle),
    {
        if h < self.nodes.len() {
            Ok(&self.nodes[h])
        } else {
            Err(GraphError::InvalidHandle)
        }
    }

    /// The `(neighbor, weight)` entries of the node with handle `h`.
    pub fn neighbors(&self, h: usize) -> (r: Result<&Vec<(usize, u64)>, GraphError>)
        requires
            self.wf(),
        ensures
            h < self.node_seq().len() ==> r is Ok && r->Ok_0@ == self.adjacency()[h as int],
            h >= self.node_seq().len() ==> r == Err::<&Vec<(usize, u64)>, GraphError>(GraphError::InvalidHandle),
    {
        if h < self.nodes.len() {
            Ok(self.adj_list(h))
        } else {
            Err(GraphError::InvalidHandle)
        }
    }

    /// The weight of the edge between `a` and `b`, if there is one.
    pub fn edge_weight(&self, a: usize, b: usize) -> (r: Option<u64>)
        requires
            self.wf(),
        ensures
            r is Some <==> adjacent(self.adjacency(), a, b),
            r matches Some(w) ==> has_entry(self.adjacency(), a, b, w) && weight(self.adjacency(), a, b) == w,
    {
        if a >= self.nodes.len() {
            return None;
        }
        let ghost adj = self.adjacency();
        let list = self.adj_list(a);
        let mut k: usize = 0;
        while k < list.len()
            invariant
                self.wf(),
                adj == self.adjacency(),
                a < adj.len(),
                list@ == adj[a as int],
                0 <= k <= list@.len(),
                forall|k2: int| 0 <= k2 < k ==> (#[trigger] list@[k2]).0 != b,
            decreases list@.len() - k,
        {
            if list[k].0 == b {
                let w = list[k].1;
                proof {
                    assert(list@[k as int] == (b, w));
                    assert(has_entry(adj, a, b, w));
                    lemma_weight_of_entry(adj, a, b, w);
                }
                return Some(w);
            }
            k = k + 1;
        }
        proof {
            if adjacent(adj, a, b) {
                let w = choose|w: u64| has_entry(adj, a, b, w);
                let k2 = choose|k2: int| 0 <= k2 < list@.len() && list@[k2] == (b, w);
            }
        }
        None
    }

    /// The adjacency list of an existing handle.
    pub(crate) fn adj_list(&self, h: usize) -> (r: &Vec<(usize, u64)>)
        requires
            self.wf(),
            h < self.node_seq().len(),
        ensures
            r@ == self.adjacency()[h as int],
    {
        &self.adj[h]
    }
}

/// A prefix of the lists holds no more entries than all of them.
proof fn lemma_entry_total_prefix(adj: Adjacency, n: int)
    requires
        0 <= n <= adj.len(),
    ensures
        entry_total(adj.take(n)) <= entry_total(adj),
    decreases adj.len(),
{
    if n < adj.len() {
        assert(adj.drop_last().take(n) =~= adj.take(n));
        lemma_entry_total_prefix(adj.drop_last(), n);
    } else {
        assert(adj.take(n) =~= adj);
    }
}

} // verus!
