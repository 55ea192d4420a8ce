use vstd::prelude::*;
use crate::distance::{COORD_LIMIT, coords_ok, edge_distance, is_isqrt_up, lemma_isqrt_up_unique, sq_dist};
use crate::graph::{Graph, GraphError, has_entry};
use crate::models::{GraphJson, Node};

verus! {

/// The handle that the id `id` names among the first `m` nodes: the last
/// node carrying it (in a graph that is built, ids are distinct, so there is
/// at most one).
pub open spec fn resolve_upto(nodes: Seq<Node>, id: Seq<char>, m: int) -> Option<usize>
    decreases m,
{
    if m <= 0 {
        None
    } else if nodes[m - 1].id@ == id {
        Some((m - 1) as usize)
    } else {
        resolve_upto(nodes, id, m - 1)
    }
}

/// The handle that the id `id` names, if any.
pub open spec fn resolve(nodes: Seq<Node>, id: Seq<char>) -> Option<usize> {
    resolve_upto(nodes, id, nodes.len() as int)
}

/// One of the first `m` neighbor ids of node `a` names node `b`.
pub open spec fn links(nodes: Seq<Node>, a: int, b: usize, m: int) -> bool {
    exists|k: int| 0 <= k < m && k < nodes[a].neighbors@.len() && resolve(nodes, (#[trigger] nodes[a].neighbors@[k])@) == Some(b)
}

/// Node `a` lists node `b` among its neighbors.
pub open spec fn lists(nodes: Seq<Node>, a: usize, b: usize) -> bool {
    a < nodes.len() && links(nodes, a as int, b, nodes[a as int].neighbors@.len() as int)
}

/// No two records carry the same id.
pub open spec fn ids_unique(nodes: Seq<Node>) -> bool {
    forall|i: int, j: int| 0 <= i < j < nodes.len() ==> (#[trigger] nodes[i]).id@ != (#[trigger] nodes[j]).id@
}

/// Records a graph can be built from: distinct ids, coordinates in range.
pub open spec fn records_ok(nodes: Seq<Node>) -> bool {
    ids_unique(nodes) && all_coords_ok(nodes)
}

/// Every coordinate lies within the range of the distance model.
pub open spec fn all_coords_ok(nodes: Seq<Node>) -> bool {
    forall|i: int| 0 <= i < nodes.len() ==> coords_ok(#[trigger] nodes[i])
}

/// The handle of the last node whose id is `id`.
pub(crate) fn find_index(nodes: &Vec<Node>, id: &String) -> (r: Option<usize>)
    ensures
        r == resolve(nodes@, id@),
        r matches Some(i) ==> i < nodes@.len(),
{
    let mut m: usize = nodes.len();
    while m > 0
        invariant
            0 <= m <= nodes@.len(),
            resolve(nodes@, id@) == resolve_upto(nodes@, id@, m as int),
        decreases m,
    {
        if nodes[m - 1].id == *id {
            return Some(m - 1);
        }
        m = m - 1;
    }
    None
}

pub(crate) proof fn lemma_resolve_bound(nodes: Seq<Node>, id: Seq<char>, m: int)
    requires
        0 <= m <= nodes.len(),
        m <= usize::MAX,
    ensures
        resolve_upto(nodes, id, m) matches Some(i) ==> i < m && nodes[i as int].id@ == id,
    decreases m,
{
    if m > 0 {
        lemma_resolve_bound(nodes, id, m - 1);
    }
}

proof fn lemma_sq_dist_sym(a: Node, b: Node)
    ensures
        sq_dist(a, b) == sq_dist(b, a),
{
    assert((a.lon - b.lon) * (a.lon - b.lon) == (b.lon - a.lon) * (b.lon - a.lon)) by (nonlinear_arith);
    assert((a.lat - b.lat) * (a.lat - b.lat) == (b.lat - a.lat) * (b.lat - a.lat)) by (nonlinear_arith);
}

/// `g` is the graph of the records `nodes`: node `i` is record `i`, and an
/// edge joins two nodes exactly when one lists the other, weighted by their
/// distance rounded up.
pub open spec fn built_from(g: Graph, nodes: Seq<Node>) -> bool {
    &&& g.wf()
    &&& records_ok(nodes)
    &&& g.node_seq() == nodes
    &&& forall|a: usize, b: usize, w: u64|
        #[trigger] has_entry(g.adjacency(), a, b, w) <==> ((lists(nodes, a, b) || lists(nodes, b, a)) && is_isqrt_up(
            sq_dist(nodes[a as int], nodes[b as int]),
            w as int,
        ))
}

/// No two records carry the same id.
fn ids_distinct(nodes: &Vec<Node>) -> (r: bool)
    ensures
        r == ids_unique(nodes@),
{
    let mut j: usize = 0;
    while j < nodes.len()
        invariant
            0 <= j <= nodes@.len(),
            forall|a: int, b: int| 0 <= a < b < j ==> (#[trigger] nodes@[a]).id@ != (#[trigger] nodes@[b]).id@,
        decreases nodes@.len() - j,
    {
        let mut i: usize = 0;
        while i < j
            invariant
                0 <= i <= j < nodes@.len(),
                forall|a: int, b: int| 0 <= a < b < j ==> (#[trigger] nodes@[a]).id@ != (#[trigger] nodes@[b]).id@,
                forall|a: int| 0 <= a < i ==> (#[trigger] nodes@[a]).id@ != nodes@[j as int].id@,
            decreases j - i,
        {
            if nodes[i].id == nodes[j].id {
                assert(nodes@[i as int].id@ == nodes@[j as int].id@);
                return false;
            }
            i = i + 1;
        }
        j = j + 1;
    }
    true
}

/// Every coordinate lies within `COORD_LIMIT`.
fn coords_in_range(nodes: &Vec<Node>) -> (r: bool)
    ensures
        r == all_coords_ok(nodes@),
{
    let mut i: usize = 0;
    while i < nodes.len()
        invariant
            0 <= i <= nodes@.len(),
            forall|j: int| 0 <= j < i ==> coords_ok(#[trigger] nodes@[j]),
        decreases nodes@.len() - i,
    {
        let nd = &nodes[i];
        if !(-COORD_LIMIT <= nd.lon && nd.lon <= COORD_LIMIT && -COORD_LIMIT <= nd.lat && nd.lat <= COORD_LIMIT) {
            assert(!coords_ok(nodes@[i as int]));
            return false;
        }
        i = i + 1;
    }
    true
}

/// Builds the graph: node `i` of the records gets handle `i`, and each
/// neighbor id that names a node gives an undirected edge weighted by the
/// straight-line distance (rounded up). Ids that name no node are skipped.
/// Fails with `MalformedGraph` when two records share an id or a coordinate
/// lies outside `COORD_LIMIT`.
pub fn build_graph_from_json(graph_json: GraphJson) -> (r: Result<Graph, GraphError>)
    requires
        graph_json.nodes@.len() < usize::MAX,
    ensures
        r is Err <==> !records_ok(graph_json.nodes@),
        r is Err ==> r->Err_0 == GraphError::MalformedGraph,
        r matches Ok(g) ==> built_from(g, graph_json.nodes@),
{
    if !coords_in_range(&graph_json.nodes) || !ids_distinct(&graph_json.nodes) {
        return Err(GraphError::MalformedGraph);
    }
    let ghost ns = graph_json.nodes@;
    let nodes = graph_json.nodes;
    let n = nodes.len();
    // resolve every neighbor id first: the handle of a record is its index
    let mut edges: Vec<(usize, usize, u64)> = Vec::new();
    let mut x: usize = 0;
    while x < n
        invariant
            nodes@ == ns,
            n == ns.len(),
            0 <= x <= n,
            all_coords_ok(ns),
            forall|e: int| 0 <= e < edges@.len() ==> ({
                let (a, b, w) = #[trigger] edges@[e];
                a < n && b < n && lists(ns, a, b) && is_isqrt_up(sq_dist(ns[a as int], ns[b as int]), w as int)
            }),
            forall|a: usize, b: usize| a < x && #[trigger] lists(ns, a, b) ==> exists|e: int| 0 <= e < edges@.len() && #[trigger] edges@[e].0 == a && edges@[e].1 == b,
        decreases n - x,
    {
        let nd = &nodes[x];
        let mut k: usize = 0;
        while k < nd.neighbors.len()
            invariant
                nodes@ == ns,
                n == ns.len(),
                0 <= x < n,
                *nd == ns[x as int],
                0 <= k <= nd.neighbors@.len(),
                all_coords_ok(ns),
                forall|e: int| 0 <= e < edges@.len() ==> ({
                    let (a, b, w) = #[trigger] edges@[e];
                    a < n && b < n && lists(ns, a, b) && is_isqrt_up(sq_dist(ns[a as int], ns[b as int]), w as int)
                }),
                forall|a: usize, b: usize| a < x && #[trigger] lists(ns, a, b) ==> exists|e: int| 0 <= e < edges@.len() && #[trigger] edges@[e].0 == a && edges@[e].1 == b,
                forall|b: usize| #[trigger] links(ns, x as int, b, k as int) ==> exists|e: int| 0 <= e < edges@.len() && #[trigger] edges@[e].0 == x && edges@[e].1 == b,
            decreases nd.neighbors@.len() - k,
        {
            let ghost old_edges = edges@;
            match find_index(&nodes, &nd.neighbors[k]) {
                Some(to) => {
                    let w = edge_distance(nd, &nodes[to]);
                    edges.push((x, to, w));
                    proof {
                        assert(links(ns, x as int, to, nd.neighbors@.len() as int)) by {
                            assert(resolve(ns, (ns[x as int].neighbors@[k as int])@) == Some(to));
                        }
                        assert(edges@[old_edges.len() as int] == (x, to, w));
                    }
                },
                None => {},
            }
            proof {
                assert forall|e: int| 0 <= e < edges@.len() implies ({
                    let (a, b, w) = #[trigger] edges@[e];
                    a < n && b < n && lists(ns, a, b) && is_isqrt_up(sq_dist(ns[a as int], ns[b as int]), w as int)
                }) by {
                    if e < old_edges.len() {
                        assert(edges@[e] == old_edges[e]);
                    }
                }
                assert forall|a: usize, b: usize| a < x && #[trigger] lists(ns, a, b) implies exists|e: int| 0 <= e < edges@.len() && #[trigger] edges@[e].0 == a && edges@[e].1 == b by {
                    let e = choose|e: int| 0 <= e < old_edges.len() && #[trigger] old_edges[e].0 == a && old_edges[e].1 == b;
                    assert(edges@[e] == old_edges[e]);
                }
                assert forall|b: usize| #[trigger] links(ns, x as int, b, k + 1) implies exists|e: int| 0 <= e < edges@.len() && #[trigger] edges@[e].0 == x && edges@[e].1 == b by {
                    let k2 = choose|k2: int| 0 <= k2 < k + 1 && k2 < ns[x as int].neighbors@.len() && resolve(ns, (#[trigger] ns[x as int].neighbors@[k2])@) == Some(b);
                    if k2 < k {
                        assert(links(ns, x as int, b, k as int));
                        let e = choose|e: int| 0 <= e < old_edges.len() && #[trigger] old_edges[e].0 == x && old_edges[e].1 == b;
                        assert(edges@[e] == old_edges[e]);
                    } else {
                        assert(edges@[old_edges.len() as int].0 == x);
                    }
                }
            }
            k = k + 1;
        }
        x = x + 1;
    }
    let mut g = Graph::from_nodes(nodes);
    let mut e: usize = 0;
    while e < edges.len()
        invariant
            g.wf(),
            g.node_seq() == ns,
            n == ns.len(),
            0 <= e <= edges@.len(),
            forall|j: int| 0 <= j < edges@.len() ==> ({
                let (a, b, w) = #[trigger] edges@[j];
                a < n && b < n && lists(ns, a, b) && is_isqrt_up(sq_dist(ns[a as int], ns[b as int]), w as int)
            }),
            forall|a: usize, b: usize, w: u64|
                #[trigger] has_entry(g.adjacency(), a, b, w) <==> (exists|j: int| 0 <= j < e && ({
                    let (a2, b2, _) = #[trigger] edges@[j];
                    (a2 == a && b2 == b) || (a2 == b && b2 == a)
                })) && is_isqrt_up(sq_dist(ns[a as int], ns[b as int]), w as int),
        decreases edges@.len() - e,
    {
        let (a, b, w) = edges[e];
        let ghost og = g.adjacency();
        let _ = g.add_weighted_edge(a, b, w);
        proof {
            lemma_sq_dist_sym(ns[a as int], ns[b as int]);
            assert forall|x: usize, y: usize, v: u64|
                #[trigger] has_entry(g.adjacency(), x, y, v) <==> (exists|j: int| 0 <= j < e + 1 && ({
                    let (a2, b2, _) = #[trigger] edges@[j];
                    (a2 == x && b2 == y) || (a2 == y && b2 == x)
                })) && is_isqrt_up(sq_dist(ns[x as int], ns[y as int]), v as int) by {
                if (x == a && y == b) || (x == b && y == a) {
                    if is_isqrt_up(sq_dist(ns[x as int], ns[y as int]), v as int) {
                        lemma_isqrt_up_unique(sq_dist(ns[x as int], ns[y as int]), v as int, w as int);
                    }
                    assert(edges@[e as int] == (a, b, w));
                } else {
                    if exists|j: int| 0 <= j < e + 1 && ({
                        let (a2, b2, _) = #[trigger] edges@[j];
                        (a2 == x && b2 == y) || (a2 == y && b2 == x)
                    }) {
                        let j = choose|j: int| 0 <= j < e + 1 && ({
                            let (a2, b2, _) = #[trigger] edges@[j];
                            (a2 == x && b2 == y) || (a2 == y && b2 == x)
                        });
                        assert(j != e);
                    }
                    assert(has_entry(g.adjacency(), x, y, v) == has_entry(og, x, y, v));
                }
            }
        }
        e = e + 1;
    }
    proof {
        assert forall|a: usize, b: usize, w: u64|
            #[trigger] has_entry(g.adjacency(), a, b, w) <==> ((lists(ns, a, b) || lists(ns, b, a)) && is_isqrt_up(
                sq_dist(ns[a as int], ns[b as int]),
                w as int,
            )) by {
            if has_entry(g.adjacency(), a, b, w) {
                let j = choose|j: int| 0 <= j < e && ({
                    let (a2, b2, _) = #[trigger] edges@[j];
                    (a2 == a && b2 == b) || (a2 == b && b2 == a)
                });
                let t = edges@[j];
            }
            if (lists(ns, a, b) || lists(ns, b, a)) && is_isqrt_up(sq_dist(ns[a as int], ns[b as int]), w as int) {
                if lists(ns, a, b) {
                    let j = choose|j: int| 0 <= j < edges@.len() && #[trigger] edges@[j].0 == a && edges@[j].1 == b;
                    let t = edges@[j];
                } else {
                    let j = choose|j: int| 0 <= j < edges@.len() && #[trigger] edges@[j].0 == b && edges@[j].1 == a;
                    let t = edges@[j];
                }
            }
        }
    }
    Ok(g)
}

} // verus!
