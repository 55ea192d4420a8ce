use vstd::prelude::*;
use crate::astar::{EuclideanHeuristic, Heuristic, a_star_traversal, estimates};
use crate::bfs::{bfs, bfs_traversal, level_order};
use crate::dfs::{depth_first, dfs, dfs_traversal};
use crate::dijkstra::dijkstra_visit;
use crate::graph::{Graph, GraphError};
use crate::map::{records_ok, build_graph_from_json, built_from, find_index, lemma_resolve_bound, resolve};
use crate::models::Node;
use crate::distance::{coords_ok, is_isqrt_up, isqrt_of, lemma_isqrt_exists, lemma_rounded_triangle, sq_dist};
use crate::graph::{adjacent, has_entry};
use crate::models::GraphJson;
use crate::paths::{consistent, is_min_cost, is_path, path_cost, reachable};

verus! {

/// What a search reports: the path from start to goal (empty when there is
/// none), the visited nodes in visiting order, and the path's cost (absent
/// when there is no path).
pub struct SearchResult {
    pub path: Vec<usize>,
    pub visited: Vec<usize>,
    pub cost: Option<u128>,
}

/// The same report with node ids in place of handles.
pub struct RouteResult {
    pub path: Vec<String>,
    pub visited: Vec<String>,
    pub cost: Option<u128>,
}

/// An edge-count search's report: the path when `goal` is reachable, with
/// its number of edges as cost, and every reachable node visited once,
/// from `start` on, each joined to one visited before it.
pub open spec fn unweighted_report(g: Graph, start: usize, goal: usize, res: SearchResult) -> bool {
    &&& res.cost is Some <==> reachable(g.adjacency(), start, goal)
    &&& reachable(g.adjacency(), start, goal) ==> is_path(g.adjacency(), res.path@, start, goal) && res.path@.no_duplicates() && res.cost
        == Some((res.path@.len() - 1) as u128)
    &&& !reachable(g.adjacency(), start, goal) ==> res.path@.len() == 0
    &&& res.visited@.len() > 0 && res.visited@[0] == start && res.visited@.no_duplicates()
    &&& forall|v: usize| #[trigger] res.visited@.contains(v) <==> (v < g.adjacency().len() && reachable(g.adjacency(), start, v))
    &&& forall|j: int| 0 < j < res.visited@.len() ==> exists|k: int| 0 <= k < j && adjacent(g.adjacency(), res.visited@[k], #[trigger] res.visited@[j])
}

/// No walk from `start` to `goal` has fewer nodes than the reported path.
pub open spec fn fewest_edges(g: Graph, start: usize, goal: usize, res: SearchResult) -> bool {
    res.cost is Some ==> forall|q: Seq<usize>| #[trigger] is_path(g.adjacency(), q, start, goal) ==> res.path@.len() <= q.len()
}

/// What Dijkstra's search reports: the cheapest path with its cost when
/// `goal` is reachable, and exactly the reachable nodes as visited.
pub open spec fn dijkstra_report(g: Graph, start: usize, goal: usize, res: SearchResult) -> bool {
    &&& res.cost is Some <==> reachable(g.adjacency(), start, goal)
    &&& res.cost matches Some(c) ==> is_path(g.adjacency(), res.path@, start, goal) && res.path@.no_duplicates() && path_cost(g.adjacency(), res.path@) == c
        && is_min_cost(g.adjacency(), start, goal, c as int)
    &&& res.cost is None ==> res.path@.len() == 0
    &&& res.visited@.no_duplicates()
    &&& forall|v: usize| #[trigger] res.visited@.contains(v) <==> (v < g.adjacency().len() && reachable(g.adjacency(), start, v))
}

/// What an A* search reports: a path with its cost when `goal` is reachable
/// (the cheapest when the estimates are consistent), and the expanded nodes,
/// from `start` to `goal`.
pub open spec fn astar_report<H: Heuristic>(g: Graph, heuristic: &H, start: usize, goal: usize, res: SearchResult) -> bool {
    &&& res.cost is Some <==> reachable(g.adjacency(), start, goal)
    &&& res.cost matches Some(c) ==> is_path(g.adjacency(), res.path@, start, goal) && res.path@.no_duplicates() && path_cost(g.adjacency(), res.path@) == c
        && res.visited@.len() > 0 && res.visited@[0] == start && res.visited@.last() == goal && res.visited@.no_duplicates()
    &&& res.cost matches Some(c) ==> (consistent(g.adjacency(), estimates(heuristic, g, goal)) ==> is_min_cost(
        g.adjacency(),
        start,
        goal,
        c as int,
    ))
    &&& res.cost is None ==> res.path@.len() == 0 && res.visited@.len() == 0
    &&& forall|v: usize| #[trigger] res.visited@.contains(v) ==> reachable(g.adjacency(), start, v)
}

/// Breadth-first search: the path with the fewest edges and the discovery order.
pub fn bfs_search(graph: &Graph, start: usize, goal: usize) -> (r: Result<SearchResult, GraphError>)
    requires
        graph.wf(),
    ensures
        r is Err <==> (start >= graph.node_seq().len() || goal >= graph.node_seq().len()),
        r is Err ==> r->Err_0 == GraphError::InvalidHandle,
        r matches Ok(res) ==> unweighted_report(*graph, start, goal, res) && fewest_edges(*graph, start, goal, res)
            && level_order(graph.adjacency(), start, res.visited@),
{
    let found = bfs(graph, start, goal)?;
    let (_, order) = match bfs_traversal(graph, start) {
        Ok(t) => t,
        Err(e) => {
            return Err(e);
        },
    };
    Ok(unweighted_result(found, order))
}

/// Depth-first search: some path and the expansion order.
pub fn dfs_search(graph: &Graph, start: usize, goal: usize) -> (r: Result<SearchResult, GraphError>)
    requires
        graph.wf(),
    ensures
        r is Err <==> (start >= graph.node_seq().len() || goal >= graph.node_seq().len()),
        r is Err ==> r->Err_0 == GraphError::InvalidHandle,
        r matches Ok(res) ==> unweighted_report(*graph, start, goal, res) && depth_first(graph.adjacency(), res.visited@),
{
    let found = dfs(graph, start, goal)?;
    let (_, order) = match dfs_traversal(graph, start) {
        Ok(t) => t,
        Err(e) => {
            return Err(e);
        },
    };
    Ok(unweighted_result(found, order))
}

fn unweighted_result(found: Option<Vec<usize>>, order: Vec<usize>) -> (res: SearchResult)
    requires
        found matches Some(p) ==> p@.len() > 0,
    ensures
        res.visited == order,
        found matches Some(p) ==> res.path == p && res.cost == Some((p@.len() - 1) as u128),
        found is None ==> res.path@.len() == 0 && res.cost is None,
{
    match found {
        Some(p) => {
            let c = (p.len() - 1) as u128;
            SearchResult { path: p, visited: order, cost: Some(c) }
        },
        None => SearchResult { path: Vec::new(), visited: order, cost: None },
    }
}

/// Dijkstra's search: the cheapest path, its cost, and the nodes in the
/// order in which their distances became final (all reachable nodes).
pub fn dijkstra_search(graph: &Graph, start: usize, goal: usize) -> (r: Result<SearchResult, GraphError>)
    requires
        graph.wf(),
    ensures
        r is Err <==> (start >= graph.node_seq().len() || goal >= graph.node_seq().len()),
        r is Err ==> r->Err_0 == GraphError::InvalidHandle,
        r matches Ok(res) ==> dijkstra_report(*graph, start, goal, res),
{
    let (found, visited) = dijkstra_visit(graph, start, goal)?;
    match found {
        Some((p, c)) => Ok(SearchResult { path: p, visited, cost: Some(c) }),
        None => Ok(SearchResult { path: Vec::new(), visited, cost: None }),
    }
}

/// A* search guided by `heuristic`: a path, its cost, and the expansion
/// order; with no path, everything is empty.
pub fn astar_search<H: Heuristic>(graph: &Graph, start: usize, goal: usize, heuristic: &H) -> (r: Result<SearchResult, GraphError>)
    requires
        graph.wf(),
    ensures
        r is Err <==> (start >= graph.node_seq().len() || goal >= graph.node_seq().len()),
        r is Err ==> r->Err_0 == GraphError::InvalidHandle,
        r matches Ok(res) ==> astar_report(*graph, heuristic, start, goal, res),
{
    match a_star_traversal(graph, start, goal, heuristic)? {
        Some((p, c, visited)) => Ok(SearchResult { path: p, visited, cost: Some(c) }),
        None => Ok(SearchResult { path: Vec::new(), visited: Vec::new(), cost: None }),
    }
}

/// Builds the graph and looks up the handles of the two ids.
fn prepare(start_id: &String, goal_id: &String, graph_json: GraphJson) -> (r: Result<(Graph, usize, usize), GraphError>)
    requires
        graph_json.nodes@.len() < usize::MAX,
    ensures
        r is Err <==> route_error(start_id@, goal_id@, graph_json) is Some,
        r is Err ==> Some(r->Err_0) == route_error(start_id@, goal_id@, graph_json),
        r matches Ok((g, s, t)) ==> {
            &&& built_from(g, graph_json.nodes@)
            &&& resolve(graph_json.nodes@, start_id@) == Some(s) && resolve(graph_json.nodes@, goal_id@) == Some(t)
            &&& s < g.node_seq().len() && g.node_seq()[s as int].id@ == start_id@
            &&& t < g.node_seq().len() && g.node_seq()[t as int].id@ == goal_id@
        },
{
    let ghost ns = graph_json.nodes@;
    proof {
        lemma_resolve_bound(ns, start_id@, ns.len() as int);
        lemma_resolve_bound(ns, goal_id@, ns.len() as int);
    }
    let s = find_index(&graph_json.nodes, start_id);
    let t = find_index(&graph_json.nodes, goal_id);
    let g = build_graph_from_json(graph_json)?;
    match (s, t) {
        (Some(s), Some(t)) => Ok((g, s, t)),
        (None, _) => Err(GraphError::UnknownStartId),
        (_, None) => Err(GraphError::UnknownGoalId),
    }
}

/// Why a query by ids fails, if it does: records that share an id or hold a
/// coordinate out of range, or the first of the two ids that names no node.
pub open spec fn route_error(start_id: Seq<char>, goal_id: Seq<char>, graph_json: GraphJson) -> Option<GraphError> {
    if !records_ok(graph_json.nodes@) {
        Some(GraphError::MalformedGraph)
    } else if resolve(graph_json.nodes@, start_id) is None {
        Some(GraphError::UnknownStartId)
    } else if resolve(graph_json.nodes@, goal_id) is None {
        Some(GraphError::UnknownGoalId)
    } else {
        None
    }
}

/// The ids of the nodes with handles `hs`.
fn ids_of(g: &Graph, hs: &Vec<usize>) -> (r: Vec<String>)
    requires
        forall|i: int| 0 <= i < hs@.len() ==> #[trigger] hs@[i] < g.node_seq().len(),
    ensures
        r@.len() == hs@.len(),
        forall|i: int| 0 <= i < hs@.len() ==> (#[trigger] r@[i])@ == g.node_seq()[hs@[i] as int].id@,
{
    let mut r: Vec<String> = Vec::new();
    let mut i: usize = 0;
    while i < hs.len()
        invariant
            0 <= i <= hs@.len(),
            r@.len() == i,
            forall|j: int| 0 <= j < hs@.len() ==> #[trigger] hs@[j] < g.node_seq().len(),
            forall|j: int| 0 <= j < i ==> (#[trigger] r@[j])@ == g.node_seq()[hs@[j] as int].id@,
        decreases hs@.len() - i,
    {
        let id = match g.node_data(hs[i]) {
            Ok(nd) => nd.id.clone(),
            Err(_) => String::new(),
        };
        r.push(id);
        i = i + 1;
    }
    r
}

/// The handle of the node that `id` names (meaningful when it names one).
pub open spec fn handle_of(nodes: Seq<Node>, id: Seq<char>) -> usize {
    resolve(nodes, id)->Some_0
}

/// `ids` are the ids of the nodes with handles `hs`, in order.
pub open spec fn ids_match(g: Graph, hs: Seq<usize>, ids: Seq<String>) -> bool {
    &&& ids.len() == hs.len()
    &&& forall|i: int| 0 <= i < hs.len() ==> (#[trigger] ids[i])@ == g.node_seq()[hs[i] as int].id@
}

/// `out` is the report `res` with ids in place of handles.
pub open spec fn route_of(g: Graph, res: SearchResult, out: RouteResult) -> bool {
    &&& out.cost == res.cost
    &&& ids_match(g, res.path@, out.path@)
    &&& ids_match(g, res.visited@, out.visited@)
}

/// `out` is, by ids, a breadth-first report over the graph of `nodes`.
pub open spec fn bfs_route_by(nodes: Seq<Node>, start_id: Seq<char>, goal_id: Seq<char>, g: Graph, res: SearchResult, out: RouteResult) -> bool {
    let (s, t) = (handle_of(nodes, start_id), handle_of(nodes, goal_id));
    &&& built_from(g, nodes)
    &&& unweighted_report(g, s, t, res) && fewest_edges(g, s, t, res) && level_order(g.adjacency(), s, res.visited@)
    &&& route_of(g, res, out)
}

/// `out` is, by ids, a depth-first report over the graph of `nodes`.
pub open spec fn dfs_route_by(nodes: Seq<Node>, start_id: Seq<char>, goal_id: Seq<char>, g: Graph, res: SearchResult, out: RouteResult) -> bool {
    let (s, t) = (handle_of(nodes, start_id), handle_of(nodes, goal_id));
    &&& built_from(g, nodes)
    &&& unweighted_report(g, s, t, res) && depth_first(g.adjacency(), res.visited@)
    &&& route_of(g, res, out)
}

/// `out` is, by ids, Dijkstra's report over the graph of `nodes`.
pub open spec fn dijkstra_route_by(nodes: Seq<Node>, start_id: Seq<char>, goal_id: Seq<char>, g: Graph, res: SearchResult, out: RouteResult) -> bool {
    let (s, t) = (handle_of(nodes, start_id), handle_of(nodes, goal_id));
    &&& built_from(g, nodes)
    &&& dijkstra_report(g, s, t, res)
    &&& route_of(g, res, out)
}

/// `out` is, by ids, the report of A* with the straight-line estimate over
/// the graph of `nodes`.
pub open spec fn astar_route_by(nodes: Seq<Node>, start_id: Seq<char>, goal_id: Seq<char>, g: Graph, res: SearchResult, out: RouteResult) -> bool {
    let (s, t) = (handle_of(nodes, start_id), handle_of(nodes, goal_id));
    &&& built_from(g, nodes)
    &&& astar_report(g, &EuclideanHeuristic, s, t, res)
    &&& res.cost matches Some(c) ==> is_min_cost(g.adjacency(), s, t, c as int)
    &&& route_of(g, res, out)
}

/// A report by ids: the path runs from the start id to the goal id, and a
/// cost is present exactly when a path is.
pub open spec fn route_ok(start_id: Seq<char>, goal_id: Seq<char>, out: RouteResult) -> bool {
    &&& out.cost is Some <==> out.path@.len() > 0
    &&& out.path@.len() > 0 ==> out.path@[0]@ == start_id && out.path@.last()@ == goal_id
}

/// The report of a handle search, by ids.
fn to_route(g: &Graph, s: usize, t: usize, res: SearchResult) -> (out: RouteResult)
    requires
        forall|i: int| 0 <= i < res.path@.len() ==> #[trigger] res.path@[i] < g.node_seq().len(),
        forall|i: int| 0 <= i < res.visited@.len() ==> #[trigger] res.visited@[i] < g.node_seq().len(),
        res.cost is Some <==> res.path@.len() > 0,
        res.path@.len() > 0 ==> res.path@[0] == s && res.path@.last() == t,
    ensures
        route_of(*g, res, out),
{
    let path = ids_of(g, &res.path);
    let visited = ids_of(g, &res.visited);
    RouteResult { path, visited, cost: res.cost }
}

/// Breadth-first search between the nodes with ids `start_id` and `goal_id`.
pub fn run_bfs(start_id: String, goal_id: String, graph_json: GraphJson) -> (r: Result<RouteResult, GraphError>)
    requires
        graph_json.nodes@.len() < usize::MAX,
    ensures
        r is Err <==> route_error(start_id@, goal_id@, graph_json) is Some,
        r is Err ==> Some(r->Err_0) == route_error(start_id@, goal_id@, graph_json),
        r matches Ok(out) ==> route_ok(start_id@, goal_id@, out),
        r matches Ok(out) ==> exists|g: Graph, res: SearchResult|
            #[trigger] bfs_route_by(graph_json.nodes@, start_id@, goal_id@, g, res, out),
{
    let ghost ns = graph_json.nodes@;
    let (g, s, t) = prepare(&start_id, &goal_id, graph_json)?;
    match bfs_search(&g, s, t) {
        Ok(res) => {
            let ghost rg = res;
            proof {
                lemma_report_in_range(g, s, t, res);
            }
            let out = to_route(&g, s, t, res);
            proof {
                assert(bfs_route_by(ns, start_id@, goal_id@, g, rg, out));
            }
            Ok(out)
        },
        Err(e) => Err(e),
    }
}

/// Depth-first search between the nodes with ids `start_id` and `goal_id`.
pub fn run_dfs(start_id: String, goal_id: String, graph_json: GraphJson) -> (r: Result<RouteResult, GraphError>)
    requires
        graph_json.nodes@.len() < usize::MAX,
    ensures
        r is Err <==> route_error(start_id@, goal_id@, graph_json) is Some,
        r is Err ==> Some(r->Err_0) == route_error(start_id@, goal_id@, graph_json),
        r matches Ok(out) ==> route_ok(start_id@, goal_id@, out),
        r matches Ok(out) ==> exists|g: Graph, res: SearchResult|
            #[trigger] dfs_route_by(graph_json.nodes@, start_id@, goal_id@, g, res, out),
{
    let ghost ns = graph_json.nodes@;
    let (g, s, t) = prepare(&start_id, &goal_id, graph_json)?;
    match dfs_search(&g, s, t) {
        Ok(res) => {
            let ghost rg = res;
            proof {
                lemma_report_in_range(g, s, t, res);
            }
            let out = to_route(&g, s, t, res);
            proof {
                assert(dfs_route_by(ns, start_id@, goal_id@, g, rg, out));
            }
            Ok(out)
        },
        Err(e) => Err(e),
    }
}

/// Dijkstra's search between the nodes with ids `start_id` and `goal_id`.
pub fn run_dijkstra(start_id: String, goal_id: String, graph_json: GraphJson) -> (r: Result<RouteResult, GraphError>)
    requires
        graph_json.nodes@.len() < usize::MAX,
    ensures
        r is Err <==> route_error(start_id@, goal_id@, graph_json) is Some,
        r is Err ==> Some(r->Err_0) == route_error(start_id@, goal_id@, graph_json),
        r matches Ok(out) ==> route_ok(start_id@, goal_id@, out),
        r matches Ok(out) ==> exists|g: Graph, res: SearchResult|
            #[trigger] dijkstra_route_by(graph_json.nodes@, start_id@, goal_id@, g, res, out),
{
    let ghost ns = graph_json.nodes@;
    let (g, s, t) = prepare(&start_id, &goal_id, graph_json)?;
    match dijkstra_search(&g, s, t) {
        Ok(res) => {
            let ghost rg = res;
            proof {
                lemma_visited_in_range(g, s, res);
            }
            let out = to_route(&g, s, t, res);
            proof {
                assert(dijkstra_route_by(ns, start_id@, goal_id@, g, rg, out));
            }
            Ok(out)
        },
        Err(e) => Err(e),
    }
}

/// A* search, guided by straight-line distance, between the nodes with ids
/// `start_id` and `goal_id`.
pub fn run_astar(start_id: String, goal_id: String, graph_json: GraphJson) -> (r: Result<RouteResult, GraphError>)
    requires
        graph_json.nodes@.len() < usize::MAX,
    ensures
        r is Err <==> route_error(start_id@, goal_id@, graph_json) is Some,
        r is Err ==> Some(r->Err_0) == route_error(start_id@, goal_id@, graph_json),
        r matches Ok(out) ==> route_ok(start_id@, goal_id@, out),
        r matches Ok(out) ==> exists|g: Graph, res: SearchResult|
            #[trigger] astar_route_by(graph_json.nodes@, start_id@, goal_id@, g, res, out),
{
    let ghost ns = graph_json.nodes@;
    let (g, s, t) = prepare(&start_id, &goal_id, graph_json)?;
    match astar_search(&g, s, t, &EuclideanHeuristic) {
        Ok(res) => {
            let ghost rg = res;
            proof {
                lemma_visited_in_range(g, s, res);
                lemma_built_graph_consistent(g, ns, t);
            }
            let out = to_route(&g, s, t, res);
            proof {
                assert(astar_route_by(ns, start_id@, goal_id@, g, rg, out));
            }
            Ok(out)
        },
        Err(e) => Err(e),
    }
}

/// On a graph built from records, the straight-line estimate towards any
/// node is consistent: edges are weighted by the distance rounded up and the
/// estimate rounds down, so along an edge it drops by at most the weight.
pub proof fn lemma_built_graph_consistent(g: Graph, nodes: Seq<Node>, goal: usize)
    requires
        built_from(g, nodes),
        goal < nodes.len(),
    ensures
        consistent(g.adjacency(), estimates(&EuclideanHeuristic, g, goal)),
{
    let adj = g.adjacency();
    let est = estimates(&EuclideanHeuristic, g, goal);
    assert forall|x: usize, y: usize, w: u64| #[trigger] has_entry(adj, x, y, w) implies est[x as int] <= w + est[y as int] by {
        assert(has_entry(adj, y, x, w));
        let nx = nodes[x as int];
        let ny = nodes[y as int];
        let ng = nodes[goal as int];
        assert(coords_ok(nx) && coords_ok(ny) && coords_ok(ng));
        lemma_sq_dist_bound(nx, ng);
        lemma_sq_dist_bound(ny, ng);
        lemma_isqrt_exists(sq_dist(nx, ng));
        lemma_isqrt_exists(sq_dist(ny, ng));
        assert(est[x as int] == isqrt_of(sq_dist(nx, ng)));
        assert(est[y as int] == isqrt_of(sq_dist(ny, ng)));
        assert(is_isqrt_up(sq_dist(nx, ny), w as int));
        lemma_rounded_triangle(nx, ny, ng, w as int, est[y as int] as int, est[x as int] as int);
    }
}

/// Squared distances of nodes in range fit the square-root routines.
proof fn lemma_sq_dist_bound(a: Node, b: Node)
    requires
        coords_ok(a),
        coords_ok(b),
    ensures
        0 <= sq_dist(a, b) <= 8_000_000_000_000_000_000,
{
    let dx = a.lon - b.lon;
    let dy = a.lat - b.lat;
    assert(0 <= dx * dx <= 4_000_000_000_000_000_000) by (nonlinear_arith)
        requires -2_000_000_000 <= dx <= 2_000_000_000;
    assert(0 <= dy * dy <= 4_000_000_000_000_000_000) by (nonlinear_arith)
        requires -2_000_000_000 <= dy <= 2_000_000_000;
}

proof fn lemma_report_in_range(g: Graph, s: usize, t: usize, res: SearchResult)
    requires
        g.wf(),
        unweighted_report(g, s, t, res),
    ensures
        forall|i: int| 0 <= i < res.path@.len() ==> #[trigger] res.path@[i] < g.node_seq().len(),
        forall|i: int| 0 <= i < res.visited@.len() ==> #[trigger] res.visited@[i] < g.node_seq().len(),
{
    assert forall|i: int| 0 <= i < res.visited@.len() implies #[trigger] res.visited@[i] < g.node_seq().len() by {
        assert(res.visited@.contains(res.visited@[i]));
    }
}

proof fn lemma_visited_in_range(g: Graph, s: usize, res: SearchResult)
    requires
        g.wf(),
        forall|v: usize| #[trigger] res.visited@.contains(v) ==> reachable(g.adjacency(), s, v),
    ensures
        forall|i: int| 0 <= i < res.visited@.len() ==> #[trigger] res.visited@[i] < g.node_seq().len(),
{
    assert forall|i: int| 0 <= i < res.visited@.len() implies #[trigger] res.visited@[i] < g.node_seq().len() by {
        let v = res.visited@[i];
        assert(res.visited@.contains(v));
        let p = choose|p: Seq<usize>| is_path(g.adjacency(), p, s, v);
        assert(p[p.len() - 1] < g.adjacency().len());
    }
}

} // verus!
