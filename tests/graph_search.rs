use geo_paths::astar::{a_star_traversal, EuclideanHeuristic};
use geo_paths::bfs::{bfs, bfs_traversal};
use geo_paths::dfs::{dfs, dfs_traversal};
use geo_paths::dijkstra::{dijkstra_algorithm, dijkstra_path};
use geo_paths::distance::{edge_distance, euclidean_distance, isqrt, isqrt_up};
use geo_paths::graph::{Graph, GraphError};
use geo_paths::map::build_graph_from_json;
use geo_paths::models::{GraphJson, Node};
use geo_paths::search::{astar_search, bfs_search, dfs_search, dijkstra_search, run_astar, run_bfs, run_dfs, run_dijkstra};

fn node(id: &str, lon: i64, lat: i64, neighbors: &[&str]) -> Node {
    Node {
        id: id.to_string(),
        name: format!("Node{}", id),
        dept: format!("Dept{}", id),
        lon,
        lat,
        neighbors: neighbors.iter().map(|s| s.to_string()).collect(),
    }
}

fn two_nodes() -> GraphJson {
    GraphJson { nodes: vec![node("1", 0, 0, &["2"]), node("2", 3, 4, &["1"])] }
}

/// 0 - 1 - 2 - 3 in a line, plus a long direct edge 0 - 3, and an isolated 4.
fn line_graph() -> Graph {
    let mut g = Graph::new();
    for i in 0..5 {
        g.add_node(node(&i.to_string(), i, 0, &[]));
    }
    g.add_weighted_edge(0, 1, 1).unwrap();
    g.add_weighted_edge(1, 2, 1).unwrap();
    g.add_weighted_edge(2, 3, 1).unwrap();
    g.add_weighted_edge(0, 3, 10).unwrap();
    g
}

#[test]
fn test_build_graph_from_json() {
    let graph = build_graph_from_json(two_nodes()).unwrap();
    assert_eq!(graph.node_count(), 2, "Should register 2 nodes");
    assert_eq!(graph.edge_count(), 2, "Should have exactly 2 undirected edges");
    let id_1 = 0usize;
    let id_2 = 1usize;
    let weight = graph.edge_weight(id_1, id_2).expect("Edge missing between 1 and 2");
    assert_eq!(weight, 5, "Distance must be 5.0 (3-4-5 triangle)");
}

#[test]
fn edges_are_symmetric() {
    let mut g = Graph::new();
    g.add_node(node("a", 0, 0, &[]));
    g.add_node(node("b", 1, 1, &[]));
    g.add_weighted_edge(0, 1, 7).unwrap();
    assert!(g.neighbors(0).unwrap().contains(&(1, 7)));
    assert!(g.neighbors(1).unwrap().contains(&(0, 7)));
    assert_eq!(g.edge_weight(1, 0), Some(7));
}

#[test]
fn edge_inserted_again_replaces_weight() {
    let mut g = Graph::new();
    g.add_node(node("a", 0, 0, &[]));
    g.add_node(node("b", 1, 1, &[]));
    g.add_weighted_edge(0, 1, 7).unwrap();
    g.add_weighted_edge(1, 0, 9).unwrap();
    assert_eq!(g.edge_count(), 2);
    assert_eq!(g.edge_weight(0, 1), Some(9));
    assert_eq!(g.neighbors(0).unwrap().len(), 1);
}

#[test]
fn invalid_handles_are_rejected() {
    let mut g = line_graph();
    assert_eq!(g.add_weighted_edge(0, 9, 1), Err(GraphError::InvalidHandle));
    assert!(matches!(g.node_data(5), Err(GraphError::InvalidHandle)));
    assert!(matches!(g.neighbors(5), Err(GraphError::InvalidHandle)));
    assert_eq!(bfs(&g, 0, 5), Err(GraphError::InvalidHandle));
    assert_eq!(dfs(&g, 7, 0), Err(GraphError::InvalidHandle));
    assert_eq!(dijkstra_path(&g, 0, 5), Err(GraphError::InvalidHandle));
    assert!(matches!(a_star_traversal(&g, 5, 0, &EuclideanHeuristic), Err(GraphError::InvalidHandle)));
    assert!(matches!(bfs_traversal(&g, 5), Err(GraphError::InvalidHandle)));
    assert!(matches!(dijkstra_algorithm(&g, 5), Err(GraphError::InvalidHandle)));
}

#[test]
fn distance_of_three_four_five_triangle() {
    let a = node("1", 0, 0, &[]);
    let b = node("2", 3, 4, &[]);
    assert_eq!(euclidean_distance(&a, &b), 5);
    assert_eq!(euclidean_distance(&b, &a), 5);
    assert_eq!(euclidean_distance(&a, &a), 0);
}

#[test]
fn distance_rounds_down() {
    let a = node("1", 0, 0, &[]);
    let b = node("2", 1, 1, &[]);
    assert_eq!(euclidean_distance(&a, &b), 1);
    let c = node("3", -1_000_000_000, -1_000_000_000, &[]);
    let d = node("4", 1_000_000_000, 1_000_000_000, &[]);
    assert_eq!(euclidean_distance(&c, &d), 2_828_427_124);
}

#[test]
fn integer_square_roots() {
    assert_eq!(isqrt(0), 0);
    assert_eq!(isqrt(1), 1);
    assert_eq!(isqrt(24), 4);
    assert_eq!(isqrt(25), 5);
    assert_eq!(isqrt(8_000_000_000_000_000_000), 2_828_427_124);
}

#[test]
fn malformed_coordinates_are_rejected() {
    let json = GraphJson { nodes: vec![node("1", 0, 0, &[]), node("2", 2_000_000_000, 0, &[])] };
    assert!(matches!(build_graph_from_json(json), Err(GraphError::MalformedGraph)));
}

#[test]
fn unknown_neighbor_ids_are_skipped() {
    let json = GraphJson { nodes: vec![node("1", 0, 0, &["2", "zz"]), node("2", 0, 2, &[])] };
    let g = build_graph_from_json(json).unwrap();
    assert_eq!(g.edge_count(), 2);
    assert_eq!(g.edge_weight(1, 0), Some(2));
}

#[test]
fn bfs_finds_fewest_edges() {
    let g = line_graph();
    assert_eq!(bfs(&g, 0, 3), Ok(Some(vec![0, 3])));
    assert_eq!(bfs(&g, 1, 3), Ok(Some(vec![1, 0, 3])));
    assert_eq!(bfs(&g, 2, 2), Ok(Some(vec![2])));
}

#[test]
fn bfs_traversal_in_discovery_order() {
    let g = line_graph();
    let (flags, order) = bfs_traversal(&g, 0).unwrap();
    assert_eq!(order, vec![0, 1, 3, 2]);
    assert_eq!(flags, vec![true, true, true, true, false]);
}

#[test]
fn dfs_finds_a_path() {
    let g = line_graph();
    let p = dfs(&g, 0, 2).unwrap().unwrap();
    assert_eq!(p.first(), Some(&0));
    assert_eq!(p.last(), Some(&2));
    assert_eq!(p, vec![0, 1, 2]);
    let (_, order) = dfs_traversal(&g, 0).unwrap();
    assert_eq!(order, vec![0, 1, 2, 3]);
}

#[test]
fn dijkstra_prefers_cheaper_longer_path() {
    let g = line_graph();
    assert_eq!(dijkstra_path(&g, 0, 3), Ok(Some((vec![0, 1, 2, 3], 3))));
    let d = dijkstra_algorithm(&g, 0).unwrap();
    assert_eq!(d, vec![Some(0), Some(1), Some(2), Some(3), None]);
}

#[test]
fn astar_matches_dijkstra_cost() {
    let g = line_graph();
    let (path, cost, visited) = a_star_traversal(&g, 0, 3, &EuclideanHeuristic).unwrap().unwrap();
    assert_eq!(path, vec![0, 1, 2, 3]);
    assert_eq!(cost, 3);
    assert_eq!(visited[0], 0);
    assert_eq!(visited.last(), Some(&3));
    assert_eq!(dijkstra_path(&g, 0, 3).unwrap().unwrap().1, cost);
}

#[test]
fn no_path_between_components() {
    let g = line_graph();
    let r = bfs_search(&g, 0, 4).unwrap();
    assert!(r.path.is_empty());
    assert_eq!(r.cost, None);
    assert_eq!(r.visited, vec![0, 1, 3, 2]);
    let r = dfs_search(&g, 0, 4).unwrap();
    assert!(r.path.is_empty());
    assert_eq!(r.cost, None);
    assert_eq!(r.visited.len(), 4);
    let r = dijkstra_search(&g, 0, 4).unwrap();
    assert!(r.path.is_empty());
    assert_eq!(r.cost, None);
    assert_eq!(r.visited, vec![0, 1, 2, 3]);
    let r = astar_search(&g, 0, 4, &EuclideanHeuristic).unwrap();
    assert!(r.path.is_empty());
    assert_eq!(r.cost, None);
}

#[test]
fn repeated_searches_agree() {
    let g = line_graph();
    for _ in 0..2 {
        let a = dijkstra_search(&g, 0, 3).unwrap();
        let b = dijkstra_search(&g, 0, 3).unwrap();
        assert_eq!(a.path, b.path);
        assert_eq!(a.cost, b.cost);
        assert_eq!(a.visited, b.visited);
        let a = bfs_search(&g, 3, 1).unwrap();
        let b = bfs_search(&g, 3, 1).unwrap();
        assert_eq!((a.path, a.cost, a.visited), (b.path, b.cost, b.visited));
        let a = dfs_search(&g, 3, 1).unwrap();
        let b = dfs_search(&g, 3, 1).unwrap();
        assert_eq!((a.path, a.cost, a.visited), (b.path, b.cost, b.visited));
        let a = astar_search(&g, 3, 0, &EuclideanHeuristic).unwrap();
        let b = astar_search(&g, 3, 0, &EuclideanHeuristic).unwrap();
        assert_eq!((a.path, a.cost, a.visited), (b.path, b.cost, b.visited));
    }
}

#[test]
fn two_node_scenario() {
    let g = build_graph_from_json(two_nodes()).unwrap();
    let d = dijkstra_search(&g, 0, 1).unwrap();
    assert_eq!(d.path, vec![0, 1]);
    assert_eq!(d.cost, Some(5));
    assert!(d.visited.contains(&0) && d.visited.contains(&1));
    let b = bfs_search(&g, 0, 1).unwrap();
    assert_eq!(b.path, vec![0, 1]);
    assert_eq!(b.cost, Some(1));
    assert!(b.visited.contains(&0) && b.visited.contains(&1));
}

#[test]
fn searches_by_id() {
    let r = run_dijkstra("1".to_string(), "2".to_string(), two_nodes()).unwrap();
    assert_eq!(r.path, vec!["1".to_string(), "2".to_string()]);
    assert_eq!(r.cost, Some(5));
    let r = run_astar("2".to_string(), "1".to_string(), two_nodes()).unwrap();
    assert_eq!(r.path, vec!["2".to_string(), "1".to_string()]);
    assert_eq!(r.cost, Some(5));
    let r = run_bfs("1".to_string(), "2".to_string(), two_nodes()).unwrap();
    assert_eq!(r.visited, vec!["1".to_string(), "2".to_string()]);
    assert_eq!(r.cost, Some(1));
    let r = run_dfs("2".to_string(), "2".to_string(), two_nodes()).unwrap();
    assert_eq!(r.path, vec!["2".to_string()]);
    assert_eq!(r.cost, Some(0));
}

#[test]
fn unknown_ids_are_reported() {
    assert!(matches!(run_bfs("9".to_string(), "2".to_string(), two_nodes()), Err(GraphError::UnknownStartId)));
    assert!(matches!(run_dijkstra("1".to_string(), "9".to_string(), two_nodes()), Err(GraphError::UnknownGoalId)));
    assert!(matches!(run_dijkstra("8".to_string(), "9".to_string(), two_nodes()), Err(GraphError::UnknownStartId)));
}

#[test]
fn edge_weights_round_up() {
    let a = node("1", 0, 0, &[]);
    let b = node("2", 1, 1, &[]);
    assert_eq!(edge_distance(&a, &b), 2);
    assert_eq!(edge_distance(&a, &node("3", 3, 4, &[])), 5);
    assert_eq!(isqrt_up(0), 0);
    assert_eq!(isqrt_up(24), 5);
    assert_eq!(isqrt_up(25), 5);
    assert_eq!(isqrt_up(26), 6);
}

#[test]
fn astar_on_built_graph_matches_dijkstra() {
    let json = || GraphJson {
        nodes: vec![
            node("a", 0, 0, &["b", "c"]),
            node("b", 2, 3, &["c"]),
            node("c", 4, 6, &[]),
            node("d", 9, 9, &["a", "c"]),
        ],
    };
    let a = run_astar("a".to_string(), "c".to_string(), json()).unwrap();
    let d = run_dijkstra("a".to_string(), "c".to_string(), json()).unwrap();
    assert_eq!(a.cost, d.cost);
    assert_eq!(a.cost, Some(8));
    assert_eq!(a.visited.last(), Some(&"c".to_string()));
}

#[test]
fn astar_from_goal_to_itself() {
    let r = run_astar("2".to_string(), "2".to_string(), two_nodes()).unwrap();
    assert_eq!(r.path, vec!["2".to_string()]);
    assert_eq!(r.cost, Some(0));
    assert_eq!(r.visited, vec!["2".to_string()]);
}

#[test]
fn duplicate_ids_are_rejected() {
    let json = GraphJson { nodes: vec![node("1", 0, 0, &["2"]), node("2", 3, 4, &[]), node("1", 5, 5, &[])] };
    assert!(matches!(build_graph_from_json(json), Err(GraphError::MalformedGraph)));
    let json = GraphJson { nodes: vec![node("1", 0, 0, &["2"]), node("1", 3, 4, &[])] };
    assert!(matches!(run_bfs("1".to_string(), "1".to_string(), json), Err(GraphError::MalformedGraph)));
}

#[test]
fn cheapest_path_with_zero_weight_edge_repeats_no_node() {
    let json = GraphJson { nodes: vec![node("a", 0, 0, &["b", "c"]), node("b", 0, 0, &["c"]), node("c", 3, 4, &[])] };
    let r = run_dijkstra("a".to_string(), "a".to_string(), json).unwrap();
    assert_eq!(r.path, vec!["a".to_string()]);
    assert_eq!(r.cost, Some(0));
}
