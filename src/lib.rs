//! Route finding over a geographic graph: a graph store with undirected
//! weighted edges, the Euclidean distance model, and four searches
//! (breadth-first, depth-first, Dijkstra and A*), each with a proved contract.

pub mod astar;
pub mod bfs;
pub mod dfs;
pub mod dijkstra;
pub mod distance;
pub mod graph;
pub mod map;
pub mod models;
pub mod paths;
pub mod search;
