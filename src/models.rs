use vstd::prelude::*;

verus! {

/// A place on the map. Coordinates are fixed-point integers (for instance
/// micro-degrees); `neighbors` lists the ids of the places it connects to.
#[derive(Debug, Clone, Default)]
pub struct Node {
    pub id: String,
    pub name: String,
    pub dept: String,
    pub lon: i64,
    pub lat: i64,
    pub neighbors: Vec<String>,
}

/// The records a graph is built from.
#[derive(Debug, Clone)]
pub struct GraphJson {
    pub nodes: Vec<Node>,
}

} // verus!
