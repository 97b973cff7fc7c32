//! Analysis of undirected graphs given as edge lists: adjacency construction,
//! breadth-first distances, connected components, degree statistics and
//! random sampling of vertex pairs.
use vstd::prelude::*;

pub mod graph;
pub mod reach;
pub mod bfs;
pub mod components;
pub mod sample;
pub mod ingest;

pub use bfs::bfs_distances;
pub use components::{connected_nodes, dfs};
pub use graph::{average_degree, build_adjacency_list, AdjacencyList, DegreeAverage, Edge, GraphError, Vertex};
pub use ingest::{parse_edge_line, parse_vertex, read_edge_list};
pub use sample::pair_up_nodes;

verus! {

} // verus!
