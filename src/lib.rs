//! A routing engine over geographic map data: a weighted directed graph built
//! from ways, a shortest-path search over it, a nearest-node index over the
//! node coordinates, and a session that holds one loaded dataset at a time.
pub mod builder;
pub mod graph;
pub mod osm_data;
pub mod queue;
pub mod session;
pub mod spatial;

pub use graph::Graph;
