//! A verified single-source shortest-path engine over weighted directed
//! graphs: a full Dijkstra distance table, an early-exit point-to-point
//! query, shortest-path counting, a hop-bounded search, predecessor
//! tracking with path reconstruction, and a negative-weight pre-flight
//! guard, together with a few verified binary-search routines.

pub mod binary_search;
pub mod dijkstra;
pub mod frontier;
pub mod graph;
pub mod guard;
pub mod hops;
pub mod laws;
pub mod paths;
pub mod reconstruct;
pub mod tables;
