//! An in-memory directed multigraph with weighted edges, a reusable
//! breadth-first traversal engine, and a connected-components counter
//! that scans nodes in index order and launches one traversal from every
//! node not covered by an earlier run.

pub mod bfs;
pub mod components;
pub mod graph;
pub mod reach;
