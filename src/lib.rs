//! Deterministic topology engine for a procedurally generated network graph.
//!
//! Everything here works on integers: a seeded linear-congruential stream,
//! node-count and neighbour-count clamping, edge synthesis and deduplication.
//! Geometric comparisons reach the library as distance keys, integers whose
//! order is the order of the distances they stand for.
pub mod rng;
pub mod nearest;
pub mod pairs;
pub mod graph3d;
pub mod graph;
