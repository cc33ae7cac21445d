//! Detection of short roads in a raw road network.
//!
//! A raw map is a graph of intersections joined by roads. Some of its roads are so short
//! that they are better understood as part of a junction than as a stretch to travel along.
//! This crate finds such roads by several independent heuristics and marks them with a tag,
//! so that a later consolidation step can merge each of them into one intersection.

pub mod classify;
pub mod commit;
pub mod geometry;
pub mod graph;
pub mod heuristics;
pub mod ids;
pub mod laws;
pub mod tags;
