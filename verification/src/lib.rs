//! Greedy vertex-coloring heuristics over a dense adjacency matrix.
//!
//! A graph on `n` vertices is a symmetric `n x n` boolean matrix without
//! self-loops. Each heuristic returns a coloring (one `usize` per vertex,
//! `usize::MAX` meaning "uncolored", which never survives to the output)
//! together with the number of colors used, and is proved to return a
//! proper coloring: every vertex colored, no edge with equal endpoints.
//! Each heuristic is also proved deterministic: its whole result equals a
//! specification function of the graph alone, tie-breaking included.

pub mod graph;
pub mod coloring;
pub mod greedy;
pub mod saturation;
pub mod welsh_powell;
pub mod rlf;
