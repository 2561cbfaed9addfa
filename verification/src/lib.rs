//! Evolving random graphs of the Barabasi-Albert family, with a harness
//! that averages repeated independent trials.
//!
//! The engine realises preferential attachment through a stub pool: a node
//! of degree `d` owns `d` half-edge endpoints, so drawing an endpoint
//! uniformly at random selects a node with probability proportional to its
//! degree. Three attachment policies build on that mechanism, a tracker
//! records per-vertex degree trajectories, and the simulation harness turns
//! single stochastic runs into averaged summaries.

pub mod args;
pub mod gen;
pub mod graph;
pub mod graph_utils;
pub mod models;
pub mod sampling;
pub mod simulation;
pub mod vertices_evolution;
