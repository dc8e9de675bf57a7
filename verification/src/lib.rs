//! A generic monotone dataflow-analysis engine.
//!
//! For a directed control-flow-like graph, the engine computes a fact set per
//! node by iterating a worklist algorithm to a fixed point. A client supplies
//! the graph, per-node gen/kill fact sets, a direction (`Forward` or
//! `Backward`), a confluence mode (`May` or `Must`) and, optionally, a
//! generalized kill-combination function; the engine's contracts state that
//! the state it returns satisfies the dataflow equations of that analysis.

pub mod engine;
pub mod factset;
pub mod graph;
pub mod laws;
pub mod state;
pub mod termination;

pub use engine::analyze;
pub use engine::analyze_kfn;
pub use engine::check_stable;
pub use engine::Analysis;
pub use engine::Backward;
pub use engine::Direction;
pub use engine::Forward;
pub use engine::May;
pub use engine::Mode;
pub use engine::Must;
pub use factset::FactSet;
pub use graph::Graph;
pub use state::State;
pub use termination::below;
pub use termination::bottom_start;
pub use termination::fact_universe;
pub use termination::fuel_bound;
pub use termination::kfn_implements;
pub use termination::kfn_monotone;
pub use termination::kfn_reductive;
pub use termination::tf_monotone;
pub use termination::tf_solution;
