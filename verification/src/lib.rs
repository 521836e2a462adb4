//! A synchronous distance-vector routing simulator: distributed Bellman-Ford
//! over a small, immutable, weighted undirected graph.
//!
//! The engine computes per-node shortest-distance tables across synchronous
//! rounds until the network reaches a fixed point, and records a structured
//! justification (an explanation trace) for every recomputed table entry.
//! Rendering of tables and traces is left entirely to callers.

pub mod cost;
pub mod engine;
pub mod laws;
pub mod model;
pub mod repr;
pub mod world;

pub use cost::Cost;
pub use cost::CostM;
pub use cost::DVValue;
pub use cost::EntryM;
pub use cost::Weight;
pub use engine::NewState;
pub use engine::run_until_stable;
pub use repr::DistanceCalculationElement;
pub use repr::DistanceCalculationTuple;
pub use repr::HtmlFormula;
pub use world::Neighbor;
pub use world::Node;
pub use world::Operation;
pub use world::World;
pub use world::WorldError;
pub use world::modify_dv;
