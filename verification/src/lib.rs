//! A simulation of agents ("ants") wandering over a directed graph of
//! colonies. Two agents arriving at the same colony in one round destroy
//! each other and the colony, which is tombstoned and never reused.
//!
//! The crate holds the simulation core: the seeded random source, the
//! graph and agent state with its occupancy index, the two-phase round
//! engine, the map-text parser, and the survivor-list rendering.

pub mod cli;
pub mod engine;
pub mod parser;
pub mod render;
pub mod rng;
pub mod simulation;
pub mod state;
pub mod types;

pub use cli::ParseError;
pub use engine::SimulationResult;
pub use parser::MapError;
pub use rng::FastRng;
pub use simulation::Simulation;
pub use types::{AntId, ColonyId, Direction, SimulationConfig};
