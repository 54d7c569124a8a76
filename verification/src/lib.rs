//! Decision engine for a turn-based space-conquest game.
//!
//! Given a snapshot of planets and in-flight fleets, the engine projects how
//! each planet will stand once the fleets already under way have landed, and
//! picks the launches for this turn greedily by ascending cost.

pub mod arrivals;
pub mod planner;
pub mod projection;
pub mod scoring;
pub mod snapshot;
pub mod validity;

pub use crate::arrivals::arrival_order;
pub use crate::planner::next_move;
pub use crate::projection::simulate_arrivals;
pub use crate::scoring::{rate, score};
pub use crate::validity::check_references;
pub use crate::snapshot::{
    Distances, Expedition, GameState, Move, Planet, PlanError, Turn, NEUTRAL, OWN_FACTION,
};
