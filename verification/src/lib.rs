//! Navigation and behaviour of non-player agents on a tile grid.
//!
//! The crate holds the rules of the game that do not touch the engine: the
//! grid of a level and its walls, the shortest-path planner, the automaton
//! that decides whether an agent idles, follows its target or walks back to
//! its post, and the choice of the next tile to steer to.

use vstd::prelude::*;

pub mod enemy;
pub mod map;
pub mod path;
pub mod player;
pub mod utils;

verus! {

/// The phases of the application.
#[derive(Clone, Copy, Eq, PartialEq, Debug, Hash, Structural)]
pub enum GameState {
    AssetLoading,
    Playing,
}

/// What can keep an agent from navigating. None of these ends the
/// simulation: the agent stands still for the tick, or falls back to idling.
#[derive(Clone, Copy, Debug, PartialEq, Eq, Structural)]
pub enum NavError {
    /// The level has no layer of walls.
    MapDataMissing,
    /// No path leads to where the agent wants to go.
    NoPathFound,
    /// The agent's target is gone.
    TargetEntityMissing,
}

} // verus!
