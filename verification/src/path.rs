//! Shortest paths over the grid of a level.

pub mod frontier;
pub mod planner;
pub mod route;
