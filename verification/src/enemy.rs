//! The agents that pursue a target: their behaviour and their steering.

pub mod state_machine;
pub mod systems;
