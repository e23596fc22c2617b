//! The player: what it can be asked to do, and by which device.

pub mod controller;
pub mod state_machine;
