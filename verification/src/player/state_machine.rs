//! The actions that the player's input is mapped to.

use vstd::prelude::*;

verus! {

/// Everything the player can ask for, whatever device the request comes
/// from.
#[derive(PartialEq, Eq, Clone, Copy, Hash, Debug, Structural)]
pub enum TopDownAction {
    // Movement, from the keyboard or the directional pad
    Right,
    Left,
    Down,
    Up,
    // Movement, from the axes of a stick
    Horizontal,
    Vertical,
    // Combat
    Shoot,
    Dash,
    // Menus
    Pause,
    Menus,
}

} // verus!
