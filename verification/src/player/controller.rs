//! The devices of the player: which gamepad is the player's, and which
//! input moves the player along an axis.

use vstd::prelude::*;

verus! {

/// The gamepad that the player uses, by its number.
#[derive(Clone, Copy, Debug, PartialEq, Eq, Structural)]
pub struct MyGamepad(pub usize);

/// What a gamepad event reports.
#[derive(Clone, Copy, Debug, PartialEq, Eq, Structural)]
pub enum GamepadChange {
    Connected,
    Disconnected,
    /// A button or an axis has moved.
    Other,
}

/// What is to become of the player's gamepad after an event.
#[derive(Clone, Copy, Debug, PartialEq, Eq, Structural)]
pub enum GamepadDecision {
    /// The gamepad becomes the player's.
    Adopt(MyGamepad),
    /// The player is left without a gamepad.
    Release,
    /// Nothing changes.
    Keep,
}

/// The decision that [`gamepad_connections`] takes.
///
/// A gamepad that connects while the player has none becomes the
/// player's. The player's own gamepad is given up when it disconnects.
/// Nothing else changes anything.
pub open spec fn gamepad_decision(
    my_gamepad: Option<MyGamepad>,
    gamepad: usize,
    change: GamepadChange,
) -> GamepadDecision {
    match change {
        GamepadChange::Connected => if my_gamepad is None {
            GamepadDecision::Adopt(MyGamepad(gamepad))
        } else {
            GamepadDecision::Keep
        },
        GamepadChange::Disconnected => if my_gamepad == Some(MyGamepad(gamepad)) {
            GamepadDecision::Release
        } else {
            GamepadDecision::Keep
        },
        GamepadChange::Other => GamepadDecision::Keep,
    }
}

/// Decides what an event of the gamepad with number `gamepad` means for
/// the player, who uses `my_gamepad`.
pub fn gamepad_connections(my_gamepad: Option<MyGamepad>, gamepad: usize, change: GamepadChange) -> (decision:
    GamepadDecision)
    ensures
        decision == gamepad_decision(my_gamepad, gamepad, change),
{
    match change {
        GamepadChange::Connected => {
            // without a gamepad yet, the player takes this one
            match my_gamepad {
                None => GamepadDecision::Adopt(MyGamepad(gamepad)),
                Some(_) => GamepadDecision::Keep,
            }
        },
        GamepadChange::Disconnected => {
            // the player gives up the gamepad that was its own
            match my_gamepad {
                Some(MyGamepad(old_id)) => if old_id == gamepad {
                    GamepadDecision::Release
                } else {
                    GamepadDecision::Keep
                },
                None => GamepadDecision::Keep,
            }
        },
        // other events are irrelevant
        GamepadChange::Other => GamepadDecision::Keep,
    }
}

/// The input that moves the player along one axis.
#[derive(Clone, Copy, Debug, PartialEq, Eq, Structural)]
pub enum AxisInput {
    /// The stick: its value is taken as it is.
    Stick,
    /// The key or button of the positive direction.
    Positive,
    /// The key or button of the negative direction: its value is negated.
    Negative,
    /// Nothing is pressed: no movement.
    Released,
}

/// The input that counts along an axis: the stick before the positive
/// direction, and the positive direction before the negative one.
pub open spec fn axis_input_of(stick: bool, positive: bool, negative: bool) -> AxisInput {
    if stick {
        AxisInput::Stick
    } else if positive {
        AxisInput::Positive
    } else if negative {
        AxisInput::Negative
    } else {
        AxisInput::Released
    }
}

/// Picks the input that moves the player along an axis from what is
/// pressed.
pub fn axis_input(stick: bool, positive: bool, negative: bool) -> (input: AxisInput)
    ensures
        input == axis_input_of(stick, positive, negative),
{
    if stick {
        AxisInput::Stick
    } else if positive {
        AxisInput::Positive
    } else if negative {
        AxisInput::Negative
    } else {
        AxisInput::Released
    }
}

} // verus!
