use npcs_ai_game::map::{entity_collider, int_cell_collider, ColliderKind};
use npcs_ai_game::player::controller::{
    axis_input, gamepad_connections, AxisInput, GamepadChange, GamepadDecision, MyGamepad,
};

#[test]
fn first_gamepad_to_connect_becomes_the_players() {
    assert_eq!(
        gamepad_connections(None, 2, GamepadChange::Connected),
        GamepadDecision::Adopt(MyGamepad(2))
    );
}

#[test]
fn second_gamepad_to_connect_changes_nothing() {
    assert_eq!(
        gamepad_connections(Some(MyGamepad(0)), 1, GamepadChange::Connected),
        GamepadDecision::Keep
    );
    assert_eq!(
        gamepad_connections(Some(MyGamepad(0)), 0, GamepadChange::Connected),
        GamepadDecision::Keep
    );
}

#[test]
fn players_gamepad_is_given_up_when_it_disconnects() {
    assert_eq!(
        gamepad_connections(Some(MyGamepad(3)), 3, GamepadChange::Disconnected),
        GamepadDecision::Release
    );
}

#[test]
fn another_gamepad_that_disconnects_changes_nothing() {
    assert_eq!(
        gamepad_connections(Some(MyGamepad(3)), 4, GamepadChange::Disconnected),
        GamepadDecision::Keep
    );
    assert_eq!(
        gamepad_connections(None, 4, GamepadChange::Disconnected),
        GamepadDecision::Keep
    );
}

#[test]
fn other_gamepad_events_change_nothing() {
    assert_eq!(
        gamepad_connections(None, 0, GamepadChange::Other),
        GamepadDecision::Keep
    );
    assert_eq!(
        gamepad_connections(Some(MyGamepad(0)), 0, GamepadChange::Other),
        GamepadDecision::Keep
    );
}

#[test]
fn stick_counts_before_the_keys() {
    for positive in [false, true] {
        for negative in [false, true] {
            assert_eq!(axis_input(true, positive, negative), AxisInput::Stick);
        }
    }
}

#[test]
fn positive_direction_counts_before_the_negative() {
    assert_eq!(axis_input(false, true, true), AxisInput::Positive);
    assert_eq!(axis_input(false, true, false), AxisInput::Positive);
    assert_eq!(axis_input(false, false, true), AxisInput::Negative);
}

#[test]
fn nothing_pressed_moves_nothing() {
    assert_eq!(axis_input(false, false, false), AxisInput::Released);
}

#[test]
fn player_and_enemy_get_the_body_of_an_actor() {
    assert_eq!(entity_collider(&"Player".to_string()), ColliderKind::Actor);
    assert_eq!(entity_collider(&"Enemy".to_string()), ColliderKind::Actor);
}

#[test]
fn other_entities_get_the_default_body() {
    assert_eq!(entity_collider(&"Chest".to_string()), ColliderKind::Plain);
    assert_eq!(entity_collider(&"player".to_string()), ColliderKind::Plain);
    assert_eq!(entity_collider(&"".to_string()), ColliderKind::Plain);
}

#[test]
fn cell_of_value_one_gets_the_body_of_a_wall_tile() {
    assert_eq!(int_cell_collider(1), ColliderKind::WallTile);
    assert_eq!(int_cell_collider(0), ColliderKind::Plain);
    assert_eq!(int_cell_collider(2), ColliderKind::Plain);
    assert_eq!(int_cell_collider(-1), ColliderKind::Plain);
}
