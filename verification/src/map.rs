//! The level as the agents see it: a bounded grid of tiles, some of them walls.

pub mod grid;
pub mod layers;
pub mod systems;

use vstd::prelude::*;

verus! {

/// The body that an entity or a tile of the level gets.
#[derive(Clone, Copy, Debug, PartialEq, Eq, Structural)]
pub enum ColliderKind {
    /// The flat body of the player or of an enemy, moved by the game.
    Actor,
    /// The body of one wall tile.
    WallTile,
    /// The default body.
    Plain,
}

/// The body for an entity of the level: that of an actor for the entities
/// named "Player" and "Enemy", the default one for all others.
pub open spec fn entity_collider_of(identifier: Seq<char>) -> ColliderKind {
    if identifier == "Player"@ || identifier == "Enemy"@ {
        ColliderKind::Actor
    } else {
        ColliderKind::Plain
    }
}

/// The body for an entity of the level, by the name of the entity.
pub fn entity_collider(identifier: &String) -> (kind: ColliderKind)
    ensures
        kind == entity_collider_of(identifier@),
{
    let player: String = "Player".to_owned();
    let enemy: String = "Enemy".to_owned();
    if *identifier == player || *identifier == enemy {
        ColliderKind::Actor
    } else {
        ColliderKind::Plain
    }
}

/// The body for a cell of the integer grid: that of a wall tile for the
/// value 1, the default one for all others.
pub fn int_cell_collider(value: i32) -> (kind: ColliderKind)
    ensures
        kind == (if value == 1 {
            ColliderKind::WallTile
        } else {
            ColliderKind::Plain
        }),
{
    if value == 1 {
        ColliderKind::WallTile
    } else {
        ColliderKind::Plain
    }
}

} // verus!
