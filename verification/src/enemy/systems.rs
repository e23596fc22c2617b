//! What an agent does in one tick: the evaluation of its automaton, the
//! plan to where its state sends it, and the tile to steer to.

use crate::enemy::state_machine::{
    next_state, BackToInitial, Behavior, Follow, Idle, Near, Sighting, StateMachine,
};
use crate::map::grid::{GridMap, Terrain};
use crate::map::layers::{load_map, terrain_of, TileLayer};
use crate::path::planner::plan_path;
use crate::path::route::{
    is_route, is_shortest_route, lemma_manhattan_step, lemma_open_grid_has_plan,
    lemma_planned_is_plan, lemma_route_at_least_manhattan, lemma_route_on_grid,
    lemma_route_suffix, lemma_shortest_route_on_open_grid, planned, reachable, step_ok,
};
use crate::utils::position::{GridCoords, Pos};
use crate::NavError;
use vstd::prelude::*;

verus! {

/// Speed of an agent that follows its target, in world units per second.
pub const FOLLOW_SPEED: u32 = 250;

/// Distance below which the target counts as near, in world units.
pub const FOLLOW_DISTANCE: u32 = 100;

/// The automaton of an agent that has just entered the level: idle, it
/// waits for `player` to come near, follows it while it is near, and
/// returns to `initial_position` when it is not.
pub fn spawn(player: u64, enemy: u64, initial_position: Pos) -> (machine: StateMachine)
    ensures
        machine.state_view() == Behavior::Idle(Idle),
        machine.near_view().target_id() == player,
        machine.near_view().range_units() == FOLLOW_DISTANCE,
        machine.pursuit_view() == (Follow { target: player, speed: FOLLOW_SPEED }),
        machine.retreat_view() == (BackToInitial { target: enemy, initial_position }),
{
    StateMachine::new(
        Near::new(player, FOLLOW_DISTANCE),
        Follow::new(player, FOLLOW_SPEED),
        BackToInitial::new(enemy, initial_position),
    )
}

/// What the agent is to do with the rest of the tick.
#[derive(Clone, Copy, Debug, PartialEq, Eq, Structural)]
pub enum Movement {
    /// No movement.
    Stay,
    /// Head for the tile with these coordinates.
    Toward(GridCoords),
}

/// What a tick knows of the target: the cell it stands on, and whether it
/// is near.
#[derive(Clone, Copy, Debug, PartialEq, Eq, Structural)]
pub struct Target {
    pub cell: Pos,
    pub near: bool,
}

/// `i` is the first place of `cell` in `path`.
pub open spec fn first_at(path: Seq<Pos>, cell: Pos, i: int) -> bool {
    &&& 0 <= i < path.len()
    &&& path[i] == cell
    &&& forall|j: int| 0 <= j < i ==> path[j] != cell
}

/// `next` is the place that follows the first place of `current` in
/// `path`, or the place that follows the first cell where `current` does
/// not occur.
pub open spec fn is_next_index(path: Seq<Pos>, current: Pos, next: int) -> bool {
    if path.contains(current) {
        first_at(path, current, next - 1)
    } else {
        next == 1
    }
}

/// The waypoint after `current` on `path`: the cell at the next place, and
/// none where the path ends before it.
pub open spec fn is_next_waypoint(path: Seq<Pos>, current: Pos, waypoint: Option<Pos>) -> bool {
    exists|next: int|
        #![trigger is_next_index(path, current, next)]
        is_next_index(path, current, next) && waypoint == if next < path.len() {
            Some(path[next])
        } else {
            None
        }
}

/// The place in `path` of the cell to head for: one past the first place
/// of `current`. An agent whose cell is not on the path is taken to stand
/// on the first cell of the path.
pub fn next_tile_index(path: &Vec<Pos>, current: &Pos) -> (next: usize)
    ensures
        is_next_index(path@, *current, next as int),
{
    let mut i: usize = 0;
    while i < path.len()
        invariant
            i <= path.len(),
            forall|j: int| 0 <= j < i ==> path@[j] != *current,
        decreases path.len() - i,
    {
        if path[i] == *current {
            return i + 1;
        }
        i += 1;
    }
    1
}

/// The cell to head for: what is left of `path` after the agent's cell, at
/// its first place, has been cut off together with all before it. `None`
/// means that nothing is left: the agent has walked the path.
pub fn next_waypoint(path: &Vec<Pos>, current: &Pos) -> (waypoint: Option<Pos>)
    ensures
        is_next_waypoint(path@, *current, waypoint),
{
    let next: usize = next_tile_index(path, current);
    if next < path.len() {
        Some(path[next])
    } else {
        None
    }
}

/// What an agent on `from` that wants to reach `goal` is to do.
///
/// No path: the error `NoPathFound`. The agent stands on the goal: no
/// movement. Otherwise the agent heads for the tile of the second cell of
/// the planned path, the cell that follows its own.
pub open spec fn steering(t: Terrain, from: Pos, goal: Pos) -> Result<Movement, NavError> {
    match planned(t, from, goal) {
        None => Err(NavError::NoPathFound),
        Some(path) => if path.len() >= 2 {
            Ok(Movement::Toward(path[1].coords(t.height)))
        } else {
            Ok(Movement::Stay)
        },
    }
}

/// Plans the way from `from` to `goal` and picks the tile to head for.
pub fn steer(map: &GridMap, from: &Pos, goal: &Pos) -> (out: Result<Movement, NavError>)
    ensures
        out == steering(map@, *from, *goal),
{
    let height: i32 = map.height();
    match plan_path(map, from, goal) {
        None => Err(NavError::NoPathFound),
        Some(path) => {
            proof {
                assert(is_route(map@, *from, *goal, path@));
                assert(path@[0] == *from);
                assert(first_at(path@, *from, 0));
                assert(path@.contains(*from));
            }
            match next_waypoint(&path, from) {
                None => Ok(Movement::Stay),
                Some(cell) => {
                    proof {
                        lemma_route_on_grid(map@, *from, *goal, path@, 1);
                    }
                    Ok(Movement::Toward(cell.to_grid_coords(height)))
                },
            }
        },
    }
}

/// The steering sends an agent to move exactly where its goal is another
/// cell that it can reach; an agent on its goal stays, and one that cannot
/// reach its goal has no path.
pub proof fn lemma_steering(t: Terrain, from: Pos, goal: Pos)
    requires
        t.wf(),
    ensures
        steering(t, from, goal) is Err <==> !reachable(t, from, goal),
        steering(t, from, goal) == Ok::<Movement, NavError>(Movement::Stay) <==> reachable(
            t,
            from,
            goal,
        ) && from == goal,
        steering(t, from, goal) matches Ok(Movement::Toward(tile)) ==> exists|path: Seq<Pos>| #[trigger]
            is_shortest_route(t, from, goal, path) && path.len() >= 2 && tile == path[1].coords(
                t.height,
            ),
{
    lemma_planned_is_plan(t, from, goal);
    match planned(t, from, goal) {
        Some(path) => {
            assert(is_shortest_route(t, from, goal, path));
            if from == goal {
                assert(is_route(t, from, goal, seq![from]));
            }
        },
        None => {},
    }
}

/// What the automaton is told of a target.
pub open spec fn sighting_of(target: Option<Target>) -> Sighting {
    match target {
        None => Sighting::Missing,
        Some(seen) => if seen.near {
            Sighting::Near
        } else {
            Sighting::Far
        },
    }
}

/// An agent on its way back has arrived: it stands, on the grid, on the
/// cell it started from.
pub open spec fn has_arrived(t: Terrain, state: Behavior, enemy: Pos) -> bool {
    match state {
        Behavior::BackToInitial(back) => t.contains(enemy) && enemy == back.initial_position,
        _ => false,
    }
}

/// An agent on its way back has arrived exactly where the shortest path
/// from its cell to the cell it started from is a single cell.
pub proof fn lemma_arrived_is_path_of_one(t: Terrain, back: BackToInitial, enemy: Pos)
    ensures
        has_arrived(t, Behavior::BackToInitial(back), enemy) <==> exists|path: Seq<Pos>| #[trigger]
            is_shortest_route(t, enemy, back.initial_position, path) && path.len() == 1,
{
    let goal = back.initial_position;
    if has_arrived(t, Behavior::BackToInitial(back), enemy) {
        let path = seq![enemy];
        assert(is_route(t, enemy, goal, path));
        assert(is_shortest_route(t, enemy, goal, path));
    }
    if exists|path: Seq<Pos>| #[trigger]
        is_shortest_route(t, enemy, goal, path) && path.len() == 1 {
        let path = choose|path: Seq<Pos>| #[trigger]
            is_shortest_route(t, enemy, goal, path) && path.len() == 1;
        assert(path[0] == enemy);
    }
}

/// What an agent in `state`, after its automaton has been evaluated, is to
/// do in a tick.
///
/// A target that is gone: the error `TargetEntityMissing`. An idle agent
/// does not move. A following agent steers to the cell of its target, a
/// returning one to the cell it started from.
pub open spec fn tick_output(t: Terrain, state: Behavior, enemy: Pos, target: Option<Target>) -> Result<
    Movement,
    NavError,
> {
    match target {
        None => Err(NavError::TargetEntityMissing),
        Some(seen) => match state {
            Behavior::Idle(_) => Ok(Movement::Stay),
            Behavior::Follow(_) => steering(t, enemy, seen.cell),
            Behavior::BackToInitial(back) => steering(t, enemy, back.initial_position),
        },
    }
}

/// One tick of an agent that stands on the cell `enemy`.
///
/// First the automaton is evaluated, once, on what the tick knows of the
/// target. Then the agent is steered as its new state asks. An error
/// means that the agent does not move in this tick.
pub fn tick(machine: &mut StateMachine, map: &GridMap, enemy: &Pos, target: Option<Target>) -> (out:
    Result<Movement, NavError>)
    ensures
        final(machine).state_view() == next_state(
            old(machine).state_view(),
            sighting_of(target),
            has_arrived(map@, old(machine).state_view(), *enemy),
            old(machine).pursuit_view(),
            old(machine).retreat_view(),
        ),
        final(machine).near_view() == old(machine).near_view(),
        final(machine).pursuit_view() == old(machine).pursuit_view(),
        final(machine).retreat_view() == old(machine).retreat_view(),
        out == tick_output(map@, final(machine).state_view(), *enemy, target),
{
    let sighting: Sighting = match target {
        None => Sighting::Missing,
        Some(seen) => if seen.near {
            Sighting::Near
        } else {
            Sighting::Far
        },
    };
    let arrived: bool = match machine.state() {
        Behavior::BackToInitial(back) => map.contains(enemy) && *enemy == back.initial_position,
        _ => false,
    };
    machine.step(sighting, arrived);
    match target {
        None => Err(NavError::TargetEntityMissing),
        Some(seen) => match machine.state() {
            Behavior::Idle(_) => Ok(Movement::Stay),
            Behavior::Follow(_) => steer(map, enemy, &seen.cell),
            Behavior::BackToInitial(back) => steer(map, enemy, &back.initial_position),
        },
    }
}

/// One tick of an agent, on the tile layers of the level as they are.
///
/// Where the level has no usable layer of walls, the tick is skipped: the
/// error is `MapDataMissing` and the automaton stays as it is. Otherwise
/// this is [`tick`] on the grid of the level.
pub fn update(
    machine: &mut StateMachine,
    layers: &Vec<TileLayer>,
    tile_size: i32,
    enemy: &Pos,
    target: Option<Target>,
) -> (out: Result<Movement, NavError>)
    requires
        tile_size > 0,
    ensures
        final(machine).near_view() == old(machine).near_view(),
        final(machine).pursuit_view() == old(machine).pursuit_view(),
        final(machine).retreat_view() == old(machine).retreat_view(),
        match terrain_of(layers@, tile_size as int) {
            None => out == Err::<Movement, NavError>(NavError::MapDataMissing) && *final(machine)
                == *old(machine),
            Some(t) => {
                &&& final(machine).state_view() == next_state(
                    old(machine).state_view(),
                    sighting_of(target),
                    has_arrived(t, old(machine).state_view(), *enemy),
                    old(machine).pursuit_view(),
                    old(machine).retreat_view(),
                )
                &&& out == tick_output(t, final(machine).state_view(), *enemy, target)
            },
        },
{
    match load_map(layers, tile_size) {
        Err(error) => Err(error),
        Ok(map) => tick(machine, &map, enemy, target),
    }
}

/// On a grid without walls the steering brings a returning agent one cell
/// closer to the cell it started from: the tile it is sent to lies on the
/// grid, next to the agent and one step nearer in Manhattan distance. An
/// agent that stands on that cell is told to stay.
pub proof fn lemma_return_step_approaches(t: Terrain, from: Pos, anchor: Pos)
    requires
        t.wf(),
        t.obstacle_free(),
        t.contains(from),
        t.contains(anchor),
    ensures
        from == anchor ==> steering(t, from, anchor) == Ok::<Movement, NavError>(Movement::Stay),
        from != anchor ==> (match steering(t, from, anchor) {
            Ok(Movement::Toward(tile)) => {
                &&& t.contains(tile.cell(t.height))
                &&& tile.cell(t.height).adjacent(from)
                &&& tile.cell(t.height).manhattan(anchor) == from.manhattan(anchor) - 1
            },
            _ => false,
        }),
{
    lemma_planned_is_plan(t, from, anchor);
    lemma_open_grid_has_plan(t, from, anchor, planned(t, from, anchor));
    let path = planned(t, from, anchor).unwrap();
    lemma_shortest_route_on_open_grid(t, from, anchor, path);
    if from != anchor {
        lemma_route_suffix(t, from, anchor, path, 1);
        let rest = path.subrange(1, path.len() as int);
        lemma_route_at_least_manhattan(t, path[1], anchor, rest);
        assert(step_ok(t, path, 1));
        lemma_manhattan_step(path[1], path[0], anchor);
        lemma_route_on_grid(t, from, anchor, path, 1);
        assert(path[1].coords(t.height).cell(t.height) == path[1]);
    }
}

/// The cell on which a returning agent stands after it has gone, `tiles`
/// times, to the tile that the steering sent it to. An agent that is not
/// sent anywhere stays where it is.
pub open spec fn return_walk(t: Terrain, from: Pos, anchor: Pos, tiles: nat) -> Pos
    decreases tiles,
{
    if tiles == 0 {
        from
    } else {
        let before = return_walk(t, from, anchor, (tiles - 1) as nat);
        match steering(t, before, anchor) {
            Ok(Movement::Toward(tile)) => tile.cell(t.height),
            _ => before,
        }
    }
}

/// On a grid without walls a returning agent that goes where the
/// steering sends it is, after `tiles` tiles, that many cells nearer to
/// the cell it started from, for as long as it has not arrived. It stands
/// on that cell after as many tiles as the Manhattan distance it set out
/// with; there the next evaluation of its automaton, with the target
/// still out of range, makes it idle.
pub proof fn lemma_return_walk_arrives(
    t: Terrain,
    pursuit: Follow,
    back: BackToInitial,
    from: Pos,
    tiles: nat,
)
    requires
        t.wf(),
        t.obstacle_free(),
        t.contains(from),
        t.contains(back.initial_position),
        tiles <= from.manhattan(back.initial_position),
    ensures
        t.contains(return_walk(t, from, back.initial_position, tiles)),
        return_walk(t, from, back.initial_position, tiles).manhattan(back.initial_position)
            == from.manhattan(back.initial_position) - tiles,
        tiles == from.manhattan(back.initial_position) ==> {
            let arrived_at = return_walk(t, from, back.initial_position, tiles);
            &&& arrived_at == back.initial_position
            &&& next_state(
                Behavior::BackToInitial(back),
                Sighting::Far,
                has_arrived(t, Behavior::BackToInitial(back), arrived_at),
                pursuit,
                back,
            ) == Behavior::Idle(Idle)
        },
    decreases tiles,
{
    let anchor = back.initial_position;
    if tiles > 0 {
        lemma_return_walk_arrives(t, pursuit, back, from, (tiles - 1) as nat);
        let before = return_walk(t, from, anchor, (tiles - 1) as nat);
        lemma_return_step_approaches(t, before, anchor);
    }
}

} // verus!
