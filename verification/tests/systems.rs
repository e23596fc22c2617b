use npcs_ai_game::enemy::state_machine::{
    BackToInitial, Behavior, Follow, Idle, Near, Sighting, StateMachine,
};
use npcs_ai_game::enemy::systems::{
    next_tile_index, next_waypoint, steer, tick, update, Movement, Target,
};
use npcs_ai_game::map::grid::GridMap;
use npcs_ai_game::map::layers::TileLayer;
use npcs_ai_game::path::planner::plan_path;
use npcs_ai_game::utils::position::{GridCoords, Pos};
use npcs_ai_game::NavError;

const PLAYER: u64 = 7;
const ENEMY: u64 = 3;

fn machine(anchor: Pos) -> StateMachine {
    StateMachine::new(
        Near::new(PLAYER, 2),
        Follow::new(PLAYER, 250),
        BackToInitial::new(ENEMY, anchor),
    )
}

fn distance(a: Pos, b: Pos) -> f32 {
    let dx = (a.0 - b.0) as f32;
    let dy = (a.1 - b.1) as f32;
    (dx * dx + dy * dy).sqrt()
}

fn sight(agent: Pos, target: Pos, range: f32) -> Option<Target> {
    Some(Target {
        cell: target,
        near: distance(agent, target) < range,
    })
}

fn delta(from: Pos, to: Pos, speed: f32, tick_duration: f32) -> (f32, f32) {
    let dx = (to.0 - from.0) as f32;
    let dy = (to.1 - from.1) as f32;
    let length = (dx * dx + dy * dy).sqrt();
    if length == 0.0 {
        (0.0, 0.0)
    } else {
        (
            dx / length * speed * tick_duration,
            dy / length * speed * tick_duration,
        )
    }
}

#[test]
fn next_tile_index_follows_the_first_place_of_the_cell() {
    let path = vec![Pos(0, 0), Pos(0, 1), Pos(0, 2), Pos(0, 1)];
    assert_eq!(next_tile_index(&path, &Pos(0, 0)), 1);
    assert_eq!(next_tile_index(&path, &Pos(0, 1)), 2);
    assert_eq!(next_tile_index(&path, &Pos(0, 2)), 3);
}

#[test]
fn next_tile_index_takes_a_stray_agent_to_stand_on_the_first_cell() {
    let path = vec![Pos(0, 0), Pos(0, 1), Pos(0, 2)];
    assert_eq!(next_tile_index(&path, &Pos(9, 9)), 1);
    assert_eq!(next_tile_index(&vec![], &Pos(9, 9)), 1);
}

#[test]
fn next_waypoint_is_the_cell_after_the_agent() {
    let path = vec![Pos(0, 0), Pos(0, 1), Pos(0, 2)];
    assert_eq!(next_waypoint(&path, &Pos(0, 0)), Some(Pos(0, 1)));
    assert_eq!(next_waypoint(&path, &Pos(0, 1)), Some(Pos(0, 2)));
    assert_eq!(next_waypoint(&path, &Pos(9, 9)), Some(Pos(0, 1)));
}

#[test]
fn next_waypoint_is_none_at_the_end_of_the_path() {
    let path = vec![Pos(0, 0), Pos(0, 1), Pos(0, 2)];
    assert_eq!(next_waypoint(&path, &Pos(0, 2)), None);
    assert_eq!(next_waypoint(&vec![Pos(4, 4)], &Pos(4, 4)), None);
    assert_eq!(next_waypoint(&vec![Pos(4, 4)], &Pos(1, 1)), None);
    assert_eq!(next_waypoint(&vec![], &Pos(1, 1)), None);
}

#[test]
fn steer_heads_for_the_second_cell_of_the_path() {
    let map = GridMap::new(5, 5, vec![]).unwrap();
    assert_eq!(
        steer(&map, &Pos(0, 0), &Pos(0, 1)),
        Ok(Movement::Toward(GridCoords { x: 0, y: 3 }))
    );
    assert_eq!(
        steer(&map, &Pos(4, 2), &Pos(1, 2)),
        Ok(Movement::Toward(GridCoords { x: 3, y: 2 }))
    );
}

#[test]
fn steer_stays_on_the_goal() {
    let map = GridMap::new(5, 5, vec![]).unwrap();
    assert_eq!(steer(&map, &Pos(2, 2), &Pos(2, 2)), Ok(Movement::Stay));
}

#[test]
fn steer_finds_no_path_to_an_enclosed_goal() {
    let walls = vec![Pos(2, 1), Pos(1, 2), Pos(3, 2), Pos(2, 3)];
    let map = GridMap::new(5, 5, walls).unwrap();
    assert_eq!(
        steer(&map, &Pos(0, 0), &Pos(2, 2)),
        Err(NavError::NoPathFound)
    );
}

#[test]
fn steer_goes_round_a_wall() {
    let map = GridMap::new(3, 3, vec![Pos(1, 0), Pos(1, 1)]).unwrap();
    assert_eq!(
        steer(&map, &Pos(0, 0), &Pos(2, 0)),
        Ok(Movement::Toward(Pos(0, 1).to_grid_coords(3)))
    );
}

#[test]
fn near_target_makes_an_idle_agent_follow() {
    let map = GridMap::new(5, 5, vec![]).unwrap();
    let agent = Pos(0, 0);
    let target = Pos(0, 1);
    assert_eq!(distance(agent, target), 1.0);
    let mut m = machine(agent);
    let out = tick(&mut m, &map, &agent, sight(agent, target, 2.0));
    assert_eq!(m.state(), Behavior::Follow(Follow::new(PLAYER, 250)));
    let path = plan_path(&map, &agent, &target).unwrap();
    assert_eq!(path, vec![Pos(0, 0), Pos(0, 1)]);
    let waypoint = next_waypoint(&path, &agent).unwrap();
    assert_eq!(waypoint, Pos(0, 1));
    assert_eq!(out, Ok(Movement::Toward(waypoint.to_grid_coords(5))));
    let speed = 250.0;
    let tick_duration = 0.016;
    assert_eq!(
        delta(agent, waypoint, speed, tick_duration),
        (0.0, speed * tick_duration)
    );
}

#[test]
fn following_agent_keeps_following_a_near_target() {
    let map = GridMap::new(5, 5, vec![]).unwrap();
    let agent = Pos(0, 0);
    let target = Pos(0, 1);
    let mut m = machine(agent);
    for _ in 0..4 {
        let out = tick(&mut m, &map, &agent, sight(agent, target, 2.0));
        assert_eq!(m.state(), Behavior::Follow(Follow::new(PLAYER, 250)));
        assert_eq!(out, Ok(Movement::Toward(GridCoords { x: 0, y: 3 })));
    }
}

#[test]
fn far_target_sends_a_following_agent_back_and_home_makes_it_idle() {
    let map = GridMap::new(5, 5, vec![]).unwrap();
    let anchor = Pos(0, 0);
    let mut agent = Pos(0, 3);
    let mut m = machine(anchor);
    assert!(tick(&mut m, &map, &agent, sight(agent, Pos(0, 4), 2.0)).is_ok());
    assert_eq!(m.state(), Behavior::Follow(Follow::new(PLAYER, 250)));

    let target = Pos(0, 5);
    assert_eq!(distance(anchor, target), 5.0);
    let back = Behavior::BackToInitial(BackToInitial::new(ENEMY, anchor));
    let out = tick(&mut m, &map, &agent, sight(agent, target, 2.0));
    assert_eq!(m.state(), back);
    assert!(plan_path(&map, &agent, &anchor).is_some());
    assert_eq!(out, Ok(Movement::Toward(Pos(0, 2).to_grid_coords(5))));

    let mut walked = 0;
    while agent != anchor {
        let out = tick(&mut m, &map, &agent, sight(agent, target, 2.0));
        assert_eq!(m.state(), back);
        match out {
            Ok(Movement::Toward(tile)) => {
                let to = tile.to_cell(5);
                assert_eq!(to.manhattan_distance(&agent), 1);
                assert_eq!(
                    to.manhattan_distance(&anchor) + 1,
                    agent.manhattan_distance(&anchor)
                );
                agent = to;
            }
            other => panic!("no way back: {:?}", other),
        }
        walked += 1;
    }
    assert_eq!(walked, 3);
    let out = tick(&mut m, &map, &agent, sight(agent, target, 2.0));
    assert_eq!(m.state(), Behavior::Idle(Idle));
    assert_eq!(out, Ok(Movement::Stay));
}

#[test]
fn agent_walks_home_in_as_many_tiles_as_the_manhattan_distance() {
    let map = GridMap::new(8, 6, vec![]).unwrap();
    for (from, anchor) in [
        (Pos(7, 5), Pos(0, 0)),
        (Pos(0, 5), Pos(7, 0)),
        (Pos(3, 3), Pos(3, 0)),
        (Pos(2, 2), Pos(2, 2)),
    ] {
        let mut m = machine(anchor);
        m.step(Sighting::Near, false);
        m.step(Sighting::Far, false);
        let mut agent = from;
        let mut tiles = 0;
        loop {
            let out = tick(
                &mut m,
                &map,
                &agent,
                Some(Target {
                    cell: Pos(7, 5),
                    near: false,
                }),
            );
            match out {
                Ok(Movement::Toward(tile)) => {
                    agent = tile.to_cell(6);
                    tiles += 1;
                }
                Ok(Movement::Stay) => break,
                Err(error) => panic!("no way back: {:?}", error),
            }
            assert!(tiles <= 20);
        }
        assert_eq!(agent, anchor);
        assert_eq!(tiles, from.manhattan_distance(&anchor));
        assert_eq!(m.state(), Behavior::Idle(Idle));
    }
}

#[test]
fn agent_with_an_enclosed_start_cell_keeps_returning_without_moving() {
    let anchor = Pos(2, 2);
    let walls = vec![Pos(2, 1), Pos(1, 2), Pos(3, 2), Pos(2, 3)];
    let map = GridMap::new(5, 5, walls).unwrap();
    let agent = Pos(0, 0);
    let mut m = machine(anchor);
    m.step(Sighting::Near, false);
    let back = Behavior::BackToInitial(BackToInitial::new(ENEMY, anchor));
    for _ in 0..20 {
        let out = tick(
            &mut m,
            &map,
            &agent,
            Some(Target {
                cell: Pos(4, 4),
                near: false,
            }),
        );
        assert_eq!(plan_path(&map, &agent, &anchor), None);
        assert_eq!(out, Err(NavError::NoPathFound));
        assert_eq!(m.state(), back);
    }
}

#[test]
fn idle_agent_does_not_move() {
    let map = GridMap::new(5, 5, vec![]).unwrap();
    let mut m = machine(Pos(0, 0));
    let out = tick(
        &mut m,
        &map,
        &Pos(3, 3),
        Some(Target {
            cell: Pos(0, 4),
            near: false,
        }),
    );
    assert_eq!(m.state(), Behavior::Idle(Idle));
    assert_eq!(out, Ok(Movement::Stay));
}

#[test]
fn agent_on_the_cell_of_its_target_stays() {
    let map = GridMap::new(5, 5, vec![]).unwrap();
    let mut m = machine(Pos(0, 0));
    let out = tick(
        &mut m,
        &map,
        &Pos(3, 3),
        Some(Target {
            cell: Pos(3, 3),
            near: true,
        }),
    );
    assert_eq!(m.state(), Behavior::Follow(Follow::new(PLAYER, 250)));
    assert_eq!(out, Ok(Movement::Stay));
}

#[test]
fn missing_target_makes_the_agent_idle() {
    let map = GridMap::new(5, 5, vec![]).unwrap();
    let mut m = machine(Pos(0, 0));
    m.step(Sighting::Near, false);
    let out = tick(&mut m, &map, &Pos(3, 3), None);
    assert_eq!(m.state(), Behavior::Idle(Idle));
    assert_eq!(out, Err(NavError::TargetEntityMissing));
}

#[test]
fn near_target_wins_over_arrival() {
    let map = GridMap::new(5, 5, vec![]).unwrap();
    let anchor = Pos(1, 1);
    let mut m = machine(anchor);
    m.step(Sighting::Near, false);
    m.step(Sighting::Far, false);
    let out = tick(
        &mut m,
        &map,
        &anchor,
        Some(Target {
            cell: Pos(1, 2),
            near: true,
        }),
    );
    assert_eq!(m.state(), Behavior::Follow(Follow::new(PLAYER, 250)));
    assert_eq!(out, Ok(Movement::Toward(Pos(1, 2).to_grid_coords(5))));
}

#[test]
fn agent_off_the_grid_has_not_arrived() {
    let map = GridMap::new(5, 5, vec![]).unwrap();
    let anchor = Pos(9, 9);
    let mut m = machine(anchor);
    m.step(Sighting::Near, false);
    m.step(Sighting::Far, false);
    let out = tick(
        &mut m,
        &map,
        &anchor,
        Some(Target {
            cell: Pos(0, 0),
            near: false,
        }),
    );
    assert_eq!(
        m.state(),
        Behavior::BackToInitial(BackToInitial::new(ENEMY, anchor))
    );
    assert_eq!(out, Err(NavError::NoPathFound));
}

fn walls_layer(side: i32, tiles: Vec<(i32, i32)>) -> TileLayer {
    TileLayer {
        identifier: "Walls".to_string(),
        c_wid: side,
        c_hei: side,
        grid_size: 16,
        tiles,
    }
}

#[test]
fn update_plans_on_the_walls_of_the_level() {
    let layers = vec![walls_layer(3, vec![(16, 0), (16, 16)])];
    let mut m = machine(Pos(0, 0));
    let out = update(
        &mut m,
        &layers,
        16,
        &Pos(0, 0),
        Some(Target {
            cell: Pos(2, 0),
            near: true,
        }),
    );
    assert_eq!(m.state(), Behavior::Follow(Follow::new(PLAYER, 250)));
    assert_eq!(out, Ok(Movement::Toward(Pos(0, 1).to_grid_coords(3))));
}

#[test]
fn update_without_walls_layer_skips_the_tick() {
    let mut ground = walls_layer(3, vec![]);
    ground.identifier = "Ground".to_string();
    let layers = vec![ground];
    let mut m = machine(Pos(0, 0));
    m.step(Sighting::Near, false);
    let before = m;
    let out = update(
        &mut m,
        &layers,
        16,
        &Pos(0, 0),
        Some(Target {
            cell: Pos(2, 0),
            near: false,
        }),
    );
    assert_eq!(out, Err(NavError::MapDataMissing));
    assert_eq!(m, before);
    let out = update(&mut m, &layers, 16, &Pos(0, 0), None);
    assert_eq!(out, Err(NavError::MapDataMissing));
    assert_eq!(m, before);
}
