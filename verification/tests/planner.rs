use npcs_ai_game::map::grid::{GridMap, MAX_CELLS};
use npcs_ai_game::path::frontier::Frontier;
use npcs_ai_game::path::planner::plan_path;
use npcs_ai_game::utils::position::Pos;

fn is_valid_path(map: &GridMap, start: Pos, goal: Pos, path: &[Pos]) -> bool {
    if path.is_empty() || path[0] != start || path[path.len() - 1] != goal {
        return false;
    }
    if !map.contains(&start) {
        return false;
    }
    for i in 1..path.len() {
        if path[i].manhattan_distance(&path[i - 1]) != 1 {
            return false;
        }
        if !map.is_open(&path[i]) {
            return false;
        }
    }
    true
}

/// The distance between two cells, found breadth first.
fn expected_distance(map: &GridMap, start: Pos, goal: Pos) -> Option<usize> {
    if !map.contains(&start) {
        return None;
    }
    let mut seen = vec![start];
    let mut layer = vec![start];
    let mut steps = 0;
    while !layer.is_empty() {
        if layer.contains(&goal) {
            return Some(steps);
        }
        let mut next = Vec::new();
        for cell in &layer {
            for (dx, dy) in [(-1, 0), (1, 0), (0, -1), (0, 1)] {
                let to = Pos(cell.0 + dx, cell.1 + dy);
                if map.is_open(&to) && !seen.contains(&to) {
                    seen.push(to);
                    next.push(to);
                }
            }
        }
        layer = next;
        steps += 1;
    }
    None
}

#[test]
fn adjacent_cells_are_joined_by_a_path_of_two() {
    let map = GridMap::new(5, 5, vec![]).unwrap();
    let path = plan_path(&map, &Pos(0, 0), &Pos(0, 1)).unwrap();
    assert_eq!(path, vec![Pos(0, 0), Pos(0, 1)]);
}

#[test]
fn start_equal_to_goal_gives_a_single_cell() {
    let map = GridMap::new(5, 5, vec![]).unwrap();
    assert_eq!(plan_path(&map, &Pos(2, 3), &Pos(2, 3)), Some(vec![Pos(2, 3)]));
}

#[test]
fn start_equal_to_goal_on_a_wall_gives_a_single_cell() {
    let map = GridMap::new(5, 5, vec![Pos(2, 3)]).unwrap();
    assert_eq!(plan_path(&map, &Pos(2, 3), &Pos(2, 3)), Some(vec![Pos(2, 3)]));
}

#[test]
fn open_grid_paths_have_manhattan_length() {
    let map = GridMap::new(6, 4, vec![]).unwrap();
    for sx in 0..6 {
        for sy in 0..4 {
            for gx in 0..6 {
                for gy in 0..4 {
                    let start = Pos(sx, sy);
                    let goal = Pos(gx, gy);
                    let path = plan_path(&map, &start, &goal).unwrap();
                    assert_eq!(path.len() as u32, start.manhattan_distance(&goal) + 1);
                    assert!(is_valid_path(&map, start, goal, &path));
                }
            }
        }
    }
}

#[test]
fn path_goes_round_a_wall() {
    // . . . . .
    // . # # # .
    // S . . # G
    // . # # # .
    // . . . . .
    let walls = vec![
        Pos(1, 1),
        Pos(2, 1),
        Pos(3, 1),
        Pos(3, 2),
        Pos(1, 3),
        Pos(2, 3),
        Pos(3, 3),
    ];
    let map = GridMap::new(5, 5, walls.clone()).unwrap();
    let path = plan_path(&map, &Pos(0, 2), &Pos(4, 2)).unwrap();
    assert_eq!(path.len(), 9);
    assert!(is_valid_path(&map, Pos(0, 2), Pos(4, 2), &path));
    for cell in &path {
        assert!(!walls.contains(cell));
    }
}

#[test]
fn every_path_is_valid_and_as_short_as_any() {
    let walls = vec![
        Pos(1, 0),
        Pos(1, 1),
        Pos(1, 2),
        Pos(3, 4),
        Pos(3, 3),
        Pos(3, 2),
        Pos(5, 1),
        Pos(4, 1),
        Pos(6, 3),
    ];
    let map = GridMap::new(7, 5, walls).unwrap();
    for sx in 0..7 {
        for sy in 0..5 {
            for gx in 0..7 {
                for gy in 0..5 {
                    let start = Pos(sx, sy);
                    let goal = Pos(gx, gy);
                    let found = plan_path(&map, &start, &goal);
                    let wanted = expected_distance(&map, start, goal);
                    match found {
                        Some(path) => {
                            assert!(is_valid_path(&map, start, goal, &path));
                            assert_eq!(Some(path.len() - 1), wanted);
                        }
                        None => assert_eq!(wanted, None),
                    }
                }
            }
        }
    }
}

#[test]
fn enclosed_goal_has_no_path() {
    let walls = vec![Pos(2, 1), Pos(1, 2), Pos(3, 2), Pos(2, 3)];
    let map = GridMap::new(5, 5, walls).unwrap();
    assert_eq!(plan_path(&map, &Pos(0, 0), &Pos(2, 2)), None);
}

#[test]
fn enclosed_goal_has_no_path_however_often_it_is_asked() {
    let walls = vec![Pos(2, 1), Pos(1, 2), Pos(3, 2), Pos(2, 3)];
    let map = GridMap::new(5, 5, walls).unwrap();
    for _ in 0..10 {
        assert_eq!(plan_path(&map, &Pos(4, 4), &Pos(2, 2)), None);
    }
}

#[test]
fn goal_in_the_corner_is_enclosed_by_two_walls_and_the_edge() {
    let map = GridMap::new(4, 4, vec![Pos(1, 0), Pos(0, 1)]).unwrap();
    assert_eq!(plan_path(&map, &Pos(3, 3), &Pos(0, 0)), None);
    assert_eq!(plan_path(&map, &Pos(0, 0), &Pos(3, 3)), None);
}

#[test]
fn goal_on_a_wall_has_no_path() {
    let map = GridMap::new(3, 3, vec![Pos(1, 1)]).unwrap();
    assert_eq!(plan_path(&map, &Pos(0, 0), &Pos(1, 1)), None);
}

#[test]
fn start_on_a_wall_can_still_leave() {
    let map = GridMap::new(3, 3, vec![Pos(0, 0)]).unwrap();
    let path = plan_path(&map, &Pos(0, 0), &Pos(2, 0)).unwrap();
    assert_eq!(path, vec![Pos(0, 0), Pos(1, 0), Pos(2, 0)]);
}

#[test]
fn cells_off_the_grid_have_no_path() {
    let map = GridMap::new(5, 5, vec![]).unwrap();
    assert_eq!(plan_path(&map, &Pos(0, 0), &Pos(0, 5)), None);
    assert_eq!(plan_path(&map, &Pos(-1, 0), &Pos(0, 0)), None);
    assert_eq!(plan_path(&map, &Pos(5, 5), &Pos(5, 5)), None);
}

#[test]
fn empty_grid_has_no_path() {
    let map = GridMap::new(0, 0, vec![]).unwrap();
    assert_eq!(plan_path(&map, &Pos(0, 0), &Pos(0, 0)), None);
}

#[test]
fn same_question_gives_the_same_path() {
    let map = GridMap::new(6, 6, vec![Pos(2, 2), Pos(3, 3)]).unwrap();
    let first = plan_path(&map, &Pos(0, 0), &Pos(5, 5));
    let second = plan_path(&map, &Pos(0, 0), &Pos(5, 5));
    assert_eq!(first, second);
}

#[test]
fn grid_map_reports_what_it_was_made_of() {
    let map = GridMap::new(4, 3, vec![Pos(1, 1), Pos(9, 9)]).unwrap();
    assert_eq!(map.width(), 4);
    assert_eq!(map.height(), 3);
    assert_eq!(map.area(), 12);
    assert_eq!(map.walls(), &vec![Pos(1, 1), Pos(9, 9)]);
    assert!(map.contains(&Pos(3, 2)));
    assert!(!map.contains(&Pos(4, 2)));
    assert!(!map.contains(&Pos(3, 3)));
    assert!(!map.contains(&Pos(-1, 0)));
    assert!(map.is_open(&Pos(0, 0)));
    assert!(!map.is_open(&Pos(1, 1)));
    assert!(!map.is_open(&Pos(9, 9)));
    assert_eq!(map.index_of(&Pos(0, 0)), 0);
    assert_eq!(map.index_of(&Pos(3, 0)), 3);
    assert_eq!(map.index_of(&Pos(0, 1)), 4);
    assert_eq!(map.index_of(&Pos(3, 2)), 11);
}

#[test]
fn grid_map_needs_sides_that_are_not_negative() {
    assert!(GridMap::new(-1, 5, vec![]).is_none());
    assert!(GridMap::new(5, -1, vec![]).is_none());
    assert!(GridMap::new(0, 5, vec![]).is_some());
}

#[test]
fn grid_map_has_no_more_cells_than_a_cost_can_count() {
    assert_eq!(MAX_CELLS, 4_294_967_295);
    assert!(GridMap::new(65_536, 65_536, vec![]).is_none());
    assert!(GridMap::new(65_535, 65_537, vec![]).is_some());
    assert!(GridMap::new(i32::MAX, 2, vec![]).is_some());
    assert!(GridMap::new(i32::MAX, 3, vec![]).is_none());
}

#[test]
fn frontier_gives_out_the_least_priority_first() {
    let mut open = Frontier::new();
    assert_eq!(open.len(), 0);
    assert_eq!(open.pop_min(), None);
    open.push(5, Pos(0, 0));
    open.push(2, Pos(1, 1));
    open.push(9, Pos(2, 2));
    open.push(2, Pos(3, 3));
    assert_eq!(open.len(), 4);
    let first = open.pop_min().unwrap();
    let second = open.pop_min().unwrap();
    assert_eq!(first.0, 2);
    assert_eq!(second.0, 2);
    assert_ne!(first.1, second.1);
    assert_eq!(open.pop_min(), Some((5, Pos(0, 0))));
    assert_eq!(open.pop_min(), Some((9, Pos(2, 2))));
    assert_eq!(open.pop_min(), None);
}

#[test]
fn frontier_gives_out_many_entries_in_order() {
    let mut open = Frontier::new();
    let mut wanted = Vec::new();
    let mut seed: u64 = 12345;
    for i in 0..500 {
        seed = seed.wrapping_mul(6364136223846793005).wrapping_add(1442695040888963407);
        let priority = (seed >> 33) % 97;
        open.push(priority, Pos(i, 0));
        wanted.push(priority);
        if i % 7 == 3 {
            let least = open.pop_min().unwrap();
            let at = wanted.iter().position(|p| *p == least.0).unwrap();
            assert_eq!(wanted.iter().min(), Some(&least.0));
            wanted.remove(at);
        }
    }
    wanted.sort();
    assert_eq!(open.len(), wanted.len());
    for priority in wanted {
        assert_eq!(open.pop_min().unwrap().0, priority);
    }
    assert_eq!(open.pop_min(), None);
    assert_eq!(open.len(), 0);
}

#[test]
fn frontier_keeps_every_cell_it_was_given() {
    let mut open = Frontier::new();
    for i in 0..50 {
        open.push((i * 37 % 11) as u64, Pos(i, -i));
    }
    let mut cells = Vec::new();
    while let Some((priority, cell)) = open.pop_min() {
        assert_eq!(priority, (cell.0 * 37 % 11) as u64);
        cells.push(cell.0);
    }
    cells.sort();
    assert_eq!(cells, (0..50).collect::<Vec<i32>>());
}

#[test]
fn long_corridor_is_walked_to_its_end() {
    let mut walls = Vec::new();
    for x in 0..200 {
        walls.push(Pos(x, 1));
    }
    walls.retain(|w| w.0 != 199);
    let map = GridMap::new(200, 3, walls).unwrap();
    let path = plan_path(&map, &Pos(0, 0), &Pos(0, 2)).unwrap();
    assert_eq!(path.len(), 199 + 2 + 199 + 1);
    assert!(is_valid_path(&map, Pos(0, 0), Pos(0, 2), &path));
}

#[test]
fn among_paths_of_equal_length_the_first_in_the_order_of_the_moves_is_chosen() {
    let map = GridMap::new(3, 3, vec![]).unwrap();
    assert_eq!(
        plan_path(&map, &Pos(0, 0), &Pos(1, 1)),
        Some(vec![Pos(0, 0), Pos(0, 1), Pos(1, 1)])
    );
    assert_eq!(
        plan_path(&map, &Pos(0, 0), &Pos(2, 2)),
        Some(vec![Pos(0, 0), Pos(0, 1), Pos(0, 2), Pos(1, 2), Pos(2, 2)])
    );
    assert_eq!(
        plan_path(&map, &Pos(2, 2), &Pos(0, 0)),
        Some(vec![Pos(2, 2), Pos(2, 1), Pos(2, 0), Pos(1, 0), Pos(0, 0)])
    );
    assert_eq!(
        plan_path(&map, &Pos(2, 0), &Pos(0, 2)),
        Some(vec![Pos(2, 0), Pos(2, 1), Pos(2, 2), Pos(1, 2), Pos(0, 2)])
    );
}

#[test]
fn chosen_path_keeps_clear_of_walls() {
    let map = GridMap::new(3, 3, vec![Pos(0, 1)]).unwrap();
    assert_eq!(
        plan_path(&map, &Pos(0, 0), &Pos(1, 1)),
        Some(vec![Pos(0, 0), Pos(1, 0), Pos(1, 1)])
    );
    assert_eq!(
        plan_path(&map, &Pos(0, 0), &Pos(0, 2)),
        Some(vec![Pos(0, 0), Pos(1, 0), Pos(1, 1), Pos(1, 2), Pos(0, 2)])
    );
}

/// The path that is owed, worked out from breadth-first distances: from the
/// goal back, always from the first neighbour that is one move nearer.
fn expected_path(map: &GridMap, start: Pos, goal: Pos) -> Option<Vec<Pos>> {
    let mut moves = expected_distance(map, start, goal)?;
    let mut back = vec![goal];
    let mut cell = goal;
    while moves > 0 {
        let from = [(-1, 0), (1, 0), (0, -1), (0, 1)]
            .iter()
            .map(|(dx, dy)| Pos(cell.0 + dx, cell.1 + dy))
            .find(|from| expected_distance(map, start, *from) == Some(moves - 1))
            .unwrap();
        back.push(from);
        cell = from;
        moves -= 1;
    }
    back.reverse();
    Some(back)
}

#[test]
fn planner_gives_the_owed_path_on_many_grids() {
    let mut seed: u64 = 2024;
    for round in 0..40 {
        let width = 2 + (round % 5);
        let height = 2 + (round % 4);
        let mut walls = Vec::new();
        for x in 0..width {
            for y in 0..height {
                seed = seed
                    .wrapping_mul(6364136223846793005)
                    .wrapping_add(1442695040888963407);
                if (seed >> 40) % 4 == 0 {
                    walls.push(Pos(x, y));
                }
            }
        }
        let map = GridMap::new(width, height, walls).unwrap();
        for sx in 0..width {
            for sy in 0..height {
                for gx in 0..width {
                    for gy in 0..height {
                        let start = Pos(sx, sy);
                        let goal = Pos(gx, gy);
                        assert_eq!(
                            plan_path(&map, &start, &goal),
                            expected_path(&map, start, goal)
                        );
                    }
                }
            }
        }
    }
}
