use npcs_ai_game::map::grid::GridMap;
use npcs_ai_game::map::systems::{row_plates, spawn_wall_collision, Plate, Rect};
use npcs_ai_game::utils::position::Pos;

fn rect(left: i32, right: i32, bottom: i32, top: i32) -> Rect {
    Rect {
        left,
        right,
        top,
        bottom,
    }
}

fn map_of(rows: &[&str]) -> GridMap {
    let mut walls = Vec::new();
    for (y, row) in rows.iter().enumerate() {
        for (x, tile) in row.chars().enumerate() {
            if tile == '#' {
                walls.push(Pos(x as i32, y as i32));
            }
        }
    }
    GridMap::new(rows[0].len() as i32, rows.len() as i32, walls).unwrap()
}

#[test]
fn row_plates_are_the_runs_of_walls() {
    let map = map_of(&["##.#.###", "........", "########", "#......#"]);
    assert_eq!(
        row_plates(&map, 0),
        vec![
            Plate { left: 0, right: 1 },
            Plate { left: 3, right: 3 },
            Plate { left: 5, right: 7 }
        ]
    );
    assert_eq!(row_plates(&map, 1), vec![]);
    assert_eq!(row_plates(&map, 2), vec![Plate { left: 0, right: 7 }]);
    assert_eq!(
        row_plates(&map, 3),
        vec![Plate { left: 0, right: 0 }, Plate { left: 7, right: 7 }]
    );
}

#[test]
fn no_walls_give_no_rectangles() {
    assert_eq!(spawn_wall_collision(&map_of(&["...", "..."])), vec![]);
    assert_eq!(
        spawn_wall_collision(&GridMap::new(0, 0, vec![]).unwrap()),
        vec![]
    );
}

#[test]
fn single_wall_gives_a_single_tile() {
    let rects = spawn_wall_collision(&map_of(&["...", ".#.", "..."]));
    assert_eq!(rects, vec![rect(1, 1, 1, 1)]);
}

#[test]
fn full_grid_gives_one_rectangle() {
    let rects = spawn_wall_collision(&map_of(&["####", "####", "####"]));
    assert_eq!(rects, vec![rect(0, 3, 0, 2)]);
}

#[test]
fn equal_plates_on_rows_that_follow_are_joined() {
    let rects = spawn_wall_collision(&map_of(&[
        "##..#", //
        "##..#", //
        "#...#", //
        "#.###",
    ]));
    assert_eq!(
        rects,
        vec![
            rect(0, 1, 0, 1),
            rect(4, 4, 0, 2),
            rect(0, 0, 2, 3),
            rect(2, 4, 3, 3)
        ]
    );
}

#[test]
fn plate_that_returns_after_a_gap_begins_a_new_rectangle() {
    let rects = spawn_wall_collision(&map_of(&["##", "..", "##", "##"]));
    assert_eq!(rects, vec![rect(0, 1, 0, 0), rect(0, 1, 2, 3)]);
}

#[test]
fn border_of_a_room_gives_four_rectangles() {
    let rects = spawn_wall_collision(&map_of(&[
        "#####", //
        "#...#", //
        "#...#", //
        "#####",
    ]));
    assert_eq!(
        rects,
        vec![
            rect(0, 4, 0, 0),
            rect(0, 0, 1, 2),
            rect(4, 4, 1, 2),
            rect(0, 4, 3, 3)
        ]
    );
}

#[test]
fn walls_off_the_grid_give_no_rectangles() {
    let map = GridMap::new(2, 2, vec![Pos(2, 0), Pos(0, 2), Pos(-1, 0), Pos(1, 1)]).unwrap();
    assert_eq!(spawn_wall_collision(&map), vec![rect(1, 1, 1, 1)]);
}

#[test]
fn wall_given_twice_counts_once() {
    let map = GridMap::new(2, 1, vec![Pos(0, 0), Pos(0, 0), Pos(1, 0)]).unwrap();
    assert_eq!(spawn_wall_collision(&map), vec![rect(0, 1, 0, 0)]);
}

#[test]
fn rectangles_cover_the_walls_and_nothing_else_and_do_not_overlap() {
    let rows = [
        "##.#..##", //
        "##.#.###", //
        ".#.#.#.#", //
        "........", //
        "###..###", //
        "###..#.#",
    ];
    let map = map_of(&rows);
    let rects = spawn_wall_collision(&map);
    for (y, row) in rows.iter().enumerate() {
        for (x, tile) in row.chars().enumerate() {
            let covering = rects
                .iter()
                .filter(|r| {
                    r.left <= x as i32
                        && x as i32 <= r.right
                        && r.bottom <= y as i32
                        && y as i32 <= r.top
                })
                .count();
            assert_eq!(covering, if tile == '#' { 1 } else { 0 });
        }
    }
}

#[test]
fn rectangles_come_in_the_order_in_which_the_sweep_finishes_them() {
    let rects = spawn_wall_collision(&map_of(&[
        "#.#.#", //
        "#.#..", //
        "#....", //
        ".#.#.",
    ]));
    assert_eq!(
        rects,
        vec![
            rect(4, 4, 0, 0),
            rect(2, 2, 0, 1),
            rect(0, 0, 0, 2),
            rect(1, 1, 3, 3),
            rect(3, 3, 3, 3)
        ]
    );
    for pair in rects.windows(2) {
        assert!((pair[0].top, pair[0].left) < (pair[1].top, pair[1].left));
    }
}
