//! What a route over the grid is, and what holds of every route.

use crate::map::grid::Terrain;
use crate::utils::position::{abs, Pos};
use vstd::prelude::*;

verus! {

/// The move from cell `i - 1` of `cells` to cell `i` goes to an edge
/// neighbour that lies on the grid and is free of walls.
pub open spec fn step_ok(t: Terrain, cells: Seq<Pos>, i: int) -> bool {
    cells[i].adjacent(cells[i - 1]) && t.open_at(cells[i])
}

/// `cells` leads from `start` to `goal`: it begins on `start`, which lies
/// on the grid, ends on `goal`, and every move in it is a legal one.
pub open spec fn is_route(t: Terrain, start: Pos, goal: Pos, cells: Seq<Pos>) -> bool {
    &&& cells.len() >= 1
    &&& cells[0] == start
    &&& cells[cells.len() - 1] == goal
    &&& t.contains(start)
    &&& forall|i: int| 1 <= i < cells.len() ==> #[trigger] step_ok(t, cells, i)
}

/// Some route leads from `start` to `goal`.
pub open spec fn reachable(t: Terrain, start: Pos, goal: Pos) -> bool {
    exists|cells: Seq<Pos>| is_route(t, start, goal, cells)
}

/// `cells` is a route from `start` to `goal`, and no route between the two
/// has fewer cells.
pub open spec fn is_shortest_route(t: Terrain, start: Pos, goal: Pos, cells: Seq<Pos>) -> bool {
    &&& is_route(t, start, goal, cells)
    &&& forall|other: Seq<Pos>| #[trigger]
        is_route(t, start, goal, other) ==> cells.len() <= other.len()
}

/// `cell` can be reached from `start` in `moves` moves and in no fewer.
pub open spec fn is_distance(t: Terrain, start: Pos, cell: Pos, moves: int) -> bool {
    &&& exists|cells: Seq<Pos>| #[trigger] is_route(t, start, cell, cells) && cells.len() == moves + 1
    &&& forall|cells: Seq<Pos>| #[trigger] is_route(t, start, cell, cells) ==> cells.len() >= moves + 1
}

/// The least number of moves in which `cell` can be reached from `start`.
/// The number means nothing where `cell` cannot be reached.
pub open spec fn distance(t: Terrain, start: Pos, cell: Pos) -> int {
    choose|moves: int| is_distance(t, start, cell, moves)
}

/// Some shortest route from `start` to `cell` enters `cell` from `from`.
pub open spec fn comes_from(t: Terrain, start: Pos, cell: Pos, from: Pos) -> bool {
    from.adjacent(cell) && is_distance(t, start, from, distance(t, start, cell) - 1)
}

/// The cell from which the chosen shortest route enters `cell`: the first
/// of its neighbours to the left, to the right, above and below from
/// which some shortest route enters it.
pub open spec fn first_before(t: Terrain, start: Pos, cell: Pos) -> Pos {
    if comes_from(t, start, cell, cell.left()) {
        cell.left()
    } else if comes_from(t, start, cell, cell.right()) {
        cell.right()
    } else if comes_from(t, start, cell, cell.up()) {
        cell.up()
    } else {
        cell.down()
    }
}

/// The chosen shortest route from `start` to a cell that is `moves` moves
/// away. Among the shortest routes it is the one that, followed back from
/// its end, comes at each cell from the first neighbour, in the order
/// left, right, up, down, that a shortest route can come from.
pub open spec fn first_route(t: Terrain, start: Pos, goal: Pos, moves: nat) -> Seq<Pos>
    decreases moves,
{
    if moves == 0 {
        seq![goal]
    } else {
        first_route(t, start, first_before(t, start, goal), (moves - 1) as nat).push(goal)
    }
}

/// The path that the planner owes: the chosen shortest route where `goal`
/// can be reached from `start`, and none where it cannot.
pub open spec fn planned(t: Terrain, start: Pos, goal: Pos) -> Option<Seq<Pos>> {
    if reachable(t, start, goal) {
        Some(first_route(t, start, goal, distance(t, start, goal) as nat))
    } else {
        None
    }
}

/// `found` is a right answer to the question for a path from `start` to
/// `goal`: a shortest route where there is a route at all, and none where
/// there is none.
pub open spec fn is_plan(t: Terrain, start: Pos, goal: Pos, found: Option<Seq<Pos>>) -> bool {
    match found {
        Some(cells) => is_shortest_route(t, start, goal, cells),
        None => !reachable(t, start, goal),
    }
}

/// One more legal move lengthens a route by its target.
pub proof fn lemma_route_push(t: Terrain, start: Pos, cells: Seq<Pos>, next: Pos)
    requires
        is_route(t, start, cells[cells.len() - 1], cells),
        next.adjacent(cells[cells.len() - 1]),
        t.open_at(next),
    ensures
        is_route(t, start, next, cells.push(next)),
{
    let longer = cells.push(next);
    assert forall|i: int| 1 <= i < longer.len() implies #[trigger] step_ok(t, longer, i) by {
        if i < cells.len() {
            assert(step_ok(t, cells, i));
        }
    }
}

/// Every cell of a route lies on the grid.
pub proof fn lemma_route_on_grid(t: Terrain, start: Pos, goal: Pos, cells: Seq<Pos>, i: int)
    requires
        is_route(t, start, goal, cells),
        0 <= i < cells.len(),
    ensures
        t.contains(cells[i]),
{
    if i >= 1 {
        assert(step_ok(t, cells, i));
    }
}

/// The beginning of a route is a route to the cell where it is cut.
pub proof fn lemma_route_prefix(t: Terrain, start: Pos, goal: Pos, cells: Seq<Pos>, n: int)
    requires
        is_route(t, start, goal, cells),
        1 <= n <= cells.len(),
    ensures
        is_route(t, start, cells[n - 1], cells.subrange(0, n)),
{
    let head = cells.subrange(0, n);
    assert forall|i: int| 1 <= i < head.len() implies #[trigger] step_ok(t, head, i) by {
        assert(step_ok(t, cells, i));
    }
}

/// The end of a route, from any of its cells on, is a route from that cell.
pub proof fn lemma_route_suffix(t: Terrain, start: Pos, goal: Pos, cells: Seq<Pos>, n: int)
    requires
        is_route(t, start, goal, cells),
        0 <= n < cells.len(),
    ensures
        is_route(t, cells[n], goal, cells.subrange(n, cells.len() as int)),
{
    let tail = cells.subrange(n, cells.len() as int);
    lemma_route_on_grid(t, start, goal, cells, n);
    assert forall|i: int| 1 <= i < tail.len() implies #[trigger] step_ok(t, tail, i) by {
        assert(step_ok(t, cells, n + i));
    }
}

/// Every move of a route joins two edge neighbours, and no cell of a route
/// that begins off the walls is a wall.
pub proof fn lemma_route_avoids_walls(t: Terrain, start: Pos, goal: Pos, cells: Seq<Pos>, i: int)
    requires
        is_route(t, start, goal, cells),
        !t.walls.contains(start),
        0 <= i < cells.len(),
    ensures
        t.open_at(cells[i]),
        i >= 1 ==> cells[i].adjacent(cells[i - 1]) && cells[i - 1].adjacent(cells[i]),
{
    if i >= 1 {
        assert(step_ok(t, cells, i));
    }
}

/// One move changes the Manhattan distance to any cell by at most one.
pub proof fn lemma_manhattan_step(a: Pos, b: Pos, to: Pos)
    requires
        a.adjacent(b),
    ensures
        abs(a.manhattan(to) - b.manhattan(to)) <= 1,
{
}

/// Along a route the Manhattan distance to any cell shrinks by no more than
/// the number of moves made.
pub proof fn lemma_route_slack(t: Terrain, cells: Seq<Pos>, from: int, upto: int, to: Pos)
    requires
        is_route(t, cells[0], cells[cells.len() - 1], cells),
        0 <= from <= upto < cells.len(),
    ensures
        cells[from].manhattan(to) <= cells[upto].manhattan(to) + (upto - from),
    decreases upto - from,
{
    if from < upto {
        lemma_route_slack(t, cells, from, upto - 1, to);
        assert(step_ok(t, cells, upto));
        lemma_manhattan_step(cells[upto], cells[upto - 1], to);
    }
}

/// No route is shorter than the Manhattan distance allows: it has at least
/// one cell more than the distance between its ends.
pub proof fn lemma_route_at_least_manhattan(t: Terrain, start: Pos, goal: Pos, cells: Seq<Pos>)
    requires
        is_route(t, start, goal, cells),
    ensures
        cells.len() >= start.manhattan(goal) + 1,
{
    lemma_route_slack(t, cells, 0, cells.len() - 1, goal);
}

/// On a grid without walls a route of exactly Manhattan length joins any
/// two cells of the grid.
pub proof fn lemma_direct_route(t: Terrain, start: Pos, goal: Pos) -> (cells: Seq<Pos>)
    requires
        t.obstacle_free(),
        t.contains(start),
        t.contains(goal),
    ensures
        is_route(t, start, goal, cells),
        cells.len() == start.manhattan(goal) + 1,
    decreases start.manhattan(goal),
{
    if start == goal {
        let cells = seq![start];
        assert(is_route(t, start, goal, cells));
        cells
    } else {
        let before = if goal.0 > start.0 {
            Pos((goal.0 - 1) as i32, goal.1)
        } else if goal.0 < start.0 {
            Pos((goal.0 + 1) as i32, goal.1)
        } else if goal.1 > start.1 {
            Pos(goal.0, (goal.1 - 1) as i32)
        } else {
            Pos(goal.0, (goal.1 + 1) as i32)
        };
        assert(t.contains(before));
        assert(before.manhattan(start) == goal.manhattan(start) - 1);
        let head = lemma_direct_route(t, start, before);
        lemma_route_push(t, start, head, goal);
        head.push(goal)
    }
}

/// On a grid without walls two cells of the grid are joined by a route, and
/// every right answer to the question for a path between them is a path.
pub proof fn lemma_open_grid_has_plan(t: Terrain, start: Pos, goal: Pos, found: Option<Seq<Pos>>)
    requires
        t.obstacle_free(),
        t.contains(start),
        t.contains(goal),
        is_plan(t, start, goal, found),
    ensures
        reachable(t, start, goal),
        found is Some,
{
    let direct = lemma_direct_route(t, start, goal);
    assert(is_route(t, start, goal, direct));
}

/// On a grid without walls every shortest route between two cells has one
/// cell more than their Manhattan distance.
pub proof fn lemma_shortest_route_on_open_grid(t: Terrain, start: Pos, goal: Pos, cells: Seq<Pos>)
    requires
        t.obstacle_free(),
        is_shortest_route(t, start, goal, cells),
    ensures
        cells.len() == start.manhattan(goal) + 1,
{
    lemma_route_at_least_manhattan(t, start, goal, cells);
    lemma_route_on_grid(t, start, goal, cells, cells.len() - 1);
    let direct = lemma_direct_route(t, start, goal);
    assert(is_route(t, start, goal, direct));
}

/// A goal whose four neighbours are all blocked or off the grid cannot be
/// reached from any cell that is neither the goal nor next to it: every
/// right answer to the question for a path is that there is none, however
/// often it is asked.
pub proof fn lemma_enclosed_goal_unreachable(
    t: Terrain,
    start: Pos,
    goal: Pos,
    found: Option<Seq<Pos>>,
)
    requires
        start != goal,
        !start.adjacent(goal),
        forall|cell: Pos| #[trigger] cell.adjacent(goal) ==> !t.open_at(cell),
        is_plan(t, start, goal, found),
    ensures
        !reachable(t, start, goal),
        found is None,
{
    assert forall|cells: Seq<Pos>| !is_route(t, start, goal, cells) by {
        if is_route(t, start, goal, cells) {
            let last = cells.len() - 1;
            assert(last >= 1);
            assert(step_ok(t, cells, last));
            let before = cells[last - 1];
            assert(before.adjacent(goal));
            if last - 1 >= 1 {
                assert(step_ok(t, cells, last - 1));
            }
        }
    }
}

/// A cell has one distance from the start at most.
pub proof fn lemma_distance_unique(t: Terrain, start: Pos, cell: Pos, a: int, b: int)
    requires
        is_distance(t, start, cell, a),
        is_distance(t, start, cell, b),
    ensures
        a == b,
{
    let first = choose|cells: Seq<Pos>| #[trigger]
        is_route(t, start, cell, cells) && cells.len() == a + 1;
    let second = choose|cells: Seq<Pos>| #[trigger]
        is_route(t, start, cell, cells) && cells.len() == b + 1;
    assert(first.len() >= b + 1);
    assert(second.len() >= a + 1);
}

/// A cell that can be reached has a distance, and `distance` is it.
pub proof fn lemma_distance(t: Terrain, start: Pos, cell: Pos)
    requires
        reachable(t, start, cell),
    ensures
        is_distance(t, start, cell, distance(t, start, cell)),
        distance(t, start, cell) >= 0,
{
    let some = choose|cells: Seq<Pos>| is_route(t, start, cell, cells);
    let moves = lemma_least_route(t, start, cell, some.len() - 1);
    assert(is_distance(t, start, cell, moves));
}

/// Among the routes of no more than `upto` moves, if there is any, one has
/// the fewest moves of all routes.
proof fn lemma_least_route(t: Terrain, start: Pos, cell: Pos, upto: int) -> (moves: int)
    requires
        exists|cells: Seq<Pos>| #[trigger] is_route(t, start, cell, cells) && cells.len() <= upto + 1,
    ensures
        0 <= moves <= upto,
        is_distance(t, start, cell, moves),
    decreases upto,
{
    let some = choose|cells: Seq<Pos>| #[trigger]
        is_route(t, start, cell, cells) && cells.len() <= upto + 1;
    if exists|cells: Seq<Pos>| #[trigger] is_route(t, start, cell, cells) && cells.len() <= upto {
        lemma_least_route(t, start, cell, upto - 1)
    } else {
        assert(some.len() == upto + 1);
        assert forall|cells: Seq<Pos>| #[trigger] is_route(t, start, cell, cells) implies cells.len()
            >= upto + 1 by {
            if cells.len() <= upto {
                assert(is_route(t, start, cell, cells) && cells.len() <= upto);
            }
        }
        upto
    }
}

/// A cell that is some moves away from the start is entered, on a shortest
/// route, from a neighbour that is one move nearer; and no wall stands on
/// the cell.
pub proof fn lemma_shortest_comes_from(t: Terrain, start: Pos, cell: Pos, moves: int) -> (from: Pos)
    requires
        is_distance(t, start, cell, moves),
        moves > 0,
    ensures
        from.adjacent(cell),
        is_distance(t, start, from, moves - 1),
        t.open_at(cell),
{
    let cells = choose|cells: Seq<Pos>| #[trigger]
        is_route(t, start, cell, cells) && cells.len() == moves + 1;
    let from = cells[moves - 1];
    assert(step_ok(t, cells, moves));
    lemma_route_prefix(t, start, cell, cells, moves);
    let head = cells.subrange(0, moves);
    assert(is_route(t, start, from, head) && head.len() == moves - 1 + 1);
    assert forall|other: Seq<Pos>| #[trigger] is_route(t, start, from, other) implies other.len()
        >= moves by {
        lemma_route_push(t, start, other, cell);
        assert(is_route(t, start, cell, other.push(cell)));
    }
    from
}

/// The neighbour that the chosen route comes from is one that a shortest
/// route comes from.
pub proof fn lemma_first_before(t: Terrain, start: Pos, cell: Pos)
    requires
        t.wf(),
        reachable(t, start, cell),
        distance(t, start, cell) > 0,
    ensures
        comes_from(t, start, cell, first_before(t, start, cell)),
        t.open_at(cell),
{
    lemma_distance(t, start, cell);
    let from = lemma_shortest_comes_from(t, start, cell, distance(t, start, cell));
    assert(from == cell.left() || from == cell.right() || from == cell.up() || from == cell.down());
}

/// The chosen route to a cell is a route to it, of as many moves as the
/// cell is away from the start.
pub proof fn lemma_first_route(t: Terrain, start: Pos, goal: Pos, moves: nat)
    requires
        t.wf(),
        is_distance(t, start, goal, moves as int),
    ensures
        is_shortest_route(t, start, goal, first_route(t, start, goal, moves)),
        first_route(t, start, goal, moves).len() == moves + 1,
    decreases moves,
{
    let some = choose|cells: Seq<Pos>| #[trigger]
        is_route(t, start, goal, cells) && cells.len() == moves + 1;
    assert(reachable(t, start, goal));
    lemma_distance(t, start, goal);
    lemma_distance_unique(t, start, goal, moves as int, distance(t, start, goal));
    if moves == 0 {
        assert(some[0] == goal);
        assert(is_route(t, start, goal, seq![goal]));
    } else {
        lemma_first_before(t, start, goal);
        let from = first_before(t, start, goal);
        lemma_first_route(t, start, from, (moves - 1) as nat);
        let head = first_route(t, start, from, (moves - 1) as nat);
        lemma_route_push(t, start, head, goal);
    }
}

/// The path that the planner owes is a right answer to the question for a
/// path.
pub proof fn lemma_planned_is_plan(t: Terrain, start: Pos, goal: Pos)
    requires
        t.wf(),
    ensures
        is_plan(t, start, goal, planned(t, start, goal)),
{
    if reachable(t, start, goal) {
        lemma_distance(t, start, goal);
        lemma_first_route(t, start, goal, distance(t, start, goal) as nat);
    }
}

} // verus!
