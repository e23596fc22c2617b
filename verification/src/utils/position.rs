//! Grid cells and the moves between them.

use vstd::prelude::*;

verus! {

/// One tile of the grid: column first, row second.
#[derive(Clone, Copy, Debug, Eq, Hash, Ord, PartialEq, PartialOrd, Structural)]
pub struct Pos(pub i32, pub i32);

/// The absolute value of an integer.
pub open spec fn abs(v: int) -> int {
    if v < 0 {
        -v
    } else {
        v
    }
}

impl Pos {
    /// The sum of the absolute column and row differences of two cells.
    pub open spec fn manhattan(self, other: Pos) -> int {
        abs(self.0 - other.0) + abs(self.1 - other.1)
    }

    /// Two cells share an edge.
    pub open spec fn adjacent(self, other: Pos) -> bool {
        self.manhattan(other) == 1
    }

    /// All four axis-neighbours of the cell are cells themselves.
    pub open spec fn is_inner(self) -> bool {
        &&& i32::MIN < self.0 < i32::MAX
        &&& i32::MIN < self.1 < i32::MAX
    }

    pub open spec fn left(self) -> Pos {
        Pos((self.0 - 1) as i32, self.1)
    }

    pub open spec fn right(self) -> Pos {
        Pos((self.0 + 1) as i32, self.1)
    }

    pub open spec fn up(self) -> Pos {
        Pos(self.0, (self.1 - 1) as i32)
    }

    pub open spec fn down(self) -> Pos {
        Pos(self.0, (self.1 + 1) as i32)
    }

    /// The move to `candidate`, at cost one, unless a wall stands there.
    pub open spec fn step_to(candidate: Pos, walls: Seq<Pos>) -> Seq<(Pos, u32)> {
        if walls.contains(candidate) {
            Seq::empty()
        } else {
            seq![(candidate, 1u32)]
        }
    }

    /// The moves out of the cell: left, right, up, down, in that order,
    /// without those that end on a wall.
    pub open spec fn moves(self, walls: Seq<Pos>) -> Seq<(Pos, u32)> {
        Self::step_to(self.left(), walls) + Self::step_to(self.right(), walls) + Self::step_to(
            self.up(),
            walls,
        ) + Self::step_to(self.down(), walls)
    }

    /// Manhattan distance between two cells.
    pub fn manhattan_distance(&self, other: &Pos) -> (d: u32)
        requires
            self.manhattan(*other) <= u32::MAX,
        ensures
            d == self.manhattan(*other),
    {
        let dx: i64 = self.0 as i64 - other.0 as i64;
        let dy: i64 = self.1 as i64 - other.1 as i64;
        let ax: i64 = if dx < 0 { -dx } else { dx };
        let ay: i64 = if dy < 0 { -dy } else { dy };
        (ax + ay) as u32
    }

    /// The cells that can be entered from this one, each with the cost of
    /// the move.
    pub fn successors(&self, walls: &[Pos]) -> (out: Vec<(Pos, u32)>)
        requires
            self.is_inner(),
        ensures
            out@ == self.moves(walls@),
    {
        let mut out: Vec<(Pos, u32)> = Vec::new();
        let left = Pos(self.0 - 1, self.1);
        if !is_wall(walls, &left) {
            out.push((left, 1));
        }
        assert(out@ =~= Self::step_to(self.left(), walls@));
        let right = Pos(self.0 + 1, self.1);
        if !is_wall(walls, &right) {
            out.push((right, 1));
        }
        assert(out@ =~= Self::step_to(self.left(), walls@) + Self::step_to(self.right(), walls@));
        let up = Pos(self.0, self.1 - 1);
        if !is_wall(walls, &up) {
            out.push((up, 1));
        }
        assert(out@ =~= Self::step_to(self.left(), walls@) + Self::step_to(self.right(), walls@)
            + Self::step_to(self.up(), walls@));
        let down = Pos(self.0, self.1 + 1);
        if !is_wall(walls, &down) {
            out.push((down, 1));
        }
        assert(out@ =~= self.moves(walls@));
        out
    }
}

/// A tile as the world counts it: column first, then the row, counted
/// upwards from the bottom of the level. Cells count their rows downwards
/// from the top, as the tile data of a level does.
#[derive(Clone, Copy, Debug, Eq, Hash, PartialEq, Structural)]
pub struct GridCoords {
    pub x: i32,
    pub y: i32,
}

/// The row that mirrors `row` on a grid of `grid_height` rows: the first
/// row becomes the last and the last the first.
pub open spec fn mirrored(row: int, grid_height: int) -> int {
    grid_height - row - 1
}

/// Mirroring a row twice gives the row back.
pub proof fn lemma_mirrored_twice(row: int, grid_height: int)
    ensures
        mirrored(mirrored(row, grid_height), grid_height) == row,
{
}

/// Mirroring keeps the rows of the grid on the grid.
pub proof fn lemma_mirrored_on_grid(row: int, grid_height: int)
    ensures
        0 <= row < grid_height <==> 0 <= mirrored(row, grid_height) < grid_height,
{
}

/// The one conversion between the two ways of counting rows. It is its own
/// inverse, so the same function leads from the world's coordinates to
/// cells and from cells back to the world's coordinates.
pub fn flip_row(row: i32, grid_height: i32) -> (flipped: i32)
    requires
        i32::MIN <= mirrored(row as int, grid_height as int) <= i32::MAX,
    ensures
        flipped == mirrored(row as int, grid_height as int),
{
    ((grid_height as i64) - (row as i64) - 1) as i32
}

impl GridCoords {
    /// The cell that these coordinates name on a grid of `grid_height` rows.
    pub open spec fn cell(self, grid_height: int) -> Pos {
        Pos(self.x, mirrored(self.y as int, grid_height) as i32)
    }

    /// The cell that these coordinates name on a grid of `grid_height` rows.
    pub fn to_cell(&self, grid_height: i32) -> (cell: Pos)
        requires
            i32::MIN <= mirrored(self.y as int, grid_height as int) <= i32::MAX,
        ensures
            cell == self.cell(grid_height as int),
    {
        Pos(self.x, flip_row(self.y, grid_height))
    }
}

impl Pos {
    /// The world's coordinates of the cell on a grid of `grid_height` rows.
    pub open spec fn coords(self, grid_height: int) -> GridCoords {
        GridCoords { x: self.0, y: mirrored(self.1 as int, grid_height) as i32 }
    }

    /// The world's coordinates of the cell on a grid of `grid_height` rows.
    pub fn to_grid_coords(&self, grid_height: i32) -> (coords: GridCoords)
        requires
            i32::MIN <= mirrored(self.1 as int, grid_height as int) <= i32::MAX,
        ensures
            coords == self.coords(grid_height as int),
    {
        GridCoords { x: self.0, y: flip_row(self.1, grid_height) }
    }
}

/// Converting a cell to the world's coordinates and back gives the cell,
/// and converting coordinates to a cell and back gives the coordinates.
pub proof fn lemma_coords_round_trip(cell: Pos, coords: GridCoords, grid_height: int)
    requires
        i32::MIN <= mirrored(cell.1 as int, grid_height) <= i32::MAX,
        i32::MIN <= mirrored(coords.y as int, grid_height) <= i32::MAX,
    ensures
        cell.coords(grid_height).cell(grid_height) == cell,
        coords.cell(grid_height).coords(grid_height) == coords,
{
}

/// Every move out of a cell costs one and ends on an edge neighbour that is
/// no wall.
pub proof fn lemma_moves_sound(cell: Pos, walls: Seq<Pos>, k: int)
    requires
        cell.is_inner(),
        0 <= k < cell.moves(walls).len(),
    ensures
        cell.moves(walls)[k].1 == 1,
        cell.moves(walls)[k].0.adjacent(cell),
        !walls.contains(cell.moves(walls)[k].0),
{
    let a = Pos::step_to(cell.left(), walls);
    let b = Pos::step_to(cell.right(), walls);
    let c = Pos::step_to(cell.up(), walls);
    let d = Pos::step_to(cell.down(), walls);
    assert(cell.moves(walls) == a + b + c + d);
    if k < a.len() {
    } else if k < a.len() + b.len() {
    } else if k < a.len() + b.len() + c.len() {
    } else {
    }
}

/// Every edge neighbour of a cell that is no wall is the end of one of the
/// moves out of the cell.
pub proof fn lemma_moves_complete(cell: Pos, walls: Seq<Pos>, to: Pos)
    requires
        cell.is_inner(),
        to.adjacent(cell),
        !walls.contains(to),
    ensures
        exists|k: int| 0 <= k < cell.moves(walls).len() && (#[trigger] cell.moves(walls)[k]).0 == to,
{
    let a = Pos::step_to(cell.left(), walls);
    let b = Pos::step_to(cell.right(), walls);
    let c = Pos::step_to(cell.up(), walls);
    let d = Pos::step_to(cell.down(), walls);
    let all = cell.moves(walls);
    assert(all == a + b + c + d);
    if to == cell.left() {
        assert(all[0].0 == to);
    } else if to == cell.right() {
        assert(all[a.len() as int].0 == to);
    } else if to == cell.up() {
        assert(all[(a.len() + b.len()) as int].0 == to);
    } else {
        assert(to == cell.down());
        assert(all[(a.len() + b.len() + c.len()) as int].0 == to);
    }
}

/// Whether `cell` occurs among `walls`.
pub fn is_wall(walls: &[Pos], cell: &Pos) -> (found: bool)
    ensures
        found == walls@.contains(*cell),
{
    let mut i: usize = 0;
    while i < walls.len()
        invariant
            i <= walls.len(),
            forall|k: int| 0 <= k < i ==> walls@[k] != *cell,
        decreases walls.len() - i,
    {
        if walls[i] == *cell {
            return true;
        }
        i += 1;
    }
    false
}

} // verus!
