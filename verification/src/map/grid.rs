//! The grid of one level and the walls on it.

use crate::utils::position::{is_wall, Pos};
use vstd::prelude::*;

verus! {

/// The largest number of cells a grid may have: the cost of a path is
/// counted in `u32`, and no path is longer than the grid has cells.
pub const MAX_CELLS: u64 = 0xFFFF_FFFF;

/// A level in mathematical terms: its extent in cells and the set of cells
/// that are blocked.
pub struct Terrain {
    pub width: int,
    pub height: int,
    pub walls: Set<Pos>,
}

impl Terrain {
    /// The extent is one that a [`GridMap`] can have.
    pub open spec fn wf(self) -> bool {
        &&& 0 <= self.width <= i32::MAX
        &&& 0 <= self.height <= i32::MAX
        &&& self.width * self.height <= MAX_CELLS
    }

    /// The cell lies on the grid.
    pub open spec fn contains(self, cell: Pos) -> bool {
        &&& 0 <= cell.0 < self.width
        &&& 0 <= cell.1 < self.height
    }

    /// The cell lies on the grid and no wall stands on it.
    pub open spec fn open_at(self, cell: Pos) -> bool {
        self.contains(cell) && !self.walls.contains(cell)
    }

    /// No cell of the grid is blocked.
    pub open spec fn obstacle_free(self) -> bool {
        forall|cell: Pos| self.contains(cell) ==> !self.walls.contains(cell)
    }

    /// The number of cells.
    pub open spec fn area(self) -> int {
        self.width * self.height
    }

    /// The place of a cell in a row-by-row numbering of the grid.
    pub open spec fn index_of(self, cell: Pos) -> int {
        cell.1 * self.width + cell.0
    }
}

/// The numbering of the cells is one-to-one and stays below the area.
pub proof fn lemma_index_of(t: Terrain, a: Pos, b: Pos)
    requires
        t.contains(a),
        t.contains(b),
    ensures
        0 <= t.index_of(a) < t.area(),
        t.index_of(a) == t.index_of(b) ==> a == b,
{
    let w = t.width;
    let h = t.height;
    assert(0 <= a.1 * w + a.0 < w * h) by (nonlinear_arith)
        requires
            0 <= a.0 < w,
            0 <= a.1 < h,
    ;
    if t.index_of(a) == t.index_of(b) {
        assert(a.1 == b.1) by (nonlinear_arith)
            requires
                0 <= a.0 < w,
                0 <= b.0 < w,
                a.1 * w + a.0 == b.1 * w + b.0,
        ;
        assert(a.0 == b.0);
    }
}

/// The grid of a level: `width` columns, `height` rows, and the cells on
/// which a wall stands. Walls outside the grid are kept and have no effect.
#[derive(Debug)]
pub struct GridMap {
    width: i32,
    height: i32,
    walls: Vec<Pos>,
}

impl View for GridMap {
    type V = Terrain;

    closed spec fn view(&self) -> Terrain {
        Terrain { width: self.width as int, height: self.height as int, walls: self.walls@.to_set() }
    }
}

impl GridMap {
    #[verifier::type_invariant]
    spec fn inv(self) -> bool {
        self@.wf()
    }

    /// A grid of the given extent. There is none where a side is negative
    /// or the grid would have more than [`MAX_CELLS`] cells.
    pub fn new(width: i32, height: i32, walls: Vec<Pos>) -> (made: Option<GridMap>)
        ensures
            made is Some <==> (Terrain { width: width as int, height: height as int, walls: walls@.to_set() }).wf(),
            made matches Some(map) ==> map@ == (Terrain {
                width: width as int,
                height: height as int,
                walls: walls@.to_set(),
            }) && map.walls_view() == walls@,
    {
        if width < 0 || height < 0 {
            return None;
        }
        assert(0 <= width * height <= 0x7FFF_FFFF * 0x7FFF_FFFF) by (nonlinear_arith)
            requires
                0 <= width <= 0x7FFF_FFFF,
                0 <= height <= 0x7FFF_FFFF,
        ;
        let cells: u64 = (width as u64) * (height as u64);
        if cells > MAX_CELLS {
            return None;
        }
        Some(GridMap { width, height, walls })
    }

    /// The wall cells in the order in which they were given.
    pub closed spec fn walls_view(&self) -> Seq<Pos> {
        self.walls@
    }

    /// The view of a grid is well formed, and its walls are those of the list.
    pub proof fn lemma_view(&self)
        ensures
            self@.walls == self.walls_view().to_set(),
    {
    }

    /// Number of columns.
    pub fn width(&self) -> (w: i32)
        ensures
            w == self@.width,
            self@.wf(),
    {
        proof {
            use_type_invariant(self);
        }
        self.width
    }

    /// Number of rows.
    pub fn height(&self) -> (h: i32)
        ensures
            h == self@.height,
            self@.wf(),
    {
        proof {
            use_type_invariant(self);
        }
        self.height
    }

    /// The wall cells.
    pub fn walls(&self) -> (walls: &Vec<Pos>)
        ensures
            walls@ == self.walls_view(),
            walls@.to_set() == self@.walls,
    {
        &self.walls
    }

    /// Number of cells.
    pub fn area(&self) -> (n: usize)
        ensures
            n == self@.area(),
            self@.wf(),
    {
        proof {
            use_type_invariant(self);
            assert(0 <= self.width * self.height) by (nonlinear_arith)
                requires
                    0 <= self.width,
                    0 <= self.height,
            ;
        }
        ((self.width as u64) * (self.height as u64)) as usize
    }

    /// Whether the cell lies on the grid.
    pub fn contains(&self, cell: &Pos) -> (inside: bool)
        ensures
            inside == self@.contains(*cell),
    {
        0 <= cell.0 && cell.0 < self.width && 0 <= cell.1 && cell.1 < self.height
    }

    /// Whether the cell lies on the grid and is free of walls.
    pub fn is_open(&self, cell: &Pos) -> (open: bool)
        ensures
            open == self@.open_at(*cell),
    {
        self.contains(cell) && !is_wall(self.walls.as_slice(), cell)
    }

    /// The place of a cell of the grid in the row-by-row numbering.
    pub fn index_of(&self, cell: &Pos) -> (i: usize)
        requires
            self@.contains(*cell),
        ensures
            i == self@.index_of(*cell),
            i < self@.area(),
    {
        proof {
            use_type_invariant(self);
            lemma_index_of(self@, *cell, *cell);
        }
        ((cell.1 as u64) * (self.width as u64) + (cell.0 as u64)) as usize
    }
}

} // verus!
