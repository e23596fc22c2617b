//! The colliders of the walls of a level: the wall tiles are merged into
//! as few rectangles as a row-by-row sweep finds, so that one collider
//! stands for many tiles.

use crate::map::grid::{GridMap, Terrain};
use crate::utils::position::{is_wall, Pos};
use vstd::prelude::*;

verus! {

/// A run of wall tiles in one row: the columns `left` to `right`, both
/// included.
#[derive(Copy, Clone, Eq, PartialEq, Debug, Default, Hash, Structural)]
pub struct Plate {
    pub left: i32,
    pub right: i32,
}

/// A rectangle of wall tiles: the columns `left` to `right` and the rows
/// `bottom` to `top`, all included.
#[derive(Copy, Clone, Eq, PartialEq, Debug, Default, Hash, Structural)]
pub struct Rect {
    pub left: i32,
    pub right: i32,
    pub top: i32,
    pub bottom: i32,
}

/// A wall stands on the tile in column `x` of row `y` of the grid.
pub open spec fn wall_at(t: Terrain, x: int, y: int) -> bool {
    &&& 0 <= x < t.width
    &&& 0 <= y < t.height
    &&& t.walls.contains(Pos(x as i32, y as i32))
}

/// The columns `left` to `right` of row `y` are a plate: all of them are
/// walls, and the run can be extended to neither side.
pub open spec fn is_plate(t: Terrain, y: int, left: int, right: int) -> bool {
    &&& left <= right
    &&& forall|x: int| left <= x <= right ==> #[trigger] wall_at(t, x, y)
    &&& !wall_at(t, left - 1, y)
    &&& !wall_at(t, right + 1, y)
}

/// The same plate lies on each of the rows `bottom` to `top`, and not on
/// the row below them.
pub open spec fn is_stack(t: Terrain, left: int, right: int, bottom: int, top: int) -> bool {
    &&& bottom <= top
    &&& forall|y: int| bottom <= y <= top ==> #[trigger] is_plate(t, y, left, right)
    &&& !is_plate(t, bottom - 1, left, right)
}

/// The rectangle is one of the wall rectangles of the grid: a plate that
/// repeats on each of its rows, and on neither the row below nor the row
/// above.
pub open spec fn is_wall_rect(t: Terrain, rect: Rect) -> bool {
    &&& is_stack(t, rect.left as int, rect.right as int, rect.bottom as int, rect.top as int)
    &&& !is_plate(t, rect.top + 1, rect.left as int, rect.right as int)
}

/// A sequence with one more element holds what it held and that element.
proof fn lemma_push_contains<A>(s: Seq<A>, a: A, x: A)
    ensures
        s.push(a).contains(x) <==> (s.contains(x) || x == a),
{
    let longer = s.push(a);
    if s.contains(x) {
        let i = choose|i: int| 0 <= i < s.len() && s[i] == x;
        assert(longer[i] == x);
    }
    if x == a {
        assert(longer[s.len() as int] == x);
    }
    if longer.contains(x) {
        let i = choose|i: int| 0 <= i < longer.len() && longer[i] == x;
        if i < s.len() {
            assert(s[i] == x);
        }
    }
}

/// A plate lies on rows of the grid only, within its columns.
pub proof fn lemma_plate_on_grid(t: Terrain, y: int, left: int, right: int)
    requires
        is_plate(t, y, left, right),
    ensures
        0 <= y < t.height,
        0 <= left <= right < t.width,
{
    assert(wall_at(t, left, y));
    assert(wall_at(t, right, y));
}

/// Below every plate the stack of its repetitions has a bottom row.
pub proof fn lemma_stack_below(t: Terrain, left: int, right: int, top: int) -> (bottom: int)
    requires
        is_plate(t, top, left, right),
    ensures
        0 <= bottom <= top,
        is_stack(t, left, right, bottom, top),
    decreases top,
{
    lemma_plate_on_grid(t, top, left, right);
    if is_plate(t, top - 1, left, right) {
        lemma_plate_on_grid(t, top - 1, left, right);
        let bottom = lemma_stack_below(t, left, right, top - 1);
        assert forall|y: int| bottom <= y <= top implies #[trigger] is_plate(t, y, left, right) by {
            if y < top {
                assert(is_plate(t, y, left, right));
            }
        }
        bottom
    } else {
        top
    }
}

/// Two stacks of one plate that end on the same row begin on the same row.
pub proof fn lemma_stack_bottom_unique(t: Terrain, left: int, right: int, a: int, b: int, top: int)
    requires
        is_stack(t, left, right, a, top),
        is_stack(t, left, right, b, top),
    ensures
        a == b,
{
    if a < b {
        assert(is_plate(t, b - 1, left, right));
    }
    if b < a {
        assert(is_plate(t, a - 1, left, right));
    }
}

/// Above every plate the stack of its repetitions has a top row.
pub proof fn lemma_stack_above(t: Terrain, left: int, right: int, bottom: int) -> (top: int)
    requires
        is_plate(t, bottom, left, right),
    ensures
        bottom <= top < t.height,
        forall|y: int| bottom <= y <= top ==> #[trigger] is_plate(t, y, left, right),
        !is_plate(t, top + 1, left, right),
    decreases t.height - bottom,
{
    lemma_plate_on_grid(t, bottom, left, right);
    if is_plate(t, bottom + 1, left, right) {
        lemma_plate_on_grid(t, bottom + 1, left, right);
        let top = lemma_stack_above(t, left, right, bottom + 1);
        assert forall|y: int| bottom <= y <= top implies #[trigger] is_plate(t, y, left, right) by {
            if y > bottom {
                assert(is_plate(t, y, left, right));
            }
        }
        top
    } else {
        bottom
    }
}

/// The run of wall tiles that holds the tile in column `x` of row `y` has
/// a first column.
pub proof fn lemma_run_left(t: Terrain, x: int, y: int) -> (left: int)
    requires
        wall_at(t, x, y),
    ensures
        0 <= left <= x,
        forall|c: int| left <= c <= x ==> #[trigger] wall_at(t, c, y),
        !wall_at(t, left - 1, y),
    decreases x,
{
    if wall_at(t, x - 1, y) {
        let left = lemma_run_left(t, x - 1, y);
        assert forall|c: int| left <= c <= x implies #[trigger] wall_at(t, c, y) by {
            if c < x {
                assert(wall_at(t, c, y));
            }
        }
        left
    } else {
        x
    }
}

/// The run of wall tiles that holds the tile in column `x` of row `y` has
/// a last column.
pub proof fn lemma_run_right(t: Terrain, x: int, y: int) -> (right: int)
    requires
        wall_at(t, x, y),
    ensures
        x <= right < t.width,
        forall|c: int| x <= c <= right ==> #[trigger] wall_at(t, c, y),
        !wall_at(t, right + 1, y),
    decreases t.width - x,
{
    if wall_at(t, x + 1, y) {
        let right = lemma_run_right(t, x + 1, y);
        assert forall|c: int| x <= c <= right implies #[trigger] wall_at(t, c, y) by {
            if c > x {
                assert(wall_at(t, c, y));
            }
        }
        right
    } else {
        x
    }
}

/// The tile in column `x` of row `y` lies within the rectangle.
pub open spec fn covers(rect: Rect, x: int, y: int) -> bool {
    &&& rect.left <= x <= rect.right
    &&& rect.bottom <= y <= rect.top
}

/// A wall rectangle covers wall tiles only.
pub proof fn lemma_wall_rect_is_wall(t: Terrain, rect: Rect, x: int, y: int)
    requires
        is_wall_rect(t, rect),
        covers(rect, x, y),
    ensures
        wall_at(t, x, y),
{
    assert(is_plate(t, y, rect.left as int, rect.right as int));
    assert(wall_at(t, x, y));
}

/// Every wall tile of the grid is covered by a wall rectangle.
pub proof fn lemma_wall_is_covered(t: Terrain, x: int, y: int) -> (rect: Rect)
    requires
        t.wf(),
        wall_at(t, x, y),
    ensures
        is_wall_rect(t, rect),
        covers(rect, x, y),
{
    let left = lemma_run_left(t, x, y);
    let right = lemma_run_right(t, x, y);
    assert forall|c: int| left <= c <= right implies #[trigger] wall_at(t, c, y) by {
        if c <= x {
            assert(wall_at(t, c, y));
        } else {
            assert(wall_at(t, c, y));
        }
    }
    assert(is_plate(t, y, left, right));
    let bottom = lemma_stack_below(t, left, right, y);
    let top = lemma_stack_above(t, left, right, y);
    assert forall|row: int| bottom <= row <= top implies #[trigger] is_plate(t, row, left, right) by {
        if row <= y {
            assert(is_plate(t, row, left, right));
        } else {
            assert(is_plate(t, row, left, right));
        }
    }
    Rect { left: left as i32, right: right as i32, top: top as i32, bottom: bottom as i32 }
}

/// No tile is covered by two wall rectangles.
pub proof fn lemma_wall_rects_disjoint(t: Terrain, a: Rect, b: Rect, x: int, y: int)
    requires
        is_wall_rect(t, a),
        is_wall_rect(t, b),
        covers(a, x, y),
        covers(b, x, y),
    ensures
        a == b,
{
    assert(is_plate(t, y, a.left as int, a.right as int));
    assert(is_plate(t, y, b.left as int, b.right as int));
    if a.left < b.left {
        assert(wall_at(t, b.left - 1, y));
    }
    if b.left < a.left {
        assert(wall_at(t, a.left - 1, y));
    }
    if a.right < b.right {
        assert(wall_at(t, a.right + 1, y));
    }
    if b.right < a.right {
        assert(wall_at(t, b.right + 1, y));
    }
    if a.bottom < b.bottom {
        assert(is_plate(t, b.bottom - 1, a.left as int, a.right as int));
    }
    if b.bottom < a.bottom {
        assert(is_plate(t, a.bottom - 1, b.left as int, b.right as int));
    }
    if a.top < b.top {
        assert(is_plate(t, a.top + 1, b.left as int, b.right as int));
    }
    if b.top < a.top {
        assert(is_plate(t, b.top + 1, a.left as int, a.right as int));
    }
}

/// `row` holds the plates of row `y`, each once, from left to right.
pub open spec fn row_ok(t: Terrain, y: int, row: Seq<Plate>) -> bool {
    &&& forall|p: Plate| #[trigger] row.contains(p) <==> is_plate(t, y, p.left as int, p.right as int)
    &&& forall|i: int, j: int| 0 <= i < j < row.len() ==> (#[trigger] row[i]).right < (#[trigger] row[j]).left
}

/// The plates of row `y`, from left to right.
pub fn row_plates(map: &GridMap, y: i32) -> (row: Vec<Plate>)
    requires
        0 <= y < map@.height,
    ensures
        row_ok(map@, y as int, row@),
{
    let ghost t = map@;
    let width: i32 = map.width();
    let mut row: Vec<Plate> = Vec::new();
    let mut start: Option<i32> = None;
    let mut x: i32 = 0;
    proof {
        map.lemma_view();
        assert forall|p: Plate| #[trigger]
            row@.contains(p) <==> is_plate(t, y as int, p.left as int, p.right as int) && p.right
                + 1 < 0 by {
            if is_plate(t, y as int, p.left as int, p.right as int) {
                lemma_plate_on_grid(t, y as int, p.left as int, p.right as int);
            }
        }
    }
    while x < width
        invariant
            0 <= x <= width,
            width == t.width,
            t == map@,
            t.wf(),
            0 <= y < t.height,
            t.walls == map.walls_view().to_set(),
            forall|p: Plate| #[trigger]
                row@.contains(p) <==> is_plate(t, y as int, p.left as int, p.right as int)
                    && p.right + 1 < x,
            forall|i: int, j: int|
                0 <= i < j < row@.len() ==> (#[trigger] row@[i]).right < (#[trigger] row@[j]).left,
            match start {
                Some(s) => {
                    &&& 0 <= s < x
                    &&& !wall_at(t, s - 1, y as int)
                    &&& forall|c: int| s <= c < x ==> #[trigger] wall_at(t, c, y as int)
                    &&& forall|i: int| 0 <= i < row@.len() ==> (#[trigger] row@[i]).right < s
                },
                None => {
                    &&& x > 0 ==> !wall_at(t, x - 1, y as int)
                    &&& forall|i: int| 0 <= i < row@.len() ==> (#[trigger] row@[i]).right < x
                },
            },
        decreases width - x,
    {
        let wall: bool = is_wall(map.walls().as_slice(), &Pos(x, y));
        assert(wall == wall_at(t, x as int, y as int));
        let ghost before = row@;
        match start {
            Some(s) => {
                if !wall {
                    let plate = Plate { left: s, right: x - 1 };
                    row.push(plate);
                    start = None;
                    proof {
                        assert(is_plate(t, y as int, s as int, x - 1));
                        assert forall|p: Plate| #[trigger]
                            row@.contains(p) <==> is_plate(
                                t,
                                y as int,
                                p.left as int,
                                p.right as int,
                            ) && p.right + 1 < x + 1 by {
                            lemma_push_contains(before, plate, p);
                            if is_plate(t, y as int, p.left as int, p.right as int) && p.right + 1
                                == x {
                                assert(wall_at(t, p.left as int, y as int));
                                if p.left < s {
                                    assert(wall_at(t, s - 1, y as int));
                                }
                                if p.left > s {
                                    assert(wall_at(t, p.left - 1, y as int));
                                }
                            }
                        }
                    }
                } else {
                    proof {
                        assert forall|p: Plate| #[trigger]
                            row@.contains(p) <==> is_plate(
                                t,
                                y as int,
                                p.left as int,
                                p.right as int,
                            ) && p.right + 1 < x + 1 by {
                        }
                    }
                }
            },
            None => {
                if wall {
                    start = Some(x);
                }
                proof {
                    assert forall|p: Plate| #[trigger]
                        row@.contains(p) <==> is_plate(t, y as int, p.left as int, p.right as int)
                            && p.right + 1 < x + 1 by {
                        if is_plate(t, y as int, p.left as int, p.right as int) && p.right + 1
                            == x {
                            assert(wall_at(t, p.right as int, y as int));
                        }
                    }
                }
            },
        }
        x += 1;
    }
    let ghost before = row@;
    match start {
        Some(s) => {
            let plate = Plate { left: s, right: width - 1 };
            row.push(plate);
            proof {
                assert(is_plate(t, y as int, s as int, width - 1));
                assert forall|p: Plate| #[trigger]
                    row@.contains(p) <==> is_plate(t, y as int, p.left as int, p.right as int) by {
                    lemma_push_contains(before, plate, p);
                    if is_plate(t, y as int, p.left as int, p.right as int) {
                        lemma_plate_on_grid(t, y as int, p.left as int, p.right as int);
                        if p.right + 1 == width {
                            assert(wall_at(t, p.left as int, y as int));
                            if p.left < s {
                                assert(wall_at(t, s - 1, y as int));
                            }
                            if p.left > s {
                                assert(wall_at(t, p.left - 1, y as int));
                            }
                        }
                    }
                }
            }
        },
        None => {
            proof {
                assert forall|p: Plate| #[trigger]
                    row@.contains(p) <==> is_plate(t, y as int, p.left as int, p.right as int) by {
                    if is_plate(t, y as int, p.left as int, p.right as int) {
                        lemma_plate_on_grid(t, y as int, p.left as int, p.right as int);
                        if p.right + 1 == width {
                            assert(wall_at(t, p.right as int, y as int));
                        }
                    }
                }
            }
        },
    }
    row
}

/// `open` holds the stacks that end on row `y - 1`, each once.
spec fn open_ok(t: Terrain, y: int, open: Seq<Rect>) -> bool {
    &&& forall|r: Rect| #[trigger]
        open.contains(r) <==> r.top == y - 1 && is_stack(
            t,
            r.left as int,
            r.right as int,
            r.bottom as int,
            r.top as int,
        )
    &&& forall|i: int, j: int|
        0 <= i < j < open.len() ==> (#[trigger] open[i]).right < (#[trigger] open[j]).left
}

/// The rectangle `a` ends on a lower row than `b`, or on the same row
/// and further to the left.
pub open spec fn ends_before(a: Rect, b: Rect) -> bool {
    a.top < b.top || (a.top == b.top && a.left < b.left)
}

/// The rectangles stand in the order in which a sweep over the rows, each
/// from left to right, finishes them.
pub open spec fn in_sweep_order(rects: Seq<Rect>) -> bool {
    forall|i: int, j: int|
        0 <= i < j < rects.len() ==> ends_before(#[trigger] rects[i], #[trigger] rects[j])
}

/// Rectangles in the order of the sweep are all different.
pub proof fn lemma_sweep_order_no_duplicates(rects: Seq<Rect>)
    requires
        in_sweep_order(rects),
    ensures
        rects.no_duplicates(),
{
    assert forall|i: int, j: int| 0 <= i < rects.len() && 0 <= j < rects.len() && i != j implies rects[i]
        != rects[j] by {
        if i < j {
            assert(ends_before(rects[i], rects[j]));
        } else {
            assert(ends_before(rects[j], rects[i]));
        }
    }
}

/// `done` holds the wall rectangles that end below row `y - 1`, in the
/// order of the sweep.
spec fn done_ok(t: Terrain, y: int, done: Seq<Rect>) -> bool {
    &&& forall|r: Rect| #[trigger] done.contains(r) <==> is_wall_rect(t, r) && r.top < y - 1
    &&& in_sweep_order(done)
}

/// The place of the rectangle over the columns of `plate`, if there is one.
fn find_rect(open: &Vec<Rect>, plate: &Plate) -> (found: Option<usize>)
    ensures
        match found {
            Some(i) => i < open@.len() && open@[i as int].left == plate.left && open@[i as int].right
                == plate.right,
            None => forall|i: int|
                0 <= i < open@.len() ==> !((#[trigger] open@[i]).left == plate.left && open@[i].right
                    == plate.right),
        },
{
    let mut i: usize = 0;
    while i < open.len()
        invariant
            i <= open.len(),
            forall|k: int|
                0 <= k < i ==> !((#[trigger] open@[k]).left == plate.left && open@[k].right
                    == plate.right),
        decreases open.len() - i,
    {
        if open[i].left == plate.left && open[i].right == plate.right {
            return Some(i);
        }
        i += 1;
    }
    None
}

/// Whether the plate over the columns `left` to `right` is in `row`.
fn has_plate(row: &Vec<Plate>, left: i32, right: i32) -> (found: bool)
    ensures
        found == row@.contains(Plate { left, right }),
{
    let mut i: usize = 0;
    while i < row.len()
        invariant
            i <= row.len(),
            forall|k: int| 0 <= k < i ==> row@[k] != (Plate { left, right }),
        decreases row.len() - i,
    {
        if row[i].left == left && row[i].right == right {
            return true;
        }
        i += 1;
    }
    false
}

/// Takes the plates of row `y` into account. The stacks that end on the
/// row below either go on, where their plate repeats on row `y`, or are
/// finished and go to `done`; a plate without a stack below begins one.
/// The result holds the stacks that end on row `y`.
fn close_row(map: &GridMap, y: i32, row: &Vec<Plate>, open: &Vec<Rect>, done: &mut Vec<Rect>) -> (next:
    Vec<Rect>)
    requires
        0 <= y <= map@.height,
        map@.wf(),
        row_ok(map@, y as int, row@),
        open_ok(map@, y as int, open@),
        done_ok(map@, y as int, old(done)@),
    ensures
        open_ok(map@, y + 1, next@),
        done_ok(map@, y + 1, final(done)@),
{
    let ghost t = map@;
    let mut next: Vec<Rect> = Vec::new();
    let mut k: usize = 0;
    while k < row.len()
        invariant
            k <= row.len(),
            t == map@,
            0 <= y <= t.height,
            t.wf(),
            row_ok(t, y as int, row@),
            open_ok(t, y as int, open@),
            next@.len() == k,
            forall|j: int|
                0 <= j < k ==> {
                    &&& (#[trigger] next@[j]).left == row@[j].left
                    &&& next@[j].right == row@[j].right
                    &&& next@[j].top == y
                    &&& is_stack(
                        t,
                        next@[j].left as int,
                        next@[j].right as int,
                        next@[j].bottom as int,
                        y as int,
                    )
                },
        decreases row.len() - k,
    {
        let plate: Plate = row[k];
        proof {
            assert(row@.contains(plate));
            assert(is_plate(t, y as int, plate.left as int, plate.right as int));
            lemma_plate_on_grid(t, y as int, plate.left as int, plate.right as int);
        }
        let rect: Rect = match find_rect(open, &plate) {
            Some(i) => {
                let below: Rect = open[i];
                proof {
                    assert(open@.contains(below));
                    assert forall|row_y: int| below.bottom <= row_y <= y implies #[trigger] is_plate(
                        t,
                        row_y,
                        plate.left as int,
                        plate.right as int,
                    ) by {
                        if row_y < y {
                            assert(is_plate(t, row_y, below.left as int, below.right as int));
                        }
                    }
                }
                Rect { left: below.left, right: below.right, top: y, bottom: below.bottom }
            },
            None => {
                proof {
                    if is_plate(t, y - 1, plate.left as int, plate.right as int) {
                        let bottom = lemma_stack_below(
                            t,
                            plate.left as int,
                            plate.right as int,
                            y - 1,
                        );
                        let below = Rect {
                            left: plate.left,
                            right: plate.right,
                            top: (y - 1) as i32,
                            bottom: bottom as i32,
                        };
                        assert(open@.contains(below));
                        let i = choose|i: int| 0 <= i < open@.len() && open@[i] == below;
                        assert(open@[i].left == plate.left);
                    }
                }
                Rect { left: plate.left, right: plate.right, top: y, bottom: y }
            },
        };
        next.push(rect);
        k += 1;
    }
    proof {
        assert forall|r: Rect| #[trigger]
            next@.contains(r) <==> r.top == y + 1 - 1 && is_stack(
                t,
                r.left as int,
                r.right as int,
                r.bottom as int,
                r.top as int,
            ) by {
            if r.top == y && is_stack(
                t,
                r.left as int,
                r.right as int,
                r.bottom as int,
                r.top as int,
            ) {
                assert(is_plate(t, y as int, r.left as int, r.right as int));
                let plate = Plate { left: r.left, right: r.right };
                assert(row@.contains(plate));
                let j = choose|j: int| 0 <= j < row@.len() && row@[j] == plate;
                lemma_stack_bottom_unique(
                    t,
                    r.left as int,
                    r.right as int,
                    r.bottom as int,
                    next@[j].bottom as int,
                    y as int,
                );
                assert(next@[j] == r);
            }
        }
        assert forall|i: int, j: int| 0 <= i < j < next@.len() implies (#[trigger] next@[i]).right < (
        #[trigger] next@[j]).left by {
            assert(row@[i].right < row@[j].left);
        }
    }
    let ghost before = done@;
    let mut i: usize = 0;
    while i < open.len()
        invariant
            i <= open.len(),
            t == map@,
            row_ok(t, y as int, row@),
            open_ok(t, y as int, open@),
            done_ok(t, y as int, before),
            forall|r: Rect| #[trigger]
                done@.contains(r) <==> before.contains(r) || ended(t, y as int, open@, i as int, r),
            in_sweep_order(done@),
        decreases open.len() - i,
    {
        let rect: Rect = open[i];
        let ghost so_far = done@;
        proof {
            assert(open@.contains(rect));
        }
        if !has_plate(row, rect.left, rect.right) {
            done.push(rect);
            proof {
                assert forall|a: int, b: int| 0 <= a < b < done@.len() implies ends_before(
                    #[trigger] done@[a],
                    #[trigger] done@[b],
                ) by {
                    if b == so_far.len() {
                        let earlier = so_far[a];
                        assert(so_far.contains(earlier));
                        if !before.contains(earlier) {
                            let j = choose|j: int|
                                0 <= j < i && open@[j] == earlier && !is_plate(
                                    t,
                                    y as int,
                                    earlier.left as int,
                                    earlier.right as int,
                                );
                            assert(open@.contains(earlier));
                            assert(is_plate(
                                t,
                                earlier.top as int,
                                earlier.left as int,
                                earlier.right as int,
                            ));
                            assert(open@[j].right < open@[i as int].left);
                        }
                    } else {
                        assert(ends_before(so_far[a], so_far[b]));
                    }
                }
            }
        }
        proof {
            assert(row@.contains(Plate { left: rect.left, right: rect.right }) <==> is_plate(
                t,
                y as int,
                rect.left as int,
                rect.right as int,
            ));
            assert forall|r: Rect| #[trigger]
                done@.contains(r) <==> before.contains(r) || ended(
                    t,
                    y as int,
                    open@,
                    i + 1,
                    r,
                ) by {
                if done@.len() > so_far.len() {
                    lemma_push_contains(so_far, rect, r);
                }
                if ended(t, y as int, open@, i + 1, r) {
                    let j = choose|j: int|
                        0 <= j < i + 1 && open@[j] == r && !is_plate(
                            t,
                            y as int,
                            r.left as int,
                            r.right as int,
                        );
                    if j < i {
                        assert(ended(t, y as int, open@, i as int, r));
                    }
                }
                if ended(t, y as int, open@, i as int, r) {
                    let j = choose|j: int|
                        0 <= j < i && open@[j] == r && !is_plate(
                            t,
                            y as int,
                            r.left as int,
                            r.right as int,
                        );
                    assert(0 <= j < i + 1);
                }
            }
        }
        i += 1;
    }
    proof {
        assert forall|r: Rect| #[trigger]
            done@.contains(r) <==> is_wall_rect(t, r) && r.top < y + 1 - 1 by {
            if ended(t, y as int, open@, open@.len() as int, r) {
                let j = choose|j: int|
                    0 <= j < open@.len() && open@[j] == r && !is_plate(
                        t,
                        y as int,
                        r.left as int,
                        r.right as int,
                    );
                assert(open@.contains(r));
            }
            if is_wall_rect(t, r) && r.top == y - 1 {
                assert(open@.contains(r));
                let j = choose|j: int| 0 <= j < open@.len() && open@[j] == r;
                assert(ended(t, y as int, open@, open@.len() as int, r));
            }
        }
    }
    next
}

/// One of the first `upto` stacks of `open` is `rect`, and its plate does
/// not repeat on row `y`.
spec fn ended(t: Terrain, y: int, open: Seq<Rect>, upto: int, rect: Rect) -> bool {
    exists|j: int|
        0 <= j < upto && open[j] == rect && !is_plate(t, y, rect.left as int, rect.right as int)
}

/// The rectangles that the colliders of the walls are made of.
///
/// The wall tiles of each row are first joined into plates, the longest
/// runs of wall tiles in the row. Plates over the same columns on rows that
/// follow one another are then joined into one rectangle. The result holds
/// each such rectangle once, and nothing else, in the order in which a
/// sweep over the rows finishes them: by the row they end on, and within a
/// row from left to right.
pub fn spawn_wall_collision(map: &GridMap) -> (rects: Vec<Rect>)
    ensures
        forall|r: Rect| #[trigger] rects@.contains(r) <==> is_wall_rect(map@, r),
        in_sweep_order(rects@),
{
    let ghost t = map@;
    let height: i32 = map.height();
    let mut done: Vec<Rect> = Vec::new();
    let mut open: Vec<Rect> = Vec::new();
    let mut y: i32 = 0;
    proof {
        assert forall|r: Rect| #[trigger]
            open@.contains(r) <==> r.top == 0 - 1 && is_stack(
                t,
                r.left as int,
                r.right as int,
                r.bottom as int,
                r.top as int,
            ) by {
            if r.top == -1 && is_stack(
                t,
                r.left as int,
                r.right as int,
                r.bottom as int,
                r.top as int,
            ) {
                assert(is_plate(t, r.top as int, r.left as int, r.right as int));
                lemma_plate_on_grid(t, r.top as int, r.left as int, r.right as int);
            }
        }
        assert forall|r: Rect| #[trigger] done@.contains(r) <==> is_wall_rect(t, r) && r.top < 0
            - 1 by {
            if is_wall_rect(t, r) {
                assert(is_plate(t, r.top as int, r.left as int, r.right as int));
                lemma_plate_on_grid(t, r.top as int, r.left as int, r.right as int);
            }
        }
    }
    while y < height
        invariant
            0 <= y <= height,
            height == t.height,
            t == map@,
            t.wf(),
            open_ok(t, y as int, open@),
            done_ok(t, y as int, done@),
        decreases height - y,
    {
        let row: Vec<Plate> = row_plates(map, y);
        open = close_row(map, y, &row, &open, &mut done);
        y += 1;
    }
    let last: Vec<Plate> = Vec::new();
    proof {
        assert forall|p: Plate| #[trigger]
            last@.contains(p) <==> is_plate(t, height as int, p.left as int, p.right as int) by {
            if is_plate(t, height as int, p.left as int, p.right as int) {
                lemma_plate_on_grid(t, height as int, p.left as int, p.right as int);
            }
        }
    }
    let _ = close_row(map, height, &last, &open, &mut done);
    proof {
        assert forall|r: Rect| #[trigger] done@.contains(r) <==> is_wall_rect(t, r) by {
            if is_wall_rect(t, r) {
                assert(is_plate(t, r.top as int, r.left as int, r.right as int));
                lemma_plate_on_grid(t, r.top as int, r.left as int, r.right as int);
            }
        }
    }
    done
}

} // verus!
