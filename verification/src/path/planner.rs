//! The path planner: A* over the four-connected grid of a level, with unit
//! cost per move and the Manhattan distance to the goal as its estimate.
//!
//! The search expands the cells in the order of their cost plus estimate.
//! Once the goal has been closed it goes on for as long as cells wait whose
//! priority is no more than the cost of the goal. Every cell of every
//! shortest path is closed by then, so that the path can be read back
//! from the goal by the recorded costs alone, and the choice among paths
//! of equal length does not depend on the order in which the queue gave
//! the cells out.

use crate::map::grid::{lemma_index_of, GridMap, Terrain};
use crate::path::frontier::Frontier;
use crate::path::route::{
    comes_from, distance, first_before, first_route, is_distance, is_plan, is_route,
    lemma_distance, lemma_distance_unique, lemma_first_before, lemma_first_route,
    lemma_manhattan_step, lemma_open_grid_has_plan, lemma_planned_is_plan, lemma_route_on_grid,
    lemma_route_push, lemma_route_slack, lemma_shortest_route_on_open_grid, planned, reachable,
    step_ok,
};
use crate::utils::position::Pos;
use vstd::prelude::*;
use vstd::set_lib::{lemma_int_range, lemma_len_subset, set_int_range};

verus! {

/// No route from `start` to `cell` makes fewer than `cost` moves.
pub open spec fn no_shorter(t: Terrain, start: Pos, cell: Pos, cost: int) -> bool {
    forall|cells: Seq<Pos>| #[trigger] is_route(t, start, cell, cells) ==> cells.len() >= cost + 1
}

/// A vector of `n` copies of `value`.
fn filled<T: Copy>(n: usize, value: T) -> (out: Vec<T>)
    ensures
        out@.len() == n,
        forall|i: int| 0 <= i < n ==> out@[i] == value,
{
    let mut out: Vec<T> = Vec::new();
    let mut i: usize = 0;
    while i < n
        invariant
            i <= n,
            out@.len() == i,
            forall|k: int| 0 <= k < i ==> out@[k] == value,
        decreases n - i,
    {
        out.push(value);
        i += 1;
    }
    out
}

/// The state of one search.
struct Search<'a> {
    map: &'a GridMap,
    start: Pos,
    goal: Pos,
    /// The least number of moves found so far to each cell, by cell number.
    cost: Vec<Option<u32>>,
    /// The cells that have been expanded.
    closed: Vec<bool>,
    open: Frontier,
    /// For each reached cell, a route to it of the recorded cost.
    routes: Ghost<Seq<Seq<Pos>>>,
    /// The numbers of the expanded cells.
    done: Ghost<Set<int>>,
}

impl<'a> Search<'a> {
    spec fn slot(&self, cell: Pos) -> int {
        self.map@.index_of(cell)
    }

    spec fn cost_at(&self, cell: Pos) -> Option<u32> {
        self.cost@[self.slot(cell)]
    }

    spec fn closed_at(&self, cell: Pos) -> bool {
        self.closed@[self.slot(cell)]
    }

    spec fn estimate(&self, cell: Pos) -> int {
        cell.manhattan(self.goal)
    }

    /// The tables have one place per cell, and `done` numbers the closed ones.
    spec fn shape(&self) -> bool {
        let t = self.map@;
        &&& t.wf()
        &&& t.contains(self.start)
        &&& t.contains(self.goal)
        &&& self.cost@.len() == t.area()
        &&& self.closed@.len() == t.area()
        &&& self.routes@.len() == t.area()
        &&& self.done@.finite()
        &&& forall|i: int| #[trigger] self.done@.contains(i) ==> 0 <= i < t.area() && self.closed@[i]
        &&& forall|i: int| 0 <= i < t.area() && #[trigger] self.closed@[i] ==> self.done@.contains(i)
        &&& self.cost_at(self.start) == Some(0u32)
        &&& self.open.wf()
    }

    /// What is recorded of `cell` is true of it.
    spec fn known_ok(&self, cell: Pos) -> bool {
        let t = self.map@;
        let i = self.slot(cell);
        match self.cost@[i] {
            None => !self.closed@[i],
            Some(c) => {
                &&& is_route(t, self.start, cell, self.routes@[i])
                &&& self.routes@[i].len() == c + 1
                &&& c <= self.done@.len()
                &&& (self.closed@[i] ==> c < self.done@.len() && no_shorter(
                    t,
                    self.start,
                    cell,
                    c as int,
                ))
                &&& (c > 0 ==> t.open_at(cell))
            },
        }
    }

    /// A reached cell that is not closed waits in the queue under its cost
    /// plus its estimate.
    spec fn queued_ok(&self, cell: Pos) -> bool {
        match self.cost_at(cell) {
            Some(c) => !self.closed_at(cell) ==> self.open@.contains(
                ((c + self.estimate(cell)) as u64, cell),
            ),
            None => true,
        }
    }

    /// `to` can be entered from the closed cell `from`.
    spec fn is_edge(&self, from: Pos, to: Pos) -> bool {
        &&& self.map@.contains(from)
        &&& self.closed_at(from)
        &&& to.adjacent(from)
        &&& self.map@.open_at(to)
    }

    /// `to` is recorded at no more than one move beyond `from`.
    spec fn edge_ok(&self, from: Pos, to: Pos) -> bool {
        match (self.cost_at(from), self.cost_at(to)) {
            (Some(a), Some(b)) => b <= a + 1,
            _ => false,
        }
    }

    /// The entry names a reached cell of the grid, under a priority that is
    /// not below the cell's present cost plus estimate.
    spec fn entry_ok(&self, entry: (u64, Pos)) -> bool {
        &&& self.map@.contains(entry.1)
        &&& match self.cost_at(entry.1) {
            Some(c) => entry.0 >= c + self.estimate(entry.1),
            None => false,
        }
    }

    /// What the tables record is true.
    spec fn tables_ok(&self) -> bool {
        &&& self.shape()
        &&& forall|cell: Pos| self.map@.contains(cell) ==> #[trigger] self.known_ok(cell)
    }

    /// The invariant of the search. While the cell `pending` is being
    /// expanded, only its moves to the cells in `handled` are accounted for.
    spec fn inv(&self, pending: Option<Pos>, handled: Set<Pos>) -> bool {
        &&& self.tables_ok()
        &&& forall|cell: Pos| self.map@.contains(cell) ==> #[trigger] self.queued_ok(cell)
        &&& forall|from: Pos, to: Pos| #[trigger]
            self.is_edge(from, to) && (pending == Some(from) ==> handled.contains(to))
                ==> self.edge_ok(from, to)
        &&& forall|entry: (u64, Pos)| #[trigger]
            self.open@.contains(entry) ==> self.entry_ok(entry)
    }

    /// The search before its first step: only `start` is reached.
    fn begin(map: &'a GridMap, start: Pos, goal: Pos) -> (made: Search<'a>)
        requires
            map@.contains(start),
            map@.contains(goal),
        ensures
            made.inv(None, Set::empty()),
            made.map == map,
            made.start == start,
            made.goal == goal,
            made.done@.len() == 0,
            forall|i: int| 0 <= i < made.closed@.len() ==> !made.closed@[i],
    {
        let n: usize = map.area();
        let at: usize = map.index_of(&start);
        let mut cost: Vec<Option<u32>> = filled(n, None);
        cost.set(at, Some(0));
        let closed: Vec<bool> = filled(n, false);
        let mut open = Frontier::new();
        let estimate: u32 = start.manhattan_distance(&goal);
        open.push(estimate as u64, start);
        let made = Search {
            map,
            start,
            goal,
            cost,
            closed,
            open,
            routes: Ghost(Seq::new(n as nat, |i: int| seq![start])),
            done: Ghost(Set::empty()),
        };
        proof {
            let t = map@;
            lemma_index_of(t, goal, goal);
            assert(made.shape());
            assert forall|cell: Pos| t.contains(cell) implies #[trigger] made.known_ok(cell) by {
                lemma_index_of(t, cell, start);
                if cell == start {
                    assert(is_route(t, start, start, seq![start]));
                }
            }
            assert forall|cell: Pos| t.contains(cell) implies #[trigger] made.queued_ok(cell) by {
                lemma_index_of(t, cell, start);
            }
            assert forall|entry: (u64, Pos)| #[trigger]
                made.open@.contains(entry) implies made.entry_ok(entry) by {
                assert(entry == (estimate as u64, start));
            }
            assert forall|from: Pos, to: Pos| #[trigger] made.is_edge(from, to) implies made.edge_ok(
                from,
                to,
            ) by {
                lemma_index_of(t, from, from);
            }
        }
        made
    }

    /// Follows a route from its start up to place `upto`. Either one of the
    /// cells met (the result is its place) is reached and not yet closed,
    /// at a recorded cost that is no more than its place; or (the result is
    /// -1) the cell at `upto` is closed at a cost of no more than `upto`.
    proof fn lemma_first_open(&self, cells: Seq<Pos>, upto: int) -> (j: int)
        requires
            self.inv(None, Set::empty()),
            is_route(self.map@, self.start, cells[cells.len() - 1], cells),
            0 <= upto < cells.len(),
        ensures
            -1 <= j <= upto,
            j >= 0 ==> self.map@.contains(cells[j]) && !self.closed_at(cells[j]) && (match self.cost_at(
                cells[j],
            ) {
                Some(c) => c <= j,
                None => false,
            }),
            j == -1 ==> self.map@.contains(cells[upto]) && self.closed_at(cells[upto]) && (
            match self.cost_at(cells[upto]) {
                Some(c) => c <= upto,
                None => false,
            }),
        decreases upto,
    {
        let t = self.map@;
        if upto == 0 {
            if self.closed_at(self.start) {
                -1
            } else {
                0
            }
        } else {
            let j = self.lemma_first_open(cells, upto - 1);
            if j >= 0 {
                j
            } else {
                let from = cells[upto - 1];
                let to = cells[upto];
                assert(step_ok(t, cells, upto));
                assert(self.is_edge(from, to));
                assert(self.edge_ok(from, to));
                if self.closed_at(to) {
                    -1
                } else {
                    upto
                }
            }
        }
    }

    /// The cell of a least entry of the queue, if it is not closed yet, is
    /// recorded at its true distance from the start.
    proof fn lemma_least_is_exact(&self, entry: (u64, Pos))
        requires
            self.inv(None, Set::empty()),
            self.open@.contains(entry),
            forall|other: (u64, Pos)| #[trigger] self.open@.contains(other) ==> entry.0 <= other.0,
            !self.closed_at(entry.1),
        ensures
            self.map@.contains(entry.1),
            match self.cost_at(entry.1) {
                Some(c) => no_shorter(self.map@, self.start, entry.1, c as int),
                None => false,
            },
    {
        let t = self.map@;
        let cell = entry.1;
        assert(self.entry_ok(entry));
        let c = self.cost_at(cell).unwrap();
        assert forall|cells: Seq<Pos>| #[trigger]
            is_route(t, self.start, cell, cells) implies cells.len() >= c + 1 by {
            let last = cells.len() - 1;
            let j = self.lemma_first_open(cells, last);
            assert(j >= 0);
            let met = cells[j];
            let cj = self.cost_at(met).unwrap();
            assert(self.queued_ok(met));
            let waiting = ((cj + self.estimate(met)) as u64, met);
            assert(self.open@.contains(waiting));
            assert(entry.0 <= waiting.0);
            lemma_route_slack(t, cells, j, last, self.goal);
        }
    }

    /// Every closed cell is one of the cells of the grid, so no more cells
    /// are closed than the grid has.
    proof fn lemma_done_bounded(&self)
        requires
            self.shape(),
        ensures
            self.done@.len() <= self.map@.area(),
    {
        let all = set_int_range(0, self.map@.area());
        assert(0 <= self.map@.area()) by (nonlinear_arith)
            requires
                0 <= self.map@.width,
                0 <= self.map@.height,
                self.map@.area() == self.map@.width * self.map@.height,
        ;
        lemma_int_range(0, self.map@.area());
        assert(self.done@.subset_of(all));
        lemma_len_subset(self.done@, all);
    }

    /// Every cell that a route reaches cheaply enough has been closed, at a
    /// cost of no more than the route's: cheaply enough means that the
    /// moves of the route and the estimate of the cell together are no
    /// more than `bound`.
    spec fn settled_upto(&self, bound: int) -> bool {
        forall|cell: Pos, cells: Seq<Pos>| #[trigger]
            is_route(self.map@, self.start, cell, cells) && cells.len() - 1 + self.estimate(cell)
                <= bound ==> self.settled_for(cell, cells)
    }

    /// The cell has been closed at a cost of no more than the moves of
    /// `cells`.
    spec fn settled_for(&self, cell: Pos, cells: Seq<Pos>) -> bool {
        self.closed_at(cell) && match self.cost_at(cell) {
            Some(c) => c <= cells.len() - 1,
            None => false,
        }
    }

    /// Once every entry of the queue has a priority above `bound`, every
    /// cell that a route reaches cheaply enough has been closed.
    proof fn lemma_settled(&self, bound: int)
        requires
            self.inv(None, Set::empty()),
            forall|entry: (u64, Pos)| #[trigger] self.open@.contains(entry) ==> entry.0 > bound,
        ensures
            self.settled_upto(bound),
    {
        let t = self.map@;
        assert forall|cell: Pos, cells: Seq<Pos>| #[trigger]
            is_route(t, self.start, cell, cells) && cells.len() - 1 + self.estimate(cell)
                <= bound implies self.settled_for(cell, cells) by {
            let last = cells.len() - 1;
            let j = self.lemma_first_open(cells, last);
            if j >= 0 {
                let met = cells[j];
                let cj = self.cost_at(met).unwrap();
                assert(self.queued_ok(met));
                let waiting = ((cj + self.estimate(met)) as u64, met);
                assert(self.open@.contains(waiting));
                lemma_route_slack(t, cells, j, last, self.goal);
            }
        }
    }

    /// Takes the next cell to expand out of the queue and closes it. There
    /// is none where the queue has run empty, or where all that is left
    /// in it lies beyond `limit`.
    fn settle(&mut self, limit: Option<u32>) -> (next: Settled)
        requires
            old(self).inv(None, Set::empty()),
        ensures
            final(self).map == old(self).map,
            final(self).start == old(self).start,
            final(self).goal == old(self).goal,
            match next {
                Settled::Exhausted => {
                    &&& final(self).inv(None, Set::empty())
                    &&& final(self).open@.len() == 0
                    &&& final(self).closed == old(self).closed
                    &&& final(self).cost == old(self).cost
                },
                Settled::Beyond => {
                    &&& final(self).tables_ok()
                    &&& final(self).closed == old(self).closed
                    &&& final(self).cost == old(self).cost
                    &&& match limit {
                        Some(bound) => final(self).settled_upto(bound as int),
                        None => false,
                    }
                },
                Settled::Cell(cell) => {
                    &&& final(self).inv(Some(cell), Set::empty())
                    &&& final(self).map@.contains(cell)
                    &&& final(self).closed_at(cell)
                    &&& !old(self).closed_at(cell)
                    &&& final(self).closed@ == old(self).closed@.update(old(self).slot(cell), true)
                    &&& final(self).cost == old(self).cost
                    &&& final(self).done@.len() == old(self).done@.len() + 1
                    &&& final(self).done@.len() <= final(self).map@.area()
                },
            },
    {
        loop
            invariant
                self.inv(None, Set::empty()),
                self.map == old(self).map,
                self.start == old(self).start,
                self.goal == old(self).goal,
                self.done@ == old(self).done@,
                self.closed == old(self).closed,
                self.cost == old(self).cost,
            decreases self.open@.len(),
        {
            let ghost before = *self;
            let popped = self.open.pop_min();
            match popped {
                None => {
                    proof {
                        self.lemma_queue_shrunk(before);
                    }
                    return Settled::Exhausted;
                },
                Some(entry) => {
                    let cell = entry.1;
                    assert(before.entry_ok(entry));
                    let beyond: bool = match limit {
                        Some(bound) => entry.0 > bound as u64,
                        None => false,
                    };
                    if beyond {
                        proof {
                            let bound = limit.unwrap() as int;
                            before.lemma_settled(bound);
                            self.lemma_same_tables(before);
                            assert forall|other: Pos, cells: Seq<Pos>| #[trigger]
                                is_route(self.map@, self.start, other, cells) && cells.len() - 1
                                    + self.estimate(other) <= bound implies self.settled_for(
                                other,
                                cells,
                            ) by {
                                assert(before.settled_for(other, cells));
                            }
                        }
                        return Settled::Beyond;
                    }
                    let at: usize = self.map.index_of(&cell);
                    if !self.closed[at] {
                        proof {
                            before.lemma_least_is_exact(entry);
                        }
                        self.closed.set(at, true);
                        self.done = Ghost(self.done@.insert(at as int));
                        proof {
                            self.lemma_closing(before, entry);
                        }
                        return Settled::Cell(cell);
                    }
                    proof {
                        self.lemma_queue_shrunk(before);
                    }
                },
            }
        }
    }

    /// The tables say of every cell what they said before, where nothing
    /// but the queue has changed.
    proof fn lemma_same_tables(&self, before: Search<'a>)
        requires
            before.tables_ok(),
            self.map == before.map,
            self.start == before.start,
            self.goal == before.goal,
            self.cost == before.cost,
            self.closed == before.closed,
            self.routes == before.routes,
            self.done == before.done,
            self.open.wf(),
        ensures
            self.tables_ok(),
    {
        assert forall|other: Pos| self.map@.contains(other) implies #[trigger] self.known_ok(
            other,
        ) by {
            assert(before.known_ok(other));
        }
    }

    /// The invariant holds on, where the queue has lost no entry but one
    /// of a closed cell.
    proof fn lemma_queue_shrunk(&self, before: Search<'a>)
        requires
            before.inv(None, Set::empty()),
            self.map == before.map,
            self.start == before.start,
            self.goal == before.goal,
            self.cost == before.cost,
            self.closed == before.closed,
            self.routes == before.routes,
            self.done == before.done,
            self.open.wf(),
            forall|entry: (u64, Pos)| #[trigger]
                self.open@.contains(entry) ==> before.open@.contains(entry),
            forall|entry: (u64, Pos)| #[trigger]
                before.open@.contains(entry) && !before.closed_at(entry.1) ==> self.open@.contains(
                    entry,
                ),
        ensures
            self.inv(None, Set::empty()),
    {
        self.lemma_same_tables(before);
        assert forall|other: Pos| self.map@.contains(other) implies #[trigger] self.queued_ok(
            other,
        ) by {
            assert(before.queued_ok(other));
        }
        assert forall|from: Pos, to: Pos| #[trigger] self.is_edge(from, to) implies self.edge_ok(
            from,
            to,
        ) by {
            assert(before.is_edge(from, to));
        }
        assert forall|other: (u64, Pos)| #[trigger] self.open@.contains(other) implies self.entry_ok(
            other,
        ) by {
            assert(before.open@.contains(other));
            assert(before.entry_ok(other));
        }
    }

    /// Closing the cell of a least entry keeps the invariant, but for the
    /// moves out of that cell.
    proof fn lemma_closing(&self, before: Search<'a>, entry: (u64, Pos))
        requires
            before.inv(None, Set::empty()),
            before.open@.contains(entry),
            before.map@.contains(entry.1),
            !before.closed_at(entry.1),
            match before.cost_at(entry.1) {
                Some(c) => no_shorter(before.map@, before.start, entry.1, c as int),
                None => false,
            },
            self.map == before.map,
            self.start == before.start,
            self.goal == before.goal,
            self.cost == before.cost,
            self.routes == before.routes,
            self.open@ == before.open@.remove(entry),
            self.open.wf(),
            self.closed@ == before.closed@.update(before.slot(entry.1), true),
            self.done@ == before.done@.insert(before.slot(entry.1)),
        ensures
            self.inv(Some(entry.1), Set::empty()),
            self.closed_at(entry.1),
            self.done@.len() == before.done@.len() + 1,
            self.done@.len() <= self.map@.area(),
    {
        let t = self.map@;
        let cell = entry.1;
        lemma_index_of(t, cell, cell);
        lemma_index_of(t, self.goal, cell);
        lemma_index_of(t, self.start, cell);
        let at = before.slot(cell);
        assert(0 <= at < t.area());
        assert(!before.done@.contains(at));
        assert(self.closed@.len() == t.area());
        assert(self.done@.finite());
        assert forall|i: int| #[trigger] self.done@.contains(i) implies 0 <= i < t.area()
            && self.closed@[i] by {
            if i != at {
                assert(before.done@.contains(i));
            }
        }
        assert forall|i: int| 0 <= i < t.area() && #[trigger] self.closed@[i] implies self.done@.contains(
            i,
        ) by {
            if i != at {
                assert(before.closed@[i]);
            }
        }
        assert(self.cost_at(self.start) == Some(0u32));
        assert(self.shape());
        self.lemma_done_bounded();
        assert forall|other: Pos| t.contains(other) implies #[trigger] self.known_ok(other) by {
            assert(before.known_ok(other));
            lemma_index_of(t, other, cell);
        }
        assert forall|other: Pos| t.contains(other) implies #[trigger] self.queued_ok(other) by {
            assert(before.queued_ok(other));
            lemma_index_of(t, other, cell);
        }
        assert forall|from: Pos, to: Pos| #[trigger]
            self.is_edge(from, to) && (Some(cell) == Some(from) ==> Set::<Pos>::empty().contains(
                to,
            )) implies self.edge_ok(from, to) by {
            lemma_index_of(t, from, cell);
            assert(before.is_edge(from, to));
        }
        assert forall|other: (u64, Pos)| #[trigger]
            self.open@.contains(other) implies self.entry_ok(other) by {
            assert(before.open@.contains(other));
            assert(before.entry_ok(other));
        }
    }

    /// Recording a cheaper way into `to`, found from the closed cell
    /// `from`, keeps the invariant and accounts for the move.
    proof fn lemma_relaxed(&self, before: Search<'a>, from: Pos, to: Pos, handled: Set<Pos>)
        requires
            before.inv(Some(from), handled),
            before.map@.contains(from),
            before.closed_at(from),
            to.adjacent(from),
            before.map@.open_at(to),
            !before.closed_at(to),
            before.cost_at(from) is Some,
            match before.cost_at(to) {
                Some(old) => before.cost_at(from).unwrap() + 1 < old,
                None => true,
            },
            self.map == before.map,
            self.start == before.start,
            self.goal == before.goal,
            self.closed == before.closed,
            self.done == before.done,
            self.cost@ == before.cost@.update(
                before.slot(to),
                Some((before.cost_at(from).unwrap() + 1) as u32),
            ),
            self.routes@ == before.routes@.update(
                before.slot(to),
                before.routes@[before.slot(from)].push(to),
            ),
            self.open@ == before.open@.insert(
                ((before.cost_at(from).unwrap() + 1 + before.estimate(to)) as u64, to),
            ),
            self.open.wf(),
        ensures
            self.inv(Some(from), handled.insert(to)),
    {
        let t = self.map@;
        let base = before.cost_at(from).unwrap();
        let next = (base + 1) as u32;
        let added = ((base + 1 + before.estimate(to)) as u64, to);
        lemma_index_of(t, to, from);
        lemma_index_of(t, from, to);
        lemma_index_of(t, self.start, to);
        lemma_index_of(t, self.goal, to);
        assert(before.known_ok(from));
        assert(before.known_ok(to));
        assert(base + 1 <= u32::MAX) by {
            before.lemma_done_bounded();
        }
        assert(to != self.start);
        assert(self.shape());
        assert forall|other: Pos| t.contains(other) implies #[trigger] self.known_ok(other) by {
            assert(before.known_ok(other));
            lemma_index_of(t, other, to);
            let i = self.slot(other);
            if other == to {
                lemma_route_push(t, self.start, before.routes@[before.slot(from)], to);
            }
        }
        assert forall|other: Pos| t.contains(other) implies #[trigger] self.queued_ok(other) by {
            assert(before.queued_ok(other));
            lemma_index_of(t, other, to);
            if other == to {
                assert(self.open@.contains(added));
            }
        }
        assert forall|a: Pos, b: Pos| #[trigger]
            self.is_edge(a, b) && (Some(from) == Some(a) ==> handled.insert(to).contains(
                b,
            )) implies self.edge_ok(a, b) by {
            lemma_index_of(t, a, to);
            lemma_index_of(t, b, to);
            assert(before.is_edge(a, b));
            if b == to {
                if a != from {
                    assert(before.edge_ok(a, b));
                }
            } else {
                assert(before.edge_ok(a, b));
            }
        }
        assert forall|entry: (u64, Pos)| #[trigger]
            self.open@.contains(entry) implies self.entry_ok(entry) by {
            if entry != added {
                assert(before.open@.contains(entry));
            }
            if before.open@.contains(entry) {
                assert(before.entry_ok(entry));
                lemma_index_of(t, entry.1, to);
            }
        }
    }

    /// Looks at the move from the closed cell `from` to `to` and records
    /// it where it is cheaper than what is known of `to`.
    fn relax(&mut self, from: Pos, to: Pos, Ghost(handled): Ghost<Set<Pos>>)
        requires
            old(self).inv(Some(from), handled),
            old(self).map@.contains(from),
            old(self).closed_at(from),
            to.adjacent(from),
            old(self).map@.open_at(to),
        ensures
            final(self).inv(Some(from), handled.insert(to)),
            final(self).map == old(self).map,
            final(self).start == old(self).start,
            final(self).goal == old(self).goal,
            final(self).closed == old(self).closed,
            final(self).done == old(self).done,
            final(self).cost@.len() == old(self).cost@.len(),
            forall|i: int|
                0 <= i < old(self).closed@.len() && old(self).closed@[i] ==> final(self).cost@[i]
                    == old(self).cost@[i],
    {
        let ghost before = *self;
        let from_at: usize = self.map.index_of(&from);
        let to_at: usize = self.map.index_of(&to);
        proof {
            assert(before.known_ok(from));
            assert(before.known_ok(to));
            before.lemma_done_bounded();
        }
        let base: u32 = match self.cost[from_at] {
            Some(c) => c,
            None => {
                assert(false);
                return ;
            },
        };
        let next: u32 = base + 1;
        let better: bool = match self.cost[to_at] {
            Some(old) => next < old,
            None => true,
        };
        if better {
            proof {
                if before.closed_at(to) {
                    let via = before.routes@[before.slot(from)].push(to);
                    lemma_route_push(self.map@, self.start, before.routes@[before.slot(from)], to);
                    assert(is_route(self.map@, self.start, to, via));
                }
            }
            let estimate: u32 = to.manhattan_distance(&self.goal);
            self.cost.set(to_at, Some(next));
            self.open.push(next as u64 + estimate as u64, to);
            self.routes = Ghost(
                self.routes@.update(to_at as int, self.routes@[from_at as int].push(to)),
            );
            proof {
                self.lemma_relaxed(before, from, to, handled);
            }
        } else {
            proof {
                assert forall|a: Pos, b: Pos| #[trigger]
                    self.is_edge(a, b) && (Some(from) == Some(a) ==> handled.insert(to).contains(
                        b,
                    )) implies self.edge_ok(a, b) by {
                    if !(a == from && b == to) {
                        assert(before.edge_ok(a, b));
                    }
                }
            }
        }
    }

    /// Looks at every move out of the cell that was just closed.
    fn expand(&mut self, cell: Pos)
        requires
            old(self).inv(Some(cell), Set::empty()),
            old(self).map@.contains(cell),
            old(self).closed_at(cell),
        ensures
            final(self).inv(None, Set::empty()),
            final(self).map == old(self).map,
            final(self).start == old(self).start,
            final(self).goal == old(self).goal,
            final(self).done == old(self).done,
            final(self).closed == old(self).closed,
            final(self).cost@.len() == old(self).cost@.len(),
            forall|i: int|
                0 <= i < old(self).closed@.len() && old(self).closed@[i] ==> final(self).cost@[i]
                    == old(self).cost@[i],
    {
        proof {
            assert(self.map@.wf());
        }
        let moves: Vec<(Pos, u32)> = cell.successors(self.map.walls().as_slice());
        let ghost walls = self.map.walls_view();
        let ghost mut handled: Set<Pos> = Set::empty();
        let mut i: usize = 0;
        while i < moves.len()
            invariant
                i <= moves.len(),
                self.inv(Some(cell), handled),
                self.map == old(self).map,
                self.start == old(self).start,
                self.goal == old(self).goal,
                self.done == old(self).done,
                self.closed == old(self).closed,
                self.cost@.len() == old(self).cost@.len(),
                forall|i: int|
                    0 <= i < old(self).closed@.len() && old(self).closed@[i] ==> self.cost@[i]
                        == old(self).cost@[i],
                self.map@.contains(cell),
                self.closed_at(cell),
                cell.is_inner(),
                walls == self.map.walls_view(),
                walls.to_set() == self.map@.walls,
                moves@ == cell.moves(walls),
                forall|k: int| 0 <= k < i ==> handled.contains((#[trigger] moves@[k]).0),
            decreases moves.len() - i,
        {
            let to: Pos = moves[i].0;
            proof {
                crate::utils::position::lemma_moves_sound(cell, walls, i as int);
            }
            let ghost before = *self;
            if self.map.contains(&to) {
                self.relax(cell, to, Ghost(handled));
            } else {
                proof {
                    assert forall|a: Pos, b: Pos| #[trigger]
                        self.is_edge(a, b) && (Some(cell) == Some(a) ==> handled.insert(
                            to,
                        ).contains(b)) implies self.edge_ok(a, b) by {
                        assert(b != to);
                    }
                }
            }
            proof {
                handled = handled.insert(to);
            }
            i += 1;
        }
        proof {
            assert forall|a: Pos, b: Pos| #[trigger] self.is_edge(a, b) implies self.edge_ok(
                a,
                b,
            ) by {
                if a == cell {
                    crate::utils::position::lemma_moves_complete(cell, walls, b);
                    let k = choose|k: int|
                        0 <= k < cell.moves(walls).len() && (#[trigger] cell.moves(walls)[k]).0
                            == b;
                    assert(handled.contains(moves@[k].0));
                }
            }
        }
    }

    /// The cost recorded for a cell of the grid.
    fn cost_of(&self, cell: &Pos) -> (cost: Option<u32>)
        requires
            self.shape(),
            self.map@.contains(*cell),
        ensures
            cost == self.cost_at(*cell),
    {
        let at: usize = self.map.index_of(cell);
        self.cost[at]
    }

    /// A closed cell is recorded at its distance from the start.
    proof fn lemma_closed_is_exact(&self, cell: Pos)
        requires
            self.tables_ok(),
            self.map@.contains(cell),
            self.closed_at(cell),
        ensures
            self.cost_at(cell) is Some,
            is_distance(self.map@, self.start, cell, self.cost_at(cell).unwrap() as int),
            distance(self.map@, self.start, cell) == self.cost_at(cell).unwrap(),
    {
        let t = self.map@;
        assert(self.known_ok(cell));
        let c = self.cost_at(cell).unwrap();
        let witness = self.routes@[self.slot(cell)];
        assert(is_route(t, self.start, cell, witness) && witness.len() == c + 1);
        assert(is_distance(t, self.start, cell, c as int));
        assert(reachable(t, self.start, cell));
        lemma_distance(t, self.start, cell);
        lemma_distance_unique(t, self.start, cell, c as int, distance(t, self.start, cell));
    }

    /// Next to a closed cell that lies within the bound, the cells from
    /// which a shortest route enters it are those recorded at one move
    /// less, and they are closed and within the bound themselves.
    proof fn lemma_step_back(&self, cell: Pos, from: Pos, bound: int)
        requires
            self.tables_ok(),
            self.settled_upto(bound),
            self.map@.contains(cell),
            self.closed_at(cell),
            self.cost_at(cell) is Some,
            self.cost_at(cell).unwrap() > 0,
            self.cost_at(cell).unwrap() + self.estimate(cell) <= bound,
            from.adjacent(cell),
        ensures
            comes_from(self.map@, self.start, cell, from) <==> self.map@.contains(from)
                && self.cost_at(from) == Some((self.cost_at(cell).unwrap() - 1) as u32),
            comes_from(self.map@, self.start, cell, from) ==> {
                &&& self.closed_at(from)
                &&& self.cost_at(cell).unwrap() - 1 + self.estimate(from) <= bound
            },
    {
        let t = self.map@;
        let k = self.cost_at(cell).unwrap() as int;
        self.lemma_closed_is_exact(cell);
        assert(self.known_ok(cell));
        lemma_manhattan_step(from, cell, self.goal);
        if t.contains(from) && self.cost_at(from) == Some((k - 1) as u32) {
            assert(self.known_ok(from));
            let witness = self.routes@[self.slot(from)];
            assert(is_route(t, self.start, from, witness) && witness.len() == k - 1 + 1);
            assert forall|other: Seq<Pos>| #[trigger]
                is_route(t, self.start, from, other) implies other.len() >= k by {
                lemma_route_push(t, self.start, other, cell);
                assert(is_route(t, self.start, cell, other.push(cell)));
            }
            assert(is_distance(t, self.start, from, k - 1));
        }
        if comes_from(t, self.start, cell, from) {
            let witness = choose|cells: Seq<Pos>| #[trigger]
                is_route(t, self.start, from, cells) && cells.len() == k - 1 + 1;
            lemma_route_on_grid(t, self.start, from, witness, witness.len() - 1);
            assert(self.settled_for(from, witness));
            assert(self.known_ok(from));
            let recorded = self.routes@[self.slot(from)];
            assert(is_route(t, self.start, from, recorded));
        }
    }

    /// Whether `from` lies on the grid and is recorded at `moves` moves.
    fn is_recorded_at(&self, from: &Pos, moves: u32) -> (found: bool)
        requires
            self.shape(),
        ensures
            found == (self.map@.contains(*from) && self.cost_at(*from) == Some(moves)),
    {
        if !self.map.contains(from) {
            return false;
        }
        match self.cost_of(from) {
            Some(c) => c == moves,
            None => false,
        }
    }

    /// The cell from which the chosen shortest route enters `cell`.
    fn step_back(&self, cell: Pos, moves: u32, Ghost(bound): Ghost<int>) -> (from: Pos)
        requires
            self.tables_ok(),
            self.settled_upto(bound),
            self.map@.contains(cell),
            self.closed_at(cell),
            self.cost_at(cell) == Some(moves),
            moves > 0,
            moves + self.estimate(cell) <= bound,
        ensures
            from == first_before(self.map@, self.start, cell),
            self.map@.contains(from),
            self.closed_at(from),
            self.cost_at(from) == Some((moves - 1) as u32),
            moves - 1 + self.estimate(from) <= bound,
    {
        let ghost t = self.map@;
        proof {
            self.lemma_closed_is_exact(cell);
            assert(reachable(t, self.start, cell));
            lemma_first_before(t, self.start, cell);
            self.lemma_step_back(cell, cell.left(), bound);
            self.lemma_step_back(cell, cell.right(), bound);
            self.lemma_step_back(cell, cell.up(), bound);
            self.lemma_step_back(cell, cell.down(), bound);
        }
        let left = Pos(cell.0 - 1, cell.1);
        if self.is_recorded_at(&left, moves - 1) {
            return left;
        }
        let right = Pos(cell.0 + 1, cell.1);
        if self.is_recorded_at(&right, moves - 1) {
            return right;
        }
        let up = Pos(cell.0, cell.1 - 1);
        if self.is_recorded_at(&up, moves - 1) {
            return up;
        }
        Pos(cell.0, cell.1 + 1)
    }

    /// The chosen shortest route to the goal, read back from the goal to
    /// the start and turned round.
    fn trace_back(&self, moves: u32) -> (path: Vec<Pos>)
        requires
            self.tables_ok(),
            self.settled_upto(moves as int),
            self.closed_at(self.goal),
            self.cost_at(self.goal) == Some(moves),
        ensures
            path@ == first_route(self.map@, self.start, self.goal, moves as nat),
            is_distance(self.map@, self.start, self.goal, moves as int),
    {
        let ghost t = self.map@;
        let ghost whole = first_route(t, self.start, self.goal, moves as nat);
        let mut back: Vec<Pos> = Vec::new();
        let mut cell: Pos = self.goal;
        let mut left: u32 = moves;
        back.push(cell);
        let ghost mut tail: Seq<Pos> = seq![cell];
        proof {
            self.lemma_closed_is_exact(self.goal);
            assert(first_route(t, self.start, cell, left as nat).drop_last() + tail =~= whole);
        }
        while left > 0
            invariant
                self.tables_ok(),
                self.settled_upto(moves as int),
                t == self.map@,
                t.contains(cell),
                self.closed_at(cell),
                self.cost_at(cell) == Some(left),
                left + self.estimate(cell) <= moves,
                whole == first_route(t, self.start, self.goal, moves as nat),
                whole == first_route(t, self.start, cell, left as nat).drop_last() + tail,
                tail.len() == back@.len(),
                tail.len() >= 1,
                forall|i: int| 0 <= i < tail.len() ==> tail[i] == back@[back@.len() - 1 - i],
            decreases left,
        {
            let from: Pos = self.step_back(cell, left, Ghost(moves as int));
            proof {
                let here = first_route(t, self.start, cell, left as nat);
                let there = first_route(t, self.start, from, (left - 1) as nat);
                assert(here == there.push(cell));
                assert(here.drop_last() =~= there);
                assert(there.len() >= 1) by {
                    self.lemma_closed_is_exact(from);
                    lemma_first_route(t, self.start, from, (left - 1) as nat);
                }
                assert(there.last() == from) by {
                    self.lemma_closed_is_exact(from);
                    lemma_first_route(t, self.start, from, (left - 1) as nat);
                }
                assert(there =~= there.drop_last().push(from));
                assert(there + tail =~= there.drop_last() + (seq![from] + tail));
                tail = seq![from] + tail;
            }
            left = left - 1;
            cell = from;
            back.push(cell);
        }
        proof {
            assert(first_route(t, self.start, cell, 0).drop_last() =~= Seq::<Pos>::empty());
            assert(whole =~= tail);
        }
        let n: usize = back.len();
        let mut path: Vec<Pos> = Vec::new();
        let mut i: usize = 0;
        while i < n
            invariant
                i <= n,
                n == back@.len(),
                path@.len() == i,
                forall|k: int| 0 <= k < i ==> #[trigger] path@[k] == back@[n - 1 - k],
            decreases n - i,
        {
            path.push(back[n - 1 - i]);
            i += 1;
        }
        proof {
            assert(path@ =~= tail);
        }
        path
    }

    /// No route leads to a goal that was not closed before the queue ran
    /// empty.
    proof fn lemma_exhausted(&self)
        requires
            self.inv(None, Set::empty()),
            self.open@.len() == 0,
            !self.closed_at(self.goal),
        ensures
            !reachable(self.map@, self.start, self.goal),
    {
        let t = self.map@;
        assert forall|cells: Seq<Pos>| !is_route(t, self.start, self.goal, cells) by {
            if is_route(t, self.start, self.goal, cells) {
                let bound = cells.len() - 1 + self.estimate(self.goal);
                assert forall|entry: (u64, Pos)| #[trigger]
                    self.open@.contains(entry) implies entry.0 > bound by {
                    assert(self.open@.count(entry) <= self.open@.len());
                }
                self.lemma_settled(bound);
                assert(self.settled_for(self.goal, cells));
            }
        }
    }
}

/// What the search does next.
enum Settled {
    /// No cell is left to expand.
    Exhausted,
    /// The cells that are left lie beyond the limit.
    Beyond,
    /// The cell has been closed and is to be expanded.
    Cell(Pos),
}

/// Plans the shortest path from `start` to `goal` over the cells of `map`.
///
/// A path is a sequence of cells that begins on `start` and ends on `goal`,
/// in which each cell after the first is an edge neighbour of the one
/// before it, lies on the grid and carries no wall. The start itself need
/// only lie on the grid. Where start and goal are one cell, the path is
/// that cell alone.
///
/// There is a path in the answer exactly where one exists, and none that
/// exists has fewer cells. Where several paths are as short, the answer is
/// the one that, followed back from the goal, comes at each cell from the
/// first neighbour, in the order left, right, up, down, that a shortest
/// path can come from.
pub fn plan_path(map: &GridMap, start: &Pos, goal: &Pos) -> (found: Option<Vec<Pos>>)
    ensures
        planned(map@, *start, *goal) == match found {
            Some(path) => Some(path@),
            None => None,
        },
        is_plan(
            map@,
            *start,
            *goal,
            match found {
                Some(path) => Some(path@),
                None => None,
            },
        ),
        map@.obstacle_free() && map@.contains(*start) && map@.contains(*goal) ==> (
        found matches Some(path) && path@.len() == start.manhattan(*goal) + 1),
{
    let ghost t = map@;
    if !map.contains(start) || !map.contains(goal) {
        proof {
            assert forall|cells: Seq<Pos>| !is_route(t, *start, *goal, cells) by {
                if is_route(t, *start, *goal, cells) {
                    lemma_route_on_grid(t, *start, *goal, cells, cells.len() - 1);
                }
            }
        }
        return None;
    }
    let mut search = Search::begin(map, *start, *goal);
    let mut limit: Option<u32> = None;
    proof {
        lemma_planned_is_plan(t, *start, *goal);
        lemma_index_of(t, *goal, *goal);
        if t.obstacle_free() {
            lemma_open_grid_has_plan(t, *start, *goal, planned(t, *start, *goal));
            let cells = planned(t, *start, *goal).unwrap();
            lemma_shortest_route_on_open_grid(t, *start, *goal, cells);
        }
    }
    loop
        invariant
            search.inv(None, Set::empty()),
            search.map == map,
            search.start == *start,
            search.goal == *goal,
            t == map@,
            t.contains(*goal),
            search.done@.len() <= t.area(),
            is_plan(t, *start, *goal, planned(t, *start, *goal)),
            t.obstacle_free() ==> (match planned(t, *start, *goal) {
                Some(cells) => cells.len() == start.manhattan(*goal) + 1,
                None => false,
            }),
            match limit {
                Some(moves) => search.closed_at(*goal) && search.cost_at(*goal) == Some(moves),
                None => !search.closed_at(*goal),
            },
        decreases t.area() - search.done@.len(),
    {
        match search.settle(limit) {
            Settled::Exhausted => {
                match limit {
                    None => {
                        proof {
                            search.lemma_exhausted();
                        }
                        return None;
                    },
                    Some(moves) => {
                        proof {
                            assert forall|entry: (u64, Pos)| #[trigger]
                                search.open@.contains(entry) implies entry.0 > moves by {
                                assert(search.open@.count(entry) <= search.open@.len());
                            }
                            search.lemma_settled(moves as int);
                        }
                        let path = search.trace_back(moves);
                        proof {
                            assert(reachable(t, *start, *goal));
                            lemma_distance(t, *start, *goal);
                            lemma_distance_unique(
                                t,
                                *start,
                                *goal,
                                moves as int,
                                distance(t, *start, *goal),
                            );
                        }
                        return Some(path);
                    },
                }
            },
            Settled::Beyond => {
                match limit {
                    None => {
                        assert(false);
                        return None;
                    },
                    Some(moves) => {
                        let path = search.trace_back(moves);
                        proof {
                            assert(reachable(t, *start, *goal));
                            lemma_distance(t, *start, *goal);
                            lemma_distance_unique(
                                t,
                                *start,
                                *goal,
                                moves as int,
                                distance(t, *start, *goal),
                            );
                        }
                        return Some(path);
                    },
                }
            },
            Settled::Cell(cell) => {
                proof {
                    lemma_index_of(t, cell, *goal);
                    lemma_index_of(t, *goal, cell);
                }
                if cell == *goal {
                    limit = search.cost_of(goal);
                    proof {
                        assert(search.known_ok(cell));
                    }
                }
                search.expand(cell);
            },
        }
    }
}

} // verus!
