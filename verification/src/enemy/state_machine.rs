//! The behaviour of a pursuing agent: idle, following its target, or on the
//! way back to the cell it started from.

use crate::utils::position::Pos;
use vstd::prelude::*;

verus! {

/// The condition that drives the automaton: the target is closer to the
/// agent than `range` world units.
#[derive(Clone, Copy, Debug, PartialEq, Eq, Structural)]
pub struct Near {
    target: u64,
    range: u32,
}

impl Near {
    pub fn new(target: u64, range: u32) -> (made: Self)
        ensures
            made.target_id() == target,
            made.range_units() == range,
    {
        Self { target, range }
    }

    /// The identity of the entity that is watched.
    pub closed spec fn target_id(self) -> u64 {
        self.target
    }

    /// The distance below which the target counts as near.
    pub closed spec fn range_units(self) -> u32 {
        self.range
    }

    pub fn target(&self) -> (id: u64)
        ensures
            id == self.target_id(),
    {
        self.target
    }

    pub fn range(&self) -> (units: u32)
        ensures
            units == self.range_units(),
    {
        self.range
    }
}

/// An agent in this state walks back to the cell it started from.
#[derive(Clone, Copy, Debug, PartialEq, Eq, Structural)]
pub struct BackToInitial {
    pub target: u64,
    pub initial_position: Pos,
}

impl BackToInitial {
    pub fn new(target: u64, initial_position: Pos) -> (made: Self)
        ensures
            made == (Self { target, initial_position }),
    {
        Self { target, initial_position }
    }
}

/// An agent in this state does nothing.
#[derive(Clone, Copy, Debug, PartialEq, Eq, Structural)]
pub struct Idle;

/// An agent in this state moves towards `target`.
#[derive(Clone, Copy, Debug, PartialEq, Eq, Structural)]
pub struct Follow {
    pub target: u64,
    pub speed: u32,
}

impl Follow {
    pub fn new(target: u64, speed: u32) -> (made: Self)
        ensures
            made == (Self { target, speed }),
    {
        Self { target, speed }
    }
}

/// The state of an agent. An agent is in exactly one state; a transition
/// replaces the state and does nothing else.
#[derive(Clone, Copy, Debug, PartialEq, Eq, Structural)]
pub enum Behavior {
    Idle(Idle),
    Follow(Follow),
    BackToInitial(BackToInitial),
}

/// What one evaluation of the [`Near`] condition found.
#[derive(Clone, Copy, Debug, PartialEq, Eq, Structural)]
pub enum Sighting {
    /// The target is within range.
    Near,
    /// The target is out of range.
    Far,
    /// The target no longer exists.
    Missing,
}

/// The state after one evaluation of the transition table.
///
/// A target that is gone sends the agent to `Idle`. Otherwise the first
/// row that applies is taken, and only that one:
///
/// | from            | condition            | to              |
/// |-----------------|----------------------|-----------------|
/// | `Idle`          | target near          | `Follow`        |
/// | `Follow`        | target not near      | `BackToInitial` |
/// | `BackToInitial` | target near          | `Follow`        |
/// | `BackToInitial` | arrived at the start | `Idle`          |
///
/// `pursuit` and `retreat` are the states that the rows lead to.
pub open spec fn next_state(
    state: Behavior,
    sighting: Sighting,
    arrived: bool,
    pursuit: Follow,
    retreat: BackToInitial,
) -> Behavior {
    match sighting {
        Sighting::Missing => Behavior::Idle(Idle),
        Sighting::Near => match state {
            Behavior::Idle(_) => Behavior::Follow(pursuit),
            Behavior::Follow(_) => state,
            Behavior::BackToInitial(_) => Behavior::Follow(pursuit),
        },
        Sighting::Far => match state {
            Behavior::Idle(_) => state,
            Behavior::Follow(_) => Behavior::BackToInitial(retreat),
            Behavior::BackToInitial(_) => if arrived {
                Behavior::Idle(Idle)
            } else {
                state
            },
        },
    }
}

/// The automaton of one agent: the condition it watches, the two states
/// its transitions lead to, and the state it is in.
#[derive(Clone, Copy, Debug, PartialEq, Eq, Structural)]
pub struct StateMachine {
    near: Near,
    pursuit: Follow,
    retreat: BackToInitial,
    state: Behavior,
}

impl StateMachine {
    pub closed spec fn near_view(self) -> Near {
        self.near
    }

    pub closed spec fn pursuit_view(self) -> Follow {
        self.pursuit
    }

    pub closed spec fn retreat_view(self) -> BackToInitial {
        self.retreat
    }

    pub closed spec fn state_view(self) -> Behavior {
        self.state
    }

    /// An automaton in its initial state, `Idle`.
    pub fn new(near: Near, pursuit: Follow, retreat: BackToInitial) -> (made: Self)
        ensures
            made.near_view() == near,
            made.pursuit_view() == pursuit,
            made.retreat_view() == retreat,
            made.state_view() == Behavior::Idle(Idle),
    {
        Self { near, pursuit, retreat, state: Behavior::Idle(Idle) }
    }

    /// The condition that the automaton watches.
    pub fn near(&self) -> (near: Near)
        ensures
            near == self.near_view(),
    {
        self.near
    }

    /// The state that following the target is.
    pub fn pursuit(&self) -> (pursuit: Follow)
        ensures
            pursuit == self.pursuit_view(),
    {
        self.pursuit
    }

    /// The state that walking back is.
    pub fn retreat(&self) -> (retreat: BackToInitial)
        ensures
            retreat == self.retreat_view(),
    {
        self.retreat
    }

    /// The present state.
    pub fn state(&self) -> (state: Behavior)
        ensures
            state == self.state_view(),
    {
        self.state
    }

    /// Evaluates the transition table once. `arrived` says whether the
    /// agent stands on the cell it started from.
    pub fn step(&mut self, sighting: Sighting, arrived: bool)
        ensures
            final(self).state_view() == next_state(
                old(self).state_view(),
                sighting,
                arrived,
                old(self).pursuit_view(),
                old(self).retreat_view(),
            ),
            final(self).near_view() == old(self).near_view(),
            final(self).pursuit_view() == old(self).pursuit_view(),
            final(self).retreat_view() == old(self).retreat_view(),
    {
        let next: Behavior = match sighting {
            Sighting::Missing => Behavior::Idle(Idle),
            Sighting::Near => match self.state {
                Behavior::Idle(_) => Behavior::Follow(self.pursuit),
                Behavior::Follow(_) => self.state,
                Behavior::BackToInitial(_) => Behavior::Follow(self.pursuit),
            },
            Sighting::Far => match self.state {
                Behavior::Idle(_) => self.state,
                Behavior::Follow(_) => Behavior::BackToInitial(self.retreat),
                Behavior::BackToInitial(_) => if arrived {
                    Behavior::Idle(Idle)
                } else {
                    self.state
                },
            },
        };
        self.state = next;
    }
}

/// From `Idle`, a target that comes near starts the pursuit at the very
/// next evaluation, and the pursuit goes on for as long as the target stays
/// near: the transition is taken once and not again.
pub proof fn lemma_pursuit_starts_once(
    sighting: Sighting,
    arrived_first: bool,
    arrived_then: bool,
    pursuit: Follow,
    retreat: BackToInitial,
)
    requires
        sighting == Sighting::Near,
    ensures
        next_state(Behavior::Idle(Idle), sighting, arrived_first, pursuit, retreat)
            == Behavior::Follow(pursuit),
        next_state(Behavior::Follow(pursuit), sighting, arrived_then, pursuit, retreat)
            == Behavior::Follow(pursuit),
{
}

/// One evaluation takes at most one row of the table. Where the target is
/// near, the result is the pursuit whatever else holds, and where the state
/// changes, a second evaluation on the same findings changes it again only
/// in one case: a pursuit that ends on the very cell the agent started
/// from goes on to `Idle`.
pub proof fn lemma_no_oscillation(
    state: Behavior,
    sighting: Sighting,
    arrived: bool,
    pursuit: Follow,
    retreat: BackToInitial,
)
    ensures
        ({
            let once = next_state(state, sighting, arrived, pursuit, retreat);
            let twice = next_state(once, sighting, arrived, pursuit, retreat);
            let thrice = next_state(twice, sighting, arrived, pursuit, retreat);
            &&& thrice == twice
            &&& (twice != once ==> state is Follow && sighting == Sighting::Far && arrived && twice
                == Behavior::Idle(Idle))
            &&& (sighting == Sighting::Near && !(state is Follow) ==> once == Behavior::Follow(
                pursuit,
            ))
        }),
{
}

} // verus!
