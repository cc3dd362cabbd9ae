//! The attributes that an actor may carry.
use crate::events::EventType;
use crate::geometry::{Point, RangeType};
use vstd::prelude::*;

verus! {

/// Where an actor stands.
#[derive(Clone, Copy, Debug, PartialEq, Eq, Structural)]
pub struct Position {
    pub x: i32,
    pub y: i32,
}

impl Position {
    pub open spec fn point(self) -> Point {
        Point { x: self.x, y: self.y }
    }

    pub fn as_point(&self) -> (r: Point)
        ensures
            r == self.point(),
    {
        Point::new(self.x, self.y)
    }
}

/// Present while an actor may act; `is_reaction` tells a reaction window
/// from an ordinary turn.
#[derive(Clone, Copy, Debug, PartialEq, Eq, Structural)]
pub struct CanActFlag {
    pub is_reaction: bool,
}

/// Present when an actor may be offered a reaction window.
#[derive(Clone, Copy, Debug, PartialEq, Eq, Structural)]
pub struct CanReactFlag;

/// The energy clock of an actor: each scheduling pass takes `delta` from
/// `current`, and the actor is ready once `current` is no longer positive.
#[derive(Clone, Copy, Debug, PartialEq, Eq, Structural)]
pub struct Schedulable {
    pub current: i32,
    pub base: i32,
    pub delta: i32,
}

impl Schedulable {
    /// `base` and `delta` are positive.
    pub open spec fn wf(self) -> bool {
        self.base > 0 && self.delta > 0
    }
}

/// Marks an actor that occupies its cell.
#[derive(Clone, Copy, Debug, PartialEq, Eq, Structural)]
pub struct BlocksTile;

#[derive(Clone, Copy, Debug, PartialEq, Eq, Structural)]
pub struct Health {
    pub current: i32,
    pub max: i32,
}

/// What the actor sees: the cells in view, and whether they must be
/// worked out again.
#[derive(Clone, Debug)]
pub struct Viewshed {
    pub visible: Vec<Point>,
    pub dirty: bool,
    pub range: i32,
}

/// The actor means to step onto `loc`.
#[derive(Clone, Copy, Debug, PartialEq, Eq, Structural)]
pub struct MoveIntent {
    pub loc: Point,
}

/// The actor means to attack the cells that `range` covers at `loc`.
#[derive(Clone, Debug)]
pub struct AttackIntent {
    pub loc: Point,
    pub range: RangeType,
}

/// An action that the actor sets off where it stands when its health runs out.
#[derive(Clone, Debug)]
pub struct DeathTrigger {
    pub event: EventType,
    pub range: RangeType,
}

} // verus!
