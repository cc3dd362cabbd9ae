//! The energy-clock scheduler: once per tick it decides which actors may
//! act.
use crate::components::{CanActFlag, Schedulable};
use crate::world::{RunState, World, WorldView};
use vstd::prelude::*;

verus! {

/// The clock is ready this pass: taking `delta` leaves it non-positive.
pub open spec fn clock_ready(c: Schedulable) -> bool {
    c.current - c.delta <= 0
}

/// The clock after one pass: `delta` is taken, and `base` is added back
/// when the clock is ready, so that any overdue remainder is kept.
pub open spec fn clock_after(c: Schedulable) -> Schedulable {
    if clock_ready(c) {
        Schedulable { current: (c.current - c.delta + c.base) as i32, ..c }
    } else {
        Schedulable { current: (c.current - c.delta) as i32, ..c }
    }
}

pub open spec fn next_clock(c: Option<Schedulable>) -> Option<Schedulable> {
    match c {
        Some(c) => Some(clock_after(c)),
        None => None,
    }
}

/// An ordinary turn for a ready clock, nothing otherwise.
pub open spec fn next_flag(c: Option<Schedulable>) -> Option<CanActFlag> {
    match c {
        Some(c) => if clock_ready(c) {
            Some(CanActFlag { is_reaction: false })
        } else {
            None
        },
        None => None,
    }
}

/// Taking `delta` from every clock stays within `i32`.
pub open spec fn clocks_fit(w: WorldView) -> bool {
    forall|e: int|
        0 <= e < w.schedulables.len() && (#[trigger] w.schedulables[e]) is Some ==> w.schedulables[e].unwrap().current
            - w.schedulables[e].unwrap().delta >= i32::MIN
}

/// Tells whether a scheduling pass keeps every clock within `i32`.
pub fn clocks_can_advance(ecs: &World) -> (r: bool)
    ensures
        r == clocks_fit(ecs@),
{
    let mut e: usize = 0;
    while e < ecs.schedulables.len()
        invariant
            e <= ecs@.schedulables.len(),
            forall|j: int|
                0 <= j < e && (#[trigger] ecs@.schedulables[j]) is Some ==> ecs@.schedulables[j].unwrap().current
                    - ecs@.schedulables[j].unwrap().delta >= i32::MIN,
        decreases ecs@.schedulables.len() - e,
    {
        if let Some(c) = ecs.schedulables[e] {
            if (c.current as i64) - (c.delta as i64) < i32::MIN as i64 {
                return false;
            }
        }
        e = e + 1;
    }
    true
}

/// The primary actor exists and its clock is ready this pass.
pub open spec fn player_ready(w: WorldView) -> bool {
    w.player < w.len() && next_flag(w.schedulables[w.player as int]) is Some
}

/// One scheduling pass. If the primary actor already holds an
/// authorization, only the run state changes, to `AwaitingInput`.
/// Otherwise every authorization is withdrawn, every clock advances, each
/// ready actor gets an ordinary turn, and the run state becomes
/// `AwaitingInput` exactly when the primary actor is among them.
pub open spec fn advance(w: WorldView) -> WorldView {
    if w.player_can_act() {
        WorldView { run_state: RunState::AwaitingInput, ..w }
    } else {
        WorldView {
            schedulables: Seq::new(w.len(), |e: int| next_clock(w.schedulables[e])),
            can_act: Seq::new(w.len(), |e: int| next_flag(w.schedulables[e])),
            run_state: if player_ready(w) {
                RunState::AwaitingInput
            } else {
                RunState::Running
            },
            ..w
        }
    }
}

/// Runs the scheduler.
pub struct TurnSystem;

impl TurnSystem {
    /// One scheduling pass, as `advance` states it.
    pub fn run(&mut self, ecs: &mut World)
        requires
            old(ecs).wf(),
            old(ecs)@.run_state == RunState::Running,
            clocks_fit(old(ecs)@) || old(ecs)@.player_can_act(),
        ensures
            final(ecs).wf(),
            final(ecs)@ == advance(old(ecs)@),
    {
        let player = ecs.player;
        if player < ecs.can_act.len() && ecs.can_act[player].is_some() {
            ecs.run_state = RunState::AwaitingInput;
            return;
        }
        let ghost w = ecs@;
        let n = ecs.positions.len();
        let mut i: usize = 0;
        assert(ecs@.schedulables =~= Seq::new(
            w.len(),
            |e: int|
                if e < 0 {
                    next_clock(w.schedulables[e])
                } else {
                    w.schedulables[e]
                },
        ));
        assert(ecs@.can_act =~= Seq::new(
            w.len(),
            |e: int|
                if e < 0 {
                    next_flag(w.schedulables[e])
                } else {
                    w.can_act[e]
                },
        ));
        while i < n
            invariant
                w.wf(),
                clocks_fit(w),
                !w.player_can_act(),
                w.run_state == RunState::Running,
                n == w.len(),
                player == w.player,
                i <= n,
                ecs.wf(),
                ecs@ == (WorldView {
                    schedulables: Seq::new(
                        w.len(),
                        |e: int|
                            if e < i {
                                next_clock(w.schedulables[e])
                            } else {
                                w.schedulables[e]
                            },
                    ),
                    can_act: Seq::new(
                        w.len(),
                        |e: int|
                            if e < i {
                                next_flag(w.schedulables[e])
                            } else {
                                w.can_act[e]
                            },
                    ),
                    run_state: if player < i && player_ready(w) {
                        RunState::AwaitingInput
                    } else {
                        RunState::Running
                    },
                    ..w
                }),
            decreases n - i,
        {
            ecs.can_act.set(i, None);
            if let Some(sched) = ecs.schedulables[i] {
                assert(w.schedulables[i as int] == Some(sched));
                assert(sched.wf());
                let mut sched = sched;
                sched.current = sched.current - sched.delta;
                if sched.current <= 0 {
                    sched.current = sched.current + sched.base;
                    ecs.can_act.set(i, Some(CanActFlag { is_reaction: false }));
                    if i == player {
                        ecs.run_state = RunState::AwaitingInput;
                    }
                }
                ecs.schedulables.set(i, Some(sched));
            }
            i = i + 1;
            assert(ecs@.schedulables =~= Seq::new(
                w.len(),
                |e: int|
                    if e < i {
                        next_clock(w.schedulables[e])
                    } else {
                        w.schedulables[e]
                    },
            ));
            assert(ecs@.can_act =~= Seq::new(
                w.len(),
                |e: int|
                    if e < i {
                        next_flag(w.schedulables[e])
                    } else {
                        w.can_act[e]
                    },
            ));
        }
        assert(ecs@.schedulables =~= advance(w).schedulables);
        assert(ecs@.can_act =~= advance(w).can_act);
    }
}

} // verus!
