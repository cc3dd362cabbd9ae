//! The primary actor's moves, decided from the map.
use crate::components::{AttackIntent, MoveIntent};
use crate::geometry::{Point, RangeType};
use crate::map::{TileMap, TileType, idx};
use crate::reaction::{after_decision, clear_lingering_cards, update_reaction_state};
use crate::world::{RunState, World, WorldView};
use vstd::prelude::*;

verus! {

/// The cell the primary actor would step onto, if it stands somewhere.
pub open spec fn step_target(w: WorldView, dx: i32, dy: i32) -> Option<(int, int)> {
    if w.player < w.len() && w.positions[w.player as int] is Some {
        let p = w.positions[w.player as int].unwrap();
        Some((p.x + dx, p.y + dy))
    } else {
        None
    }
}

/// The world and run state after the primary actor tries to step by
/// `(dx, dy)`. Onto an open cell it means to move; onto a blocked cell that
/// is no wall (an occupant) it means to attack that cell alone; either way
/// the decision is made and the simulation runs on. Against a wall, off the
/// map, or without a position, nothing changes and input is still awaited.
pub open spec fn move_outcome(w: WorldView, map: TileMap, dx: i32, dy: i32) -> (WorldView, RunState) {
    match step_target(w, dx, dy) {
        Some((x, y)) => if !map.in_map(x, y) {
            (w, RunState::AwaitingInput)
        } else if !map.blocked_tiles@[idx(map.width as int, x, y)] {
            (
                WorldView {
                    move_intents: w.move_intents.update(
                        w.player as int,
                        Some(MoveIntent { loc: Point { x: x as i32, y: y as i32 } }),
                    ),
                    ..w
                },
                RunState::Running,
            )
        } else if map.tile(x, y) != TileType::Wall {
            (
                WorldView {
                    attack_intents: w.attack_intents.update(
                        w.player as int,
                        Some(AttackIntent { loc: Point { x: x as i32, y: y as i32 }, range: RangeType::Single }),
                    ),
                    ..w
                },
                RunState::Running,
            )
        } else {
            (w, RunState::AwaitingInput)
        },
        None => (w, RunState::AwaitingInput),
    }
}

/// Steps the primary actor by `(dx, dy)` (see `move_outcome`).
pub fn try_move_player(ecs: &mut World, map: &TileMap, dx: i32, dy: i32) -> (r: RunState)
    requires
        old(ecs).wf(),
        map.wf(),
    ensures
        final(ecs).wf(),
        (final(ecs)@, r) == move_outcome(old(ecs)@, *map, dx, dy),
{
    let player = ecs.player;
    if player >= ecs.positions.len() {
        return RunState::AwaitingInput;
    }
    let pos = match ecs.positions[player] {
        Some(pos) => pos,
        None => {
            return RunState::AwaitingInput;
        },
    };
    let x: i64 = pos.x as i64 + dx as i64;
    let y: i64 = pos.y as i64 + dy as i64;
    if x < 0 || x >= map.width as i64 || y < 0 || y >= map.height as i64 {
        return RunState::AwaitingInput;
    }
    let dest_index = map.get_index(x as i32, y as i32);
    let loc = Point::new(x as i32, y as i32);
    if !map.blocked_tiles[dest_index] {
        ecs.move_intents.set(player, Some(MoveIntent { loc }));
        RunState::Running
    } else if map.tiles[dest_index] != TileType::Wall {
        ecs.attack_intents.set(player, Some(AttackIntent { loc, range: RangeType::Single }));
        RunState::Running
    } else {
        RunState::AwaitingInput
    }
}

/// The primary actor acts on a step `(dx, dy)` read from its input: it
/// tries the step (see `move_outcome`), and when that decides, its
/// authorization is used up (see `after_decision`) and the cards on screen
/// are cleared.
pub fn take_player_turn(ecs: &mut World, map: &TileMap, dx: i32, dy: i32) -> (r: RunState)
    requires
        old(ecs).wf(),
        map.wf(),
        old(ecs).player < old(ecs)@.len(),
        old(ecs)@.can_act[old(ecs).player as int] is Some,
    ensures
        final(ecs).wf(),
        ({
            let (moved, outcome) = move_outcome(old(ecs)@, *map, dx, dy);
            let is_reaction = old(ecs)@.can_act[old(ecs).player as int].unwrap().is_reaction;
            &&& r == outcome
            &&& final(ecs)@ == if outcome == RunState::Running {
                WorldView { card_lifetimes: Seq::empty(), ..after_decision(moved, is_reaction) }
            } else {
                moved
            }
        }),
{
    let player = ecs.player;
    let is_reaction = match ecs.can_act[player] {
        Some(flag) => flag.is_reaction,
        None => false,
    };
    let result = try_move_player(ecs, map, dx, dy);
    if result == RunState::Running {
        update_reaction_state(ecs, is_reaction);
        clear_lingering_cards(ecs);
    }
    result
}

} // verus!
