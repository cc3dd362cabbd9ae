use turnstack::{
    add_event, process_stack, update_reaction_state, CanActFlag, CanReactFlag, EventType, Health,
    Point, Position, RangeType, RunState, Schedulable, TurnSystem, World,
};

fn clocked(w: &mut World, current: i32, base: i32, delta: i32) -> usize {
    let e = w.create_entity();
    w.schedulables[e] = Some(Schedulable { current, base, delta });
    e
}

#[test]
fn ready_clock_keeps_its_remainder() {
    let mut w = World::new(99);
    let a = clocked(&mut w, 2, 10, 4);
    TurnSystem.run(&mut w);
    assert_eq!(w.schedulables[a].unwrap().current, 8);
    assert_eq!(w.can_act[a], Some(CanActFlag { is_reaction: false }));
    assert_eq!(w.run_state, RunState::Running);
}

#[test]
fn clock_that_is_not_ready_only_counts_down() {
    let mut w = World::new(99);
    let a = clocked(&mut w, 9, 10, 4);
    w.can_act[a] = Some(CanActFlag { is_reaction: false });
    TurnSystem.run(&mut w);
    assert_eq!(w.schedulables[a].unwrap().current, 5);
    assert_eq!(w.can_act[a], None);
}

#[test]
fn clock_reaching_zero_is_ready() {
    let mut w = World::new(99);
    let a = clocked(&mut w, 4, 24, 4);
    TurnSystem.run(&mut w);
    assert_eq!(w.schedulables[a].unwrap().current, 24);
    assert_eq!(w.can_act[a], Some(CanActFlag { is_reaction: false }));
}

#[test]
fn ready_player_awaits_input() {
    let mut w = World::new(0);
    let p = clocked(&mut w, 0, 24, 4);
    let other = clocked(&mut w, 30, 24, 4);
    TurnSystem.run(&mut w);
    assert_eq!(w.run_state, RunState::AwaitingInput);
    assert_eq!(w.can_act[p], Some(CanActFlag { is_reaction: false }));
    assert_eq!(w.schedulables[p].unwrap().current, 20);
    assert_eq!(w.schedulables[other].unwrap().current, 26);
}

#[test]
fn reaction_window_freezes_the_clocks() {
    let mut w = World::new(0);
    let p = clocked(&mut w, 5, 24, 4);
    let other = clocked(&mut w, 1, 24, 4);
    w.can_act[p] = Some(CanActFlag { is_reaction: true });
    TurnSystem.run(&mut w);
    assert_eq!(w.run_state, RunState::AwaitingInput);
    assert_eq!(w.schedulables[p].unwrap().current, 5);
    assert_eq!(w.schedulables[other].unwrap().current, 1);
    assert_eq!(w.can_act[p], Some(CanActFlag { is_reaction: true }));
    assert_eq!(w.can_act[other], None);
}

#[test]
fn attack_on_a_reactive_actor_end_to_end() {
    let mut w = World::new(0);
    let player = w.create_entity();
    w.positions[player] = Some(Position { x: 1, y: 1 });
    w.healths[player] = Some(Health { current: 10, max: 10 });
    let target = w.create_entity();
    w.positions[target] = Some(Position { x: 3, y: 3 });
    w.healths[target] = Some(Health { current: 5, max: 5 });
    w.can_react[target] = Some(CanReactFlag);

    add_event(&mut w, &EventType::Damage { amount: 1 }, &RangeType::Square { size: 0 }, Point::new(3, 3), true);
    process_stack(&mut w);
    assert_eq!(w.can_act[target], Some(CanActFlag { is_reaction: true }));
    assert_eq!(w.pending_events(), 1);
    assert_eq!(w.healths[target].unwrap().current, 5);

    // the target declines: its window closes and its reaction is spent
    w.can_act[target] = None;
    w.can_react[target] = None;
    process_stack(&mut w);
    assert_eq!(w.pending_events(), 0);
    assert_eq!(w.healths[target].unwrap().current, 4);
    assert_eq!(w.healths[player].unwrap().current, 10);
    assert_eq!(w.particles.requests.len(), 1);
    assert_eq!(w.particles.requests[0].position, Point::new(3, 3));
}

#[test]
fn ordinary_turn_restores_the_reaction() {
    let mut w = World::new(0);
    let p = clocked(&mut w, 0, 24, 4);
    w.can_act[p] = Some(CanActFlag { is_reaction: false });
    update_reaction_state(&mut w, false);
    assert_eq!(w.can_react[p], Some(CanReactFlag));
    assert_eq!(w.can_act[p], None);
}

#[test]
fn clock_range_check() {
    let mut w = World::new(0);
    let a = clocked(&mut w, 3, 10, 4);
    assert!(turnstack::clocks_can_advance(&w));
    w.schedulables[a] = Some(Schedulable { current: i32::MIN + 2, base: 10, delta: 4 });
    assert!(!turnstack::clocks_can_advance(&w));
}

#[test]
fn deleted_actor_loses_every_attribute() {
    let mut w = World::new(0);
    let a = clocked(&mut w, 3, 10, 4);
    w.healths[a] = Some(Health { current: 1, max: 1 });
    w.can_react[a] = Some(CanReactFlag);
    w.delete_entity(a);
    assert!(w.schedulables[a].is_none() && w.healths[a].is_none() && w.can_react[a].is_none());
    assert_eq!(w.positions.len(), 1);
}

#[test]
fn waiting_player_freezes_even_overflowing_clocks() {
    let mut w = World::new(0);
    let p = clocked(&mut w, 5, 24, 4);
    let other = clocked(&mut w, i32::MIN, 24, 4);
    w.can_act[p] = Some(CanActFlag { is_reaction: true });
    assert!(!turnstack::clocks_can_advance(&w));
    TurnSystem.run(&mut w);
    assert_eq!(w.run_state, RunState::AwaitingInput);
    assert_eq!(w.schedulables[other].unwrap().current, i32::MIN);
}
