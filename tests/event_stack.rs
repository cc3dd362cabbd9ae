use turnstack::{
    add_event, get_name, get_resolver, pending_hits_have_health, process_stack, range_fits_at,
    resolve_range_at, update_reaction_state, AiSystem, CanActFlag, CanReactFlag, DamageResolver,
    EventResolver, EventType, Health, ParticleRequest, Point, Position, RangeType, Rgb8, Viewshed,
    World,
};

fn actor(w: &mut World, x: i32, y: i32, hp: i32) -> usize {
    let e = w.create_entity();
    w.positions[e] = Some(Position { x, y });
    w.healths[e] = Some(Health { current: hp, max: hp });
    e
}

fn spark(x: i32) -> ParticleRequest {
    ParticleRequest {
        position: Point::new(x, 0),
        color: Rgb8 { r: 1, g: 2, b: 3 },
        symbol: 42,
        lifetime_ms: 10,
    }
}

#[test]
fn empty_and_single_shapes() {
    for p in [Point::new(0, 0), Point::new(-7, 12), Point::new(i32::MAX, i32::MIN)] {
        assert!(resolve_range_at(&RangeType::Empty, p).is_empty());
        assert_eq!(resolve_range_at(&RangeType::Single, p), vec![p]);
    }
}

#[test]
fn square_of_size_one_has_nine_cells() {
    let cells = resolve_range_at(&RangeType::Square { size: 1 }, Point::new(5, 5));
    assert_eq!(cells.len(), 9);
    for x in 4..=6 {
        for y in 4..=6 {
            let n = cells.iter().filter(|p| **p == Point::new(x, y)).count();
            assert_eq!(n, 1);
        }
    }
    assert_eq!(cells[0], Point::new(4, 4));
    assert_eq!(cells[1], Point::new(5, 4));
    assert_eq!(cells[2], Point::new(6, 4));
    assert_eq!(cells[3], Point::new(4, 5));
    assert_eq!(cells[8], Point::new(6, 6));
}

#[test]
fn square_of_size_zero_is_the_origin() {
    let cells = resolve_range_at(&RangeType::Square { size: 0 }, Point::new(3, 3));
    assert_eq!(cells, vec![Point::new(3, 3)]);
    assert!(resolve_range_at(&RangeType::Square { size: -1 }, Point::new(3, 3)).is_empty());
}

#[test]
fn custom_offsets_keep_their_order() {
    let range = RangeType::Custom { offsets: vec![(1, 0), (0, -2), (1, 0)] };
    let cells = resolve_range_at(&range, Point::new(10, 10));
    assert_eq!(cells, vec![Point::new(11, 10), Point::new(10, 8), Point::new(11, 10)]);
}

#[test]
fn names_and_resolvers() {
    assert_eq!(get_name(&EventType::Damage { amount: 3 }), Some("Damage".to_string()));
    assert_eq!(get_name(&EventType::ParticleSpawn { request: spark(0) }), None);
    assert_eq!(
        get_resolver(&EventType::Damage { amount: 3 }),
        EventResolver::Damage(DamageResolver { amount: 3 })
    );
}

#[test]
fn untargeted_action_resolves_despite_reaction_flag() {
    let mut w = World::new(0);
    let p = actor(&mut w, 0, 0, 5);
    w.can_react[p] = Some(CanReactFlag);
    add_event(&mut w, &EventType::ParticleSpawn { request: spark(1) }, &RangeType::Empty, Point::new(0, 0), true);
    assert_eq!(w.pending_events(), 1);
    process_stack(&mut w);
    assert_eq!(w.pending_events(), 0);
    assert_eq!(w.particles.requests, vec![spark(1)]);
    assert_eq!(w.can_act[p], None);
}

#[test]
fn untargeted_damage_touches_nobody() {
    let mut w = World::new(0);
    let p = actor(&mut w, 0, 0, 5);
    add_event(&mut w, &EventType::Damage { amount: 2 }, &RangeType::Empty, Point::new(0, 0), true);
    process_stack(&mut w);
    assert_eq!(w.pending_events(), 0);
    assert_eq!(w.healths[p], Some(Health { current: 5, max: 5 }));
    assert!(w.particles.requests.is_empty());
}

#[test]
fn reaction_halts_until_spent() {
    let mut w = World::new(0);
    let player = actor(&mut w, 2, 2, 10);
    w.can_react[player] = Some(CanReactFlag);
    add_event(&mut w, &EventType::Damage { amount: 3 }, &RangeType::Single, Point::new(2, 2), true);
    process_stack(&mut w);
    assert_eq!(w.can_act[player], Some(CanActFlag { is_reaction: true }));
    assert_eq!(w.pending_events(), 1);
    assert_eq!(w.healths[player].unwrap().current, 10);
    // the primary actor declines: its reaction is spent and its window closes
    update_reaction_state(&mut w, true);
    assert_eq!(w.can_act[player], None);
    assert_eq!(w.can_react[player], None);
    process_stack(&mut w);
    assert_eq!(w.pending_events(), 0);
    assert_eq!(w.healths[player].unwrap().current, 7);
}

#[test]
fn opponent_that_declines_its_reaction_lets_the_action_resolve() {
    let mut w = World::new(0);
    let player = actor(&mut w, 0, 0, 10);
    w.viewsheds[player] = None;
    let other = actor(&mut w, 4, 4, 10);
    w.can_react[other] = Some(CanReactFlag);
    w.viewsheds[other] = Some(Viewshed { visible: vec![], dirty: false, range: 6 });
    add_event(&mut w, &EventType::Damage { amount: 1 }, &RangeType::Single, Point::new(4, 4), true);
    process_stack(&mut w);
    assert_eq!(w.can_act[other], Some(CanActFlag { is_reaction: true }));
    assert_eq!(w.pending_events(), 1);
    let turns = AiSystem.turns(&w);
    assert_eq!(turns, vec![(other, false)]);
    AiSystem.finish(&mut w, &vec![(other, None)]);
    assert_eq!(w.can_act[other], None);
    assert_eq!(w.can_react[other], None);
    process_stack(&mut w);
    assert_eq!(w.pending_events(), 0);
    assert_eq!(w.healths[other].unwrap().current, 9);
}

#[test]
fn clearing_the_window_alone_halts_again() {
    let mut w = World::new(0);
    let _player = actor(&mut w, 0, 0, 10);
    let other = actor(&mut w, 4, 4, 10);
    w.can_react[other] = Some(CanReactFlag);
    add_event(&mut w, &EventType::Damage { amount: 1 }, &RangeType::Single, Point::new(4, 4), true);
    process_stack(&mut w);
    w.can_act[other] = None;
    process_stack(&mut w);
    assert_eq!(w.can_act[other], Some(CanActFlag { is_reaction: true }));
    assert_eq!(w.pending_events(), 1);
}

#[test]
fn actions_without_reaction_ignore_reactive_actors() {
    let mut w = World::new(0);
    let a = actor(&mut w, 1, 1, 4);
    w.can_react[a] = Some(CanReactFlag);
    add_event(&mut w, &EventType::Damage { amount: 1 }, &RangeType::Single, Point::new(1, 1), false);
    process_stack(&mut w);
    assert_eq!(w.pending_events(), 0);
    assert_eq!(w.can_act[a], None);
    assert_eq!(w.healths[a].unwrap().current, 3);
}

#[test]
fn follow_up_actions_resolve_before_older_ones() {
    let mut w = World::new(0);
    let a = actor(&mut w, 1, 1, 4);
    add_event(&mut w, &EventType::ParticleSpawn { request: spark(9) }, &RangeType::Empty, Point::new(0, 0), false);
    add_event(&mut w, &EventType::Damage { amount: 2 }, &RangeType::Custom { offsets: vec![(0, 0), (1, 0)] }, Point::new(1, 1), false);
    process_stack(&mut w);
    assert_eq!(w.pending_events(), 0);
    assert_eq!(w.particles.requests.len(), 3);
    // the flashes of the damage, last cell first, then the older effect
    assert_eq!(w.particles.requests[0].position, Point::new(2, 1));
    assert_eq!(w.particles.requests[1].position, Point::new(1, 1));
    assert_eq!(w.particles.requests[2], spark(9));
    assert_eq!(w.healths[a].unwrap().current, 2);
}

#[test]
fn damage_flash_uses_the_full_block_glyph() {
    let mut w = World::new(0);
    add_event(&mut w, &EventType::Damage { amount: 1 }, &RangeType::Single, Point::new(7, 8), false);
    process_stack(&mut w);
    let flash = w.particles.requests[0];
    assert_eq!(flash.symbol, 219);
    assert_eq!(flash.color, Rgb8 { r: 255, g: 0, b: 0 });
    assert_eq!(flash.lifetime_ms, 600);
    assert_eq!(flash.position, Point::new(7, 8));
}

#[test]
fn every_occupant_of_a_cell_is_struck() {
    let mut w = World::new(0);
    let a = actor(&mut w, 3, 3, 5);
    let b = actor(&mut w, 3, 3, 6);
    let c = actor(&mut w, 9, 9, 7);
    add_event(&mut w, &EventType::Damage { amount: 2 }, &RangeType::Square { size: 1 }, Point::new(3, 4), false);
    process_stack(&mut w);
    assert_eq!(w.healths[a].unwrap().current, 3);
    assert_eq!(w.healths[b].unwrap().current, 4);
    assert_eq!(w.healths[c].unwrap().current, 7);
}

#[test]
fn a_cell_listed_twice_strikes_once() {
    let mut w = World::new(0);
    let a = actor(&mut w, 0, 0, 10);
    add_event(&mut w, &EventType::Damage { amount: 1 }, &RangeType::Custom { offsets: vec![(0, 0), (0, 0)] }, Point::new(0, 0), false);
    process_stack(&mut w);
    assert_eq!(w.healths[a].unwrap().current, 9);
    assert_eq!(w.particles.requests.len(), 2);
}

#[test]
fn strikes_on_actors_without_health_are_caught() {
    let mut w = World::new(0);
    let a = w.create_entity();
    w.positions[a] = Some(Position { x: 1, y: 1 });
    add_event(&mut w, &EventType::Damage { amount: 1 }, &RangeType::Single, Point::new(1, 1), false);
    assert!(!pending_hits_have_health(&w));
    w.healths[a] = Some(Health { current: 3, max: 3 });
    assert!(pending_hits_have_health(&w));
    add_event(&mut w, &EventType::ParticleSpawn { request: spark(1) }, &RangeType::Single, Point::new(2, 2), false);
    assert!(pending_hits_have_health(&w));
}

#[test]
fn health_saturates() {
    let mut w = World::new(0);
    let a = actor(&mut w, 0, 0, i32::MIN + 1);
    add_event(&mut w, &EventType::Damage { amount: 5 }, &RangeType::Single, Point::new(0, 0), false);
    process_stack(&mut w);
    assert_eq!(w.healths[a].unwrap().current, i32::MIN);
}

#[test]
fn draining_an_empty_stack_changes_nothing() {
    let mut w = World::new(0);
    let a = actor(&mut w, 0, 0, 5);
    process_stack(&mut w);
    assert_eq!(w.pending_events(), 0);
    assert_eq!(w.healths[a].unwrap().current, 5);
    assert!(w.particles.requests.is_empty());
}

#[test]
fn named_hit_on_the_player_shows_a_card() {
    let mut w = World::new(0);
    let player = actor(&mut w, 0, 0, 5);
    assert_eq!(player, 0);
    add_event(&mut w, &EventType::Damage { amount: 1 }, &RangeType::Single, Point::new(0, 0), false);
    process_stack(&mut w);
    assert!(w.card_stack.is_empty());
    assert_eq!(w.particles.card_stack.len(), 1);
    assert_eq!(w.particles.card_stack[0].name, "Damage");
    assert_eq!(w.particles.card_stack[0].offset, 0);
    assert_eq!(w.particles.card_stack[0].affected, vec![Point::new(0, 0)]);
}

#[test]
fn halted_named_hit_keeps_its_card_pending() {
    let mut w = World::new(0);
    let player = actor(&mut w, 0, 0, 5);
    w.can_react[player] = Some(CanReactFlag);
    add_event(&mut w, &EventType::Damage { amount: 1 }, &RangeType::Single, Point::new(0, 0), true);
    process_stack(&mut w);
    assert_eq!(w.card_stack.len(), 1);
    assert!(w.particles.card_stack.is_empty());
}

#[test]
fn fit_checks_on_shapes() {
    assert!(range_fits_at(&RangeType::Square { size: 2 }, Point::new(0, 0)));
    assert!(!range_fits_at(&RangeType::Square { size: 2 }, Point::new(i32::MAX - 1, 0)));
    assert!(range_fits_at(&RangeType::Square { size: -3 }, Point::new(i32::MAX, 0)));
    assert!(!range_fits_at(&RangeType::Custom { offsets: vec![(0, 0), (0, -1)] }, Point::new(0, i32::MIN)));
    assert!(range_fits_at(&RangeType::Custom { offsets: vec![(0, 1)] }, Point::new(0, i32::MIN)));
}
