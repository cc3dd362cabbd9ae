use turnstack::{
    add_event, age_cards, build_rogue_map, take_player_turn, process_stack, spawn_cards, try_move_player, AiSystem,
    AttackIntent, CanActFlag, AttackSystem, CardLifetime, CardRequest, DeathSystem, DeathTrigger, EventType,
    Health, MapIndexSystem, MoveIntent, MovementSystem, Point, Position, RangeType, Rect,
    RunState, TileMap, TileType, Viewshed, World,
};

fn open_map(width: i32, height: i32) -> TileMap {
    let n = (width * height) as usize;
    let mut tiles = vec![TileType::Wall; n];
    for y in 1..height - 1 {
        for x in 1..width - 1 {
            tiles[(y * width + x) as usize] = TileType::Floor;
        }
    }
    let blocked = tiles.iter().map(|t| *t == TileType::Wall).collect();
    TileMap {
        tiles,
        rooms: Vec::new(),
        width,
        height,
        known_tiles: vec![false; n],
        visible_tiles: vec![false; n],
        blocked_tiles: blocked,
    }
}

fn wall_map(width: i32, height: i32) -> TileMap {
    let n = (width * height) as usize;
    TileMap {
        tiles: vec![TileType::Wall; n],
        rooms: Vec::new(),
        width,
        height,
        known_tiles: vec![false; n],
        visible_tiles: vec![false; n],
        blocked_tiles: vec![true; n],
    }
}

#[test]
fn rect_geometry() {
    let r = Rect::with_size(2, 3, 4, 5);
    assert_eq!(r, Rect { x1: 2, y1: 3, x2: 6, y2: 8 });
    assert_eq!(r.center(), Point::new(4, 5));
    assert!(r.intersect(&Rect::with_size(6, 8, 1, 1)));
    assert!(!r.intersect(&Rect::with_size(7, 3, 1, 1)));
    assert_eq!(Rect { x1: -5, y1: -3, x2: 0, y2: 4 }.center(), Point::new(-2, 0));
    assert_eq!(Rect { x1: i32::MAX, y1: i32::MIN, x2: i32::MAX, y2: i32::MIN }.center(), Point::new(i32::MAX, i32::MIN));
}

#[test]
fn index_is_row_major() {
    let m = wall_map(10, 5);
    assert_eq!(m.get_index(0, 0), 0);
    assert_eq!(m.get_index(3, 2), 23);
    assert_eq!(m.get_index(9, 4), 49);
}

#[test]
fn rooms_and_hallways_are_carved() {
    let mut m = wall_map(12, 10);
    m.build_room(Rect::with_size(1, 1, 2, 2));
    assert_eq!(m.rooms.len(), 1);
    for y in 0..10 {
        for x in 0..12 {
            let inside = (1..=3).contains(&x) && (1..=3).contains(&y);
            let t = m.tiles[m.get_index(x, y)];
            assert_eq!(t == TileType::Floor, inside, "cell {} {}", x, y);
        }
    }
    let mut h = wall_map(12, 10);
    h.build_hallway(Point::new(8, 2), Point::new(3, 6));
    for y in 0..10 {
        for x in 0..12 {
            let on = (y == 2 && (3..=8).contains(&x)) || (x == 3 && (2..=6).contains(&y));
            assert_eq!(h.tiles[h.get_index(x, y)] == TileType::Floor, on, "cell {} {}", x, y);
        }
    }
}

#[test]
fn blocked_cells_follow_the_walls() {
    let mut m = wall_map(6, 6);
    m.build_room(Rect::with_size(1, 1, 2, 2));
    MapIndexSystem.run(&mut m);
    for i in 0..36 {
        assert_eq!(m.blocked_tiles[i], m.tiles[i] == TileType::Wall);
    }
}

#[test]
fn exits_of_an_open_cell() {
    let m = open_map(5, 5);
    let centre = m.get_index(2, 2);
    assert_eq!(m.available_exits(centre), vec![centre - 1, centre + 1, centre - 5, centre + 5]);
    let corner = m.get_index(1, 1);
    assert_eq!(m.available_exits(corner), vec![corner + 1, corner + 5]);
    assert!(m.is_exit_valid(3, 3));
    assert!(!m.is_exit_valid(4, 3));
}

#[test]
fn generated_map_keeps_its_rooms_apart() {
    let m = build_rogue_map(80, 50);
    assert_eq!(m.tiles.len(), 4000);
    assert!(!m.rooms.is_empty() && m.rooms.len() <= 30);
    for (i, a) in m.rooms.iter().enumerate() {
        assert!(a.x1 >= 1 && a.x2 <= 78 && a.y1 >= 1 && a.y2 <= 48);
        for b in m.rooms.iter().skip(i + 1) {
            assert!(!a.intersect(b));
        }
        for y in a.y1..=a.y2 {
            for x in a.x1..=a.x2 {
                assert_eq!(m.tiles[m.get_index(x, y)], TileType::Floor);
            }
        }
    }
    for x in 0..80 {
        assert_eq!(m.tiles[m.get_index(x, 0)], TileType::Wall);
        assert_eq!(m.tiles[m.get_index(x, 49)], TileType::Wall);
    }
    for y in 0..50 {
        assert_eq!(m.tiles[m.get_index(0, y)], TileType::Wall);
        assert_eq!(m.tiles[m.get_index(79, y)], TileType::Wall);
    }
    for pair in m.rooms.windows(2) {
        let (a, b) = (pair[0].center(), pair[1].center());
        let floor_between = |from: Point, to: Point| {
            let row = (from.x.min(to.x)..=from.x.max(to.x)).all(|x| m.tiles[m.get_index(x, from.y)] == TileType::Floor);
            let col = (from.y.min(to.y)..=from.y.max(to.y)).all(|y| m.tiles[m.get_index(to.x, y)] == TileType::Floor);
            row && col
        };
        assert!(floor_between(a, b) || floor_between(b, a));
    }
    for i in 0..4000 {
        assert_eq!(m.blocked_tiles[i], m.tiles[i] == TileType::Wall);
        assert!(!m.known_tiles[i] && !m.visible_tiles[i]);
    }
}

#[test]
fn player_moves_attacks_or_waits() {
    let mut m = open_map(6, 6);
    let mut w = World::new(0);
    let p = w.create_entity();
    w.positions[p] = Some(Position { x: 2, y: 2 });
    assert_eq!(try_move_player(&mut w, &m, 1, 0), RunState::Running);
    assert_eq!(w.move_intents[p], Some(MoveIntent { loc: Point::new(3, 2) }));
    assert!(w.attack_intents[p].is_none());

    let mut attacker_world = World::new(0);
    let attacker = attacker_world.create_entity();
    attacker_world.positions[attacker] = Some(Position { x: 2, y: 2 });
    let target = m.get_index(2, 3);
    m.blocked_tiles[target] = true;
    assert_eq!(try_move_player(&mut attacker_world, &m, 0, 1), RunState::Running);
    let attack = attacker_world.attack_intents[attacker].clone().unwrap();
    assert_eq!(attack.loc, Point::new(2, 3));
    assert_eq!(attack.range, RangeType::Single);
    assert!(attacker_world.move_intents[attacker].is_none());

    let mut waiting_world = World::new(0);
    let waiter = waiting_world.create_entity();
    waiting_world.positions[waiter] = Some(Position { x: 1, y: 1 });
    assert_eq!(try_move_player(&mut waiting_world, &m, -1, 0), RunState::AwaitingInput);
    assert!(waiting_world.move_intents[waiter].is_none() && waiting_world.attack_intents[waiter].is_none());
    assert_eq!(try_move_player(&mut waiting_world, &m, -5, 0), RunState::AwaitingInput);
}

#[test]
fn attack_intents_become_damage() {
    let mut w = World::new(0);
    let a = w.create_entity();
    let b = w.create_entity();
    w.positions[b] = Some(Position { x: 4, y: 4 });
    w.healths[b] = Some(Health { current: 3, max: 3 });
    w.attack_intents[a] = Some(AttackIntent { loc: Point::new(4, 4), range: RangeType::Single });
    AttackSystem.run(&mut w);
    assert!(w.attack_intents[a].is_none());
    assert_eq!(w.pending_events(), 1);
    process_stack(&mut w);
    assert_eq!(w.healths[b].unwrap().current, 2);
}

#[test]
fn movement_applies_intents() {
    let mut w = World::new(0);
    let a = w.create_entity();
    let b = w.create_entity();
    w.positions[a] = Some(Position { x: 1, y: 1 });
    w.viewsheds[a] = Some(Viewshed { visible: vec![], dirty: false, range: 8 });
    w.move_intents[a] = Some(MoveIntent { loc: Point::new(2, 1) });
    w.move_intents[b] = Some(MoveIntent { loc: Point::new(5, 5) });
    MovementSystem.run(&mut w);
    assert_eq!(w.positions[a], Some(Position { x: 2, y: 1 }));
    assert!(w.viewsheds[a].as_ref().unwrap().dirty);
    assert_eq!(w.positions[b], None);
    assert!(w.move_intents[a].is_none() && w.move_intents[b].is_none());
}

#[test]
fn the_dead_set_off_their_triggers() {
    let mut w = World::new(0);
    let player = w.create_entity();
    w.positions[player] = Some(Position { x: 0, y: 0 });
    w.healths[player] = Some(Health { current: 0, max: 10 });
    let barrel = w.create_entity();
    w.positions[barrel] = Some(Position { x: 5, y: 5 });
    w.healths[barrel] = Some(Health { current: -1, max: 2 });
    w.death_triggers[barrel] = Some(DeathTrigger {
        event: EventType::Damage { amount: 1 },
        range: RangeType::Square { size: 1 },
    });
    let bystander = w.create_entity();
    w.positions[bystander] = Some(Position { x: 6, y: 6 });
    w.healths[bystander] = Some(Health { current: 4, max: 4 });
    DeathSystem.run(&mut w);
    assert!(w.positions[barrel].is_none() && w.healths[barrel].is_none());
    assert!(w.death_triggers[barrel].is_none());
    assert!(w.positions[player].is_some());
    assert_eq!(w.pending_events(), 1);
    process_stack(&mut w);
    assert_eq!(w.healths[bystander].unwrap().current, 3);
}

#[test]
fn cards_come_on_screen_and_fade() {
    let mut w = World::new(0);
    add_event(&mut w, &EventType::Damage { amount: 1 }, &RangeType::Empty, Point::new(0, 0), false);
    w.particles.make_card(CardRequest { name: "Damage".to_string(), offset: 0, affected: vec![] }, 2);
    w.particles.make_card(CardRequest { name: "Blast".to_string(), offset: 0, affected: vec![] }, 2);
    spawn_cards(&mut w);
    assert!(w.particles.card_stack.is_empty());
    assert_eq!(w.card_lifetimes.len(), 2);
    assert_eq!(w.card_lifetimes[0].data.offset, 2);
    assert_eq!(w.card_lifetimes[1].data.offset, 3);
    assert_eq!(w.card_lifetimes[1].remaining_ms, 400);
    w.card_lifetimes[0].remaining_ms = 100;
    age_cards(&mut w, 150);
    assert_eq!(w.card_lifetimes.len(), 1);
    assert_eq!(w.card_lifetimes[0].data.name, "Blast");
    assert_eq!(w.card_lifetimes[0].remaining_ms, 250);
    let _: Vec<CardLifetime> = w.card_lifetimes.clone();
}

#[test]
fn sight_is_clipped_and_recorded() {
    let mut m = wall_map(4, 3);
    let cells = vec![Point::new(1, 1), Point::new(-1, 0), Point::new(3, 2), Point::new(4, 0)];
    let visible = m.clip_to_map(cells);
    assert_eq!(visible, vec![Point::new(1, 1), Point::new(3, 2)]);
    m.visible_tiles[0] = true;
    m.known_tiles[2] = true;
    m.mark_seen(&visible);
    for i in 0..12 {
        let shown = i == 5 || i == 11;
        assert_eq!(m.visible_tiles[i], shown);
        assert_eq!(m.known_tiles[i], shown || i == 2);
    }
}

#[test]
fn opponents_take_their_turns() {
    let mut w = World::new(0);
    let player = w.create_entity();
    w.positions[player] = Some(Position { x: 5, y: 5 });
    w.can_act[player] = Some(CanActFlag { is_reaction: false });
    w.viewsheds[player] = Some(Viewshed { visible: vec![], dirty: false, range: 8 });
    let watcher = w.create_entity();
    w.positions[watcher] = Some(Position { x: 1, y: 1 });
    w.viewsheds[watcher] = Some(Viewshed { visible: vec![Point::new(5, 5)], dirty: false, range: 8 });
    w.can_act[watcher] = Some(CanActFlag { is_reaction: false });
    let blind = w.create_entity();
    w.positions[blind] = Some(Position { x: 9, y: 9 });
    w.viewsheds[blind] = Some(Viewshed { visible: vec![Point::new(9, 8)], dirty: false, range: 8 });
    w.can_act[blind] = Some(CanActFlag { is_reaction: false });
    let idle = w.create_entity();
    w.positions[idle] = Some(Position { x: 3, y: 3 });
    w.viewsheds[idle] = Some(Viewshed { visible: vec![Point::new(5, 5)], dirty: false, range: 8 });

    let turns = AiSystem.turns(&w);
    assert_eq!(turns, vec![(watcher, true), (blind, false)]);
    AiSystem.finish(&mut w, &vec![(watcher, Some(Point::new(2, 2))), (blind, None)]);
    assert_eq!(w.move_intents[watcher], Some(MoveIntent { loc: Point::new(2, 2) }));
    assert!(w.move_intents[blind].is_none());
    assert!(w.can_act[watcher].is_none() && w.can_act[blind].is_none());
    assert!(w.can_act[player].is_some());
}

#[test]
fn player_turn_uses_up_the_authorization() {
    let m = open_map(6, 6);
    let mut w = World::new(0);
    let p = w.create_entity();
    w.positions[p] = Some(Position { x: 2, y: 2 });
    w.can_act[p] = Some(CanActFlag { is_reaction: true });
    w.can_react[p] = Some(turnstack::CanReactFlag);
    w.card_lifetimes.push(CardLifetime {
        remaining_ms: 50,
        data: CardRequest { name: "Damage".to_string(), offset: 0, affected: vec![] },
    });
    assert_eq!(take_player_turn(&mut w, &m, -5, 0), RunState::AwaitingInput);
    assert!(w.can_act[p].is_some());
    assert_eq!(take_player_turn(&mut w, &m, 1, 0), RunState::Running);
    assert_eq!(w.move_intents[p], Some(MoveIntent { loc: Point::new(3, 2) }));
    assert!(w.can_act[p].is_none());
    assert!(w.can_react[p].is_none());
    assert!(w.card_lifetimes.is_empty());
}
