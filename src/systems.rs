//! The per-tick systems that turn intents and deaths into actions and
//! state changes.
use crate::components::{AttackIntent, CanActFlag, DeathTrigger, MoveIntent, Position, Viewshed};
use crate::events::{EventType, EventView, add_event, new_event};
use crate::geometry::{Point, range_fits};
use crate::particles::{CardLifetime, CardRequest};
use crate::world::{Entity, World, WorldView};
use vstd::prelude::*;

verus! {

/// Damage dealt by an attack.
pub const ATTACK_DAMAGE: i32 = 1;

/// How long a card stays on screen, in milliseconds.
pub const CARD_LIFETIME_MS: u32 = 400;

/// Every attack intent fits its cells in `i32`.
pub open spec fn attacks_fit(intents: Seq<Option<AttackIntent>>) -> bool {
    forall|e: int|
        0 <= e < intents.len() && (#[trigger] intents[e]) is Some ==> range_fits(
            intents[e].unwrap().range,
            intents[e].unwrap().loc,
        )
}

/// The attacks that the first `n` intents queue, in order of actors.
pub open spec fn attack_events(intents: Seq<Option<AttackIntent>>, n: int) -> Seq<EventView>
    decreases n,
{
    if n <= 0 {
        Seq::empty()
    } else {
        attack_events(intents, n - 1) + match intents[n - 1] {
            Some(a) => seq![new_event(EventType::Damage { amount: ATTACK_DAMAGE }, a.range, a.loc, true)],
            None => Seq::empty(),
        }
    }
}

/// No slot of a table holds anything.
pub open spec fn all_none<T>(n: nat) -> Seq<Option<T>> {
    Seq::new(n, |_i: int| None::<T>)
}

fn none_table<T>(n: usize) -> (r: Vec<Option<T>>)
    ensures
        r@ == all_none::<T>(n as nat),
{
    let mut r: Vec<Option<T>> = Vec::new();
    let mut i: usize = 0;
    while i < n
        invariant
            i <= n,
            r@ == all_none::<T>(i as nat),
        decreases n - i,
    {
        r.push(None);
        i = i + 1;
        assert(r@ =~= all_none::<T>(i as nat));
    }
    r
}

/// Turns attack intents into actions.
pub struct AttackSystem;

impl AttackSystem {
    /// Queues, for each actor in turn that means to attack, damage of
    /// `ATTACK_DAMAGE` on the cells it aims at, able to invoke reactions;
    /// then every attack intent is withdrawn.
    pub fn run(&mut self, ecs: &mut World)
        requires
            old(ecs).wf(),
            attacks_fit(old(ecs)@.attack_intents),
        ensures
            final(ecs).wf(),
            final(ecs)@ == (WorldView {
                stack: old(ecs)@.stack + attack_events(old(ecs)@.attack_intents, old(ecs)@.len() as int),
                attack_intents: all_none(old(ecs)@.len()),
                ..old(ecs)@
            }),
    {
        let n = ecs.attack_intents.len();
        let mut intents: Vec<Option<AttackIntent>> = none_table(n);
        core::mem::swap(&mut intents, &mut ecs.attack_intents);
        let mut e: usize = 0;
        while e < n
            invariant
                ecs.wf(),
                n == old(ecs)@.len(),
                e <= n,
                intents@ == old(ecs)@.attack_intents,
                intents@.len() == n,
                attacks_fit(intents@),
                ecs@ == (WorldView {
                    stack: old(ecs)@.stack + attack_events(intents@, e as int),
                    attack_intents: all_none(old(ecs)@.len()),
                    ..old(ecs)@
                }),
            decreases n - e,
        {
            if let Some(attack) = &intents[e] {
                assert(intents@[e as int] == Some(*attack));
                assert(range_fits(attack.range, attack.loc));
                add_event(ecs, &EventType::Damage { amount: ATTACK_DAMAGE }, &attack.range, attack.loc, true);
            }
            e = e + 1;
            assert(ecs@.stack =~= old(ecs)@.stack + attack_events(intents@, e as int));
        }
    }
}

/// Actor `e` stands somewhere and means to move.
pub open spec fn moved(w: WorldView, e: int) -> bool {
    w.positions[e] is Some && w.move_intents[e] is Some
}

/// Carries out move intents.
pub struct MovementSystem;

impl MovementSystem {
    /// Every actor with a position and a move intent steps onto its
    /// target, and its view, if it has one, must be worked out again; then
    /// every move intent is withdrawn.
    pub fn run(&mut self, ecs: &mut World)
        requires
            old(ecs).wf(),
        ensures
            final(ecs).wf(),
            final(ecs)@ == (WorldView {
                positions: Seq::new(
                    old(ecs)@.len(),
                    |e: int|
                        if moved(old(ecs)@, e) {
                            Some(
                                Position {
                                    x: old(ecs)@.move_intents[e].unwrap().loc.x,
                                    y: old(ecs)@.move_intents[e].unwrap().loc.y,
                                },
                            )
                        } else {
                            old(ecs)@.positions[e]
                        },
                ),
                viewsheds: Seq::new(
                    old(ecs)@.len(),
                    |e: int|
                        if moved(old(ecs)@, e) && old(ecs)@.viewsheds[e] is Some {
                            Some(Viewshed { dirty: true, ..old(ecs)@.viewsheds[e].unwrap() })
                        } else {
                            old(ecs)@.viewsheds[e]
                        },
                ),
                move_intents: all_none(old(ecs)@.len()),
                ..old(ecs)@
            }),
    {
        let ghost w = ecs@;
        let n = ecs.positions.len();
        let mut e: usize = 0;
        assert(ecs@.positions =~= Seq::new(
            w.len(),
            |i: int|
                if i < 0 && moved(w, i) {
                    Some(Position { x: w.move_intents[i].unwrap().loc.x, y: w.move_intents[i].unwrap().loc.y })
                } else {
                    w.positions[i]
                },
        ));
        assert(ecs@.viewsheds =~= Seq::new(
            w.len(),
            |i: int|
                if i < 0 && moved(w, i) && w.viewsheds[i] is Some {
                    Some(Viewshed { dirty: true, ..w.viewsheds[i].unwrap() })
                } else {
                    w.viewsheds[i]
                },
        ));
        assert(ecs@.move_intents =~= Seq::new(
            w.len(),
            |i: int|
                if i < 0 {
                    None
                } else {
                    w.move_intents[i]
                },
        ));
        while e < n
            invariant
                w == old(ecs)@,
                w.wf(),
                ecs.wf(),
                n == w.len(),
                e <= n,
                ecs@ == (WorldView {
                    positions: Seq::new(
                        w.len(),
                        |i: int|
                            if i < e && moved(w, i) {
                                Some(
                                    Position {
                                        x: w.move_intents[i].unwrap().loc.x,
                                        y: w.move_intents[i].unwrap().loc.y,
                                    },
                                )
                            } else {
                                w.positions[i]
                            },
                    ),
                    viewsheds: Seq::new(
                        w.len(),
                        |i: int|
                            if i < e && moved(w, i) && w.viewsheds[i] is Some {
                                Some(Viewshed { dirty: true, ..w.viewsheds[i].unwrap() })
                            } else {
                                w.viewsheds[i]
                            },
                    ),
                    move_intents: Seq::new(
                        w.len(),
                        |i: int|
                            if i < e {
                                None
                            } else {
                                w.move_intents[i]
                            },
                    ),
                    ..w
                }),
            decreases n - e,
        {
            if ecs.positions[e].is_some() {
                if let Some(movement) = ecs.move_intents[e] {
                    ecs.positions.set(e, Some(Position { x: movement.loc.x, y: movement.loc.y }));
                    let mut slot: Option<Viewshed> = None;
                    core::mem::swap(&mut slot, &mut ecs.viewsheds[e]);
                    if let Some(viewshed) = slot {
                        let mut viewshed = viewshed;
                        viewshed.dirty = true;
                        ecs.viewsheds.set(e, Some(viewshed));
                    }
                }
            }
            ecs.move_intents.set(e, None);
            e = e + 1;
            assert(ecs@.positions =~= Seq::new(
                w.len(),
                |i: int|
                    if i < e && moved(w, i) {
                        Some(
                            Position {
                                x: w.move_intents[i].unwrap().loc.x,
                                y: w.move_intents[i].unwrap().loc.y,
                            },
                        )
                    } else {
                        w.positions[i]
                    },
            ));
            assert(ecs@.viewsheds =~= Seq::new(
                w.len(),
                |i: int|
                    if i < e && moved(w, i) && w.viewsheds[i] is Some {
                        Some(Viewshed { dirty: true, ..w.viewsheds[i].unwrap() })
                    } else {
                        w.viewsheds[i]
                    },
            ));
            assert(ecs@.move_intents =~= Seq::new(
                w.len(),
                |i: int|
                    if i < e {
                        None
                    } else {
                        w.move_intents[i]
                    },
            ));
        }
        assert(ecs@.move_intents =~= all_none(w.len()));
        assert(ecs@.positions =~= Seq::new(
            w.len(),
            |i: int|
                if moved(w, i) {
                    Some(Position { x: w.move_intents[i].unwrap().loc.x, y: w.move_intents[i].unwrap().loc.y })
                } else {
                    w.positions[i]
                },
        ));
        assert(ecs@.viewsheds =~= Seq::new(
            w.len(),
            |i: int|
                if moved(w, i) && w.viewsheds[i] is Some {
                    Some(Viewshed { dirty: true, ..w.viewsheds[i].unwrap() })
                } else {
                    w.viewsheds[i]
                },
        ));
    }
}

/// Actor `e` stands somewhere with no health left.
pub open spec fn dying(w: WorldView, e: int) -> bool {
    w.positions[e] is Some && w.healths[e] is Some && w.healths[e].unwrap().current <= 0
}

/// Actor `e` dies and is removed: the primary actor never is.
pub open spec fn removed(w: WorldView, e: int) -> bool {
    dying(w, e) && e != w.player
}

/// The actions that the death triggers of the first `n` actors set off.
pub open spec fn death_events(w: WorldView, n: int) -> Seq<EventView>
    decreases n,
{
    if n <= 0 {
        Seq::empty()
    } else {
        death_events(w, n - 1) + if dying(w, n - 1) && w.death_triggers[n - 1] is Some {
            let t = w.death_triggers[n - 1].unwrap();
            seq![new_event(t.event, t.range, w.positions[n - 1].unwrap().point(), true)]
        } else {
            Seq::empty()
        }
    }
}

/// Every death trigger that goes off fits its cells in `i32`.
pub open spec fn triggers_fit(w: WorldView) -> bool {
    forall|e: int|
        0 <= e < w.len() && dying(w, e) && (#[trigger] w.death_triggers[e]) is Some ==> range_fits(
            w.death_triggers[e].unwrap().range,
            w.positions[e].unwrap().point(),
        )
}

/// The table with the slots of the first `k` removed actors emptied.
pub open spec fn cleared_upto<T>(s: Seq<Option<T>>, w: WorldView, k: int) -> Seq<Option<T>> {
    Seq::new(s.len(), |e: int| if e < k && removed(w, e) { None } else { s[e] })
}

/// The table with the slots of every removed actor emptied.
pub open spec fn cleared<T>(s: Seq<Option<T>>, w: WorldView) -> Seq<Option<T>> {
    Seq::new(s.len(), |e: int| if removed(w, e) { None } else { s[e] })
}

/// Handles actors whose health has run out.
pub struct DeathSystem;

impl DeathSystem {
    /// Each actor, in turn, that stands somewhere with no health left sets
    /// off its death trigger, if it has one, where it stands; then every
    /// such actor but the primary one is removed.
    pub fn run(&mut self, ecs: &mut World)
        requires
            old(ecs).wf(),
            triggers_fit(old(ecs)@),
        ensures
            final(ecs).wf(),
            final(ecs)@ == (WorldView {
                stack: old(ecs)@.stack + death_events(old(ecs)@, old(ecs)@.len() as int),
                positions: cleared(old(ecs)@.positions, old(ecs)@),
                healths: cleared(old(ecs)@.healths, old(ecs)@),
                schedulables: cleared(old(ecs)@.schedulables, old(ecs)@),
                can_act: cleared(old(ecs)@.can_act, old(ecs)@),
                can_react: cleared(old(ecs)@.can_react, old(ecs)@),
                blocks_tile: cleared(old(ecs)@.blocks_tile, old(ecs)@),
                death_triggers: cleared(old(ecs)@.death_triggers, old(ecs)@),
                viewsheds: cleared(old(ecs)@.viewsheds, old(ecs)@),
                move_intents: cleared(old(ecs)@.move_intents, old(ecs)@),
                attack_intents: cleared(old(ecs)@.attack_intents, old(ecs)@),
                ..old(ecs)@
            }),
    {
        let n = ecs.positions.len();
        let mut triggers: Vec<Option<DeathTrigger>> = none_table(n);
        core::mem::swap(&mut triggers, &mut ecs.death_triggers);
        let mut e: usize = 0;
        while e < n
            invariant
                ecs.wf(),
                n == old(ecs)@.len(),
                e <= n,
                triggers@ == old(ecs)@.death_triggers,
                triggers@.len() == n,
                old(ecs)@.wf(),
                triggers_fit(old(ecs)@),
                ecs@ == (WorldView {
                    stack: old(ecs)@.stack + death_events(old(ecs)@, e as int),
                    death_triggers: all_none(n as nat),
                    ..old(ecs)@
                }),
            decreases n - e,
        {
            if let Some(pos) = ecs.positions[e] {
                if let Some(health) = ecs.healths[e] {
                    if health.current <= 0 {
                        if let Some(trigger) = &triggers[e] {
                            assert(triggers@[e as int] == Some(*trigger));
                            assert(range_fits(trigger.range, pos.point()));
                            add_event(ecs, &trigger.event, &trigger.range, pos.as_point(), true);
                        }
                    }
                }
            }
            e = e + 1;
            assert(ecs@.stack =~= old(ecs)@.stack + death_events(old(ecs)@, e as int));
        }
        core::mem::swap(&mut triggers, &mut ecs.death_triggers);
        let ghost w1 = ecs@;
        assert(w1 == (WorldView { stack: old(ecs)@.stack + death_events(old(ecs)@, n as int), ..old(ecs)@ }));
        let player = ecs.player;
        e = 0;
        assert(ecs@.positions =~= cleared_upto(w1.positions, w1, 0));
        assert(ecs@.healths =~= cleared_upto(w1.healths, w1, 0));
        assert(ecs@.schedulables =~= cleared_upto(w1.schedulables, w1, 0));
        assert(ecs@.can_act =~= cleared_upto(w1.can_act, w1, 0));
        assert(ecs@.can_react =~= cleared_upto(w1.can_react, w1, 0));
        assert(ecs@.blocks_tile =~= cleared_upto(w1.blocks_tile, w1, 0));
        assert(ecs@.death_triggers =~= cleared_upto(w1.death_triggers, w1, 0));
        assert(ecs@.viewsheds =~= cleared_upto(w1.viewsheds, w1, 0));
        assert(ecs@.move_intents =~= cleared_upto(w1.move_intents, w1, 0));
        assert(ecs@.attack_intents =~= cleared_upto(w1.attack_intents, w1, 0));
        while e < n
            invariant
                ecs.wf(),
                w1.wf(),
                n == w1.len(),
                e <= n,
                player == w1.player,
                ecs@ == (WorldView {
                    positions: cleared_upto(w1.positions, w1, e as int),
                    healths: cleared_upto(w1.healths, w1, e as int),
                    schedulables: cleared_upto(w1.schedulables, w1, e as int),
                    can_act: cleared_upto(w1.can_act, w1, e as int),
                    can_react: cleared_upto(w1.can_react, w1, e as int),
                    blocks_tile: cleared_upto(w1.blocks_tile, w1, e as int),
                    death_triggers: cleared_upto(w1.death_triggers, w1, e as int),
                    viewsheds: cleared_upto(w1.viewsheds, w1, e as int),
                    move_intents: cleared_upto(w1.move_intents, w1, e as int),
                    attack_intents: cleared_upto(w1.attack_intents, w1, e as int),
                    ..w1
                }),
            decreases n - e,
        {
            let mut dies = false;
            if ecs.positions[e].is_some() {
                if let Some(health) = ecs.healths[e] {
                    dies = health.current <= 0 && e != player;
                }
            }
            if dies {
                ecs.delete_entity(e);
            }
            e = e + 1;
            assert(ecs@.positions =~= cleared_upto(w1.positions, w1, e as int));
            assert(ecs@.healths =~= cleared_upto(w1.healths, w1, e as int));
            assert(ecs@.schedulables =~= cleared_upto(w1.schedulables, w1, e as int));
            assert(ecs@.can_act =~= cleared_upto(w1.can_act, w1, e as int));
            assert(ecs@.can_react =~= cleared_upto(w1.can_react, w1, e as int));
            assert(ecs@.blocks_tile =~= cleared_upto(w1.blocks_tile, w1, e as int));
            assert(ecs@.death_triggers =~= cleared_upto(w1.death_triggers, w1, e as int));
            assert(ecs@.viewsheds =~= cleared_upto(w1.viewsheds, w1, e as int));
            assert(ecs@.move_intents =~= cleared_upto(w1.move_intents, w1, e as int));
            assert(ecs@.attack_intents =~= cleared_upto(w1.attack_intents, w1, e as int));
        }
        assert(cleared_upto(w1.positions, w1, n as int) =~= cleared(old(ecs)@.positions, old(ecs)@));
        assert(cleared_upto(w1.healths, w1, n as int) =~= cleared(old(ecs)@.healths, old(ecs)@));
        assert(cleared_upto(w1.schedulables, w1, n as int) =~= cleared(old(ecs)@.schedulables, old(ecs)@));
        assert(cleared_upto(w1.can_act, w1, n as int) =~= cleared(old(ecs)@.can_act, old(ecs)@));
        assert(cleared_upto(w1.can_react, w1, n as int) =~= cleared(old(ecs)@.can_react, old(ecs)@));
        assert(cleared_upto(w1.blocks_tile, w1, n as int) =~= cleared(old(ecs)@.blocks_tile, old(ecs)@));
        assert(cleared_upto(w1.death_triggers, w1, n as int) =~= cleared(old(ecs)@.death_triggers, old(ecs)@));
        assert(cleared_upto(w1.viewsheds, w1, n as int) =~= cleared(old(ecs)@.viewsheds, old(ecs)@));
        assert(cleared_upto(w1.move_intents, w1, n as int) =~= cleared(old(ecs)@.move_intents, old(ecs)@));
        assert(cleared_upto(w1.attack_intents, w1, n as int) =~= cleared(old(ecs)@.attack_intents, old(ecs)@));
    }
}

/// `a + b`, held to at most `i32::MAX`.
pub open spec fn offset_plus(a: i32, b: int) -> i32 {
    if a + b > i32::MAX {
        i32::MAX
    } else {
        (a + b) as i32
    }
}

/// The card on screen made from the `i`-th requested card.
pub open spec fn card_shown(c: CardRequest, i: int) -> CardLifetime {
    CardLifetime { remaining_ms: CARD_LIFETIME_MS, data: CardRequest { offset: offset_plus(c.offset, i), ..c } }
}

/// Puts every requested card on screen, in order, the `i`-th one moved `i`
/// slots further, for `CARD_LIFETIME_MS`.
pub fn spawn_cards(ecs: &mut World)
    requires
        old(ecs).wf(),
        old(ecs).card_lifetimes@.len() + old(ecs).particles.card_stack@.len() <= i32::MAX,
    ensures
        final(ecs).wf(),
        final(ecs).card_lifetimes@ == old(ecs).card_lifetimes@ + Seq::new(
            old(ecs).particles.card_stack@.len(),
            |i: int| card_shown(old(ecs).particles.card_stack@[i], i),
        ),
        final(ecs)@ == (WorldView {
            card_lifetimes: final(ecs)@.card_lifetimes,
            cards: Seq::empty(),
            ..old(ecs)@
        }),
{
    let mut pending: Vec<CardRequest> = Vec::new();
    core::mem::swap(&mut pending, &mut ecs.particles.card_stack);
    let ghost cs = pending@;
    let n = pending.len();
    let mut i: usize = 0;
    assert(ecs@.cards =~= Seq::empty());
    assert(ecs.card_lifetimes@ =~= old(ecs).card_lifetimes@ + Seq::new(0, |j: int| card_shown(cs[j], j)));
    while i < n
        invariant
            n == cs.len(),
            i <= n,
            pending@ == cs.skip(i as int),
            ecs.particles.card_stack@.len() == 0,
            old(ecs).card_lifetimes@.len() + n <= i32::MAX,
            ecs.card_lifetimes@ == old(ecs).card_lifetimes@ + Seq::new(i as nat, |j: int| card_shown(cs[j], j)),
            ecs@ == (WorldView { card_lifetimes: ecs@.card_lifetimes, cards: Seq::empty(), ..old(ecs)@ }),
            ecs.wf(),
        decreases n - i,
    {
        let request = pending.remove(0);
        assert(request == cs[i as int]);
        let mut request = request;
        let offset: i64 = request.offset as i64 + i as i64;
        request.offset = if offset > i32::MAX as i64 {
            i32::MAX
        } else {
            offset as i32
        };
        ecs.card_lifetimes.push(CardLifetime { remaining_ms: CARD_LIFETIME_MS, data: request });
        i = i + 1;
        assert(pending@ =~= cs.skip(i as int));
        assert(ecs.card_lifetimes@ =~= old(ecs).card_lifetimes@ + Seq::new(i as nat, |j: int| card_shown(cs[j], j)));
    }
    assert(ecs@.cards =~= Seq::empty());
}

/// The cards still on screen once `elapsed` milliseconds have passed:
/// those with that much time left, with that much less.
pub open spec fn aged(s: Seq<CardLifetime>, elapsed: u32) -> Seq<CardLifetime>
    decreases s.len(),
{
    if s.len() == 0 {
        s
    } else {
        let c = s.last();
        aged(s.drop_last(), elapsed) + if c.remaining_ms >= elapsed {
            seq![CardLifetime { remaining_ms: (c.remaining_ms - elapsed) as u32, ..c }]
        } else {
            Seq::empty()
        }
    }
}

/// Lets `elapsed_ms` milliseconds pass for the cards on screen (see `aged`).
pub fn age_cards(ecs: &mut World, elapsed_ms: u32)
    requires
        old(ecs).wf(),
    ensures
        final(ecs).wf(),
        final(ecs)@ == (WorldView { card_lifetimes: aged(old(ecs)@.card_lifetimes, elapsed_ms), ..old(ecs)@ }),
{
    let mut pending: Vec<CardLifetime> = Vec::new();
    core::mem::swap(&mut pending, &mut ecs.card_lifetimes);
    let ghost cs = pending@;
    let n = pending.len();
    let mut i: usize = 0;
    while i < n
        invariant
            n == cs.len(),
            cs == old(ecs)@.card_lifetimes,
            i <= n,
            pending@ == cs.skip(i as int),
            ecs.card_lifetimes@ == aged(cs.take(i as int), elapsed_ms),
            ecs.card_lifetimes@.len() <= i,
            old(ecs).wf(),
            ecs@ == (WorldView { card_lifetimes: ecs@.card_lifetimes, ..old(ecs)@ }),
        decreases n - i,
    {
        let card = pending.remove(0);
        assert(card == cs[i as int]);
        assert(cs.take(i + 1).drop_last() =~= cs.take(i as int));
        if card.remaining_ms >= elapsed_ms {
            let mut card = card;
            card.remaining_ms = card.remaining_ms - elapsed_ms;
            ecs.card_lifetimes.push(card);
        }
        i = i + 1;
        assert(pending@ =~= cs.skip(i as int));
    }
    assert(cs.take(n as int) =~= cs);
}

/// Actor `e` is an opponent whose turn it is: it holds an authorization,
/// is not the primary actor, and has a position and a view.
pub open spec fn takes_turn(w: WorldView, e: int) -> bool {
    e != w.player && w.can_act[e] is Some && w.positions[e] is Some && w.viewsheds[e] is Some
}

/// The primary actor stands in the view of actor `e`.
pub open spec fn sees_player(w: WorldView, e: int) -> bool {
    w.viewsheds[e].unwrap().visible@.contains(w.positions[w.player as int].unwrap().point())
}

/// The opponents among the first `n` actors whose turn it is, in order,
/// each with whether it sees the primary actor.
pub open spec fn turns_upto(w: WorldView, n: int) -> Seq<(Entity, bool)>
    decreases n,
{
    if n <= 0 {
        Seq::empty()
    } else {
        turns_upto(w, n - 1) + if takes_turn(w, n - 1) {
            seq![((n - 1) as Entity, sees_player(w, n - 1))]
        } else {
            Seq::empty()
        }
    }
}

/// `w` once the opponents listed in `steps` have taken their turns: each
/// steps where it was told to, if anywhere, and its authorization ends.
/// An opponent whose authorization was a reaction window has spent its
/// reaction, taken or declined: it can no longer react.
pub open spec fn turns_taken(w: WorldView, steps: Seq<(Entity, Option<Point>)>) -> WorldView
    decreases steps.len(),
{
    if steps.len() == 0 {
        w
    } else {
        let v = turns_taken(w, steps.drop_last());
        let (e, step) = steps.last();
        if e < v.len() {
            WorldView {
                move_intents: match step {
                    Some(p) => v.move_intents.update(e as int, Some(MoveIntent { loc: p })),
                    None => v.move_intents,
                },
                can_act: v.can_act.update(e as int, None),
                can_react: if v.can_act[e as int] == Some(CanActFlag { is_reaction: true }) {
                    v.can_react.update(e as int, None)
                } else {
                    v.can_react
                },
                ..v
            }
        } else {
            v
        }
    }
}

/// The opponents' turns. Which cell an opponent steps to is found by a
/// path search outside the library; who acts, and what acting changes,
/// is decided here.
pub struct AiSystem;

impl AiSystem {
    /// The opponents whose turn it is, in order of actors, each with whether
    /// it sees the primary actor.
    pub fn turns(&self, ecs: &World) -> (r: Vec<(Entity, bool)>)
        requires
            ecs.wf(),
            ecs.player < ecs@.len(),
            ecs@.positions[ecs.player as int] is Some,
        ensures
            r@ == turns_upto(ecs@, ecs@.len() as int),
    {
        let player = ecs.player;
        let target = match ecs.positions[player] {
            Some(p) => p.as_point(),
            None => Point::new(0, 0),
        };
        let n = ecs.positions.len();
        let mut r: Vec<(Entity, bool)> = Vec::new();
        let mut e: usize = 0;
        while e < n
            invariant
                ecs.wf(),
                n == ecs@.len(),
                e <= n,
                player == ecs.player,
                target == ecs@.positions[player as int].unwrap().point(),
                r@ == turns_upto(ecs@, e as int),
            decreases n - e,
        {
            if e != player && ecs.can_act[e].is_some() && ecs.positions[e].is_some() {
                if let Some(viewshed) = &ecs.viewsheds[e] {
                    let mut sees = false;
                    let mut k: usize = 0;
                    while k < viewshed.visible.len()
                        invariant
                            k <= viewshed.visible@.len(),
                            sees == exists|j: int| 0 <= j < k && viewshed.visible@[j] == target,
                        decreases viewshed.visible@.len() - k,
                    {
                        if viewshed.visible[k] == target {
                            sees = true;
                        }
                        k = k + 1;
                    }
                    assert(sees == viewshed.visible@.contains(target));
                    r.push((e, sees));
                }
            }
            e = e + 1;
            assert(r@ =~= turns_upto(ecs@, e as int));
        }
        r
    }

    /// Ends the listed opponents' turns (see `turns_taken`).
    pub fn finish(&mut self, ecs: &mut World, steps: &Vec<(Entity, Option<Point>)>)
        requires
            old(ecs).wf(),
        ensures
            final(ecs).wf(),
            final(ecs)@ == turns_taken(old(ecs)@, steps@),
    {
        let mut k: usize = 0;
        while k < steps.len()
            invariant
                ecs.wf(),
                k <= steps@.len(),
                ecs@ == turns_taken(old(ecs)@, steps@.take(k as int)),
            decreases steps@.len() - k,
        {
            let (e, step) = steps[k];
            assert(steps@.take(k + 1).drop_last() =~= steps@.take(k as int));
            assert(steps@.take(k + 1).last() == steps@[k as int]);
            if e < ecs.can_act.len() {
                if let Some(p) = step {
                    ecs.move_intents.set(e, Some(MoveIntent { loc: p }));
                }
                if let Some(flag) = ecs.can_act[e] {
                    if flag.is_reaction {
                        ecs.can_react.set(e, None);
                    }
                }
                ecs.can_act.set(e, None);
            }
            k = k + 1;
        }
        assert(steps@.take(k as int) =~= steps@);
    }
}

} // verus!
