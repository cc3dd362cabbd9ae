//! The actors of the simulation, their attributes, and the context that the
//! scheduler and the event stack share.
use crate::components::{
    AttackIntent, BlocksTile, CanActFlag, CanReactFlag, DeathTrigger, Health, MoveIntent, Position,
    Schedulable, Viewshed,
};
use crate::events::{Event, EventView};
use crate::particles::{CardLifetime, CardRequest, CardView, ParticleBuilder, ParticleRequest};
use vstd::prelude::*;

verus! {

/// An actor handle: its slot in each attribute table.
pub type Entity = usize;

/// Where the simulation stands between two ticks.
#[derive(Clone, Copy, Debug, PartialEq, Eq, Structural)]
pub enum RunState {
    /// The primary actor holds an authorization and a decision is awaited.
    AwaitingInput,
    /// Ticks may run.
    Running,
}

/// The state of the simulation: one table per attribute, each with a slot
/// per actor, the pending actions, and what the presentation layer is to
/// show.
pub struct World {
    pub positions: Vec<Option<Position>>,
    pub healths: Vec<Option<Health>>,
    pub schedulables: Vec<Option<Schedulable>>,
    pub can_act: Vec<Option<CanActFlag>>,
    pub can_react: Vec<Option<CanReactFlag>>,
    pub blocks_tile: Vec<Option<BlocksTile>>,
    pub death_triggers: Vec<Option<DeathTrigger>>,
    pub viewsheds: Vec<Option<Viewshed>>,
    pub move_intents: Vec<Option<MoveIntent>>,
    pub attack_intents: Vec<Option<AttackIntent>>,
    /// The primary actor.
    pub player: Entity,
    pub run_state: RunState,
    /// Pending actions; the last one is the top of the stack.
    pub stack: Vec<Event>,
    /// Cards of actions that hit the player, waiting for their action to
    /// resolve.
    pub card_stack: Vec<CardRequest>,
    /// Cards on screen.
    pub card_lifetimes: Vec<CardLifetime>,
    pub particles: ParticleBuilder,
}

/// What a `World` holds, as plain values.
pub struct WorldView {
    pub positions: Seq<Option<Position>>,
    pub healths: Seq<Option<Health>>,
    pub schedulables: Seq<Option<Schedulable>>,
    pub can_act: Seq<Option<CanActFlag>>,
    pub can_react: Seq<Option<CanReactFlag>>,
    pub blocks_tile: Seq<Option<BlocksTile>>,
    pub death_triggers: Seq<Option<DeathTrigger>>,
    pub viewsheds: Seq<Option<Viewshed>>,
    pub move_intents: Seq<Option<MoveIntent>>,
    pub attack_intents: Seq<Option<AttackIntent>>,
    pub player: Entity,
    pub run_state: RunState,
    pub stack: Seq<EventView>,
    pub card_stack: Seq<CardView>,
    pub card_lifetimes: Seq<CardLifetime>,
    pub particles: Seq<ParticleRequest>,
    pub cards: Seq<CardView>,
}

impl View for World {
    type V = WorldView;

    open spec fn view(&self) -> WorldView {
        WorldView {
            positions: self.positions@,
            healths: self.healths@,
            schedulables: self.schedulables@,
            can_act: self.can_act@,
            can_react: self.can_react@,
            blocks_tile: self.blocks_tile@,
            death_triggers: self.death_triggers@,
            viewsheds: self.viewsheds@,
            move_intents: self.move_intents@,
            attack_intents: self.attack_intents@,
            player: self.player,
            run_state: self.run_state,
            stack: self.stack@.map_values(|e: Event| e@),
            card_stack: self.card_stack@.map_values(|c: CardRequest| c@),
            card_lifetimes: self.card_lifetimes@,
            particles: self.particles.requests@,
            cards: self.particles.card_stack@.map_values(|c: CardRequest| c@),
        }
    }
}

impl WorldView {
    /// Number of actor slots.
    pub open spec fn len(self) -> nat {
        self.positions.len()
    }

    /// Every table has one slot per actor, every energy clock has positive
    /// `base` and `delta`, and the count of cards on screen fits in `i32`.
    pub open spec fn wf(self) -> bool {
        &&& self.healths.len() == self.len()
        &&& self.schedulables.len() == self.len()
        &&& self.can_act.len() == self.len()
        &&& self.can_react.len() == self.len()
        &&& self.blocks_tile.len() == self.len()
        &&& self.death_triggers.len() == self.len()
        &&& self.viewsheds.len() == self.len()
        &&& self.move_intents.len() == self.len()
        &&& self.attack_intents.len() == self.len()
        &&& forall|e: int|
            0 <= e < self.len() && (#[trigger] self.schedulables[e]).is_some()
                ==> self.schedulables[e].unwrap().wf()
        &&& self.card_lifetimes.len() <= i32::MAX
    }

    /// The primary actor exists and holds an authorization.
    pub open spec fn player_can_act(self) -> bool {
        self.player < self.len() && self.can_act[self.player as int].is_some()
    }
}

impl World {
    pub open spec fn wf(&self) -> bool {
        self@.wf()
    }

    /// A world without actors, whose primary actor is slot `player`.
    pub fn new(player: Entity) -> (w: World)
        ensures
            w.wf(),
            w@.len() == 0,
            w@.player == player,
            w@.run_state == RunState::Running,
            w@.stack.len() == 0,
            w@.card_stack.len() == 0,
            w@.card_lifetimes.len() == 0,
            w@.particles.len() == 0,
            w@.cards.len() == 0,
    {
        let w = World {
            positions: Vec::new(),
            healths: Vec::new(),
            schedulables: Vec::new(),
            can_act: Vec::new(),
            can_react: Vec::new(),
            blocks_tile: Vec::new(),
            death_triggers: Vec::new(),
            viewsheds: Vec::new(),
            move_intents: Vec::new(),
            attack_intents: Vec::new(),
            player,
            run_state: RunState::Running,
            stack: Vec::new(),
            card_stack: Vec::new(),
            card_lifetimes: Vec::new(),
            particles: ParticleBuilder::new(),
        };
        assert(w@.stack =~= Seq::empty());
        assert(w@.card_stack =~= Seq::empty());
        assert(w@.cards =~= Seq::empty());
        w
    }

    /// Adds an actor with no attribute and returns its handle.
    pub fn create_entity(&mut self) -> (e: Entity)
        requires
            old(self).wf(),
        ensures
            final(self).wf(),
            e == old(self)@.len(),
            final(self)@ == (WorldView {
                positions: old(self)@.positions.push(None),
                healths: old(self)@.healths.push(None),
                schedulables: old(self)@.schedulables.push(None),
                can_act: old(self)@.can_act.push(None),
                can_react: old(self)@.can_react.push(None),
                blocks_tile: old(self)@.blocks_tile.push(None),
                death_triggers: old(self)@.death_triggers.push(None),
                viewsheds: old(self)@.viewsheds.push(None),
                move_intents: old(self)@.move_intents.push(None),
                attack_intents: old(self)@.attack_intents.push(None),
                ..old(self)@
            }),
    {
        let e = self.positions.len();
        self.positions.push(None);
        self.healths.push(None);
        self.schedulables.push(None);
        self.can_act.push(None);
        self.can_react.push(None);
        self.blocks_tile.push(None);
        self.death_triggers.push(None);
        self.viewsheds.push(None);
        self.move_intents.push(None);
        self.attack_intents.push(None);
        e
    }

    /// Number of pending actions.
    pub fn pending_events(&self) -> (n: usize)
        ensures
            n == self@.stack.len(),
    {
        self.stack.len()
    }

    /// Removes every attribute of actor `e`.
    pub fn delete_entity(&mut self, e: Entity)
        requires
            old(self).wf(),
            e < old(self)@.len(),
        ensures
            final(self).wf(),
            final(self)@ == (WorldView {
                positions: old(self)@.positions.update(e as int, None),
                healths: old(self)@.healths.update(e as int, None),
                schedulables: old(self)@.schedulables.update(e as int, None),
                can_act: old(self)@.can_act.update(e as int, None),
                can_react: old(self)@.can_react.update(e as int, None),
                blocks_tile: old(self)@.blocks_tile.update(e as int, None),
                death_triggers: old(self)@.death_triggers.update(e as int, None),
                viewsheds: old(self)@.viewsheds.update(e as int, None),
                move_intents: old(self)@.move_intents.update(e as int, None),
                attack_intents: old(self)@.attack_intents.update(e as int, None),
                ..old(self)@
            }),
    {
        self.positions.set(e, None);
        self.healths.set(e, None);
        self.schedulables.set(e, None);
        self.can_act.set(e, None);
        self.can_react.set(e, None);
        self.blocks_tile.set(e, None);
        self.death_triggers.set(e, None);
        self.viewsheds.set(e, None);
        self.move_intents.set(e, None);
        self.attack_intents.set(e, None);
    }
}

} // verus!
