//! Turn scheduling and re-entrant action resolution for a turn-based
//! tactical simulation.
//!
//! The crate is organised leaves first: `geometry` turns a targeting shape
//! into cells, `world` holds the actors and their attributes, `events`
//! queues and resolves actions on a re-entrant stack, `turn` runs the
//! energy-clock scheduler, and `reaction` records the primary actor's
//! decisions. `laws` proves how these fit together. Around them, `map`
//! builds the level, `player` and `systems` turn intents and deaths into
//! actions, and `particles` collects what is to be drawn.
pub mod components;
pub mod events;
pub mod geometry;
pub mod laws;
pub mod map;
pub mod particles;
pub mod player;
pub mod reaction;
pub mod systems;
pub mod turn;
pub mod world;

pub use components::{
    AttackIntent, BlocksTile, CanActFlag, CanReactFlag, DeathTrigger, Health, MoveIntent, Position,
    Schedulable, Viewshed,
};
pub use events::{
    DamageResolver, Event, EventResolver, EventType, ParticleResolver, add_event, get_name,
    get_resolver, pending_hits_have_health, process_stack,
};
pub use geometry::{Point, RangeType, range_fits_at, resolve_range_at};
pub use particles::{CardLifetime, CardRequest, ParticleBuilder, ParticleRequest, Rgb8};
pub use world::{Entity, RunState, World};
pub use turn::{TurnSystem, clocks_can_advance};
pub use reaction::{clear_lingering_cards, update_reaction_state};
pub use map::{MapIndexSystem, Rect, TileMap, TileType, build_rogue_map};
pub use player::{take_player_turn, try_move_player};
pub use systems::{AiSystem, AttackSystem, DeathSystem, MovementSystem, age_cards, spawn_cards};
