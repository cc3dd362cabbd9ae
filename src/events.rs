//! The event stack: actions wait on it, last in first out, until they are
//! resolved or until they hit an actor that may react to them.
use crate::components::{CanActFlag, CanReactFlag, Health, Position};
use crate::geometry::{Point, RangeType, range_at, range_fits, resolve_range_at};
use crate::particles::{CardRequest, CardView, ParticleRequest, Rgb8};
use crate::world::{Entity, World, WorldView};
use vstd::prelude::*;

verus! {

/// Colour of the flash drawn on a cell struck by damage: red.
pub open spec fn damage_flash_color() -> Rgb8 {
    Rgb8 { r: 255, g: 0, b: 0 }
}

/// How long the damage flash stays on screen, in milliseconds.
pub const DAMAGE_FLASH_MS: u32 = 600;

/// The glyph that `rltk::to_cp437` gives for a character.
pub uninterp spec fn cp437_of(c: char) -> u16;

/// Relies on `rltk::to_cp437`, a table from characters to code page 437
/// glyphs: its result depends on the character alone.
#[verifier::external_body]
fn glyph(c: char) -> (r: u16)
    ensures
        r == cp437_of(c),
{
    rltk::to_cp437(c)
}

/// The kinds of action.
#[derive(Clone, Copy, Debug, PartialEq, Eq, Structural)]
pub enum EventType {
    /// Takes `amount` from the health of every actor struck.
    Damage { amount: i32 },
    /// Shows a visual effect.
    ParticleSpawn { request: ParticleRequest },
}

/// The name under which an action is announced, if any.
pub open spec fn event_name(event: EventType) -> Option<Seq<char>> {
    match event {
        EventType::Damage { .. } => Some("Damage"@),
        _ => None,
    }
}

pub fn get_name(event: &EventType) -> (r: Option<String>)
    ensures
        r matches Some(s) ==> event_name(*event) == Some(s@),
        r is None ==> event_name(*event) is None,
{
    match event {
        EventType::Damage { .. } => Some("Damage".to_owned()),
        _ => None,
    }
}

/// Applies numeric damage to the struck actors.
#[derive(Clone, Copy, Debug, PartialEq, Eq, Structural)]
pub struct DamageResolver {
    pub amount: i32,
}

/// Hands a visual effect to the presentation layer.
#[derive(Clone, Copy, Debug, PartialEq, Eq, Structural)]
pub struct ParticleResolver {
    pub request: ParticleRequest,
}

/// The resolution strategy of an action, one variant per kind.
#[derive(Clone, Copy, Debug, PartialEq, Eq, Structural)]
pub enum EventResolver {
    Damage(DamageResolver),
    Particle(ParticleResolver),
}

pub open spec fn resolver_of(event: EventType) -> EventResolver {
    match event {
        EventType::Damage { amount } => EventResolver::Damage(DamageResolver { amount }),
        EventType::ParticleSpawn { request } => EventResolver::Particle(
            ParticleResolver { request },
        ),
    }
}

pub fn get_resolver(event: &EventType) -> (r: EventResolver)
    ensures
        r == resolver_of(*event),
{
    match event {
        EventType::Damage { amount } => EventResolver::Damage(DamageResolver { amount: *amount }),
        EventType::ParticleSpawn { request } => EventResolver::Particle(
            ParticleResolver { request: *request },
        ),
    }
}

/// A pending action, with its target cells fixed when it was queued.
#[derive(Clone, Debug)]
pub struct Event {
    pub resolver: EventResolver,
    pub name: Option<String>,
    pub source: Option<Entity>,
    pub target_tiles: Vec<Point>,
    pub invokes_reaction: bool,
}

/// What an `Event` holds, as plain values.
pub struct EventView {
    pub resolver: EventResolver,
    pub name: Option<Seq<char>>,
    pub source: Option<Entity>,
    pub targets: Seq<Point>,
    pub invokes_reaction: bool,
}

impl View for Event {
    type V = EventView;

    open spec fn view(&self) -> EventView {
        EventView {
            resolver: self.resolver,
            name: match self.name {
                Some(s) => Some(s@),
                None => None,
            },
            source: self.source,
            targets: self.target_tiles@,
            invokes_reaction: self.invokes_reaction,
        }
    }
}

/// The action that `add_event` queues.
pub open spec fn new_event(
    event: EventType,
    range: RangeType,
    loc: Point,
    invokes_reaction: bool,
) -> EventView {
    EventView {
        resolver: resolver_of(event),
        name: event_name(event),
        source: None,
        targets: range_at(range, loc),
        invokes_reaction,
    }
}

/// `w` with `e` on top of its stack.
pub open spec fn pushed(w: WorldView, e: EventView) -> WorldView {
    WorldView { stack: w.stack.push(e), ..w }
}

/// Queues an action of kind `event_type` on the cells that `range` covers
/// at `loc`.
pub fn add_event(
    ecs: &mut World,
    event_type: &EventType,
    range: &RangeType,
    loc: Point,
    invokes_reaction: bool,
)
    requires
        range_fits(*range, loc),
    ensures
        final(ecs)@ == pushed(old(ecs)@, new_event(*event_type, *range, loc, invokes_reaction)),
{
    let event = Event {
        resolver: get_resolver(event_type),
        name: get_name(event_type),
        source: None,
        target_tiles: resolve_range_at(range, loc),
        invokes_reaction,
    };
    ecs.stack.push(event);
    assert(ecs@.stack =~= old(ecs)@.stack.push(new_event(*event_type, *range, loc, invokes_reaction)));
}

/// `e` once for each of the first `j` targets that equals `p`.
pub open spec fn hits(p: Point, targets: Seq<Point>, e: Entity, j: int) -> Seq<Entity>
    decreases j,
{
    if j <= 0 {
        Seq::empty()
    } else {
        let s = hits(p, targets, e, j - 1);
        if targets[j - 1] == p {
            s.push(e)
        } else {
            s
        }
    }
}

/// The actors among the first `n` that stand on a target cell, in order of
/// their handles, each once per target cell that holds it.
pub open spec fn affected_upto(
    positions: Seq<Option<Position>>,
    targets: Seq<Point>,
    n: int,
) -> Seq<Entity>
    decreases n,
{
    if n <= 0 {
        Seq::empty()
    } else {
        affected_upto(positions, targets, n - 1) + match positions[n - 1] {
            Some(p) => hits(p.point(), targets, (n - 1) as Entity, targets.len() as int),
            None => Seq::empty(),
        }
    }
}

/// The actors that stand on a target cell.
pub open spec fn affected(positions: Seq<Option<Position>>, targets: Seq<Point>) -> Seq<Entity> {
    affected_upto(positions, targets, positions.len() as int)
}

proof fn lemma_hits_are(p: Point, targets: Seq<Point>, e: Entity, j: int)
    ensures
        forall|k: int| 0 <= k < hits(p, targets, e, j).len() ==> #[trigger] hits(p, targets, e, j)[k] == e,
    decreases j,
{
    if j > 0 {
        lemma_hits_are(p, targets, e, j - 1);
        let s = hits(p, targets, e, j - 1);
        assert forall|k: int| 0 <= k < hits(p, targets, e, j).len() implies #[trigger] hits(p, targets, e, j)[k] == e by {
            if targets[j - 1] == p {
                assert(hits(p, targets, e, j) == s.push(e));
                if k < s.len() {
                    assert(s[k] == e);
                }
            }
        }
    }
}

proof fn lemma_affected_bound(positions: Seq<Option<Position>>, targets: Seq<Point>, n: int)
    requires
        n <= positions.len(),
        positions.len() <= usize::MAX,
    ensures
        forall|k: int|
            0 <= k < affected_upto(positions, targets, n).len() ==> #[trigger] affected_upto(
                positions,
                targets,
                n,
            )[k] < n,
    decreases n,
{
    if n > 0 {
        lemma_affected_bound(positions, targets, n - 1);
        let a = affected_upto(positions, targets, n - 1);
        let b = match positions[n - 1] {
            Some(p) => hits(p.point(), targets, (n - 1) as Entity, targets.len() as int),
            None => Seq::empty(),
        };
        if let Some(p) = positions[n - 1] {
            lemma_hits_are(p.point(), targets, (n - 1) as Entity, targets.len() as int);
        }
        assert(affected_upto(positions, targets, n) == a + b);
        assert forall|k: int| 0 <= k < (a + b).len() implies #[trigger] (a + b)[k] < n by {
            if k < a.len() {
                assert((a + b)[k] == a[k]);
            } else {
                assert((a + b)[k] == b[k - a.len()]);
            }
        }
    }
}

/// Every actor struck is one of the world's actors.
pub proof fn lemma_affected_in_world(positions: Seq<Option<Position>>, targets: Seq<Point>)
    requires
        positions.len() <= usize::MAX,
    ensures
        forall|k: int|
            0 <= k < affected(positions, targets).len() ==> #[trigger] affected(
                positions,
                targets,
            )[k] < positions.len(),
{
    lemma_affected_bound(positions, targets, positions.len() as int);
}

/// Lists the actors that stand on a target cell.
fn get_affected_entities(ecs: &World, targets: &Vec<Point>) -> (r: Vec<Entity>)
    ensures
        r@ == affected(ecs@.positions, targets@),
{
    let mut affected_list: Vec<Entity> = Vec::new();
    let mut e: usize = 0;
    while e < ecs.positions.len()
        invariant
            e <= ecs@.positions.len(),
            affected_list@ == affected_upto(ecs@.positions, targets@, e as int),
        decreases ecs@.positions.len() - e,
    {
        if let Some(pos) = ecs.positions[e] {
            let p = pos.as_point();
            let ghost before = affected_list@;
            let mut j: usize = 0;
            while j < targets.len()
                invariant
                    e < ecs@.positions.len(),
                    ecs@.positions[e as int] == Some(pos),
                    p == pos.point(),
                    j <= targets@.len(),
                    affected_list@ == before + hits(p, targets@, e, j as int),
                decreases targets@.len() - j,
            {
                if targets[j] == p {
                    affected_list.push(e);
                }
                j = j + 1;
            }
        }
        e = e + 1;
        assert(affected_list@ =~= affected_upto(ecs@.positions, targets@, e as int));
    }
    affected_list
}

fn entity_can_react(ecs: &World, target: Entity) -> (r: bool)
    ensures
        r == can_react_at(ecs@.can_react, target),
{
    target < ecs.can_react.len() && ecs.can_react[target].is_some()
}

/// The actor exists and may be offered a reaction window.
pub open spec fn can_react_at(can_react: Seq<Option<CanReactFlag>>, e: Entity) -> bool {
    e < can_react.len() && can_react[e as int].is_some()
}

/// The actors struck that may react, in order and with repeats.
pub open spec fn reactors(can_react: Seq<Option<CanReactFlag>>, hit: Seq<Entity>) -> Seq<Entity> {
    hit.filter(|e: Entity| can_react_at(can_react, e))
}

proof fn lemma_reactors_push(can_react: Seq<Option<CanReactFlag>>, s: Seq<Entity>, x: Entity)
    ensures
        reactors(can_react, s.push(x)) == if can_react_at(can_react, x) {
            reactors(can_react, s).push(x)
        } else {
            reactors(can_react, s)
        },
{
    let p = |e: Entity| can_react_at(can_react, e);
    reveal(Seq::filter);
    assert(s.push(x).drop_last() =~= s);
    assert(reactors(can_react, s.push(x)) == s.push(x).filter(p));
    assert(reactors(can_react, s) == s.filter(p));
    assert(s.push(x).filter(p) == if p(x) { s.filter(p).push(x) } else { s.filter(p) });
}

/// The world as it stands when `e` halts the drain for a reaction: every
/// reactor holds a reaction window, and `e` is back on top of the stack.
pub open spec fn suspended(w: WorldView, e: EventView, hit: Seq<Entity>) -> WorldView {
    WorldView {
        can_act: Seq::new(
            w.can_act.len(),
            |i: int|
                if reactors(w.can_react, hit).contains(i as Entity) {
                    Some(CanActFlag { is_reaction: true })
                } else {
                    w.can_act[i]
                },
        ),
        stack: w.stack.push(e),
        ..w
    }
}

/// `a - b`, held to the range of `i32`.
pub open spec fn saturating_sub(a: i32, b: i32) -> i32 {
    let d = a - b;
    if d < i32::MIN {
        i32::MIN
    } else if d > i32::MAX {
        i32::MAX
    } else {
        d as i32
    }
}

/// Actor `e` stands on one of the target cells.
pub open spec fn struck(positions: Seq<Option<Position>>, targets: Seq<Point>, e: int) -> bool {
    positions[e] is Some && targets.contains(positions[e].unwrap().point())
}

/// Every actor standing on a target cell has health: striking one that has
/// none breaks the world's invariant.
pub open spec fn struck_have_health(w: WorldView, targets: Seq<Point>) -> bool {
    forall|e: int| 0 <= e < w.len() && #[trigger] struck(w.positions, targets, e) ==> w.healths[e] is Some
}

/// Every pending damage action strikes only actors that have health.
pub open spec fn hits_have_health(w: WorldView) -> bool {
    forall|i: int|
        0 <= i < w.stack.len() && (#[trigger] w.stack[i]).resolver is Damage ==> struck_have_health(
            w,
            w.stack[i].targets,
        )
}

fn targets_have_health(ecs: &World, targets: &Vec<Point>) -> (r: bool)
    requires
        ecs.wf(),
    ensures
        r == struck_have_health(ecs@, targets@),
{
    let mut e: usize = 0;
    while e < ecs.positions.len()
        invariant
            ecs.wf(),
            e <= ecs@.len(),
            forall|x: int| 0 <= x < e && #[trigger] struck(ecs@.positions, targets@, x) ==> ecs@.healths[x] is Some,
        decreases ecs@.len() - e,
    {
        if let Some(pos) = ecs.positions[e] {
            if contains_point(targets, pos.as_point()) && ecs.healths[e].is_none() {
                assert(struck(ecs@.positions, targets@, e as int));
                return false;
            }
        }
        e = e + 1;
    }
    true
}

/// Tells whether every pending damage action strikes only actors that
/// have health.
pub fn pending_hits_have_health(ecs: &World) -> (r: bool)
    requires
        ecs.wf(),
    ensures
        r == hits_have_health(ecs@),
{
    let mut i: usize = 0;
    while i < ecs.stack.len()
        invariant
            ecs.wf(),
            i <= ecs@.stack.len(),
            forall|j: int|
                0 <= j < i && (#[trigger] ecs@.stack[j]).resolver is Damage ==> struck_have_health(
                    ecs@,
                    ecs@.stack[j].targets,
                ),
        decreases ecs@.stack.len() - i,
    {
        assert(ecs@.stack[i as int] == ecs.stack@[i as int]@);
        if let EventResolver::Damage(_) = ecs.stack[i].resolver {
            if !targets_have_health(ecs, &ecs.stack[i].target_tiles) {
                return false;
            }
        }
        i = i + 1;
    }
    true
}

/// The health table after `amount` is taken once from each struck actor,
/// however many target cells hold it.
pub open spec fn damaged(
    healths: Seq<Option<Health>>,
    positions: Seq<Option<Position>>,
    targets: Seq<Point>,
    amount: i32,
) -> Seq<Option<Health>> {
    Seq::new(
        healths.len(),
        |e: int|
            if e < positions.len() && struck(positions, targets, e) && healths[e] is Some {
                let h = healths[e].unwrap();
                Some(Health { current: saturating_sub(h.current, amount), ..h })
            } else {
                healths[e]
            },
    )
}

/// The flash drawn on cell `p` after a hit.
pub open spec fn flash_request(p: Point) -> ParticleRequest {
    ParticleRequest {
        position: p,
        color: damage_flash_color(),
        symbol: cp437_of('\u{2588}'),
        lifetime_ms: DAMAGE_FLASH_MS,
    }
}

/// The effect action that flashes cell `p` after a hit.
pub open spec fn flash_at(p: Point) -> EventView {
    new_event(
        EventType::ParticleSpawn { request: flash_request(p) },
        RangeType::Empty,
        Point { x: 0, y: 0 },
        false,
    )
}

/// A flash for each cell, in order.
pub open spec fn flashes(targets: Seq<Point>) -> Seq<EventView> {
    targets.map_values(|p: Point| flash_at(p))
}

/// What damage of `amount` on `targets` does: a flash is queued for each
/// cell, then every actor standing on a target cell loses `amount` health,
/// once, even where its cell is listed more than once.
pub open spec fn damage_spec(w: WorldView, amount: i32, targets: Seq<Point>) -> WorldView {
    WorldView {
        stack: w.stack + flashes(targets),
        healths: damaged(w.healths, w.positions, targets, amount),
        ..w
    }
}

/// What resolving with `resolver` on `targets` does.
pub open spec fn resolve_spec(w: WorldView, resolver: EventResolver, targets: Seq<Point>) -> WorldView {
    match resolver {
        EventResolver::Damage(d) => damage_spec(w, d.amount, targets),
        EventResolver::Particle(p) => WorldView { particles: w.particles.push(p.request), ..w },
    }
}

impl DamageResolver {
    /// Flashes each target cell, then takes `amount` once from the health of
    /// each actor standing on a target cell, saturating at the bounds of
    /// `i32`.
    pub fn resolve(&self, world: &mut World, source: Option<Entity>, targets: Vec<Point>)
        requires
            old(world).wf(),
            struck_have_health(old(world)@, targets@),
        ensures
            final(world).wf(),
            final(world)@ == damage_spec(old(world)@, self.amount, targets@),
    {
        let symbol = glyph('\u{2588}');
        let mut i: usize = 0;
        while i < targets.len()
            invariant
                world.wf(),
                symbol == cp437_of('\u{2588}'),
                i <= targets@.len(),
                world@ == (WorldView {
                    stack: old(world)@.stack + flashes(targets@.take(i as int)),
                    ..old(world)@
                }),
            decreases targets@.len() - i,
        {
            let request = ParticleRequest {
                position: targets[i],
                color: Rgb8 { r: 255, g: 0, b: 0 },
                symbol,
                lifetime_ms: DAMAGE_FLASH_MS,
            };
            add_event(world, &EventType::ParticleSpawn { request }, &RangeType::Empty, Point::zero(), false);
            proof {
                assert(targets@.take(i + 1) =~= targets@.take(i as int).push(targets@[i as int]));
                assert(flashes(targets@.take(i + 1)) =~= flashes(targets@.take(i as int)).push(
                    flash_at(targets@[i as int]),
                ));
                assert(world@.stack =~= old(world)@.stack + flashes(targets@.take(i + 1)));
            }
            i = i + 1;
        }
        assert(targets@.take(i as int) =~= targets@);
        let ghost w1 = world@;
        let n = world.positions.len();
        let mut e: usize = 0;
        assert(world@.healths =~= Seq::new(
            w1.healths.len(),
            |i: int|
                if i < 0 {
                    damaged(w1.healths, w1.positions, targets@, self.amount)[i]
                } else {
                    w1.healths[i]
                },
        ));
        while e < n
            invariant
                world.wf(),
                n == w1.len(),
                e <= n,
                w1 == (WorldView { stack: old(world)@.stack + flashes(targets@), ..old(world)@ }),
                world@ == (WorldView {
                    healths: Seq::new(
                        w1.healths.len(),
                        |i: int|
                            if i < e {
                                damaged(w1.healths, w1.positions, targets@, self.amount)[i]
                            } else {
                                w1.healths[i]
                            },
                    ),
                    ..w1
                }),
            decreases n - e,
        {
            if let Some(pos) = world.positions[e] {
                if contains_point(&targets, pos.as_point()) {
                    if let Some(h) = world.healths[e] {
                        let d: i64 = h.current as i64 - self.amount as i64;
                        let current: i32 = if d < i32::MIN as i64 {
                            i32::MIN
                        } else if d > i32::MAX as i64 {
                            i32::MAX
                        } else {
                            d as i32
                        };
                        world.healths.set(e, Some(Health { current, max: h.max }));
                    }
                }
            }
            e = e + 1;
            assert(world@.healths =~= Seq::new(
                w1.healths.len(),
                |i: int|
                    if i < e {
                        damaged(w1.healths, w1.positions, targets@, self.amount)[i]
                    } else {
                        w1.healths[i]
                    },
            ));
        }
        assert(world@.healths =~= damaged(w1.healths, w1.positions, targets@, self.amount));
    }
}

fn contains_point(v: &Vec<Point>, p: Point) -> (r: bool)
    ensures
        r == v@.contains(p),
{
    let mut i: usize = 0;
    while i < v.len()
        invariant
            i <= v@.len(),
            forall|j: int| 0 <= j < i ==> v@[j] != p,
        decreases v@.len() - i,
    {
        if v[i] == p {
            return true;
        }
        i = i + 1;
    }
    false
}

impl ParticleResolver {
    /// Hands the effect to the presentation layer.
    pub fn resolve(&self, world: &mut World, source: Option<Entity>, targets: Vec<Point>)
        ensures
            final(world)@ == (WorldView { particles: old(world)@.particles.push(self.request), ..old(world)@ }),
    {
        world.particles.make_particle(self.request);
    }
}

impl EventResolver {
    pub fn resolve(&self, world: &mut World, source: Option<Entity>, targets: Vec<Point>)
        requires
            old(world).wf(),
            *self is Damage ==> struck_have_health(old(world)@, targets@),
        ensures
            final(world).wf(),
            final(world)@ == resolve_spec(old(world)@, *self, targets@),
    {
        match self {
            EventResolver::Damage(d) => d.resolve(world, source, targets),
            EventResolver::Particle(p) => p.resolve(world, source, targets),
        }
    }
}

/// Number of cards on screen.
fn current_active_card_count(ecs: &World) -> (r: i32)
    requires
        ecs.wf(),
    ensures
        r == ecs@.card_lifetimes.len(),
{
    ecs.card_lifetimes.len() as i32
}

fn copy_points(v: &Vec<Point>) -> (r: Vec<Point>)
    ensures
        r@ == v@,
{
    let mut r: Vec<Point> = Vec::new();
    let mut i: usize = 0;
    while i < v.len()
        invariant
            i <= v@.len(),
            r@ == v@.take(i as int),
        decreases v@.len() - i,
    {
        r.push(v[i]);
        i = i + 1;
        assert(r@ =~= v@.take(i as int));
    }
    assert(v@.take(i as int) =~= v@);
    r
}

fn contains_entity(v: &Vec<Entity>, e: Entity) -> (r: bool)
    ensures
        r == v@.contains(e),
{
    let mut i: usize = 0;
    while i < v.len()
        invariant
            i <= v@.len(),
            forall|j: int| 0 <= j < i ==> v@[j] != e,
        decreases v@.len() - i,
    {
        if v[i] == e {
            return true;
        }
        i = i + 1;
    }
    false
}

/// `w` after announcing an action called `name` that struck `hit` on
/// `targets`: a card is queued when the primary actor is among `hit`.
pub open spec fn card_for(w: WorldView, hit: Seq<Entity>, name: Seq<char>, targets: Seq<Point>) -> WorldView {
    if hit.contains(w.player) {
        WorldView {
            card_stack: w.card_stack.push(
                CardView { name, offset: w.card_lifetimes.len() as i32, affected: targets },
            ),
            ..w
        }
    } else {
        w
    }
}

fn add_card_to_stack(ecs: &mut World, entities_hit: &Vec<Entity>, name: &String, hit_range: &Vec<Point>)
    requires
        old(ecs).wf(),
    ensures
        final(ecs).wf(),
        final(ecs)@ == card_for(old(ecs)@, entities_hit@, name@, hit_range@),
{
    let active_count = current_active_card_count(ecs);
    let player = ecs.player;
    if contains_entity(entities_hit, player) {
        let card = CardRequest { name: name.clone(), offset: active_count, affected: copy_points(hit_range) };
        ecs.card_stack.push(card);
        assert(ecs@.card_stack =~= old(ecs)@.card_stack.push(card@));
    }
}

/// `w` after announcing `e`, which struck `hit`: named actions may queue a
/// card.
pub open spec fn announce(w: WorldView, e: EventView, hit: Seq<Entity>) -> WorldView {
    match e.name {
        Some(n) => card_for(w, hit, n, e.targets),
        None => w,
    }
}

/// `w` after the top pending card, if any, is handed to the presentation
/// layer at the slot after the cards on screen.
pub open spec fn show_card(w: WorldView) -> WorldView {
    if w.card_stack.len() == 0 {
        w
    } else {
        let c = w.card_stack.last();
        WorldView {
            card_stack: w.card_stack.drop_last(),
            cards: w.cards.push(CardView { offset: w.card_lifetimes.len() as i32, ..c }),
            ..w
        }
    }
}

/// What resolving `e` does, once it is off the stack.
pub open spec fn process_spec(w: WorldView, e: EventView) -> WorldView {
    resolve_spec(show_card(w), e.resolver, e.targets)
}

fn process_event(ecs: &mut World, event: Event)
    requires
        old(ecs).wf(),
        event@.resolver is Damage ==> struck_have_health(old(ecs)@, event@.targets),
    ensures
        final(ecs).wf(),
        final(ecs)@ == process_spec(old(ecs)@, event@),
{
    let top_card = ecs.card_stack.pop();
    let active_count = current_active_card_count(ecs);
    if let Some(top_card) = top_card {
        ecs.particles.make_card(top_card, active_count);
        assert(ecs@.cards =~= old(ecs)@.cards.push(CardView { offset: active_count, ..top_card@ }));
    }
    assert(ecs@.card_stack =~= show_card(old(ecs)@).card_stack);
    assert(ecs@ == show_card(old(ecs)@));
    event.resolver.resolve(ecs, event.source, event.target_tiles);
}

/// Resolving `e` moves no actor and takes health from none that has it, and
/// queues no damage action, so pending damage still strikes only actors
/// with health.
pub proof fn lemma_health_kept(w: WorldView, e: EventView)
    requires
        w.wf(),
        hits_have_health(w),
    ensures
        hits_have_health(process_spec(w, e)),
{
    let v = process_spec(w, e);
    let n = w.stack.len();
    assert(v.positions == w.positions);
    assert(v.len() == w.len());
    assert forall|j: int| 0 <= j < w.healths.len() implies (#[trigger] v.healths[j] is Some) == (w.healths[j] is Some) by {}
    assert forall|i: int| 0 <= i < v.stack.len() && (#[trigger] v.stack[i]).resolver is Damage implies struck_have_health(
        v,
        v.stack[i].targets,
    ) by {
        if let EventResolver::Damage(d) = e.resolver {
            if i >= n {
                let f = flashes(e.targets);
                assert(v.stack[i] == f[i - n]);
            }
        }
        assert(v.stack[i] == w.stack[i]);
        assert(struck_have_health(w, w.stack[i].targets));
        assert forall|x: int| 0 <= x < v.len() && #[trigger] struck(v.positions, v.stack[i].targets, x) implies v.healths[x] is Some by {
            assert(struck(w.positions, w.stack[i].targets, x));
            assert(w.healths[x] is Some);
            assert(v.healths[x] is Some);
        }
    }
}

/// Number of damage actions on a stack.
pub open spec fn damage_count(s: Seq<EventView>) -> nat
    decreases s.len(),
{
    if s.len() == 0 {
        0
    } else {
        damage_count(s.drop_last()) + if s.last().resolver is Damage {
            1nat
        } else {
            0nat
        }
    }
}

pub proof fn lemma_count_flashes(s: Seq<EventView>, t: Seq<Point>)
    ensures
        damage_count(s + flashes(t)) == damage_count(s),
    decreases t.len(),
{
    if t.len() > 0 {
        lemma_count_flashes(s, t.drop_last());
        assert((s + flashes(t)).drop_last() =~= s + flashes(t.drop_last()));
    }
}

/// Resolving the top action `e` of `w`, once popped, makes the pair
/// (damage actions, stack height) smaller.
pub proof fn lemma_step_measure(w: WorldView, rest: WorldView, e: EventView)
    requires
        w.stack.len() > 0,
        e == w.stack.last(),
        rest.stack == w.stack.drop_last(),
    ensures
        ({
            let next = process_spec(rest, e).stack;
            damage_count(next) < damage_count(w.stack) || (damage_count(next) == damage_count(
                w.stack,
            ) && next.len() < w.stack.len())
        }),
{
    if let EventResolver::Damage(d) = e.resolver {
        lemma_count_flashes(rest.stack, e.targets);
    }
}

/// Drains `w`: pops actions and resolves them until the stack is empty, or
/// until an action that invokes reactions strikes an actor that may react.
/// That action then goes back on top of the stack, and each such actor
/// holds a reaction window.
pub open spec fn drain(w: WorldView) -> WorldView
    decreases damage_count(w.stack), w.stack.len(),
{
    if w.stack.len() == 0 {
        w
    } else {
        let e = w.stack.last();
        let rest = WorldView { stack: w.stack.drop_last(), ..w };
        if e.targets.len() == 0 {
            proof {
                lemma_step_measure(w, rest, e);
            }
            drain(process_spec(rest, e))
        } else {
            let hit = affected(w.positions, e.targets);
            let announced = announce(rest, e, hit);
            if e.invokes_reaction && reactors(w.can_react, hit).len() > 0 {
                suspended(announced, e, hit)
            } else {
                proof {
                    lemma_step_measure(w, announced, e);
                }
                drain(process_spec(announced, e))
            }
        }
    }
}

/// Resolves pending actions, last queued first, until none is left or one
/// halts for a reaction (see `drain`).
pub fn process_stack(ecs: &mut World)
    requires
        old(ecs).wf(),
        hits_have_health(old(ecs)@),
    ensures
        final(ecs).wf(),
        final(ecs)@ == drain(old(ecs)@),
{
    loop
        invariant_except_break
            ecs.wf(),
            hits_have_health(ecs@),
            drain(ecs@) == drain(old(ecs)@),
        ensures
            ecs.wf(),
            ecs@ == drain(old(ecs)@),
        decreases damage_count(ecs@.stack), ecs@.stack.len(),
    {
        let ghost w = ecs@;
        let popped = ecs.stack.pop();
        match popped {
            None => {
                assert(ecs@ == w);
                break;
            },
            Some(event) => {
                let ghost e = event@;
                let ghost rest = WorldView { stack: w.stack.drop_last(), ..w };
                assert(ecs@.stack =~= w.stack.drop_last());
                assert(e == w.stack.last());
                assert(ecs@ == rest);
                proof {
                    assert(w.stack[w.stack.len() - 1] == e);
                    assert(e.resolver is Damage ==> struck_have_health(w, e.targets));
                    assert forall|i: int| 0 <= i < rest.stack.len() && (#[trigger] rest.stack[i]).resolver is Damage implies struck_have_health(
                        rest,
                        rest.stack[i].targets,
                    ) by {
                        assert(rest.stack[i] == w.stack[i]);
                    }
                }
                if event.target_tiles.len() == 0 {
                    process_event(ecs, event);
                    proof {
                        lemma_step_measure(w, rest, e);
                        lemma_health_kept(rest, e);
                    }
                } else {
                    let entities_hit = get_affected_entities(ecs, &event.target_tiles);
                    let _n = ecs.positions.len();
                    proof {
                        lemma_affected_in_world(ecs@.positions, e.targets);
                    }
                    if let Some(name) = &event.name {
                        add_card_to_stack(ecs, &entities_hit, name, &event.target_tiles);
                    }
                    let ghost announced = ecs@;
                    let mut reacting: Vec<Entity> = Vec::new();
                    let mut k: usize = 0;
                    while k < entities_hit.len()
                        invariant
                            ecs@ == announced,
                            ecs.wf(),
                            k <= entities_hit@.len(),
                            reacting@ == reactors(ecs@.can_react, entities_hit@.take(k as int)),
                            forall|j: int| 0 <= j < reacting@.len() ==> #[trigger] reacting@[j] < ecs@.len(),
                        decreases entities_hit@.len() - k,
                    {
                        proof {
                            assert(entities_hit@.take(k + 1) =~= entities_hit@.take(k as int).push(entities_hit@[k as int]));
                            lemma_reactors_push(ecs@.can_react, entities_hit@.take(k as int), entities_hit@[k as int]);
                        }
                        if entity_can_react(ecs, entities_hit[k]) {
                            reacting.push(entities_hit[k]);
                        }
                        k = k + 1;
                    }
                    assert(entities_hit@.take(k as int) =~= entities_hit@);
                    if event.invokes_reaction && reacting.len() > 0 {
                        let ghost can_act0 = ecs@.can_act;
                        let _m = ecs.can_act.len();
                        assert(ecs@.can_act =~= Seq::new(
                            can_act0.len(),
                            |i: int|
                                if reacting@.take(0).contains(i as Entity) {
                                    Some(CanActFlag { is_reaction: true })
                                } else {
                                    can_act0[i]
                                },
                        ));
                        let mut k: usize = 0;
                        while k < reacting.len()
                            invariant
                                ecs.wf(),
                                can_act0.len() <= usize::MAX,
                                ecs@.len() == announced.len(),
                                k <= reacting@.len(),
                                forall|j: int| 0 <= j < reacting@.len() ==> #[trigger] reacting@[j] < ecs@.len(),
                                ecs@ == (WorldView {
                                    can_act: Seq::new(
                                        can_act0.len(),
                                        |i: int|
                                            if reacting@.take(k as int).contains(i as Entity) {
                                                Some(CanActFlag { is_reaction: true })
                                            } else {
                                                can_act0[i]
                                            },
                                    ),
                                    ..announced
                                }),
                            decreases reacting@.len() - k,
                        {
                            let r = reacting[k];
                            ecs.can_act.set(r, Some(CanActFlag { is_reaction: true }));
                            k = k + 1;
                            proof {
                                let t = reacting@.take(k as int);
                                assert(t =~= reacting@.take(k - 1).push(r));
                                let t0 = reacting@.take(k - 1);
                                assert forall|x: Entity| #[trigger] t.contains(x) == (t0.contains(x) || x == r) by {
                                    if x == r {
                                        assert(t[k - 1] == r);
                                    }
                                    if t0.contains(x) {
                                        let j = choose|j: int| 0 <= j < t0.len() && #[trigger] t0[j] == x;
                                        assert(t[j] == x);
                                    }
                                    if t.contains(x) && x != r {
                                        let j = choose|j: int| 0 <= j < t.len() && #[trigger] t[j] == x;
                                        assert(t0[j] == x);
                                    }
                                }
                            }
                            assert(ecs@.can_act =~= Seq::new(
                                can_act0.len(),
                                |i: int|
                                    if reacting@.take(k as int).contains(i as Entity) {
                                        Some(CanActFlag { is_reaction: true })
                                    } else {
                                        can_act0[i]
                                    },
                            ));
                        }
                        assert(reacting@.take(k as int) =~= reacting@);
                        ecs.stack.push(event);
                        assert(ecs@.stack =~= announced.stack.push(e));
                        assert(ecs@.can_act =~= suspended(announced, e, entities_hit@).can_act);
                        break;
                    } else {
                        process_event(ecs, event);
                        proof {
                            lemma_step_measure(w, announced, e);
                            lemma_health_kept(announced, e);
                        }
                    }
                }
            },
        }
    }
}

} // verus!
