//! Laws of the event stack and the scheduler, proved over their models.
use crate::components::CanActFlag;
use crate::events::{
    EventResolver, EventType, EventView, affected, announce, can_react_at, drain, flash_request,
    flashes, new_event, process_spec, pushed, reactors, suspended, damaged,
};
use crate::geometry::{Point, RangeType};
use crate::particles::ParticleRequest;
use crate::reaction::after_decision;
use crate::turn::advance;
use crate::world::{Entity, RunState, WorldView};
use vstd::prelude::*;

verus! {

/// An action queued on cells `range` does not cover is resolved by the
/// very next drain step, whether or not it invokes reactions: draining
/// with it on top is resolving it, then draining what was there before.
pub proof fn lemma_untargeted_resolves_at_once(
    w: WorldView,
    event: EventType,
    loc: Point,
    invokes_reaction: bool,
)
    ensures
        drain(pushed(w, new_event(event, RangeType::Empty, loc, invokes_reaction))) == drain(
            process_spec(w, new_event(event, RangeType::Empty, loc, invokes_reaction)),
        ),
{
    let e = new_event(event, RangeType::Empty, loc, invokes_reaction);
    let u = pushed(w, e);
    assert(u.stack.drop_last() =~= w.stack);
    assert(WorldView { stack: u.stack.drop_last(), ..u } == w);
}

/// An action on top of the stack that halts for no reaction is resolved
/// at once, after its announcement, and the drain goes on from there.
pub proof fn lemma_resolves_without_reaction(w: WorldView, e: EventView)
    requires
        e.targets.len() > 0,
        !(e.invokes_reaction && reactors(w.can_react, affected(w.positions, e.targets)).len() > 0),
    ensures
        drain(pushed(w, e)) == drain(
            process_spec(announce(w, e, affected(w.positions, e.targets)), e),
        ),
{
    let u = pushed(w, e);
    assert(u.stack.drop_last() =~= w.stack);
    assert(WorldView { stack: u.stack.drop_last(), ..u } == w);
}

proof fn lemma_reactor_found(cr: Seq<Option<crate::components::CanReactFlag>>, hit: Seq<Entity>)
    requires
        reactors(cr, hit).len() > 0,
    ensures
        exists|k: int| 0 <= k < hit.len() && can_react_at(cr, #[trigger] hit[k]),
{
    let p = |e: Entity| can_react_at(cr, e);
    hit.lemma_filter_pred(p, 0);
    let x = hit.filter(p)[0];
    assert(hit.filter(p).contains(x));
    hit.lemma_filter_contains_rev(p, x);
    assert(hit.contains(x));
}

/// An action that invokes reactions and strikes an actor able to react
/// halts the drain: it stays on top of the stack, and each such actor holds
/// a reaction window.
pub proof fn lemma_reaction_suspends(w: WorldView, e: EventView)
    requires
        e.targets.len() > 0,
        e.invokes_reaction,
        reactors(w.can_react, affected(w.positions, e.targets)).len() > 0,
    ensures
        drain(pushed(w, e)) == suspended(
            announce(w, e, affected(w.positions, e.targets)),
            e,
            affected(w.positions, e.targets),
        ),
        drain(pushed(w, e)).stack == w.stack.push(e),
        forall|r: Entity|
            #![trigger reactors(w.can_react, affected(w.positions, e.targets)).contains(r)]
            r < w.can_act.len() && reactors(w.can_react, affected(w.positions, e.targets)).contains(r)
                ==> drain(pushed(w, e)).can_act[r as int] == Some(CanActFlag { is_reaction: true }),
{
    let u = pushed(w, e);
    assert(u.stack.drop_last() =~= w.stack);
    assert(WorldView { stack: u.stack.drop_last(), ..u } == w);
}

/// The reaction window of the primary actor, when it is the only actor
/// able to react that the action strikes: one drain leaves the action
/// pending and the primary actor authorized for a reaction; once it has
/// spent its reaction, the next drain resolves the action.
pub proof fn lemma_reaction_window(w: WorldView, e: EventView)
    requires
        w.wf(),
        w.player < w.len(),
        e.targets.len() > 0,
        e.invokes_reaction,
        can_react_at(w.can_react, w.player),
        affected(w.positions, e.targets).contains(w.player),
        forall|k: int|
            0 <= k < affected(w.positions, e.targets).len() && can_react_at(
                w.can_react,
                #[trigger] affected(w.positions, e.targets)[k],
            ) ==> affected(w.positions, e.targets)[k] == w.player,
    ensures
        ({
            let hit = affected(w.positions, e.targets);
            let s = drain(pushed(w, e));
            let d = after_decision(s, true);
            &&& s.stack == w.stack.push(e)
            &&& s.can_act[w.player as int] == Some(CanActFlag { is_reaction: true })
            &&& drain(d) == drain(
                process_spec(announce(WorldView { stack: w.stack, ..d }, e, hit), e),
            )
        }),
{
    let hit = affected(w.positions, e.targets);
    let p = |x: Entity| can_react_at(w.can_react, x);
    let k0 = choose|k: int| 0 <= k < hit.len() && hit[k] == w.player;
    hit.lemma_filter_contains(p, k0);
    assert(reactors(w.can_react, hit).contains(w.player));
    lemma_reaction_suspends(w, e);
    let s = drain(pushed(w, e));
    let d = after_decision(s, true);
    assert(d.can_react == w.can_react.update(w.player as int, None));
    assert(d.positions == w.positions);
    if reactors(d.can_react, hit).len() > 0 {
        lemma_reactor_found(d.can_react, hit);
        let k = choose|k: int| 0 <= k < hit.len() && can_react_at(d.can_react, #[trigger] hit[k]);
        assert(can_react_at(w.can_react, hit[k]));
    }
    let d0 = WorldView { stack: w.stack, ..d };
    assert(d == pushed(d0, e));
    lemma_resolves_without_reaction(d0, e);
}

/// Once every actor that a halted action strikes has spent its reaction
/// (none of them can react any more, as after `update_reaction_state` or
/// `AiSystem::finish` on a reaction window), the next drain resolves it.
pub proof fn lemma_spent_reactions_resume(w: WorldView, e: EventView)
    requires
        e.targets.len() > 0,
        forall|k: int|
            0 <= k < affected(w.positions, e.targets).len() ==> !can_react_at(
                w.can_react,
                #[trigger] affected(w.positions, e.targets)[k],
            ),
    ensures
        drain(pushed(w, e)) == drain(
            process_spec(announce(w, e, affected(w.positions, e.targets)), e),
        ),
{
    let hit = affected(w.positions, e.targets);
    if reactors(w.can_react, hit).len() > 0 {
        lemma_reactor_found(w.can_react, hit);
    }
    lemma_resolves_without_reaction(w, e);
}

/// The world after the top action is popped and resolved.
pub open spec fn pop_process(u: WorldView) -> WorldView {
    process_spec(WorldView { stack: u.stack.drop_last(), ..u }, u.stack.last())
}

/// The world after `n` top actions are popped and resolved in turn.
pub open spec fn pop_process_n(u: WorldView, n: nat) -> WorldView
    decreases n,
{
    if n == 0 {
        u
    } else {
        pop_process_n(pop_process(u), (n - 1) as nat)
    }
}

/// The flashes of `t` as they are drawn: last cell first.
pub open spec fn flash_requests_rev(t: Seq<Point>) -> Seq<ParticleRequest> {
    Seq::new(t.len(), |i: int| flash_request(t[t.len() - 1 - i]))
}

/// Flashes queued on top of `s` are all resolved, last queued first,
/// before anything in `s` is touched.
pub proof fn lemma_flashes_first(u: WorldView, s: Seq<EventView>, t: Seq<Point>)
    requires
        u.stack == s + flashes(t),
    ensures
        drain(u) == drain(pop_process_n(u, t.len())),
        pop_process_n(u, t.len()).stack == s,
        pop_process_n(u, t.len()).particles == u.particles + flash_requests_rev(t),
        pop_process_n(u, t.len()).healths == u.healths,
    decreases t.len(),
{
    if t.len() == 0 {
        assert(s + flashes(t) =~= s);
        assert(u.particles + flash_requests_rev(t) =~= u.particles);
    } else {
        let f = flashes(t);
        assert(u.stack.last() == f[t.len() - 1]);
        assert(u.stack.drop_last() =~= s + flashes(t.drop_last()));
        let u1 = pop_process(u);
        assert(u1.stack == s + flashes(t.drop_last()));
        lemma_flashes_first(u1, s, t.drop_last());
        assert(u1.particles == u.particles.push(flash_request(t.last())));
        assert(u.particles + flash_requests_rev(t) =~= u1.particles + flash_requests_rev(t.drop_last()));
    }
}

/// Last in, first out: when a damage action on top of the stack resolves
/// without halting, the flashes it queues are resolved before anything
/// that was beneath it, which is then still exactly as it was.
pub proof fn lemma_lifo(w: WorldView, e: EventView, amount: i32)
    requires
        e.targets.len() > 0,
        e.resolver == EventResolver::Damage(crate::events::DamageResolver { amount }),
        !(e.invokes_reaction && reactors(w.can_react, affected(w.positions, e.targets)).len() > 0),
    ensures
        ({
            let hit = affected(w.positions, e.targets);
            let v = pop_process_n(process_spec(announce(w, e, hit), e), e.targets.len());
            &&& drain(pushed(w, e)) == drain(v)
            &&& v.stack == w.stack
            &&& v.particles == w.particles + flash_requests_rev(e.targets)
            &&& v.healths == damaged(w.healths, w.positions, e.targets, amount)
        }),
{
    lemma_resolves_without_reaction(w, e);
    let hit = affected(w.positions, e.targets);
    let x = process_spec(announce(w, e, hit), e);
    lemma_flashes_first(x, w.stack, e.targets);
}

/// While the primary actor holds a reaction window, a scheduling pass
/// touches no energy clock and no authorization, and awaits its decision.
pub proof fn lemma_reaction_freezes_clocks(w: WorldView)
    requires
        w.player < w.len(),
        w.can_act[w.player as int] == Some(CanActFlag { is_reaction: true }),
    ensures
        advance(w).schedulables == w.schedulables,
        advance(w).can_act == w.can_act,
        advance(w).run_state == RunState::AwaitingInput,
{
}

} // verus!
