//! What the primary actor's decision does to the reaction gate.
use crate::components::{CanActFlag, CanReactFlag};
use crate::world::{World, WorldView};
use vstd::prelude::*;

verus! {

/// `w` once the primary actor has used its authorization: a reaction
/// window spends its ability to react, an ordinary turn restores it, and
/// every authorization is withdrawn.
pub open spec fn after_decision(w: WorldView, is_reaction: bool) -> WorldView {
    WorldView {
        can_react: w.can_react.update(
            w.player as int,
            if is_reaction {
                None
            } else {
                Some(CanReactFlag)
            },
        ),
        can_act: Seq::new(w.can_act.len(), |e: int| None::<CanActFlag>),
        ..w
    }
}

/// Records that the primary actor has decided (see `after_decision`).
pub fn update_reaction_state(ecs: &mut World, is_reaction: bool)
    requires
        old(ecs).wf(),
        old(ecs).player < old(ecs)@.len(),
    ensures
        final(ecs).wf(),
        final(ecs)@ == after_decision(old(ecs)@, is_reaction),
{
    let player = ecs.player;
    if is_reaction {
        ecs.can_react.set(player, None);
    } else {
        ecs.can_react.set(player, Some(CanReactFlag));
    }
    let n = ecs.can_act.len();
    let mut i: usize = 0;
    assert(ecs@.can_react =~= after_decision(old(ecs)@, is_reaction).can_react);
    assert(ecs@.can_act =~= Seq::new(
        n as nat,
        |e: int|
            if e < 0 {
                None
            } else {
                old(ecs)@.can_act[e]
            },
    ));
    while i < n
        invariant
            n == ecs@.can_act.len(),
            i <= n,
            ecs.wf(),
            ecs@ == (WorldView {
                can_act: Seq::new(
                    n as nat,
                    |e: int|
                        if e < i {
                            None
                        } else {
                            old(ecs)@.can_act[e]
                        },
                ),
                ..after_decision(old(ecs)@, is_reaction)
            }),
        decreases n - i,
    {
        ecs.can_act.set(i, None);
        i = i + 1;
        assert(ecs@.can_act =~= Seq::new(
            n as nat,
            |e: int|
                if e < i {
                    None
                } else {
                    old(ecs)@.can_act[e]
                },
        ));
    }
    assert(ecs@.can_act =~= after_decision(old(ecs)@, is_reaction).can_act);
}

/// Takes every card off the screen.
pub fn clear_lingering_cards(ecs: &mut World)
    requires
        old(ecs).wf(),
    ensures
        final(ecs).wf(),
        final(ecs)@ == (WorldView { card_lifetimes: Seq::empty(), ..old(ecs)@ }),
{
    ecs.card_lifetimes.clear();
    assert(ecs@.card_lifetimes =~= Seq::empty());
}

} // verus!
