//! Requests for transient visual effects, collected for the presentation
//! layer to draw.
use crate::geometry::Point;
use vstd::prelude::*;

verus! {

/// A colour as red, green and blue bytes.
#[derive(Clone, Copy, Debug, PartialEq, Eq, Structural)]
pub struct Rgb8 {
    pub r: u8,
    pub g: u8,
    pub b: u8,
}

/// A single glyph flashed at one cell for `lifetime_ms` milliseconds.
#[derive(Clone, Copy, Debug, PartialEq, Eq, Structural)]
pub struct ParticleRequest {
    pub position: Point,
    pub color: Rgb8,
    pub symbol: u16,
    pub lifetime_ms: u32,
}

/// A card naming an action that hit the player, shown at slot `offset`.
#[derive(Clone, Debug)]
pub struct CardRequest {
    pub name: String,
    pub offset: i32,
    pub affected: Vec<Point>,
}

/// What a `CardRequest` holds, as plain values.
pub struct CardView {
    pub name: Seq<char>,
    pub offset: i32,
    pub affected: Seq<Point>,
}

impl View for CardRequest {
    type V = CardView;

    open spec fn view(&self) -> CardView {
        CardView { name: self.name@, offset: self.offset, affected: self.affected@ }
    }
}

/// A card on screen with the time it has left.
#[derive(Clone, Debug)]
pub struct CardLifetime {
    pub remaining_ms: u32,
    pub data: CardRequest,
}

/// The effects and cards requested since the presentation layer last
/// collected them.
pub struct ParticleBuilder {
    pub requests: Vec<ParticleRequest>,
    pub card_stack: Vec<CardRequest>,
}

impl ParticleBuilder {
    pub fn new() -> (r: ParticleBuilder)
        ensures
            r.requests@.len() == 0,
            r.card_stack@.len() == 0,
    {
        ParticleBuilder { requests: Vec::new(), card_stack: Vec::new() }
    }

    pub fn make_particle(&mut self, request: ParticleRequest)
        ensures
            final(self).requests@ == old(self).requests@.push(request),
            final(self).card_stack@ == old(self).card_stack@,
    {
        self.requests.push(request);
    }

    /// Queues `request` to be shown at slot `offset`.
    pub fn make_card(&mut self, request: CardRequest, offset: i32)
        ensures
            final(self).card_stack@ == old(self).card_stack@.push(
                CardRequest { offset, ..request },
            ),
            final(self).requests@ == old(self).requests@,
    {
        let mut request = request;
        request.offset = offset;
        self.card_stack.push(request);
    }
}

} // verus!
