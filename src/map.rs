//! The grid of tiles, and the rooms and hallways carved into it.
use crate::geometry::Point;
use rltk::RandomNumberGenerator;
use vstd::prelude::*;

verus! {

/// Attempts at placing a room.
pub const MAX_ROOMS: i32 = 30;

pub const MIN_ROOM_WIDTH: i32 = 3;

pub const MAX_ROOM_WIDTH: i32 = 12;

pub const MIN_ROOM_HEIGHT: i32 = 3;

pub const MAX_ROOM_HEIGHT: i32 = 12;

#[verifier::external_type_specification]
#[verifier::external_body]
pub struct ExRandomNumberGenerator(RandomNumberGenerator);

/// Relies on `RandomNumberGenerator::new`, seeded from the operating
/// system's randomness (or the clock): nothing is known of what it draws.
pub assume_specification[ RandomNumberGenerator::new ]() -> RandomNumberGenerator;

/// Relies on `RandomNumberGenerator::range`, which draws with rand's
/// `gen_range(min..max)`: a value from `min` up to, not including, `max`;
/// it panics on an empty range.
#[verifier::external_body]
fn random_range(rng: &mut RandomNumberGenerator, min: i32, max: i32) -> (r: i32)
    requires
        min < max,
    ensures
        min <= r < max,
{
    rng.range(min, max)
}

#[derive(Clone, Copy, Debug, PartialEq, Eq, Structural)]
pub enum TileType {
    Wall,
    Floor,
}

/// `v / 2`, rounded towards zero.
pub open spec fn half(v: int) -> int {
    if v >= 0 {
        v / 2
    } else {
        -((-v) / 2)
    }
}

fn half_i64(v: i64) -> (r: i32)
    requires
        2 * i32::MIN <= v <= 2 * i32::MAX,
    ensures
        r == half(v as int),
{
    if v >= 0 {
        (v / 2) as i32
    } else {
        (-((-v) / 2)) as i32
    }
}

/// An axis-aligned rectangle of cells, corners included.
#[derive(Clone, Copy, Debug, PartialEq, Eq, Structural)]
pub struct Rect {
    pub x1: i32,
    pub x2: i32,
    pub y1: i32,
    pub y2: i32,
}

impl Rect {
    /// The rectangle whose first corner is `(x, y)` and whose second corner
    /// lies `w` and `h` further.
    pub fn with_size(x: i32, y: i32, w: i32, h: i32) -> (r: Rect)
        requires
            i32::MIN <= x + w <= i32::MAX,
            i32::MIN <= y + h <= i32::MAX,
        ensures
            r == (Rect { x1: x, y1: y, x2: (x + w) as i32, y2: (y + h) as i32 }),
    {
        Rect { x1: x, y1: y, x2: x + w, y2: y + h }
    }

    pub open spec fn overlaps(self, other: Rect) -> bool {
        self.x1 <= other.x2 && self.x2 >= other.x1 && self.y1 <= other.y2 && self.y2 >= other.y1
    }

    pub fn intersect(&self, other: &Rect) -> (r: bool)
        ensures
            r == self.overlaps(*other),
    {
        self.x1 <= other.x2 && self.x2 >= other.x1 && self.y1 <= other.y2 && self.y2 >= other.y1
    }

    pub open spec fn mid(self) -> Point {
        Point { x: half(self.x1 + self.x2) as i32, y: half(self.y1 + self.y2) as i32 }
    }

    /// The middle cell: each coordinate is the mean of the corners', rounded
    /// towards zero.
    pub fn center(&self) -> (r: Point)
        ensures
            r == self.mid(),
    {
        Point::new(half_i64(self.x1 as i64 + self.x2 as i64), half_i64(self.y1 as i64 + self.y2 as i64))
    }

    /// The cell `(x, y)` lies in the rectangle.
    pub open spec fn holds(self, x: int, y: int) -> bool {
        self.x1 <= x <= self.x2 && self.y1 <= y <= self.y2
    }
}

/// The level: one tile per cell, row after row, with what the primary actor
/// knows and sees, and which cells are blocked.
pub struct TileMap {
    pub tiles: Vec<TileType>,
    pub rooms: Vec<Rect>,
    pub width: i32,
    pub height: i32,
    pub known_tiles: Vec<bool>,
    pub visible_tiles: Vec<bool>,
    pub blocked_tiles: Vec<bool>,
}

/// Slot of cell `(x, y)` in a map `w` cells wide.
pub open spec fn idx(w: int, x: int, y: int) -> int {
    y * w + x
}

proof fn lemma_idx(w: int, h: int, x: int, y: int)
    requires
        0 <= x < w,
        0 <= y < h,
    ensures
        0 <= idx(w, x, y) < w * h,
        idx(w, x, y) % w == x,
        idx(w, x, y) / w == y,
{
    vstd::arithmetic::div_mod::lemma_fundamental_div_mod_converse(y * w + x, w, y, x);
    assert(y * w + x < w * h) by (nonlinear_arith)
        requires
            0 <= x < w,
            0 <= y < h,
    ;
    assert(0 <= y * w) by (nonlinear_arith)
        requires
            0 <= y,
            0 <= w,
    ;
}

/// Two cells of a map share a slot only if they are the same cell.
proof fn lemma_idx_unique(w: int, h: int, x1: int, y1: int, x2: int, y2: int)
    requires
        0 <= x1 < w,
        0 <= y1 < h,
        0 <= x2 < w,
        0 <= y2 < h,
        idx(w, x1, y1) == idx(w, x2, y2),
    ensures
        x1 == x2,
        y1 == y2,
{
    lemma_idx(w, h, x1, y1);
    lemma_idx(w, h, x2, y2);
}

impl TileMap {
    /// The tables have one slot per cell.
    pub open spec fn wf(&self) -> bool {
        &&& self.width > 0
        &&& self.height > 0
        &&& self.tiles@.len() == self.width * self.height
        &&& self.known_tiles@.len() == self.tiles@.len()
        &&& self.visible_tiles@.len() == self.tiles@.len()
        &&& self.blocked_tiles@.len() == self.tiles@.len()
    }

    pub open spec fn in_map(&self, x: int, y: int) -> bool {
        0 <= x < self.width && 0 <= y < self.height
    }

    /// The tile at `(x, y)`.
    pub open spec fn tile(&self, x: int, y: int) -> TileType {
        self.tiles@[idx(self.width as int, x, y)]
    }

    pub fn get_index(&self, x: i32, y: i32) -> (r: usize)
        requires
            self.wf(),
            self.in_map(x as int, y as int),
        ensures
            r == idx(self.width as int, x as int, y as int),
            r < self.tiles@.len(),
    {
        proof {
            lemma_idx(self.width as int, self.height as int, x as int, y as int);
        }
        let n = self.tiles.len();
        assert((y as int) * (self.width as int) + (x as int) < n);
        (y as usize) * (self.width as usize) + (x as usize)
    }

    /// Marks every wall as blocked and every other tile as open.
    pub fn set_blocked_tiles(&mut self)
        requires
            old(self).wf(),
        ensures
            final(self).wf(),
            final(self).tiles == old(self).tiles,
            final(self).rooms == old(self).rooms,
            final(self).width == old(self).width,
            final(self).height == old(self).height,
            final(self).known_tiles == old(self).known_tiles,
            final(self).visible_tiles == old(self).visible_tiles,
            final(self).blocked_tiles@ == old(self).tiles@.map_values(|t: TileType| t == TileType::Wall),
    {
        let n = self.tiles.len();
        let mut index: usize = 0;
        while index < n
            invariant
                self.wf(),
                n == self.tiles@.len(),
                index <= n,
                self.tiles == old(self).tiles,
                self.rooms == old(self).rooms,
                self.width == old(self).width,
                self.height == old(self).height,
                self.known_tiles == old(self).known_tiles,
                self.visible_tiles == old(self).visible_tiles,
                forall|i: int| 0 <= i < index ==> #[trigger] self.blocked_tiles@[i] == (self.tiles@[i] == TileType::Wall),
            decreases n - index,
        {
            let is_blocked = self.tiles[index] == TileType::Wall;
            self.blocked_tiles.set(index, is_blocked);
            index = index + 1;
        }
        assert(self.blocked_tiles@ =~= old(self).tiles@.map_values(|t: TileType| t == TileType::Wall));
    }

    /// The cell lies off the map's border and is not blocked.
    pub open spec fn exit_valid(&self, x: int, y: int) -> bool {
        1 <= x <= self.width - 1 && 1 <= y <= self.height - 1 && y < self.height && x < self.width
            && !self.blocked_tiles@[idx(self.width as int, x, y)]
    }

    pub fn is_exit_valid(&self, x: i32, y: i32) -> (r: bool)
        requires
            self.wf(),
        ensures
            r == self.exit_valid(x as int, y as int),
    {
        if x < 1 || x > self.width - 1 || y < 1 || y > self.height - 1 {
            return false;
        }
        !self.blocked_tiles[self.get_index(x, y)]
    }

    /// The open neighbours of slot `index`, west, east, north, south.
    pub open spec fn exits(&self, index: int) -> Seq<usize> {
        let w = self.width as int;
        let x = index % w;
        let y = index / w;
        (if self.exit_valid(x - 1, y) { seq![(index - 1) as usize] } else { seq![] })
            + (if self.exit_valid(x + 1, y) { seq![(index + 1) as usize] } else { seq![] })
            + (if self.exit_valid(x, y - 1) { seq![(index - w) as usize] } else { seq![] })
            + (if self.exit_valid(x, y + 1) { seq![(index + w) as usize] } else { seq![] })
    }

    /// Lists the open neighbours of slot `index` (see `exits`).
    pub fn available_exits(&self, index: usize) -> (r: Vec<usize>)
        requires
            self.wf(),
            index < self.tiles@.len(),
        ensures
            r@ == self.exits(index as int),
    {
        let w = self.width as usize;
        let n = self.tiles.len();
        let ghost wi = w as int;
        let ghost hi = self.height as int;
        let ghost xi = index as int % wi;
        let ghost yi = index as int / wi;
        proof {
            vstd::arithmetic::div_mod::lemma_fundamental_div_mod(index as int, wi);
            vstd::arithmetic::div_mod::lemma_mod_bound(index as int, wi);
            vstd::arithmetic::div_mod::lemma_div_pos_is_pos(index as int, wi);
            assert(yi < hi) by (nonlinear_arith)
                requires
                    index == wi * yi + xi,
                    0 <= xi,
                    index < wi * hi,
                    wi > 0,
            ;
            assert(index == idx(wi, xi, yi)) by (nonlinear_arith)
                requires
                    index == wi * yi + xi,
            ;
        }
        let x = (index % w) as i32;
        let y = (index / w) as i32;
        let mut exits: Vec<usize> = Vec::new();
        if self.is_exit_valid(x - 1, y) {
            exits.push(index - 1);
        }
        if self.is_exit_valid(x + 1, y) {
            proof {
                lemma_idx(wi, hi, xi + 1, yi);
            }
            exits.push(index + 1);
        }
        if self.is_exit_valid(x, y - 1) {
            proof {
                lemma_idx(wi, hi, xi, yi - 1);
                assert(idx(wi, xi, yi - 1) == index - wi) by (nonlinear_arith)
                    requires
                        index == idx(wi, xi, yi),
                ;
            }
            exits.push(index - w);
        }
        if self.is_exit_valid(x, y + 1) {
            proof {
                lemma_idx(wi, hi, xi, yi + 1);
                assert(idx(wi, xi, yi + 1) == index + wi) by (nonlinear_arith)
                    requires
                        index == idx(wi, xi, yi),
                ;
            }
            exits.push(index + w);
        }
        assert(exits@ =~= self.exits(index as int));
        exits
    }

    /// Every other table, and the size, are those of `other`.
    pub open spec fn same_but_tiles(&self, other: &TileMap) -> bool {
        &&& self.tiles@.len() == other.tiles@.len()
        &&& self.rooms == other.rooms
        &&& self.width == other.width
        &&& self.height == other.height
        &&& self.known_tiles == other.known_tiles
        &&& self.visible_tiles == other.visible_tiles
        &&& self.blocked_tiles == other.blocked_tiles
    }

    fn carve_floor(&mut self, x: i32, y: i32)
        requires
            old(self).wf(),
            old(self).in_map(x as int, y as int),
        ensures
            final(self).wf(),
            final(self).same_but_tiles(old(self)),
            forall|a: int, b: int|
                old(self).in_map(a, b) ==> #[trigger] final(self).tile(a, b) == if a == x && b == y {
                    TileType::Floor
                } else {
                    old(self).tile(a, b)
                },
    {
        let index = self.get_index(x, y);
        self.tiles.set(index, TileType::Floor);
        assert forall|a: int, b: int| old(self).in_map(a, b) implies #[trigger] self.tile(a, b) == if a == x && b == y {
            TileType::Floor
        } else {
            old(self).tile(a, b)
        } by {
            lemma_idx(self.width as int, self.height as int, a, b);
            if idx(self.width as int, a, b) == index {
                lemma_idx_unique(self.width as int, self.height as int, a, b, x as int, y as int);
            }
        }
    }

    /// Carves `room` out as floor and records it.
    pub fn build_room(&mut self, room: Rect)
        requires
            old(self).wf(),
            0 <= room.x1,
            room.x2 < old(self).width,
            0 <= room.y1,
            room.y2 < old(self).height,
        ensures
            final(self).wf(),
            final(self).rooms@ == old(self).rooms@.push(room),
            final(self).tiles@.len() == old(self).tiles@.len(),
            final(self).width == old(self).width,
            final(self).height == old(self).height,
            final(self).known_tiles == old(self).known_tiles,
            final(self).visible_tiles == old(self).visible_tiles,
            final(self).blocked_tiles == old(self).blocked_tiles,
            forall|a: int, b: int|
                old(self).in_map(a, b) ==> #[trigger] final(self).tile(a, b) == if room.holds(a, b) {
                    TileType::Floor
                } else {
                    old(self).tile(a, b)
                },
    {
        let mut y: i32 = room.y1;
        while y <= room.y2
            invariant
                self.wf(),
                self.same_but_tiles(old(self)),
                0 <= room.x1,
                room.x2 < old(self).width,
                0 <= room.y1,
                room.y2 < old(self).height,
                room.y1 <= y,
                y <= room.y2 + 1 || room.y1 > room.y2,
                forall|a: int, b: int|
                    old(self).in_map(a, b) ==> #[trigger] self.tile(a, b) == if room.holds(a, b) && b < y {
                        TileType::Floor
                    } else {
                        old(self).tile(a, b)
                    },
            decreases room.y2 + 1 - y,
        {
            let mut x: i32 = room.x1;
            while x <= room.x2
                invariant
                    self.wf(),
                    self.same_but_tiles(old(self)),
                    0 <= room.x1,
                    room.x2 < old(self).width,
                    0 <= room.y1,
                    room.y2 < old(self).height,
                    room.y1 <= y <= room.y2,
                    room.x1 <= x,
                    x <= room.x2 + 1 || room.x1 > room.x2,
                    forall|a: int, b: int|
                        old(self).in_map(a, b) ==> #[trigger] self.tile(a, b) == if room.holds(a, b) && (b < y
                            || (b == y && a < x)) {
                            TileType::Floor
                        } else {
                            old(self).tile(a, b)
                        },
                decreases room.x2 + 1 - x,
            {
                self.carve_floor(x, y);
                x = x + 1;
            }
            y = y + 1;
        }
        let ghost pre = *self;
        self.rooms.push(room);
        assert forall|a: int, b: int| old(self).in_map(a, b) implies #[trigger] self.tile(a, b) == if room.holds(a, b) {
            TileType::Floor
        } else {
            old(self).tile(a, b)
        } by {
            assert(pre.tile(a, b) == self.tile(a, b));
        }
    }

    /// The cell lies on the hallway from `start` to `end`: along the row of
    /// `start`, then along the column of `end`.
    pub open spec fn on_hallway(start: Point, end: Point, x: int, y: int) -> bool {
        (y == start.y && ((start.x <= x <= end.x) || (end.x <= x <= start.x))) || (x == end.x && ((
        start.y <= y <= end.y) || (end.y <= y <= start.y)))
    }

    /// Carves a hallway of floor from `start` to `end` (see `on_hallway`).
    pub fn build_hallway(&mut self, start: Point, end: Point)
        requires
            old(self).wf(),
            old(self).in_map(start.x as int, start.y as int),
            old(self).in_map(end.x as int, end.y as int),
        ensures
            final(self).wf(),
            final(self).same_but_tiles(old(self)),
            forall|a: int, b: int|
                old(self).in_map(a, b) ==> #[trigger] final(self).tile(a, b) == if Self::on_hallway(
                    start,
                    end,
                    a,
                    b,
                ) {
                    TileType::Floor
                } else {
                    old(self).tile(a, b)
                },
    {
        let (x_lo, x_hi) = if start.x > end.x {
            (end.x, start.x)
        } else {
            (start.x, end.x)
        };
        let (y_lo, y_hi) = if start.y > end.y {
            (end.y, start.y)
        } else {
            (start.y, end.y)
        };
        let mut x: i32 = x_lo;
        while x <= x_hi
            invariant
                self.wf(),
                self.same_but_tiles(old(self)),
                old(self).in_map(start.x as int, start.y as int),
                old(self).in_map(end.x as int, end.y as int),
                x_lo == if start.x > end.x { end.x } else { start.x },
                x_hi == if start.x > end.x { start.x } else { end.x },
                x_lo <= x <= x_hi + 1,
                forall|a: int, b: int|
                    old(self).in_map(a, b) ==> #[trigger] self.tile(a, b) == if b == start.y && x_lo <= a < x {
                        TileType::Floor
                    } else {
                        old(self).tile(a, b)
                    },
            decreases x_hi + 1 - x,
        {
            self.carve_floor(x, start.y);
            x = x + 1;
        }
        let mut y: i32 = y_lo;
        while y <= y_hi
            invariant
                self.wf(),
                self.same_but_tiles(old(self)),
                old(self).in_map(start.x as int, start.y as int),
                old(self).in_map(end.x as int, end.y as int),
                x_lo == if start.x > end.x { end.x } else { start.x },
                x_hi == if start.x > end.x { start.x } else { end.x },
                y_lo == if start.y > end.y { end.y } else { start.y },
                y_hi == if start.y > end.y { start.y } else { end.y },
                y_lo <= y <= y_hi + 1,
                forall|a: int, b: int|
                    old(self).in_map(a, b) ==> #[trigger] self.tile(a, b) == if (b == start.y && x_lo <= a
                        <= x_hi) || (a == end.x && y_lo <= b < y) {
                        TileType::Floor
                    } else {
                        old(self).tile(a, b)
                    },
            decreases y_hi + 1 - y,
        {
            self.carve_floor(end.x, y);
            y = y + 1;
        }
    }
}


fn repeat<T: Copy>(value: T, n: usize) -> (r: Vec<T>)
    ensures
        r@ == Seq::new(n as nat, |_i: int| value),
{
    let mut r: Vec<T> = Vec::new();
    let mut i: usize = 0;
    while i < n
        invariant
            i <= n,
            r@ == Seq::new(i as nat, |_i: int| value),
        decreases n - i,
    {
        r.push(value);
        i = i + 1;
        assert(r@ =~= Seq::new(i as nat, |_i: int| value));
    }
    r
}

impl TileMap {
    /// The room lies inside the map, clear of its border.
    pub open spec fn room_inside(&self, r: Rect) -> bool {
        1 <= r.x1 <= r.x2 <= self.width - 2 && 1 <= r.y1 <= r.y2 <= self.height - 2
    }

    /// Every cell of the room is floor.
    pub open spec fn room_floored(&self, r: Rect) -> bool {
        forall|a: int, b: int| self.in_map(a, b) && r.holds(a, b) ==> #[trigger] self.tile(a, b) == TileType::Floor
    }

    /// The rooms lie inside the map, clear of its border and of each other,
    /// and are floor throughout.
    pub open spec fn rooms_ok(&self) -> bool {
        &&& forall|i: int| 0 <= i < self.rooms@.len() ==> self.room_inside(#[trigger] self.rooms@[i])
        &&& forall|i: int| 0 <= i < self.rooms@.len() ==> self.room_floored(#[trigger] self.rooms@[i])
        &&& forall|i: int, j: int|
            0 <= i < j < self.rooms@.len() ==> !(#[trigger] self.rooms@[i]).overlaps(#[trigger] self.rooms@[j])
    }
}

impl TileMap {
    /// The hallway from `a` to `b`, one way or the other, is floor
    /// throughout.
    pub open spec fn joined(&self, a: Point, b: Point) -> bool {
        (forall|x: int, y: int|
            self.in_map(x, y) && Self::on_hallway(a, b, x, y) ==> #[trigger] self.tile(x, y) == TileType::Floor)
            || (forall|x: int, y: int|
            self.in_map(x, y) && Self::on_hallway(b, a, x, y) ==> #[trigger] self.tile(x, y) == TileType::Floor)
    }

    /// Each room after the first is joined to the one before it.
    pub open spec fn rooms_joined(&self) -> bool {
        forall|i: int| 1 <= i < self.rooms@.len() ==> self.joined(self.rooms@[i - 1].mid(), #[trigger] self.rooms@[i].mid())
    }
}

/// Where `before` has floor, so has `after`: floored rooms and joined
/// hallways stay so.
proof fn lemma_more_floor(before: TileMap, after: TileMap)
    requires
        before.width == after.width,
        before.height == after.height,
        forall|x: int, y: int| before.in_map(x, y) && before.tile(x, y) == TileType::Floor ==> #[trigger] after.tile(x, y) == TileType::Floor,
    ensures
        forall|r: Rect| before.room_floored(r) ==> #[trigger] after.room_floored(r),
        forall|a: Point, b: Point| before.joined(a, b) ==> #[trigger] after.joined(a, b),
{
    assert forall|r: Rect| before.room_floored(r) implies #[trigger] after.room_floored(r) by {
        assert forall|x: int, y: int| after.in_map(x, y) && r.holds(x, y) implies #[trigger] after.tile(x, y) == TileType::Floor by {
            assert(before.tile(x, y) == TileType::Floor);
        }
    }
    assert forall|a: Point, b: Point| before.joined(a, b) implies #[trigger] after.joined(a, b) by {
        if forall|x: int, y: int|
            before.in_map(x, y) && TileMap::on_hallway(a, b, x, y) ==> #[trigger] before.tile(x, y) == TileType::Floor {
            assert forall|x: int, y: int| after.in_map(x, y) && TileMap::on_hallway(a, b, x, y) implies #[trigger] after.tile(x, y) == TileType::Floor by {
                assert(before.tile(x, y) == TileType::Floor);
            }
        } else {
            assert forall|x: int, y: int| after.in_map(x, y) && TileMap::on_hallway(b, a, x, y) implies #[trigger] after.tile(x, y) == TileType::Floor by {
                assert(before.tile(x, y) == TileType::Floor);
            }
        }
    }
}

/// Cell `(x, y)` lies in room `i`, or on a hallway, one way or the other,
/// between room `i - 1` and room `i`.
pub open spec fn carved_by(rooms: Seq<Rect>, i: int, x: int, y: int) -> bool {
    rooms[i].holds(x, y) || (i >= 1 && (TileMap::on_hallway(rooms[i - 1].mid(), rooms[i].mid(), x, y)
        || TileMap::on_hallway(rooms[i].mid(), rooms[i - 1].mid(), x, y)))
}

impl TileMap {
    /// Every floor cell lies in a room or on a hallway between consecutive
    /// rooms.
    pub open spec fn floor_carved(&self) -> bool {
        forall|x: int, y: int|
            self.in_map(x, y) && #[trigger] self.tile(x, y) == TileType::Floor ==> exists|i: int|
                0 <= i < self.rooms@.len() && #[trigger] carved_by(self.rooms@, i, x, y)
    }

    /// Every cell on the map's edge is wall.
    pub open spec fn border_walled(&self) -> bool {
        forall|x: int, y: int|
            self.in_map(x, y) && (x == 0 || y == 0 || x == self.width - 1 || y == self.height - 1)
                ==> #[trigger] self.tile(x, y) == TileType::Wall
    }
}

/// Rooms clear of the edge, and hallways between their middles, leave the
/// edge as wall.
proof fn lemma_border_walled(map: TileMap)
    requires
        map.wf(),
        map.rooms_ok(),
        map.floor_carved(),
    ensures
        map.border_walled(),
{
    assert forall|x: int, y: int|
        map.in_map(x, y) && (x == 0 || y == 0 || x == map.width - 1 || y == map.height - 1) implies #[trigger] map.tile(x, y)
            == TileType::Wall by {
        if map.tile(x, y) == TileType::Floor {
            let i = choose|i: int| 0 <= i < map.rooms@.len() && #[trigger] carved_by(map.rooms@, i, x, y);
            assert(map.room_inside(map.rooms@[i]));
            if i >= 1 {
                assert(map.room_inside(map.rooms@[i - 1]));
            }
        }
    }
}

/// Builds a level of `width` by `height` cells: up to `MAX_ROOMS` rooms of
/// random size and place, none overlapping another, each after the first
/// joined to the previous one by a hallway; walls are blocked, and nothing
/// is known or seen yet.
pub fn build_rogue_map(width: i32, height: i32) -> (map: TileMap)
    requires
        MAX_ROOM_WIDTH + 2 <= width,
        MAX_ROOM_HEIGHT + 2 <= height,
        width * height <= i32::MAX,
    ensures
        map.wf(),
        map.width == width,
        map.height == height,
        map.rooms_ok(),
        map.rooms_joined(),
        map.floor_carved(),
        map.border_walled(),
        1 <= map.rooms@.len() <= MAX_ROOMS,
        map.blocked_tiles@ == map.tiles@.map_values(|t: TileType| t == TileType::Wall),
        map.known_tiles@ == Seq::new(map.tiles@.len(), |_i: int| false),
        map.visible_tiles@ == Seq::new(map.tiles@.len(), |_i: int| false),
{
    let dim = (width * height) as usize;
    let mut map = TileMap {
        tiles: repeat(TileType::Wall, dim),
        rooms: Vec::new(),
        width: width,
        height: height,
        known_tiles: repeat(false, dim),
        visible_tiles: repeat(false, dim),
        blocked_tiles: repeat(false, dim),
    };
    assert forall|x: int, y: int| map.in_map(x, y) implies #[trigger] map.tile(x, y) == TileType::Wall by {
        lemma_idx(width as int, height as int, x, y);
    }
    let mut rng = RandomNumberGenerator::new();
    let mut attempt: i32 = 0;
    while attempt < MAX_ROOMS
        invariant
            map.wf(),
            map.width == width,
            map.height == height,
            MAX_ROOM_WIDTH + 2 <= width,
            MAX_ROOM_HEIGHT + 2 <= height,
            map.rooms_ok(),
            map.rooms_joined(),
            map.floor_carved(),
            0 <= attempt <= MAX_ROOMS,
            map.rooms@.len() <= attempt,
            attempt >= 1 ==> map.rooms@.len() >= 1,
            map.known_tiles@ == Seq::new(map.tiles@.len(), |_i: int| false),
            map.visible_tiles@ == Seq::new(map.tiles@.len(), |_i: int| false),
        decreases MAX_ROOMS - attempt,
    {
        attempt = attempt + 1;
        let w = random_range(&mut rng, MIN_ROOM_WIDTH, MAX_ROOM_WIDTH);
        let h = random_range(&mut rng, MIN_ROOM_HEIGHT, MAX_ROOM_HEIGHT);
        let x = random_range(&mut rng, 1, map.width - w - 1);
        let y = random_range(&mut rng, 1, map.height - h - 1);
        let new_room = Rect::with_size(x, y, w, h);
        let mut quit = false;
        let mut k: usize = 0;
        while k < map.rooms.len()
            invariant
                k <= map.rooms@.len(),
                !quit ==> forall|j: int| 0 <= j < k ==> !(#[trigger] map.rooms@[j]).overlaps(new_room),
                quit ==> map.rooms@.len() > 0,
            decreases map.rooms@.len() - k,
        {
            if map.rooms[k].intersect(&new_room) {
                quit = true;
            }
            k = k + 1;
        }
        if quit {
            continue;
        }
        let ghost before = map;
        map.build_room(new_room);
        proof {
            lemma_more_floor(before, map);
            assert forall|i: int| 0 <= i < map.rooms@.len() implies map.room_floored(#[trigger] map.rooms@[i]) by {
                if i < before.rooms@.len() {
                    assert(before.room_floored(before.rooms@[i]));
                }
            }
            assert forall|i: int, j: int| 0 <= i < j < map.rooms@.len() implies !(#[trigger] map.rooms@[i]).overlaps(
                #[trigger] map.rooms@[j],
            ) by {
                if j < before.rooms@.len() {
                    assert(!before.rooms@[i].overlaps(before.rooms@[j]));
                } else {
                    assert(!before.rooms@[i].overlaps(new_room));
                }
            }
            assert forall|i: int| 1 <= i < map.rooms@.len() - 1 implies map.joined(map.rooms@[i - 1].mid(), #[trigger] map.rooms@[i].mid()) by {
                assert(before.joined(before.rooms@[i - 1].mid(), before.rooms@[i].mid()));
            }
            assert forall|x: int, y: int| map.in_map(x, y) && #[trigger] map.tile(x, y) == TileType::Floor implies exists|i: int|
                0 <= i < map.rooms@.len() && #[trigger] carved_by(map.rooms@, i, x, y) by {
                let last = before.rooms@.len() as int;
                if new_room.holds(x, y) {
                    assert(carved_by(map.rooms@, last, x, y));
                } else {
                    assert(before.tile(x, y) == TileType::Floor);
                    let i = choose|i: int| 0 <= i < before.rooms@.len() && #[trigger] carved_by(before.rooms@, i, x, y);
                    assert(map.rooms@[i] == before.rooms@[i]);
                    if i >= 1 {
                        assert(map.rooms@[i - 1] == before.rooms@[i - 1]);
                    }
                    assert(carved_by(map.rooms@, i, x, y));
                }
            }
        }
        let n = map.rooms.len();
        if n > 1 {
            let new_center = new_room.center();
            let prev_center = map.rooms[n - 2].center();
            assert(map.room_inside(map.rooms@[n - 2]));
            let ghost before = map;
            if random_range(&mut rng, 0, 2) == 0 {
                map.build_hallway(prev_center, new_center);
            } else {
                map.build_hallway(new_center, prev_center);
            }
            proof {
                lemma_more_floor(before, map);
                assert forall|i: int| 0 <= i < map.rooms@.len() implies map.room_floored(#[trigger] map.rooms@[i]) by {
                    assert(before.room_floored(before.rooms@[i]));
                }
                assert forall|i: int| 1 <= i < map.rooms@.len() implies map.joined(map.rooms@[i - 1].mid(), #[trigger] map.rooms@[i].mid()) by {
                    if i < n - 1 {
                        assert(before.joined(before.rooms@[i - 1].mid(), before.rooms@[i].mid()));
                    } else {
                        assert(map.rooms@[i] == new_room);
                    }
                }
                assert forall|x: int, y: int| map.in_map(x, y) && #[trigger] map.tile(x, y) == TileType::Floor implies exists|i: int|
                    0 <= i < map.rooms@.len() && #[trigger] carved_by(map.rooms@, i, x, y) by {
                    let last = n - 1;
                    assert(map.rooms@[last] == new_room);
                    if TileMap::on_hallway(prev_center, new_center, x, y) || TileMap::on_hallway(new_center, prev_center, x, y) {
                        assert(carved_by(map.rooms@, last as int, x, y));
                    } else {
                        assert(before.tile(x, y) == TileType::Floor);
                        let i = choose|i: int| 0 <= i < before.rooms@.len() && #[trigger] carved_by(before.rooms@, i, x, y);
                        assert(carved_by(map.rooms@, i, x, y));
                    }
                }
            }
        } else {
            assert(map.rooms_joined());
        }
    }
    let ghost before = map;
    map.set_blocked_tiles();
    proof {
        lemma_more_floor(before, map);
        assert forall|i: int| 0 <= i < map.rooms@.len() implies map.room_floored(#[trigger] map.rooms@[i]) by {
            assert(before.room_floored(before.rooms@[i]));
        }
        assert forall|i: int| 1 <= i < map.rooms@.len() implies map.joined(map.rooms@[i - 1].mid(), #[trigger] map.rooms@[i].mid()) by {
            assert(before.joined(before.rooms@[i - 1].mid(), before.rooms@[i].mid()));
        }
        assert forall|x: int, y: int| map.in_map(x, y) && #[trigger] map.tile(x, y) == TileType::Floor implies exists|i: int|
            0 <= i < map.rooms@.len() && #[trigger] carved_by(map.rooms@, i, x, y) by {
            assert(before.tile(x, y) == TileType::Floor);
        }
        lemma_border_walled(map);
    }
    map
}

/// Keeps the blocked cells of the map up to date.
pub struct MapIndexSystem;

impl MapIndexSystem {
    /// Marks every wall as blocked and every other tile as open.
    pub fn run(&mut self, map: &mut TileMap)
        requires
            old(map).wf(),
        ensures
            final(map).wf(),
            final(map).tiles == old(map).tiles,
            final(map).rooms == old(map).rooms,
            final(map).width == old(map).width,
            final(map).height == old(map).height,
            final(map).blocked_tiles@ == old(map).tiles@.map_values(|t: TileType| t == TileType::Wall),
    {
        map.set_blocked_tiles();
    }
}

impl TileMap {
    /// The cell lies on the map.
    pub open spec fn holds_point(&self, p: Point) -> bool {
        self.in_map(p.x as int, p.y as int)
    }

    /// Keeps the cells that lie on the map, in order.
    pub fn clip_to_map(&self, cells: Vec<Point>) -> (r: Vec<Point>)
        ensures
            r@ == cells@.filter(|p: Point| self.holds_point(p)),
    {
        let mut r: Vec<Point> = Vec::new();
        let mut i: usize = 0;
        while i < cells.len()
            invariant
                i <= cells@.len(),
                r@ == cells@.take(i as int).filter(|p: Point| self.holds_point(p)),
            decreases cells@.len() - i,
        {
            let p = cells[i];
            proof {
                reveal(Seq::filter);
                assert(cells@.take(i + 1).drop_last() =~= cells@.take(i as int));
            }
            if p.x >= 0 && p.x < self.width && p.y >= 0 && p.y < self.height {
                r.push(p);
            }
            i = i + 1;
        }
        assert(cells@.take(i as int) =~= cells@);
        r
    }

    /// Slot `i` is the slot of one of the cells.
    pub open spec fn shows(&self, cells: Seq<Point>, i: int) -> bool {
        exists|k: int| 0 <= k < cells.len() && #[trigger] idx(self.width as int, cells[k].x as int, cells[k].y as int) == i
    }

    /// Records what the primary actor sees: exactly `cells` are visible,
    /// and they become known.
    pub fn mark_seen(&mut self, cells: &Vec<Point>)
        requires
            old(self).wf(),
            forall|k: int| 0 <= k < cells@.len() ==> old(self).holds_point(#[trigger] cells@[k]),
        ensures
            final(self).wf(),
            final(self).tiles == old(self).tiles,
            final(self).rooms == old(self).rooms,
            final(self).width == old(self).width,
            final(self).height == old(self).height,
            final(self).blocked_tiles == old(self).blocked_tiles,
            final(self).visible_tiles@ == Seq::new(old(self).tiles@.len(), |i: int| old(self).shows(cells@, i)),
            final(self).known_tiles@ == Seq::new(
                old(self).tiles@.len(),
                |i: int| old(self).known_tiles@[i] || old(self).shows(cells@, i),
            ),
    {
        let n = self.visible_tiles.len();
        let mut i: usize = 0;
        while i < n
            invariant
                self.wf(),
                n == self.tiles@.len(),
                i <= n,
                self.tiles == old(self).tiles,
                self.rooms == old(self).rooms,
                self.width == old(self).width,
                self.height == old(self).height,
                self.blocked_tiles == old(self).blocked_tiles,
                self.known_tiles == old(self).known_tiles,
                forall|j: int| 0 <= j < i ==> !#[trigger] self.visible_tiles@[j],
            decreases n - i,
        {
            self.visible_tiles.set(i, false);
            i = i + 1;
        }
        let mut k: usize = 0;
        while k < cells.len()
            invariant
                self.wf(),
                n == self.tiles@.len(),
                k <= cells@.len(),
                forall|j: int| 0 <= j < cells@.len() ==> old(self).holds_point(#[trigger] cells@[j]),
                self.tiles == old(self).tiles,
                self.rooms == old(self).rooms,
                self.width == old(self).width,
                self.height == old(self).height,
                self.blocked_tiles == old(self).blocked_tiles,
                forall|j: int| 0 <= j < n ==> #[trigger] self.visible_tiles@[j] == old(self).shows(cells@.take(k as int), j),
                forall|j: int|
                    0 <= j < n ==> #[trigger] self.known_tiles@[j] == (old(self).known_tiles@[j] || old(self).shows(
                        cells@.take(k as int),
                        j,
                    )),
            decreases cells@.len() - k,
        {
            let p = cells[k];
            assert(old(self).holds_point(cells@[k as int]));
            let index = self.get_index(p.x, p.y);
            self.visible_tiles.set(index, true);
            self.known_tiles.set(index, true);
            proof {
                let t0 = cells@.take(k as int);
                let t1 = cells@.take(k + 1);
                assert forall|j: int| 0 <= j < n implies old(self).shows(t1, j) == (old(self).shows(t0, j) || j == index) by {
                    if old(self).shows(t0, j) {
                        let m = choose|m: int| 0 <= m < t0.len() && #[trigger] idx(self.width as int, t0[m].x as int, t0[m].y as int) == j;
                        assert(t1[m] == t0[m]);
                    }
                    if j == index {
                        assert(t1[k as int] == p);
                    }
                    if old(self).shows(t1, j) && j != index {
                        let m = choose|m: int| 0 <= m < t1.len() && #[trigger] idx(self.width as int, t1[m].x as int, t1[m].y as int) == j;
                        assert(t0[m] == t1[m]);
                    }
                }
            }
            k = k + 1;
        }
        assert(cells@.take(k as int) =~= cells@);
        assert(self.visible_tiles@ =~= Seq::new(old(self).tiles@.len(), |i: int| old(self).shows(cells@, i)));
        assert(self.known_tiles@ =~= Seq::new(
            old(self).tiles@.len(),
            |i: int| old(self).known_tiles@[i] || old(self).shows(cells@, i),
        ));
    }
}

} // verus!
