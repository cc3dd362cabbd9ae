//! Targeting shapes and the cells they cover.
use vstd::prelude::*;

verus! {

/// A cell of the grid.
#[derive(Clone, Copy, Debug, PartialEq, Eq, Structural)]
pub struct Point {
    pub x: i32,
    pub y: i32,
}

impl Point {
    pub fn new(x: i32, y: i32) -> (r: Point)
        ensures
            r.x == x,
            r.y == y,
    {
        Point { x, y }
    }

    /// The origin `(0, 0)`.
    pub fn zero() -> (r: Point)
        ensures
            r.x == 0,
            r.y == 0,
    {
        Point { x: 0, y: 0 }
    }
}

/// A targeting shape, placed on the grid by `resolve_range_at`.
#[derive(Clone, Debug, PartialEq, Eq)]
pub enum RangeType {
    /// No cell at all: the action is not targeted.
    Empty,
    /// The origin cell alone.
    Single,
    /// Every cell within `size` of the origin on both axes.
    Square { size: i32 },
    /// The origin moved by each offset, in the order given.
    Custom { offsets: Vec<(i32, i32)> },
}

/// The point with the given integer coordinates.
pub open spec fn pt(x: int, y: int) -> Point {
    Point { x: x as i32, y: y as i32 }
}

pub open spec fn in_i32(v: int) -> bool {
    i32::MIN <= v <= i32::MAX
}

/// Number of cells on one side of a square of half-width `size`.
pub open spec fn square_side(size: int) -> nat {
    if size < 0 {
        0
    } else {
        (2 * size + 1) as nat
    }
}

/// The cells of a square of half-width `size` around `c`, row by row: the
/// row of `c.y - size` first, each row from its lowest `x` upwards.
pub open spec fn square_at(c: Point, size: int) -> Seq<Point> {
    let n = square_side(size);
    Seq::new(n * n, |k: int| pt(c.x - size + k % (n as int), c.y - size + k / (n as int)))
}

/// The origin moved by each offset.
pub open spec fn offsets_at(c: Point, offsets: Seq<(i32, i32)>) -> Seq<Point> {
    offsets.map_values(|o: (i32, i32)| pt(c.x + o.0, c.y + o.1))
}

/// The cells that `range` covers when placed at `c`, in order.
pub open spec fn range_at(range: RangeType, c: Point) -> Seq<Point> {
    match range {
        RangeType::Empty => Seq::empty(),
        RangeType::Single => seq![c],
        RangeType::Square { size } => square_at(c, size as int),
        RangeType::Custom { offsets } => offsets_at(c, offsets@),
    }
}

/// The origin moved by offset `o` has coordinates that fit in `i32`.
pub open spec fn fits_offset(c: Point, o: (i32, i32)) -> bool {
    in_i32(c.x + o.0) && in_i32(c.y + o.1)
}

/// Every cell that `range` covers at `c` has coordinates that fit in `i32`.
pub open spec fn range_fits(range: RangeType, c: Point) -> bool {
    match range {
        RangeType::Square { size } => size < 0 || (in_i32(c.x - size) && in_i32(c.x + size)
            && in_i32(c.y - size) && in_i32(c.y + size)),
        RangeType::Custom { offsets } => forall|i: int|
            0 <= i < offsets@.len() ==> #[trigger] fits_offset(c, offsets@[i]),
        _ => true,
    }
}

proof fn lemma_square_index(n: int, i: int, j: int)
    requires
        0 <= i < n,
        0 <= j < n,
    ensures
        0 <= i * n + j < n * n,
        (i * n + j) / n == i,
        (i * n + j) % n == j,
{
    vstd::arithmetic::div_mod::lemma_fundamental_div_mod_converse(i * n + j, n, i, j);
    assert(i * n + j < n * n) by (nonlinear_arith)
        requires
            0 <= i < n,
            0 <= j < n,
    ;
    assert(0 <= i * n) by (nonlinear_arith)
        requires
            0 <= i,
            0 <= n,
    ;
}

/// Tells whether every cell that `range` covers at `center` fits in `i32`.
pub fn range_fits_at(range: &RangeType, center: Point) -> (r: bool)
    ensures
        r == range_fits(*range, center),
{
    match range {
        RangeType::Square { size } => {
            let size = *size as i64;
            size < 0 || (center.x as i64 - size >= i32::MIN as i64 && center.x as i64 + size
                <= i32::MAX as i64 && center.y as i64 - size >= i32::MIN as i64 && center.y as i64
                + size <= i32::MAX as i64)
        },
        RangeType::Custom { offsets } => {
            let mut i: usize = 0;
            let mut ok = true;
            while i < offsets.len() && ok
                invariant
                    i <= offsets@.len(),
                    ok ==> forall|j: int| 0 <= j < i ==> #[trigger] fits_offset(center, offsets@[j]),
                    !ok ==> 0 < i && !fits_offset(center, offsets@[i - 1]),
                decreases offsets@.len() - i,
            {
                let (dx, dy) = offsets[i];
                let x = center.x as i64 + dx as i64;
                let y = center.y as i64 + dy as i64;
                ok = i32::MIN as i64 <= x && x <= i32::MAX as i64 && i32::MIN as i64 <= y && y <= i32::MAX as i64;
                i = i + 1;
            }
            ok
        },
        _ => true,
    }
}

/// The empty shape covers no cell and the single shape covers its origin
/// alone, wherever they are placed.
pub proof fn lemma_empty_and_single(p: Point)
    ensures
        range_at(RangeType::Empty, p) == Seq::<Point>::empty(),
        range_at(RangeType::Single, p) == seq![p],
{
}

proof fn lemma_square_entry(n: int, k: int)
    requires
        0 < n,
        0 <= k < n * n,
    ensures
        0 <= k / n < n,
        0 <= k % n < n,
        k == (k / n) * n + k % n,
{
    vstd::arithmetic::div_mod::lemma_fundamental_div_mod(k, n);
    vstd::arithmetic::div_mod::lemma_mod_bound(k, n);
    vstd::arithmetic::div_mod::lemma_div_pos_is_pos(k, n);
    let q = k / n;
    let r = k % n;
    assert(q < n) by (nonlinear_arith)
        requires
            k == n * q + r,
            0 <= r,
            k < n * n,
            0 < n,
    ;
    assert(k == q * n + r) by (nonlinear_arith)
        requires
            k == n * q + r,
    ;
}

/// A square of half-width `size` covers every cell within `size` of its
/// origin on both axes, each exactly once, and no other cell.
pub proof fn lemma_square_cells(c: Point, size: int)
    requires
        0 <= size,
        in_i32(c.x - size),
        in_i32(c.x + size),
        in_i32(c.y - size),
        in_i32(c.y + size),
    ensures
        square_at(c, size).len() == (2 * size + 1) * (2 * size + 1),
        square_at(c, size).no_duplicates(),
        forall|p: Point|
            square_at(c, size).contains(p) <==> (c.x - size <= p.x <= c.x + size && c.y - size <= p.y
                <= c.y + size),
{
    let n = 2 * size + 1;
    let s = square_at(c, size);
    assert(square_side(size) == n);
    assert forall|k: int| 0 <= k < s.len() implies #[trigger] s[k] == (Point {
        x: (c.x - size + k % n) as i32,
        y: (c.y - size + k / n) as i32,
    }) && c.x - size <= s[k].x <= c.x + size && c.y - size <= s[k].y <= c.y + size && s[k].x == c.x
        - size + k % n && s[k].y == c.y - size + k / n by {
        lemma_square_entry(n, k);
    }
    assert forall|i: int, j: int| 0 <= i < s.len() && 0 <= j < s.len() && i != j implies s[i] != s[j] by {
        lemma_square_entry(n, i);
        lemma_square_entry(n, j);
        if s[i] == s[j] {
            assert(i / n == j / n);
            assert(i % n == j % n);
        }
    }
    assert forall|p: Point|
        (c.x - size <= p.x <= c.x + size && c.y - size <= p.y <= c.y + size) implies s.contains(p) by {
        let i = p.y - (c.y - size);
        let j = p.x - (c.x - size);
        lemma_square_index(n, i, j);
        let k = i * n + j;
        assert(s[k] == p);
    }
}

/// Places `range` at `center` and lists the cells it covers.
pub fn resolve_range_at(range: &RangeType, center: Point) -> (targets: Vec<Point>)
    requires
        range_fits(*range, center),
    ensures
        targets@ == range_at(*range, center),
{
    let mut targets: Vec<Point> = Vec::new();
    match range {
        RangeType::Empty => {},
        RangeType::Single => {
            targets.push(center);
        },
        RangeType::Square { size } => {
            let size = *size;
            if size >= 0 {
                let ghost n = square_side(size as int) as int;
                let lo_x = center.x as i64 - size as i64;
                let hi_x = center.x as i64 + size as i64;
                let lo_y = center.y as i64 - size as i64;
                let hi_y = center.y as i64 + size as i64;
                let mut y: i64 = lo_y;
                assert(targets@.len() == (y - lo_y) * n) by (nonlinear_arith)
                    requires
                        targets@.len() == 0,
                        y == lo_y,
                ;
                while y <= hi_y
                    invariant
                        n == 2 * size + 1,
                        lo_y == center.y - size,
                        hi_y == center.y + size,
                        lo_x == center.x - size,
                        hi_x == center.x + size,
                        in_i32(lo_y as int),
                        in_i32(hi_y as int),
                        in_i32(lo_x as int),
                        in_i32(hi_x as int),
                        lo_y <= y <= hi_y + 1,
                        targets@.len() == (y - lo_y) * n,
                        forall|k: int|
                            0 <= k < targets@.len() ==> #[trigger] targets@[k] == pt(
                                lo_x + k % n,
                                lo_y + k / n,
                            ),
                    decreases hi_y + 1 - y,
                {
                    let mut x: i64 = lo_x;
                    while x <= hi_x
                        invariant
                            n == 2 * size + 1,
                            lo_y == center.y - size,
                            hi_y == center.y + size,
                            lo_x == center.x - size,
                            hi_x == center.x + size,
                            in_i32(lo_x as int),
                            in_i32(hi_x as int),
                            lo_y <= y <= hi_y,
                            in_i32(y as int),
                            lo_x <= x <= hi_x + 1,
                            targets@.len() == (y - lo_y) * n + (x - lo_x),
                            forall|k: int|
                                0 <= k < targets@.len() ==> #[trigger] targets@[k] == pt(
                                    lo_x + k % n,
                                    lo_y + k / n,
                                ),
                        decreases hi_x + 1 - x,
                    {
                        proof {
                            lemma_square_index(n, y - lo_y, x - lo_x);
                        }
                        targets.push(Point::new(x as i32, y as i32));
                        x = x + 1;
                    }
                    proof {
                        assert((y - lo_y) * n + n == (y + 1 - lo_y) * n) by (nonlinear_arith);
                    }
                    y = y + 1;
                }
                assert(y == hi_y + 1);
                assert(targets@.len() == n * n);
                assert(targets@ =~= square_at(center, size as int));
            } else {
                assert(targets@ =~= square_at(center, size as int));
            }
        },
        RangeType::Custom { offsets } => {
            let mut i: usize = 0;
            while i < offsets.len()
                invariant
                    forall|j: int| 0 <= j < offsets@.len() ==> #[trigger] fits_offset(center, offsets@[j]),
                    i <= offsets@.len(),
                    targets@ == offsets_at(center, offsets@.take(i as int)),
                decreases offsets@.len() - i,
            {
                let (dx, dy) = offsets[i];
                assert(fits_offset(center, offsets@[i as int]));
                targets.push(Point::new(center.x + dx, center.y + dy));
                proof {
                    assert(offsets@.take(i + 1) =~= offsets@.take(i as int).push(offsets@[i as int]));
                }
                i = i + 1;
                assert(targets@ =~= offsets_at(center, offsets@.take(i as int)));
            }
            assert(offsets@.take(i as int) =~= offsets@);
        },
    }
    targets
}

} // verus!
