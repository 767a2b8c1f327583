use vstd::prelude::*;

verus! {

/// The largest ring radius that the library materialises; it keeps every
/// coordinate it handles, and each of their neighbours, well inside `i32`.
pub const MAX_RINGS: u32 = 100000000;

/// An axial hexagonal coordinate; the third cube coordinate is `-x - y`.
#[derive(Clone, Copy, Debug, PartialEq, Eq, Hash, Structural)]
pub struct HexCoord {
    pub x: i32,
    pub y: i32,
}

pub open spec fn abs(v: int) -> int {
    if v < 0 { -v } else { v }
}

pub open spec fn max3(a: int, b: int, c: int) -> int {
    if a >= b && a >= c { a } else if b >= c { b } else { c }
}

/// Hex distance between two coordinates.
pub open spec fn distance(a: HexCoord, b: HexCoord) -> int {
    let dx = a.x - b.x;
    let dy = a.y - b.y;
    max3(abs(dx), abs(dy), abs(dx + dy))
}

/// Hex distance from the origin.
pub open spec fn radius(c: HexCoord) -> int {
    max3(abs(c.x as int), abs(c.y as int), abs(c.x + c.y))
}

/// The six unit offsets, in the fixed direction order YZ, XZ, XY, ZY, ZX, YX.
pub open spec fn dir_dx(d: int) -> int {
    if d == 0 { 0 } else if d == 1 { 1 } else if d == 2 { 1 }
    else if d == 3 { 0 } else if d == 4 { -1 } else { -1 }
}

pub open spec fn dir_dy(d: int) -> int {
    if d == 0 { 1 } else if d == 1 { 0 } else if d == 2 { -1 }
    else if d == 3 { -1 } else if d == 4 { 0 } else { 1 }
}

/// The neighbour of `c` in direction `d` (0 to 5).
pub open spec fn neighbor(c: HexCoord, d: int) -> HexCoord {
    HexCoord { x: (c.x + dir_dx(d)) as i32, y: (c.y + dir_dy(d)) as i32 }
}

/// Two coordinates share an edge.
pub open spec fn adjacent(a: HexCoord, b: HexCoord) -> bool {
    distance(a, b) == 1
}

/// A coordinate whose neighbours are all representable.
pub open spec fn in_range(c: HexCoord) -> bool {
    -2000000000 <= c.x <= 2000000000 && -2000000000 <= c.y <= 2000000000
}

/// Element `i` of the ring of radius `r` around the origin, walked clockwise
/// from the corner `(r, -r)`: side `k` starts at its corner and takes `r`
/// steps of direction `(4 + k) % 6`.
pub open spec fn ring_at(r: int, i: int) -> HexCoord {
    let k = i / r;
    let j = i % r;
    if k == 0 {
        HexCoord { x: (r - j) as i32, y: (-r) as i32 }
    } else if k == 1 {
        HexCoord { x: (-j) as i32, y: (j - r) as i32 }
    } else if k == 2 {
        HexCoord { x: (-r) as i32, y: j as i32 }
    } else if k == 3 {
        HexCoord { x: (j - r) as i32, y: r as i32 }
    } else if k == 4 {
        HexCoord { x: j as i32, y: (r - j) as i32 }
    } else {
        HexCoord { x: r as i32, y: (-j) as i32 }
    }
}

/// The ring of radius `r` as a sequence.
pub open spec fn ring_seq(r: int) -> Seq<HexCoord> {
    Seq::new((6 * r) as nat, |i: int| ring_at(r, i))
}

impl HexCoord {
    pub fn new(x: i32, y: i32) -> (c: HexCoord)
        ensures
            c.x == x,
            c.y == y,
    {
        HexCoord { x, y }
    }

    pub fn origin() -> (c: HexCoord)
        ensures
            c.x == 0,
            c.y == 0,
    {
        HexCoord { x: 0, y: 0 }
    }

    /// The six neighbours, in the fixed direction order.
    pub fn neighbors(&self) -> (r: [HexCoord; 6])
        requires
            in_range(*self),
        ensures
            forall|d: int| 0 <= d < 6 ==> #[trigger] r@[d] == neighbor(*self, d),
    {
        let x = self.x;
        let y = self.y;
        [
            HexCoord { x, y: y + 1 },
            HexCoord { x: x + 1, y },
            HexCoord { x: x + 1, y: y - 1 },
            HexCoord { x, y: y - 1 },
            HexCoord { x: x - 1, y },
            HexCoord { x: x - 1, y: y + 1 },
        ]
    }

    /// Exact hex distance to another coordinate.
    pub fn distance_to(&self, other: &HexCoord) -> (d: u64)
        requires
            in_range(*self),
            in_range(*other),
        ensures
            d == distance(*self, *other),
    {
        let dx: i64 = self.x as i64 - other.x as i64;
        let dy: i64 = self.y as i64 - other.y as i64;
        let dz: i64 = dx + dy;
        let ax: i64 = if dx < 0 { -dx } else { dx };
        let ay: i64 = if dy < 0 { -dy } else { dy };
        let az: i64 = if dz < 0 { -dz } else { dz };
        let m: i64 = if ax >= ay && ax >= az { ax } else if ay >= az { ay } else { az };
        m as u64
    }
}

/// Relies on hex2d's `Coordinate::ring_iter` with `Spin::CW(XY)` around the
/// origin: it starts at `XY * r = (r, -r)`, walks `r` steps in each of the
/// six directions ZX, YX, YZ, XZ, XY, ZY in turn, and yields `6 * r` items.
#[verifier::external_body]
fn ring_from_hex2d(r: u32) -> (v: Vec<HexCoord>)
    requires
        1 <= r <= MAX_RINGS,
    ensures
        v@ == ring_seq(r as int),
{
    hex2d::Coordinate::<i32>::new(0, 0)
        .ring_iter(r as i32, hex2d::Spin::CW(hex2d::Direction::XY))
        .map(|c| HexCoord { x: c.x, y: c.y })
        .collect()
}

/// The ring of radius `r` around the origin, in clockwise order from the
/// corner `(r, -r)`.
pub fn ring(r: u32) -> (v: Vec<HexCoord>)
    requires
        1 <= r <= MAX_RINGS,
    ensures
        v@ == ring_seq(r as int),
        v@.len() == 6 * r,
        forall|i: int| 0 <= i < v@.len() ==> radius(#[trigger] v@[i]) == r,
        v@.no_duplicates(),
{
    let v = ring_from_hex2d(r);
    proof {
        lemma_ring_shape(r as int);
    }
    v
}

/// Every element of the ring of radius `r` lies at distance `r` from the
/// origin, and the `6 * r` elements are pairwise distinct.
pub proof fn lemma_ring_shape(r: int)
    requires
        1 <= r <= MAX_RINGS,
    ensures
        ring_seq(r).len() == 6 * r,
        forall|i: int| 0 <= i < 6 * r ==> radius(#[trigger] ring_seq(r)[i]) == r,
        ring_seq(r).no_duplicates(),
{
    assert forall|i: int| 0 <= i < 6 * r implies radius(#[trigger] ring_seq(r)[i]) == r by {
        lemma_ring_index(r, i);
    }
    assert forall|i: int, j: int|
        0 <= i < 6 * r && 0 <= j < 6 * r && i != j implies ring_seq(r)[i] != ring_seq(r)[j] by {
        lemma_ring_index(r, i);
        lemma_ring_index(r, j);
    }
}

/// Splits a ring index into its side and its offset along that side.
proof fn lemma_ring_index(r: int, i: int)
    requires
        1 <= r <= MAX_RINGS,
        0 <= i < 6 * r,
    ensures
        0 <= i / r < 6,
        0 <= i % r < r,
        i == (i / r) * r + i % r,
{
    assert(0 <= i / r < 6) by (nonlinear_arith)
        requires 1 <= r, 0 <= i < 6 * r;
    assert(i == (i / r) * r + i % r && 0 <= i % r < r) by (nonlinear_arith)
        requires 1 <= r, 0 <= i;
}

/// The ring of radius `r` holds every coordinate at distance `r` from the
/// origin.
pub proof fn lemma_ring_complete(r: int, c: HexCoord)
    requires
        1 <= r <= MAX_RINGS,
        radius(c) == r,
    ensures
        ring_seq(r).contains(c),
{
    let x = c.x as int;
    let y = c.y as int;
    let (k, j) = if y == -r && x > 0 {
        (0int, r - x)
    } else if x + y == -r && x <= 0 && x > -r {
        (1int, -x)
    } else if x == -r && 0 <= y < r {
        (2int, y)
    } else if y == r && x < 0 {
        (3int, x + r)
    } else if x + y == r && 0 <= x < r {
        (4int, x)
    } else {
        (5int, -y)
    };
    assert(0 <= j < r);
    let i = k * r + j;
    vstd::arithmetic::div_mod::lemma_fundamental_div_mod_converse(i, r, k, j);
    assert(0 <= i < 6 * r) by (nonlinear_arith)
        requires i == k * r + j, 0 <= k < 6, 0 <= j < r;
    assert(ring_seq(r)[i] == c);
}

/// The coordinates within distance one of the origin are the origin and its
/// six neighbours.
pub proof fn lemma_unit_disk(c: HexCoord)
    ensures
        radius(c) <= 1 <==> (c == HexCoord { x: 0, y: 0 } || exists|d: int|
            0 <= d < 6 && c == #[trigger] neighbor(HexCoord { x: 0, y: 0 }, d)),
{
    let o = HexCoord { x: 0, y: 0 };
    if radius(c) <= 1 && c != o {
        if c == neighbor(o, 0) {
        } else if c == neighbor(o, 1) {
        } else if c == neighbor(o, 2) {
        } else if c == neighbor(o, 3) {
        } else if c == neighbor(o, 4) {
        } else {
            assert(c == neighbor(o, 5));
        }
    }
}

/// The neighbours of a representable coordinate are exactly the coordinates
/// adjacent to it.
pub proof fn lemma_adjacent_neighbor(p: HexCoord, c: HexCoord)
    requires
        in_range(p),
    ensures
        adjacent(p, c) <==> exists|d: int| 0 <= d < 6 && c == #[trigger] neighbor(p, d),
{
    if adjacent(p, c) {
        let dx = c.x - p.x;
        let dy = c.y - p.y;
        if dx == 0 && dy == 1 {
            assert(c == neighbor(p, 0));
        } else if dx == 1 && dy == 0 {
            assert(c == neighbor(p, 1));
        } else if dx == 1 && dy == -1 {
            assert(c == neighbor(p, 2));
        } else if dx == 0 && dy == -1 {
            assert(c == neighbor(p, 3));
        } else if dx == -1 && dy == 0 {
            assert(c == neighbor(p, 4));
        } else {
            assert(c == neighbor(p, 5));
        }
    }
}

} // verus!
