use vstd::prelude::*;

use crate::hex::{
    HexCoord, MAX_RINGS, neighbor, radius, ring, ring_seq, in_range, lemma_ring_complete,
    lemma_unit_disk,
};
use crate::tile::{State, Tile};

verus! {

/// The origin of the grid.
pub open spec fn origin() -> HexCoord {
    HexCoord { x: 0, y: 0 }
}

/// The role of each present tile, without its counter.
pub open spec fn states(m: Map<HexCoord, Tile>) -> Map<HexCoord, State> {
    m.map_values(|t: Tile| t.state)
}

/// A present, non-obstacle tile; an absent coordinate is never passable.
pub open spec fn passable(m: Map<HexCoord, State>, c: HexCoord) -> bool {
    m.contains_key(c) && m[c] != State::Obstacle
}

pub open spec fn obstacle_at(m: Map<HexCoord, Tile>, c: HexCoord) -> int {
    if m.contains_key(c) && m[c].state == State::Obstacle { 1 } else { 0 }
}

/// How many of the six neighbours of `c` are present obstacles.
pub open spec fn obstacle_count(m: Map<HexCoord, Tile>, c: HexCoord) -> int {
    obstacle_at(m, neighbor(c, 0)) + obstacle_at(m, neighbor(c, 1)) + obstacle_at(m, neighbor(c, 2))
        + obstacle_at(m, neighbor(c, 3)) + obstacle_at(m, neighbor(c, 4)) + obstacle_at(m, neighbor(c, 5))
}

/// The weight-table row used for `c`: its obstacle neighbours, clamped to two.
pub open spec fn bucket(m: Map<HexCoord, Tile>, c: HexCoord) -> int {
    if obstacle_count(m, c) >= 2 { 2 } else { obstacle_count(m, c) }
}

/// Relative weight of choice `k` (inactive, office, obstacle) in row `b`.
pub open spec fn ring_weight(b: int, k: int) -> int {
    if b == 0 {
        if k == 0 { 45 } else if k == 1 { 35 } else { 20 }
    } else if b == 1 {
        if k == 0 { 50 } else if k == 1 { 10 } else { 40 }
    } else {
        if k == 0 { 25 } else if k == 1 { 0 } else { 75 }
    }
}

pub open spec fn choice_state(k: int) -> State {
    if k == 0 { State::Inactive } else if k == 1 { State::Active } else { State::Obstacle }
}

/// `s` has a positive weight in row `b` of the table.
pub open spec fn allowed_in_row(b: int, s: State) -> bool {
    exists|k: int| 0 <= k < 3 && ring_weight(b, k) > 0 && s == #[trigger] choice_state(k)
}

/// The states that may seed the six neighbours of the origin: exactly one
/// break shop, the others inactive or obstacles.
pub open spec fn valid_seed(s: Seq<State>) -> bool {
    &&& s.len() == 6
    &&& exists|d: int| 0 <= d < 6 && s[d] == State::BreakShop && forall|e: int|
        0 <= e < 6 && e != d ==> (#[trigger] s[e] == State::Inactive || s[e] == State::Obstacle)
}

/// `b` is `a` grown by its next ring: old entries kept, in place, and the
/// ring appended in order with zero counters, each new state one of
/// positive weight in the row its obstacle neighbours in `a` select.
pub open spec fn grown_by_ring(a: TileMap, b: TileMap) -> bool {
    let g = b.rings();
    let n = a.entries().len();
    &&& b.wf()
    &&& g == a.rings() + 1
    &&& b.entries().len() == n + 6 * g
    &&& b.entries().subrange(0, n as int) == a.entries()
    &&& forall|i: int| 0 <= i < 6 * g ==> {
        let e = #[trigger] b.entries()[n + i];
        &&& e.0 == ring_seq(g)[i]
        &&& e.1.counter == 0
        &&& allowed_in_row(bucket(a@, e.0), e.1.state)
    }
    &&& forall|c: HexCoord| #[trigger] a@.contains_key(c) ==> b@[c] == a@[c]
}

/// The neighbours of the origin hold a break shop in direction `s`,
/// obstacles in directions `o1` and `o2`, and inactive tiles elsewhere.
pub open spec fn random_seed_shape(m: Map<HexCoord, Tile>, s: int, o1: int, o2: int) -> bool {
    &&& 0 <= s < 6 && 0 <= o1 < 6 && 0 <= o2 < 6
    &&& s != o1 && s != o2 && o1 != o2
    &&& forall|d: int| 0 <= d < 6 ==> #[trigger] m[neighbor(origin(), d)].state == if d == s {
        State::BreakShop
    } else if d == o1 || d == o2 {
        State::Obstacle
    } else {
        State::Inactive
    }
}

/// `b` is `a` grown by its next ring from the draws `picks`: one per new
/// coordinate, each of positive weight in the row that the coordinate's
/// obstacle neighbours in `a` select, and each new tile holding the state
/// its draw stands for.
pub open spec fn drawn_ring(a: TileMap, b: TileMap, picks: Seq<usize>) -> bool {
    let g = a.rings() + 1;
    let n = a.entries().len();
    &&& picks.len() == 6 * g
    &&& forall|i: int| 0 <= i < picks.len() ==> {
        &&& #[trigger] picks[i] < 3
        &&& ring_weight(bucket(a@, ring_seq(g)[i]), picks[i] as int) > 0
        &&& b.entries()[n + i].1.state == choice_state(picks[i] as int)
    }
}

/// The grid: every coordinate within `generated_rings` of the origin holds a
/// tile, and no other does.
pub struct TileMap {
    pub(crate) tiles: Vec<(HexCoord, Tile)>,
    pub(crate) generated_rings: u32,
    pub(crate) model: Ghost<Map<HexCoord, Tile>>,
}

impl View for TileMap {
    type V = Map<HexCoord, Tile>;

    open(crate) spec fn view(&self) -> Map<HexCoord, Tile> {
        self.model@
    }
}

impl TileMap {
    /// The tiles in their storage order, which is the order of generation.
    pub open(crate) spec fn entries(&self) -> Seq<(HexCoord, Tile)> {
        self.tiles@
    }

    pub open(crate) spec fn rings(&self) -> int {
        self.generated_rings as int
    }

    /// The entries have unique keys and agree with the view.
    pub open(crate) spec fn store_ok(&self) -> bool {
        &&& self@.dom().finite()
        &&& forall|i: int, j: int|
            0 <= i < self.tiles@.len() && 0 <= j < self.tiles@.len() && i != j
                ==> #[trigger] self.tiles@[i].0 != #[trigger] self.tiles@[j].0
        &&& forall|i: int| 0 <= i < self.tiles@.len() ==> self@.contains_key(#[trigger] self.tiles@[i].0)
            && self@[self.tiles@[i].0] == self.tiles@[i].1
        &&& forall|c: HexCoord| #[trigger] self@.contains_key(c) ==> exists|i: int|
            0 <= i < self.tiles@.len() && #[trigger] self.tiles@[i].0 == c
    }

    pub open(crate) spec fn wf(&self) -> bool {
        &&& self.store_ok()
        &&& 1 <= self.generated_rings <= MAX_RINGS
        &&& forall|c: HexCoord| #[trigger] self@.contains_key(c) <==> radius(c) <= self.generated_rings
        &&& self@.contains_key(origin())
        &&& self@[origin()].state == State::Active
    }

    /// The map has no gaps: a coordinate holds a tile exactly when it lies
    /// within `generated_rings` of the origin.
    pub proof fn lemma_no_gap(&self, c: HexCoord)
        requires
            self.wf(),
        ensures
            self@.contains_key(c) ==> radius(c) <= self.rings(),
            radius(c) <= self.rings() ==> self@.contains_key(c),
    {
    }

    /// Present coordinates are far from the edge of `i32`.
    pub proof fn lemma_present_in_range(&self, c: HexCoord)
        requires
            self.wf(),
            self@.contains_key(c),
        ensures
            in_range(c),
            radius(c) <= MAX_RINGS,
    {
    }

    pub fn generated_rings(&self) -> (g: u32)
        requires
            self.wf(),
        ensures
            g == self.rings(),
    {
        self.generated_rings
    }

    pub fn len(&self) -> (n: usize)
        ensures
            n == self.entries().len(),
    {
        self.tiles.len()
    }

    /// The `i`-th entry in storage order.
    pub fn entry(&self, i: usize) -> (e: (HexCoord, Tile))
        requires
            i < self.entries().len(),
        ensures
            e == self.entries()[i as int],
    {
        self.tiles[i]
    }

    /// All entries, for drawing the whole map.
    pub fn all_tiles(&self) -> (v: Vec<(HexCoord, Tile)>)
        ensures
            v@ == self.entries(),
    {
        let mut v: Vec<(HexCoord, Tile)> = Vec::new();
        let mut i: usize = 0;
        while i < self.tiles.len()
            invariant
                i <= self.tiles@.len(),
                v@ == self.tiles@.subrange(0, i as int),
            decreases self.tiles@.len() - i,
        {
            v.push(self.tiles[i]);
            i += 1;
            assert(v@ =~= self.tiles@.subrange(0, i as int));
        }
        assert(v@ =~= self.tiles@);
        v
    }

    pub(crate) fn find_index(&self, c: &HexCoord) -> (r: Option<usize>)
        requires
            self.store_ok(),
        ensures
            match r {
                Some(i) => i < self.entries().len() && self.entries()[i as int].0 == *c
                    && self@.contains_key(*c) && self@[*c] == self.entries()[i as int].1,
                None => !self@.contains_key(*c),
            },
    {
        let mut i: usize = 0;
        while i < self.tiles.len()
            invariant
                self.store_ok(),
                i <= self.tiles@.len(),
                forall|j: int| 0 <= j < i ==> self.tiles@[j].0 != *c,
            decreases self.tiles@.len() - i,
        {
            if self.tiles[i].0 == *c {
                return Some(i);
            }
            i += 1;
        }
        None
    }

    /// The tile at `c`, if one was generated there.
    pub fn get_tile(&self, c: &HexCoord) -> (r: Option<Tile>)
        requires
            self.store_ok(),
        ensures
            r == (if self@.contains_key(*c) { Some(self@[*c]) } else { None::<Tile> }),
    {
        match self.find_index(c) {
            Some(i) => Some(self.tiles[i].1),
            None => None,
        }
    }

    /// The state of the tile at `c`, if one was generated there.
    pub fn get(&self, c: &HexCoord) -> (r: Option<State>)
        requires
            self.store_ok(),
        ensures
            r == (if self@.contains_key(*c) { Some(self@[*c].state) } else { None::<State> }),
    {
        match self.find_index(c) {
            Some(i) => Some(self.tiles[i].1.state),
            None => None,
        }
    }

    pub fn is_passable(&self, c: &HexCoord) -> (b: bool)
        requires
            self.store_ok(),
        ensures
            b == passable(states(self@), *c),
    {
        match self.find_index(c) {
            Some(i) => self.tiles[i].1.state.is_passable(),
            None => false,
        }
    }

    pub fn is_coffee(&self, c: &HexCoord) -> (b: bool)
        requires
            self.store_ok(),
        ensures
            b == (self@.contains_key(*c) && self@[*c].state == State::BreakShop),
    {
        match self.find_index(c) {
            Some(i) => self.tiles[i].1.state.is_coffee(),
            None => false,
        }
    }

    /// Replaces the tile of entry `i`, keeping its key and its place.
    pub(crate) fn set_entry(&mut self, i: usize, t: Tile)
        requires
            old(self).store_ok(),
            i < old(self).entries().len(),
        ensures
            final(self).store_ok(),
            final(self).entries() == old(self).entries().update(i as int, (old(self).entries()[i as int].0, t)),
            final(self)@ == old(self)@.insert(old(self).entries()[i as int].0, t),
            final(self).generated_rings == old(self).generated_rings,
    {
        let c = self.tiles[i].0;
        self.tiles.set(i, (c, t));
        self.model = Ghost(self.model@.insert(c, t));
        proof {
            assert forall|d: HexCoord| #[trigger] self@.contains_key(d) implies exists|j: int|
                0 <= j < self.tiles@.len() && #[trigger] self.tiles@[j].0 == d by {
                if d != c {
                    let j = choose|j: int| 0 <= j < old(self).tiles@.len() && #[trigger] old(self).tiles@[j].0 == d;
                    assert(self.tiles@[j].0 == d);
                } else {
                    assert(self.tiles@[i as int].0 == d);
                }
            }
        }
    }

    /// Appends a tile at a coordinate that has none.
    fn push_new(&mut self, c: HexCoord, t: Tile)
        requires
            old(self).store_ok(),
            !old(self)@.contains_key(c),
        ensures
            final(self).store_ok(),
            final(self).entries() == old(self).entries().push((c, t)),
            final(self)@ == old(self)@.insert(c, t),
            final(self).generated_rings == old(self).generated_rings,
    {
        self.tiles.push((c, t));
        self.model = Ghost(self.model@.insert(c, t));
        proof {
            let n = old(self).tiles@.len();
            assert forall|d: HexCoord| #[trigger] self@.contains_key(d) implies exists|j: int|
                0 <= j < self.tiles@.len() && #[trigger] self.tiles@[j].0 == d by {
                if d != c {
                    let j = choose|j: int| 0 <= j < old(self).tiles@.len() && #[trigger] old(self).tiles@[j].0 == d;
                    assert(self.tiles@[j].0 == d);
                } else {
                    assert(self.tiles@[n as int].0 == d);
                }
            }
        }
    }

    /// A fresh map of radius one: an office at the origin and the given
    /// states on its six neighbours, in direction order.
    pub fn seeded(neigh: [State; 6]) -> (m: TileMap)
        requires
            valid_seed(neigh@),
        ensures
            m.wf(),
            m.rings() == 1,
            m@[origin()] == (Tile { state: State::Active, counter: 0 }),
            forall|d: int| 0 <= d < 6 ==> #[trigger] m@[neighbor(origin(), d)] == (Tile { state: neigh@[d], counter: 0 }),
            m.entries().len() == 7,
            m.entries()[0].0 == origin(),
    {
        let mut m = TileMap { tiles: Vec::new(), generated_rings: 1, model: Ghost(Map::empty()) };
        let o = HexCoord::origin();
        m.push_new(o, Tile::fresh(State::Active));
        let ns = o.neighbors();
        let mut d: usize = 0;
        while d < 6
            invariant
                m.store_ok(),
                m.generated_rings == 1,
                0 <= d <= 6,
                o == origin(),
                forall|e: int| 0 <= e < 6 ==> #[trigger] ns@[e] == neighbor(origin(), e),
                m@.dom() == Set::<HexCoord>::empty().insert(origin()).union(
                    Set::new(|c: HexCoord| exists|e: int| 0 <= e < d && c == #[trigger] neighbor(origin(), e))),
                m@[origin()] == (Tile { state: State::Active, counter: 0 }),
                forall|e: int| 0 <= e < d ==> #[trigger] m@[neighbor(origin(), e)] == (Tile { state: neigh@[e], counter: 0 }),
                m.tiles@.len() == 1 + d,
                m.tiles@[0].0 == origin(),
            decreases 6 - d,
        {
            let c = ns[d];
            proof {
                assert(!m@.contains_key(c)) by {
                    if m@.contains_key(c) {
                        if c == origin() {
                        } else {
                            let e = choose|e: int| 0 <= e < d && c == #[trigger] neighbor(origin(), e);
                            assert(neighbor(origin(), e) != neighbor(origin(), d as int));
                        }
                    }
                }
            }
            m.push_new(c, Tile::fresh(neigh[d]));
            proof {
                assert(m@.dom() =~= Set::<HexCoord>::empty().insert(origin()).union(
                    Set::new(|c: HexCoord| exists|e: int| 0 <= e < d + 1 && c == #[trigger] neighbor(origin(), e))));
                assert forall|e: int| 0 <= e < d + 1 implies #[trigger] m@[neighbor(origin(), e)] == (Tile { state: neigh@[e], counter: 0 }) by {
                    if e < d {
                        assert(neighbor(origin(), e) != neighbor(origin(), d as int));
                    }
                }
            }
            d += 1;
        }
        proof {
            assert forall|c: HexCoord| #[trigger] m@.contains_key(c) <==> radius(c) <= 1 by {
                lemma_unit_disk(c);
            }
        }
        m
    }

    /// Number of present obstacle neighbours of `c`.
    pub fn obstacle_neighbours(&self, c: &HexCoord) -> (n: usize)
        requires
            self.store_ok(),
            in_range(*c),
        ensures
            n == obstacle_count(self@, *c),
    {
        let ns = c.neighbors();
        let mut n: usize = 0;
        let mut d: usize = 0;
        while d < 6
            invariant
                self.store_ok(),
                0 <= d <= 6,
                forall|e: int| 0 <= e < 6 ==> #[trigger] ns@[e] == neighbor(*c, e),
                n == (if d > 0 { obstacle_at(self@, neighbor(*c, 0)) } else { 0 })
                    + (if d > 1 { obstacle_at(self@, neighbor(*c, 1)) } else { 0 })
                    + (if d > 2 { obstacle_at(self@, neighbor(*c, 2)) } else { 0 })
                    + (if d > 3 { obstacle_at(self@, neighbor(*c, 3)) } else { 0 })
                    + (if d > 4 { obstacle_at(self@, neighbor(*c, 4)) } else { 0 })
                    + (if d > 5 { obstacle_at(self@, neighbor(*c, 5)) } else { 0 }),
            decreases 6 - d,
        {
            let s = self.get(&ns[d]);
            if s == Some(State::Obstacle) {
                n += 1;
            }
            d += 1;
        }
        n
    }
    /// Materialises the next ring with the given states, in ring order, each
    /// with a zero counter.
    pub fn commit_ring(&mut self, states: &Vec<State>)
        requires
            old(self).wf(),
            old(self).rings() < MAX_RINGS,
            states@.len() == 6 * (old(self).rings() + 1),
        ensures
            final(self).wf(),
            final(self).rings() == old(self).rings() + 1,
            final(self).entries() == old(self).entries() + Seq::new(states@.len(), |i: int|
                (ring_seq(old(self).rings() + 1)[i], Tile { state: states@[i], counter: 0 })),
            forall|c: HexCoord| #[trigger] old(self)@.contains_key(c) ==> final(self)@[c] == old(self)@[c],
            forall|i: int| 0 <= i < states@.len() ==> final(self)@[#[trigger] ring_seq(old(self).rings() + 1)[i]]
                == (Tile { state: states@[i], counter: 0 }),
    {
        let r = self.generated_rings + 1;
        let cs = ring(r);
        let ghost old_map = self@;
        let ghost old_entries = self.entries();
        let ghost added = Seq::new(states@.len(), |i: int| (ring_seq(r as int)[i], Tile { state: states@[i], counter: 0 }));
        let ghost pre = *self;
        self.generated_rings = r;
        proof {
            assert(self.tiles@ == pre.tiles@);
            assert(self@ == pre@);
            assert forall|c: HexCoord| #[trigger] self@.contains_key(c) implies exists|j: int|
                0 <= j < self.tiles@.len() && #[trigger] self.tiles@[j].0 == c by {
                assert(pre@.contains_key(c));
            }
        }
        let mut i: usize = 0;
        while i < cs.len()
            invariant
                self.store_ok(),
                self.generated_rings == r,
                1 <= r <= MAX_RINGS,
                cs@ == ring_seq(r as int),
                cs@.len() == states@.len(),
                cs@.no_duplicates(),
                forall|j: int| 0 <= j < cs@.len() ==> radius(#[trigger] cs@[j]) == r,
                forall|c: HexCoord| #[trigger] old_map.contains_key(c) <==> radius(c) <= r - 1,
                0 <= i <= cs@.len(),
                added == Seq::new(states@.len(), |j: int| (ring_seq(r as int)[j], Tile { state: states@[j], counter: 0 })),
                self.entries() == old_entries + added.subrange(0, i as int),
                self@.dom() == old_map.dom().union(Set::new(|c: HexCoord| exists|j: int| 0 <= j < i && c == #[trigger] cs@[j])),
                forall|c: HexCoord| #[trigger] old_map.contains_key(c) ==> self@[c] == old_map[c],
                forall|j: int| 0 <= j < i ==> self@[#[trigger] cs@[j]] == (Tile { state: states@[j], counter: 0 }),
            decreases cs@.len() - i,
        {
            let c = cs[i];
            proof {
                assert(!self@.contains_key(c)) by {
                    if self@.contains_key(c) {
                        if !old_map.contains_key(c) {
                            let j = choose|j: int| 0 <= j < i && c == #[trigger] cs@[j];
                            assert(cs@[j] != cs@[i as int]);
                        }
                    }
                }
            }
            self.push_new(c, Tile::fresh(states[i]));
            proof {
                assert(self@.dom() =~= old_map.dom().union(Set::new(|c: HexCoord| exists|j: int| 0 <= j < i + 1 && c == #[trigger] cs@[j])));
                assert(added.subrange(0, i + 1) =~= added.subrange(0, i as int).push(added[i as int]));
                assert(self.entries() =~= old_entries + added.subrange(0, i + 1));
                assert forall|j: int| 0 <= j < i + 1 implies self@[#[trigger] cs@[j]] == (Tile { state: states@[j], counter: 0 }) by {
                    if j < i {
                        assert(cs@[j] != cs@[i as int]);
                    }
                }
            }
            i += 1;
        }
        proof {
            assert(added.subrange(0, i as int) =~= added);
            assert forall|c: HexCoord| #[trigger] self@.contains_key(c) <==> radius(c) <= r by {
                if radius(c) == r {
                    lemma_ring_complete(r as int, c);
                    let j = choose|j: int| 0 <= j < cs@.len() && cs@[j] == c;
                    assert(self@.contains_key(cs@[j]));
                }
            }
            assert(old_map.contains_key(origin()));
            assert(self@[origin()] == old_map[origin()]);
            assert(self.store_ok());
            assert(1 <= self.generated_rings <= MAX_RINGS);
        }
    }

    /// The weight-table row of each coordinate of the next ring, in ring
    /// order, counted on the map as it stands.
    pub fn next_ring_buckets(&self) -> (b: Vec<usize>)
        requires
            self.wf(),
            self.rings() < MAX_RINGS,
        ensures
            b@.len() == 6 * (self.rings() + 1),
            forall|i: int| 0 <= i < b@.len() ==> #[trigger] b@[i] == bucket(self@, ring_seq(self.rings() + 1)[i]),
    {
        let r = self.generated_rings + 1;
        let cs = ring(r);
        let mut b: Vec<usize> = Vec::new();
        let mut i: usize = 0;
        while i < cs.len()
            invariant
                self.wf(),
                self.rings() == r - 1,
                r <= MAX_RINGS,
                cs@ == ring_seq(r as int),
                cs@.len() == 6 * r,
                0 <= i <= cs@.len(),
                b@.len() == i,
                forall|j: int| 0 <= j < i ==> #[trigger] b@[j] == bucket(self@, cs@[j]),
            decreases cs@.len() - i,
        {
            let n = self.obstacle_neighbours(&cs[i]);
            b.push(if n >= 2 { 2 } else { n });
            i += 1;
        }
        b
    }

    /// Materialises the next ring from drawn choices, one per coordinate in
    /// ring order: 0 for inactive, 1 for an office, 2 for an obstacle.
    pub fn commit_ring_draws(&mut self, picks: &Vec<usize>)
        requires
            old(self).wf(),
            old(self).rings() < MAX_RINGS,
            picks@.len() == 6 * (old(self).rings() + 1),
            forall|i: int| 0 <= i < picks@.len() ==> #[trigger] picks@[i] < 3,
        ensures
            final(self).wf(),
            final(self).rings() == old(self).rings() + 1,
            final(self).entries() == old(self).entries() + Seq::new(picks@.len(), |i: int|
                (ring_seq(old(self).rings() + 1)[i], Tile { state: choice_state(picks@[i] as int), counter: 0 })),
            forall|c: HexCoord| #[trigger] old(self)@.contains_key(c) ==> final(self)@[c] == old(self)@[c],
    {
        let states = states_for_draws(picks);
        self.commit_ring(&states);
        proof {
            assert(Seq::new(states@.len(), |i: int|
                (ring_seq(old(self).rings() + 1)[i], Tile { state: states@[i], counter: 0 })) =~= Seq::new(picks@.len(), |i: int|
                (ring_seq(old(self).rings() + 1)[i], Tile { state: choice_state(picks@[i] as int), counter: 0 })));
        }
    }

    /// Grows the map by one ring. For each new coordinate a choice is drawn
    /// at random from the weight-table row that its obstacle neighbours in
    /// the map as it stood before the ring select; a choice of zero weight
    /// is never drawn. Returns the new ring count.
    pub fn generate_next_ring(&mut self) -> (g: u32)
        requires
            old(self).wf(),
            old(self).rings() < MAX_RINGS,
        ensures
            grown_by_ring(*old(self), *final(self)),
            g == final(self).rings(),
            exists|picks: Seq<usize>| #[trigger] drawn_ring(*old(self), *final(self), picks),
    {
        let r = self.generated_rings + 1;
        let buckets = self.next_ring_buckets();
        let mut picks: Vec<usize> = Vec::new();
        let mut i: usize = 0;
        while i < buckets.len()
            invariant
                self.wf(),
                self.rings() == r - 1,
                buckets@.len() == 6 * r,
                forall|j: int| 0 <= j < buckets@.len() ==> #[trigger] buckets@[j] == bucket(self@, ring_seq(r as int)[j]),
                0 <= i <= buckets@.len(),
                picks@.len() == i,
                forall|j: int| 0 <= j < i ==> #[trigger] picks@[j] < 3 && ring_weight(buckets@[j] as int, picks@[j] as int) > 0,
            decreases buckets@.len() - i,
        {
            let b = buckets[i];
            let k = sample_weighted([weight(b, 0), weight(b, 1), weight(b, 2)]);
            picks.push(k);
            i += 1;
        }
        let ghost before = *self;
        self.commit_ring_draws(&picks);
        proof {
            let n = before.entries().len();
            assert(self.entries().subrange(0, n as int) =~= before.entries());
            assert forall|i: int| 0 <= i < 6 * r implies {
                let e = #[trigger] self.entries()[n + i];
                &&& e.0 == ring_seq(r as int)[i]
                &&& e.1.counter == 0
                &&& allowed_in_row(bucket(before@, e.0), e.1.state)
            } by {
                assert(self.entries()[n + i] == (ring_seq(r as int)[i], Tile { state: choice_state(picks@[i] as int), counter: 0 }));
                assert(buckets@[i] == bucket(before@, ring_seq(r as int)[i]));
                assert(choice_state(picks@[i] as int) == choice_state(picks@[i] as int));
            }
            assert(drawn_ring(before, *self, picks@));
        }
        r
    }

    /// A fresh map of radius one with its seed drawn at random: one break
    /// shop and two obstacles among the neighbours of the origin, the other
    /// three inactive.
    pub fn new() -> (m: TileMap)
        ensures
            m.wf(),
            m.rings() == 1,
            m@[origin()] == (Tile { state: State::Active, counter: 0 }),
            forall|d: int| 0 <= d < 6 ==> #[trigger] m@[neighbor(origin(), d)].counter == 0,
            exists|s: int, o1: int, o2: int| #[trigger] random_seed_shape(m@, s, o1, o2),
    {
        let positions: Vec<usize> = vec![0, 1, 2, 3, 4, 5];
        let chosen = choose_multiple_of(&positions, 3);
        let mut neigh = [State::Inactive; 6];
        let d0 = chosen[0];
        neigh[d0] = State::BreakShop;
        neigh[chosen[1]] = State::Obstacle;
        neigh[chosen[2]] = State::Obstacle;
        proof {
            assert(positions@.no_duplicates());
            assert(positions@.contains(chosen@[0]));
            assert(positions@.contains(chosen@[1]));
            assert(positions@.contains(chosen@[2]));
            assert(chosen@[1] != chosen@[0] && chosen@[2] != chosen@[0]);
            assert(neigh@[d0 as int] == State::BreakShop);
            assert(forall|e: int| 0 <= e < 6 && e != d0 ==> (#[trigger] neigh@[e] == State::Inactive || neigh@[e] == State::Obstacle));
            assert(valid_seed(neigh@));
        }
        let m = TileMap::seeded(neigh);
        proof {
            let o1 = chosen@[1] as int;
            let o2 = chosen@[2] as int;
            assert(chosen@[1] != chosen@[2]);
            assert forall|d: int| 0 <= d < 6 implies #[trigger] m@[neighbor(origin(), d)].state == if d == d0 {
                State::BreakShop
            } else if d == o1 || d == o2 {
                State::Obstacle
            } else {
                State::Inactive
            } by {
                assert(m@[neighbor(origin(), d)].state == neigh@[d]);
            }
            assert(random_seed_shape(m@, d0 as int, o1, o2));
        }
        m
    }
}

/// The states that drawn choices stand for: 0 inactive, 1 office,
/// 2 obstacle.
pub fn states_for_draws(picks: &Vec<usize>) -> (v: Vec<State>)
    ensures
        v@.len() == picks@.len(),
        forall|i: int| 0 <= i < picks@.len() ==> #[trigger] v@[i] == choice_state(picks@[i] as int),
{
    let mut v: Vec<State> = Vec::new();
    let mut i: usize = 0;
    while i < picks.len()
        invariant
            i <= picks@.len(),
            v@.len() == i,
            forall|j: int| 0 <= j < i ==> #[trigger] v@[j] == choice_state(picks@[j] as int),
        decreases picks@.len() - i,
    {
        v.push(choice(picks[i]));
        i += 1;
    }
    v
}

/// Row `b`, choice `k` of the weight table.
fn weight(b: usize, k: usize) -> (w: u32)
    requires
        b < 3,
        k < 3,
    ensures
        w == ring_weight(b as int, k as int),
{
    if b == 0 {
        if k == 0 { 45 } else if k == 1 { 35 } else { 20 }
    } else if b == 1 {
        if k == 0 { 50 } else if k == 1 { 10 } else { 40 }
    } else {
        if k == 0 { 25 } else if k == 1 { 0 } else { 75 }
    }
}

fn choice(k: usize) -> (s: State)
    ensures
        s == choice_state(k as int),
{
    if k == 0 { State::Inactive } else if k == 1 { State::Active } else { State::Obstacle }
}

/// Relies on rand 0.8's `WeightedIndex::new` and its `sample` with
/// `thread_rng`: with non-negative weights of positive total it returns an
/// index below the number of weights, never one whose weight is zero.
#[verifier::external_body]
fn sample_weighted(w: [u32; 3]) -> (k: usize)
    requires
        0 < w[0] + w[1] + w[2] <= u32::MAX,
    ensures
        k < 3,
        w@[k as int] > 0,
{
    let dist = rand::distributions::WeightedIndex::new(w).unwrap();
    rand::distributions::Distribution::sample(&dist, &mut rand::thread_rng())
}

/// Relies on rand 0.8's `SliceRandom::choose_multiple` with `thread_rng`:
/// it picks `min(amount, len)` elements of the slice without repetition.
#[verifier::external_body]
fn choose_multiple_of(items: &Vec<usize>, amount: usize) -> (v: Vec<usize>)
    ensures
        v@.len() == if amount < items@.len() { amount as int } else { items@.len() as int },
        forall|i: int| 0 <= i < v@.len() ==> items@.contains(#[trigger] v@[i]),
        items@.no_duplicates() ==> v@.no_duplicates(),
{
    rand::seq::SliceRandom::choose_multiple(items.as_slice(), &mut rand::thread_rng(), amount)
        .copied()
        .collect()
}

} // verus!
