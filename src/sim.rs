use vstd::prelude::*;

use crate::daytime::{Daytime, TickEvent, TICKS_IN_RUN, MAX_TICKS};
use crate::economy::Money;
use crate::hex::{HexCoord, MAX_RINGS, neighbor};
use crate::map::{TileMap, states, grown_by_ring, origin, random_seed_shape};
use crate::path::{Target, find_path, first_in_level, in_reach, is_target, lemma_path_reach, nearest_route, target_within};
use crate::tile::{State, Tile};
use crate::timer::{NextRingTimer, timer_ran, START_RING_TIMER_MS, RING_TIMER_MULTIPLIER};
use crate::workers::{
    MAX_WAITING_TICKS, FEE_FOR_OVERWAIT, Worker, WorkerState, aged, expires, reward_for, stepped,
    waits_at,
};

verus! {

pub const BASE_CHANCE_TO_SPAWN_WORKER: u32 = 1;

pub const CHANCE_INCREASE_PER_TICK: u32 = 1;

/// Rolls are drawn below this bound; a chance of this much always succeeds.
pub const HUNDRED_PERCENT_CHANCE: u32 = 200;

/// Ticks a break shop rests after serving a worker.
pub const WAIT_TICKS_AFTER_SERVING: u32 = 6;

/// Break shops that each ring expansion allows to be built.
pub const SHOPS_PER_RING: u32 = 1;

/// The spawn chance of an office that has gone `counter` ticks without
/// sending a worker, out of `HUNDRED_PERCENT_CHANCE`.
pub open spec fn spawn_chance(counter: int) -> int {
    let c = BASE_CHANCE_TO_SPAWN_WORKER + CHANCE_INCREASE_PER_TICK * counter;
    if c < HUNDRED_PERCENT_CHANCE { c } else { HUNDRED_PERCENT_CHANCE as int }
}

pub open spec fn bump(counter: u32) -> u32 {
    if counter < u32::MAX { (counter + 1) as u32 } else { counter }
}

/// Some break shop can be reached from `c`.
pub open spec fn shop_reachable(sm: Map<HexCoord, State>, c: HexCoord) -> bool {
    exists|k: int| 0 <= k && #[trigger] target_within(sm, c, Target::BreakShop, k)
}

/// The office in entry `e` rolls `roll` and succeeds.
pub open spec fn office_fires(e: (HexCoord, Tile), roll: u32) -> bool {
    e.1.state == State::Active && roll < spawn_chance(e.1.counter as int)
}

/// An entry's counter after the spawn pass.
pub open spec fn spawn_counter(t: Tile, roll: u32) -> u32 {
    if t.state == State::Active {
        if roll < spawn_chance(t.counter as int) { 0 } else { bump(t.counter) }
    } else {
        t.counter
    }
}

/// The homes of the workers that the spawn pass sends out from the first
/// `n` entries, in entry order: offices whose roll succeeds and from which a
/// break shop can be reached.
pub open spec fn spawn_homes(
    sm: Map<HexCoord, State>,
    entries: Seq<(HexCoord, Tile)>,
    rolls: Seq<u32>,
    n: int,
) -> Seq<HexCoord>
    decreases n,
{
    if n <= 0 {
        Seq::empty()
    } else {
        let prev = spawn_homes(sm, entries, rolls, n - 1);
        let e = entries[n - 1];
        if office_fires(e, rolls[n - 1]) && shop_reachable(sm, e.0) { prev.push(e.0) } else { prev }
    }
}

/// A worker just sent from `home` along a nearest route to the break shop
/// that the search meets first.
pub open spec fn fresh_worker(sm: Map<HexCoord, State>, w: Worker, home: HexCoord) -> bool {
    &&& w.home == home
    &&& nearest_route(sm, home, Target::BreakShop, w.coffee, w.path@)
    &&& first_in_level(sm, home, Target::BreakShop, w.path@.len() as int, w.coffee)
    &&& !w.waited_for_coffee
    &&& w.will_bring_money == reward_for(w.path@.len() as int)
    &&& w.state == WorkerState::Traveling
}

/// `c` is a break shop whose rest countdown has run out.
pub open spec fn shop_ready(m: Map<HexCoord, Tile>, c: HexCoord) -> bool {
    m.contains_key(c) && m[c].state == State::BreakShop && m[c].counter == 0
}

/// Worker `k` is the first one waiting at `c`.
pub open spec fn first_waiting(ws: Seq<Worker>, c: HexCoord, k: int) -> bool {
    &&& 0 <= k < ws.len()
    &&& waits_at(ws[k], c)
    &&& forall|j: int| 0 <= j < k ==> !waits_at(#[trigger] ws[j], c)
}

/// The worker's home can be reached from `c`.
pub open spec fn home_reachable(sm: Map<HexCoord, State>, c: HexCoord, h: HexCoord) -> bool {
    exists|k: int| 0 <= k && #[trigger] target_within(sm, c, Target::Coord(h), k)
}

/// The service pass serves worker `k`: it is the first waiting at a ready
/// shop, and a way home exists.
pub open spec fn gets_served(m: Map<HexCoord, Tile>, ws: Seq<Worker>, k: int) -> bool {
    &&& shop_ready(m, ws[k].coffee)
    &&& first_waiting(ws, ws[k].coffee, k)
    &&& home_reachable(states(m), ws[k].coffee, ws[k].home)
}

/// `v` is `w` served: walking home along a nearest route.
pub open spec fn served_worker(sm: Map<HexCoord, State>, w: Worker, v: Worker) -> bool {
    &&& v.home == w.home
    &&& v.coffee == w.coffee
    &&& v.will_bring_money == w.will_bring_money
    &&& v.waited_for_coffee
    &&& v.state == WorkerState::Traveling
    &&& nearest_route(sm, w.coffee, Target::Coord(w.home), w.home, v.path@)
}

/// A shop's counter after the service pass: a resting shop counts down; a
/// ready one rests again once it has served someone.
pub open spec fn serve_counter(m: Map<HexCoord, Tile>, ws: Seq<Worker>, e: (HexCoord, Tile)) -> u32 {
    if e.1.state == State::BreakShop {
        if e.1.counter > 0 {
            (e.1.counter - 1) as u32
        } else if exists|k: int| #[trigger] first_waiting(ws, e.0, k) && home_reachable(states(m), e.0, ws[k].home) {
            WAIT_TICKS_AFTER_SERVING
        } else {
            0
        }
    } else {
        e.1.counter
    }
}

/// Rewards of the served workers among the first `n` whose shop is one of
/// the first `i` entries.
pub open spec fn served_total(
    m: Map<HexCoord, Tile>,
    ws: Seq<Worker>,
    entries: Seq<(HexCoord, Tile)>,
    i: int,
    n: int,
) -> int
    decreases n,
{
    if n <= 0 {
        0
    } else {
        served_total(m, ws, entries, i, n - 1) + if shop_done(entries, ws[n - 1].coffee, i) && gets_served(m, ws, n - 1) {
            ws[n - 1].will_bring_money as int
        } else {
            0
        }
    }
}

proof fn lemma_served_total_none(m: Map<HexCoord, Tile>, ws: Seq<Worker>, entries: Seq<(HexCoord, Tile)>, n: int)
    ensures
        served_total(m, ws, entries, 0, n) == 0,
    decreases n,
{
    if n > 0 {
        lemma_served_total_none(m, ws, entries, n - 1);
    }
}

/// Taking in entry `i` adds the reward of the one worker it serves, if any.
proof fn lemma_served_total_step(
    m: Map<HexCoord, Tile>,
    ws: Seq<Worker>,
    entries: Seq<(HexCoord, Tile)>,
    i: int,
    n: int,
    which: Option<int>,
)
    requires
        0 <= i < entries.len(),
        0 <= n <= ws.len(),
        !shop_done(entries, entries[i].0, i),
        forall|q: int| 0 <= q < ws.len() && ws[q].coffee == entries[i].0 && #[trigger] gets_served(m, ws, q)
            ==> which == Some(q),
        which is Some ==> ws[which->0].coffee == entries[i].0 && gets_served(m, ws, which->0),
    ensures
        served_total(m, ws, entries, i + 1, n) == served_total(m, ws, entries, i, n) + match which {
            Some(k) => if k < n { ws[k].will_bring_money as int } else { 0 },
            None => 0,
        },
        served_total(m, ws, entries, i, n) >= 0,
    decreases n,
{
    if n > 0 {
        lemma_served_total_step(m, ws, entries, i, n - 1, which);
        let c = ws[n - 1].coffee;
        assert(shop_done(entries, c, i + 1) == (shop_done(entries, c, i) || c == entries[i].0)) by {
            if shop_done(entries, c, i + 1) && !shop_done(entries, c, i) {
                let j = choose|j: int| 0 <= j < i + 1 && #[trigger] entries[j].0 == c;
                assert(j == i);
            }
            if c == entries[i].0 {
                assert(entries[i].0 == c);
            }
            if shop_done(entries, c, i) {
                let j = choose|j: int| 0 <= j < i && #[trigger] entries[j].0 == c;
                assert(entries[j].0 == c);
            }
        }
    }
}

pub open spec fn saturating(v: int) -> int {
    if v <= u64::MAX { v } else { u64::MAX as int }
}

/// Some entry before `i` has key `c`.
pub open spec fn shop_done(entries: Seq<(HexCoord, Tile)>, c: HexCoord, i: int) -> bool {
    exists|j: int| 0 <= j < i && #[trigger] entries[j].0 == c
}

/// Workers among the first `n` that give up in the expiry pass.
pub open spec fn expired_count(ws: Seq<Worker>, n: int) -> int
    decreases n,
{
    if n <= 0 {
        0
    } else {
        expired_count(ws, n - 1) + if expires(ws[n - 1]) { 1int } else { 0int }
    }
}

/// The penalties that a balance can pay out of `e` that fall due: the
/// first that the balance cannot cover ends the game, and so do the rest.
pub open spec fn penalties_paid(balance: int, e: int) -> int {
    let affordable = balance / (FEE_FOR_OVERWAIT as int);
    if e <= affordable { e } else { affordable }
}

pub open spec fn not_gone(w: Worker) -> bool {
    w.state != WorkerState::Gone
}

/// The workers of `mid` that are not gone, in order.
pub open spec fn live(mid: Seq<Worker>, n: int) -> Seq<Worker>
    decreases n,
{
    if n <= 0 {
        Seq::empty()
    } else if not_gone(mid[n - 1]) {
        live(mid, n - 1).push(mid[n - 1])
    } else {
        live(mid, n - 1)
    }
}

/// `out` is `ws` after one travel step of each traveling worker, with the
/// workers that are gone removed.
pub open spec fn travelled(ws: Seq<Worker>, out: Seq<Worker>) -> bool {
    exists|mid: Seq<Worker>| {
        &&& mid.len() == ws.len()
        &&& forall|k: int| 0 <= k < ws.len() ==> if ws[k].state == WorkerState::Traveling {
            stepped(ws[k], #[trigger] mid[k])
        } else {
            mid[k] == ws[k]
        }
        &&& out == live(mid, mid.len() as int)
    }
}

/// `live` reads only the first `n` elements.
proof fn lemma_live_prefix(a: Seq<Worker>, b: Seq<Worker>, n: int)
    requires
        0 <= n <= a.len(),
        n <= b.len(),
        forall|j: int| 0 <= j < n ==> a[j] == b[j],
    ensures
        live(a, n) == live(b, n),
    decreases n,
{
    if n > 0 {
        lemma_live_prefix(a, b, n - 1);
    }
}

/// The effect of the spawn pass with the given rolls.
pub open spec fn spawn_post(a: Simulation, b: Simulation, rolls: Seq<u32>) -> bool {
    &&& states(b.map_spec()@) == states(a.map_spec()@)
    &&& b.map_spec().rings() == a.map_spec().rings()
    &&& b.map_spec().entries().len() == a.map_spec().entries().len()
    &&& forall|i: int| 0 <= i < a.map_spec().entries().len() ==> (#[trigger] b.map_spec().entries()[i])
            == (a.map_spec().entries()[i].0, Tile {
                state: a.map_spec().entries()[i].1.state,
                counter: spawn_counter(a.map_spec().entries()[i].1, rolls[i]),
            })
    &&& ({
            let sm = states(a.map_spec()@);
            let homes = spawn_homes(sm, a.map_spec().entries(), rolls, rolls.len() as int);
            let n0 = a.workers_spec().len();
            &&& b.workers_spec().len() == n0 + homes.len()
            &&& b.workers_spec().subrange(0, n0 as int) == a.workers_spec()
            &&& forall|k: int| 0 <= k < homes.len() ==> fresh_worker(sm, #[trigger] b.workers_spec()[n0 + k], homes[k])
        })
    &&& b.money_spec() == a.money_spec()
    &&& b.shops_spec() == a.shops_spec()
    &&& b.daytime_spec() == a.daytime_spec()
    &&& b.timer_spec() == a.timer_spec()
    &&& b.is_over() == a.is_over()
}

/// The effect of the service pass.
pub open spec fn serve_post(a: Simulation, b: Simulation) -> bool {
    &&& states(b.map_spec()@) == states(a.map_spec()@)
    &&& b.map_spec().rings() == a.map_spec().rings()
    &&& b.map_spec().entries().len() == a.map_spec().entries().len()
    &&& forall|i: int| 0 <= i < a.map_spec().entries().len() ==> (#[trigger] b.map_spec().entries()[i])
            == (a.map_spec().entries()[i].0, Tile {
                state: a.map_spec().entries()[i].1.state,
                counter: serve_counter(a.map_spec()@, a.workers_spec(), a.map_spec().entries()[i]),
            })
    &&& b.workers_spec().len() == a.workers_spec().len()
    &&& forall|k: int| 0 <= k < a.workers_spec().len() ==> if gets_served(a.map_spec()@, a.workers_spec(), k) {
            served_worker(states(a.map_spec()@), a.workers_spec()[k], #[trigger] b.workers_spec()[k])
        } else {
            b.workers_spec()[k] == a.workers_spec()[k]
        }
    &&& b.money_spec().value() == saturating(a.money_spec().value()
            + served_total(a.map_spec()@, a.workers_spec(), a.map_spec().entries(),
                a.map_spec().entries().len() as int, a.workers_spec().len() as int))
    &&& b.shops_spec() == a.shops_spec()
    &&& b.daytime_spec() == a.daytime_spec()
    &&& b.timer_spec() == a.timer_spec()
    &&& b.is_over() == a.is_over()
}

/// The effect of the expiry pass.
pub open spec fn expire_post(a: Simulation, b: Simulation) -> bool {
    &&& b.map_spec() == a.map_spec()
    &&& b.workers_spec().len() == a.workers_spec().len()
    &&& forall|k: int| 0 <= k < a.workers_spec().len()
            ==> aged(a.workers_spec()[k], #[trigger] b.workers_spec()[k])
    &&& ({
            let e = expired_count(a.workers_spec(), a.workers_spec().len() as int);
            let bal = a.money_spec().value();
            &&& b.money_spec().value() == bal - FEE_FOR_OVERWAIT * penalties_paid(bal, e)
            &&& b.is_over() == (a.is_over() || penalties_paid(bal, e) < e)
        })
    &&& b.shops_spec() == a.shops_spec()
    &&& b.daytime_spec() == a.daytime_spec()
    &&& b.timer_spec() == a.timer_spec()
}

/// The effect of the travel pass.
pub open spec fn travel_post(a: Simulation, b: Simulation) -> bool {
    &&& b.map_spec() == a.map_spec()
    &&& travelled(a.workers_spec(), b.workers_spec())
    &&& b.money_spec() == a.money_spec()
    &&& b.shops_spec() == a.shops_spec()
    &&& b.daytime_spec() == a.daytime_spec()
    &&& b.timer_spec() == a.timer_spec()
    &&& b.is_over() == a.is_over()
}

/// The effect of one tick with the given rolls, and its report: a game that is over stays
/// as it is; otherwise the spawn, service, expiry and travel passes run in
/// that order.
pub open spec fn tick_post(a: Simulation, b: Simulation, rolls: Seq<u32>, r: TickReport) -> bool {
    if a.is_over() {
        &&& b == a
        &&& r.spawned@.len() == 0
        &&& r.credited == 0
        &&& r.expired@.len() == 0
        &&& r.penalties == 0
        &&& r.game_over
    } else {
        exists|s1: Simulation, s2: Simulation, s3: Simulation| {
            &&& #[trigger] spawn_post(a, s1, rolls)
            &&& #[trigger] serve_post(s1, s2)
            &&& #[trigger] expire_post(s2, s3)
            &&& travel_post(s3, b)
            &&& r.spawned@ == spawn_report(a, s1, rolls)
            &&& r.credited == s2.money_spec().value() - s1.money_spec().value()
            &&& r.expired@ == expired_at(s2.workers_spec(), s2.workers_spec().len() as int)
            &&& r.penalties == s2.money_spec().value() - s3.money_spec().value()
            &&& r.game_over == b.is_over()
        }
    }
}

/// A worker served in a tick's service pass is walking home when that
/// tick's expiry pass runs, so the pass leaves it untouched: its waiting
/// count is not incremented.
pub proof fn lemma_served_not_aged(a: Simulation, b: Simulation, c: Simulation, k: int)
    requires
        serve_post(a, b),
        expire_post(b, c),
        0 <= k < a.workers_spec().len(),
        gets_served(a.map_spec()@, a.workers_spec(), k),
    ensures
        b.workers_spec()[k].state == WorkerState::Traveling,
        b.workers_spec()[k].waited_for_coffee,
        c.workers_spec()[k] == b.workers_spec()[k],
        !expires(b.workers_spec()[k]),
{
    assert(served_worker(states(a.map_spec()@), a.workers_spec()[k], b.workers_spec()[k]));
    assert(aged(b.workers_spec()[k], c.workers_spec()[k]));
}

/// A waiting worker that the service pass does not serve waits one tick
/// longer after the expiry pass, or is gone at the ceiling.
pub proof fn lemma_unserved_aged(a: Simulation, b: Simulation, c: Simulation, k: int)
    requires
        serve_post(a, b),
        expire_post(b, c),
        0 <= k < a.workers_spec().len(),
        a.workers_spec()[k].state is Waiting,
        !gets_served(a.map_spec()@, a.workers_spec(), k),
    ensures
        aged(a.workers_spec()[k], c.workers_spec()[k]),
{
    assert(b.workers_spec()[k] == a.workers_spec()[k]);
    assert(aged(b.workers_spec()[k], c.workers_spec()[k]));
}

/// The ring timer as a new game starts it: the default countdown, not yet
/// expired.
pub open spec fn fresh_timer(t: NextRingTimer) -> bool {
    &&& t.initial_spec() == START_RING_TIMER_MS
    &&& t.multiplier_spec() == RING_TIMER_MULTIPLIER
    &&& t.expirations() == 0
    &&& t.duration_spec() == START_RING_TIMER_MS
    &&& t.remaining_spec() == START_RING_TIMER_MS
}

/// The coordinates of the shops at which workers among the first `n` give
/// up in the expiry pass, in worker order.
pub open spec fn expired_at(ws: Seq<Worker>, n: int) -> Seq<HexCoord>
    decreases n,
{
    if n <= 0 {
        Seq::empty()
    } else if expires(ws[n - 1]) {
        expired_at(ws, n - 1).push(ws[n - 1].coffee)
    } else {
        expired_at(ws, n - 1)
    }
}

/// The workers that a spawn pass from `a` to `b` sent out: their homes and
/// the shops they head for, in order.
pub open spec fn spawn_report(a: Simulation, b: Simulation, rolls: Seq<u32>) -> Seq<(HexCoord, HexCoord)> {
    let homes = spawn_homes(states(a.map_spec()@), a.map_spec().entries(), rolls, rolls.len() as int);
    let n0 = a.workers_spec().len();
    Seq::new(homes.len(), |k: int| (homes[k], b.workers_spec()[n0 + k].coffee))
}

/// What a tick did, for the front end to show.
pub struct TickReport {
    /// Each new worker's home and the shop it heads for.
    pub spawned: Vec<(HexCoord, HexCoord)>,
    /// Rewards credited for workers served.
    pub credited: u64,
    /// The shops at which workers gave up waiting.
    pub expired: Vec<HexCoord>,
    /// Penalties taken for those workers.
    pub penalties: u64,
    /// The game is over.
    pub game_over: bool,
}

proof fn lemma_served_total_nonneg(m: Map<HexCoord, Tile>, ws: Seq<Worker>, entries: Seq<(HexCoord, Tile)>, i: int, n: int)
    ensures
        served_total(m, ws, entries, i, n) >= 0,
    decreases n,
{
    if n > 0 {
        lemma_served_total_nonneg(m, ws, entries, i, n - 1);
    }
}

proof fn lemma_expired_count_nonneg(ws: Seq<Worker>, n: int)
    ensures
        expired_count(ws, n) >= 0,
    decreases n,
{
    if n > 0 {
        lemma_expired_count_nonneg(ws, n - 1);
    }
}

/// The map grew to this many rings.
#[derive(Clone, Copy, Debug, PartialEq, Eq, Structural)]
pub struct GeneratedNextRing(pub u32);

/// How many break shops exist and how many may exist.
#[derive(Clone, Copy, Debug, PartialEq, Eq, Structural)]
pub struct CoffeeShops {
    pub built: u32,
    pub allowed: u32,
}

/// The whole simulation state.
pub struct Simulation {
    pub(crate) map: TileMap,
    pub(crate) workers: Vec<Worker>,
    pub(crate) money: Money,
    pub(crate) shops: CoffeeShops,
    pub(crate) daytime: Daytime,
    pub(crate) timer: NextRingTimer,
    pub(crate) over: bool,
}

impl Simulation {
    pub open(crate) spec fn wf(&self) -> bool {
        &&& self.map.wf()
        &&& self.daytime.wf()
        &&& self.timer.wf()
    }

    pub open(crate) spec fn map_spec(&self) -> TileMap {
        self.map
    }

    pub open(crate) spec fn workers_spec(&self) -> Seq<Worker> {
        self.workers@
    }

    pub open(crate) spec fn money_spec(&self) -> Money {
        self.money
    }

    pub open(crate) spec fn workers_vec(&self) -> Vec<Worker> {
        self.workers
    }

    pub open(crate) spec fn shops_spec(&self) -> CoffeeShops {
        self.shops
    }

    pub open(crate) spec fn daytime_spec(&self) -> Daytime {
        self.daytime
    }

    pub open(crate) spec fn timer_spec(&self) -> NextRingTimer {
        self.timer
    }

    pub open(crate) spec fn is_over(&self) -> bool {
        self.over
    }

    /// A simulation over the given map, workers and balance, with one break
    /// shop built and allowed, the clock at day one and a fresh ring timer.
    pub fn from_parts(map: TileMap, workers: Vec<Worker>, money: Money) -> (s: Simulation)
        requires
            map.wf(),
        ensures
            s.wf(),
            s.map_spec() == map,
            s.workers_spec() == workers@,
            s.money_spec() == money,
            !s.is_over(),
            s.shops_spec() == (CoffeeShops { built: 1, allowed: 1 }),
            s.daytime_spec().day_spec() == 1,
            s.daytime_spec().tick_spec() == 0,
            fresh_timer(s.timer_spec()),
    {
        Simulation {
            map,
            workers,
            money,
            shops: CoffeeShops { built: 1, allowed: 1 },
            daytime: Daytime::new(),
            timer: NextRingTimer::default(),
            over: false,
        }
    }

    /// A fresh game: a randomly seeded map of radius one, no workers, and
    /// an empty balance.
    pub fn new() -> (s: Simulation)
        ensures
            s.wf(),
            s.map_spec().rings() == 1,
            s.map_spec()@[origin()] == (Tile { state: State::Active, counter: 0 }),
            forall|d: int| 0 <= d < 6 ==> #[trigger] s.map_spec()@[neighbor(origin(), d)].counter == 0,
            exists|a: int, b: int, c: int| #[trigger] random_seed_shape(s.map_spec()@, a, b, c),
            s.workers_spec().len() == 0,
            s.money_spec().value() == 0,
            !s.is_over(),
            s.shops_spec() == (CoffeeShops { built: 1, allowed: 1 }),
            s.daytime_spec().day_spec() == 1,
            s.daytime_spec().tick_spec() == 0,
            fresh_timer(s.timer_spec()),
    {
        Simulation::from_parts(TileMap::new(), Vec::new(), Money::new())
    }

    pub fn map(&self) -> (m: &TileMap)
        ensures
            *m == self.map_spec(),
    {
        &self.map
    }

    pub fn workers(&self) -> (w: &Vec<Worker>)
        ensures
            w@ == self.workers_spec(),
    {
        &self.workers
    }

    pub fn balance(&self) -> (b: u64)
        ensures
            b == self.money_spec().value(),
    {
        self.money.balance()
    }

    pub fn shops(&self) -> (c: CoffeeShops)
        ensures
            c == self.shops_spec(),
    {
        self.shops
    }

    pub fn daytime(&self) -> (d: Daytime)
        ensures
            d == self.daytime_spec(),
    {
        self.daytime
    }

    pub fn timer(&self) -> (t: &NextRingTimer)
        ensures
            *t == self.timer_spec(),
    {
        &self.timer
    }

    pub fn game_over(&self) -> (b: bool)
        ensures
            b == self.is_over(),
    {
        self.over
    }

    /// One tick with the given rolls (one per map entry; only offices use
    /// theirs), and what it did.
    pub fn tick_with_rolls(&mut self, rolls: &Vec<u32>) -> (report: TickReport)
        requires
            old(self).wf(),
            rolls@.len() == old(self).map_spec().entries().len(),
        ensures
            final(self).wf(),
            tick_post(*old(self), *final(self), rolls@, report),
            report.game_over == final(self).is_over(),
    {
        if self.over {
            return TickReport { spawned: Vec::new(), credited: 0, expired: Vec::new(), penalties: 0, game_over: true };
        }
        let ghost s0 = *self;
        let spawned = self.spawn_phase(rolls);
        let ghost s1 = *self;
        let before_service = self.money.balance();
        self.serve_phase();
        let ghost s2 = *self;
        let after_service = self.money.balance();
        let expired = self.expire_phase();
        let ghost s3 = *self;
        let after_expiry = self.money.balance();
        proof {
            lemma_served_total_nonneg(s1.map@, s1.workers@, s1.map.entries(), s1.map.entries().len() as int, s1.workers@.len() as int);
            lemma_expired_count_nonneg(s2.workers@, s2.workers@.len() as int);
            s1.money.lemma_bounds();
            s2.money.lemma_bounds();
            let e = expired_count(s2.workers@, s2.workers@.len() as int);
            let bal = s2.money.value();
            assert(FEE_FOR_OVERWAIT * penalties_paid(bal, e) <= bal);
        }
        self.travel_phase();
        let report = TickReport {
            spawned,
            credited: after_service - before_service,
            expired,
            penalties: after_service - after_expiry,
            game_over: self.over,
        };
        proof {
            assert(spawn_post(s0, s1, rolls@) && serve_post(s1, s2) && expire_post(s2, s3) && travel_post(s3, *self));
        }
        report
    }

    /// One tick, with each office's roll drawn at random below
    /// `HUNDRED_PERCENT_CHANCE`, and what it did.
    pub fn tick(&mut self) -> (report: TickReport)
        requires
            old(self).wf(),
        ensures
            final(self).wf(),
            exists|rolls: Seq<u32>| {
                &&& rolls.len() == old(self).map_spec().entries().len()
                &&& forall|i: int| 0 <= i < rolls.len() ==> #[trigger] rolls[i] < HUNDRED_PERCENT_CHANCE
                &&& tick_post(*old(self), *final(self), rolls, report)
            },
            report.game_over == final(self).is_over(),
    {
        let n = self.map.len();
        let mut rolls: Vec<u32> = Vec::new();
        let mut i: usize = 0;
        while i < n
            invariant
                n == self.map.entries().len(),
                i <= n,
                rolls@.len() == i,
                forall|j: int| 0 <= j < i ==> #[trigger] rolls@[j] < HUNDRED_PERCENT_CHANCE,
            decreases n - i,
        {
            let (_c, t) = self.map.entry(i);
            let r = if t.state == State::Active { roll_below(HUNDRED_PERCENT_CHANCE) } else { 0 };
            rolls.push(r);
            i += 1;
        }
        self.tick_with_rolls(&rolls)
    }

    /// One firing of the fixed-rate clock: advances the time of day and
    /// returns the ticks to run (none once the day counter is full).
    pub fn advance_clock(&mut self) -> (ticks: Vec<TickEvent>)
        requires
            old(self).wf(),
        ensures
            final(self).wf(),
            ticks@.len() == (if old(self).daytime_spec().day_spec() < u32::MAX { TICKS_IN_RUN as int } else { 0 }),
            final(self).daytime_spec().total() == old(self).daytime_spec().total() + ticks@.len(),
            final(self).daytime_spec().day_spec() == old(self).daytime_spec().day_spec()
                + (old(self).daytime_spec().tick_spec() + ticks@.len()) / (MAX_TICKS as int),
            final(self).daytime_spec().tick_spec() == (old(self).daytime_spec().tick_spec() + ticks@.len()) % (MAX_TICKS as int),
            final(self).map_spec() == old(self).map_spec(),
            final(self).workers_spec() == old(self).workers_spec(),
            final(self).money_spec() == old(self).money_spec(),
            final(self).is_over() == old(self).is_over(),
    {
        proof {
            self.daytime.lemma_bounds();
        }
        if self.daytime.day() < u32::MAX {
            self.daytime.advance()
        } else {
            Vec::new()
        }
    }

    /// Runs the ring timer for `elapsed_ms`. When it fires and the map can
    /// still grow, the map grows by one ring, one more break shop is
    /// allowed, and the new ring count is returned.
    pub fn update_ring_timer(&mut self, elapsed_ms: u64) -> (ring: Option<GeneratedNextRing>)
        requires
            old(self).wf(),
        ensures
            final(self).wf(),
            exists|fired: bool| {
                &&& #[trigger] timer_ran(old(self).timer_spec(), final(self).timer_spec(), elapsed_ms, fired)
                &&& if fired && old(self).map_spec().rings() < MAX_RINGS {
                    &&& grown_by_ring(old(self).map_spec(), final(self).map_spec())
                    &&& ring == Some(GeneratedNextRing(final(self).map_spec().rings() as u32))
                    &&& final(self).shops_spec() == (CoffeeShops {
                        built: old(self).shops_spec().built,
                        allowed: if old(self).shops_spec().allowed < u32::MAX { (old(self).shops_spec().allowed + 1) as u32 } else { u32::MAX },
                    })
                } else {
                    &&& ring is None
                    &&& final(self).map_spec() == old(self).map_spec()
                    &&& final(self).shops_spec() == old(self).shops_spec()
                }
            },
            final(self).workers_spec() == old(self).workers_spec(),
            final(self).money_spec() == old(self).money_spec(),
            final(self).daytime_spec() == old(self).daytime_spec(),
            final(self).is_over() == old(self).is_over(),
    {
        let fired = self.timer.update(elapsed_ms);
        if fired && self.map.generated_rings() < MAX_RINGS {
            let g = self.map.generate_next_ring();
            if self.shops.allowed < u32::MAX {
                self.shops.allowed = self.shops.allowed + SHOPS_PER_RING;
            }
            assert(timer_ran(old(self).timer_spec(), self.timer_spec(), elapsed_ms, fired));
            Some(GeneratedNextRing(g))
        } else {
            assert(timer_ran(old(self).timer_spec(), self.timer_spec(), elapsed_ms, fired));
            None
        }
    }

    /// Turns the inactive tile at `c` into a break shop, if the number of
    /// shops allowed permits; otherwise nothing changes.
    pub fn upgrade_hex(&mut self, c: HexCoord) -> (done: bool)
        requires
            old(self).wf(),
        ensures
            final(self).wf(),
            done == (old(self).map_spec()@.contains_key(c) && old(self).map_spec()@[c].state == State::Inactive
                && old(self).shops_spec().built < old(self).shops_spec().allowed),
            done ==> final(self).map_spec()@ == old(self).map_spec()@.insert(c, Tile { state: State::BreakShop, counter: 0 })
                && final(self).shops_spec() == (CoffeeShops {
                    built: (old(self).shops_spec().built + 1) as u32,
                    allowed: old(self).shops_spec().allowed,
                }),
            !done ==> final(self).map_spec() == old(self).map_spec() && final(self).shops_spec() == old(self).shops_spec(),
            final(self).map_spec().rings() == old(self).map_spec().rings(),
            final(self).workers_spec() == old(self).workers_spec(),
            final(self).money_spec() == old(self).money_spec(),
            final(self).is_over() == old(self).is_over(),
    {
        if self.shops.built >= self.shops.allowed {
            return false;
        }
        match self.map.find_index(&c) {
            Some(i) => {
                let (_k, t) = self.map.entry(i);
                if t.state.is_upgradeable() {
                    let ghost m0 = self.map@;
                    self.map.set_entry(i, Tile::fresh(State::BreakShop));
                    proof {
                        assert forall|x: HexCoord| #[trigger] self.map@.contains_key(x) <==> crate::hex::radius(x) <= self.map.generated_rings by {
                            assert(m0.contains_key(x) == self.map@.contains_key(x));
                        }
                        assert(self.map@[crate::map::origin()].state == State::Active);
                    }
                    self.shops.built = self.shops.built + 1;
                    true
                } else {
                    false
                }
            },
            None => false,
        }
    }

    /// The spawn pass: every office rolls once (its roll is the entry's
    /// element of `rolls`); on success its counter resets and, when a break
    /// shop is reachable, a worker leaves for the nearest one; on failure
    /// its counter grows. Nothing else changes.
    pub fn spawn_phase(&mut self, rolls: &Vec<u32>) -> (spawned: Vec<(HexCoord, HexCoord)>)
        requires
            old(self).wf(),
            rolls@.len() == old(self).map_spec().entries().len(),
        ensures
            final(self).wf(),
            spawn_post(*old(self), *final(self), rolls@),
            spawned@ == spawn_report(*old(self), *final(self), rolls@),
    {
        let mut spawned: Vec<(HexCoord, HexCoord)> = Vec::new();
        let ghost sm = states(self.map@);
        let ghost entries0 = self.map.entries();
        let ghost ws0 = self.workers@;
        let n = self.map.len();
        let mut i: usize = 0;
        while i < n
            invariant
                self.wf(),
                n == entries0.len(),
                rolls@.len() == n,
                0 <= i <= n,
                states(self.map@) == sm,
                self.map.rings() == old(self).map_spec().rings(),
                self.map.entries().len() == n,
                forall|j: int| 0 <= j < i ==> (#[trigger] self.map.entries()[j])
                    == (entries0[j].0, Tile { state: entries0[j].1.state, counter: spawn_counter(entries0[j].1, rolls@[j]) }),
                forall|j: int| i <= j < n ==> #[trigger] self.map.entries()[j] == entries0[j],
                ({
                    let homes = spawn_homes(sm, entries0, rolls@, i as int);
                    &&& self.workers@.len() == ws0.len() + homes.len()
                    &&& self.workers@.subrange(0, ws0.len() as int) == ws0
                    &&& forall|k: int| 0 <= k < homes.len() ==> fresh_worker(sm, #[trigger] self.workers@[ws0.len() + k], homes[k])
                    &&& spawned@ == Seq::new(homes.len(), |k: int| (homes[k], self.workers@[ws0.len() + k].coffee))
                }),
                self.money == old(self).money_spec(),
                self.shops == old(self).shops_spec(),
                self.daytime == old(self).daytime_spec(),
                self.timer == old(self).timer_spec(),
                self.over == old(self).is_over(),
            decreases n - i,
        {
            let (c, t) = self.map.entry(i);
            let roll = rolls[i];
            let ghost homes_before = spawn_homes(sm, entries0, rolls@, i as int);
            let ghost wsb = self.workers@;
            assert(entries0[i as int] == (c, t));
            if t.state == State::Active {
                let chance: u32 = if t.counter < HUNDRED_PERCENT_CHANCE - BASE_CHANCE_TO_SPAWN_WORKER {
                    BASE_CHANCE_TO_SPAWN_WORKER + CHANCE_INCREASE_PER_TICK * t.counter
                } else {
                    HUNDRED_PERCENT_CHANCE
                };
                assert(chance == spawn_chance(t.counter as int));
                if roll < chance {
                    self.set_counter(i, 0);
                    let found = find_path(&self.map, c, Target::BreakShop);
                    match found {
                        Some((d, path)) => {
                            proof {
                                if path@.len() > 0 {
                                    lemma_path_reach(sm, c, path@, 0);
                                } else {
                                    assert(in_reach(sm, c, c, 0));
                                }
                                assert(target_within(sm, c, Target::BreakShop, path@.len() as int));
                                assert(shop_reachable(sm, c));
                            }
                            let w = Worker::new(c, d, path);
                            self.workers.push(w);
                            spawned.push((c, d));
                            proof {
                                let hs = spawn_homes(sm, entries0, rolls@, i + 1);
                                assert(spawned@ =~= Seq::new(hs.len(), |k: int| (hs[k], self.workers@[ws0.len() + k].coffee)));
                                assert(self.workers@.subrange(0, ws0.len() as int) =~= wsb.subrange(0, ws0.len() as int));
                                let homes = spawn_homes(sm, entries0, rolls@, i + 1);
                                assert(homes == homes_before.push(c));
                                assert forall|k: int| 0 <= k < homes.len() implies fresh_worker(sm, #[trigger] self.workers@[ws0.len() + k], homes[k]) by {
                                    if k < homes_before.len() {
                                        assert(self.workers@[ws0.len() + k] == wsb[ws0.len() + k]);
                                    }
                                }
                            }
                        },
                        None => {
                            proof {
                                assert(!shop_reachable(sm, c)) by {
                                    if shop_reachable(sm, c) {
                                        let k = choose|k: int| 0 <= k && #[trigger] target_within(sm, c, Target::BreakShop, k);
                                        let x = choose|x: HexCoord| #[trigger] in_reach(sm, c, x, k) && is_target(sm, Target::BreakShop, x);
                                    }
                                }
                            }
                        },
                    }
                } else {
                    let next: u32 = if t.counter < u32::MAX { t.counter + 1 } else { t.counter };
                    self.set_counter(i, next);
                }
            }
            i += 1;
        }
        proof {
            assert(self.map.entries().len() == n);
        }
        spawned
    }

    /// The service pass: each break shop, in map order, either counts its
    /// rest down, or, when ready, serves the first worker waiting there:
    /// the worker turns home along a nearest route, its reward is credited,
    /// and the shop rests for `WAIT_TICKS_AFTER_SERVING` ticks. A worker with
    /// no way home is left waiting and the shop stays ready.
    pub fn serve_phase(&mut self)
        requires
            old(self).wf(),
        ensures
            final(self).wf(),
            serve_post(*old(self), *final(self)),
    {
        let ghost m0 = self.map@;
        let ghost sm = states(self.map@);
        let ghost entries0 = self.map.entries();
        let ghost ws0 = self.workers@;
        let ghost money0 = self.money.value();
        let n = self.map.len();
        proof {
            lemma_served_total_none(m0, ws0, entries0, ws0.len() as int);
            self.money.lemma_bounds();
        }
        let mut i: usize = 0;
        while i < n
            invariant
                self.wf(),
                n == entries0.len(),
                entries0 == old(self).map.entries(),
                m0 == old(self).map@,
                old(self).map.wf(),
                sm == states(m0),
                ws0 == old(self).workers@,
                money0 == old(self).money.value(),
                0 <= i <= n,
                states(self.map@) == sm,
                self.map.rings() == old(self).map.rings(),
                self.map.entries().len() == n,
                forall|j: int| 0 <= j < i ==> (#[trigger] self.map.entries()[j])
                    == (entries0[j].0, Tile { state: entries0[j].1.state, counter: serve_counter(m0, ws0, entries0[j]) }),
                forall|j: int| i <= j < n ==> #[trigger] self.map.entries()[j] == entries0[j],
                self.workers@.len() == ws0.len(),
                forall|k: int| 0 <= k < ws0.len() ==> if shop_done(entries0, ws0[k].coffee, i as int) && gets_served(m0, ws0, k) {
                    served_worker(sm, ws0[k], #[trigger] self.workers@[k])
                } else {
                    self.workers@[k] == ws0[k]
                },
                self.money.value() == saturating(money0 + served_total(m0, ws0, entries0, i as int, ws0.len() as int)),
                self.shops == old(self).shops,
                self.daytime == old(self).daytime,
                self.timer == old(self).timer,
                self.over == old(self).over,
            decreases n - i,
        {
            let (c, t) = self.map.entry(i);
            proof {
                assert(entries0[i as int] == (c, t));
                assert(old(self).map.tiles@[i as int].0 == c);
                assert(m0[c] == t);
                assert(!shop_done(entries0, c, i as int)) by {
                    if shop_done(entries0, c, i as int) {
                        let j = choose|j: int| 0 <= j < i && #[trigger] entries0[j].0 == c;
                        assert(self.map.entries()[j].0 == entries0[j].0);
                        assert(self.map.entries()[i as int].0 == c);
                    }
                }
            }
            if t.state == State::BreakShop {
                if t.counter > 0 {
                    self.set_counter(i, t.counter - 1);
                    proof {
                        lemma_served_total_step(m0, ws0, entries0, i as int, ws0.len() as int, None);
                    }
                } else {
                    let found = self.first_waiting_at(&c);
                    match found {
                        Some(k) => {
                            proof {
                                assert(first_waiting(ws0, c, k as int)) by {
                                    assert forall|j: int| 0 <= j < k implies !waits_at(#[trigger] ws0[j], c) by {
                                        assert(!waits_at(self.workers@[j], c));
                                    }
                                }
                            }
                            let home = self.workers[k].home;
                            let route = find_path(&self.map, c, Target::Coord(home));
                            match route {
                                Some((_d, path)) => {
                                    proof {
                                        if path@.len() > 0 {
                                            lemma_path_reach(sm, c, path@, 0);
                                        } else {
                                            assert(in_reach(sm, c, c, 0));
                                        }
                                        assert(target_within(sm, c, Target::Coord(home), path@.len() as int));
                                        assert(home_reachable(sm, c, home));
                                        assert(gets_served(m0, ws0, k as int));
                                        lemma_served_total_step(m0, ws0, entries0, i as int, ws0.len() as int, Some(k as int));
                                    }
                                    let reward = self.workers[k].will_bring_money;
                                    let w = Worker {
                                        home,
                                        coffee: c,
                                        path,
                                        waited_for_coffee: true,
                                        will_bring_money: reward,
                                        state: WorkerState::Traveling,
                                    };
                                    self.workers.set(k, w);
                                    self.money.credit(reward as u64);
                                    self.set_counter(i, WAIT_TICKS_AFTER_SERVING);
                                    proof {
                                        assert(serve_counter(m0, ws0, entries0[i as int]) == WAIT_TICKS_AFTER_SERVING);
                                    }
                                },
                                None => {
                                    proof {
                                        assert(!home_reachable(sm, c, home)) by {
                                            if home_reachable(sm, c, home) {
                                                let q = choose|q: int| 0 <= q && #[trigger] target_within(sm, c, Target::Coord(home), q);
                                                let x = choose|x: HexCoord| #[trigger] in_reach(sm, c, x, q) && is_target(sm, Target::Coord(home), x);
                                            }
                                        }
                                        assert forall|q: int| #[trigger] first_waiting(ws0, c, q) implies q == k by {
                                            if q < k {
                                                assert(!waits_at(ws0[q], c));
                                            } else if q > k {
                                                assert(!waits_at(ws0[k as int], c));
                                            }
                                        }
                                        assert(!gets_served(m0, ws0, k as int));
                                        lemma_served_total_step(m0, ws0, entries0, i as int, ws0.len() as int, None);
                                    }
                                },
                            }
                        },
                        None => {
                            proof {
                                assert forall|q: int| !(#[trigger] first_waiting(ws0, c, q)) by {
                                    if first_waiting(ws0, c, q) {
                                        assert(self.workers@[q] == ws0[q]);
                                    }
                                }
                                lemma_served_total_step(m0, ws0, entries0, i as int, ws0.len() as int, None);
                            }
                        },
                    }
                }
            } else {
                proof {
                    lemma_served_total_step(m0, ws0, entries0, i as int, ws0.len() as int, None);
                }
            }
            i += 1;
        }
        proof {
            assert forall|k: int| 0 <= k < ws0.len() && gets_served(m0, ws0, k) implies shop_done(entries0, ws0[k].coffee, n as int) by {
                let c = ws0[k].coffee;
                assert(old(self).map@.contains_key(c));
                let j = choose|j: int| 0 <= j < old(self).map.tiles@.len() && #[trigger] old(self).map.tiles@[j].0 == c;
                assert(entries0[j].0 == c);
            }
        }
    }

    /// The expiry pass: every waiting worker waits one tick longer; those
    /// that reach `MAX_WAITING_TICKS` are gone and each costs
    /// `FEE_FOR_OVERWAIT`. A penalty the balance cannot cover leaves the
    /// balance as it is and ends the game.
    pub fn expire_phase(&mut self) -> (expired: Vec<HexCoord>)
        requires
            old(self).wf(),
        ensures
            final(self).wf(),
            expire_post(*old(self), *final(self)),
            expired@ == expired_at(old(self).workers_spec(), old(self).workers_spec().len() as int),
    {
        let mut expired: Vec<HexCoord> = Vec::new();
        let ghost ws0 = self.workers@;
        let ghost b = self.money.value();
        proof {
            self.money.lemma_bounds();
        }
        let n = self.workers.len();
        let mut k: usize = 0;
        while k < n
            invariant
                self.wf(),
                ws0 == old(self).workers@,
                b == old(self).money.value(),
                0 <= b,
                n == ws0.len(),
                0 <= k <= n,
                self.workers@.len() == n,
                forall|j: int| 0 <= j < k ==> aged(ws0[j], #[trigger] self.workers@[j]),
                forall|j: int| k <= j < n ==> #[trigger] self.workers@[j] == ws0[j],
                self.money.value() == b - FEE_FOR_OVERWAIT * penalties_paid(b, expired_count(ws0, k as int)),
                self.over == (old(self).over || penalties_paid(b, expired_count(ws0, k as int)) < expired_count(ws0, k as int)),
                0 <= expired_count(ws0, k as int) <= k,
                expired@ == expired_at(ws0, k as int),
                self.map == old(self).map,
                self.shops == old(self).shops,
                self.daytime == old(self).daytime,
                self.timer == old(self).timer,
            decreases n - k,
        {
            let ghost wsb = self.workers@;
            let dead = self.workers[k].age();
            proof {
                assert forall|j: int| 0 <= j < n && j != k implies #[trigger] self.workers@[j] == wsb[j] by {}
            }
            if dead {
                expired.push(self.workers[k].coffee);
                let r = self.money.debit(FEE_FOR_OVERWAIT);
                if r.is_err() {
                    self.over = true;
                }
            }
            k += 1;
        }
        expired
    }

    /// The travel pass: every traveling worker takes its next step, or,
    /// with its path walked, starts waiting (if unserved) or is gone; then
    /// the workers that are gone are removed.
    pub fn travel_phase(&mut self)
        requires
            old(self).wf(),
        ensures
            final(self).wf(),
            travel_post(*old(self), *final(self)),
    {
        let ghost ws0 = self.workers@;
        let ghost mut mid: Seq<Worker> = Seq::empty();
        let mut out: Vec<Worker> = Vec::new();
        let n = self.workers.len();
        let mut k: usize = 0;
        while k < n
            invariant
                ws0 == old(self).workers@,
                n == ws0.len(),
                0 <= k <= n,
                self.workers@.len() == n,
                forall|j: int| k <= j < n ==> #[trigger] self.workers@[j] == ws0[j],
                mid.len() == k,
                forall|j: int| 0 <= j < k ==> if ws0[j].state == WorkerState::Traveling {
                    stepped(ws0[j], #[trigger] mid[j])
                } else {
                    mid[j] == ws0[j]
                },
                out@ == live(mid, k as int),
                self.map == old(self).map,
                self.money == old(self).money,
                self.shops == old(self).shops,
                self.daytime == old(self).daytime,
                self.timer == old(self).timer,
                self.over == old(self).over,
            decreases n - k,
        {
            let traveling = match self.workers[k].state {
                WorkerState::Traveling => true,
                _ => false,
            };
            if traveling {
                self.workers[k].step();
            }
            let ghost now = self.workers@[k as int];
            let gone = match self.workers[k].state {
                WorkerState::Gone => true,
                _ => false,
            };
            if !gone {
                let mut p: Vec<HexCoord> = Vec::new();
                std::mem::swap(&mut p, &mut self.workers[k].path);
                let w = Worker {
                    home: self.workers[k].home,
                    coffee: self.workers[k].coffee,
                    path: p,
                    waited_for_coffee: self.workers[k].waited_for_coffee,
                    will_bring_money: self.workers[k].will_bring_money,
                    state: self.workers[k].state,
                };
                assert(w == now);
                out.push(w);
            }
            proof {
                let old_mid = mid;
                mid = old_mid.push(now);
                lemma_live_prefix(mid, old_mid, k as int);
                assert(mid[k as int] == now);
                assert(live(mid, k + 1) == if not_gone(now) { live(mid, k as int).push(now) } else { live(mid, k as int) });
            }
            k += 1;
        }
        self.workers = out;
        proof {
            assert(mid.len() == ws0.len());
        }
    }

    /// The first worker waiting, unserved, at `c`.
    fn first_waiting_at(&self, c: &HexCoord) -> (r: Option<usize>)
        ensures
            match r {
                Some(k) => first_waiting(self.workers@, *c, k as int),
                None => forall|k: int| 0 <= k < self.workers@.len() ==> !waits_at(#[trigger] self.workers@[k], *c),
            },
    {
        let mut k: usize = 0;
        while k < self.workers.len()
            invariant
                k <= self.workers@.len(),
                forall|j: int| 0 <= j < k ==> !waits_at(#[trigger] self.workers@[j], *c),
            decreases self.workers@.len() - k,
        {
            let w = &self.workers[k];
            let waiting = match w.state {
                WorkerState::Waiting(_) => true,
                _ => false,
            };
            if waiting && !w.waited_for_coffee && w.coffee == *c {
                return Some(k);
            }
            k += 1;
        }
        None
    }

    /// Sets the counter of entry `i`, keeping its state.
    fn set_counter(&mut self, i: usize, counter: u32)
        requires
            old(self).wf(),
            i < old(self).map_spec().entries().len(),
        ensures
            final(self).wf(),
            states(final(self).map_spec()@) == states(old(self).map_spec()@),
            final(self).map_spec().rings() == old(self).map_spec().rings(),
            final(self).map_spec().entries() == old(self).map_spec().entries().update(i as int,
                (old(self).map_spec().entries()[i as int].0, Tile { state: old(self).map_spec().entries()[i as int].1.state, counter })),
            final(self).workers_vec() == old(self).workers_vec(),
            final(self).money_spec() == old(self).money_spec(),
            final(self).shops_spec() == old(self).shops_spec(),
            final(self).daytime_spec() == old(self).daytime_spec(),
            final(self).timer_spec() == old(self).timer_spec(),
            final(self).is_over() == old(self).is_over(),
    {
        let (c, t) = self.map.entry(i);
        let ghost m0 = self.map@;
        self.map.set_entry(i, Tile { state: t.state, counter });
        proof {
            assert(states(self.map@) =~= states(m0));
            assert forall|x: HexCoord| #[trigger] self.map@.contains_key(x) <==> crate::hex::radius(x) <= self.map.generated_rings by {
                assert(m0.contains_key(x) == self.map@.contains_key(x));
            }
            assert(self.map@[crate::map::origin()].state == State::Active);
        }
    }
}

/// Relies on rand 0.8's `Rng::gen_range` with `thread_rng`: for the
/// non-empty range `0..bound` it returns a value below `bound`.
#[verifier::external_body]
fn roll_below(bound: u32) -> (r: u32)
    requires
        bound > 0,
    ensures
        r < bound,
{
    rand::Rng::gen_range(&mut rand::thread_rng(), 0..bound)
}

} // verus!
