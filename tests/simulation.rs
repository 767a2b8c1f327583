use hexbreak::economy::{ChangeMoneyEvent, Insolvent, Money};
use hexbreak::hex::HexCoord;
use hexbreak::map::TileMap;
use hexbreak::path::{find_path, Target};
use hexbreak::sim::{
    GeneratedNextRing, Simulation, HUNDRED_PERCENT_CHANCE, WAIT_TICKS_AFTER_SERVING,
};
use hexbreak::tile::{State, Tile};
use hexbreak::workers::{
    money_for_path, WaitingWorker, Worker, WorkerState, FEE_FOR_OVERWAIT, MAX_WAITING_TICKS,
};

fn c(x: i32, y: i32) -> HexCoord {
    HexCoord::new(x, y)
}

/// Origin office, a shop at (1,-1), two obstacles, three inactive tiles.
fn fresh_map() -> TileMap {
    TileMap::seeded([
        State::Inactive,
        State::Obstacle,
        State::BreakShop,
        State::Obstacle,
        State::Inactive,
        State::Inactive,
    ])
}

fn rolls(m: &TileMap, r: u32) -> Vec<u32> {
    vec![r; m.len()]
}

fn waiting(home: HexCoord, shop: HexCoord, reward: u8, ticks: u32) -> Worker {
    Worker {
        home,
        coffee: shop,
        path: Vec::new(),
        waited_for_coffee: false,
        will_bring_money: reward,
        state: WorkerState::Waiting(WaitingWorker(ticks)),
    }
}

#[test]
fn reward_steps_down_with_path_length() {
    let expected = [3u8, 2, 2, 1, 1, 0, 0, 0];
    for (len, r) in expected.iter().enumerate() {
        assert_eq!(money_for_path(len), *r);
    }
    for len in 0..40usize {
        assert!(money_for_path(len + 1) <= money_for_path(len));
    }
    assert_eq!(money_for_path(usize::MAX), 0);
}

#[test]
fn spawned_worker_at_origin_has_path_of_one() {
    let m = fresh_map();
    let r = rolls(&m, 0);
    let mut s = Simulation::from_parts(m, Vec::new(), Money::with_balance(10));
    s.spawn_phase(&r);
    assert_eq!(s.workers().len(), 1);
    let w = &s.workers()[0];
    assert_eq!(w.home, c(0, 0));
    assert_eq!(w.coffee, c(1, -1));
    assert_eq!(w.path, vec![c(1, -1)]);
    assert!(!w.waited_for_coffee);
    assert_eq!(w.will_bring_money, 2);
    assert_eq!(w.state, WorkerState::Traveling);
    assert_eq!(s.map().get_tile(&c(0, 0)), Some(Tile { state: State::Active, counter: 0 }));
}

#[test]
fn failed_roll_raises_the_office_counter() {
    let m = fresh_map();
    let r = rolls(&m, HUNDRED_PERCENT_CHANCE - 1);
    let mut s = Simulation::from_parts(m, Vec::new(), Money::new());
    s.spawn_phase(&r);
    s.spawn_phase(&r);
    assert!(s.workers().is_empty());
    assert_eq!(s.map().get_tile(&c(0, 0)).unwrap().counter, 2);
    // The chance grows by one per idle tick: a roll of 2 now succeeds.
    s.spawn_phase(&rolls(s.map(), 2));
    assert_eq!(s.workers().len(), 1);
    assert_eq!(s.map().get_tile(&c(0, 0)).unwrap().counter, 0);
}

#[test]
fn no_worker_without_a_reachable_shop() {
    // An office at (2,-2) walled in by obstacles on every present side.
    let mut m = TileMap::seeded([
        State::BreakShop,
        State::Obstacle,
        State::Obstacle,
        State::Obstacle,
        State::Obstacle,
        State::Obstacle,
    ]);
    let mut states = vec![State::Obstacle; 12];
    states[0] = State::Active;
    m.commit_ring(&states);
    let r = rolls(&m, 0);
    let mut s = Simulation::from_parts(m, Vec::new(), Money::new());
    s.spawn_phase(&r);
    // The origin office reaches the shop; the walled-in one at (2,-2) does
    // not, but its counter still resets.
    assert_eq!(s.workers().len(), 1);
    assert_eq!(s.workers()[0].home, c(0, 0));
    assert_eq!(s.map().get_tile(&c(2, -2)), Some(Tile { state: State::Active, counter: 0 }));
}

#[test]
fn arrival_starts_waiting_and_overwait_costs_the_fee() {
    let m = fresh_map();
    let r = rolls(&m, 0);
    let mut s = Simulation::from_parts(m, Vec::new(), Money::with_balance(10));
    s.spawn_phase(&r);
    s.travel_phase();
    assert!(s.workers()[0].path.is_empty());
    assert_eq!(s.workers()[0].state, WorkerState::Traveling);
    s.travel_phase();
    assert_eq!(s.workers()[0].state, WorkerState::Waiting(WaitingWorker(0)));
    for t in 1..MAX_WAITING_TICKS {
        s.expire_phase();
        assert_eq!(s.workers()[0].state, WorkerState::Waiting(WaitingWorker(t)));
        assert_eq!(s.balance(), 10);
    }
    assert_eq!(s.expire_phase(), vec![c(1, -1)]);
    assert_eq!(s.workers()[0].state, WorkerState::Gone);
    assert_eq!(s.balance(), 10 - FEE_FOR_OVERWAIT);
    assert!(!s.game_over());
    s.travel_phase();
    assert!(s.workers().is_empty());
}

#[test]
fn overwait_beyond_balance_ends_the_game() {
    let m = fresh_map();
    let ws = vec![
        waiting(c(0, 0), c(5, 5), 1, MAX_WAITING_TICKS - 1),
        waiting(c(0, 0), c(5, 5), 1, MAX_WAITING_TICKS - 1),
    ];
    let mut s = Simulation::from_parts(m, ws, Money::with_balance(7));
    s.expire_phase();
    // The first penalty is paid, the second cannot be.
    assert_eq!(s.balance(), 2);
    assert!(s.game_over());
    let before = s.workers().len();
    let report = s.tick_with_rolls(&rolls(s.map(), 0));
    assert!(report.game_over);
    assert!(report.spawned.is_empty());
    assert_eq!(s.workers().len(), before);
    assert_eq!(s.balance(), 2);
}

#[test]
fn one_worker_served_per_shop_per_tick() {
    let m = fresh_map();
    let ws = vec![
        waiting(c(0, 0), c(1, -1), 2, 3),
        waiting(c(0, 0), c(1, -1), 1, 3),
    ];
    let mut s = Simulation::from_parts(m, ws, Money::with_balance(10));
    s.serve_phase();
    let a = &s.workers()[0];
    assert_eq!(a.state, WorkerState::Traveling);
    assert!(a.waited_for_coffee);
    assert_eq!(a.path, vec![c(0, 0)]);
    assert_eq!(s.workers()[1].state, WorkerState::Waiting(WaitingWorker(3)));
    assert_eq!(s.map().get_tile(&c(1, -1)).unwrap().counter, WAIT_TICKS_AFTER_SERVING);
    assert_eq!(s.balance(), 12);
    // Next tick the shop is resting: it counts down and serves nobody.
    s.serve_phase();
    assert_eq!(s.workers()[1].state, WorkerState::Waiting(WaitingWorker(3)));
    assert_eq!(s.map().get_tile(&c(1, -1)).unwrap().counter, WAIT_TICKS_AFTER_SERVING - 1);
    assert_eq!(s.balance(), 12);
}

#[test]
fn served_worker_is_not_aged_in_the_same_tick() {
    let m = fresh_map();
    let ws = vec![
        waiting(c(0, 0), c(1, -1), 2, 10),
        waiting(c(0, 0), c(1, -1), 1, 10),
    ];
    let mut s = Simulation::from_parts(m, ws, Money::with_balance(0));
    s.tick_with_rolls(&rolls(s.map(), HUNDRED_PERCENT_CHANCE - 1));
    // The served worker stepped home; the other waited one tick more.
    assert!(s.workers()[0].waited_for_coffee);
    assert_eq!(s.workers()[0].state, WorkerState::Traveling);
    assert_eq!(s.workers()[1].state, WorkerState::Waiting(WaitingWorker(11)));
}

#[test]
fn full_round_trip_over_ticks() {
    let m = fresh_map();
    let mut s = Simulation::from_parts(m, Vec::new(), Money::with_balance(10));
    let fail = HUNDRED_PERCENT_CHANCE - 1;
    // Tick 1: spawned and stepped onto the shop.
    let report = s.tick_with_rolls(&rolls(s.map(), 0));
    assert!(!report.game_over);
    assert_eq!(report.spawned, vec![(c(0, 0), c(1, -1))]);
    assert_eq!(report.credited, 0);
    assert_eq!(s.workers().len(), 1);
    assert!(s.workers()[0].path.is_empty());
    // Tick 2: arrives and waits.
    s.tick_with_rolls(&rolls(s.map(), fail));
    assert_eq!(s.workers()[0].state, WorkerState::Waiting(WaitingWorker(0)));
    // Tick 3: served, credited, steps home.
    let report = s.tick_with_rolls(&rolls(s.map(), fail));
    assert_eq!(report.credited, 2);
    assert!(report.spawned.is_empty());
    assert!(report.expired.is_empty());
    assert_eq!(s.balance(), 12);
    assert!(s.workers()[0].waited_for_coffee);
    assert!(s.workers()[0].path.is_empty());
    // Tick 4: home again, and gone.
    s.tick_with_rolls(&rolls(s.map(), fail));
    assert!(s.workers().is_empty());
    assert_eq!(s.balance(), 12);
}

#[test]
fn random_ticks_keep_paths_walkable() {
    let mut s = Simulation::new();
    for _ in 0..300 {
        if s.tick().game_over {
            break;
        }
        for w in s.workers().iter() {
            for p in w.path.iter() {
                assert!(s.map().get(p).is_some());
            }
            assert_eq!(s.map().get(&w.coffee), Some(State::BreakShop));
        }
    }
    assert!(s.map().get(&c(0, 0)) == Some(State::Active));
}

#[test]
fn ring_timer_grows_map_and_shop_allowance() {
    let mut s = Simulation::from_parts(fresh_map(), Vec::new(), Money::new());
    assert_eq!(s.shops().allowed, 1);
    assert_eq!(s.update_ring_timer(9_999), None);
    assert_eq!(s.map().generated_rings(), 1);
    assert_eq!(s.update_ring_timer(1), Some(GeneratedNextRing(2)));
    assert_eq!(s.map().generated_rings(), 2);
    assert_eq!(s.map().len(), 19);
    assert_eq!(s.shops().allowed, 2);
    assert_eq!(s.timer().duration(), 20_000);
    assert_eq!(s.update_ring_timer(19_999), None);
    assert_eq!(s.update_ring_timer(5), Some(GeneratedNextRing(3)));
    assert_eq!(s.timer().duration(), 40_000);
}

#[test]
fn upgrade_needs_an_inactive_tile_and_capacity() {
    let mut s = Simulation::from_parts(fresh_map(), Vec::new(), Money::new());
    // One shop built, one allowed: no capacity yet.
    assert!(!s.upgrade_hex(c(0, 1)));
    assert_eq!(s.map().get(&c(0, 1)), Some(State::Inactive));
    s.update_ring_timer(10_000);
    assert_eq!(s.shops().allowed, 2);
    // Not inactive: an obstacle, an office, an absent coordinate.
    assert!(!s.upgrade_hex(c(1, 0)));
    assert!(!s.upgrade_hex(c(0, 0)));
    assert!(!s.upgrade_hex(c(7, 7)));
    assert!(s.upgrade_hex(c(0, 1)));
    assert_eq!(s.map().get_tile(&c(0, 1)), Some(Tile { state: State::BreakShop, counter: 0 }));
    assert_eq!(s.shops().built, 2);
    // Capacity used up.
    assert!(!s.upgrade_hex(c(-1, 0)));
}

#[test]
fn clock_advances_one_tick_per_firing() {
    let mut s = Simulation::from_parts(fresh_map(), Vec::new(), Money::new());
    assert_eq!(s.daytime().day(), 1);
    assert_eq!(s.advance_clock().len(), 1);
    assert_eq!(s.daytime().get_minutes(), 1);
    assert_eq!(s.daytime().get_hours(), 0);
}

#[test]
fn ledger_debit_and_insolvency() {
    let mut m = Money::with_balance(7);
    assert_eq!(m.debit(5), Ok(()));
    assert_eq!(m.balance(), 2);
    assert_eq!(m.debit(3), Err(Insolvent { balance: 2, requested: 3 }));
    assert_eq!(m.balance(), 2);
    assert_eq!(m.debit(2), Ok(()));
    assert_eq!(m.balance(), 0);
}

#[test]
fn ledger_credit_saturates() {
    let mut m = Money::new();
    m.credit(3);
    assert_eq!(m.balance(), 3);
    let mut big = Money::with_balance(u64::MAX - 1);
    big.credit(5);
    assert_eq!(big.balance(), u64::MAX);
}

#[test]
fn ledger_signed_changes() {
    let mut m = Money::with_balance(4);
    assert_eq!(m.change(ChangeMoneyEvent(2)), Ok(()));
    assert_eq!(m.balance(), 6);
    assert_eq!(m.change(ChangeMoneyEvent(-5)), Ok(()));
    assert_eq!(m.balance(), 1);
    assert!(m.change(ChangeMoneyEvent(-5)).is_err());
    assert_eq!(m.balance(), 1);
    assert!(m.change(ChangeMoneyEvent(i64::MIN)).is_err());
    assert_eq!(m.balance(), 1);
}

#[test]
fn worker_step_pops_then_waits_or_leaves() {
    let mut w = Worker::new(c(0, 0), c(2, 0), vec![c(2, 0), c(1, 0)]);
    assert_eq!(w.will_bring_money, 2);
    assert_eq!(w.step(), Some(c(1, 0)));
    assert_eq!(w.step(), Some(c(2, 0)));
    assert_eq!(w.step(), None);
    assert_eq!(w.state, WorkerState::Waiting(WaitingWorker(0)));
    let mut back = Worker::new(c(0, 0), c(2, 0), vec![]);
    back.waited_for_coffee = true;
    assert_eq!(back.step(), None);
    assert_eq!(back.state, WorkerState::Gone);
}

#[test]
fn waiting_worker_dies_at_the_ceiling() {
    assert!(!WaitingWorker(MAX_WAITING_TICKS - 1).is_dead());
    assert!(WaitingWorker(MAX_WAITING_TICKS).is_dead());
    let mut w = waiting(c(0, 0), c(1, 0), 1, MAX_WAITING_TICKS - 2);
    assert!(!w.age());
    assert!(w.age());
    assert_eq!(w.state, WorkerState::Gone);
}

#[test]
fn equally_near_shops_go_to_the_first_direction() {
    let mut s = Simulation::from_parts(fresh_map(), Vec::new(), Money::new());
    let (d, _) = find_path(s.map(), c(0, 0), Target::BreakShop).unwrap();
    assert_eq!(d, c(1, -1));
    s.update_ring_timer(10_000);
    assert!(s.upgrade_hex(c(0, 1)));
    // Both shops are one step away; direction YZ, (0,1), comes first.
    let (d, path) = find_path(s.map(), c(0, 0), Target::BreakShop).unwrap();
    assert_eq!(d, c(0, 1));
    assert_eq!(path, vec![c(0, 1)]);
}

#[test]
fn tick_reports_expiries_and_penalties() {
    let ws = vec![
        waiting(c(0, 0), c(5, 5), 1, MAX_WAITING_TICKS - 1),
        waiting(c(0, 0), c(4, 4), 1, 2),
    ];
    let mut s = Simulation::from_parts(fresh_map(), ws, Money::with_balance(9));
    let report = s.tick_with_rolls(&rolls(s.map(), HUNDRED_PERCENT_CHANCE - 1));
    assert_eq!(report.expired, vec![c(5, 5)]);
    assert_eq!(report.penalties, FEE_FOR_OVERWAIT);
    assert_eq!(report.credited, 0);
    assert!(!report.game_over);
    assert_eq!(s.balance(), 9 - FEE_FOR_OVERWAIT);
    assert_eq!(s.workers().len(), 1);
}

#[test]
fn new_game_starts_from_fixed_values() {
    let s = Simulation::new();
    assert_eq!(s.shops(), hexbreak::sim::CoffeeShops { built: 1, allowed: 1 });
    assert_eq!(s.daytime().day(), 1);
    assert_eq!(s.daytime().get_hours(), 0);
    assert_eq!(s.balance(), 0);
    assert_eq!(s.timer().duration(), hexbreak::timer::START_RING_TIMER_MS);
    assert_eq!(s.timer().remaining(), hexbreak::timer::START_RING_TIMER_MS);
    assert_eq!(s.map().get(&c(0, 0)), Some(State::Active));
    let shops = c(0, 0).neighbors().iter().filter(|p| s.map().get(p) == Some(State::BreakShop)).count();
    assert_eq!(shops, 1);
    assert!(!s.game_over());
}
