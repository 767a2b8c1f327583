use hexbreak::hex::{ring, HexCoord};
use hexbreak::map::{states_for_draws, TileMap};
use hexbreak::path::{find_path, Target};
use hexbreak::tile::{State, Tile};

fn c(x: i32, y: i32) -> HexCoord {
    HexCoord::new(x, y)
}

fn radius(p: &HexCoord) -> u64 {
    HexCoord::origin().distance_to(p)
}

#[test]
fn neighbors_in_direction_order() {
    let n = c(2, -1).neighbors();
    assert_eq!(n, [c(2, 0), c(3, -1), c(3, -2), c(2, -2), c(1, -1), c(1, 0)]);
    for p in n.iter() {
        assert_eq!(c(2, -1).distance_to(p), 1);
    }
}

#[test]
fn distance_is_exact() {
    assert_eq!(c(0, 0).distance_to(&c(3, -1)), 3);
    assert_eq!(c(-2, 5).distance_to(&c(1, 1)), 4);
    assert_eq!(c(4, 4).distance_to(&c(4, 4)), 0);
}

#[test]
fn ring_one_walks_clockwise_from_corner() {
    let r = ring(1);
    assert_eq!(r, vec![c(1, -1), c(0, -1), c(-1, 0), c(-1, 1), c(0, 1), c(1, 0)]);
}

#[test]
fn ring_two_first_side_and_corners() {
    let r = ring(2);
    assert_eq!(r.len(), 12);
    assert_eq!(r[0], c(2, -2));
    assert_eq!(r[1], c(1, -2));
    assert_eq!(r[2], c(0, -2));
    assert_eq!(r[4], c(-2, 0));
    assert_eq!(r[6], c(-2, 2));
    assert_eq!(r[8], c(0, 2));
    assert_eq!(r[10], c(2, 0));
    assert_eq!(r[11], c(2, -1));
}

#[test]
fn rings_have_six_r_distinct_members_at_distance_r() {
    for r in 1..=7u32 {
        let v = ring(r);
        assert_eq!(v.len(), 6 * r as usize);
        for (i, p) in v.iter().enumerate() {
            assert_eq!(radius(p), r as u64);
            for q in v.iter().skip(i + 1) {
                assert_ne!(p, q);
            }
        }
    }
}

fn seed_with_shop_at(d: usize) -> [State; 6] {
    let mut s = [State::Inactive; 6];
    s[d] = State::BreakShop;
    s
}

#[test]
fn seeded_map_has_radius_one_without_gaps() {
    let m = TileMap::seeded([
        State::BreakShop,
        State::Obstacle,
        State::Inactive,
        State::Obstacle,
        State::Inactive,
        State::Inactive,
    ]);
    assert_eq!(m.generated_rings(), 1);
    assert_eq!(m.len(), 7);
    assert_eq!(m.get(&c(0, 0)), Some(State::Active));
    assert_eq!(m.get(&c(0, 1)), Some(State::BreakShop));
    assert_eq!(m.get(&c(1, 0)), Some(State::Obstacle));
    assert_eq!(m.get(&c(0, -1)), Some(State::Obstacle));
    assert_eq!(m.get(&c(1, -1)), Some(State::Inactive));
    assert_eq!(m.get(&c(2, 0)), None);
    assert!(!m.is_passable(&c(1, 0)));
    assert!(m.is_passable(&c(1, -1)));
    assert!(!m.is_passable(&c(5, 5)));
}

#[test]
fn random_seed_has_one_shop_and_two_obstacles() {
    for _ in 0..20 {
        let m = TileMap::new();
        let n = c(0, 0).neighbors();
        let states: Vec<State> = n.iter().map(|p| m.get(p).unwrap()).collect();
        assert_eq!(states.iter().filter(|s| **s == State::BreakShop).count(), 1);
        assert_eq!(states.iter().filter(|s| **s == State::Obstacle).count(), 2);
        assert_eq!(states.iter().filter(|s| **s == State::Inactive).count(), 3);
        assert_eq!(m.get(&c(0, 0)), Some(State::Active));
    }
}

#[test]
fn growth_keeps_the_map_gapless() {
    let mut m = TileMap::seeded(seed_with_shop_at(2));
    for g in 2..=4u32 {
        let before = m.all_tiles();
        assert_eq!(m.generate_next_ring(), g);
        assert_eq!(m.generated_rings(), g);
        let after = m.all_tiles();
        assert_eq!(after.len(), before.len() + 6 * g as usize);
        assert_eq!(&after[..before.len()], &before[..]);
        let r = ring(g);
        for (i, p) in r.iter().enumerate() {
            let (k, t) = after[before.len() + i];
            assert_eq!(k, *p);
            assert_eq!(t.counter, 0);
            assert_ne!(t.state, State::BreakShop);
        }
        for x in -6..=6 {
            for y in -6..=6 {
                let p = c(x, y);
                assert_eq!(m.get(&p).is_some(), radius(&p) <= g as u64);
            }
        }
    }
}

#[test]
fn ring_next_to_three_obstacles_never_holds_an_office() {
    // Every neighbour of the origin is an obstacle but the shop, so the
    // outer corners that touch two obstacles draw from the last row,
    // where offices have no weight.
    let s = [
        State::BreakShop,
        State::Obstacle,
        State::Obstacle,
        State::Obstacle,
        State::Obstacle,
        State::Obstacle,
    ];
    for _ in 0..30 {
        let mut m = TileMap::seeded(s);
        // (2,-1) touches (1,-1) and (1,0): two obstacles before the ring.
        assert_eq!(m.obstacle_neighbours(&c(2, -1)), 2);
        m.generate_next_ring();
        let t = m.get(&c(2, -1)).unwrap();
        assert_ne!(t, State::Active);
        assert_ne!(t, State::BreakShop);
    }
}

#[test]
fn commit_ring_places_states_in_ring_order() {
    let mut m = TileMap::seeded(seed_with_shop_at(0));
    let mut states = vec![State::Inactive; 12];
    states[3] = State::Obstacle;
    states[7] = State::Active;
    m.commit_ring(&states);
    let r = ring(2);
    assert_eq!(m.get(&r[3]), Some(State::Obstacle));
    assert_eq!(m.get(&r[7]), Some(State::Active));
    assert_eq!(m.get(&r[0]), Some(State::Inactive));
    assert_eq!(m.get_tile(&r[7]), Some(Tile { state: State::Active, counter: 0 }));
    assert_eq!(m.generated_rings(), 2);
}

#[test]
fn obstacle_neighbours_counts_present_obstacles() {
    let m = TileMap::seeded([
        State::BreakShop,
        State::Obstacle,
        State::Inactive,
        State::Obstacle,
        State::Inactive,
        State::Inactive,
    ]);
    assert_eq!(m.obstacle_neighbours(&c(0, 0)), 2);
    // (1,-1) touches (1,0) and (0,-1), both obstacles.
    assert_eq!(m.obstacle_neighbours(&c(1, -1)), 2);
    assert_eq!(m.obstacle_neighbours(&c(-1, 1)), 0);
}

#[test]
fn path_to_adjacent_shop_has_length_one() {
    let m = TileMap::seeded([
        State::Inactive,
        State::Obstacle,
        State::BreakShop,
        State::Obstacle,
        State::Inactive,
        State::Inactive,
    ]);
    let (d, path) = find_path(&m, c(0, 0), Target::BreakShop).unwrap();
    assert_eq!(d, c(1, -1));
    assert_eq!(path, vec![c(1, -1)]);
}

#[test]
fn path_to_self_is_empty() {
    let m = TileMap::seeded(seed_with_shop_at(3));
    let (d, path) = find_path(&m, c(0, 0), Target::Coord(c(0, 0))).unwrap();
    assert_eq!(d, c(0, 0));
    assert!(path.is_empty());
}

/// A radius-two map whose ring-one tiles are obstacles but for one
/// inactive tile and the shop; ring two is all inactive.
fn detour_map() -> TileMap {
    let mut m = TileMap::seeded([
        State::Obstacle,
        State::Obstacle,
        State::Inactive,
        State::Obstacle,
        State::Obstacle,
        State::BreakShop,
    ]);
    m.commit_ring(&vec![State::Inactive; 12]);
    m
}

#[test]
fn path_detours_round_obstacles() {
    let m = detour_map();
    let (d, path) = find_path(&m, c(2, 0), Target::BreakShop).unwrap();
    assert_eq!(d, c(-1, 1));
    assert_eq!(path[0], c(-1, 1));
    // The straight line would take three steps; the wall costs one more.
    assert_eq!(c(2, 0).distance_to(&c(-1, 1)), 3);
    assert_eq!(path.len(), 4);
    let mut prev = c(2, 0);
    for p in path.iter().rev() {
        assert_eq!(prev.distance_to(p), 1);
        assert!(m.is_passable(&prev));
        prev = *p;
    }
}

#[test]
fn path_rerun_from_first_step_is_one_shorter() {
    let m = detour_map();
    let (_, path) = find_path(&m, c(2, 0), Target::BreakShop).unwrap();
    let first = *path.last().unwrap();
    let (d2, path2) = find_path(&m, first, Target::BreakShop).unwrap();
    assert_eq!(d2, c(-1, 1));
    assert_eq!(path2.len(), path.len() - 1);
}

#[test]
fn path_home_goes_back_the_same_distance() {
    let m = detour_map();
    let (_, there) = find_path(&m, c(2, 0), Target::BreakShop).unwrap();
    let (d, back) = find_path(&m, c(-1, 1), Target::Coord(c(2, 0))).unwrap();
    assert_eq!(d, c(2, 0));
    assert_eq!(back.len(), there.len());
    assert_eq!(back[0], c(2, 0));
}

fn walled_seed() -> [State; 6] {
    [
        State::BreakShop,
        State::Obstacle,
        State::Obstacle,
        State::Obstacle,
        State::Obstacle,
        State::Obstacle,
    ]
}

#[test]
fn no_route_from_or_to_absent_coordinates() {
    let m = TileMap::seeded(walled_seed());
    assert!(find_path(&m, c(0, 0), Target::BreakShop).is_some());
    assert!(find_path(&m, c(9, 9), Target::BreakShop).is_none());
    assert!(find_path(&m, c(0, 0), Target::Coord(c(3, 3))).is_none());
}

#[test]
fn no_route_through_obstacles() {
    let mut m = TileMap::seeded(walled_seed());
    let mut states = vec![State::Obstacle; 12];
    states[0] = State::Inactive;
    m.commit_ring(&states);
    assert_eq!(m.get(&c(2, -2)), Some(State::Inactive));
    assert!(find_path(&m, c(0, 0), Target::Coord(c(2, -2))).is_none());
    assert!(find_path(&m, c(2, -2), Target::BreakShop).is_none());
}

#[test]
fn draws_stand_for_states() {
    let v = states_for_draws(&vec![0, 1, 2, 2, 0]);
    assert_eq!(v, vec![State::Inactive, State::Active, State::Obstacle, State::Obstacle, State::Inactive]);
    assert!(states_for_draws(&vec![]).is_empty());
}

#[test]
fn next_ring_buckets_count_obstacles_before_the_ring() {
    let m = TileMap::seeded([
        State::BreakShop,
        State::Obstacle,
        State::Obstacle,
        State::Inactive,
        State::Inactive,
        State::Inactive,
    ]);
    let b = m.next_ring_buckets();
    let r = ring(2);
    assert_eq!(b.len(), 12);
    for (i, p) in r.iter().enumerate() {
        assert_eq!(b[i], m.obstacle_neighbours(p).min(2));
    }
    // (2,-1) touches (1,0) and (1,-1).
    let k = r.iter().position(|p| *p == c(2, -1)).unwrap();
    assert_eq!(b[k], 2);
    // (-2,1) touches no obstacle.
    let k = r.iter().position(|p| *p == c(-2, 1)).unwrap();
    assert_eq!(b[k], 0);
}

#[test]
fn commit_ring_draws_places_drawn_states() {
    let mut m = TileMap::seeded(seed_with_shop_at(0));
    let mut picks = vec![0usize; 12];
    picks[1] = 1;
    picks[5] = 2;
    m.commit_ring_draws(&picks);
    let r = ring(2);
    assert_eq!(m.get(&r[1]), Some(State::Active));
    assert_eq!(m.get(&r[5]), Some(State::Obstacle));
    assert_eq!(m.get(&r[0]), Some(State::Inactive));
    assert_eq!(m.generated_rings(), 2);
}
