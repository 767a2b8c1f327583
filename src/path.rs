use vstd::prelude::*;

use crate::hex::{HexCoord, adjacent, neighbor, in_range, lemma_adjacent_neighbor};
use crate::map::{TileMap, passable, states};
use crate::tile::State;

verus! {

/// What a search looks for.
#[derive(Clone, Copy, Debug, PartialEq, Eq, Structural)]
pub enum Target {
    /// Any break shop.
    BreakShop,
    /// One fixed coordinate.
    Coord(HexCoord),
}

/// `c` satisfies the target; an absent coordinate never does.
pub open spec fn is_target(m: Map<HexCoord, State>, t: Target, c: HexCoord) -> bool {
    m.contains_key(c) && match t {
        Target::BreakShop => m[c] == State::BreakShop,
        Target::Coord(h) => c == h,
    }
}

/// `prev` together with every coordinate adjacent to a passable member of it.
pub open spec fn grow(m: Map<HexCoord, State>, prev: Set<HexCoord>) -> Set<HexCoord> {
    prev.union(Set::new(|c: HexCoord| exists|p: HexCoord|
        #[trigger] prev.contains(p) && passable(m, p) && adjacent(p, c)))
}

/// The coordinates within `n` steps of `s`, each step leaving a passable
/// tile for an adjacent coordinate.
pub open spec fn reach_set(m: Map<HexCoord, State>, s: HexCoord, n: int) -> Set<HexCoord>
    decreases n,
{
    if n <= 0 {
        Set::empty().insert(s)
    } else {
        grow(m, reach_set(m, s, n - 1))
    }
}

pub open spec fn in_reach(m: Map<HexCoord, State>, s: HexCoord, c: HexCoord, n: int) -> bool {
    reach_set(m, s, n).contains(c)
}

/// Some coordinate satisfying the target is within `n` steps of `s`.
pub open spec fn target_within(m: Map<HexCoord, State>, s: HexCoord, t: Target, n: int) -> bool {
    exists|c: HexCoord| #[trigger] in_reach(m, s, c, n) && is_target(m, t, c)
}

/// The coordinate walked from just before `path[i]`; a path is listed from
/// its destination back towards `s`, which it leaves out.
pub open spec fn step_from(s: HexCoord, path: Seq<HexCoord>, i: int) -> HexCoord {
    if i + 1 < path.len() { path[i + 1] } else { s }
}

/// Each step of the path leaves a passable tile for an adjacent coordinate.
pub open spec fn valid_path(m: Map<HexCoord, State>, s: HexCoord, path: Seq<HexCoord>) -> bool {
    forall|i: int| 0 <= i < path.len() ==> adjacent(#[trigger] step_from(s, path, i), path[i])
        && passable(m, step_from(s, path, i))
}

/// What a successful search returns: a destination satisfying the target,
/// a valid path to it listed from the destination back (without `s`), and
/// no destination nearer than the path is long.
pub open spec fn nearest_route(
    m: Map<HexCoord, State>,
    s: HexCoord,
    t: Target,
    dest: HexCoord,
    path: Seq<HexCoord>,
) -> bool {
    &&& is_target(m, t, dest)
    &&& valid_path(m, s, path)
    &&& (if path.len() == 0 { dest == s } else { path[0] == dest })
    &&& path.len() == 0 || !target_within(m, s, t, (path.len() - 1))
}

pub proof fn lemma_reach_mono(m: Map<HexCoord, State>, s: HexCoord, c: HexCoord, a: int, b: int)
    requires
        in_reach(m, s, c, a),
        0 <= a <= b,
    ensures
        in_reach(m, s, c, b),
    decreases b,
{
    if a < b {
        lemma_reach_mono(m, s, c, a, b - 1);
        assert(reach_set(m, s, b) == grow(m, reach_set(m, s, b - 1)));
    }
}

/// One more step from a passable reached coordinate.
pub proof fn lemma_reach_step(m: Map<HexCoord, State>, s: HexCoord, p: HexCoord, c: HexCoord, k: int)
    requires
        0 <= k,
        in_reach(m, s, p, k),
        passable(m, p),
        adjacent(p, c),
    ensures
        in_reach(m, s, c, k + 1),
{
    assert(reach_set(m, s, k + 1) == grow(m, reach_set(m, s, k)));
    assert(reach_set(m, s, k).contains(p));
}

/// A coordinate first reached at step `n` has a passable neighbour that was
/// reached one step earlier.
pub proof fn lemma_reach_back(m: Map<HexCoord, State>, s: HexCoord, c: HexCoord, n: int) -> (p: HexCoord)
    requires
        n > 0,
        in_reach(m, s, c, n),
        !in_reach(m, s, c, n - 1),
    ensures
        in_reach(m, s, p, n - 1),
        passable(m, p),
        adjacent(p, c),
{
    let prev = reach_set(m, s, n - 1);
    assert(reach_set(m, s, n) == grow(m, prev));
    choose|q: HexCoord| #[trigger] prev.contains(q) && passable(m, q) && adjacent(q, c)
}

/// Each coordinate of a valid path is reachable in as many steps as it is
/// far along the path.
pub proof fn lemma_path_reach(m: Map<HexCoord, State>, s: HexCoord, path: Seq<HexCoord>, i: int)
    requires
        valid_path(m, s, path),
        0 <= i < path.len(),
    ensures
        in_reach(m, s, path[i], path.len() - i),
    decreases path.len() - i,
{
    let p = step_from(s, path, i);
    let n = path.len() - i;
    if i + 1 < path.len() {
        lemma_path_reach(m, s, path, i + 1);
    } else {
        assert(in_reach(m, s, p, 0));
    }
    lemma_reach_step(m, s, p, path[i], n - 1);
}

/// A walk from a neighbour `f` of a passable `s` is one step longer from `s`.
pub proof fn lemma_reach_shift(m: Map<HexCoord, State>, s: HexCoord, f: HexCoord, c: HexCoord, n: int)
    requires
        0 <= n,
        passable(m, s),
        adjacent(s, f),
        in_reach(m, f, c, n),
    ensures
        in_reach(m, s, c, n + 1),
    decreases n,
{
    if n == 0 {
        assert(in_reach(m, s, s, 0));
        lemma_reach_step(m, s, s, c, 0);
    } else if in_reach(m, f, c, n - 1) {
        lemma_reach_shift(m, s, f, c, n - 1);
        lemma_reach_mono(m, s, c, n, n + 1);
        assert(n - 1 + 1 == n);
    } else {
        let p = lemma_reach_back(m, f, c, n);
        lemma_reach_shift(m, s, f, p, n - 1);
        lemma_reach_step(m, s, p, c, n);
    }
}

/// A route found from `s` is, from its first step onwards, a nearest route
/// from that first step: searching again from there reaches a destination,
/// and every nearest route from there is exactly one step shorter.
pub proof fn lemma_route_round_trip(
    m: Map<HexCoord, State>,
    s: HexCoord,
    t: Target,
    dest: HexCoord,
    path: Seq<HexCoord>,
)
    requires
        nearest_route(m, s, t, dest, path),
        path.len() >= 1,
    ensures
        forall|i: int| 0 <= i < path.len() ==> adjacent(#[trigger] step_from(s, path, i), path[i]),
        nearest_route(m, path.last(), t, dest, path.drop_last()),
        target_within(m, path.last(), t, (path.len() - 1)),
        forall|other_dest: HexCoord, other: Seq<HexCoord>| #[trigger] nearest_route(m, path.last(), t, other_dest, other)
            ==> other.len() == path.len() - 1,
{
    let f = path.last();
    let n = path.len();
    let rest = path.drop_last();
    assert(step_from(s, path, n - 1) == s);
    assert forall|i: int| 0 <= i < rest.len() implies adjacent(#[trigger] step_from(f, rest, i), rest[i])
        && passable(m, step_from(f, rest, i)) by {
        assert(step_from(f, rest, i) == step_from(s, path, i));
    }
    if rest.len() > 0 {
        lemma_path_reach(m, f, rest, 0);
        assert(in_reach(m, f, dest, (n - 1)));
    } else {
        assert(in_reach(m, f, dest, 0));
    }
    assert(target_within(m, f, t, (n - 1)));
    if rest.len() > 0 && target_within(m, f, t, (rest.len() - 1)) {
        let c = choose|c: HexCoord| #[trigger] in_reach(m, f, c, (rest.len() - 1)) && is_target(m, t, c);
        lemma_reach_shift(m, s, f, c, (rest.len() - 1));
        assert(in_reach(m, s, c, (n - 1)));
    }
    assert forall|other_dest: HexCoord, other: Seq<HexCoord>| #[trigger] nearest_route(m, f, t, other_dest, other)
        implies other.len() == n - 1 by {
        if other.len() > 0 {
            lemma_path_reach(m, f, other, 0);
        }
        assert(in_reach(m, f, other_dest, other.len() as int));
        lemma_reach_shift(m, s, f, other_dest, other.len() as int);
        if other.len() + 1 < n {
            lemma_reach_mono(m, s, other_dest, other.len() + 1int, (n - 1));
        }
        if other.len() > n - 1 {
            lemma_reach_mono(m, f, dest, (n - 1), (other.len() - 1));
        }
    }
}

/// Appends the neighbours of `p` from direction `d` on that `ns` does not
/// hold yet, in direction order.
pub open spec fn add_neighbors(ns: Seq<HexCoord>, p: HexCoord, d: int) -> Seq<HexCoord>
    decreases 6 - d,
{
    if d >= 6 {
        ns
    } else {
        let q = neighbor(p, d);
        add_neighbors(if ns.contains(q) { ns } else { ns.push(q) }, p, d + 1)
    }
}

/// Expands the nodes `ns[i..hi]` in order: each passable one adds its new
/// neighbours.
pub open spec fn expand(m: Map<HexCoord, State>, ns: Seq<HexCoord>, i: int, hi: int) -> Seq<HexCoord>
    decreases hi - i,
{
    if i >= hi || i < 0 || i >= ns.len() {
        ns
    } else {
        let p = ns[i];
        expand(m, if passable(m, p) { add_neighbors(ns, p, 0) } else { ns }, i + 1, hi)
    }
}

/// The nodes a breadth-first search from `s` has discovered by level `k`,
/// in discovery order, and where level `k` starts among them.
pub open spec fn bfs_state(m: Map<HexCoord, State>, s: HexCoord, k: int) -> (Seq<HexCoord>, int)
    decreases k,
{
    if k <= 0 {
        (seq![s], 0)
    } else {
        let (ns, lo) = bfs_state(m, s, k - 1);
        (expand(m, ns, lo, ns.len() as int), ns.len() as int)
    }
}

/// `dest` is the first node of level `k` of the search that satisfies the
/// target.
pub open spec fn first_in_level(m: Map<HexCoord, State>, s: HexCoord, t: Target, k: int, dest: HexCoord) -> bool {
    let (ns, lo) = bfs_state(m, s, k);
    exists|j: int| {
        &&& lo <= j < ns.len()
        &&& #[trigger] ns[j] == dest
        &&& forall|i: int| lo <= i < j ==> !is_target(m, t, #[trigger] ns[i])
    }
}

/// A stable layer stays stable: once a step adds nothing, no later one does.
pub proof fn lemma_reach_stable(m: Map<HexCoord, State>, s: HexCoord, k: int, n: int)
    requires
        0 <= k <= n,
        reach_set(m, s, k + 1) == reach_set(m, s, k),
    ensures
        reach_set(m, s, n) == reach_set(m, s, k),
    decreases n - k,
{
    if n > k {
        lemma_reach_stable(m, s, k, n - 1);
        assert(reach_set(m, s, n) == grow(m, reach_set(m, s, n - 1)));
        assert(reach_set(m, s, k + 1) == grow(m, reach_set(m, s, k)));
    }
}

fn is_target_exec(map: &TileMap, t: Target, c: &HexCoord) -> (b: bool)
    requires
        map.store_ok(),
    ensures
        b == is_target(states(map@), t, *c),
{
    match t {
        Target::BreakShop => map.is_coffee(c),
        Target::Coord(h) => map.get(c).is_some() && *c == h,
    }
}

fn index_of(v: &Vec<HexCoord>, c: &HexCoord) -> (r: Option<usize>)
    ensures
        match r {
            Some(i) => i < v@.len() && v@[i as int] == *c,
            None => !v@.contains(*c),
        },
{
    let mut i: usize = 0;
    while i < v.len()
        invariant
            i <= v@.len(),
            forall|j: int| 0 <= j < i ==> v@[j] != *c,
        decreases v@.len() - i,
    {
        if v[i] == *c {
            return Some(i);
        }
        i += 1;
    }
    None
}

/// The search tree: each node but the first points to a passable adjacent
/// node one level shallower.
pub open spec fn tree_ok(
    m: Map<HexCoord, State>,
    s: HexCoord,
    nodes: Seq<HexCoord>,
    parent: Seq<usize>,
    depth: Seq<int>,
) -> bool {
    &&& nodes.len() == parent.len() == depth.len()
    &&& nodes.len() >= 1
    &&& nodes[0] == s
    &&& depth[0] == 0
    &&& forall|i: int| 0 < i < nodes.len() ==> {
        &&& (#[trigger] parent[i]) < i
        &&& depth[parent[i] as int] + 1 == depth[i]
        &&& adjacent(nodes[parent[i] as int], nodes[i])
        &&& passable(m, nodes[parent[i] as int])
    }
    &&& forall|i: int| 0 <= i < nodes.len() ==> #[trigger] depth[i] >= 0
}

/// Follows the search tree from node `j` back to the start.
fn backtrack(
    nodes: &Vec<HexCoord>,
    parent: &Vec<usize>,
    Ghost(depth): Ghost<Seq<int>>,
    Ghost(m): Ghost<Map<HexCoord, State>>,
    Ghost(s): Ghost<HexCoord>,
    j: usize,
) -> (path: Vec<HexCoord>)
    requires
        tree_ok(m, s, nodes@, parent@, depth),
        j < nodes@.len(),
    ensures
        valid_path(m, s, path@),
        path@.len() == depth[j as int],
        if path@.len() == 0 { nodes@[j as int] == s } else { path@[0] == nodes@[j as int] },
{
    let mut path: Vec<HexCoord> = Vec::new();
    let mut cur: usize = j;
    while cur != 0
        invariant
            tree_ok(m, s, nodes@, parent@, depth),
            cur < nodes@.len(),
            j < nodes@.len(),
            valid_path(m, nodes@[cur as int], path@),
            path@.len() + depth[cur as int] == depth[j as int],
            if path@.len() == 0 { cur == j } else { path@[0] == nodes@[j as int] },
        decreases cur,
    {
        let p = parent[cur];
        let ghost old_path = path@;
        let ghost old_start = nodes@[cur as int];
        assert(parent@[cur as int] == p);
        path.push(nodes[cur]);
        proof {
            assert forall|i: int| 0 <= i < path@.len() implies adjacent(#[trigger] step_from(nodes@[p as int], path@, i), path@[i])
                && passable(m, step_from(nodes@[p as int], path@, i)) by {
                if i < old_path.len() {
                    assert(step_from(nodes@[p as int], path@, i) == step_from(old_start, old_path, i));
                }
            }
        }
        cur = p;
    }
    path
}

/// Breadth-first search from `start` for the nearest coordinate satisfying
/// `target`. On success it returns that destination and the path to it,
/// listed from the destination back towards `start` (which it leaves out);
/// among equally near destinations the first one the search meets wins.
/// It fails exactly when no destination can be reached.
#[verifier::loop_isolation(false)]
pub fn find_path(map: &TileMap, start: HexCoord, target: Target) -> (r: Option<(HexCoord, Vec<HexCoord>)>)
    requires
        map.wf(),
    ensures
        match r {
            Some((d, path)) => nearest_route(states(map@), start, target, d, path@)
                && first_in_level(states(map@), start, target, path@.len() as int, d),
            None => forall|n: int, c: HexCoord| 0 <= n && #[trigger] in_reach(states(map@), start, c, n)
                ==> !is_target(states(map@), target, c),
        },
{
    let ghost m = states(map@);
    proof {
        assert(m.dom() =~= map@.dom());
    }
    let mut nodes: Vec<HexCoord> = Vec::new();
    nodes.push(start);
    let mut parent: Vec<usize> = Vec::new();
    parent.push(0);
    let ghost mut depth: Seq<int> = seq![0int];
    let ghost mut expanded: Seq<HexCoord> = Seq::empty();
    let ghost mut level: int = 0;
    let mut lo: usize = 0;
    proof {
        assert(in_reach(m, start, start, 0));
        assert forall|c: HexCoord, k: int| 0 <= k <= level && #[trigger] in_reach(m, start, c, k) implies exists|i: int|
            0 <= i < nodes@.len() && nodes@[i] == c && depth[i] <= k by {
            assert(nodes@[0] == c);
        }
    }
    loop
        invariant
            map.wf(),
            m == states(map@),
            tree_ok(m, start, nodes@, parent@, depth),
            0 <= lo < nodes@.len(),
            0 <= level,
            nodes@.no_duplicates(),
            forall|i: int| 0 <= i < lo ==> #[trigger] depth[i] < level,
            forall|i: int| lo <= i < nodes@.len() ==> #[trigger] depth[i] == level,
            forall|i: int| 0 <= i < nodes@.len() ==> in_reach(m, start, #[trigger] nodes@[i], depth[i]),
            forall|c: HexCoord, k: int| 0 <= k <= level && #[trigger] in_reach(m, start, c, k) ==> exists|i: int|
                0 <= i < nodes@.len() && nodes@[i] == c && depth[i] <= k,
            forall|i: int| 0 <= i < lo ==> !is_target(m, target, #[trigger] nodes@[i]),
            expanded.no_duplicates(),
            forall|e: HexCoord| #[trigger] expanded.contains(e) ==> m.contains_key(e),
            expanded.len() <= m.dom().len(),
            forall|e: HexCoord| #[trigger] expanded.contains(e) ==> exists|j: int| 0 <= j < lo && nodes@[j] == e,
            bfs_state(m, start, level) == (nodes@, lo as int),
        decreases m.dom().len() - expanded.len(),
    {
        let hi = nodes.len();
        let mut i: usize = lo;
        while i < hi
            invariant
                map.wf(),
                m == states(map@),
                lo <= i <= hi,
                hi == nodes@.len(),
                forall|j: int| lo <= j < i ==> !is_target(m, target, #[trigger] nodes@[j]),
            decreases hi - i,
        {
            if is_target_exec(map, target, &nodes[i]) {
                let path = backtrack(&nodes, &parent, Ghost(depth), Ghost(m), Ghost(start), i);
                proof {
                    if path@.len() > 0 {
                        assert forall|c: HexCoord| #[trigger] in_reach(m, start, c, path@.len() - 1)
                            implies !is_target(m, target, c) by {
                            let k = path@.len() - 1;
                            let w = choose|w: int| 0 <= w < nodes@.len() && nodes@[w] == c && depth[w] <= k;
                            assert(depth[w] < level);
                            if w >= lo {
                                assert(depth[w] == level);
                            }
                        }
                    }
                    assert(path@.len() == level);
                    let ns = bfs_state(m, start, level).0;
                    assert(ns == nodes@);
                    assert(bfs_state(m, start, level).1 == lo);
                    assert(ns[i as int] == nodes@[i as int]);
                    assert(forall|x: int| lo <= x < i ==> !is_target(m, target, #[trigger] ns[x]));
                    assert(first_in_level(m, start, target, level, nodes@[i as int]));
                }
                return Some((nodes[i], path));
            }
            i += 1;
        }
        let ghost exp_before = expanded;
        let ghost nodes_before = nodes@;
        let ghost depth_before = depth;
        let ghost next = expand(m, nodes_before, lo as int, hi as int);
        let mut i: usize = lo;
        while i < hi
            invariant
                map.wf(),
                m == states(map@),
                lo <= i <= hi,
                hi <= nodes@.len(),
                hi == nodes_before.len(),
                nodes@.subrange(0, hi as int) == nodes_before,
                depth.subrange(0, hi as int) == depth_before,
                tree_ok(m, start, nodes@, parent@, depth),
                nodes@.no_duplicates(),
                forall|j: int| 0 <= j < lo ==> #[trigger] depth[j] < level,
                forall|j: int| lo <= j < hi ==> #[trigger] depth[j] == level,
                forall|j: int| hi <= j < nodes@.len() ==> #[trigger] depth[j] == level + 1,
                forall|j: int| 0 <= j < nodes@.len() ==> in_reach(m, start, #[trigger] nodes@[j], depth[j]),
                forall|j: int, d: int| lo <= j < i && passable(m, nodes@[j]) && 0 <= d < 6
                    ==> nodes@.contains(#[trigger] neighbor(nodes@[j], d)),
                expanded.no_duplicates(),
                forall|e: HexCoord| #[trigger] expanded.contains(e) ==> m.contains_key(e),
                forall|e: HexCoord| #[trigger] expanded.contains(e) && !exp_before.contains(e) ==> exists|j: int|
                    lo <= j < i && nodes@[j] == e,
                exp_before.len() <= expanded.len(),
                nodes@.len() > hi ==> expanded.len() > exp_before.len(),
                forall|e: HexCoord| #[trigger] exp_before.contains(e) ==> exists|j: int| 0 <= j < lo && nodes@[j] == e,
                expand(m, nodes@, i as int, hi as int) == next,
            decreases hi - i,
        {
            let c = nodes[i];
            if map.is_passable(&c) {
                proof {
                    assert(!expanded.contains(c)) by {
                        if expanded.contains(c) {
                            if exp_before.contains(c) {
                                let j = choose|j: int| 0 <= j < lo && nodes@[j] == c;
                                assert(nodes@[j] == nodes@[i as int]);
                            } else {
                                let j = choose|j: int| lo <= j < i && nodes@[j] == c;
                                assert(nodes@[j] == nodes@[i as int]);
                            }
                        }
                    }
                    let exp_prev = expanded;
                    expanded = expanded.push(c);
                    assert(expanded[expanded.len() - 1] == c);
                    assert(expanded.contains(c));
                    assert forall|e: HexCoord| #[trigger] expanded.contains(e) implies e == c || exp_prev.contains(e) by {
                        let k = choose|k: int| 0 <= k < expanded.len() && expanded[k] == e;
                        if k < exp_prev.len() {
                            assert(exp_prev[k] == e);
                        }
                    }
                    assert(nodes@[i as int] == c);
                    map.lemma_present_in_range(c);
                }
                let ns = c.neighbors();
                proof {
                    assert(nodes@[i as int] == c);
                    assert(expand(m, nodes@, i as int, hi as int) == expand(m, add_neighbors(nodes@, c, 0), i + 1, hi as int));
                }
                let mut d: usize = 0;
                while d < 6
                    invariant
                        map.wf(),
                        m == states(map@),
                        lo <= i < hi,
                        hi <= nodes@.len(),
                        hi == nodes_before.len(),
                        nodes@.subrange(0, hi as int) == nodes_before,
                        depth.subrange(0, hi as int) == depth_before,
                        c == nodes@[i as int],
                        passable(m, c),
                        in_range(c),
                        0 <= d <= 6,
                        forall|e: int| 0 <= e < 6 ==> #[trigger] ns@[e] == neighbor(c, e),
                        tree_ok(m, start, nodes@, parent@, depth),
                        nodes@.no_duplicates(),
                        forall|j: int| 0 <= j < lo ==> #[trigger] depth[j] < level,
                        forall|j: int| lo <= j < hi ==> #[trigger] depth[j] == level,
                        forall|j: int| hi <= j < nodes@.len() ==> #[trigger] depth[j] == level + 1,
                        forall|j: int| 0 <= j < nodes@.len() ==> in_reach(m, start, #[trigger] nodes@[j], depth[j]),
                        forall|j: int, e: int| lo <= j < i && passable(m, nodes@[j]) && 0 <= e < 6
                            ==> nodes@.contains(#[trigger] neighbor(nodes@[j], e)),
                        forall|e: int| 0 <= e < d ==> nodes@.contains(#[trigger] neighbor(c, e)),
                        expanded.len() > exp_before.len(),
                        expand(m, add_neighbors(nodes@, c, d as int), i + 1, hi as int) == next,
                    decreases 6 - d,
                {
                    let q = ns[d];
                    let ghost nodes_d = nodes@;
                    proof {
                        assert(add_neighbors(nodes_d, c, d as int) == add_neighbors(
                            if nodes_d.contains(q) { nodes_d } else { nodes_d.push(q) }, c, d + 1));
                    }
                    if index_of(&nodes, &q).is_none() {
                        proof {
                            lemma_adjacent_neighbor(c, q);
                            assert(in_reach(m, start, nodes@[i as int], depth[i as int]));
                            lemma_reach_step(m, start, c, q, level);
                        }
                        let ghost n0 = nodes@;
                        nodes.push(q);
                        parent.push(i);
                        proof {
                            let d0 = depth;
                            depth = depth.push(level + 1);
                            assert(nodes@.subrange(0, hi as int) =~= n0.subrange(0, hi as int));
                            assert(depth.subrange(0, hi as int) =~= d0.subrange(0, hi as int));
                            assert forall|j: int, e: int| lo <= j < i && passable(m, nodes@[j]) && 0 <= e < 6
                                implies nodes@.contains(#[trigger] neighbor(nodes@[j], e)) by {
                                assert(n0.contains(neighbor(n0[j], e)));
                                let w = choose|w: int| 0 <= w < n0.len() && n0[w] == neighbor(n0[j], e);
                                assert(nodes@[w] == n0[w]);
                            }
                            assert forall|e: int| 0 <= e < d + 1 implies nodes@.contains(#[trigger] neighbor(c, e)) by {
                                if e < d {
                                    let w = choose|w: int| 0 <= w < n0.len() && n0[w] == neighbor(c, e);
                                    assert(nodes@[w] == n0[w]);
                                } else {
                                    assert(nodes@[n0.len() as int] == q);
                                }
                            }
                            assert forall|j: int| 0 < j < nodes@.len() implies {
                                &&& (#[trigger] parent@[j]) < j
                                &&& depth[parent@[j] as int] + 1 == depth[j]
                                &&& adjacent(nodes@[parent@[j] as int], nodes@[j])
                                &&& passable(m, nodes@[parent@[j] as int])
                            } by {
                                if j < n0.len() {
                                    assert(nodes@[j] == n0[j]);
                                }
                            }
                        }
                    }
                    d += 1;
                }
                proof {
                    assert(add_neighbors(nodes@, c, 6) == nodes@);
                }
            } else {
                proof {
                    assert(nodes@[i as int] == c);
                    assert(expand(m, nodes@, i as int, hi as int) == expand(m, nodes@, i + 1, hi as int));
                }
            }
            i += 1;
        }
        proof {
            assert(expand(m, nodes@, hi as int, hi as int) == nodes@);
            assert(bfs_state(m, start, level + 1) == (expand(m, nodes_before, lo as int, nodes_before.len() as int), nodes_before.len() as int));
        }
        if nodes.len() == hi {
            proof {
                assert(nodes@ =~= nodes_before);
                assert(depth =~= depth_before);
                assert(reach_set(m, start, level + 1) =~= reach_set(m, start, level)) by {
                    assert forall|c: HexCoord| reach_set(m, start, level + 1).contains(c) implies
                        reach_set(m, start, level).contains(c) by {
                        if !in_reach(m, start, c, level) {
                            let p = lemma_reach_back(m, start, c, level + 1);
                            let w = choose|w: int| 0 <= w < nodes@.len() && nodes@[w] == p && depth[w] <= level;
                            if depth[w] < level {
                                lemma_reach_step(m, start, p, c, depth[w]);
                                lemma_reach_mono(m, start, c, depth[w] + 1, level);
                            } else {
                                assert(w >= lo);
                                map.lemma_present_in_range(p);
                                lemma_adjacent_neighbor(p, c);
                                let e = choose|e: int| 0 <= e < 6 && c == #[trigger] neighbor(p, e);
                                assert(nodes@.contains(neighbor(nodes@[w], e)));
                                let x = choose|x: int| 0 <= x < nodes@.len() && nodes@[x] == c;
                                assert(in_reach(m, start, nodes@[x], depth[x]));
                                lemma_reach_mono(m, start, c, depth[x], level);
                            }
                        }
                    }
                    assert forall|c: HexCoord| reach_set(m, start, level).contains(c) implies
                        reach_set(m, start, level + 1).contains(c) by {
                        lemma_reach_mono(m, start, c, level, level + 1);
                    }
                }
                assert forall|n: int, c: HexCoord| 0 <= n && #[trigger] in_reach(m, start, c, n)
                    implies !is_target(m, target, c) by {
                    if n >= level {
                        lemma_reach_stable(m, start, level, n);
                    } else {
                        lemma_reach_mono(m, start, c, n, level);
                    }
                    assert(in_reach(m, start, c, level));
                    let w = choose|w: int| 0 <= w < nodes@.len() && nodes@[w] == c && depth[w] <= level;
                    if w >= lo {
                        assert(!is_target(m, target, nodes@[w]));
                    }
                }
            }
            return None;
        }
        proof {
            assert forall|c: HexCoord, k: int| 0 <= k <= level + 1 && #[trigger] in_reach(m, start, c, k) implies exists|w: int|
                0 <= w < nodes@.len() && nodes@[w] == c && depth[w] <= k by {
                if k <= level || in_reach(m, start, c, level) {
                    let kk = if k <= level { k } else { level };
                    let w = choose|w: int| 0 <= w < nodes_before.len() && nodes_before[w] == c && depth_before[w] <= kk;
                    assert(nodes@[w] == nodes_before[w]);
                    assert(depth[w] == depth_before[w]);
                } else {
                    let p = lemma_reach_back(m, start, c, level + 1);
                    let w = choose|w: int| 0 <= w < nodes_before.len() && nodes_before[w] == p && depth_before[w] <= level;
                    assert(nodes@[w] == p);
                    assert(depth[w] == depth_before[w]);
                    if depth[w] < level {
                        lemma_reach_step(m, start, p, c, depth[w]);
                        lemma_reach_mono(m, start, c, depth[w] + 1, level);
                    } else {
                        map.lemma_present_in_range(p);
                        lemma_adjacent_neighbor(p, c);
                        let e = choose|e: int| 0 <= e < 6 && c == #[trigger] neighbor(p, e);
                        assert(nodes@.contains(neighbor(nodes@[w], e)));
                        let x = choose|x: int| 0 <= x < nodes@.len() && nodes@[x] == c;
                        assert(depth[x] <= level + 1);
                    }
                }
            }
            assert forall|j: int| 0 <= j < hi implies !is_target(m, target, #[trigger] nodes@[j]) by {
                assert(nodes@[j] == nodes_before[j]);
            }
            expanded.unique_seq_to_set();
            assert(expanded.to_set().subset_of(m.dom()));
            vstd::set_lib::lemma_len_subset(expanded.to_set(), m.dom());
        }
        lo = hi;
        proof {
            level = level + 1;
        }
    }
}

} // verus!
