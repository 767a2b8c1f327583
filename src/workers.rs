use vstd::prelude::*;

use crate::hex::HexCoord;

verus! {

/// A worker who has waited this many ticks without being served gives up.
pub const MAX_WAITING_TICKS: u32 = 50;

/// Taken from the balance when a worker gives up waiting.
pub const FEE_FOR_OVERWAIT: u64 = 5;

/// The reward for a trip of `len` tiles: `ceil(2.5 - len / 2)`, floored at
/// zero, so 3, 2, 2, 1, 1 and then nothing.
pub open spec fn reward_for(len: int) -> int {
    if len >= 5 { 0 } else { (6 - len) / 2 }
}

/// The reward a worker brings for a trip of `path_len` tiles.
pub fn money_for_path(path_len: usize) -> (r: u8)
    ensures
        r == reward_for(path_len as int),
{
    if path_len >= 5 {
        0
    } else {
        ((6 - path_len) / 2) as u8
    }
}

/// Longer trips never pay more, and no trip pays less than nothing.
pub proof fn lemma_reward_non_increasing(a: int, b: int)
    requires
        0 <= a <= b,
    ensures
        0 <= reward_for(b) <= reward_for(a),
{
}

/// How long a worker has been waiting at its break shop.
#[derive(Clone, Copy, Debug, PartialEq, Eq, Structural)]
pub struct WaitingWorker(pub u32);

impl WaitingWorker {
    /// The worker has waited too long.
    pub fn is_dead(&self) -> (b: bool)
        ensures
            b == (self.0 >= MAX_WAITING_TICKS),
    {
        self.0 >= MAX_WAITING_TICKS
    }
}

/// Where a worker is in its round trip.
#[derive(Clone, Copy, Debug, PartialEq, Eq, Structural)]
pub enum WorkerState {
    /// Walking its path, to the break shop or, once served, back home.
    Traveling,
    /// At the break shop, not yet served.
    Waiting(WaitingWorker),
    /// Home again, or gave up waiting: to be removed.
    Gone,
}

/// One round trip from an office to a break shop and back.
#[derive(Clone, Debug)]
pub struct Worker {
    pub home: HexCoord,
    pub coffee: HexCoord,
    /// What is left to walk, from the far end back: the next step is last.
    pub path: Vec<HexCoord>,
    /// Set once the worker has been served.
    pub waited_for_coffee: bool,
    /// Credited when the worker is served.
    pub will_bring_money: u8,
    pub state: WorkerState,
}

/// The worker is waiting, unserved, at `shop`.
pub open spec fn waits_at(w: Worker, shop: HexCoord) -> bool {
    w.state is Waiting && !w.waited_for_coffee && w.coffee == shop
}

/// The effect of one travel step on a traveling worker: take the next step,
/// or, with nothing left to walk, start waiting (if not yet served) or go.
pub open spec fn stepped(w: Worker, v: Worker) -> bool {
    &&& v.home == w.home
    &&& v.coffee == w.coffee
    &&& v.waited_for_coffee == w.waited_for_coffee
    &&& v.will_bring_money == w.will_bring_money
    &&& if w.path@.len() > 0 {
        v.path@ == w.path@.drop_last() && v.state == WorkerState::Traveling
    } else {
        v.path@ == w.path@ && v.state == if w.waited_for_coffee {
            WorkerState::Gone
        } else {
            WorkerState::Waiting(WaitingWorker(0))
        }
    }
}

/// The effect of one expiry pass on a worker: a waiting one waits one tick
/// longer and is gone once it reaches the ceiling; others are untouched.
pub open spec fn aged(w: Worker, v: Worker) -> bool {
    match w.state {
        WorkerState::Waiting(t) => {
            &&& v.home == w.home
            &&& v.coffee == w.coffee
            &&& v.path@ == w.path@
            &&& v.waited_for_coffee == w.waited_for_coffee
            &&& v.will_bring_money == w.will_bring_money
            &&& if t.0 + 1 >= MAX_WAITING_TICKS {
                v.state == WorkerState::Gone
            } else {
                v.state == WorkerState::Waiting(WaitingWorker((t.0 + 1) as u32))
            }
        },
        _ => v == w,
    }
}

/// The worker gives up in this expiry pass.
pub open spec fn expires(w: Worker) -> bool {
    match w.state {
        WorkerState::Waiting(t) => t.0 + 1 >= MAX_WAITING_TICKS,
        _ => false,
    }
}

impl Worker {
    /// A worker leaving `home` for `coffee` along `path`; the reward is
    /// fixed now from the length of the path.
    pub fn new(home: HexCoord, coffee: HexCoord, path: Vec<HexCoord>) -> (w: Worker)
        ensures
            w.home == home,
            w.coffee == coffee,
            w.path@ == path@,
            !w.waited_for_coffee,
            w.will_bring_money == reward_for(path@.len() as int),
            w.state == WorkerState::Traveling,
    {
        let will_bring_money = money_for_path(path.len());
        Worker { home, coffee, path, waited_for_coffee: false, will_bring_money, state: WorkerState::Traveling }
    }

    /// One travel step; returns the coordinate stepped onto, if any.
    pub fn step(&mut self) -> (next: Option<HexCoord>)
        requires
            old(self).state == WorkerState::Traveling,
        ensures
            stepped(*old(self), *final(self)),
            next == if old(self).path@.len() > 0 {
                Some(old(self).path@.last())
            } else {
                None::<HexCoord>
            },
    {
        match self.path.pop() {
            Some(c) => Some(c),
            None => {
                if self.waited_for_coffee {
                    self.state = WorkerState::Gone;
                } else {
                    self.state = WorkerState::Waiting(WaitingWorker(0));
                }
                None
            },
        }
    }

    /// One expiry pass; returns whether the worker gave up.
    pub fn age(&mut self) -> (dead: bool)
        ensures
            aged(*old(self), *final(self)),
            dead == expires(*old(self)),
    {
        match self.state {
            WorkerState::Waiting(t) => {
                let n: u32 = if t.0 < MAX_WAITING_TICKS { t.0 + 1 } else { MAX_WAITING_TICKS };
                let ww = WaitingWorker(n);
                if ww.is_dead() {
                    self.state = WorkerState::Gone;
                    true
                } else {
                    self.state = WorkerState::Waiting(ww);
                    false
                }
            },
            _ => false,
        }
    }
}

} // verus!
