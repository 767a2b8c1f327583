use vstd::prelude::*;

verus! {

/// The role of a tile.
#[derive(Clone, Copy, Debug, PartialEq, Eq, Structural)]
pub enum State {
    Inactive,
    Active,
    BreakShop,
    Obstacle,
}

impl State {
    pub fn is_obstacle(&self) -> (b: bool)
        ensures
            b == (*self == State::Obstacle),
    {
        matches!(self, State::Obstacle)
    }

    /// Anything but an obstacle can be walked through.
    pub fn is_passable(&self) -> (b: bool)
        ensures
            b == (*self != State::Obstacle),
    {
        !self.is_obstacle()
    }

    pub fn is_coffee(&self) -> (b: bool)
        ensures
            b == (*self == State::BreakShop),
    {
        matches!(self, State::BreakShop)
    }

    /// Only an inactive tile can be turned into a break shop.
    pub fn is_upgradeable(&self) -> (b: bool)
        ensures
            b == (*self == State::Inactive),
    {
        matches!(self, State::Inactive)
    }
}

/// A materialised tile: its role and the counter that belongs to it. For an
/// office (`Active`) the counter is the number of ticks since it last sent a
/// worker; for a break shop it is the number of ticks until it can serve
/// again. Other tiles keep it at zero.
#[derive(Clone, Copy, Debug, PartialEq, Eq, Structural)]
pub struct Tile {
    pub state: State,
    pub counter: u32,
}

impl Tile {
    pub fn fresh(state: State) -> (t: Tile)
        ensures
            t.state == state,
            t.counter == 0,
    {
        Tile { state, counter: 0 }
    }
}

} // verus!
