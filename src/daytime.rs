use vstd::prelude::*;

verus! {

pub const MINUTES_IN_TICK: u32 = 1;

/// Ticks the clock advances by on each firing of the fixed-rate driver.
pub const TICKS_IN_RUN: u32 = 1;

/// Ticks in one day.
pub const MAX_TICKS: u32 = 1440;

/// One discrete simulation step.
#[derive(Clone, Copy, Debug, PartialEq, Eq, Structural)]
pub struct TickEvent;

/// The day counter and the time of day, in ticks since midnight.
#[derive(Clone, Copy, Debug, PartialEq, Eq, Structural)]
pub struct Daytime {
    day: u32,
    tick: u32,
}

impl Daytime {
    pub closed spec fn day_spec(&self) -> int {
        self.day as int
    }

    pub closed spec fn tick_spec(&self) -> int {
        self.tick as int
    }

    /// Ticks elapsed since the start of day zero.
    pub open spec fn total(&self) -> int {
        self.day_spec() * MAX_TICKS + self.tick_spec()
    }

    pub closed spec fn wf(&self) -> bool {
        self.tick < MAX_TICKS
    }

    /// The time of day is below one day's worth of ticks.
    pub proof fn lemma_bounds(&self)
        requires
            self.wf(),
        ensures
            0 <= self.tick_spec() < MAX_TICKS,
            0 <= self.day_spec() <= u32::MAX,
    {
    }

    /// Day one, at midnight.
    pub fn new() -> (d: Daytime)
        ensures
            d.wf(),
            d.day_spec() == 1,
            d.tick_spec() == 0,
    {
        Daytime { day: 1, tick: 0 }
    }

    pub fn day(&self) -> (d: u32)
        ensures
            d == self.day_spec(),
    {
        self.day
    }

    pub fn get_minutes(&self) -> (m: u32)
        ensures
            m == (self.tick_spec() * MINUTES_IN_TICK) % 60,
    {
        proof {
            assert(self.tick * MINUTES_IN_TICK == self.tick);
        }
        self.tick % 60
    }

    pub fn get_hours(&self) -> (h: u32)
        ensures
            h == (self.tick_spec() * MINUTES_IN_TICK) / 60,
    {
        proof {
            assert(self.tick * MINUTES_IN_TICK == self.tick);
        }
        self.tick / 60
    }

    /// Advances by `ticks`, carrying whole days into the day counter.
    pub fn add(&mut self, ticks: u32)
        requires
            old(self).wf(),
            old(self).day_spec() + (old(self).tick_spec() + ticks) / (MAX_TICKS as int) <= u32::MAX,
        ensures
            final(self).wf(),
            final(self).total() == old(self).total() + ticks,
            final(self).day_spec() == old(self).day_spec() + (old(self).tick_spec() + ticks) / (MAX_TICKS as int),
            final(self).tick_spec() == (old(self).tick_spec() + ticks) % (MAX_TICKS as int),
    {
        let t: u64 = self.tick as u64 + ticks as u64;
        let carry: u64 = t / (MAX_TICKS as u64);
        self.day = (self.day as u64 + carry) as u32;
        self.tick = (t % (MAX_TICKS as u64)) as u32;
        assert(t == carry * MAX_TICKS + t % (MAX_TICKS as u64));
    }

    /// One firing of the fixed-rate driver: advances the clock by
    /// `TICKS_IN_RUN` and emits one tick for each.
    pub fn advance(&mut self) -> (ticks: Vec<TickEvent>)
        requires
            old(self).wf(),
            old(self).day_spec() < u32::MAX,
        ensures
            final(self).wf(),
            ticks@.len() == TICKS_IN_RUN,
            final(self).total() == old(self).total() + TICKS_IN_RUN,
            final(self).day_spec() == old(self).day_spec() + (old(self).tick_spec() + TICKS_IN_RUN) / (MAX_TICKS as int),
            final(self).tick_spec() == (old(self).tick_spec() + TICKS_IN_RUN) % (MAX_TICKS as int),
    {
        self.add(TICKS_IN_RUN);
        let mut ticks: Vec<TickEvent> = Vec::new();
        let mut i: u32 = 0;
        while i < TICKS_IN_RUN
            invariant
                i <= TICKS_IN_RUN,
                ticks@.len() == i,
            decreases TICKS_IN_RUN - i,
        {
            ticks.push(TickEvent);
            i += 1;
        }
        ticks
    }
}

} // verus!
