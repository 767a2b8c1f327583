use vstd::prelude::*;
use vstd::arithmetic::power::pow;

verus! {

/// Countdown before the first ring expansion, in milliseconds.
pub const START_RING_TIMER_MS: u64 = 10000;

/// Factor by which each countdown is longer than the one before.
pub const RING_TIMER_MULTIPLIER: u64 = 2;

/// The countdown length after `n` expirations: each expiration multiplies it
/// by `m`, saturating at the largest `u64`.
pub open spec fn duration_after(initial: nat, m: nat, n: nat) -> nat
    decreases n,
{
    if n == 0 {
        initial
    } else {
        let p = duration_after(initial, m, (n - 1) as nat) * m;
        if p <= u64::MAX { p } else { u64::MAX as nat }
    }
}

/// `b` is `a` after running for `elapsed` milliseconds; `fired` tells
/// whether the countdown ran out, which starts the next, longer one.
pub open spec fn timer_ran(a: NextRingTimer, b: NextRingTimer, elapsed: u64, fired: bool) -> bool {
    &&& b.wf()
    &&& b.duration_spec() == duration_after(b.initial_spec(), b.multiplier_spec(), b.expirations())
    &&& b.initial_spec() == a.initial_spec()
    &&& b.multiplier_spec() == a.multiplier_spec()
    &&& fired == (elapsed >= a.remaining_spec())
    &&& fired ==> b.expirations() == a.expirations() + 1 && b.remaining_spec() == b.duration_spec()
    &&& !fired ==> b.expirations() == a.expirations() && b.duration_spec() == a.duration_spec()
        && b.remaining_spec() == a.remaining_spec() - elapsed
}

/// The countdown to the next ring expansion.
pub struct NextRingTimer {
    initial: u64,
    multiplier: u64,
    duration: u64,
    remaining: u64,
    expirations: Ghost<nat>,
}

impl NextRingTimer {
    pub closed spec fn initial_spec(&self) -> nat {
        self.initial as nat
    }

    pub closed spec fn multiplier_spec(&self) -> nat {
        self.multiplier as nat
    }

    pub closed spec fn duration_spec(&self) -> nat {
        self.duration as nat
    }

    pub closed spec fn remaining_spec(&self) -> nat {
        self.remaining as nat
    }

    /// How many times the countdown has run out.
    pub closed spec fn expirations(&self) -> nat {
        self.expirations@
    }

    pub closed spec fn wf(&self) -> bool {
        &&& self.initial >= 1
        &&& self.multiplier >= 2
        &&& self.duration == duration_after(self.initial as nat, self.multiplier as nat, self.expirations@)
        &&& self.remaining <= self.duration
    }

    pub fn new(initial_ms: u64, multiplier: u64) -> (t: NextRingTimer)
        requires
            initial_ms >= 1,
            multiplier >= 2,
        ensures
            t.wf(),
            t.initial_spec() == initial_ms,
            t.multiplier_spec() == multiplier,
            t.expirations() == 0,
            t.duration_spec() == initial_ms,
            t.remaining_spec() == initial_ms,
    {
        NextRingTimer {
            initial: initial_ms,
            multiplier,
            duration: initial_ms,
            remaining: initial_ms,
            expirations: Ghost(0),
        }
    }

    pub fn duration(&self) -> (d: u64)
        ensures
            d == self.duration_spec(),
    {
        self.duration
    }

    pub fn remaining(&self) -> (r: u64)
        ensures
            r == self.remaining_spec(),
    {
        self.remaining
    }

    /// The share of the countdown still to run, in whole percent.
    pub fn percent_left(&self) -> (p: u64)
        requires
            self.wf(),
        ensures
            p == self.remaining_spec() * 100 / self.duration_spec(),
            p <= 100,
    {
        proof {
            assert(self.duration >= 1) by {
                lemma_duration_positive(self.initial as nat, self.multiplier as nat, self.expirations@);
            }
            assert((self.remaining as int) * 100 / (self.duration as int) <= 100) by (nonlinear_arith)
                requires self.remaining <= self.duration, self.duration >= 1;
        }
        ((self.remaining as u128 * 100) / (self.duration as u128)) as u64
    }

    /// Runs the countdown for `elapsed_ms`. When it reaches zero the timer
    /// fires: the call returns `true` and a new countdown starts, `multiplier`
    /// times as long as the last one. Time left over past zero is dropped.
    pub fn update(&mut self, elapsed_ms: u64) -> (fired: bool)
        requires
            old(self).wf(),
        ensures
            timer_ran(*old(self), *final(self), elapsed_ms, fired),
    {
        if elapsed_ms >= self.remaining {
            let next: u64 = match self.duration.checked_mul(self.multiplier) {
                Some(p) => p,
                None => u64::MAX,
            };
            proof {
                assert(duration_after(self.initial as nat, self.multiplier as nat, self.expirations@ + 1)
                    == if self.duration * self.multiplier <= u64::MAX {
                        (self.duration * self.multiplier) as nat
                    } else {
                        u64::MAX as nat
                    });
            }
            self.duration = next;
            self.remaining = next;
            self.expirations = Ghost(self.expirations@ + 1);
            true
        } else {
            self.remaining = self.remaining - elapsed_ms;
            false
        }
    }
}

impl Default for NextRingTimer {
    fn default() -> (t: NextRingTimer)
        ensures
            t.wf(),
            t.initial_spec() == START_RING_TIMER_MS,
            t.multiplier_spec() == RING_TIMER_MULTIPLIER,
            t.expirations() == 0,
            t.duration_spec() == START_RING_TIMER_MS,
            t.remaining_spec() == START_RING_TIMER_MS,
    {
        NextRingTimer::new(START_RING_TIMER_MS, RING_TIMER_MULTIPLIER)
    }
}

proof fn lemma_duration_positive(initial: nat, m: nat, n: nat)
    requires
        initial >= 1,
        m >= 1,
    ensures
        duration_after(initial, m, n) >= 1,
    decreases n,
{
    if n > 0 {
        lemma_duration_positive(initial, m, (n - 1) as nat);
        let d = duration_after(initial, m, (n - 1) as nat);
        assert(d * m >= 1) by (nonlinear_arith)
            requires d >= 1, m >= 1;
    }
}

/// While it fits in a `u64`, the countdown after `n` expirations is
/// `initial * m^n`, and each expiration makes the next countdown strictly
/// longer.
pub proof fn lemma_countdown_growth(initial: nat, m: nat, n: nat)
    requires
        initial >= 1,
        m >= 2,
        initial * pow(m as int, n + 1) <= u64::MAX,
    ensures
        duration_after(initial, m, n) == initial * pow(m as int, n),
        duration_after(initial, m, n + 1) == initial * pow(m as int, n + 1),
        duration_after(initial, m, n) < duration_after(initial, m, n + 1),
    decreases n,
{
    vstd::arithmetic::power::lemma_pow_positive(m as int, n);
    vstd::arithmetic::power::lemma_pow_adds(m as int, n, 1);
    vstd::arithmetic::power::lemma_pow1(m as int);
    let p = pow(m as int, n);
    assert(pow(m as int, n + 1) == p * m);
    assert(initial * (p * m) == (initial * p) * m) by (nonlinear_arith);
    if n == 0 {
        vstd::arithmetic::power::lemma_pow0(m as int);
        assert(duration_after(initial, m, 0) == initial);
    } else {
        let q = pow(m as int, (n - 1) as nat);
        vstd::arithmetic::power::lemma_pow_adds(m as int, (n - 1) as nat, 1);
        vstd::arithmetic::power::lemma_pow_positive(m as int, (n - 1) as nat);
        assert(p == q * m);
        assert(initial * p <= initial * (p * m)) by (nonlinear_arith)
            requires m >= 2, p >= 1, initial >= 1;
        lemma_countdown_growth(initial, m, (n - 1) as nat);
        assert((n - 1) as nat + 1 == n);
    }
    assert(duration_after(initial, m, n + 1) == duration_after(initial, m, n) * m);
    assert(initial * p < (initial * p) * m) by (nonlinear_arith)
        requires m >= 2, p >= 1, initial >= 1;
}

} // verus!
