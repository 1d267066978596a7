//! Cooldown timers driven by the elapsed time handed to each tick.

use vstd::prelude::*;

verus! {

/// A countdown over a fixed period, in microseconds.
///
/// The timer is a plain value: nothing advances it but `tick` and
/// `tick_repeating`, so a run of the simulation can be replayed exactly.
#[derive(Clone, Copy, Debug, PartialEq, Eq)]
pub struct CooldownTimer {
    /// Time left until the timer fires.
    pub remaining: u32,
    /// Length of one full countdown.
    pub period: u32,
}

impl CooldownTimer {
    /// The timer has run down.
    pub open spec fn is_finished(self) -> bool {
        self.remaining == 0
    }

    /// The timer after `elapsed` microseconds, when it stops at zero.
    pub open spec fn ticked(self, elapsed: u32) -> CooldownTimer {
        CooldownTimer {
            remaining: if elapsed >= self.remaining {
                0u32
            } else {
                (self.remaining - elapsed) as u32
            },
            period: self.period,
        }
    }

    /// The timer wound up again.
    pub open spec fn rewound(self) -> CooldownTimer {
        CooldownTimer { remaining: self.period, period: self.period }
    }

    /// How often a repeating timer fires within `elapsed` microseconds.
    /// A timer without a period fires once per tick.
    pub open spec fn fires(self, elapsed: u32) -> int {
        if elapsed < self.remaining {
            0
        } else if self.period == 0 {
            1
        } else {
            1 + (elapsed - self.remaining) / (self.period as int)
        }
    }

    /// A repeating timer after `elapsed` microseconds: what is left over of
    /// `elapsed` after the last firing counts toward the next one.
    pub open spec fn cycled(self, elapsed: u32) -> CooldownTimer {
        CooldownTimer {
            remaining: if elapsed < self.remaining {
                (self.remaining - elapsed) as u32
            } else if self.period == 0 {
                0u32
            } else {
                (self.period - (elapsed - self.remaining) % (self.period as int)) as u32
            },
            period: self.period,
        }
    }

    /// Time counted toward the next firing, for a timer that is within its
    /// period.
    pub open spec fn progress(self) -> int {
        self.period - self.remaining
    }

    /// A timer that fires after one full period.
    pub fn new(period: u32) -> (t: CooldownTimer)
        ensures
            t == (CooldownTimer { remaining: period, period }),
    {
        CooldownTimer { remaining: period, period }
    }

    /// A timer that has already run down and fires at the next tick.
    pub fn elapsed(period: u32) -> (t: CooldownTimer)
        ensures
            t == (CooldownTimer { remaining: 0, period }),
    {
        CooldownTimer { remaining: 0, period }
    }

    /// Whether the timer has run down.
    pub fn finished(&self) -> (done: bool)
        ensures
            done == self.is_finished(),
    {
        self.remaining == 0
    }

    /// Advances the timer and reports whether it has run down. A timer that
    /// has run down stays so until `reset`.
    pub fn tick(&mut self, elapsed: u32) -> (fired: bool)
        ensures
            *final(self) == old(self).ticked(elapsed),
            fired == (elapsed >= old(self).remaining),
            fired == final(self).is_finished(),
    {
        if elapsed >= self.remaining {
            self.remaining = 0;
        } else {
            self.remaining = self.remaining - elapsed;
        }
        self.remaining == 0
    }

    /// Winds the timer up for another full period.
    pub fn reset(&mut self)
        ensures
            *final(self) == old(self).rewound(),
    {
        self.remaining = self.period;
    }

    /// Advances a repeating timer, which winds itself up whenever it fires,
    /// and returns how many times it fired.
    pub fn tick_repeating(&mut self, elapsed: u32) -> (fired: u64)
        ensures
            *final(self) == old(self).cycled(elapsed),
            fired == old(self).fires(elapsed),
    {
        if elapsed < self.remaining {
            self.remaining = self.remaining - elapsed;
            0
        } else if self.period == 0 {
            self.remaining = 0;
            1
        } else {
            let over: u32 = elapsed - self.remaining;
            let whole: u32 = over / self.period;
            let part: u32 = over % self.period;
            self.remaining = self.period - part;
            whole as u64 + 1
        }
    }
}

/// A repeating timer within its period keeps count of all the time it was
/// given: what it has fired times its period, plus its progress, grows by
/// exactly the elapsed time.
pub proof fn lemma_cycled_keeps_time(t: CooldownTimer, elapsed: u32)
    requires
        0 < t.period,
        0 < t.remaining <= t.period,
    ensures
        0 < t.cycled(elapsed).remaining <= t.period,
        t.fires(elapsed) >= 0,
        t.fires(elapsed) * t.period + t.cycled(elapsed).progress() == t.progress() + elapsed,
{
    if elapsed >= t.remaining {
        let over: int = elapsed - t.remaining;
        let p: int = t.period as int;
        vstd::arithmetic::div_mod::lemma_fundamental_div_mod(over, p);
        assert((1 + over / p) * p == p + p * (over / p)) by (nonlinear_arith);
        assert(over / p >= 0) by (nonlinear_arith)
            requires
                over >= 0,
                p > 0,
        ;
    }
}

/// The time that the first `n` of `dts` add up to.
pub open spec fn elapsed_in(dts: Seq<u32>, n: int) -> int
    decreases n,
{
    if n <= 0 {
        0
    } else {
        elapsed_in(dts, n - 1) + dts[n - 1]
    }
}

/// Elapsed time never goes back.
pub proof fn lemma_elapsed_grows(dts: Seq<u32>, n: int)
    requires
        0 <= n,
    ensures
        0 <= elapsed_in(dts, n) <= elapsed_in(dts, n + 1),
    decreases n,
{
    if n > 0 {
        lemma_elapsed_grows(dts, n - 1);
    }
}

} // verus!
