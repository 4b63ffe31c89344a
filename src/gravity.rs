//! The clock that paces gravity: elapsed time accumulates, and each time a
//! full period has passed one step of descent is due.

use vstd::arithmetic::div_mod::{lemma_mod_sub_multiples_vanish, lemma_small_mod};
use vstd::prelude::*;

verus! {

/// A quarter of a second, in microseconds: four steps of descent a second.
pub const DEFAULT_PERIOD_MICROS: u64 = 250_000;

/// Mathematical model of a gravity timer.
pub struct TimerView {
    pub period: int,
    pub elapsed: int,
}

impl TimerView {
    /// The period is positive and less than one period has accumulated.
    pub open spec fn wf(self) -> bool {
        0 <= self.elapsed < self.period
    }
}

/// Accumulates elapsed time, in microseconds, against a fixed period.
pub struct GravityTimer {
    period: u64,
    elapsed: u64,
}

impl View for GravityTimer {
    type V = TimerView;

    closed spec fn view(&self) -> TimerView {
        TimerView { period: self.period as int, elapsed: self.elapsed as int }
    }
}

impl GravityTimer {
    /// A timer with nothing accumulated; `None` when `period` is zero.
    pub fn new(period: u64) -> (r: Option<GravityTimer>)
        ensures
            r.is_none() <==> period == 0,
            r matches Some(t) ==> (t@ == (TimerView { period: period as int, elapsed: 0 })),
    {
        if period == 0 {
            None
        } else {
            Some(GravityTimer { period, elapsed: 0 })
        }
    }

    /// Time accumulated since the last step, in microseconds.
    pub fn elapsed(&self) -> (r: u64)
        ensures
            r == self@.elapsed,
    {
        self.elapsed
    }

    /// Adds `dt` microseconds; returns whether a period boundary was
    /// crossed, in which case one step of descent is due. What lies beyond
    /// the boundary is kept, modulo the period.
    pub fn advance(&mut self, dt: u64) -> (r: bool)
        requires
            old(self)@.wf(),
        ensures
            r == (old(self)@.elapsed + dt >= old(self)@.period),
            final(self)@.period == old(self)@.period,
            final(self)@.elapsed == (old(self)@.elapsed + dt) % old(self)@.period,
            final(self)@.wf(),
    {
        let room = self.period - self.elapsed;
        if dt >= room {
            let rest = dt - room;
            proof {
                lemma_mod_sub_multiples_vanish(
                    self.elapsed + dt as int,
                    self.period as int,
                );
            }
            self.elapsed = rest % self.period;
            true
        } else {
            proof {
                lemma_small_mod((self.elapsed + dt) as nat, self.period as nat);
            }
            self.elapsed = self.elapsed + dt;
            false
        }
    }
}

} // verus!
