use vstd::prelude::*;

verus! {

/// A countdown measured in milliseconds.
///
/// A one-shot timer stops at its duration until it is reset. A repeating
/// timer wraps around and reports `finished` only on the tick in which it
/// crossed its duration.
#[derive(Clone, Copy, Debug, PartialEq, Eq, Structural)]
pub struct Timer {
    pub duration: u64,
    pub elapsed: u64,
    pub repeating: bool,
    pub crossed: bool,
}

impl Timer {
    pub open spec fn wf(self) -> bool {
        &&& self.elapsed <= self.duration
        &&& (self.repeating && self.duration > 0 ==> self.elapsed < self.duration)
    }

    pub open spec fn finished_spec(self) -> bool {
        if self.repeating {
            self.crossed
        } else {
            self.elapsed >= self.duration
        }
    }

    /// The state of `self` after `delta` milliseconds.
    pub open spec fn tick_spec(self, delta: nat) -> Timer {
        let total = self.elapsed + delta;
        if !self.repeating {
            Timer {
                elapsed: if total >= self.duration { self.duration } else { total as u64 },
                crossed: total >= self.duration,
                ..self
            }
        } else if self.duration == 0 {
            Timer { elapsed: 0, crossed: true, ..self }
        } else {
            Timer {
                elapsed: (total % (self.duration as int)) as u64,
                crossed: total >= self.duration,
                ..self
            }
        }
    }

    /// A timer of `duration` milliseconds that has not started yet.
    pub fn from_millis(duration: u64, repeating: bool) -> (r: Timer)
        ensures
            r.wf(),
            r == (Timer { duration, elapsed: 0, repeating, crossed: false }),
    {
        Timer { duration, elapsed: 0, repeating, crossed: false }
    }

    pub fn finished(&self) -> (r: bool)
        ensures
            r == self.finished_spec(),
    {
        if self.repeating {
            self.crossed
        } else {
            self.elapsed >= self.duration
        }
    }

    /// Advances the timer by `delta` milliseconds.
    pub fn tick(&mut self, delta: u64)
        requires
            old(self).wf(),
        ensures
            final(self).wf(),
            *final(self) == old(self).tick_spec(delta as nat),
    {
        let room: u64 = self.duration - self.elapsed;
        let reached: bool = delta >= room;
        if !self.repeating {
            if reached {
                self.elapsed = self.duration;
            } else {
                self.elapsed = self.elapsed + delta;
            }
        } else if self.duration == 0 {
            self.elapsed = 0;
        } else if reached {
            let over: u64 = delta - room;
            self.elapsed = over % self.duration;
            proof {
                let d = self.duration as int;
                let total = old(self).elapsed + delta;
                assert(total == d + over);
                vstd::arithmetic::div_mod::lemma_mod_add_multiples_vanish(over as int, d);
            }
        } else {
            self.elapsed = self.elapsed + delta;
            proof {
                vstd::arithmetic::div_mod::lemma_small_mod(self.elapsed as nat, self.duration as nat);
            }
        }
        self.crossed = reached;
    }

    /// Restarts the countdown from zero.
    pub fn reset(&mut self)
        requires
            old(self).wf(),
        ensures
            final(self).wf(),
            *final(self) == (Timer { elapsed: 0, crossed: false, ..*old(self) }),
    {
        self.elapsed = 0;
        self.crossed = false;
    }
}

} // verus!
