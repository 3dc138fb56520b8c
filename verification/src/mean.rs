//! A running mean kept exactly, as the total of what was averaged and the
//! number of things averaged.

use vstd::prelude::*;

verus! {

/// The mathematical content of a running mean.
pub struct Tally {
    /// The sum of all observations.
    pub total: nat,
    /// The number of observations.
    pub count: nat,
}

impl Tally {
    /// The tally after taking in `count` more observations that sum to
    /// `total`.
    pub open spec fn absorb(self, total: nat, count: nat) -> Tally {
        Tally { total: self.total + total, count: self.count + count }
    }

    /// The mean rounded down to a whole number; zero while nothing has
    /// been observed.
    pub open spec fn whole(self) -> nat {
        if self.count == 0 {
            0
        } else {
            self.total / self.count
        }
    }

    /// Whether both parts fit the counters of a `RunningMean`.
    pub open spec fn fits(self) -> bool {
        self.total <= u128::MAX && self.count <= u128::MAX
    }
}

/// A running mean. The mean itself is `total / count`, and zero while
/// `count` is zero.
#[derive(Clone, Copy, PartialEq, Eq, Structural, Debug)]
pub struct RunningMean {
    /// The sum of all observations.
    pub total: u128,
    /// The number of observations.
    pub count: u128,
}

impl View for RunningMean {
    type V = Tally;

    open spec fn view(&self) -> Tally {
        Tally { total: self.total as nat, count: self.count as nat }
    }
}

/// Taking in observations moves the mean as a weighted average does: the
/// new mean times the new count is the old mean times the old count plus
/// the sum of what came in. With nothing observed before or after, the
/// mean is zero rather than undefined.
pub proof fn lemma_absorb_is_weighted_mean(before: Tally, total: nat, count: nat)
    ensures
        before.absorb(total, count).total == before.total + total,
        before.absorb(total, count).count == before.count + count,
        before.count + count == 0 ==> before.absorb(total, count).whole() == 0,
        before.count + count > 0 ==> before.absorb(total, count).whole() == (before.total + total)
            / (before.count + count),
        before.absorb(total, 1).count > 0,
{
}

impl RunningMean {
    /// The mean of nothing.
    pub fn new() -> (mean: RunningMean)
        ensures
            mean@ == (Tally { total: 0, count: 0 }),
    {
        RunningMean { total: 0, count: 0 }
    }

    /// Takes in `count` more observations that sum to `total`. Both
    /// counters must have room.
    pub fn absorb(&mut self, total: u128, count: u128)
        requires
            old(self)@.absorb(total as nat, count as nat).fits(),
        ensures
            final(self)@ == old(self)@.absorb(total as nat, count as nat),
    {
        self.total = self.total + total;
        self.count = self.count + count;
    }

    /// Takes in one more observation.
    pub fn record(&mut self, value: u128)
        requires
            old(self)@.absorb(value as nat, 1).fits(),
        ensures
            final(self)@ == old(self)@.absorb(value as nat, 1),
            final(self).count > 0,
    {
        self.absorb(value, 1);
    }

    /// The mean rounded down to a whole number; zero while nothing has
    /// been observed.
    pub fn whole(&self) -> (mean: u128)
        ensures
            mean == self@.whole(),
            self.count == 0 ==> mean == 0,
    {
        if self.count == 0 {
            0
        } else {
            self.total / self.count
        }
    }
}

} // verus!
