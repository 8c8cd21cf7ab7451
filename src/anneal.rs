use vstd::prelude::*;

verus! {

/// The counters of one temperature stage of the annealing search.
#[derive(Copy, Clone, Debug, PartialEq, Eq, Structural)]
pub struct Stage {
    /// Accepted moves that raised the cost.
    pub uphill: usize,
    /// Moves tried.
    pub iters: usize,
    /// Moves refused.
    pub rejected: usize,
    /// The stage ends once `uphill` exceeds this or `iters` exceeds twice it.
    pub limit: usize,
}

impl Stage {
    pub open spec fn wf(&self) -> bool {
        self.uphill + self.rejected <= self.iters
    }

    pub open spec fn over(&self) -> bool {
        self.uphill > self.limit || self.iters > 2 * self.limit
    }

    /// A stage for `operand_count` modules and the multiplier `k`.
    pub fn new(operand_count: usize, k: usize) -> (r: Stage)
        requires
            operand_count * k <= usize::MAX,
        ensures
            r.wf(),
            r == (Stage { uphill: 0, iters: 0, rejected: 0, limit: (operand_count * k) as usize }),
    {
        Stage { uphill: 0, iters: 0, rejected: 0, limit: operand_count * k }
    }

    /// The Metropolis rule on one candidate: a move that does not raise the
    /// cost is taken; one that does is taken only when `lucky` (the random draw
    /// fell under the acceptance probability). Returns whether it was taken.
    pub fn record(&mut self, current_cost: u128, candidate_cost: u128, lucky: bool) -> (accepted: bool)
        requires
            old(self).wf(),
            old(self).iters < usize::MAX,
        ensures
            final(self).wf(),
            accepted == (candidate_cost <= current_cost || lucky),
            final(self).limit == old(self).limit,
            final(self).iters == old(self).iters + 1,
            final(self).uphill == old(self).uphill + if accepted && candidate_cost > current_cost {
                1int
            } else {
                0int
            },
            final(self).rejected == old(self).rejected + if accepted {
                0int
            } else {
                1int
            },
    {
        self.iters += 1;
        let accepted = candidate_cost <= current_cost || lucky;
        if accepted {
            if candidate_cost > current_cost {
                self.uphill += 1;
            }
        } else {
            self.rejected += 1;
        }
        accepted
    }

    /// Whether the stage has run its course.
    pub fn is_over(&self) -> (r: bool)
        ensures
            r == self.over(),
    {
        self.uphill > self.limit || (self.limit <= usize::MAX / 2 && self.iters > 2 * self.limit)
    }

    /// Whether more than 95% of the stage's moves were refused.
    pub fn mostly_rejected(&self) -> (r: bool)
        ensures
            r == (20 * self.rejected > 19 * self.iters),
    {
        (self.rejected as u128) * 20 > (self.iters as u128) * 19
    }
}

} // verus!
