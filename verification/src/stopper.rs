//! Patience: counting the steps since the last improvement.

use vstd::prelude::*;

verus! {

/// Counts how many observations in a row brought no improvement.
pub struct PlateauDetector {
    /// Number of observations without improvement after which a plateau is signalled.
    pub patience: usize,
    /// Number of observations since the last improvement.
    pub wait: usize,
}

impl PlateauDetector {
    /// A detector that has seen nothing yet.
    pub fn new(patience: usize) -> (r: Self)
        ensures
            r.patience == patience,
            r.wait == 0,
    {
        PlateauDetector { patience, wait: 0 }
    }

    /// The count after one more observation: back to zero after an
    /// improvement, one more otherwise, never beyond the largest number.
    pub open spec fn next_wait(wait: usize, improved: bool) -> usize {
        if improved {
            0
        } else if wait < usize::MAX {
            (wait + 1) as usize
        } else {
            wait
        }
    }

    /// Takes one observation and tells whether a plateau has been
    /// reached: whether there have been at least `patience` observations
    /// in a row without improvement.
    pub fn has_plateaued(&mut self, improved: bool) -> (r: bool)
        ensures
            final(self).patience == old(self).patience,
            final(self).wait == Self::next_wait(old(self).wait, improved),
            r == (final(self).wait >= final(self).patience),
    {
        if improved {
            self.wait = 0;
        } else if self.wait < usize::MAX {
            self.wait = self.wait + 1;
        }
        self.wait >= self.patience
    }
}

} // verus!
