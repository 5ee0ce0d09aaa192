//! What is left to chance.

use rand::distributions::{Bernoulli, Distribution};
use vstd::prelude::*;

verus! {

/// A draw: its odds, and whether it came true. There is no draw but by `toss`.
#[derive(Debug, Clone, Copy, PartialEq, Eq)]
pub struct Draw {
    numerator: u32,
    denominator: u32,
    came_true: bool,
}

impl Draw {
    /// The odds of the draw: in how many of how many cases it comes true.
    pub closed spec fn odds(self) -> (u32, u32) {
        (self.numerator, self.denominator)
    }

    /// Whether the draw came true.
    pub closed spec fn outcome(self) -> bool {
        self.came_true
    }

    /// `Bernoulli::from_ratio` and `sample` draw with the odds that they are given. What never
    /// happens does not come true, and what always happens does; else it is left to chance.
    #[verifier::external_body]
    pub(crate) fn toss(numerator: u32, denominator: u32) -> (draw: Draw)
        requires
            0 < denominator,
            numerator <= denominator,
        ensures
            draw.odds() == (numerator, denominator),
            numerator == 0 ==> !draw.outcome(),
            numerator == denominator ==> draw.outcome(),
    {
        let bernoulli = Bernoulli::from_ratio(numerator, denominator).unwrap();
        let came_true = bernoulli.sample(&mut rand::thread_rng());
        Draw { numerator, denominator, came_true }
    }

    /// Whether the draw came true.
    pub fn came_true(&self) -> (r: bool)
        ensures
            r == self.outcome(),
    {
        self.came_true
    }
}

} // verus!
