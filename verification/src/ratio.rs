//! Fractions, for the thresholds and step sizes of a build.

use vstd::prelude::*;

verus! {

/// A non-negative fraction `numerator / denominator`, used for the
/// thresholds and step sizes of a build.
#[derive(Debug, Copy, Clone)]
pub struct Ratio {
    pub numerator: u64,
    pub denominator: u64,
}

impl Ratio {
    /// A fraction has a value when its denominator is not zero.
    pub open spec fn wf(&self) -> bool {
        self.denominator > 0
    }

    /// The fraction is at most one.
    pub open spec fn at_most_one(&self) -> bool {
        self.numerator <= self.denominator
    }
}

} // verus!
