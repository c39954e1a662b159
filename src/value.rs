//! Results and errors shared by the trackers.
use vstd::prelude::*;

verus! {

/// An exact rational result `num / den`, with `den > 0`.
#[derive(Clone, Copy, Debug, PartialEq, Eq, Structural)]
pub struct Ratio {
    pub num: i128,
    pub den: i128,
}

impl Ratio {
    /// True when this ratio stands for the rational number `n / d` (`d > 0`).
    pub open spec fn equals(self, n: int, d: int) -> bool {
        self.den > 0 && self.num * d == n * self.den
    }
}

/// Why a tracker could not be built.
#[derive(Clone, Copy, Debug, PartialEq, Eq, Structural)]
pub enum Error {
    /// The window length is below the method's minimum.
    InvalidParameters,
    /// A sample that must be finite is not.
    InvalidInput,
}

} // verus!
