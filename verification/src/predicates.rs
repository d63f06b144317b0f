//! Sign vocabulary of the interval-filtered geometric predicates.
use vstd::prelude::*;

verus! {

/// Sign classification for robust predicates.
#[derive(Clone, Copy, Debug, PartialEq, Eq, Structural)]
pub enum RobustSign {
    /// Certified negative.
    Negative,
    /// Certified zero.
    Zero,
    /// Certified positive.
    Positive,
    /// The interval straddles zero.
    Uncertain,
}

impl RobustSign {
    /// True if the sign is known.
    pub fn is_certified(self) -> (r: bool)
        ensures
            r == (self != RobustSign::Uncertain),
    {
        match self {
            RobustSign::Uncertain => false,
            _ => true,
        }
    }
}

} // verus!
