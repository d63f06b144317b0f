//! Error vocabulary of the NURBS curve and surface layer.
use vstd::prelude::*;

verus! {

/// NURBS error.
#[derive(Clone, Copy, Debug, PartialEq, Eq, Structural)]
pub enum NurbsError {
    /// Knot vector is malformed.
    InvalidKnotVector,
    /// Counts do not satisfy NURBS invariants.
    InvalidControlNet,
    /// Requested operation is outside the mathematical domain.
    InvalidParameter,
}

} // verus!
