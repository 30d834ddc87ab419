//! Error kinds reported by the encoder.

use vstd::prelude::*;

verus! {

/// Every failure the library reports. All of them are detected before any
/// clause is asserted or variable allocated, so a failing call leaves the
/// solver state unchanged.
#[derive(Clone, Copy, Debug, PartialEq, Eq, Structural)]
pub enum Error {
    /// A constant-mode bit vector was constructed with, or asked to hold, a
    /// literal other than the TRUE/FALSE constants, or a literal that is zero
    /// or out of range for its solver.
    InvalidLiteral,
    /// A binary operation was applied to literal sequences of unequal length.
    LengthMismatch,
    /// Two bound values from distinct solver instances were combined.
    IncompatibleSolvers,
    /// An operation that must allocate a variable was invoked in constant
    /// mode, where no solver is attached.
    NoBackingSolver,
    /// A positional access or slice lay outside the valid range.
    IndexOutOfRange,
    /// A constant-mode assertion evaluated to false.
    AssertionFailed,
    /// The oracle does not know the requested tuning profile name.
    ConfigurationError,
    /// A value was requested although the most recent solve on this instance
    /// did not end satisfiable.
    NotSolved,
}

} // verus!
