//! A Boolean-circuit encoder on top of an incremental SAT oracle.
//!
//! Literals are non-zero `i32` values as in the DIMACS format: the magnitude
//! names a variable, the sign gives the polarity. Variable 1 is permanently
//! asserted true, so the literal `1` is the constant TRUE and `-1` is FALSE.
//!
//! Expressions are built through Tseitin-style gate encoders that apply
//! algebraic simplifications before allocating fresh variables, folds over
//! literal sequences (conjunction, disjunction, exactly-one, at-most-one),
//! and comparators that treat literal sequences as binary numbers with the
//! least significant bit first. Every builder works in two modes: bound to a
//! real solver instance, or as a pure calculator over the TRUE/FALSE
//! constants with no oracle behind it.
//!
//! Solving runs the oracle to completion: no cancellation callback is
//! installed here, and any interruption or locking plumbing belongs to the
//! hosting layer around this crate.

pub mod bitvec;
pub mod errors;
pub mod laws;
pub mod logic;
pub mod oracle;
pub mod solver;

pub use bitvec::BitVec;
pub use bitvec::Mode;
pub use errors::Error;
pub use solver::Solver;
pub use solver::FALSE;
pub use solver::TRUE;
