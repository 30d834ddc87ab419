//! The trusted boundary to the external CaDiCaL oracle. Everything here is
//! believed, not proved: each item's contract states only what the cadical
//! crate's source and documentation show.

use vstd::prelude::*;

verus! {

/// A backing CaDiCaL instance. Verus cannot declare the cadical solver type
/// directly (its generic parameter is bound by an external trait), so the
/// instance is held opaquely in this struct and the functions below are the
/// only ways to touch it.
#[verifier::external_body]
pub struct Oracle {
    inner: cadical::Solver<cadical::Timeout>,
}

/// The status an oracle instance reports for its most recent solve:
/// satisfiable, unsatisfiable, or undetermined.
pub uninterp spec fn sat_status(s: Oracle) -> Option<bool>;

/// The value the oracle reports for a literal in the model of its most
/// recent satisfiable solve; `None` means the formula is satisfied
/// regardless of the literal. The read is a function of the oracle state
/// and the literal alone, and every mutating call below changes the state.
pub uninterp spec fn model_of(s: Oracle, lit: int) -> Option<bool>;

/// Relies on cadical::Solver::new: constructs a fresh oracle instance.
#[verifier::external_body]
pub(crate) fn oracle_new() -> Oracle {
    Oracle { inner: cadical::Solver::new() }
}

/// Relies on cadical::Solver::with_config, which accepts exactly the tuning
/// profile names `default`, `plain`, `sat` and `unsat` and reports an error
/// on every other string.
#[verifier::external_body]
pub(crate) fn oracle_with_config(config: &str) -> (r: Option<Oracle>)
    ensures
        r is Some <==> (config@ == "default"@ || config@ == "plain"@ || config@ == "sat"@
            || config@ == "unsat"@),
{
    match cadical::Solver::with_config(config) {
        Ok(inner) => Some(Oracle { inner }),
        Err(_) => None,
    }
}

/// Relies on cadical::Solver::reserve: makes sure the oracle has initialized
/// variables up to the given index.
#[verifier::external_body]
pub(crate) fn oracle_reserve(s: &mut Oracle, min_max_var: i32)
    requires
        min_max_var >= 0,
{
    s.inner.reserve(min_max_var)
}

/// Relies on cadical::Solver::add_clause, whose literals must be non-zero
/// and different from `i32::MIN`.
#[verifier::external_body]
pub(crate) fn oracle_add_clause(s: &mut Oracle, clause: &Vec<i32>)
    requires
        forall|i: int| 0 <= i < clause@.len() ==> clause@[i] != 0 && clause@[i] != i32::MIN,
{
    s.inner.add_clause(clause.iter().copied())
}

/// Relies on cadical::Solver::num_clauses: the number of active irredundant
/// clauses the oracle currently holds.
#[verifier::external_body]
pub(crate) fn oracle_num_clauses(s: &Oracle) -> usize {
    s.inner.num_clauses()
}

/// Relies on cadical::Solver::solve, and on cadical::Solver::status
/// reporting the result of the most recent solve.
#[verifier::external_body]
pub(crate) fn oracle_solve(s: &mut Oracle) -> (r: Option<bool>)
    ensures
        r == sat_status(*final(s)),
{
    s.inner.solve()
}

/// Relies on cadical::Solver::solve_with, whose assumption literals must be
/// non-zero and different from `i32::MIN`, and on cadical::Solver::status
/// reporting the result of the most recent solve.
#[verifier::external_body]
pub(crate) fn oracle_solve_with(
    s: &mut Oracle,
    assumptions: &Vec<i32>,
) -> (r: Option<bool>)
    requires
        forall|i: int|
            0 <= i < assumptions@.len() ==> assumptions@[i] != 0 && assumptions@[i] != i32::MIN,
    ensures
        r == sat_status(*final(s)),
{
    s.inner.solve_with(assumptions.iter().copied())
}

/// Relies on cadical::Solver::status: the result of the most recent solve,
/// or undetermined if the instance was mutated since.
#[verifier::external_body]
pub(crate) fn oracle_status(s: &Oracle) -> (r: Option<bool>)
    ensures
        r == sat_status(*s),
{
    s.inner.status()
}

/// Relies on cadical::Solver::value, which may only be called while the
/// oracle is in the satisfied state; the literal must be non-zero and
/// different from `i32::MIN`. What it returns is determined by the oracle's
/// current model and the literal.
#[verifier::external_body]
pub(crate) fn oracle_value(s: &Oracle, lit: i32) -> (r: Option<bool>)
    requires
        sat_status(*s) == Some(true),
        lit != 0,
        lit != i32::MIN,
    ensures
        r == model_of(*s, lit as int),
{
    s.inner.value(lit)
}

/// Relies on cadical::Solver::signature: the name and version of the oracle
/// library.
#[verifier::external_body]
pub(crate) fn oracle_signature(s: &Oracle) -> String {
    s.inner.signature().to_string()
}

} // verus!
