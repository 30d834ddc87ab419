//! General laws of the encoder, stated and proved once over the model: the
//! involution of negation, the algebra of the disjunction gate, and the
//! join rule for owning modes.

use vstd::prelude::*;

use crate::bitvec::joinable;
use crate::bitvec::joined;
use crate::bitvec::Mode;
use crate::logic::and_result;
use crate::logic::lit_sat;
use crate::logic::or_result;

verus! {

/// Negation is an involution: negating any literal twice gives back the
/// same literal, with the same truth value under every assignment.
pub proof fn lemma_not_involution(m: Seq<bool>, a: int)
    requires
        a != 0,
    ensures
        -(-a) == a,
        lit_sat(m, -(-a)) == lit_sat(m, a),
{
}

/// The disjunction gate is commutative: from one and the same state,
/// `or(a, b)` and `or(b, a)` return the same literal.
pub proof fn lemma_or_commutes(a: int, b: int, nv: int)
    requires
        a != 0,
        b != 0,
    ensures
        or_result(a, b, nv) == or_result(b, a, nv),
{
}

/// Conjunction is De Morgan's dual of disjunction: from one and the same
/// state, `and(a, b)` returns exactly `not(or(not a, not b))`.
pub proof fn lemma_and_demorgan(a: int, b: int, nv: int)
    requires
        a != 0,
        b != 0,
    ensures
        and_result(a, b, nv) == -or_result(-a, -b, nv),
{
}

/// Combining a bound mode with the constant one never errors, in either
/// order, and the result stays tied to the original store.
pub proof fn lemma_join_bound_constant(id: u64)
    ensures
        joinable(Mode::Bound(id), Mode::Constant),
        joined(Mode::Bound(id), Mode::Constant) == Mode::Bound(id),
        joinable(Mode::Constant, Mode::Bound(id)),
        joined(Mode::Constant, Mode::Bound(id)) == Mode::Bound(id),
{
}

/// Two bound modes from distinct store instances can never be combined.
pub proof fn lemma_join_distinct_bounds(id1: u64, id2: u64)
    requires
        id1 != id2,
    ensures
        !joinable(Mode::Bound(id1), Mode::Bound(id2)),
{
}

} // verus!
