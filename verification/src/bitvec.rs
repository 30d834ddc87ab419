//! Immutable bit vectors: fixed-length literal sequences tagged with the
//! solver instance that owns them, or with the constant marker when every
//! literal is a TRUE/FALSE constant. All combinators return fresh vectors;
//! a vector is combined with another only when their modes are joinable.

use vstd::prelude::*;
use vstd::string::StringExecFns;

use crate::errors::Error;
use crate::logic::bits_val;
use crate::logic::calc_env;
use crate::logic::clause_sat;
use crate::logic::ints;
use crate::logic::lemma_clause1;
use crate::logic::lit_ok;
use crate::logic::lit_sat;
use crate::logic::lits_ok;
use crate::logic::num_true;
use crate::logic::seq_all;
use crate::solver::FALSE;
use crate::solver::Solver;
use crate::solver::TRUE;
use crate::logic::lemma_num_true_prefix;
use crate::solver::conserves;
use crate::solver::lemma_conserves_models;
use crate::solver::lemma_conserves_refl;
use crate::solver::lemma_conserves_trans;
use crate::solver::lemma_extends_refl;
use crate::solver::lemma_extends_trans;
use crate::solver::lemma_models_extends;

verus! {

/// Which store owns a value: none at all (every literal a constant), or the
/// solver instance with the given identifier.
#[derive(Clone, Copy, Debug, PartialEq, Eq, Structural)]
pub enum Mode {
    /// Every literal is a TRUE/FALSE constant; no solver is attached.
    Constant,
    /// The literals belong to the solver instance with this identifier.
    Bound(u64),
}

/// The mode that governs a combination of two values when they are joinable:
/// a constant side defers to the other side.
pub open spec fn joined(first: Mode, second: Mode) -> Mode {
    if first is Constant {
        second
    } else {
        first
    }
}

/// Whether two modes may be combined at all: two bound values must come from
/// the same store instance.
pub open spec fn joinable(first: Mode, second: Mode) -> bool {
    first is Constant || second is Constant || first == second
}

impl Mode {
    /// Returns the mode governing a combination of two values: a constant
    /// side defers to the other side, and two bound values from distinct
    /// store instances cannot be combined.
    pub fn join(first: Mode, second: Mode) -> (r: Result<Mode, Error>)
        ensures
            r is Ok <==> joinable(first, second),
            r is Ok ==> r == Ok::<Mode, Error>(joined(first, second)),
            r is Err ==> r == Err::<Mode, Error>(Error::IncompatibleSolvers),
    {
        match (first, second) {
            (Mode::Constant, s) => Ok(s),
            (f, Mode::Constant) => Ok(f),
            (Mode::Bound(i), Mode::Bound(j)) => {
                if i == j {
                    Ok(first)
                } else {
                    Err(Error::IncompatibleSolvers)
                }
            },
        }
    }
}

/// An ordered, fixed-length sequence of literals plus the mode naming the
/// solver instance that owns them. Position 0 is the least significant bit
/// when the vector is read as a binary number. Vectors are immutable value
/// objects: every combinator returns a new vector.
pub struct BitVec {
    mode: Mode,
    literals: Vec<i32>,
}

impl BitVec {
    /// The owning mode of this vector.
    pub closed spec fn mode_spec(&self) -> Mode {
        self.mode
    }

    /// The literals as mathematical integers.
    pub closed spec fn lits(&self) -> Seq<int> {
        ints(self.literals@)
    }

    /// Structural invariant that needs no solver: literals are non-zero,
    /// never `i32::MIN`, and a constant-mode vector holds only TRUE/FALSE.
    pub open spec fn basic_ok(&self) -> bool {
        &&& forall|i: int|
            0 <= i < self.lits().len() ==> (#[trigger] self.lits()[i]) != 0 && -(i32::MAX as int)
                <= self.lits()[i] <= i32::MAX as int
        &&& (self.mode_spec() is Constant ==> forall|i: int|
            0 <= i < self.lits().len() ==> (#[trigger] self.lits()[i]) == 1 || self.lits()[i]
                == -1)
    }

    /// Whether this vector's literals belong to the given solver instance.
    pub open spec fn owned_by(&self, s: &Solver) -> bool {
        self.mode_spec() == Mode::Bound(s.id_spec()) && s.is_solver_spec()
    }

    /// The invariant a vector keeps relative to a solver: its structure is
    /// sound, and when the solver owns it every literal names an allocated
    /// variable.
    pub open spec fn valid_for(&self, s: &Solver) -> bool {
        &&& self.basic_ok()
        &&& (self.owned_by(s) ==> lits_ok(self.lits(), s.nv()))
    }
}

/// A vector stays valid while its solver only grows.
pub proof fn lemma_valid_extends(bv: &BitVec, s1: &Solver, s2: &Solver)
    requires
        bv.valid_for(s1),
        s2.extends(*s1),
    ensures
        bv.valid_for(s2),
{
    if bv.owned_by(s2) {
        assert forall|i: int| 0 <= i < bv.lits().len() implies lit_ok(
            #[trigger] bv.lits()[i],
            s2.nv(),
        ) by {
            assert(lit_ok(bv.lits()[i], s1.nv()));
        }
    }
}

impl BitVec {
    /// Creates a new bit vector owned by the given solver. Every literal
    /// must name an allocated variable of that solver; for the calculator,
    /// every literal must be a TRUE/FALSE constant.
    pub fn new(s: &Solver, literals: Vec<i32>) -> (r: Result<BitVec, Error>)
        requires
            s.wf(),
        ensures
            match r {
                Ok(bv) => {
                    &&& bv.lits() == ints(literals@)
                    &&& bv.mode_spec() == (if s.is_solver_spec() {
                        Mode::Bound(s.id_spec())
                    } else {
                        Mode::Constant
                    })
                    &&& bv.valid_for(s)
                    &&& lits_ok(bv.lits(), s.nv())
                },
                Err(e) => e == Error::InvalidLiteral,
            },
            r is Ok <==> (if s.is_solver_spec() {
                lits_ok(ints(literals@), s.nv())
            } else {
                forall|i: int|
                    0 <= i < literals@.len() ==> (#[trigger] ints(literals@)[i]) == 1 || ints(
                        literals@,
                    )[i] == -1
            }),
    {
        let ghost ls = ints(literals@);
        let solver_mode = s.is_solver();
        let n = s.num_variables();
        let mut i: usize = 0;
        while i < literals.len()
            invariant
                s.wf(),
                ls == ints(literals@),
                ls.len() == literals@.len(),
                n as int == s.nv(),
                solver_mode == s.is_solver_spec(),
                0 <= i <= literals@.len(),
                solver_mode ==> forall|j: int| 0 <= j < i ==> lit_ok(#[trigger] ls[j], s.nv()),
                !solver_mode ==> forall|j: int|
                    0 <= j < i ==> (#[trigger] ls[j]) == 1 || ls[j] == -1,
            decreases literals@.len() - i,
        {
            let lit = literals[i];
            proof {
                assert(ls[i as int] == literals@[i as int] as int);
            }
            if solver_mode {
                if lit == 0 || (lit as i64) < -(n as i64) || (lit as i64) > (n as i64) {
                    proof {
                        assert(!lit_ok(ls[i as int], s.nv()));
                    }
                    return Err(Error::InvalidLiteral);
                }
            } else {
                if lit != TRUE && lit != FALSE {
                    return Err(Error::InvalidLiteral);
                }
            }
            i = i + 1;
        }
        let mode = if solver_mode {
            Mode::Bound(s.get_id())
        } else {
            Mode::Constant
        };
        proof {
            if !solver_mode {
                assert forall|j: int| 0 <= j < ls.len() implies lit_ok(#[trigger] ls[j], s.nv()) by {
                    assert(ls[j] == 1 || ls[j] == -1);
                }
            }
        }
        Ok(BitVec { mode, literals })
    }

    /// Constructs a vector of the given length filled with fresh variables
    /// from the solver; the calculator cannot allocate.
    pub fn new_variable(s: &mut Solver, count: usize) -> (r: Result<BitVec, Error>)
        requires
            old(s).wf(),
            old(s).nv() + count <= i32::MAX,
        ensures
            final(s).wf(),
            final(s).extends(*old(s)),
            final(s).cl() == old(s).cl(),
            r is Ok <==> old(s).is_solver_spec(),
            r is Err ==> *final(s) == *old(s) && r == Err::<BitVec, Error>(Error::NoBackingSolver),
            match r {
                Ok(bv) => {
                    &&& bv.mode_spec() == Mode::Bound(old(s).id_spec())
                    &&& bv.lits().len() == count
                    &&& final(s).nv() == old(s).nv() + count
                    &&& forall|i: int|
                        0 <= i < count ==> (#[trigger] bv.lits()[i]) == old(s).nv() + 1 + i
                    &&& bv.valid_for(final(s))
                },
                Err(_) => true,
            },
    {
        if !s.is_solver() {
            proof {
                lemma_extends_refl(*s);
                lemma_conserves_refl(*s);
            }
            return Err(Error::NoBackingSolver);
        }
        let ghost prev = *s;
        let id = s.get_id();
        let mut literals: Vec<i32> = Vec::new();
        let mut i: usize = 0;
        proof {
            lemma_extends_refl(*s);
        }
        while i < count
            invariant
                prev == *old(s),
                prev.wf(),
                prev.is_solver_spec(),
                s.wf(),
                s.extends(prev),
                s.cl() == prev.cl(),
                prev.nv() + count <= i32::MAX,
                id == prev.id_spec(),
                0 <= i <= count,
                s.nv() == prev.nv() + i,
                literals@.len() == i,
                forall|j: int| 0 <= j < i ==> (#[trigger] ints(literals@)[j]) == prev.nv() + 1 + j,
            decreases count - i,
        {
            let ghost mid = *s;
            let v = match s.add_variable() {
                Ok(v) => v,
                Err(_) => {
                    proof {
                        assert(false);
                    }
                    0
                },
            };
            let ghost lv0 = literals@;
            literals.push(v);
            proof {
                lemma_extends_trans(prev, mid, *s);
                assert forall|j: int| 0 <= j < i + 1 implies (#[trigger] ints(literals@)[j])
                    == prev.nv() + 1 + j by {
                    assert(ints(literals@)[j] == literals@[j] as int);
                    if j < i {
                        assert(literals@[j] == lv0[j]);
                        assert(ints(lv0)[j] == lv0[j] as int);
                    } else {
                        assert(literals@[j] == v);
                    }
                }
            }
            i = i + 1;
        }
        let bv = BitVec { mode: Mode::Bound(id), literals };
        proof {
            assert forall|j: int| 0 <= j < bv.lits().len() implies lit_ok(
                #[trigger] bv.lits()[j],
                s.nv(),
            ) by {
                assert(bv.lits()[j] == prev.nv() + 1 + j);
            }
        }
        Ok(bv)
    }

    /// The owning mode of this vector: the constant marker, or the
    /// identifier of the solver instance whose literals it holds.
    pub fn get_solver(&self) -> (r: Mode)
        ensures
            r == self.mode_spec(),
    {
        self.mode
    }

    /// A copy of the literal list.
    pub fn get_literals(&self) -> (r: Vec<i32>)
        ensures
            ints(r@) == self.lits(),
    {
        let mut out: Vec<i32> = Vec::new();
        let mut i: usize = 0;
        while i < self.literals.len()
            invariant
                0 <= i <= self.literals@.len(),
                out@.len() == i,
                forall|j: int| 0 <= j < i ==> out@[j] == self.literals@[j],
            decreases self.literals@.len() - i,
        {
            out.push(self.literals[i]);
            i = i + 1;
        }
        proof {
            assert(out@ =~= self.literals@);
            assert(ints(out@) =~= self.lits());
        }
        out
    }

    /// The number of literals in this vector.
    pub fn len(&self) -> (r: usize)
        ensures
            r == self.lits().len(),
    {
        self.literals.len()
    }

    /// The literal at the given position; positions start at 0 with the
    /// least significant bit.
    pub fn get(&self, index: usize) -> (r: Result<i32, Error>)
        ensures
            r is Ok <==> index < self.lits().len(),
            match r {
                Ok(v) => v as int == self.lits()[index as int],
                Err(e) => e == Error::IndexOutOfRange,
            },
    {
        if index >= self.literals.len() {
            Err(Error::IndexOutOfRange)
        } else {
            proof {
                assert(self.lits()[index as int] == self.literals@[index as int] as int);
            }
            Ok(self.literals[index])
        }
    }

    /// The vector with every literal negated; the owning mode is kept.
    pub fn negate(&self) -> (r: BitVec)
        requires
            self.basic_ok(),
        ensures
            r.mode_spec() == self.mode_spec(),
            r.basic_ok(),
            r.lits().len() == self.lits().len(),
            forall|i: int| 0 <= i < r.lits().len() ==> (#[trigger] r.lits()[i]) == -self.lits()[i],
    {
        let mut out: Vec<i32> = Vec::new();
        let mut i: usize = 0;
        while i < self.literals.len()
            invariant
                self.basic_ok(),
                0 <= i <= self.literals@.len(),
                self.lits().len() == self.literals@.len(),
                out@.len() == i,
                forall|j: int| 0 <= j < i ==> (#[trigger] ints(out@)[j]) == -self.lits()[j],
            decreases self.literals@.len() - i,
        {
            proof {
                assert(self.lits()[i as int] == self.literals@[i as int] as int);
            }
            let ghost ov0 = out@;
            out.push(-self.literals[i]);
            proof {
                assert forall|j: int| 0 <= j < i + 1 implies (#[trigger] ints(out@)[j])
                    == -self.lits()[j] by {
                    assert(ints(out@)[j] == out@[j] as int);
                    if j < i {
                        assert(out@[j] == ov0[j]);
                        assert(ints(ov0)[j] == ov0[j] as int);
                    }
                }
            }
            i = i + 1;
        }
        BitVec { mode: self.mode, literals: out }
    }
}

/// The literals of `ls` from `start` (inclusive) to `stop` (exclusive),
/// taking every `step`-th position.
pub open spec fn strided(ls: Seq<int>, start: int, stop: int, step: int) -> Seq<int>
    decreases stop - start,
    when step >= 1
{
    if start >= stop {
        Seq::empty()
    } else if start + step >= stop {
        seq![ls[start]]
    } else {
        seq![ls[start]] + strided(ls, start + step, stop, step)
    }
}

impl BitVec {
    /// A sub-vector of this one: the positions from `start` (inclusive) to
    /// `stop` (exclusive), taking every `step`-th literal. The owning mode is
    /// kept.
    pub fn slice(&self, start: usize, stop: usize, step: usize) -> (r: Result<BitVec, Error>)
        requires
            self.basic_ok(),
        ensures
            r is Ok <==> (start <= stop && stop <= self.lits().len() && step >= 1),
            match r {
                Ok(bv) => {
                    &&& bv.mode_spec() == self.mode_spec()
                    &&& bv.basic_ok()
                    &&& bv.lits() == strided(self.lits(), start as int, stop as int, step as int)
                },
                Err(e) => e == Error::IndexOutOfRange,
            },
    {
        if !(start <= stop && stop <= self.literals.len() && step >= 1) {
            return Err(Error::IndexOutOfRange);
        }
        let ghost ls = self.lits();
        let ghost whole = strided(ls, start as int, stop as int, step as int);
        let mut out: Vec<i32> = Vec::new();
        let mut i: usize = start;
        while i < stop
            invariant
                self.basic_ok(),
                ls == self.lits(),
                ls.len() == self.literals@.len(),
                start <= stop <= self.literals@.len(),
                step >= 1,
                start <= i <= stop,
                whole == strided(ls, start as int, stop as int, step as int),
                whole == ints(out@) + strided(ls, i as int, stop as int, step as int),
                forall|j: int|
                    0 <= j < out@.len() ==> (#[trigger] ints(out@)[j]) != 0 && -(i32::MAX as int)
                        <= ints(out@)[j] <= i32::MAX as int,
                self.mode_spec() is Constant ==> forall|j: int|
                    0 <= j < out@.len() ==> (#[trigger] ints(out@)[j]) == 1 || ints(out@)[j] == -1,
            decreases stop - i,
        {
            let ghost o0 = out@;
            let ghost i0 = i as int;
            proof {
                assert(ls[i0] == self.literals@[i0] as int);
            }
            out.push(self.literals[i]);
            if stop - i <= step {
                i = stop;
            } else {
                i = i + step;
            }
            proof {
                assert(ints(out@) =~= ints(o0) + seq![ls[i0]]);
                if i0 + step >= stop {
                    assert(strided(ls, i0, stop as int, step as int) == seq![ls[i0]]);
                    assert(strided(ls, i as int, stop as int, step as int) =~= Seq::<int>::empty());
                } else {
                    assert(strided(ls, i0, stop as int, step as int) == seq![ls[i0]] + strided(
                        ls,
                        i0 + step,
                        stop as int,
                        step as int,
                    ));
                }
                assert(whole =~= ints(out@) + strided(ls, i as int, stop as int, step as int));
                assert forall|j: int| 0 <= j < out@.len() implies (#[trigger] ints(out@)[j]) != 0
                    && -(i32::MAX as int) <= ints(out@)[j] <= i32::MAX as int by {
                    if j < o0.len() {
                        assert(ints(out@)[j] == ints(o0)[j]);
                    } else {
                        assert(ints(out@)[j] == ls[i0]);
                        assert(lit_in_range(ls, i0));
                    }
                }
                if self.mode_spec() is Constant {
                    assert forall|j: int| 0 <= j < out@.len() implies (#[trigger] ints(out@)[j])
                        == 1 || ints(out@)[j] == -1 by {
                        if j < o0.len() {
                            assert(ints(out@)[j] == ints(o0)[j]);
                        } else {
                            assert(ints(out@)[j] == ls[i0]);
                        }
                    }
                }
            }
        }
        proof {
            assert(strided(ls, i as int, stop as int, step as int) =~= Seq::<int>::empty());
            assert(ints(out@) =~= ints(out@) + Seq::<int>::empty());
        }
        Ok(BitVec { mode: self.mode, literals: out })
    }

    /// Reads the values of this vector's literals from the most recent
    /// satisfiable solve of its solver, as a new constant-mode vector whose
    /// position holds TRUE exactly when the oracle reported the literal
    /// true. The vector must be owned by the given solver, and the solver's
    /// most recent solve must have been satisfiable.
    pub fn get_value(&self, s: &Solver) -> (r: Result<BitVec, Error>)
        requires
            s.wf(),
            self.valid_for(s),
        ensures
            r is Ok <==> (self.owned_by(s) && s.status_spec() == Some(true)),
            match r {
                Ok(bv) => {
                    &&& bv.mode_spec() == Mode::Constant
                    &&& bv.basic_ok()
                    &&& bv.lits().len() == self.lits().len()
                    &&& forall|i: int|
                        0 <= i < bv.lits().len() ==> (#[trigger] bv.lits()[i]) == (
                        if s.value_spec(self.lits()[i]) == Some(true) {
                            1int
                        } else {
                            -1int
                        })
                },
                Err(e) => (e == Error::NoBackingSolver && self.mode_spec() is Constant) || (e
                    == Error::IncompatibleSolvers && self.mode_spec() is Bound && !self.owned_by(
                    s,
                )) || (e == Error::NotSolved && self.owned_by(s) && s.status_spec() != Some(
                    true,
                )),
            },
    {
        let owned = match self.mode {
            Mode::Constant => {
                return Err(Error::NoBackingSolver);
            },
            Mode::Bound(id) => s.is_solver() && id == s.get_id(),
        };
        if !owned {
            return Err(Error::IncompatibleSolvers);
        }
        match s.status() {
            Some(true) => {},
            _ => {
                return Err(Error::NotSolved);
            },
        }
        let mut out: Vec<i32> = Vec::new();
        let mut i: usize = 0;
        while i < self.literals.len()
            invariant
                s.wf(),
                self.valid_for(s),
                self.owned_by(s),
                s.status_spec() == Some(true),
                self.lits().len() == self.literals@.len(),
                0 <= i <= self.literals@.len(),
                out@.len() == i,
                forall|j: int|
                    0 <= j < out@.len() ==> (#[trigger] ints(out@)[j]) == (if s.value_spec(
                        self.lits()[j],
                    ) == Some(true) {
                        1int
                    } else {
                        -1int
                    }),
            decreases self.literals@.len() - i,
        {
            proof {
                assert(self.lits()[i as int] == self.literals@[i as int] as int);
                assert(lit_ok(self.lits()[i as int], s.nv()));
            }
            let val = match s.get_value(self.literals[i]) {
                Ok(v) => v,
                Err(_) => {
                    proof {
                        assert(false);
                    }
                    return Err(Error::NotSolved);
                },
            };
            let ghost o0 = out@;
            let lifted: i32 = match val {
                Some(true) => TRUE,
                _ => FALSE,
            };
            out.push(lifted);
            proof {
                assert forall|j: int| 0 <= j < out@.len() implies (#[trigger] ints(out@)[j]) == (
                if s.value_spec(self.lits()[j]) == Some(true) {
                    1int
                } else {
                    -1int
                }) by {
                    if j < o0.len() {
                        assert(ints(out@)[j] == ints(o0)[j]);
                    } else {
                        assert(ints(out@)[j] == lifted as int);
                    }
                }
            }
            i = i + 1;
        }
        let bv = BitVec { mode: Mode::Constant, literals: out };
        proof {
            assert forall|j: int| 0 <= j < bv.lits().len() implies ((#[trigger] bv.lits()[j]) == 1
                || bv.lits()[j] == -1) by {
                assert(bv.lits()[j] == ints(out@)[j]);
            }
        }
        Ok(bv)
    }

    /// A printable rendering of the literal list.
    pub fn repr(&self) -> String {
        let mut text = String::from_str("[");
        let mut i: usize = 0;
        while i < self.literals.len()
            decreases self.literals@.len() - i,
        {
            if i > 0 {
                text.append(", ");
            }
            let part = self.literals[i].to_string();
            text.append(part.as_str());
            i = i + 1;
        }
        text.append("]");
        text
    }
}

/// The literal at a position lies in the machine range; a helper to name the
/// fact inside quantified proofs.
pub open spec fn lit_in_range(ls: Seq<int>, i: int) -> bool {
    ls[i] != 0 && -(i32::MAX as int) <= ls[i] <= i32::MAX as int
}

/// Whether two vectors with these modes can be combined while the given
/// solver serves the bound side.
pub open spec fn usable(m1: Mode, m2: Mode, s: &Solver) -> bool {
    &&& joinable(m1, m2)
    &&& (joined(m1, m2) is Bound ==> joined(m1, m2) == Mode::Bound(s.id_spec())
        && s.is_solver_spec())
}

impl BitVec {
    /// Decides which mode governs the combination of this vector with the
    /// other, against the given solver. Returns the governing mode, or the
    /// error to report.
    fn join_with(&self, other: &BitVec, s: &Solver) -> (r: Result<Mode, Error>)
        ensures
            r is Ok <==> usable(self.mode_spec(), other.mode_spec(), s),
            r is Ok ==> r == Ok::<Mode, Error>(joined(self.mode_spec(), other.mode_spec())),
            r is Err ==> r == Err::<Mode, Error>(Error::IncompatibleSolvers),
    {
        let jm = match Mode::join(self.get_solver(), other.get_solver()) {
            Ok(m) => m,
            Err(e) => {
                return Err(e);
            },
        };
        match jm {
            Mode::Bound(id) => {
                if s.is_solver() && id == s.get_id() {
                    Ok(jm)
                } else {
                    Err(Error::IncompatibleSolvers)
                }
            },
            Mode::Constant => Ok(jm),
        }
    }

    /// The pointwise conjunction of two vectors of equal length. A constant
    /// pair is evaluated without touching the solver; otherwise each
    /// position goes through the conjunction gate of the owning solver.
    pub fn bv_and(&self, other: &BitVec, s: &mut Solver) -> (r: Result<BitVec, Error>)
        requires
            old(s).wf(),
            self.valid_for(old(s)),
            other.valid_for(old(s)),
            old(s).nv() + self.lits().len() <= i32::MAX,
        ensures
            final(s).wf(),
            final(s).extends(*old(s)),
            final(s).nv() <= old(s).nv() + self.lits().len(),
            final(s).cl().len() <= old(s).cl().len() + 3 * self.lits().len(),
            conserves(*old(s), *final(s)),
            r is Ok <==> (usable(self.mode_spec(), other.mode_spec(), old(s)) && self.lits().len()
                == other.lits().len()),
            r is Err ==> *final(s) == *old(s) && (r == Err::<BitVec, Error>(
                Error::IncompatibleSolvers,
            ) && !usable(self.mode_spec(), other.mode_spec(), old(s)) || r == Err::<BitVec, Error>(
                Error::LengthMismatch,
            ) && usable(self.mode_spec(), other.mode_spec(), old(s))),
            match r {
                Ok(bv) => {
                    &&& bv.mode_spec() == joined(self.mode_spec(), other.mode_spec())
                    &&& bv.valid_for(final(s))
                    &&& bv.lits().len() == self.lits().len()
                    &&& (bv.mode_spec() is Constant ==> *final(s) == *old(s) && forall|i: int|
                        0 <= i < bv.lits().len() ==> (#[trigger] bv.lits()[i]) == (
                        if self.lits()[i] == 1 && other.lits()[i] == 1 {
                            1int
                        } else {
                            -1int
                        }))
                    &&& (bv.mode_spec() is Bound ==> forall|m: Seq<bool>, i: int|
                        #![trigger final(s).models(m), bv.lits()[i]]
                        final(s).models(m) && 0 <= i < bv.lits().len() ==> lit_sat(m, bv.lits()[i])
                            == (lit_sat(m, self.lits()[i]) && lit_sat(m, other.lits()[i])))
                },
                Err(_) => true,
            },
    {
        let ghost la = self.lits();
        let ghost lb = other.lits();
        let jm = match self.join_with(other, s) {
            Ok(m) => m,
            Err(e) => {
                proof {
                    lemma_extends_refl(*s);
                    lemma_conserves_refl(*s);
                }
                return Err(e);
            },
        };
        if self.literals.len() != other.literals.len() {
            proof {
                lemma_extends_refl(*s);
                lemma_conserves_refl(*s);
            }
            return Err(Error::LengthMismatch);
        }
        let n = self.literals.len();
        match jm {
            Mode::Constant => {
                let mut calc = Solver::calculator();
                let mut out: Vec<i32> = Vec::new();
                let mut i: usize = 0;
                while i < n
                    invariant
                        self.basic_ok(),
                        other.basic_ok(),
                        self.mode_spec() is Constant,
                        other.mode_spec() is Constant,
                        la == self.lits(),
                        lb == other.lits(),
                        la.len() == self.literals@.len(),
                        lb.len() == other.literals@.len(),
                        n == la.len(),
                        n == lb.len(),
                        calc.wf(),
                        !calc.is_solver_spec(),
                        0 <= i <= n,
                        out@.len() == i,
                        forall|j: int|
                            0 <= j < i ==> (#[trigger] ints(out@)[j]) == (if la[j] == 1 && lb[j]
                                == 1 {
                                1int
                            } else {
                                -1int
                            }),
                    decreases n - i,
                {
                    let x = self.literals[i];
                    let y = other.literals[i];
                    proof {
                        assert(la[i as int] == self.literals@[i as int] as int);
                        assert(lb[i as int] == other.literals@[i as int] as int);
                        assert(la[i as int] == 1 || la[i as int] == -1);
                        assert(lb[i as int] == 1 || lb[i as int] == -1);
                    }
                    let ghost o0 = out@;
                    let v = calc.bool_and(x, y);
                    out.push(v);
                    proof {
                        assert forall|j: int| 0 <= j < i + 1 implies (#[trigger] ints(out@)[j])
                            == (if la[j] == 1 && lb[j] == 1 {
                            1int
                        } else {
                            -1int
                        }) by {
                            if j < i {
                                assert(ints(out@)[j] == ints(o0)[j]);
                            } else {
                                assert(ints(out@)[j] == v as int);
                            }
                        }
                    }
                    i = i + 1;
                }
                proof {
                    lemma_extends_refl(*s);
                    lemma_conserves_refl(*s);
                }
                let bv = BitVec { mode: jm, literals: out };
                proof {
                    assert forall|j: int| 0 <= j < bv.lits().len() implies ((#[trigger] bv.lits()[
                    j]) == 1 || bv.lits()[j] == -1) by {
                        assert(bv.lits()[j] == ints(out@)[j]);
                    }
                }
                Ok(bv)
            },
            Mode::Bound(_) => {
                let ghost prev = *s;
                proof {
                    assert forall|j: int| 0 <= j < la.len() implies lit_ok(
                        #[trigger] la[j],
                        prev.nv(),
                    ) by {
                        if self.mode_spec() is Constant {
                            assert(la[j] == 1 || la[j] == -1);
                        }
                    }
                    assert forall|j: int| 0 <= j < lb.len() implies lit_ok(
                        #[trigger] lb[j],
                        prev.nv(),
                    ) by {
                        if other.mode_spec() is Constant {
                            assert(lb[j] == 1 || lb[j] == -1);
                        }
                    }
                    lemma_extends_refl(*s);
                    lemma_conserves_refl(*s);
                }
                let mut out: Vec<i32> = Vec::new();
                let mut i: usize = 0;
                while i < n
                    invariant
                        prev == *old(s),
                        prev.wf(),
                        s.wf(),
                        s.extends(prev),
                        la == self.lits(),
                        lb == other.lits(),
                        la.len() == self.literals@.len(),
                        lb.len() == other.literals@.len(),
                        n == la.len(),
                        n == lb.len(),
                        lits_ok(la, prev.nv()),
                        lits_ok(lb, prev.nv()),
                        prev.nv() + n <= i32::MAX,
                        0 <= i <= n,
                        s.nv() <= prev.nv() + i,
                        conserves(prev, *s),
                        s.cl().len() <= prev.cl().len() + 3 * i,
                        out@.len() == i,
                        forall|j: int| 0 <= j < i ==> lit_ok(#[trigger] ints(out@)[j], s.nv()),
                        forall|m: Seq<bool>, j: int|
                            #![trigger s.models(m), ints(out@)[j]]
                            s.models(m) && 0 <= j < i ==> lit_sat(m, ints(out@)[j]) == (lit_sat(
                                m,
                                la[j],
                            ) && lit_sat(m, lb[j])),
                    decreases n - i,
                {
                    let x = self.literals[i];
                    let y = other.literals[i];
                    proof {
                        assert(la[i as int] == self.literals@[i as int] as int);
                        assert(lb[i as int] == other.literals@[i as int] as int);
                        assert(lit_ok(la[i as int], prev.nv()));
                        assert(lit_ok(lb[i as int], prev.nv()));
                    }
                    let ghost st0 = *s;
                    let ghost o0 = out@;
                    let v = s.bool_and(x, y);
                    out.push(v);
                    proof {
                        lemma_extends_trans(prev, st0, *s);
                        lemma_conserves_trans(prev, st0, *s);
                        assert forall|j: int| 0 <= j < i + 1 implies lit_ok(
                            #[trigger] ints(out@)[j],
                            s.nv(),
                        ) by {
                            if j < i {
                                assert(ints(out@)[j] == ints(o0)[j]);
                                assert(lit_ok(ints(o0)[j], st0.nv()));
                            } else {
                                assert(ints(out@)[j] == v as int);
                            }
                        }
                        assert forall|m: Seq<bool>, j: int|
                            #![trigger s.models(m), ints(out@)[j]]
                            s.models(m) && 0 <= j < i + 1 implies lit_sat(m, ints(out@)[j]) == (
                        lit_sat(m, la[j]) && lit_sat(m, lb[j])) by {
                            lemma_models_extends(st0, *s, m);
                            if j < i {
                                assert(ints(out@)[j] == ints(o0)[j]);
                                assert(st0.models(m));
                                assert(lit_sat(m, ints(o0)[j]) == (lit_sat(m, la[j]) && lit_sat(
                                    m,
                                    lb[j],
                                )));
                            } else {
                                assert(ints(out@)[j] == v as int);
                            }
                        }
                    }
                    i = i + 1;
                }
                let bv = BitVec { mode: jm, literals: out };
                proof {
                    assert forall|j: int| 0 <= j < bv.lits().len() implies lit_ok(
                        #[trigger] bv.lits()[j],
                        s.nv(),
                    ) by {
                        assert(bv.lits()[j] == ints(out@)[j]);
                    }
                    assert forall|m: Seq<bool>, j: int|
                        #![trigger s.models(m), bv.lits()[j]]
                        s.models(m) && 0 <= j < bv.lits().len() implies lit_sat(m, bv.lits()[j])
                        == (lit_sat(m, la[j]) && lit_sat(m, lb[j])) by {
                        assert(bv.lits()[j] == ints(out@)[j]);
                    }
                }
                Ok(bv)
            },
        }
    }

    /// The pointwise disjunction of two vectors of equal length. A constant
    /// pair is evaluated without touching the solver; otherwise each
    /// position goes through the disjunction gate of the owning solver.
    pub fn bv_or(&self, other: &BitVec, s: &mut Solver) -> (r: Result<BitVec, Error>)
        requires
            old(s).wf(),
            self.valid_for(old(s)),
            other.valid_for(old(s)),
            old(s).nv() + self.lits().len() <= i32::MAX,
        ensures
            final(s).wf(),
            final(s).extends(*old(s)),
            final(s).nv() <= old(s).nv() + self.lits().len(),
            final(s).cl().len() <= old(s).cl().len() + 3 * self.lits().len(),
            conserves(*old(s), *final(s)),
            r is Ok <==> (usable(self.mode_spec(), other.mode_spec(), old(s)) && self.lits().len()
                == other.lits().len()),
            r is Err ==> *final(s) == *old(s) && (r == Err::<BitVec, Error>(
                Error::IncompatibleSolvers,
            ) && !usable(self.mode_spec(), other.mode_spec(), old(s)) || r == Err::<BitVec, Error>(
                Error::LengthMismatch,
            ) && usable(self.mode_spec(), other.mode_spec(), old(s))),
            match r {
                Ok(bv) => {
                    &&& bv.mode_spec() == joined(self.mode_spec(), other.mode_spec())
                    &&& bv.valid_for(final(s))
                    &&& bv.lits().len() == self.lits().len()
                    &&& (bv.mode_spec() is Constant ==> *final(s) == *old(s) && forall|i: int|
                        0 <= i < bv.lits().len() ==> (#[trigger] bv.lits()[i]) == (
                        if self.lits()[i] == 1 || other.lits()[i] == 1 {
                            1int
                        } else {
                            -1int
                        }))
                    &&& (bv.mode_spec() is Bound ==> forall|m: Seq<bool>, i: int|
                        #![trigger final(s).models(m), bv.lits()[i]]
                        final(s).models(m) && 0 <= i < bv.lits().len() ==> lit_sat(m, bv.lits()[i])
                            == (lit_sat(m, self.lits()[i]) || lit_sat(m, other.lits()[i])))
                },
                Err(_) => true,
            },
    {
        let ghost la = self.lits();
        let ghost lb = other.lits();
        let jm = match self.join_with(other, s) {
            Ok(m) => m,
            Err(e) => {
                proof {
                    lemma_extends_refl(*s);
                    lemma_conserves_refl(*s);
                }
                return Err(e);
            },
        };
        if self.literals.len() != other.literals.len() {
            proof {
                lemma_extends_refl(*s);
                lemma_conserves_refl(*s);
            }
            return Err(Error::LengthMismatch);
        }
        let n = self.literals.len();
        match jm {
            Mode::Constant => {
                let mut calc = Solver::calculator();
                let mut out: Vec<i32> = Vec::new();
                let mut i: usize = 0;
                while i < n
                    invariant
                        self.basic_ok(),
                        other.basic_ok(),
                        self.mode_spec() is Constant,
                        other.mode_spec() is Constant,
                        la == self.lits(),
                        lb == other.lits(),
                        la.len() == self.literals@.len(),
                        lb.len() == other.literals@.len(),
                        n == la.len(),
                        n == lb.len(),
                        calc.wf(),
                        !calc.is_solver_spec(),
                        0 <= i <= n,
                        out@.len() == i,
                        forall|j: int|
                            0 <= j < i ==> (#[trigger] ints(out@)[j]) == (if la[j] == 1 || lb[j] == 1 {
                            1int
                        } else {
                            -1int
                        }),
                    decreases n - i,
                {
                    let x = self.literals[i];
                    let y = other.literals[i];
                    proof {
                        assert(la[i as int] == self.literals@[i as int] as int);
                        assert(lb[i as int] == other.literals@[i as int] as int);
                        assert(la[i as int] == 1 || la[i as int] == -1);
                        assert(lb[i as int] == 1 || lb[i as int] == -1);
                    }
                    let ghost o0 = out@;
                    let v = calc.bool_or(x, y);
                    out.push(v);
                    proof {
                        assert forall|j: int| 0 <= j < i + 1 implies (#[trigger] ints(out@)[j])
                            == (if la[j] == 1 || lb[j] == 1 {
                            1int
                        } else {
                            -1int
                        }) by {
                            if j < i {
                                assert(ints(out@)[j] == ints(o0)[j]);
                            } else {
                                assert(ints(out@)[j] == v as int);
                            }
                        }
                    }
                    i = i + 1;
                }
                proof {
                    lemma_extends_refl(*s);
                    lemma_conserves_refl(*s);
                }
                let bv = BitVec { mode: jm, literals: out };
                proof {
                    assert forall|j: int| 0 <= j < bv.lits().len() implies ((#[trigger] bv.lits()[
                    j]) == 1 || bv.lits()[j] == -1) by {
                        assert(bv.lits()[j] == ints(out@)[j]);
                    }
                }
                Ok(bv)
            },
            Mode::Bound(_) => {
                let ghost prev = *s;
                proof {
                    assert forall|j: int| 0 <= j < la.len() implies lit_ok(
                        #[trigger] la[j],
                        prev.nv(),
                    ) by {
                        if self.mode_spec() is Constant {
                            assert(la[j] == 1 || la[j] == -1);
                        }
                    }
                    assert forall|j: int| 0 <= j < lb.len() implies lit_ok(
                        #[trigger] lb[j],
                        prev.nv(),
                    ) by {
                        if other.mode_spec() is Constant {
                            assert(lb[j] == 1 || lb[j] == -1);
                        }
                    }
                    lemma_extends_refl(*s);
                    lemma_conserves_refl(*s);
                }
                let mut out: Vec<i32> = Vec::new();
                let mut i: usize = 0;
                while i < n
                    invariant
                        prev == *old(s),
                        prev.wf(),
                        s.wf(),
                        s.extends(prev),
                        la == self.lits(),
                        lb == other.lits(),
                        la.len() == self.literals@.len(),
                        lb.len() == other.literals@.len(),
                        n == la.len(),
                        n == lb.len(),
                        lits_ok(la, prev.nv()),
                        lits_ok(lb, prev.nv()),
                        prev.nv() + n <= i32::MAX,
                        0 <= i <= n,
                        s.nv() <= prev.nv() + i,
                        conserves(prev, *s),
                        s.cl().len() <= prev.cl().len() + 3 * i,
                        out@.len() == i,
                        forall|j: int| 0 <= j < i ==> lit_ok(#[trigger] ints(out@)[j], s.nv()),
                        forall|m: Seq<bool>, j: int|
                            #![trigger s.models(m), ints(out@)[j]]
                            s.models(m) && 0 <= j < i ==> lit_sat(m, ints(out@)[j]) == (lit_sat(
                                m,
                                la[j],
                            ) || lit_sat(m, lb[j])),
                    decreases n - i,
                {
                    let x = self.literals[i];
                    let y = other.literals[i];
                    proof {
                        assert(la[i as int] == self.literals@[i as int] as int);
                        assert(lb[i as int] == other.literals@[i as int] as int);
                        assert(lit_ok(la[i as int], prev.nv()));
                        assert(lit_ok(lb[i as int], prev.nv()));
                    }
                    let ghost st0 = *s;
                    let ghost o0 = out@;
                    let v = s.bool_or(x, y);
                    out.push(v);
                    proof {
                        lemma_extends_trans(prev, st0, *s);
                        lemma_conserves_trans(prev, st0, *s);
                        assert forall|j: int| 0 <= j < i + 1 implies lit_ok(
                            #[trigger] ints(out@)[j],
                            s.nv(),
                        ) by {
                            if j < i {
                                assert(ints(out@)[j] == ints(o0)[j]);
                                assert(lit_ok(ints(o0)[j], st0.nv()));
                            } else {
                                assert(ints(out@)[j] == v as int);
                            }
                        }
                        assert forall|m: Seq<bool>, j: int|
                            #![trigger s.models(m), ints(out@)[j]]
                            s.models(m) && 0 <= j < i + 1 implies lit_sat(m, ints(out@)[j]) == (
                        lit_sat(m, la[j]) || lit_sat(m, lb[j])) by {
                            lemma_models_extends(st0, *s, m);
                            if j < i {
                                assert(ints(out@)[j] == ints(o0)[j]);
                                assert(st0.models(m));
                                assert(lit_sat(m, ints(o0)[j]) == (lit_sat(m, la[j]) || lit_sat(
                                    m,
                                    lb[j],
                                )));
                            } else {
                                assert(ints(out@)[j] == v as int);
                            }
                        }
                    }
                    i = i + 1;
                }
                let bv = BitVec { mode: jm, literals: out };
                proof {
                    assert forall|j: int| 0 <= j < bv.lits().len() implies lit_ok(
                        #[trigger] bv.lits()[j],
                        s.nv(),
                    ) by {
                        assert(bv.lits()[j] == ints(out@)[j]);
                    }
                    assert forall|m: Seq<bool>, j: int|
                        #![trigger s.models(m), bv.lits()[j]]
                        s.models(m) && 0 <= j < bv.lits().len() implies lit_sat(m, bv.lits()[j])
                        == (lit_sat(m, la[j]) || lit_sat(m, lb[j])) by {
                        assert(bv.lits()[j] == ints(out@)[j]);
                    }
                }
                Ok(bv)
            },
        }
    }

    /// The pointwise exclusive or of two vectors of equal length. A constant
    /// pair is evaluated without touching the solver; otherwise each
    /// position goes through the exclusive-or gate of the owning solver.
    pub fn bv_xor(&self, other: &BitVec, s: &mut Solver) -> (r: Result<BitVec, Error>)
        requires
            old(s).wf(),
            self.valid_for(old(s)),
            other.valid_for(old(s)),
            old(s).nv() + self.lits().len() <= i32::MAX,
        ensures
            final(s).wf(),
            final(s).extends(*old(s)),
            final(s).nv() <= old(s).nv() + self.lits().len(),
            final(s).cl().len() <= old(s).cl().len() + 4 * self.lits().len(),
            conserves(*old(s), *final(s)),
            r is Ok <==> (usable(self.mode_spec(), other.mode_spec(), old(s)) && self.lits().len()
                == other.lits().len()),
            r is Err ==> *final(s) == *old(s) && (r == Err::<BitVec, Error>(
                Error::IncompatibleSolvers,
            ) && !usable(self.mode_spec(), other.mode_spec(), old(s)) || r == Err::<BitVec, Error>(
                Error::LengthMismatch,
            ) && usable(self.mode_spec(), other.mode_spec(), old(s))),
            match r {
                Ok(bv) => {
                    &&& bv.mode_spec() == joined(self.mode_spec(), other.mode_spec())
                    &&& bv.valid_for(final(s))
                    &&& bv.lits().len() == self.lits().len()
                    &&& (bv.mode_spec() is Constant ==> *final(s) == *old(s) && forall|i: int|
                        0 <= i < bv.lits().len() ==> (#[trigger] bv.lits()[i]) == (
                        if (self.lits()[i] == 1) != (other.lits()[i] == 1) {
                            1int
                        } else {
                            -1int
                        }))
                    &&& (bv.mode_spec() is Bound ==> forall|m: Seq<bool>, i: int|
                        #![trigger final(s).models(m), bv.lits()[i]]
                        final(s).models(m) && 0 <= i < bv.lits().len() ==> lit_sat(m, bv.lits()[i])
                            == (lit_sat(m, self.lits()[i]) != lit_sat(m, other.lits()[i])))
                },
                Err(_) => true,
            },
    {
        let ghost la = self.lits();
        let ghost lb = other.lits();
        let jm = match self.join_with(other, s) {
            Ok(m) => m,
            Err(e) => {
                proof {
                    lemma_extends_refl(*s);
                    lemma_conserves_refl(*s);
                }
                return Err(e);
            },
        };
        if self.literals.len() != other.literals.len() {
            proof {
                lemma_extends_refl(*s);
                lemma_conserves_refl(*s);
            }
            return Err(Error::LengthMismatch);
        }
        let n = self.literals.len();
        match jm {
            Mode::Constant => {
                let mut calc = Solver::calculator();
                let mut out: Vec<i32> = Vec::new();
                let mut i: usize = 0;
                while i < n
                    invariant
                        self.basic_ok(),
                        other.basic_ok(),
                        self.mode_spec() is Constant,
                        other.mode_spec() is Constant,
                        la == self.lits(),
                        lb == other.lits(),
                        la.len() == self.literals@.len(),
                        lb.len() == other.literals@.len(),
                        n == la.len(),
                        n == lb.len(),
                        calc.wf(),
                        !calc.is_solver_spec(),
                        0 <= i <= n,
                        out@.len() == i,
                        forall|j: int|
                            0 <= j < i ==> (#[trigger] ints(out@)[j]) == (if (la[j] == 1) != (lb[j] == 1) {
                            1int
                        } else {
                            -1int
                        }),
                    decreases n - i,
                {
                    let x = self.literals[i];
                    let y = other.literals[i];
                    proof {
                        assert(la[i as int] == self.literals@[i as int] as int);
                        assert(lb[i as int] == other.literals@[i as int] as int);
                        assert(la[i as int] == 1 || la[i as int] == -1);
                        assert(lb[i as int] == 1 || lb[i as int] == -1);
                    }
                    let ghost o0 = out@;
                    let v = calc.bool_xor(x, y);
                    out.push(v);
                    proof {
                        assert forall|j: int| 0 <= j < i + 1 implies (#[trigger] ints(out@)[j])
                            == (if (la[j] == 1) != (lb[j] == 1) {
                            1int
                        } else {
                            -1int
                        }) by {
                            if j < i {
                                assert(ints(out@)[j] == ints(o0)[j]);
                            } else {
                                assert(ints(out@)[j] == v as int);
                            }
                        }
                    }
                    i = i + 1;
                }
                proof {
                    lemma_extends_refl(*s);
                    lemma_conserves_refl(*s);
                }
                let bv = BitVec { mode: jm, literals: out };
                proof {
                    assert forall|j: int| 0 <= j < bv.lits().len() implies ((#[trigger] bv.lits()[
                    j]) == 1 || bv.lits()[j] == -1) by {
                        assert(bv.lits()[j] == ints(out@)[j]);
                    }
                }
                Ok(bv)
            },
            Mode::Bound(_) => {
                let ghost prev = *s;
                proof {
                    assert forall|j: int| 0 <= j < la.len() implies lit_ok(
                        #[trigger] la[j],
                        prev.nv(),
                    ) by {
                        if self.mode_spec() is Constant {
                            assert(la[j] == 1 || la[j] == -1);
                        }
                    }
                    assert forall|j: int| 0 <= j < lb.len() implies lit_ok(
                        #[trigger] lb[j],
                        prev.nv(),
                    ) by {
                        if other.mode_spec() is Constant {
                            assert(lb[j] == 1 || lb[j] == -1);
                        }
                    }
                    lemma_extends_refl(*s);
                    lemma_conserves_refl(*s);
                }
                let mut out: Vec<i32> = Vec::new();
                let mut i: usize = 0;
                while i < n
                    invariant
                        prev == *old(s),
                        prev.wf(),
                        s.wf(),
                        s.extends(prev),
                        la == self.lits(),
                        lb == other.lits(),
                        la.len() == self.literals@.len(),
                        lb.len() == other.literals@.len(),
                        n == la.len(),
                        n == lb.len(),
                        lits_ok(la, prev.nv()),
                        lits_ok(lb, prev.nv()),
                        prev.nv() + n <= i32::MAX,
                        0 <= i <= n,
                        s.nv() <= prev.nv() + i,
                        conserves(prev, *s),
                        s.cl().len() <= prev.cl().len() + 4 * i,
                        out@.len() == i,
                        forall|j: int| 0 <= j < i ==> lit_ok(#[trigger] ints(out@)[j], s.nv()),
                        forall|m: Seq<bool>, j: int|
                            #![trigger s.models(m), ints(out@)[j]]
                            s.models(m) && 0 <= j < i ==> lit_sat(m, ints(out@)[j]) == (lit_sat(
                                m,
                                la[j],
                            ) != lit_sat(m, lb[j])),
                    decreases n - i,
                {
                    let x = self.literals[i];
                    let y = other.literals[i];
                    proof {
                        assert(la[i as int] == self.literals@[i as int] as int);
                        assert(lb[i as int] == other.literals@[i as int] as int);
                        assert(lit_ok(la[i as int], prev.nv()));
                        assert(lit_ok(lb[i as int], prev.nv()));
                    }
                    let ghost st0 = *s;
                    let ghost o0 = out@;
                    let v = s.bool_xor(x, y);
                    out.push(v);
                    proof {
                        lemma_extends_trans(prev, st0, *s);
                        lemma_conserves_trans(prev, st0, *s);
                        assert forall|j: int| 0 <= j < i + 1 implies lit_ok(
                            #[trigger] ints(out@)[j],
                            s.nv(),
                        ) by {
                            if j < i {
                                assert(ints(out@)[j] == ints(o0)[j]);
                                assert(lit_ok(ints(o0)[j], st0.nv()));
                            } else {
                                assert(ints(out@)[j] == v as int);
                            }
                        }
                        assert forall|m: Seq<bool>, j: int|
                            #![trigger s.models(m), ints(out@)[j]]
                            s.models(m) && 0 <= j < i + 1 implies lit_sat(m, ints(out@)[j]) == (
                        lit_sat(m, la[j]) != lit_sat(m, lb[j])) by {
                            lemma_models_extends(st0, *s, m);
                            if j < i {
                                assert(ints(out@)[j] == ints(o0)[j]);
                                assert(st0.models(m));
                                assert(lit_sat(m, ints(o0)[j]) == (lit_sat(m, la[j]) != lit_sat(
                                    m,
                                    lb[j],
                                )));
                            } else {
                                assert(ints(out@)[j] == v as int);
                            }
                        }
                    }
                    i = i + 1;
                }
                let bv = BitVec { mode: jm, literals: out };
                proof {
                    assert forall|j: int| 0 <= j < bv.lits().len() implies lit_ok(
                        #[trigger] bv.lits()[j],
                        s.nv(),
                    ) by {
                        assert(bv.lits()[j] == ints(out@)[j]);
                    }
                    assert forall|m: Seq<bool>, j: int|
                        #![trigger s.models(m), bv.lits()[j]]
                        s.models(m) && 0 <= j < bv.lits().len() implies lit_sat(m, bv.lits()[j])
                        == (lit_sat(m, la[j]) != lit_sat(m, lb[j])) by {
                        assert(bv.lits()[j] == ints(out@)[j]);
                    }
                }
                Ok(bv)
            },
        }
    }
}

impl BitVec {
    /// Returns a one-literal vector meaning the two vectors are equal as binary numbers. The two
    /// vectors must have the same length and be joinable.
    pub fn comp_eq(&self, other: &BitVec, s: &mut Solver) -> (r: Result<BitVec, Error>)
        requires
            old(s).wf(),
            self.valid_for(old(s)),
            other.valid_for(old(s)),
            old(s).nv() + 2 * self.lits().len() <= i32::MAX,
        ensures
            final(s).wf(),
            final(s).extends(*old(s)),
            final(s).nv() <= old(s).nv() + 2 * self.lits().len(),
            final(s).cl().len() <= old(s).cl().len() + 7 * self.lits().len(),
            conserves(*old(s), *final(s)),
            r is Ok <==> (usable(self.mode_spec(), other.mode_spec(), old(s)) && self.lits().len()
                == other.lits().len()),
            r is Err ==> *final(s) == *old(s) && (r == Err::<BitVec, Error>(
                Error::IncompatibleSolvers,
            ) && !usable(self.mode_spec(), other.mode_spec(), old(s)) || r == Err::<BitVec, Error>(
                Error::LengthMismatch,
            ) && usable(self.mode_spec(), other.mode_spec(), old(s))),
            match r {
                Ok(bv) => {
                    &&& bv.mode_spec() == joined(self.mode_spec(), other.mode_spec())
                    &&& bv.valid_for(final(s))
                    &&& bv.lits().len() == 1
                    &&& (bv.mode_spec() is Constant ==> *final(s) == *old(s) && (bv.lits()[0] == 1
                        || bv.lits()[0] == -1) && (bv.lits()[0] == 1 <==> bits_val(
                        calc_env(),
                        self.lits(),
                    ) == bits_val(calc_env(), other.lits())))
                    &&& (bv.mode_spec() is Bound ==> forall|m: Seq<bool>| #[trigger]
                        final(s).models(m) ==> lit_sat(m, bv.lits()[0]) == (bits_val(
                            m,
                            self.lits(),
                        ) == bits_val(m, other.lits())))
                },
                Err(_) => true,
            },
    {
        let jm = match self.join_with(other, s) {
            Ok(m) => m,
            Err(e) => {
                proof {
                    lemma_extends_refl(*s);
                    lemma_conserves_refl(*s);
                }
                return Err(e);
            },
        };
        if self.literals.len() != other.literals.len() {
            proof {
                lemma_extends_refl(*s);
                lemma_conserves_refl(*s);
            }
            return Err(Error::LengthMismatch);
        }
        match jm {
            Mode::Constant => {
                let mut calc = Solver::calculator();
                let v = match calc.comp_eq(&self.literals, &other.literals) {
                    Ok(v) => v,
                    Err(_) => {
                        proof {
                            assert(false);
                        }
                        0
                    },
                };
                proof {
                    lemma_extends_refl(*s);
                    lemma_conserves_refl(*s);
                }
                let out: Vec<i32> = vec![v];
                let bv = BitVec { mode: jm, literals: out };
                proof {
                    assert(bv.lits() =~= seq![v as int]);
                }
                Ok(bv)
            },
            Mode::Bound(_) => {
                let ghost prev = *s;
                proof {
                    assert forall|j: int| 0 <= j < self.lits().len() implies lit_ok(
                        #[trigger] self.lits()[j],
                        prev.nv(),
                    ) by {
                        if self.mode_spec() is Constant {
                            assert(self.lits()[j] == 1 || self.lits()[j] == -1);
                        }
                    }
                    assert forall|j: int| 0 <= j < other.lits().len() implies lit_ok(
                        #[trigger] other.lits()[j],
                        prev.nv(),
                    ) by {
                        if other.mode_spec() is Constant {
                            assert(other.lits()[j] == 1 || other.lits()[j] == -1);
                        }
                    }
                }
                let v = match s.comp_eq(&self.literals, &other.literals) {
                    Ok(v) => v,
                    Err(_) => {
                        proof {
                            assert(false);
                        }
                        0
                    },
                };
                let out: Vec<i32> = vec![v];
                let bv = BitVec { mode: jm, literals: out };
                proof {
                    assert(bv.lits() =~= seq![v as int]);
                }
                Ok(bv)
            },
        }
    }

    /// Returns a one-literal vector meaning the two vectors differ as binary numbers. The two
    /// vectors must have the same length and be joinable.
    pub fn comp_ne(&self, other: &BitVec, s: &mut Solver) -> (r: Result<BitVec, Error>)
        requires
            old(s).wf(),
            self.valid_for(old(s)),
            other.valid_for(old(s)),
            old(s).nv() + 2 * self.lits().len() <= i32::MAX,
        ensures
            final(s).wf(),
            final(s).extends(*old(s)),
            final(s).nv() <= old(s).nv() + 2 * self.lits().len(),
            final(s).cl().len() <= old(s).cl().len() + 7 * self.lits().len(),
            conserves(*old(s), *final(s)),
            r is Ok <==> (usable(self.mode_spec(), other.mode_spec(), old(s)) && self.lits().len()
                == other.lits().len()),
            r is Err ==> *final(s) == *old(s) && (r == Err::<BitVec, Error>(
                Error::IncompatibleSolvers,
            ) && !usable(self.mode_spec(), other.mode_spec(), old(s)) || r == Err::<BitVec, Error>(
                Error::LengthMismatch,
            ) && usable(self.mode_spec(), other.mode_spec(), old(s))),
            match r {
                Ok(bv) => {
                    &&& bv.mode_spec() == joined(self.mode_spec(), other.mode_spec())
                    &&& bv.valid_for(final(s))
                    &&& bv.lits().len() == 1
                    &&& (bv.mode_spec() is Constant ==> *final(s) == *old(s) && (bv.lits()[0] == 1
                        || bv.lits()[0] == -1) && (bv.lits()[0] == 1 <==> bits_val(
                        calc_env(),
                        self.lits(),
                    ) != bits_val(calc_env(), other.lits())))
                    &&& (bv.mode_spec() is Bound ==> forall|m: Seq<bool>| #[trigger]
                        final(s).models(m) ==> lit_sat(m, bv.lits()[0]) == (bits_val(
                            m,
                            self.lits(),
                        ) != bits_val(m, other.lits())))
                },
                Err(_) => true,
            },
    {
        let jm = match self.join_with(other, s) {
            Ok(m) => m,
            Err(e) => {
                proof {
                    lemma_extends_refl(*s);
                    lemma_conserves_refl(*s);
                }
                return Err(e);
            },
        };
        if self.literals.len() != other.literals.len() {
            proof {
                lemma_extends_refl(*s);
                lemma_conserves_refl(*s);
            }
            return Err(Error::LengthMismatch);
        }
        match jm {
            Mode::Constant => {
                let mut calc = Solver::calculator();
                let v = match calc.comp_ne(&self.literals, &other.literals) {
                    Ok(v) => v,
                    Err(_) => {
                        proof {
                            assert(false);
                        }
                        0
                    },
                };
                proof {
                    lemma_extends_refl(*s);
                    lemma_conserves_refl(*s);
                }
                let out: Vec<i32> = vec![v];
                let bv = BitVec { mode: jm, literals: out };
                proof {
                    assert(bv.lits() =~= seq![v as int]);
                }
                Ok(bv)
            },
            Mode::Bound(_) => {
                let ghost prev = *s;
                proof {
                    assert forall|j: int| 0 <= j < self.lits().len() implies lit_ok(
                        #[trigger] self.lits()[j],
                        prev.nv(),
                    ) by {
                        if self.mode_spec() is Constant {
                            assert(self.lits()[j] == 1 || self.lits()[j] == -1);
                        }
                    }
                    assert forall|j: int| 0 <= j < other.lits().len() implies lit_ok(
                        #[trigger] other.lits()[j],
                        prev.nv(),
                    ) by {
                        if other.mode_spec() is Constant {
                            assert(other.lits()[j] == 1 || other.lits()[j] == -1);
                        }
                    }
                }
                let v = match s.comp_ne(&self.literals, &other.literals) {
                    Ok(v) => v,
                    Err(_) => {
                        proof {
                            assert(false);
                        }
                        0
                    },
                };
                let out: Vec<i32> = vec![v];
                let bv = BitVec { mode: jm, literals: out };
                proof {
                    assert(bv.lits() =~= seq![v as int]);
                }
                Ok(bv)
            },
        }
    }

    /// Returns a one-literal vector meaning this vector is at most the other as a binary number,
    /// least significant bit first; `[TRUE, FALSE]` is 1 and `[FALSE, TRUE]` is 2. The two
    /// vectors must have the same length and be joinable.
    pub fn comp_le(&self, other: &BitVec, s: &mut Solver) -> (r: Result<BitVec, Error>)
        requires
            old(s).wf(),
            self.valid_for(old(s)),
            other.valid_for(old(s)),
            old(s).nv() + 2 * self.lits().len() <= i32::MAX,
        ensures
            final(s).wf(),
            final(s).extends(*old(s)),
            final(s).nv() <= old(s).nv() + 2 * self.lits().len(),
            final(s).cl().len() <= old(s).cl().len() + 8 * self.lits().len(),
            conserves(*old(s), *final(s)),
            r is Ok <==> (usable(self.mode_spec(), other.mode_spec(), old(s)) && self.lits().len()
                == other.lits().len()),
            r is Err ==> *final(s) == *old(s) && (r == Err::<BitVec, Error>(
                Error::IncompatibleSolvers,
            ) && !usable(self.mode_spec(), other.mode_spec(), old(s)) || r == Err::<BitVec, Error>(
                Error::LengthMismatch,
            ) && usable(self.mode_spec(), other.mode_spec(), old(s))),
            match r {
                Ok(bv) => {
                    &&& bv.mode_spec() == joined(self.mode_spec(), other.mode_spec())
                    &&& bv.valid_for(final(s))
                    &&& bv.lits().len() == 1
                    &&& (bv.mode_spec() is Constant ==> *final(s) == *old(s) && (bv.lits()[0] == 1
                        || bv.lits()[0] == -1) && (bv.lits()[0] == 1 <==> bits_val(
                        calc_env(),
                        self.lits(),
                    ) <= bits_val(calc_env(), other.lits())))
                    &&& (bv.mode_spec() is Bound ==> forall|m: Seq<bool>| #[trigger]
                        final(s).models(m) ==> lit_sat(m, bv.lits()[0]) == (bits_val(
                            m,
                            self.lits(),
                        ) <= bits_val(m, other.lits())))
                },
                Err(_) => true,
            },
    {
        let jm = match self.join_with(other, s) {
            Ok(m) => m,
            Err(e) => {
                proof {
                    lemma_extends_refl(*s);
                    lemma_conserves_refl(*s);
                }
                return Err(e);
            },
        };
        if self.literals.len() != other.literals.len() {
            proof {
                lemma_extends_refl(*s);
                lemma_conserves_refl(*s);
            }
            return Err(Error::LengthMismatch);
        }
        match jm {
            Mode::Constant => {
                let mut calc = Solver::calculator();
                let v = match calc.comp_le(&self.literals, &other.literals) {
                    Ok(v) => v,
                    Err(_) => {
                        proof {
                            assert(false);
                        }
                        0
                    },
                };
                proof {
                    lemma_extends_refl(*s);
                    lemma_conserves_refl(*s);
                }
                let out: Vec<i32> = vec![v];
                let bv = BitVec { mode: jm, literals: out };
                proof {
                    assert(bv.lits() =~= seq![v as int]);
                }
                Ok(bv)
            },
            Mode::Bound(_) => {
                let ghost prev = *s;
                proof {
                    assert forall|j: int| 0 <= j < self.lits().len() implies lit_ok(
                        #[trigger] self.lits()[j],
                        prev.nv(),
                    ) by {
                        if self.mode_spec() is Constant {
                            assert(self.lits()[j] == 1 || self.lits()[j] == -1);
                        }
                    }
                    assert forall|j: int| 0 <= j < other.lits().len() implies lit_ok(
                        #[trigger] other.lits()[j],
                        prev.nv(),
                    ) by {
                        if other.mode_spec() is Constant {
                            assert(other.lits()[j] == 1 || other.lits()[j] == -1);
                        }
                    }
                }
                let v = match s.comp_le(&self.literals, &other.literals) {
                    Ok(v) => v,
                    Err(_) => {
                        proof {
                            assert(false);
                        }
                        0
                    },
                };
                let out: Vec<i32> = vec![v];
                let bv = BitVec { mode: jm, literals: out };
                proof {
                    assert(bv.lits() =~= seq![v as int]);
                }
                Ok(bv)
            },
        }
    }

    /// Returns a one-literal vector meaning this vector is at least the other as a binary number,
    /// least significant bit first. The two
    /// vectors must have the same length and be joinable.
    pub fn comp_ge(&self, other: &BitVec, s: &mut Solver) -> (r: Result<BitVec, Error>)
        requires
            old(s).wf(),
            self.valid_for(old(s)),
            other.valid_for(old(s)),
            old(s).nv() + 2 * self.lits().len() <= i32::MAX,
        ensures
            final(s).wf(),
            final(s).extends(*old(s)),
            final(s).nv() <= old(s).nv() + 2 * self.lits().len(),
            final(s).cl().len() <= old(s).cl().len() + 8 * self.lits().len(),
            conserves(*old(s), *final(s)),
            r is Ok <==> (usable(self.mode_spec(), other.mode_spec(), old(s)) && self.lits().len()
                == other.lits().len()),
            r is Err ==> *final(s) == *old(s) && (r == Err::<BitVec, Error>(
                Error::IncompatibleSolvers,
            ) && !usable(self.mode_spec(), other.mode_spec(), old(s)) || r == Err::<BitVec, Error>(
                Error::LengthMismatch,
            ) && usable(self.mode_spec(), other.mode_spec(), old(s))),
            match r {
                Ok(bv) => {
                    &&& bv.mode_spec() == joined(self.mode_spec(), other.mode_spec())
                    &&& bv.valid_for(final(s))
                    &&& bv.lits().len() == 1
                    &&& (bv.mode_spec() is Constant ==> *final(s) == *old(s) && (bv.lits()[0] == 1
                        || bv.lits()[0] == -1) && (bv.lits()[0] == 1 <==> bits_val(
                        calc_env(),
                        self.lits(),
                    ) >= bits_val(calc_env(), other.lits())))
                    &&& (bv.mode_spec() is Bound ==> forall|m: Seq<bool>| #[trigger]
                        final(s).models(m) ==> lit_sat(m, bv.lits()[0]) == (bits_val(
                            m,
                            self.lits(),
                        ) >= bits_val(m, other.lits())))
                },
                Err(_) => true,
            },
    {
        let jm = match self.join_with(other, s) {
            Ok(m) => m,
            Err(e) => {
                proof {
                    lemma_extends_refl(*s);
                    lemma_conserves_refl(*s);
                }
                return Err(e);
            },
        };
        if self.literals.len() != other.literals.len() {
            proof {
                lemma_extends_refl(*s);
                lemma_conserves_refl(*s);
            }
            return Err(Error::LengthMismatch);
        }
        match jm {
            Mode::Constant => {
                let mut calc = Solver::calculator();
                let v = match calc.comp_ge(&self.literals, &other.literals) {
                    Ok(v) => v,
                    Err(_) => {
                        proof {
                            assert(false);
                        }
                        0
                    },
                };
                proof {
                    lemma_extends_refl(*s);
                    lemma_conserves_refl(*s);
                }
                let out: Vec<i32> = vec![v];
                let bv = BitVec { mode: jm, literals: out };
                proof {
                    assert(bv.lits() =~= seq![v as int]);
                }
                Ok(bv)
            },
            Mode::Bound(_) => {
                let ghost prev = *s;
                proof {
                    assert forall|j: int| 0 <= j < self.lits().len() implies lit_ok(
                        #[trigger] self.lits()[j],
                        prev.nv(),
                    ) by {
                        if self.mode_spec() is Constant {
                            assert(self.lits()[j] == 1 || self.lits()[j] == -1);
                        }
                    }
                    assert forall|j: int| 0 <= j < other.lits().len() implies lit_ok(
                        #[trigger] other.lits()[j],
                        prev.nv(),
                    ) by {
                        if other.mode_spec() is Constant {
                            assert(other.lits()[j] == 1 || other.lits()[j] == -1);
                        }
                    }
                }
                let v = match s.comp_ge(&self.literals, &other.literals) {
                    Ok(v) => v,
                    Err(_) => {
                        proof {
                            assert(false);
                        }
                        0
                    },
                };
                let out: Vec<i32> = vec![v];
                let bv = BitVec { mode: jm, literals: out };
                proof {
                    assert(bv.lits() =~= seq![v as int]);
                }
                Ok(bv)
            },
        }
    }

    /// Returns a one-literal vector meaning this vector is strictly smaller than the other as a
    /// binary number, least significant bit first. The two
    /// vectors must have the same length and be joinable.
    pub fn comp_lt(&self, other: &BitVec, s: &mut Solver) -> (r: Result<BitVec, Error>)
        requires
            old(s).wf(),
            self.valid_for(old(s)),
            other.valid_for(old(s)),
            old(s).nv() + 2 * self.lits().len() <= i32::MAX,
        ensures
            final(s).wf(),
            final(s).extends(*old(s)),
            final(s).nv() <= old(s).nv() + 2 * self.lits().len(),
            final(s).cl().len() <= old(s).cl().len() + 8 * self.lits().len(),
            conserves(*old(s), *final(s)),
            r is Ok <==> (usable(self.mode_spec(), other.mode_spec(), old(s)) && self.lits().len()
                == other.lits().len()),
            r is Err ==> *final(s) == *old(s) && (r == Err::<BitVec, Error>(
                Error::IncompatibleSolvers,
            ) && !usable(self.mode_spec(), other.mode_spec(), old(s)) || r == Err::<BitVec, Error>(
                Error::LengthMismatch,
            ) && usable(self.mode_spec(), other.mode_spec(), old(s))),
            match r {
                Ok(bv) => {
                    &&& bv.mode_spec() == joined(self.mode_spec(), other.mode_spec())
                    &&& bv.valid_for(final(s))
                    &&& bv.lits().len() == 1
                    &&& (bv.mode_spec() is Constant ==> *final(s) == *old(s) && (bv.lits()[0] == 1
                        || bv.lits()[0] == -1) && (bv.lits()[0] == 1 <==> bits_val(
                        calc_env(),
                        self.lits(),
                    ) < bits_val(calc_env(), other.lits())))
                    &&& (bv.mode_spec() is Bound ==> forall|m: Seq<bool>| #[trigger]
                        final(s).models(m) ==> lit_sat(m, bv.lits()[0]) == (bits_val(
                            m,
                            self.lits(),
                        ) < bits_val(m, other.lits())))
                },
                Err(_) => true,
            },
    {
        let jm = match self.join_with(other, s) {
            Ok(m) => m,
            Err(e) => {
                proof {
                    lemma_extends_refl(*s);
                    lemma_conserves_refl(*s);
                }
                return Err(e);
            },
        };
        if self.literals.len() != other.literals.len() {
            proof {
                lemma_extends_refl(*s);
                lemma_conserves_refl(*s);
            }
            return Err(Error::LengthMismatch);
        }
        match jm {
            Mode::Constant => {
                let mut calc = Solver::calculator();
                let v = match calc.comp_lt(&self.literals, &other.literals) {
                    Ok(v) => v,
                    Err(_) => {
                        proof {
                            assert(false);
                        }
                        0
                    },
                };
                proof {
                    lemma_extends_refl(*s);
                    lemma_conserves_refl(*s);
                }
                let out: Vec<i32> = vec![v];
                let bv = BitVec { mode: jm, literals: out };
                proof {
                    assert(bv.lits() =~= seq![v as int]);
                }
                Ok(bv)
            },
            Mode::Bound(_) => {
                let ghost prev = *s;
                proof {
                    assert forall|j: int| 0 <= j < self.lits().len() implies lit_ok(
                        #[trigger] self.lits()[j],
                        prev.nv(),
                    ) by {
                        if self.mode_spec() is Constant {
                            assert(self.lits()[j] == 1 || self.lits()[j] == -1);
                        }
                    }
                    assert forall|j: int| 0 <= j < other.lits().len() implies lit_ok(
                        #[trigger] other.lits()[j],
                        prev.nv(),
                    ) by {
                        if other.mode_spec() is Constant {
                            assert(other.lits()[j] == 1 || other.lits()[j] == -1);
                        }
                    }
                }
                let v = match s.comp_lt(&self.literals, &other.literals) {
                    Ok(v) => v,
                    Err(_) => {
                        proof {
                            assert(false);
                        }
                        0
                    },
                };
                let out: Vec<i32> = vec![v];
                let bv = BitVec { mode: jm, literals: out };
                proof {
                    assert(bv.lits() =~= seq![v as int]);
                }
                Ok(bv)
            },
        }
    }

    /// Returns a one-literal vector meaning this vector is strictly greater than the other as a
    /// binary number, least significant bit first. The two
    /// vectors must have the same length and be joinable.
    pub fn comp_gt(&self, other: &BitVec, s: &mut Solver) -> (r: Result<BitVec, Error>)
        requires
            old(s).wf(),
            self.valid_for(old(s)),
            other.valid_for(old(s)),
            old(s).nv() + 2 * self.lits().len() <= i32::MAX,
        ensures
            final(s).wf(),
            final(s).extends(*old(s)),
            final(s).nv() <= old(s).nv() + 2 * self.lits().len(),
            final(s).cl().len() <= old(s).cl().len() + 8 * self.lits().len(),
            conserves(*old(s), *final(s)),
            r is Ok <==> (usable(self.mode_spec(), other.mode_spec(), old(s)) && self.lits().len()
                == other.lits().len()),
            r is Err ==> *final(s) == *old(s) && (r == Err::<BitVec, Error>(
                Error::IncompatibleSolvers,
            ) && !usable(self.mode_spec(), other.mode_spec(), old(s)) || r == Err::<BitVec, Error>(
                Error::LengthMismatch,
            ) && usable(self.mode_spec(), other.mode_spec(), old(s))),
            match r {
                Ok(bv) => {
                    &&& bv.mode_spec() == joined(self.mode_spec(), other.mode_spec())
                    &&& bv.valid_for(final(s))
                    &&& bv.lits().len() == 1
                    &&& (bv.mode_spec() is Constant ==> *final(s) == *old(s) && (bv.lits()[0] == 1
                        || bv.lits()[0] == -1) && (bv.lits()[0] == 1 <==> bits_val(
                        calc_env(),
                        self.lits(),
                    ) > bits_val(calc_env(), other.lits())))
                    &&& (bv.mode_spec() is Bound ==> forall|m: Seq<bool>| #[trigger]
                        final(s).models(m) ==> lit_sat(m, bv.lits()[0]) == (bits_val(
                            m,
                            self.lits(),
                        ) > bits_val(m, other.lits())))
                },
                Err(_) => true,
            },
    {
        let jm = match self.join_with(other, s) {
            Ok(m) => m,
            Err(e) => {
                proof {
                    lemma_extends_refl(*s);
                    lemma_conserves_refl(*s);
                }
                return Err(e);
            },
        };
        if self.literals.len() != other.literals.len() {
            proof {
                lemma_extends_refl(*s);
                lemma_conserves_refl(*s);
            }
            return Err(Error::LengthMismatch);
        }
        match jm {
            Mode::Constant => {
                let mut calc = Solver::calculator();
                let v = match calc.comp_gt(&self.literals, &other.literals) {
                    Ok(v) => v,
                    Err(_) => {
                        proof {
                            assert(false);
                        }
                        0
                    },
                };
                proof {
                    lemma_extends_refl(*s);
                    lemma_conserves_refl(*s);
                }
                let out: Vec<i32> = vec![v];
                let bv = BitVec { mode: jm, literals: out };
                proof {
                    assert(bv.lits() =~= seq![v as int]);
                }
                Ok(bv)
            },
            Mode::Bound(_) => {
                let ghost prev = *s;
                proof {
                    assert forall|j: int| 0 <= j < self.lits().len() implies lit_ok(
                        #[trigger] self.lits()[j],
                        prev.nv(),
                    ) by {
                        if self.mode_spec() is Constant {
                            assert(self.lits()[j] == 1 || self.lits()[j] == -1);
                        }
                    }
                    assert forall|j: int| 0 <= j < other.lits().len() implies lit_ok(
                        #[trigger] other.lits()[j],
                        prev.nv(),
                    ) by {
                        if other.mode_spec() is Constant {
                            assert(other.lits()[j] == 1 || other.lits()[j] == -1);
                        }
                    }
                }
                let v = match s.comp_gt(&self.literals, &other.literals) {
                    Ok(v) => v,
                    Err(_) => {
                        proof {
                            assert(false);
                        }
                        0
                    },
                };
                let out: Vec<i32> = vec![v];
                let bv = BitVec { mode: jm, literals: out };
                proof {
                    assert(bv.lits() =~= seq![v as int]);
                }
                Ok(bv)
            },
        }
    }
}

impl BitVec {
    /// Returns a one-literal vector meaning every literal of this vector is
    /// true: the conjunction fold.
    pub fn fold_all(&self, s: &mut Solver) -> (r: Result<BitVec, Error>)
        requires
            old(s).wf(),
            self.valid_for(old(s)),
            old(s).nv() + self.lits().len() <= i32::MAX,
        ensures
            final(s).wf(),
            final(s).extends(*old(s)),
            final(s).nv() <= old(s).nv() + self.lits().len(),
            final(s).cl().len() <= old(s).cl().len() + 3 * self.lits().len(),
            conserves(*old(s), *final(s)),
            r is Ok <==> (self.mode_spec() is Constant || self.owned_by(old(s))),
            r is Err ==> *final(s) == *old(s) && r == Err::<BitVec, Error>(
                Error::IncompatibleSolvers,
            ),
            match r {
                Ok(bv) => {
                    &&& bv.mode_spec() == self.mode_spec()
                    &&& bv.valid_for(final(s))
                    &&& bv.lits().len() == 1
                    &&& (self.mode_spec() is Constant ==> *final(s) == *old(s) && (bv.lits()[0]
                        == 1 || bv.lits()[0] == -1) && (bv.lits()[0] == 1 <==> seq_all(calc_env(), self.lits())))
                    &&& (self.mode_spec() is Bound ==> forall|m: Seq<bool>| #[trigger]
                        final(s).models(m) ==> lit_sat(m, bv.lits()[0]) == (seq_all(m, self.lits())))
                },
                Err(_) => true,
            },
    {
        match self.mode {
            Mode::Constant => {
                let mut calc = Solver::calculator();
                let v = calc.fold_all(&self.literals);
                proof {
                    lemma_extends_refl(*s);
                    lemma_conserves_refl(*s);
                }
                let out: Vec<i32> = vec![v];
                let bv = BitVec { mode: self.mode, literals: out };
                proof {
                    assert(bv.lits() =~= seq![v as int]);
                }
                Ok(bv)
            },
            Mode::Bound(id) => {
                if !(s.is_solver() && id == s.get_id()) {
                    proof {
                        lemma_extends_refl(*s);
                        lemma_conserves_refl(*s);
                    }
                    return Err(Error::IncompatibleSolvers);
                }
                let v = s.fold_all(&self.literals);
                let out: Vec<i32> = vec![v];
                let bv = BitVec { mode: self.mode, literals: out };
                proof {
                    assert(bv.lits() =~= seq![v as int]);
                }
                Ok(bv)
            },
        }
    }

    /// Returns a one-literal vector meaning at least one literal of this
    /// vector is true: the disjunction fold.
    pub fn fold_any(&self, s: &mut Solver) -> (r: Result<BitVec, Error>)
        requires
            old(s).wf(),
            self.valid_for(old(s)),
            old(s).nv() + self.lits().len() <= i32::MAX,
        ensures
            final(s).wf(),
            final(s).extends(*old(s)),
            final(s).nv() <= old(s).nv() + self.lits().len(),
            final(s).cl().len() <= old(s).cl().len() + 3 * self.lits().len(),
            conserves(*old(s), *final(s)),
            r is Ok <==> (self.mode_spec() is Constant || self.owned_by(old(s))),
            r is Err ==> *final(s) == *old(s) && r == Err::<BitVec, Error>(
                Error::IncompatibleSolvers,
            ),
            match r {
                Ok(bv) => {
                    &&& bv.mode_spec() == self.mode_spec()
                    &&& bv.valid_for(final(s))
                    &&& bv.lits().len() == 1
                    &&& (self.mode_spec() is Constant ==> *final(s) == *old(s) && (bv.lits()[0]
                        == 1 || bv.lits()[0] == -1) && (bv.lits()[0] == 1 <==> clause_sat(calc_env(), self.lits())))
                    &&& (self.mode_spec() is Bound ==> forall|m: Seq<bool>| #[trigger]
                        final(s).models(m) ==> lit_sat(m, bv.lits()[0]) == (clause_sat(m, self.lits())))
                },
                Err(_) => true,
            },
    {
        match self.mode {
            Mode::Constant => {
                let mut calc = Solver::calculator();
                let v = calc.fold_any(&self.literals);
                proof {
                    lemma_extends_refl(*s);
                    lemma_conserves_refl(*s);
                }
                let out: Vec<i32> = vec![v];
                let bv = BitVec { mode: self.mode, literals: out };
                proof {
                    assert(bv.lits() =~= seq![v as int]);
                }
                Ok(bv)
            },
            Mode::Bound(id) => {
                if !(s.is_solver() && id == s.get_id()) {
                    proof {
                        lemma_extends_refl(*s);
                        lemma_conserves_refl(*s);
                    }
                    return Err(Error::IncompatibleSolvers);
                }
                let v = s.fold_any(&self.literals);
                let out: Vec<i32> = vec![v];
                let bv = BitVec { mode: self.mode, literals: out };
                proof {
                    assert(bv.lits() =~= seq![v as int]);
                }
                Ok(bv)
            },
        }
    }

    /// Returns a one-literal vector meaning exactly one literal of this
    /// vector is true, built by the linear two-counter aggregation.
    pub fn fold_one(&self, s: &mut Solver) -> (r: Result<BitVec, Error>)
        requires
            old(s).wf(),
            self.valid_for(old(s)),
            old(s).nv() + 3 * self.lits().len() + 1 <= i32::MAX,
        ensures
            final(s).wf(),
            final(s).extends(*old(s)),
            final(s).nv() <= old(s).nv() + 3 * self.lits().len() + 1,
            final(s).cl().len() <= old(s).cl().len() + 9 * self.lits().len() + 4,
            conserves(*old(s), *final(s)),
            r is Ok <==> (self.mode_spec() is Constant || self.owned_by(old(s))),
            r is Err ==> *final(s) == *old(s) && r == Err::<BitVec, Error>(
                Error::IncompatibleSolvers,
            ),
            match r {
                Ok(bv) => {
                    &&& bv.mode_spec() == self.mode_spec()
                    &&& bv.valid_for(final(s))
                    &&& bv.lits().len() == 1
                    &&& (self.mode_spec() is Constant ==> *final(s) == *old(s) && (bv.lits()[0]
                        == 1 || bv.lits()[0] == -1) && (bv.lits()[0] == 1 <==> num_true(calc_env(), self.lits()) == 1))
                    &&& (self.mode_spec() is Bound ==> forall|m: Seq<bool>| #[trigger]
                        final(s).models(m) ==> lit_sat(m, bv.lits()[0]) == (num_true(m, self.lits()) == 1))
                },
                Err(_) => true,
            },
    {
        match self.mode {
            Mode::Constant => {
                let mut calc = Solver::calculator();
                let v = calc.fold_one(&self.literals);
                proof {
                    lemma_extends_refl(*s);
                    lemma_conserves_refl(*s);
                }
                let out: Vec<i32> = vec![v];
                let bv = BitVec { mode: self.mode, literals: out };
                proof {
                    assert(bv.lits() =~= seq![v as int]);
                }
                Ok(bv)
            },
            Mode::Bound(id) => {
                if !(s.is_solver() && id == s.get_id()) {
                    proof {
                        lemma_extends_refl(*s);
                        lemma_conserves_refl(*s);
                    }
                    return Err(Error::IncompatibleSolvers);
                }
                let v = s.fold_one(&self.literals);
                let out: Vec<i32> = vec![v];
                let bv = BitVec { mode: self.mode, literals: out };
                proof {
                    assert(bv.lits() =~= seq![v as int]);
                }
                Ok(bv)
            },
        }
    }

    /// Returns a one-literal vector meaning at most one literal of this
    /// vector is true, built by the linear two-counter aggregation.
    pub fn fold_amo(&self, s: &mut Solver) -> (r: Result<BitVec, Error>)
        requires
            old(s).wf(),
            self.valid_for(old(s)),
            old(s).nv() + 3 * self.lits().len() <= i32::MAX,
        ensures
            final(s).wf(),
            final(s).extends(*old(s)),
            final(s).nv() <= old(s).nv() + 3 * self.lits().len(),
            final(s).cl().len() <= old(s).cl().len() + 9 * self.lits().len(),
            conserves(*old(s), *final(s)),
            r is Ok <==> (self.mode_spec() is Constant || self.owned_by(old(s))),
            r is Err ==> *final(s) == *old(s) && r == Err::<BitVec, Error>(
                Error::IncompatibleSolvers,
            ),
            match r {
                Ok(bv) => {
                    &&& bv.mode_spec() == self.mode_spec()
                    &&& bv.valid_for(final(s))
                    &&& bv.lits().len() == 1
                    &&& (self.mode_spec() is Constant ==> *final(s) == *old(s) && (bv.lits()[0]
                        == 1 || bv.lits()[0] == -1) && (bv.lits()[0] == 1 <==> num_true(calc_env(), self.lits()) <= 1))
                    &&& (self.mode_spec() is Bound ==> forall|m: Seq<bool>| #[trigger]
                        final(s).models(m) ==> lit_sat(m, bv.lits()[0]) == (num_true(m, self.lits()) <= 1))
                },
                Err(_) => true,
            },
    {
        match self.mode {
            Mode::Constant => {
                let mut calc = Solver::calculator();
                let v = calc.fold_amo(&self.literals);
                proof {
                    lemma_extends_refl(*s);
                    lemma_conserves_refl(*s);
                }
                let out: Vec<i32> = vec![v];
                let bv = BitVec { mode: self.mode, literals: out };
                proof {
                    assert(bv.lits() =~= seq![v as int]);
                }
                Ok(bv)
            },
            Mode::Bound(id) => {
                if !(s.is_solver() && id == s.get_id()) {
                    proof {
                        lemma_extends_refl(*s);
                        lemma_conserves_refl(*s);
                    }
                    return Err(Error::IncompatibleSolvers);
                }
                let v = s.fold_amo(&self.literals);
                let out: Vec<i32> = vec![v];
                let bv = BitVec { mode: self.mode, literals: out };
                proof {
                    assert(bv.lits() =~= seq![v as int]);
                }
                Ok(bv)
            },
        }
    }

    /// Permanently asserts every literal of this vector: in solver mode each
    /// literal becomes a unit clause; in constant mode the call merely
    /// checks that every literal is TRUE, with no state change.
    pub fn ensure_all(&self, s: &mut Solver) -> (r: Result<(), Error>)
        requires
            old(s).wf(),
            self.valid_for(old(s)),
        ensures
            final(s).wf(),
            final(s).extends(*old(s)),
            final(s).nv() == old(s).nv(),
            r is Ok <==> ((self.mode_spec() is Constant && seq_all(calc_env(), self.lits()))
                || self.owned_by(old(s))),
            self.mode_spec() is Constant ==> *final(s) == *old(s) && (r is Err ==> r == Err::<
                (),
                Error,
            >(Error::AssertionFailed)),
            (self.mode_spec() is Bound && !self.owned_by(old(s))) ==> *final(s) == *old(s) && r
                == Err::<(), Error>(Error::IncompatibleSolvers),
            self.owned_by(old(s)) ==> final(s).cl() =~= old(s).cl() + unit_clauses(self.lits())
                && (forall|m: Seq<bool>| #[trigger]
                final(s).models(m) ==> seq_all(m, self.lits())),
            self.owned_by(old(s)) ==> forall|m: Seq<bool>|
                #[trigger] old(s).models(m) && seq_all(m, self.lits()) ==> final(s).models(m),
    {
        let ghost la = self.lits();
        match self.mode {
            Mode::Constant => {
                proof {
                    lemma_extends_refl(*s);
                    lemma_conserves_refl(*s);
                }
                let mut i: usize = 0;
                while i < self.literals.len()
                    invariant
                        *s == *old(s),
                        s.wf(),
                        s.extends(*old(s)),
                        self.basic_ok(),
                        self.mode_spec() is Constant,
                        la == self.lits(),
                        la.len() == self.literals@.len(),
                        0 <= i <= la.len(),
                        forall|j: int| 0 <= j < i ==> lit_sat(calc_env(), #[trigger] la[j]),
                    decreases la.len() - i,
                {
                    proof {
                        assert(la[i as int] == self.literals@[i as int] as int);
                        assert(la[i as int] == 1 || la[i as int] == -1);
                    }
                    if self.literals[i] != TRUE {
                        proof {
                            assert(!lit_sat(calc_env(), la[i as int]));
                        }
                        return Err(Error::AssertionFailed);
                    }
                    i = i + 1;
                }
                Ok(())
            },
            Mode::Bound(id) => {
                if !(s.is_solver() && id == s.get_id()) {
                    proof {
                        lemma_extends_refl(*s);
                        lemma_conserves_refl(*s);
                    }
                    return Err(Error::IncompatibleSolvers);
                }
                let ghost prev = *s;
                proof {
                    lemma_extends_refl(*s);
                    assert(prev.cl() + unit_clauses(la.take(0)) =~= prev.cl());
                }
                let mut i: usize = 0;
                while i < self.literals.len()
                    invariant
                        prev == *old(s),
                        prev.wf(),
                        self.valid_for(&prev),
                        self.owned_by(&prev),
                        s.wf(),
                        s.extends(prev),
                        s.nv() == prev.nv(),
                        la == self.lits(),
                        la.len() == self.literals@.len(),
                        0 <= i <= la.len(),
                        s.cl() =~= prev.cl() + unit_clauses(la.take(i as int)),
                    decreases la.len() - i,
                {
                    proof {
                        assert(la[i as int] == self.literals@[i as int] as int);
                        assert(lit_ok(la[i as int], prev.nv()));
                    }
                    let ghost st0 = *s;
                    match s.add_clause1(self.literals[i]) {
                        Ok(_) => {},
                        Err(_) => {
                            proof {
                                assert(false);
                            }
                        },
                    }
                    proof {
                        lemma_extends_trans(prev, st0, *s);
                        assert(unit_clauses(la.take(i as int + 1)) =~= unit_clauses(
                            la.take(i as int),
                        ).push(seq![la[i as int]]));
                        assert(s.cl() =~= prev.cl() + unit_clauses(la.take(i as int + 1)));
                    }
                    i = i + 1;
                }
                proof {
                    assert(la.take(la.len() as int) =~= la);
                    let n = prev.cl().len() as int;
                    assert forall|m: Seq<bool>| #[trigger] s.models(m) implies seq_all(m, la) by {
                        assert forall|j: int| 0 <= j < la.len() implies lit_sat(
                            m,
                            #[trigger] la[j],
                        ) by {
                            assert(s.cl()[n + j] == unit_clauses(la)[j]);
                            assert(s.cl()[n + j] == seq![la[j]]);
                            assert(clause_sat(m, s.cl()[n + j]));
                            lemma_clause1(m, la[j]);
                        }
                    }
                    assert forall|m: Seq<bool>|
                        #[trigger] prev.models(m) && seq_all(m, la) implies s.models(m) by {
                        assert forall|i: int| 0 <= i < s.cl().len() implies clause_sat(
                            m,
                            #[trigger] s.cl()[i],
                        ) by {
                            if i < n {
                                assert(s.cl()[i] == prev.cl()[i]);
                                assert(clause_sat(m, prev.cl()[i]));
                            } else {
                                assert(s.cl()[i] == unit_clauses(la)[i - n]);
                                assert(s.cl()[i] == seq![la[i - n]]);
                                lemma_clause1(m, la[i - n]);
                                assert(lit_sat(m, la[i - n]));
                            }
                        }
                    }
                }
                Ok(())
            },
        }
    }

    /// Permanently asserts that at least one literal of this vector is true:
    /// in solver mode the whole vector becomes one clause; in constant mode
    /// the call merely checks that some literal is TRUE, with no state
    /// change.
    pub fn ensure_any(&self, s: &mut Solver) -> (r: Result<(), Error>)
        requires
            old(s).wf(),
            self.valid_for(old(s)),
        ensures
            final(s).wf(),
            final(s).extends(*old(s)),
            final(s).nv() == old(s).nv(),
            r is Ok <==> ((self.mode_spec() is Constant && clause_sat(calc_env(), self.lits()))
                || self.owned_by(old(s))),
            self.mode_spec() is Constant ==> *final(s) == *old(s) && (r is Err ==> r == Err::<
                (),
                Error,
            >(Error::AssertionFailed)),
            (self.mode_spec() is Bound && !self.owned_by(old(s))) ==> *final(s) == *old(s) && r
                == Err::<(), Error>(Error::IncompatibleSolvers),
            self.owned_by(old(s)) ==> final(s).cl() =~= old(s).cl().push(self.lits()) && (forall|
                m: Seq<bool>,
            | #[trigger]
                final(s).models(m) ==> clause_sat(m, self.lits())),
            self.owned_by(old(s)) ==> forall|m: Seq<bool>|
                #[trigger] old(s).models(m) && clause_sat(m, self.lits()) ==> final(s).models(m),
    {
        let ghost la = self.lits();
        match self.mode {
            Mode::Constant => {
                proof {
                    lemma_extends_refl(*s);
                    lemma_conserves_refl(*s);
                }
                let mut i: usize = 0;
                while i < self.literals.len()
                    invariant
                        *s == *old(s),
                        s.wf(),
                        s.extends(*old(s)),
                        self.basic_ok(),
                        self.mode_spec() is Constant,
                        la == self.lits(),
                        la.len() == self.literals@.len(),
                        0 <= i <= la.len(),
                        forall|j: int| 0 <= j < i ==> !lit_sat(calc_env(), #[trigger] la[j]),
                    decreases la.len() - i,
                {
                    proof {
                        assert(la[i as int] == self.literals@[i as int] as int);
                        assert(la[i as int] == 1 || la[i as int] == -1);
                    }
                    if self.literals[i] == TRUE {
                        proof {
                            assert(lit_sat(calc_env(), la[i as int]));
                        }
                        return Ok(());
                    }
                    i = i + 1;
                }
                proof {
                    if clause_sat(calc_env(), la) {
                        let j = choose|j: int| 0 <= j < la.len() && lit_sat(
                            calc_env(),
                            #[trigger] la[j],
                        );
                        assert(!lit_sat(calc_env(), la[j]));
                    }
                }
                Err(Error::AssertionFailed)
            },
            Mode::Bound(id) => {
                if !(s.is_solver() && id == s.get_id()) {
                    proof {
                        lemma_extends_refl(*s);
                        lemma_conserves_refl(*s);
                    }
                    return Err(Error::IncompatibleSolvers);
                }
                let ghost prev = *s;
                let copy = self.get_literals();
                match s.add_clause(copy) {
                    Ok(_) => {},
                    Err(_) => {
                        proof {
                            assert(false);
                        }
                    },
                }
                proof {
                    let n = prev.cl().len() as int;
                    assert forall|m: Seq<bool>|
                        #[trigger] prev.models(m) && clause_sat(m, la) implies s.models(m) by {
                        assert forall|i: int| 0 <= i < s.cl().len() implies clause_sat(
                            m,
                            #[trigger] s.cl()[i],
                        ) by {
                            if i < n {
                                assert(s.cl()[i] == prev.cl()[i]);
                                assert(clause_sat(m, prev.cl()[i]));
                            } else {
                                assert(s.cl()[i] == la);
                            }
                        }
                    }
                }
                Ok(())
            },
        }
    }

    /// Asserts that exactly one literal of this vector is true: in solver
    /// mode the exactly-one fold result becomes a unit clause; in constant
    /// mode the call merely evaluates the same fold and checks it.
    pub fn ensure_one(&self, s: &mut Solver) -> (r: Result<(), Error>)
        requires
            old(s).wf(),
            self.valid_for(old(s)),
            old(s).nv() + 3 * self.lits().len() + 1 <= i32::MAX,
        ensures
            final(s).wf(),
            final(s).extends(*old(s)),
            final(s).nv() <= old(s).nv() + 3 * self.lits().len() + 1,
            final(s).cl().len() <= old(s).cl().len() + 9 * self.lits().len() + 4,
            r is Ok <==> ((self.mode_spec() is Constant && num_true(calc_env(), self.lits()) == 1)
                || self.owned_by(old(s))),
            self.mode_spec() is Constant ==> *final(s) == *old(s) && (r is Err ==> r == Err::<
                (),
                Error,
            >(Error::AssertionFailed)),
            (self.mode_spec() is Bound && !self.owned_by(old(s))) ==> *final(s) == *old(s) && r
                == Err::<(), Error>(Error::IncompatibleSolvers),
            self.owned_by(old(s)) ==> forall|m: Seq<bool>| #[trigger]
                final(s).models(m) ==> num_true(m, self.lits()) == 1,
            self.owned_by(old(s)) ==> forall|m: Seq<bool>|
                #[trigger] old(s).models(m) && m.len() == old(s).nv() && num_true(m, self.lits())
                    == 1 ==> exists|m2: Seq<bool>|
                    m2.len() == final(s).nv() && m.is_prefix_of(m2)
                        && #[trigger] final(s).models(m2),
    {
        match self.mode {
            Mode::Constant => {
                proof {
                    lemma_extends_refl(*s);
                    lemma_conserves_refl(*s);
                }
                let mut calc = Solver::calculator();
                let v = calc.fold_one(&self.literals);
                if v == TRUE {
                    Ok(())
                } else {
                    Err(Error::AssertionFailed)
                }
            },
            Mode::Bound(id) => {
                if !(s.is_solver() && id == s.get_id()) {
                    proof {
                        lemma_extends_refl(*s);
                        lemma_conserves_refl(*s);
                    }
                    return Err(Error::IncompatibleSolvers);
                }
                let ghost prev = *s;
                let v = s.fold_one(&self.literals);
                let ghost mid = *s;
                match s.add_clause1(v) {
                    Ok(_) => {},
                    Err(_) => {
                        proof {
                            assert(false);
                        }
                    },
                }
                proof {
                    lemma_extends_trans(prev, mid, *s);
                    assert forall|m: Seq<bool>| #[trigger] s.models(m) implies num_true(
                        m,
                        self.lits(),
                    ) == 1 by {
                        lemma_models_extends(mid, *s, m);
                    }
                    assert forall|m: Seq<bool>|
                        #[trigger] prev.models(m) && m.len() == prev.nv() && num_true(
                            m,
                            self.lits(),
                        ) == 1 implies exists|m2: Seq<bool>|
                        m2.len() == s.nv() && m.is_prefix_of(m2) && #[trigger] s.models(m2) by {
                        lemma_conserves_models(prev, mid, m);
                        let mm: Seq<bool> = choose|mm: Seq<bool>|
                            mm.len() == mid.nv() && m.is_prefix_of(mm) && #[trigger] mid.models(
                                mm,
                            );
                        lemma_num_true_prefix(m, mm, self.lits(), prev.nv());
                        assert(lit_sat(mm, v as int));
                        assert forall|i: int| 0 <= i < s.cl().len() implies clause_sat(
                            mm,
                            #[trigger] s.cl()[i],
                        ) by {
                            if i < mid.cl().len() {
                                assert(s.cl()[i] == mid.cl()[i]);
                                assert(clause_sat(mm, mid.cl()[i]));
                            } else {
                                assert(s.cl()[i] == seq![v as int]);
                                lemma_clause1(mm, v as int);
                            }
                        }
                        assert(s.models(mm));
                    }
                }
                Ok(())
            },
        }
    }
}

/// One unit clause for each literal of the sequence.
pub open spec fn unit_clauses(ls: Seq<int>) -> Seq<Seq<int>> {
    Seq::new(ls.len(), |i: int| seq![ls[i]])
}

} // verus!
