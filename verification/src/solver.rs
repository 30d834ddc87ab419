//! The solver instance: variable allocation, clause assertion, Tseitin gate
//! encoders with algebraic simplification, folds over literal sequences, and
//! binary comparators. An instance is either bound to a real CaDiCaL oracle
//! or is the constant-only calculator that evaluates TRUE/FALSE arithmetic
//! without ever allocating a variable or asserting a clause.
//!
//! The gates demand well-formed literals of their instance as a
//! precondition: non-zero, with magnitude at most the number of allocated
//! variables. On the calculator that leaves only the TRUE/FALSE constants,
//! for which a simplification always applies, so a gate can never be forced
//! to allocate there; the validation sits where literals enter, in the
//! vector constructors and the clause interface, and the operations that
//! must allocate a variable report `NoBackingSolver` on the calculator.

use vstd::prelude::*;
use vstd::string::StringExecFns;

use crate::errors::Error;
use crate::logic::and_defs;
use crate::logic::and_result;
use crate::logic::bits_eq;
use crate::logic::bits_val;
use crate::logic::calc_env;
use crate::logic::clause_sat;
use crate::logic::equ_result;
use crate::logic::formula_ok;
use crate::logic::formula_sat;
use crate::logic::iff_defs;
use crate::logic::iff_result;
use crate::logic::imp_result;
use crate::logic::ints;
use crate::logic::ite_bool;
use crate::logic::lemma_bits_eq_take;
use crate::logic::lemma_bits_val_bound;
use crate::logic::lemma_bits_val_eq;
use crate::logic::lemma_bits_val_take;
use crate::logic::lemma_clause1;
use crate::logic::lemma_clause2;
use crate::logic::lemma_clause3;
use crate::logic::lemma_clause_sat_prefix;
use crate::logic::lemma_clause_sat_take;
use crate::logic::lemma_cmp_step;
use crate::logic::lemma_formula_ok_mono;
use crate::logic::lemma_formula_ok_push;
use crate::logic::lemma_formula_prefix;
use crate::logic::lemma_formula_sat_push;
use crate::logic::lemma_iff_shortcut;
use crate::logic::lemma_lit_neg;
use crate::logic::lemma_lit_sat_push;
use crate::logic::lemma_maj_shortcut;
use crate::logic::lemma_num_true_take;
use crate::logic::lemma_num_true_take_le;
use crate::logic::lemma_or_shortcut;
use crate::logic::lemma_prefix_push;
use crate::logic::lemma_prefix_refl;
use crate::logic::lemma_prefix_trans;
use crate::logic::lemma_seq_all_prefix;
use crate::logic::lemma_seq_all_take;
use crate::logic::lemma_xor_shortcut;
use crate::logic::lit_ok;
use crate::logic::lit_sat;
use crate::logic::lits_ok;
use crate::logic::maj_bool;
use crate::logic::maj_defs;
use crate::logic::maj_result;
use crate::logic::num_true;
use crate::logic::or_defs;
use crate::logic::or_result;
use crate::logic::or_simp;
use crate::logic::seq_all;
use crate::logic::two_pow;
use crate::logic::xor_defs;
use crate::logic::xor_result;
use crate::logic::xor_simp;
use crate::oracle::model_of;
use crate::oracle::sat_status;
use crate::oracle::Oracle;
use crate::oracle::oracle_add_clause;
use crate::oracle::oracle_new;
use crate::oracle::oracle_num_clauses;
use crate::oracle::oracle_reserve;
use crate::oracle::oracle_signature;
use crate::oracle::oracle_solve;
use crate::oracle::oracle_solve_with;
use crate::oracle::oracle_status;
use crate::oracle::oracle_value;
use crate::oracle::oracle_with_config;

verus! {

/// The always true literal: variable 1 is unit-asserted at solver creation.
pub const TRUE: i32 = 1;

/// The always false literal.
pub const FALSE: i32 = -1;

enum Backend {
    /// The constant-only calculator: no oracle at all.
    Calc,
    /// A real CaDiCaL instance.
    Sat(Oracle),
}

/// A clause store. It owns the variable counter (monotonic, starting at 1
/// for the permanent TRUE variable) and the clause database of the SAT
/// oracle, or nothing at all in calculator mode. The identifier is chosen by
/// the caller and must be distinct for distinct live instances: it is how
/// bit vectors recognise which store owns their literals.
pub struct Solver {
    backend: Backend,
    id: u64,
    nvars: i32,
    clauses: Ghost<Seq<Seq<int>>>,
}

impl Solver {
    /// The number of variables allocated so far; variable 1 is TRUE.
    pub closed spec fn nv(&self) -> int {
        self.nvars as int
    }

    /// The clauses asserted so far, as sequences of literal integers.
    pub closed spec fn cl(&self) -> Seq<Seq<int>> {
        self.clauses@
    }

    /// Whether a real oracle is attached.
    pub closed spec fn is_solver_spec(&self) -> bool {
        self.backend is Sat
    }

    /// The caller-chosen instance identifier.
    pub closed spec fn id_spec(&self) -> u64 {
        self.id
    }

    /// The status of the most recent solve on the backing oracle:
    /// `Some(true)` satisfiable, `Some(false)` unsatisfiable, `None`
    /// undetermined, never solved, or mutated since; always `None` for the
    /// calculator.
    pub closed spec fn status_spec(&self) -> Option<bool> {
        match self.backend {
            Backend::Calc => None,
            Backend::Sat(o) => sat_status(o),
        }
    }

    /// The value the backing oracle reports for a literal in the model of
    /// its most recent satisfiable solve.
    pub closed spec fn value_spec(&self, lit: int) -> Option<bool> {
        match self.backend {
            Backend::Calc => None,
            Backend::Sat(o) => model_of(o, lit),
        }
    }

    /// Well-formed instance: at least the TRUE variable, every asserted
    /// clause over allocated variables, and the calculator holding neither
    /// variables nor clauses beyond the constant one.
    pub open spec fn wf(&self) -> bool {
        &&& 1 <= self.nv() <= i32::MAX
        &&& formula_ok(self.cl(), self.nv())
        &&& (!self.is_solver_spec() ==> self.nv() == 1 && self.cl().len() == 0)
    }

    /// The assignments this instance admits: enough variables, variable 1
    /// true, and every asserted clause satisfied.
    pub open spec fn models(&self, m: Seq<bool>) -> bool {
        &&& m.len() >= self.nv()
        &&& m.len() > 0
        &&& m[0]
        &&& formula_sat(m, self.cl())
    }

    /// Relates a later state of an instance to an earlier one: same identity
    /// and mode, and the earlier variables and clauses untouched.
    pub open spec fn extends(&self, prev: Solver) -> bool {
        &&& self.id_spec() == prev.id_spec()
        &&& self.is_solver_spec() == prev.is_solver_spec()
        &&& prev.nv() <= self.nv()
        &&& prev.cl().is_prefix_of(self.cl())
    }
}

/// Growing an instance only shrinks the set of admitted assignments, so a
/// model of a later state is a model of every earlier state.
pub proof fn lemma_models_extends(s1: Solver, s2: Solver, m: Seq<bool>)
    requires
        s2.extends(s1),
        s2.models(m),
    ensures
        s1.models(m),
{
    lemma_formula_prefix(m, s1.cl(), s2.cl());
}

pub proof fn lemma_extends_refl(s: Solver)
    ensures
        s.extends(s),
{
    lemma_prefix_refl(s.cl());
}

pub proof fn lemma_extends_trans(s1: Solver, s2: Solver, s3: Solver)
    requires
        s2.extends(s1),
        s3.extends(s2),
    ensures
        s3.extends(s1),
{
    lemma_prefix_trans(s1.cl(), s2.cl(), s3.cl());
}

pub proof fn lemma_prefix_self_bool(m: Seq<bool>)
    ensures
        m.is_prefix_of(m),
{
    assert(m =~= m.subrange(0, m.len() as int));
}

/// Growing an instance from one state to a later one preserves
/// satisfiability: every model of the earlier state over exactly its
/// variables extends to a model of the later state. This is the
/// equisatisfiability half of the Tseitin encoding; the gates' model
/// clauses are the other half.
#[verifier::opaque]
pub open spec fn conserves(prev: Solver, cur: Solver) -> bool {
    forall|m: Seq<bool>|
        #[trigger] prev.models(m) && m.len() == prev.nv() ==> exists|m2: Seq<bool>|
            m2.len() == cur.nv() && m.is_prefix_of(m2) && #[trigger] cur.models(m2)
}

pub proof fn lemma_conserves_refl(s: Solver)
    ensures
        conserves(s, s),
{
    reveal(conserves);
    assert forall|m: Seq<bool>| #[trigger]
        s.models(m) && m.len() == s.nv() implies exists|m2: Seq<bool>|
        m2.len() == s.nv() && m.is_prefix_of(m2) && #[trigger] s.models(m2) by {
        lemma_prefix_self_bool(m);
    }
}

pub proof fn lemma_conserves_trans(a: Solver, b: Solver, c: Solver)
    requires
        conserves(a, b),
        conserves(b, c),
    ensures
        conserves(a, c),
{
    reveal(conserves);
    assert forall|m: Seq<bool>| #[trigger]
        a.models(m) && m.len() == a.nv() implies exists|m2: Seq<bool>|
        m2.len() == c.nv() && m.is_prefix_of(m2) && #[trigger] c.models(m2) by {
        let m1: Seq<bool> = choose|m1: Seq<bool>|
            m1.len() == b.nv() && m.is_prefix_of(m1) && #[trigger] b.models(m1);
        let m2: Seq<bool> = choose|m2: Seq<bool>|
            m2.len() == c.nv() && m1.is_prefix_of(m2) && #[trigger] c.models(m2);
        lemma_prefix_trans(m, m1, m2);
    }
}

/// Conservation, spelled out for one model of the earlier state.
pub proof fn lemma_conserves_models(prev: Solver, cur: Solver, m: Seq<bool>)
    requires
        conserves(prev, cur),
        prev.models(m),
        m.len() == prev.nv(),
    ensures
        exists|m2: Seq<bool>|
            m2.len() == cur.nv() && m.is_prefix_of(m2) && #[trigger] cur.models(m2),
{
    reveal(conserves);
}

/// Adding the defining clauses of a disjunction gate never constrains the
/// old variables: a model of the old state extends, by the value of the
/// gate, to a model of the new state.
proof fn lemma_or_conservative(prev: Solver, cur: Solver, a: int, b: int, m: Seq<bool>)
    requires
        prev.wf(),
        lit_ok(a, prev.nv()),
        lit_ok(b, prev.nv()),
        or_simp(a, b) is None,
        cur.nv() == prev.nv() + 1,
        cur.cl() =~= prev.cl() + or_defs(a, b, prev.nv()),
        prev.models(m),
        m.len() == prev.nv(),
    ensures
        cur.models(m.push(lit_sat(m, a) || lit_sat(m, b))),
        m.is_prefix_of(m.push(lit_sat(m, a) || lit_sat(m, b))),
{
    let val = lit_sat(m, a) || lit_sat(m, b);
    let m2 = m.push(val);
    let v = prev.nv() + 1;
    let n = prev.cl().len() as int;
    lemma_formula_sat_push(m, val, prev.cl(), prev.nv());
    lemma_lit_sat_push(m, val, a, prev.nv());
    lemma_lit_sat_push(m, val, b, prev.nv());
    assert(m2[v - 1] == val);
    lemma_lit_neg(m2, a);
    lemma_lit_neg(m2, b);
    lemma_lit_neg(m2, v);
    lemma_clause2(m2, -a, v);
    lemma_clause2(m2, -b, v);
    lemma_clause3(m2, a, b, -v);
    assert forall|i: int| 0 <= i < cur.cl().len() implies clause_sat(m2, #[trigger] cur.cl()[i]) by {
        if i < n {
            assert(cur.cl()[i] == prev.cl()[i]);
            assert(clause_sat(m2, prev.cl()[i]));
        } else if i == n {
            assert(cur.cl()[i] == seq![-a, v]);
        } else if i == n + 1 {
            assert(cur.cl()[i] == seq![-b, v]);
        } else {
            assert(cur.cl()[i] == seq![a, b, -v]);
        }
    }
    assert(m =~= m2.subrange(0, m.len() as int));
}

/// Adding the defining clauses of an exclusive-or gate never constrains the
/// old variables.
proof fn lemma_xor_conservative(prev: Solver, cur: Solver, a: int, b: int, m: Seq<bool>)
    requires
        prev.wf(),
        lit_ok(a, prev.nv()),
        lit_ok(b, prev.nv()),
        xor_simp(a, b) is None,
        cur.nv() == prev.nv() + 1,
        cur.cl() =~= prev.cl() + xor_defs(a, b, prev.nv()),
        prev.models(m),
        m.len() == prev.nv(),
    ensures
        cur.models(m.push(lit_sat(m, a) != lit_sat(m, b))),
        m.is_prefix_of(m.push(lit_sat(m, a) != lit_sat(m, b))),
{
    let val = lit_sat(m, a) != lit_sat(m, b);
    let m2 = m.push(val);
    let v = prev.nv() + 1;
    let n = prev.cl().len() as int;
    lemma_formula_sat_push(m, val, prev.cl(), prev.nv());
    lemma_lit_sat_push(m, val, a, prev.nv());
    lemma_lit_sat_push(m, val, b, prev.nv());
    assert(m2[v - 1] == val);
    lemma_lit_neg(m2, a);
    lemma_lit_neg(m2, b);
    lemma_lit_neg(m2, v);
    lemma_clause3(m2, -a, b, v);
    lemma_clause3(m2, a, -b, v);
    lemma_clause3(m2, a, b, -v);
    lemma_clause3(m2, -a, -b, -v);
    assert forall|i: int| 0 <= i < cur.cl().len() implies clause_sat(m2, #[trigger] cur.cl()[i]) by {
        if i < n {
            assert(cur.cl()[i] == prev.cl()[i]);
            assert(clause_sat(m2, prev.cl()[i]));
        } else if i == n {
            assert(cur.cl()[i] == seq![-a, b, v]);
        } else if i == n + 1 {
            assert(cur.cl()[i] == seq![a, -b, v]);
        } else if i == n + 2 {
            assert(cur.cl()[i] == seq![a, b, -v]);
        } else {
            assert(cur.cl()[i] == seq![-a, -b, -v]);
        }
    }
    assert(m =~= m2.subrange(0, m.len() as int));
}

/// Adding the defining clauses of a majority gate never constrains the old
/// variables.
proof fn lemma_maj_conservative(prev: Solver, cur: Solver, a: int, b: int, c: int, m: Seq<bool>)
    requires
        prev.wf(),
        lit_ok(a, prev.nv()),
        lit_ok(b, prev.nv()),
        lit_ok(c, prev.nv()),
        a != b && a != c && b != -c && b != c && a != -c && a != -b,
        a != -1 && a != 1 && b != -1 && b != 1 && c != -1 && c != 1,
        cur.nv() == prev.nv() + 1,
        cur.cl() =~= prev.cl() + maj_defs(a, b, c, prev.nv()),
        prev.models(m),
        m.len() == prev.nv(),
    ensures
        cur.models(m.push(maj_bool(lit_sat(m, a), lit_sat(m, b), lit_sat(m, c)))),
        m.is_prefix_of(m.push(maj_bool(lit_sat(m, a), lit_sat(m, b), lit_sat(m, c)))),
{
    let val = maj_bool(lit_sat(m, a), lit_sat(m, b), lit_sat(m, c));
    let m2 = m.push(val);
    let v = prev.nv() + 1;
    let n = prev.cl().len() as int;
    lemma_formula_sat_push(m, val, prev.cl(), prev.nv());
    lemma_lit_sat_push(m, val, a, prev.nv());
    lemma_lit_sat_push(m, val, b, prev.nv());
    lemma_lit_sat_push(m, val, c, prev.nv());
    assert(m2[v - 1] == val);
    lemma_lit_neg(m2, a);
    lemma_lit_neg(m2, b);
    lemma_lit_neg(m2, c);
    lemma_lit_neg(m2, v);
    lemma_clause3(m2, a, b, -v);
    lemma_clause3(m2, a, c, -v);
    lemma_clause3(m2, b, c, -v);
    lemma_clause3(m2, -a, -b, v);
    lemma_clause3(m2, -a, -c, v);
    lemma_clause3(m2, -b, -c, v);
    assert forall|i: int| 0 <= i < cur.cl().len() implies clause_sat(m2, #[trigger] cur.cl()[i]) by {
        if i < n {
            assert(cur.cl()[i] == prev.cl()[i]);
            assert(clause_sat(m2, prev.cl()[i]));
        } else if i == n {
            assert(cur.cl()[i] == seq![a, b, -v]);
        } else if i == n + 1 {
            assert(cur.cl()[i] == seq![a, c, -v]);
        } else if i == n + 2 {
            assert(cur.cl()[i] == seq![b, c, -v]);
        } else if i == n + 3 {
            assert(cur.cl()[i] == seq![-a, -b, v]);
        } else if i == n + 4 {
            assert(cur.cl()[i] == seq![-a, -c, v]);
        } else {
            assert(cur.cl()[i] == seq![-b, -c, v]);
        }
    }
    assert(m =~= m2.subrange(0, m.len() as int));
}

/// Adding the defining clauses of an if-then-else gate never constrains the
/// old variables.
proof fn lemma_iff_conservative(prev: Solver, cur: Solver, c: int, t: int, e: int, m: Seq<bool>)
    requires
        prev.wf(),
        lit_ok(c, prev.nv()),
        lit_ok(t, prev.nv()),
        lit_ok(e, prev.nv()),
        t != e && c != 1 && c != -1 && t != -e && c != t && t != 1 && c != -t && t != -1 && c != -e
            && e != 1 && c != e && e != -1,
        cur.nv() == prev.nv() + 1,
        cur.cl() =~= prev.cl() + iff_defs(c, t, e, prev.nv()),
        prev.models(m),
        m.len() == prev.nv(),
    ensures
        cur.models(m.push(ite_bool(lit_sat(m, c), lit_sat(m, t), lit_sat(m, e)))),
        m.is_prefix_of(m.push(ite_bool(lit_sat(m, c), lit_sat(m, t), lit_sat(m, e)))),
{
    let val = ite_bool(lit_sat(m, c), lit_sat(m, t), lit_sat(m, e));
    let m2 = m.push(val);
    let v = prev.nv() + 1;
    let n = prev.cl().len() as int;
    lemma_formula_sat_push(m, val, prev.cl(), prev.nv());
    lemma_lit_sat_push(m, val, c, prev.nv());
    lemma_lit_sat_push(m, val, t, prev.nv());
    lemma_lit_sat_push(m, val, e, prev.nv());
    assert(m2[v - 1] == val);
    lemma_lit_neg(m2, c);
    lemma_lit_neg(m2, t);
    lemma_lit_neg(m2, e);
    lemma_lit_neg(m2, v);
    lemma_clause3(m2, -c, -t, v);
    lemma_clause3(m2, -c, t, -v);
    lemma_clause3(m2, c, -e, v);
    lemma_clause3(m2, c, e, -v);
    assert forall|i: int| 0 <= i < cur.cl().len() implies clause_sat(m2, #[trigger] cur.cl()[i]) by {
        if i < n {
            assert(cur.cl()[i] == prev.cl()[i]);
            assert(clause_sat(m2, prev.cl()[i]));
        } else if i == n {
            assert(cur.cl()[i] == seq![-c, -t, v]);
        } else if i == n + 1 {
            assert(cur.cl()[i] == seq![-c, t, -v]);
        } else if i == n + 2 {
            assert(cur.cl()[i] == seq![c, -e, v]);
        } else {
            assert(cur.cl()[i] == seq![c, e, -v]);
        }
    }
    assert(m =~= m2.subrange(0, m.len() as int));
}

impl Solver {
    /// Constructs a new solver instance backed by a fresh oracle. The
    /// identifier must be distinct from every other live instance's; the
    /// hosting layer hands them out, and with a reused identifier the join
    /// rule would treat two distinct stores as one. The literal 1 is
    /// asserted immediately and serves as the true value for the lifetime
    /// of the instance.
    pub fn new(id: u64) -> (s: Solver)
        ensures
            s.wf(),
            s.is_solver_spec(),
            s.id_spec() == id,
            s.nv() == 1,
            s.cl() =~= seq![seq![1int]],
    {
        let mut oracle = oracle_new();
        oracle_reserve(&mut oracle, 1);
        let unit: Vec<i32> = vec![1];
        oracle_add_clause(&mut oracle, &unit);
        let ghost cls: Seq<Seq<int>> = seq![seq![1int]];
        Solver { backend: Backend::Sat(oracle), id, nvars: 1, clauses: Ghost(cls) }
    }

    /// Constructs a new solver with one of the oracle's pre-defined tuning
    /// profiles: `default`, `plain`, `sat` or `unsat`. Any other name is a
    /// configuration error.
    pub fn with_config(id: u64, config: &str) -> (r: Result<Solver, Error>)
        ensures
            match r {
                Ok(s) => {
                    &&& s.wf()
                    &&& s.is_solver_spec()
                    &&& s.id_spec() == id
                    &&& s.nv() == 1
                    &&& s.cl() =~= seq![seq![1int]]
                },
                Err(e) => e == Error::ConfigurationError,
            },
            r is Ok <==> (config@ == "default"@ || config@ == "plain"@ || config@ == "sat"@
                || config@ == "unsat"@),
    {
        match oracle_with_config(config) {
            Some(mut oracle) => {
                oracle_reserve(&mut oracle, 1);
                let unit: Vec<i32> = vec![1];
                oracle_add_clause(&mut oracle, &unit);
                let ghost cls: Seq<Seq<int>> = seq![seq![1int]];
                Ok(Solver { backend: Backend::Sat(oracle), id, nvars: 1, clauses: Ghost(cls) })
            },
            None => Err(Error::ConfigurationError),
        }
    }

    /// The calculator instance: it can evaluate every operation over the
    /// TRUE and FALSE constants, but cannot allocate variables or solve.
    pub fn calculator() -> (s: Solver)
        ensures
            s.wf(),
            !s.is_solver_spec(),
            s.nv() == 1,
            s.cl().len() == 0,
    {
        Solver { backend: Backend::Calc, id: 0, nvars: 1, clauses: Ghost(Seq::empty()) }
    }

    /// True for a real solver instance, false for the calculator.
    pub fn is_solver(&self) -> (r: bool)
        ensures
            r == self.is_solver_spec(),
    {
        match &self.backend {
            Backend::Sat(_) => true,
            Backend::Calc => false,
        }
    }

    /// The caller-chosen identifier of this instance.
    pub fn get_id(&self) -> (r: u64)
        ensures
            r == self.id_spec(),
    {
        self.id
    }

    /// The name and version of the backing oracle, or `calculator`.
    pub fn signature(&self) -> (r: String)
        ensures
            !self.is_solver_spec() ==> r@ == "calculator"@,
    {
        match &self.backend {
            Backend::Sat(o) => oracle_signature(o),
            Backend::Calc => String::from_str("calculator"),
        }
    }

    /// Allocates the next variable on the backing oracle.
    fn fresh_var(&mut self) -> (v: i32)
        requires
            old(self).wf(),
            old(self).is_solver_spec(),
            old(self).nv() < i32::MAX,
        ensures
            final(self).wf(),
            final(self).extends(*old(self)),
            final(self).nv() == old(self).nv() + 1,
            final(self).cl() == old(self).cl(),
            v as int == final(self).nv(),
    {
        let v = self.nvars + 1;
        match &mut self.backend {
            Backend::Sat(o) => oracle_reserve(o, v),
            Backend::Calc => {
                proof {
                    assert(false);
                }
            },
        }
        self.nvars = v;
        proof {
            lemma_prefix_refl(self.cl());
            lemma_formula_ok_mono(self.cl(), old(self).nv(), self.nv());
        }
        v
    }

    /// Asserts a binary clause on the backing oracle.
    fn emit2(&mut self, l0: i32, l1: i32)
        requires
            old(self).wf(),
            old(self).is_solver_spec(),
            lit_ok(l0 as int, old(self).nv()),
            lit_ok(l1 as int, old(self).nv()),
        ensures
            final(self).wf(),
            final(self).extends(*old(self)),
            final(self).nv() == old(self).nv(),
            final(self).cl() == old(self).cl().push(seq![l0 as int, l1 as int]),
    {
        let c: Vec<i32> = vec![l0, l1];
        match &mut self.backend {
            Backend::Sat(o) => oracle_add_clause(o, &c),
            Backend::Calc => {
                proof {
                    assert(false);
                }
            },
        }
        proof {
            lemma_prefix_push(self.clauses@, seq![l0 as int, l1 as int]);
            lemma_formula_ok_push(self.clauses@, seq![l0 as int, l1 as int], self.nv());
        }
        self.clauses = Ghost(self.clauses@.push(seq![l0 as int, l1 as int]));
    }

    /// Asserts a ternary clause on the backing oracle.
    fn emit3(&mut self, l0: i32, l1: i32, l2: i32)
        requires
            old(self).wf(),
            old(self).is_solver_spec(),
            lit_ok(l0 as int, old(self).nv()),
            lit_ok(l1 as int, old(self).nv()),
            lit_ok(l2 as int, old(self).nv()),
        ensures
            final(self).wf(),
            final(self).extends(*old(self)),
            final(self).nv() == old(self).nv(),
            final(self).cl() == old(self).cl().push(seq![l0 as int, l1 as int, l2 as int]),
    {
        let c: Vec<i32> = vec![l0, l1, l2];
        match &mut self.backend {
            Backend::Sat(o) => oracle_add_clause(o, &c),
            Backend::Calc => {
                proof {
                    assert(false);
                }
            },
        }
        proof {
            lemma_prefix_push(self.clauses@, seq![l0 as int, l1 as int, l2 as int]);
            lemma_formula_ok_push(self.clauses@, seq![l0 as int, l1 as int, l2 as int], self.nv());
        }
        self.clauses = Ghost(self.clauses@.push(seq![l0 as int, l1 as int, l2 as int]));
    }

    /// Adds a new variable to the solver and returns the corresponding
    /// literal; in calculator mode no variable can be allocated.
    pub fn add_variable(&mut self) -> (r: Result<i32, Error>)
        requires
            old(self).wf(),
            old(self).nv() < i32::MAX,
        ensures
            final(self).wf(),
            final(self).extends(*old(self)),
            final(self).cl() == old(self).cl(),
            match r {
                Ok(v) => {
                    &&& old(self).is_solver_spec()
                    &&& v as int == final(self).nv()
                    &&& final(self).nv() == old(self).nv() + 1
                },
                Err(e) => {
                    &&& e == Error::NoBackingSolver
                    &&& !old(self).is_solver_spec()
                    &&& *final(self) == *old(self)
                },
            },
            r is Ok <==> old(self).is_solver_spec(),
    {
        if self.is_solver() {
            let v = self.fresh_var();
            Ok(v)
        } else {
            proof {
                lemma_extends_refl(*self);
            }
            Err(Error::NoBackingSolver)
        }
    }

    /// The number of variables allocated in this instance, the permanent
    /// TRUE variable included.
    pub fn num_variables(&self) -> (r: usize)
        requires
            self.wf(),
        ensures
            r as int == self.nv(),
    {
        self.nvars as usize
    }

    /// The negated literal.
    pub fn bool_not(lit: i32) -> (r: i32)
        requires
            lit != i32::MIN,
        ensures
            r as int == -(lit as int),
    {
        -lit
    }

    /// The constant literal for a Boolean value.
    pub fn bool_lift(val: bool) -> (r: i32)
        ensures
            r == if val {
                TRUE
            } else {
                FALSE
            },
    {
        if val {
            TRUE
        } else {
            FALSE
        }
    }

    /// Returns a literal equivalent to the disjunction of the two literals.
    /// Algebraic simplifications are tried first, in a fixed order; only
    /// when none applies is a fresh variable allocated and defined by the
    /// three standard clauses. In calculator mode the operands are constants
    /// and a simplification always applies.
    pub fn bool_or(&mut self, lit0: i32, lit1: i32) -> (r: i32)
        requires
            old(self).wf(),
            lit_ok(lit0 as int, old(self).nv()),
            lit_ok(lit1 as int, old(self).nv()),
            old(self).nv() < i32::MAX,
        ensures
            final(self).wf(),
            final(self).extends(*old(self)),
            lit_ok(r as int, final(self).nv()),
            r as int == or_result(lit0 as int, lit1 as int, old(self).nv()),
            final(self).cl().len() <= old(self).cl().len() + 3,
            final(self).cl() =~= old(self).cl() + or_defs(
                lit0 as int,
                lit1 as int,
                old(self).nv(),
            ),
            final(self).nv() == old(self).nv() + if or_simp(lit0 as int, lit1 as int) is Some {
                0int
            } else {
                1int
            },
            forall|m: Seq<bool>| #[trigger]
                final(self).models(m) ==> lit_sat(m, r as int) == (lit_sat(m, lit0 as int)
                    || lit_sat(m, lit1 as int)),
            conserves(*old(self), *final(self)),
    {
        let ghost prev = *self;
        let ghost a = lit0 as int;
        let ghost b = lit1 as int;
        if lit0 == TRUE || lit1 == TRUE || lit0 == -lit1 {
            proof {
                lemma_extends_refl(*self);
                assert(self.cl() =~= prev.cl() + or_defs(a, b, prev.nv()));
                assert forall|m: Seq<bool>| #[trigger] self.models(m) implies lit_sat(m, 1int) == (
                lit_sat(m, a) || lit_sat(m, b)) by {
                    lemma_or_shortcut(m, a, b, prev.nv());
                }
                lemma_conserves_refl(*self);
            }
            TRUE
        } else if lit0 == FALSE || lit0 == lit1 {
            proof {
                lemma_extends_refl(*self);
                assert(self.cl() =~= prev.cl() + or_defs(a, b, prev.nv()));
                assert forall|m: Seq<bool>| #[trigger] self.models(m) implies lit_sat(m, b) == (
                lit_sat(m, a) || lit_sat(m, b)) by {
                    lemma_or_shortcut(m, a, b, prev.nv());
                }
                lemma_conserves_refl(*self);
            }
            lit1
        } else if lit1 == FALSE {
            proof {
                lemma_extends_refl(*self);
                assert(self.cl() =~= prev.cl() + or_defs(a, b, prev.nv()));
                assert forall|m: Seq<bool>| #[trigger] self.models(m) implies lit_sat(m, a) == (
                lit_sat(m, a) || lit_sat(m, b)) by {
                    lemma_or_shortcut(m, a, b, prev.nv());
                }
                lemma_conserves_refl(*self);
            }
            lit0
        } else {
            proof {
                if !self.is_solver_spec() {
                    assert(self.nv() == 1);
                    assert(false);
                }
            }
            let v = self.fresh_var();
            let ghost s1 = *self;
            self.emit2(-lit0, v);
            let ghost s2 = *self;
            self.emit2(-lit1, v);
            let ghost s3 = *self;
            self.emit3(lit0, lit1, -v);
            proof {
                lemma_extends_trans(prev, s1, s2);
                lemma_extends_trans(prev, s2, s3);
                lemma_extends_trans(prev, s3, *self);
                let n = prev.cl().len() as int;
                assert(self.cl() =~= prev.cl() + or_defs(a, b, prev.nv()));
                assert forall|m: Seq<bool>| #[trigger] self.models(m) implies lit_sat(m, v as int)
                    == (lit_sat(m, a) || lit_sat(m, b)) by {
                    assert(clause_sat(m, self.cl()[n]));
                    assert(clause_sat(m, self.cl()[n + 1]));
                    assert(clause_sat(m, self.cl()[n + 2]));
                    assert(self.cl()[n] == seq![-a, v as int]);
                    assert(self.cl()[n + 1] == seq![-b, v as int]);
                    assert(self.cl()[n + 2] == seq![a, b, -(v as int)]);
                    lemma_clause2(m, -a, v as int);
                    lemma_clause2(m, -b, v as int);
                    lemma_clause3(m, a, b, -(v as int));
                    lemma_lit_neg(m, a);
                    lemma_lit_neg(m, b);
                    lemma_lit_neg(m, v as int);
                }
                assert(conserves(prev, *self)) by {
                    reveal(conserves);
                    assert forall|m: Seq<bool>| #[trigger]
                        prev.models(m) && m.len() == prev.nv() implies exists|m2: Seq<bool>|
                        m2.len() == self.nv() && m.is_prefix_of(m2) && #[trigger] self.models(
                            m2,
                        ) by {
                        lemma_or_conservative(prev, *self, a, b, m);
                        assert(self.models(m.push(lit_sat(m, a) || lit_sat(m, b))));
                    }
                }
            }
            v
        }
    }

    /// Returns the conjunction of the two literals, by De Morgan's identity
    /// `and(a, b) = not(or(not a, not b))`.
    pub fn bool_and(&mut self, lit0: i32, lit1: i32) -> (r: i32)
        requires
            old(self).wf(),
            lit_ok(lit0 as int, old(self).nv()),
            lit_ok(lit1 as int, old(self).nv()),
            old(self).nv() < i32::MAX,
        ensures
            final(self).wf(),
            final(self).extends(*old(self)),
            lit_ok(r as int, final(self).nv()),
            r as int == and_result(lit0 as int, lit1 as int, old(self).nv()),
            final(self).cl().len() <= old(self).cl().len() + 3,
            final(self).cl() =~= old(self).cl() + and_defs(
                lit0 as int,
                lit1 as int,
                old(self).nv(),
            ),
            final(self).nv() == old(self).nv() + if or_simp(
                -(lit0 as int),
                -(lit1 as int),
            ) is Some {
                0int
            } else {
                1int
            },
            forall|m: Seq<bool>| #[trigger]
                final(self).models(m) ==> lit_sat(m, r as int) == (lit_sat(m, lit0 as int)
                    && lit_sat(m, lit1 as int)),
            conserves(*old(self), *final(self)),
    {
        let ghost a = lit0 as int;
        let ghost b = lit1 as int;
        let t = self.bool_or(-lit0, -lit1);
        proof {
            assert forall|m: Seq<bool>| #[trigger] self.models(m) implies lit_sat(
                m,
                -(t as int),
            ) == (lit_sat(m, a) && lit_sat(m, b)) by {
                lemma_lit_neg(m, a);
                lemma_lit_neg(m, b);
                lemma_lit_neg(m, t as int);
            }
        }
        -t
    }

    /// Returns the implication `imp(a, b) = or(not a, b)`.
    pub fn bool_imp(&mut self, lit0: i32, lit1: i32) -> (r: i32)
        requires
            old(self).wf(),
            lit_ok(lit0 as int, old(self).nv()),
            lit_ok(lit1 as int, old(self).nv()),
            old(self).nv() < i32::MAX,
        ensures
            final(self).wf(),
            final(self).extends(*old(self)),
            lit_ok(r as int, final(self).nv()),
            r as int == imp_result(lit0 as int, lit1 as int, old(self).nv()),
            final(self).cl().len() <= old(self).cl().len() + 3,
            old(self).nv() <= final(self).nv() <= old(self).nv() + 1,
            forall|m: Seq<bool>| #[trigger]
                final(self).models(m) ==> lit_sat(m, r as int) == (!lit_sat(m, lit0 as int)
                    || lit_sat(m, lit1 as int)),
            conserves(*old(self), *final(self)),
    {
        let ghost a = lit0 as int;
        let t = self.bool_or(-lit0, lit1);
        proof {
            assert forall|m: Seq<bool>| #[trigger] self.models(m) implies lit_sat(m, t as int) == (
            !lit_sat(m, a) || lit_sat(m, lit1 as int)) by {
                lemma_lit_neg(m, a);
            }
        }
        t
    }

    /// Returns a literal equivalent to the exclusive or of the two literals.
    /// A constant or aliased operand reduces the result to an existing
    /// literal; otherwise a fresh variable is defined by the four standard
    /// clauses.
    pub fn bool_xor(&mut self, lit0: i32, lit1: i32) -> (r: i32)
        requires
            old(self).wf(),
            lit_ok(lit0 as int, old(self).nv()),
            lit_ok(lit1 as int, old(self).nv()),
            old(self).nv() < i32::MAX,
        ensures
            final(self).wf(),
            final(self).extends(*old(self)),
            lit_ok(r as int, final(self).nv()),
            r as int == xor_result(lit0 as int, lit1 as int, old(self).nv()),
            final(self).cl().len() <= old(self).cl().len() + 4,
            final(self).cl() =~= old(self).cl() + xor_defs(
                lit0 as int,
                lit1 as int,
                old(self).nv(),
            ),
            final(self).nv() == old(self).nv() + if xor_simp(lit0 as int, lit1 as int) is Some {
                0int
            } else {
                1int
            },
            forall|m: Seq<bool>| #[trigger]
                final(self).models(m) ==> lit_sat(m, r as int) == (lit_sat(m, lit0 as int)
                    != lit_sat(m, lit1 as int)),
            conserves(*old(self), *final(self)),
    {
        let ghost prev = *self;
        let ghost a = lit0 as int;
        let ghost b = lit1 as int;
        if lit0 == FALSE || lit0 == TRUE || lit1 == FALSE || lit1 == TRUE || lit0 == lit1 || lit0
            == -lit1 {
            let r = if lit0 == FALSE {
                lit1
            } else if lit0 == TRUE {
                -lit1
            } else if lit1 == FALSE {
                lit0
            } else if lit1 == TRUE {
                -lit0
            } else if lit0 == lit1 {
                FALSE
            } else {
                TRUE
            };
            proof {
                lemma_extends_refl(*self);
                assert(self.cl() =~= prev.cl() + xor_defs(a, b, prev.nv()));
                assert forall|m: Seq<bool>| #[trigger] self.models(m) implies lit_sat(m, r as int)
                    == (lit_sat(m, a) != lit_sat(m, b)) by {
                    lemma_xor_shortcut(m, a, b, prev.nv());
                }
                lemma_conserves_refl(*self);
            }
            r
        } else {
            proof {
                if !self.is_solver_spec() {
                    assert(false);
                }
            }
            let v = self.fresh_var();
            let ghost s1 = *self;
            self.emit3(-lit0, lit1, v);
            let ghost s2 = *self;
            self.emit3(lit0, -lit1, v);
            let ghost s3 = *self;
            self.emit3(lit0, lit1, -v);
            let ghost s4 = *self;
            self.emit3(-lit0, -lit1, -v);
            proof {
                lemma_extends_trans(prev, s1, s2);
                lemma_extends_trans(prev, s2, s3);
                lemma_extends_trans(prev, s3, s4);
                lemma_extends_trans(prev, s4, *self);
                let n = prev.cl().len() as int;
                assert(self.cl() =~= prev.cl() + xor_defs(a, b, prev.nv()));
                assert forall|m: Seq<bool>| #[trigger] self.models(m) implies lit_sat(m, v as int)
                    == (lit_sat(m, a) != lit_sat(m, b)) by {
                    assert(clause_sat(m, self.cl()[n]));
                    assert(clause_sat(m, self.cl()[n + 1]));
                    assert(clause_sat(m, self.cl()[n + 2]));
                    assert(clause_sat(m, self.cl()[n + 3]));
                    assert(self.cl()[n] == seq![-a, b, v as int]);
                    assert(self.cl()[n + 1] == seq![a, -b, v as int]);
                    assert(self.cl()[n + 2] == seq![a, b, -(v as int)]);
                    assert(self.cl()[n + 3] == seq![-a, -b, -(v as int)]);
                    lemma_clause3(m, -a, b, v as int);
                    lemma_clause3(m, a, -b, v as int);
                    lemma_clause3(m, a, b, -(v as int));
                    lemma_clause3(m, -a, -b, -(v as int));
                    lemma_lit_neg(m, a);
                    lemma_lit_neg(m, b);
                    lemma_lit_neg(m, v as int);
                }
                assert(conserves(prev, *self)) by {
                    reveal(conserves);
                    assert forall|m: Seq<bool>| #[trigger]
                        prev.models(m) && m.len() == prev.nv() implies exists|m2: Seq<bool>|
                        m2.len() == self.nv() && m.is_prefix_of(m2) && #[trigger] self.models(
                            m2,
                        ) by {
                        lemma_xor_conservative(prev, *self, a, b, m);
                        assert(self.models(m.push(lit_sat(m, a) != lit_sat(m, b))));
                    }
                }
            }
            v
        }
    }

    /// Returns the logical equivalence `equ(a, b) = xor(not a, b)`.
    pub fn bool_equ(&mut self, lit0: i32, lit1: i32) -> (r: i32)
        requires
            old(self).wf(),
            lit_ok(lit0 as int, old(self).nv()),
            lit_ok(lit1 as int, old(self).nv()),
            old(self).nv() < i32::MAX,
        ensures
            final(self).wf(),
            final(self).extends(*old(self)),
            lit_ok(r as int, final(self).nv()),
            r as int == equ_result(lit0 as int, lit1 as int, old(self).nv()),
            final(self).cl().len() <= old(self).cl().len() + 4,
            old(self).nv() <= final(self).nv() <= old(self).nv() + 1,
            forall|m: Seq<bool>| #[trigger]
                final(self).models(m) ==> lit_sat(m, r as int) == (lit_sat(m, lit0 as int)
                    == lit_sat(m, lit1 as int)),
            conserves(*old(self), *final(self)),
    {
        let ghost a = lit0 as int;
        let t = self.bool_xor(-lit0, lit1);
        proof {
            assert forall|m: Seq<bool>| #[trigger] self.models(m) implies lit_sat(m, t as int) == (
            lit_sat(m, a) == lit_sat(m, lit1 as int)) by {
                lemma_lit_neg(m, a);
            }
        }
        t
    }

    /// Returns a literal equivalent to the majority of the three literals.
    /// Pairwise equal or negated operands collapse the result to an operand;
    /// a constant operand reduces majority to a two-input gate; otherwise a
    /// fresh variable is defined by the six standard clauses.
    pub fn bool_maj(&mut self, lit0: i32, lit1: i32, lit2: i32) -> (r: i32)
        requires
            old(self).wf(),
            lit_ok(lit0 as int, old(self).nv()),
            lit_ok(lit1 as int, old(self).nv()),
            lit_ok(lit2 as int, old(self).nv()),
            old(self).nv() < i32::MAX,
        ensures
            final(self).wf(),
            final(self).extends(*old(self)),
            lit_ok(r as int, final(self).nv()),
            r as int == maj_result(lit0 as int, lit1 as int, lit2 as int, old(self).nv()),
            final(self).cl().len() <= old(self).cl().len() + 6,
            final(self).cl() =~= old(self).cl() + maj_defs(
                lit0 as int,
                lit1 as int,
                lit2 as int,
                old(self).nv(),
            ),
            old(self).nv() <= final(self).nv() <= old(self).nv() + 1,
            forall|m: Seq<bool>| #[trigger]
                final(self).models(m) ==> lit_sat(m, r as int) == maj_bool(
                    lit_sat(m, lit0 as int),
                    lit_sat(m, lit1 as int),
                    lit_sat(m, lit2 as int),
                ),
            conserves(*old(self), *final(self)),
    {
        let ghost prev = *self;
        let ghost a = lit0 as int;
        let ghost b = lit1 as int;
        let ghost c = lit2 as int;
        if lit0 == lit1 || lit0 == lit2 || lit1 == -lit2 || lit1 == lit2 || lit0 == -lit2 || lit0
            == -lit1 {
            let r = if lit0 == lit1 || lit0 == lit2 || lit1 == -lit2 {
                lit0
            } else if lit1 == lit2 || lit0 == -lit2 {
                lit1
            } else {
                lit2
            };
            proof {
                lemma_extends_refl(*self);
                assert(self.cl() =~= prev.cl() + maj_defs(a, b, c, prev.nv()));
                assert forall|m: Seq<bool>| #[trigger] self.models(m) implies lit_sat(m, r as int)
                    == maj_bool(lit_sat(m, a), lit_sat(m, b), lit_sat(m, c)) by {
                    lemma_maj_shortcut(m, a, b, c, prev.nv());
                }
                lemma_conserves_refl(*self);
            }
            r
        } else if lit0 == FALSE {
            let r = self.bool_and(lit1, lit2);
            proof {
                assert forall|m: Seq<bool>| #[trigger] self.models(m) implies lit_sat(m, r as int)
                    == maj_bool(lit_sat(m, a), lit_sat(m, b), lit_sat(m, c)) by {}
            }
            r
        } else if lit0 == TRUE {
            let r = self.bool_or(lit1, lit2);
            proof {
                assert forall|m: Seq<bool>| #[trigger] self.models(m) implies lit_sat(m, r as int)
                    == maj_bool(lit_sat(m, a), lit_sat(m, b), lit_sat(m, c)) by {}
            }
            r
        } else if lit1 == FALSE {
            let r = self.bool_and(lit0, lit2);
            proof {
                assert forall|m: Seq<bool>| #[trigger] self.models(m) implies lit_sat(m, r as int)
                    == maj_bool(lit_sat(m, a), lit_sat(m, b), lit_sat(m, c)) by {}
            }
            r
        } else if lit1 == TRUE {
            let r = self.bool_or(lit0, lit2);
            proof {
                assert forall|m: Seq<bool>| #[trigger] self.models(m) implies lit_sat(m, r as int)
                    == maj_bool(lit_sat(m, a), lit_sat(m, b), lit_sat(m, c)) by {}
            }
            r
        } else if lit2 == FALSE {
            let r = self.bool_and(lit0, lit1);
            proof {
                assert forall|m: Seq<bool>| #[trigger] self.models(m) implies lit_sat(m, r as int)
                    == maj_bool(lit_sat(m, a), lit_sat(m, b), lit_sat(m, c)) by {}
            }
            r
        } else if lit2 == TRUE {
            let r = self.bool_or(lit0, lit1);
            proof {
                assert forall|m: Seq<bool>| #[trigger] self.models(m) implies lit_sat(m, r as int)
                    == maj_bool(lit_sat(m, a), lit_sat(m, b), lit_sat(m, c)) by {}
            }
            r
        } else {
            proof {
                if !self.is_solver_spec() {
                    assert(false);
                }
            }
            let v = self.fresh_var();
            let ghost s1 = *self;
            self.emit3(lit0, lit1, -v);
            let ghost s2 = *self;
            self.emit3(lit0, lit2, -v);
            let ghost s3 = *self;
            self.emit3(lit1, lit2, -v);
            let ghost s4 = *self;
            self.emit3(-lit0, -lit1, v);
            let ghost s5 = *self;
            self.emit3(-lit0, -lit2, v);
            let ghost s6 = *self;
            self.emit3(-lit1, -lit2, v);
            proof {
                lemma_extends_trans(prev, s1, s2);
                lemma_extends_trans(prev, s2, s3);
                lemma_extends_trans(prev, s3, s4);
                lemma_extends_trans(prev, s4, s5);
                lemma_extends_trans(prev, s5, s6);
                lemma_extends_trans(prev, s6, *self);
                let n = prev.cl().len() as int;
                assert(self.cl() =~= prev.cl() + maj_defs(a, b, c, prev.nv()));
                assert forall|m: Seq<bool>| #[trigger] self.models(m) implies lit_sat(m, v as int)
                    == maj_bool(lit_sat(m, a), lit_sat(m, b), lit_sat(m, c)) by {
                    assert(clause_sat(m, self.cl()[n]));
                    assert(clause_sat(m, self.cl()[n + 1]));
                    assert(clause_sat(m, self.cl()[n + 2]));
                    assert(clause_sat(m, self.cl()[n + 3]));
                    assert(clause_sat(m, self.cl()[n + 4]));
                    assert(clause_sat(m, self.cl()[n + 5]));
                    assert(self.cl()[n] == seq![a, b, -(v as int)]);
                    assert(self.cl()[n + 1] == seq![a, c, -(v as int)]);
                    assert(self.cl()[n + 2] == seq![b, c, -(v as int)]);
                    assert(self.cl()[n + 3] == seq![-a, -b, v as int]);
                    assert(self.cl()[n + 4] == seq![-a, -c, v as int]);
                    assert(self.cl()[n + 5] == seq![-b, -c, v as int]);
                    lemma_clause3(m, a, b, -(v as int));
                    lemma_clause3(m, a, c, -(v as int));
                    lemma_clause3(m, b, c, -(v as int));
                    lemma_clause3(m, -a, -b, v as int);
                    lemma_clause3(m, -a, -c, v as int);
                    lemma_clause3(m, -b, -c, v as int);
                    lemma_lit_neg(m, a);
                    lemma_lit_neg(m, b);
                    lemma_lit_neg(m, c);
                    lemma_lit_neg(m, v as int);
                }
                assert(conserves(prev, *self)) by {
                    reveal(conserves);
                    assert forall|m: Seq<bool>| #[trigger]
                        prev.models(m) && m.len() == prev.nv() implies exists|m2: Seq<bool>|
                        m2.len() == self.nv() && m.is_prefix_of(m2) && #[trigger] self.models(
                            m2,
                        ) by {
                        lemma_maj_conservative(prev, *self, a, b, c, m);
                        assert(self.models(m.push(maj_bool(lit_sat(m, a), lit_sat(m, b), lit_sat(m, c)))));
                    }
                }
            }
            v
        }
    }

    /// Returns a literal equivalent to `if lit0 then lit1 else lit2`. Equal
    /// branches, a constant condition, or a branch aliasing the condition
    /// reduce the result to a simpler gate; otherwise a fresh variable is
    /// defined by the four standard clauses.
    pub fn bool_iff(&mut self, lit0: i32, lit1: i32, lit2: i32) -> (r: i32)
        requires
            old(self).wf(),
            lit_ok(lit0 as int, old(self).nv()),
            lit_ok(lit1 as int, old(self).nv()),
            lit_ok(lit2 as int, old(self).nv()),
            old(self).nv() < i32::MAX,
        ensures
            final(self).wf(),
            final(self).extends(*old(self)),
            lit_ok(r as int, final(self).nv()),
            r as int == iff_result(lit0 as int, lit1 as int, lit2 as int, old(self).nv()),
            final(self).cl().len() <= old(self).cl().len() + 4,
            final(self).cl() =~= old(self).cl() + iff_defs(
                lit0 as int,
                lit1 as int,
                lit2 as int,
                old(self).nv(),
            ),
            old(self).nv() <= final(self).nv() <= old(self).nv() + 1,
            forall|m: Seq<bool>| #[trigger]
                final(self).models(m) ==> lit_sat(m, r as int) == ite_bool(
                    lit_sat(m, lit0 as int),
                    lit_sat(m, lit1 as int),
                    lit_sat(m, lit2 as int),
                ),
            conserves(*old(self), *final(self)),
    {
        let ghost prev = *self;
        let ghost c = lit0 as int;
        let ghost t = lit1 as int;
        let ghost e = lit2 as int;
        if lit1 == lit2 || lit0 == TRUE {
            proof {
                lemma_extends_refl(*self);
                assert(self.cl() =~= prev.cl() + iff_defs(c, t, e, prev.nv()));
                assert forall|m: Seq<bool>| #[trigger] self.models(m) implies lit_sat(m, t)
                    == ite_bool(lit_sat(m, c), lit_sat(m, t), lit_sat(m, e)) by {
                    lemma_iff_shortcut(m, c, t, e, prev.nv());
                }
                lemma_conserves_refl(*self);
            }
            lit1
        } else if lit0 == FALSE {
            proof {
                lemma_extends_refl(*self);
                assert(self.cl() =~= prev.cl() + iff_defs(c, t, e, prev.nv()));
                assert forall|m: Seq<bool>| #[trigger] self.models(m) implies lit_sat(m, e)
                    == ite_bool(lit_sat(m, c), lit_sat(m, t), lit_sat(m, e)) by {
                    lemma_iff_shortcut(m, c, t, e, prev.nv());
                }
                lemma_conserves_refl(*self);
            }
            lit2
        } else if lit1 == -lit2 {
            let r = self.bool_xor(lit0, lit2);
            proof {
                assert forall|m: Seq<bool>| #[trigger] self.models(m) implies lit_sat(m, r as int)
                    == ite_bool(lit_sat(m, c), lit_sat(m, t), lit_sat(m, e)) by {
                    lemma_lit_neg(m, e);
                }
            }
            r
        } else if lit0 == lit1 || lit1 == TRUE {
            let r = self.bool_or(lit0, lit2);
            proof {
                assert forall|m: Seq<bool>| #[trigger] self.models(m) implies lit_sat(m, r as int)
                    == ite_bool(lit_sat(m, c), lit_sat(m, t), lit_sat(m, e)) by {}
            }
            r
        } else if lit0 == -lit1 || lit1 == FALSE {
            let r = self.bool_and(-lit0, lit2);
            proof {
                assert forall|m: Seq<bool>| #[trigger] self.models(m) implies lit_sat(m, r as int)
                    == ite_bool(lit_sat(m, c), lit_sat(m, t), lit_sat(m, e)) by {
                    lemma_lit_neg(m, c);
                    lemma_lit_neg(m, t);
                }
            }
            r
        } else if lit0 == -lit2 || lit2 == TRUE {
            let r = self.bool_or(-lit0, lit1);
            proof {
                assert forall|m: Seq<bool>| #[trigger] self.models(m) implies lit_sat(m, r as int)
                    == ite_bool(lit_sat(m, c), lit_sat(m, t), lit_sat(m, e)) by {
                    lemma_lit_neg(m, c);
                    lemma_lit_neg(m, e);
                }
            }
            r
        } else if lit0 == lit2 || lit2 == FALSE {
            let r = self.bool_and(lit0, lit1);
            proof {
                assert forall|m: Seq<bool>| #[trigger] self.models(m) implies lit_sat(m, r as int)
                    == ite_bool(lit_sat(m, c), lit_sat(m, t), lit_sat(m, e)) by {}
            }
            r
        } else {
            proof {
                if !self.is_solver_spec() {
                    assert(false);
                }
            }
            let v = self.fresh_var();
            let ghost s1 = *self;
            self.emit3(-lit0, -lit1, v);
            let ghost s2 = *self;
            self.emit3(-lit0, lit1, -v);
            let ghost s3 = *self;
            self.emit3(lit0, -lit2, v);
            let ghost s4 = *self;
            self.emit3(lit0, lit2, -v);
            proof {
                lemma_extends_trans(prev, s1, s2);
                lemma_extends_trans(prev, s2, s3);
                lemma_extends_trans(prev, s3, s4);
                lemma_extends_trans(prev, s4, *self);
                let n = prev.cl().len() as int;
                assert(self.cl() =~= prev.cl() + iff_defs(c, t, e, prev.nv()));
                assert forall|m: Seq<bool>| #[trigger] self.models(m) implies lit_sat(m, v as int)
                    == ite_bool(lit_sat(m, c), lit_sat(m, t), lit_sat(m, e)) by {
                    assert(clause_sat(m, self.cl()[n]));
                    assert(clause_sat(m, self.cl()[n + 1]));
                    assert(clause_sat(m, self.cl()[n + 2]));
                    assert(clause_sat(m, self.cl()[n + 3]));
                    assert(self.cl()[n] == seq![-c, -t, v as int]);
                    assert(self.cl()[n + 1] == seq![-c, t, -(v as int)]);
                    assert(self.cl()[n + 2] == seq![c, -e, v as int]);
                    assert(self.cl()[n + 3] == seq![c, e, -(v as int)]);
                    lemma_clause3(m, -c, -t, v as int);
                    lemma_clause3(m, -c, t, -(v as int));
                    lemma_clause3(m, c, -e, v as int);
                    lemma_clause3(m, c, e, -(v as int));
                    lemma_lit_neg(m, c);
                    lemma_lit_neg(m, t);
                    lemma_lit_neg(m, e);
                    lemma_lit_neg(m, v as int);
                }
                assert(conserves(prev, *self)) by {
                    reveal(conserves);
                    assert forall|m: Seq<bool>| #[trigger]
                        prev.models(m) && m.len() == prev.nv() implies exists|m2: Seq<bool>|
                        m2.len() == self.nv() && m.is_prefix_of(m2) && #[trigger] self.models(
                            m2,
                        ) by {
                        lemma_iff_conservative(prev, *self, c, t, e, m);
                        assert(self.models(m.push(ite_bool(lit_sat(m, c), lit_sat(m, t), lit_sat(m, e)))));
                    }
                }
            }
            v
        }
    }

    /// Computes the conjunction of the literals: TRUE over the empty
    /// sequence, short-circuiting to FALSE as soon as the running result
    /// collapses to it.
    pub fn fold_all(&mut self, lits: &Vec<i32>) -> (r: i32)
        requires
            old(self).wf(),
            lits_ok(ints(lits@), old(self).nv()),
            old(self).nv() + lits@.len() <= i32::MAX,
        ensures
            final(self).wf(),
            final(self).extends(*old(self)),
            lit_ok(r as int, final(self).nv()),
            final(self).nv() <= old(self).nv() + lits@.len(),
            final(self).cl().len() <= old(self).cl().len() + 3 * lits@.len(),
            conserves(*old(self), *final(self)),
            forall|m: Seq<bool>| #[trigger]
                final(self).models(m) ==> lit_sat(m, r as int) == seq_all(m, ints(lits@)),
            !old(self).is_solver_spec() ==> (r == TRUE <==> seq_all(calc_env(), ints(lits@))),
    {
        let ghost prev = *self;
        let ghost ls = ints(lits@);
        let mut res: i32 = TRUE;
        let mut i: usize = 0;
        proof {
            lemma_extends_refl(*self);
            lemma_conserves_refl(*self);
        }
        while i < lits.len()
            invariant
                prev == *old(self),
                prev.wf(),
                self.wf(),
                self.extends(prev),
                ls == ints(lits@),
                ls.len() == lits@.len(),
                lits_ok(ls, prev.nv()),
                prev.nv() + ls.len() <= i32::MAX,
                0 <= i <= lits@.len(),
                self.nv() <= prev.nv() + i,
                self.cl().len() <= prev.cl().len() + 3 * i,
                conserves(prev, *self),
                lit_ok(res as int, self.nv()),
                forall|m: Seq<bool>| #[trigger]
                    self.models(m) ==> lit_sat(m, res as int) == seq_all(m, ls.take(i as int)),
            decreases lits@.len() - i,
        {
            let lit = lits[i];
            proof {
                assert(ls[i as int] == lits@[i as int] as int);
                assert(lit_ok(ls[i as int], prev.nv()));
            }
            let ghost mid = *self;
            res = self.bool_and(res, lit);
            proof {
                lemma_extends_trans(prev, mid, *self);
                lemma_conserves_trans(prev, mid, *self);
                assert forall|m: Seq<bool>| #[trigger] self.models(m) implies lit_sat(
                    m,
                    res as int,
                ) == seq_all(m, ls.take(i as int + 1)) by {
                    lemma_models_extends(mid, *self, m);
                    lemma_seq_all_take(m, ls, i as int);
                }
            }
            i = i + 1;
            if res == FALSE {
                proof {
                    assert forall|m: Seq<bool>| #[trigger] self.models(m) implies lit_sat(
                        m,
                        -1int,
                    ) == seq_all(m, ls) by {
                        if seq_all(m, ls) {
                            lemma_seq_all_prefix(m, ls, i as int);
                        }
                    }
                }
                proof {
                    if !self.is_solver_spec() {
                        assert(self.models(calc_env()));
                    }
                }
                return FALSE;
            }
        }
        proof {
            assert(ls.take(lits@.len() as int) =~= ls);
            if !self.is_solver_spec() {
                assert(self.models(calc_env()));
            }
        }
        res
    }

    /// Computes the disjunction of the literals: FALSE over the empty
    /// sequence, short-circuiting to TRUE as soon as the running result
    /// collapses to it.
    pub fn fold_any(&mut self, lits: &Vec<i32>) -> (r: i32)
        requires
            old(self).wf(),
            lits_ok(ints(lits@), old(self).nv()),
            old(self).nv() + lits@.len() <= i32::MAX,
        ensures
            final(self).wf(),
            final(self).extends(*old(self)),
            lit_ok(r as int, final(self).nv()),
            final(self).nv() <= old(self).nv() + lits@.len(),
            final(self).cl().len() <= old(self).cl().len() + 3 * lits@.len(),
            conserves(*old(self), *final(self)),
            forall|m: Seq<bool>| #[trigger]
                final(self).models(m) ==> lit_sat(m, r as int) == clause_sat(m, ints(lits@)),
            !old(self).is_solver_spec() ==> (r == TRUE <==> clause_sat(calc_env(), ints(lits@))),
    {
        let ghost prev = *self;
        let ghost ls = ints(lits@);
        let mut res: i32 = FALSE;
        let mut i: usize = 0;
        proof {
            lemma_extends_refl(*self);
            lemma_conserves_refl(*self);
        }
        while i < lits.len()
            invariant
                prev == *old(self),
                prev.wf(),
                self.wf(),
                self.extends(prev),
                ls == ints(lits@),
                ls.len() == lits@.len(),
                lits_ok(ls, prev.nv()),
                prev.nv() + ls.len() <= i32::MAX,
                0 <= i <= lits@.len(),
                self.nv() <= prev.nv() + i,
                self.cl().len() <= prev.cl().len() + 3 * i,
                conserves(prev, *self),
                lit_ok(res as int, self.nv()),
                forall|m: Seq<bool>| #[trigger]
                    self.models(m) ==> lit_sat(m, res as int) == clause_sat(m, ls.take(i as int)),
            decreases lits@.len() - i,
        {
            let lit = lits[i];
            proof {
                assert(ls[i as int] == lits@[i as int] as int);
                assert(lit_ok(ls[i as int], prev.nv()));
            }
            let ghost mid = *self;
            res = self.bool_or(res, lit);
            proof {
                lemma_extends_trans(prev, mid, *self);
                lemma_conserves_trans(prev, mid, *self);
                assert forall|m: Seq<bool>| #[trigger] self.models(m) implies lit_sat(
                    m,
                    res as int,
                ) == clause_sat(m, ls.take(i as int + 1)) by {
                    lemma_models_extends(mid, *self, m);
                    lemma_clause_sat_take(m, ls, i as int);
                }
            }
            i = i + 1;
            if res == TRUE {
                proof {
                    assert forall|m: Seq<bool>| #[trigger] self.models(m) implies lit_sat(
                        m,
                        1int,
                    ) == clause_sat(m, ls) by {
                        lemma_clause_sat_prefix(m, ls, i as int);
                    }
                }
                proof {
                    if !self.is_solver_spec() {
                        assert(self.models(calc_env()));
                    }
                }
                return TRUE;
            }
        }
        proof {
            assert(ls.take(lits@.len() as int) =~= ls);
            if !self.is_solver_spec() {
                assert(self.models(calc_env()));
            }
        }
        res
    }

    /// Runs the shared two-counter aggregation and returns the literals
    /// meaning "at least one literal so far is true" and "at least two are".
    fn fold_counters(&mut self, lits: &Vec<i32>) -> (p: (i32, i32))
        requires
            old(self).wf(),
            lits_ok(ints(lits@), old(self).nv()),
            old(self).nv() + 3 * lits@.len() <= i32::MAX,
        ensures
            final(self).wf(),
            final(self).extends(*old(self)),
            lit_ok(p.0 as int, final(self).nv()),
            lit_ok(p.1 as int, final(self).nv()),
            final(self).nv() <= old(self).nv() + 3 * lits@.len(),
            final(self).cl().len() <= old(self).cl().len() + 9 * lits@.len(),
            conserves(*old(self), *final(self)),
            forall|m: Seq<bool>| #[trigger]
                final(self).models(m) ==> lit_sat(m, p.0 as int) == (num_true(m, ints(lits@))
                    >= 1),
            forall|m: Seq<bool>| #[trigger]
                final(self).models(m) ==> lit_sat(m, p.1 as int) == (num_true(m, ints(lits@))
                    >= 2),
    {
        let ghost prev = *self;
        let ghost ls = ints(lits@);
        let mut min1: i32 = FALSE;
        let mut min2: i32 = FALSE;
        let mut i: usize = 0;
        proof {
            lemma_extends_refl(*self);
            lemma_conserves_refl(*self);
        }
        while i < lits.len()
            invariant
                prev == *old(self),
                prev.wf(),
                self.wf(),
                self.extends(prev),
                ls == ints(lits@),
                ls.len() == lits@.len(),
                lits_ok(ls, prev.nv()),
                prev.nv() + 3 * ls.len() <= i32::MAX,
                0 <= i <= lits@.len(),
                self.nv() <= prev.nv() + 3 * i,
                self.cl().len() <= prev.cl().len() + 9 * i,
                conserves(prev, *self),
                lit_ok(min1 as int, self.nv()),
                lit_ok(min2 as int, self.nv()),
                forall|m: Seq<bool>| #[trigger]
                    self.models(m) ==> lit_sat(m, min1 as int) == (num_true(m, ls.take(i as int))
                        >= 1),
                forall|m: Seq<bool>| #[trigger]
                    self.models(m) ==> lit_sat(m, min2 as int) == (num_true(m, ls.take(i as int))
                        >= 2),
            decreases lits@.len() - i,
        {
            let lit = lits[i];
            proof {
                assert(ls[i as int] == lits@[i as int] as int);
                assert(lit_ok(ls[i as int], prev.nv()));
            }
            let ghost st0 = *self;
            let tmp = self.bool_and(min1, lit);
            let ghost st1 = *self;
            min2 = self.bool_or(min2, tmp);
            let ghost st2 = *self;
            min1 = self.bool_or(min1, lit);
            proof {
                lemma_extends_trans(prev, st0, st1);
                lemma_extends_trans(prev, st1, st2);
                lemma_extends_trans(prev, st2, *self);
                lemma_conserves_trans(prev, st0, st1);
                lemma_conserves_trans(prev, st1, st2);
                lemma_conserves_trans(prev, st2, *self);
                assert forall|m: Seq<bool>| #[trigger] self.models(m) implies (lit_sat(
                    m,
                    min1 as int,
                ) == (num_true(m, ls.take(i as int + 1)) >= 1)) && (lit_sat(m, min2 as int) == (
                num_true(m, ls.take(i as int + 1)) >= 2)) by {
                    lemma_models_extends(st2, *self, m);
                    lemma_models_extends(st1, st2, m);
                    lemma_models_extends(st0, st1, m);
                    lemma_num_true_take(m, ls, i as int);
                }
            }
            i = i + 1;
            if min2 == TRUE {
                proof {
                    assert forall|m: Seq<bool>| #[trigger] self.models(m) implies (lit_sat(
                        m,
                        min1 as int,
                    ) == (num_true(m, ls) >= 1)) && (lit_sat(m, 1int) == (num_true(m, ls)
                        >= 2)) by {
                        lemma_num_true_take_le(m, ls, i as int);
                    }
                }
                return (min1, TRUE);
            }
        }
        proof {
            assert(ls.take(lits@.len() as int) =~= ls);
        }
        (min1, min2)
    }

    /// Computes the exactly-one predicate over the literals through the
    /// linear two-counter aggregation.
    pub fn fold_one(&mut self, lits: &Vec<i32>) -> (r: i32)
        requires
            old(self).wf(),
            lits_ok(ints(lits@), old(self).nv()),
            old(self).nv() + 3 * lits@.len() + 1 <= i32::MAX,
        ensures
            final(self).wf(),
            final(self).extends(*old(self)),
            lit_ok(r as int, final(self).nv()),
            final(self).nv() <= old(self).nv() + 3 * lits@.len() + 1,
            final(self).cl().len() <= old(self).cl().len() + 9 * lits@.len() + 3,
            conserves(*old(self), *final(self)),
            forall|m: Seq<bool>| #[trigger]
                final(self).models(m) ==> lit_sat(m, r as int) == (num_true(m, ints(lits@)) == 1),
            !old(self).is_solver_spec() ==> (r == TRUE <==> num_true(calc_env(), ints(lits@))
                == 1),
    {
        let ghost prev = *self;
        let counters = self.fold_counters(lits);
        let ghost mid = *self;
        let r = self.bool_and(counters.0, -counters.1);
        proof {
            lemma_extends_trans(prev, mid, *self);
            lemma_conserves_trans(prev, mid, *self);
            assert forall|m: Seq<bool>| #[trigger] self.models(m) implies lit_sat(m, r as int) == (
            num_true(m, ints(lits@)) == 1) by {
                lemma_models_extends(mid, *self, m);
                lemma_lit_neg(m, counters.1 as int);
            }
            if !self.is_solver_spec() {
                assert(self.models(calc_env()));
            }
        }
        r
    }

    /// Computes the at-most-one predicate over the literals through the
    /// linear two-counter aggregation.
    pub fn fold_amo(&mut self, lits: &Vec<i32>) -> (r: i32)
        requires
            old(self).wf(),
            lits_ok(ints(lits@), old(self).nv()),
            old(self).nv() + 3 * lits@.len() <= i32::MAX,
        ensures
            final(self).wf(),
            final(self).extends(*old(self)),
            lit_ok(r as int, final(self).nv()),
            final(self).nv() <= old(self).nv() + 3 * lits@.len(),
            final(self).cl().len() <= old(self).cl().len() + 9 * lits@.len(),
            conserves(*old(self), *final(self)),
            forall|m: Seq<bool>| #[trigger]
                final(self).models(m) ==> lit_sat(m, r as int) == (num_true(m, ints(lits@)) <= 1),
            !old(self).is_solver_spec() ==> (r == TRUE <==> num_true(calc_env(), ints(lits@))
                <= 1),
    {
        let counters = self.fold_counters(lits);
        let r = -counters.1;
        proof {
            assert forall|m: Seq<bool>| #[trigger] self.models(m) implies lit_sat(m, r as int) == (
            num_true(m, ints(lits@)) <= 1) by {
                lemma_lit_neg(m, counters.1 as int);
            }
            if !self.is_solver_spec() {
                assert(self.models(calc_env()));
            }
        }
        r
    }

    /// Asserts the given clause. Negated literals are negative integers,
    /// positive literals positive ones; every literal must be non-zero with
    /// magnitude at most the number of allocated variables.
    pub fn add_clause(&mut self, clause: Vec<i32>) -> (r: Result<(), Error>)
        requires
            old(self).wf(),
        ensures
            final(self).wf(),
            final(self).extends(*old(self)),
            final(self).nv() == old(self).nv(),
            match r {
                Ok(_) => {
                    &&& old(self).is_solver_spec()
                    &&& lits_ok(ints(clause@), old(self).nv())
                    &&& final(self).cl() == old(self).cl().push(ints(clause@))
                },
                Err(e) => {
                    &&& *final(self) == *old(self)
                    &&& (e == Error::NoBackingSolver && !old(self).is_solver_spec() || e
                        == Error::InvalidLiteral && old(self).is_solver_spec() && !lits_ok(
                        ints(clause@),
                        old(self).nv(),
                    ))
                },
            },
            r is Ok <==> (old(self).is_solver_spec() && lits_ok(ints(clause@), old(self).nv())),
            r is Ok ==> forall|m: Seq<bool>| #[trigger]
                final(self).models(m) ==> clause_sat(m, ints(clause@)),
    {
        let ghost ls = ints(clause@);
        if !self.is_solver() {
            proof {
                lemma_extends_refl(*self);
            }
            return Err(Error::NoBackingSolver);
        }
        let mut i: usize = 0;
        while i < clause.len()
            invariant
                *self == *old(self),
                self.wf(),
                self.is_solver_spec(),
                ls == ints(clause@),
                ls.len() == clause@.len(),
                0 <= i <= clause@.len(),
                forall|j: int| 0 <= j < i ==> lit_ok(#[trigger] ls[j], self.nv()),
            decreases clause@.len() - i,
        {
            let lit = clause[i];
            if lit == 0 || lit < -self.nvars || lit > self.nvars {
                proof {
                    lemma_extends_refl(*self);
                    assert(ls[i as int] == clause@[i as int] as int);
                    assert(!lit_ok(ls[i as int], self.nv()));
                }
                return Err(Error::InvalidLiteral);
            }
            proof {
                assert(ls[i as int] == clause@[i as int] as int);
            }
            i = i + 1;
        }
        proof {
            assert forall|j: int| 0 <= j < ls.len() implies lit_ok(#[trigger] ls[j], self.nv()) by {
            }
            assert(lits_ok(ls, self.nv()));
            assert forall|j: int|
                0 <= j < clause@.len() implies clause@[j] != 0 && clause@[j] != i32::MIN by {
                assert(ls[j] == clause@[j] as int);
                assert(lit_ok(ls[j], self.nv()));
            }
        }
        match &mut self.backend {
            Backend::Sat(o) => oracle_add_clause(o, &clause),
            Backend::Calc => {
                proof {
                    assert(false);
                }
            },
        }
        proof {
            lemma_prefix_push(self.clauses@, ls);
            lemma_formula_ok_push(self.clauses@, ls, self.nv());
        }
        self.clauses = Ghost(self.clauses@.push(ls));
        proof {
            let n = self.cl().len() - 1;
            assert forall|m: Seq<bool>| #[trigger] self.models(m) implies clause_sat(m, ls) by {
                assert(clause_sat(m, self.cl()[n]));
            }
        }
        Ok(())
    }

    /// Asserts the unary clause, permanently forcing the literal true.
    pub fn add_clause1(&mut self, lit0: i32) -> (r: Result<(), Error>)
        requires
            old(self).wf(),
        ensures
            final(self).wf(),
            final(self).extends(*old(self)),
            final(self).nv() == old(self).nv(),
            r is Ok <==> (old(self).is_solver_spec() && lit_ok(lit0 as int, old(self).nv())),
            r is Ok ==> final(self).cl() =~= old(self).cl().push(seq![lit0 as int]),
            r is Err ==> *final(self) == *old(self),
            r is Ok ==> forall|m: Seq<bool>| #[trigger]
                final(self).models(m) ==> lit_sat(m, lit0 as int),
    {
        let ghost ls: Seq<int> = seq![lit0 as int];
        let v: Vec<i32> = vec![lit0];
        proof {
            assert(v@ =~= seq![lit0]);
        }
        let r = self.add_clause(v);
        proof {
            assert(ints(seq![lit0]) =~= ls);
            if lit_ok(lit0 as int, old(self).nv()) {
                assert(lits_ok(ls, old(self).nv()));
            }
            if lits_ok(ls, old(self).nv()) {
                assert(lit_ok(ls[0], old(self).nv()));
            }
            if r is Ok {
                assert forall|m: Seq<bool>| #[trigger] self.models(m) implies lit_sat(
                    m,
                    lit0 as int,
                ) by {
                    assert(clause_sat(m, ls));
                    lemma_clause1(m, lit0 as int);
                }
            }
        }
        r
    }

    /// Asserts the binary clause.
    pub fn add_clause2(&mut self, lit0: i32, lit1: i32) -> (r: Result<(), Error>)
        requires
            old(self).wf(),
        ensures
            final(self).wf(),
            final(self).extends(*old(self)),
            final(self).nv() == old(self).nv(),
            r is Ok <==> (old(self).is_solver_spec() && lit_ok(lit0 as int, old(self).nv())
                && lit_ok(lit1 as int, old(self).nv())),
            r is Ok ==> final(self).cl() =~= old(self).cl().push(seq![lit0 as int, lit1 as int]),
            r is Err ==> *final(self) == *old(self),
            r is Ok ==> forall|m: Seq<bool>| #[trigger]
                final(self).models(m) ==> (lit_sat(m, lit0 as int) || lit_sat(m, lit1 as int)),
    {
        let ghost ls: Seq<int> = seq![lit0 as int, lit1 as int];
        let v: Vec<i32> = vec![lit0, lit1];
        proof {
            assert(v@ =~= seq![lit0, lit1]);
        }
        let r = self.add_clause(v);
        proof {
            assert(ints(seq![lit0, lit1]) =~= ls);
            if lit_ok(lit0 as int, old(self).nv()) && lit_ok(lit1 as int, old(self).nv()) {
                assert(lits_ok(ls, old(self).nv()));
            }
            if lits_ok(ls, old(self).nv()) {
                assert(lit_ok(ls[0], old(self).nv()));
                assert(lit_ok(ls[1], old(self).nv()));
            }
            if r is Ok {
                assert forall|m: Seq<bool>| #[trigger] self.models(m) implies (lit_sat(
                    m,
                    lit0 as int,
                ) || lit_sat(m, lit1 as int)) by {
                    assert(clause_sat(m, ls));
                    lemma_clause2(m, lit0 as int, lit1 as int);
                }
            }
        }
        r
    }

    /// Asserts the ternary clause.
    pub fn add_clause3(&mut self, lit0: i32, lit1: i32, lit2: i32) -> (r: Result<(), Error>)
        requires
            old(self).wf(),
        ensures
            final(self).wf(),
            final(self).extends(*old(self)),
            final(self).nv() == old(self).nv(),
            r is Ok <==> (old(self).is_solver_spec() && lit_ok(lit0 as int, old(self).nv())
                && lit_ok(lit1 as int, old(self).nv()) && lit_ok(lit2 as int, old(self).nv())),
            r is Ok ==> final(self).cl() =~= old(self).cl().push(
                seq![lit0 as int, lit1 as int, lit2 as int],
            ),
            r is Err ==> *final(self) == *old(self),
            r is Ok ==> forall|m: Seq<bool>| #[trigger]
                final(self).models(m) ==> (lit_sat(m, lit0 as int) || lit_sat(m, lit1 as int)
                    || lit_sat(m, lit2 as int)),
    {
        let ghost ls: Seq<int> = seq![lit0 as int, lit1 as int, lit2 as int];
        let v: Vec<i32> = vec![lit0, lit1, lit2];
        proof {
            assert(v@ =~= seq![lit0, lit1, lit2]);
        }
        let r = self.add_clause(v);
        proof {
            assert(ints(seq![lit0, lit1, lit2]) =~= ls);
            if lit_ok(lit0 as int, old(self).nv()) && lit_ok(lit1 as int, old(self).nv())
                && lit_ok(lit2 as int, old(self).nv()) {
                assert(lits_ok(ls, old(self).nv()));
            }
            if lits_ok(ls, old(self).nv()) {
                assert(lit_ok(ls[0], old(self).nv()));
                assert(lit_ok(ls[1], old(self).nv()));
                assert(lit_ok(ls[2], old(self).nv()));
            }
            if r is Ok {
                assert forall|m: Seq<bool>| #[trigger] self.models(m) implies (lit_sat(
                    m,
                    lit0 as int,
                ) || lit_sat(m, lit1 as int) || lit_sat(m, lit2 as int)) by {
                    assert(clause_sat(m, ls));
                    lemma_clause3(m, lit0 as int, lit1 as int, lit2 as int);
                }
            }
        }
        r
    }

    /// Asserts the quaternary clause.
    pub fn add_clause4(&mut self, lit0: i32, lit1: i32, lit2: i32, lit3: i32) -> (r: Result<
        (),
        Error,
    >)
        requires
            old(self).wf(),
        ensures
            final(self).wf(),
            final(self).extends(*old(self)),
            final(self).nv() == old(self).nv(),
            r is Ok <==> (old(self).is_solver_spec() && lit_ok(lit0 as int, old(self).nv())
                && lit_ok(lit1 as int, old(self).nv()) && lit_ok(lit2 as int, old(self).nv())
                && lit_ok(lit3 as int, old(self).nv())),
            r is Ok ==> final(self).cl() =~= old(self).cl().push(
                seq![lit0 as int, lit1 as int, lit2 as int, lit3 as int],
            ),
            r is Err ==> *final(self) == *old(self),
    {
        let ghost ls: Seq<int> = seq![lit0 as int, lit1 as int, lit2 as int, lit3 as int];
        let v: Vec<i32> = vec![lit0, lit1, lit2, lit3];
        proof {
            assert(v@ =~= seq![lit0, lit1, lit2, lit3]);
        }
        let r = self.add_clause(v);
        proof {
            assert(ints(seq![lit0, lit1, lit2, lit3]) =~= ls);
            if lit_ok(lit0 as int, old(self).nv()) && lit_ok(lit1 as int, old(self).nv())
                && lit_ok(lit2 as int, old(self).nv()) && lit_ok(lit3 as int, old(self).nv()) {
                assert(lits_ok(ls, old(self).nv()));
            }
            if lits_ok(ls, old(self).nv()) {
                assert(lit_ok(ls[0], old(self).nv()));
                assert(lit_ok(ls[1], old(self).nv()));
                assert(lit_ok(ls[2], old(self).nv()));
                assert(lit_ok(ls[3], old(self).nv()));
            }
        }
        r
    }

    /// The number of clauses the oracle currently holds; the calculator
    /// holds none.
    pub fn num_clauses(&self) -> (r: usize)
        ensures
            !self.is_solver_spec() ==> r == 0,
    {
        match &self.backend {
            Backend::Sat(o) => oracle_num_clauses(o),
            Backend::Calc => 0,
        }
    }

    /// The status of the most recent solve, as the oracle reports it:
    /// `Some(true)` satisfiable, `Some(false)` unsatisfiable, `None` when
    /// undetermined, never solved, or mutated since; the calculator has no
    /// status.
    pub fn status(&self) -> (r: Option<bool>)
        ensures
            r == self.status_spec(),
    {
        match &self.backend {
            Backend::Sat(o) => oracle_status(o),
            Backend::Calc => None,
        }
    }

    /// Solves the formula defined by the asserted clauses: `Some(true)` when
    /// satisfiable, `Some(false)` when unsatisfiable, `None` when the oracle
    /// ran out of resources or was interrupted. The calculator cannot solve.
    pub fn solve(&mut self) -> (r: Result<Option<bool>, Error>)
        requires
            old(self).wf(),
        ensures
            final(self).wf(),
            final(self).extends(*old(self)),
            final(self).nv() == old(self).nv(),
            final(self).cl() == old(self).cl(),
            r is Ok <==> old(self).is_solver_spec(),
            r matches Ok(v) ==> v == final(self).status_spec(),
            r is Err ==> *final(self) == *old(self) && r == Err::<Option<bool>, Error>(
                Error::NoBackingSolver,
            ),
    {
        let r = match &mut self.backend {
            Backend::Sat(o) => Ok(oracle_solve(o)),
            Backend::Calc => Err(Error::NoBackingSolver),
        };
        proof {
            lemma_extends_refl(*self);
        }
        r
    }

    /// Solves the formula under the given assumption literals, which must be
    /// well formed for this instance.
    pub fn solve_with(&mut self, assumptions: Vec<i32>) -> (r: Result<Option<bool>, Error>)
        requires
            old(self).wf(),
        ensures
            final(self).wf(),
            final(self).extends(*old(self)),
            final(self).nv() == old(self).nv(),
            final(self).cl() == old(self).cl(),
            r is Ok <==> (old(self).is_solver_spec() && lits_ok(
                ints(assumptions@),
                old(self).nv(),
            )),
            r matches Ok(v) ==> v == final(self).status_spec(),
            r is Err ==> *final(self) == *old(self) && (r == Err::<Option<bool>, Error>(
                Error::NoBackingSolver,
            ) && !old(self).is_solver_spec() || r == Err::<Option<bool>, Error>(
                Error::InvalidLiteral,
            ) && old(self).is_solver_spec()),
    {
        let ghost ls = ints(assumptions@);
        if !self.is_solver() {
            proof {
                lemma_extends_refl(*self);
            }
            return Err(Error::NoBackingSolver);
        }
        let mut i: usize = 0;
        while i < assumptions.len()
            invariant
                *self == *old(self),
                self.wf(),
                self.is_solver_spec(),
                ls == ints(assumptions@),
                ls.len() == assumptions@.len(),
                0 <= i <= assumptions@.len(),
                forall|j: int| 0 <= j < i ==> lit_ok(#[trigger] ls[j], self.nv()),
            decreases assumptions@.len() - i,
        {
            let lit = assumptions[i];
            if lit == 0 || lit < -self.nvars || lit > self.nvars {
                proof {
                    lemma_extends_refl(*self);
                    assert(ls[i as int] == assumptions@[i as int] as int);
                    assert(!lit_ok(ls[i as int], self.nv()));
                }
                return Err(Error::InvalidLiteral);
            }
            proof {
                assert(ls[i as int] == assumptions@[i as int] as int);
            }
            i = i + 1;
        }
        proof {
            assert forall|j: int|
                0 <= j < assumptions@.len() implies assumptions@[j] != 0 && assumptions@[j]
                != i32::MIN by {
                assert(ls[j] == assumptions@[j] as int);
                assert(lit_ok(ls[j], self.nv()));
            }
            assert(lits_ok(ls, self.nv()));
        }
        let r = match &mut self.backend {
            Backend::Sat(o) => Ok(oracle_solve_with(o, &assumptions)),
            Backend::Calc => {
                proof {
                    assert(false);
                }
                Err(Error::NoBackingSolver)
            },
        };
        proof {
            lemma_extends_refl(*self);
        }
        r
    }

    /// The value of the literal in the most recent solution. The instance
    /// must be a real solver whose most recent solve returned satisfiable;
    /// `Ok(None)` means the formula is satisfied regardless of the literal.
    pub fn get_value(&self, lit: i32) -> (r: Result<Option<bool>, Error>)
        requires
            self.wf(),
        ensures
            r is Ok <==> (self.is_solver_spec() && lit_ok(lit as int, self.nv())
                && self.status_spec() == Some(true)),
            match r {
                Ok(v) => v == self.value_spec(lit as int),
                Err(e) => (e == Error::NoBackingSolver && !self.is_solver_spec()) || (e
                    == Error::InvalidLiteral && self.is_solver_spec() && !lit_ok(
                    lit as int,
                    self.nv(),
                )) || (e == Error::NotSolved && self.is_solver_spec() && lit_ok(
                    lit as int,
                    self.nv(),
                ) && self.status_spec() != Some(true)),
            },
    {
        match &self.backend {
            Backend::Sat(o) => {
                if lit == 0 || lit < -self.nvars || lit > self.nvars {
                    Err(Error::InvalidLiteral)
                } else {
                    let status = oracle_status(o);
                    match status {
                        Some(true) => Ok(oracle_value(o, lit)),
                        _ => Err(Error::NotSolved),
                    }
                }
            },
            Backend::Calc => Err(Error::NoBackingSolver),
        }
    }

    /// Returns a literal meaning the two sequences are pointwise equal; the
    /// sequences must have the same length.
    pub fn comp_eq(&mut self, lits0: &Vec<i32>, lits1: &Vec<i32>) -> (r: Result<i32, Error>)
        requires
            old(self).wf(),
            lits_ok(ints(lits0@), old(self).nv()),
            lits_ok(ints(lits1@), old(self).nv()),
            old(self).nv() + 2 * lits0@.len() <= i32::MAX,
        ensures
            final(self).wf(),
            final(self).extends(*old(self)),
            final(self).nv() <= old(self).nv() + 2 * lits0@.len(),
            final(self).cl().len() <= old(self).cl().len() + 7 * lits0@.len(),
            conserves(*old(self), *final(self)),
            r is Ok <==> lits0@.len() == lits1@.len(),
            r is Err ==> *final(self) == *old(self) && r == Err::<i32, Error>(
                Error::LengthMismatch,
            ),
            match r {
                Ok(v) => lit_ok(v as int, final(self).nv()) && (forall|m: Seq<bool>| #[trigger]
                    final(self).models(m) ==> lit_sat(m, v as int) == bits_eq(
                        m,
                        ints(lits0@),
                        ints(lits1@),
                    )) && (forall|m: Seq<bool>| #[trigger]
                    final(self).models(m) ==> lit_sat(m, v as int) == (bits_val(m, ints(lits0@))
                        == bits_val(m, ints(lits1@)))) && (!final(self).is_solver_spec() ==> (v
                    == TRUE <==> bits_val(calc_env(), ints(lits0@)) == bits_val(
                    calc_env(),
                    ints(lits1@),
                ))),
                Err(_) => true,
            },
    {
        if lits0.len() != lits1.len() {
            proof {
                lemma_extends_refl(*self);
                lemma_conserves_refl(*self);
            }
            return Err(Error::LengthMismatch);
        }
        let ghost prev = *self;
        let ghost la = ints(lits0@);
        let ghost lb = ints(lits1@);
        let mut res: i32 = TRUE;
        let mut i: usize = 0;
        proof {
            lemma_extends_refl(*self);
            lemma_conserves_refl(*self);
        }
        while i < lits0.len()
            invariant
                prev == *old(self),
                prev.wf(),
                self.wf(),
                self.extends(prev),
                la == ints(lits0@),
                lb == ints(lits1@),
                la.len() == lits0@.len(),
                lb.len() == lits1@.len(),
                la.len() == lb.len(),
                lits_ok(la, prev.nv()),
                lits_ok(lb, prev.nv()),
                prev.nv() + 2 * la.len() <= i32::MAX,
                0 <= i <= la.len(),
                self.nv() <= prev.nv() + 2 * i,
                self.cl().len() <= prev.cl().len() + 7 * i,
                conserves(prev, *self),
                lit_ok(res as int, self.nv()),
                forall|m: Seq<bool>| #[trigger]
                    self.models(m) ==> lit_sat(m, res as int) == bits_eq(
                        m,
                        la.take(i as int),
                        lb.take(i as int),
                    ),
            decreases la.len() - i,
        {
            let x = lits0[i];
            let y = lits1[i];
            proof {
                assert(la[i as int] == lits0@[i as int] as int);
                assert(lb[i as int] == lits1@[i as int] as int);
                assert(lit_ok(la[i as int], prev.nv()));
                assert(lit_ok(lb[i as int], prev.nv()));
            }
            let ghost st0 = *self;
            let c = self.bool_equ(x, y);
            let ghost st1 = *self;
            res = self.bool_and(res, c);
            proof {
                lemma_extends_trans(prev, st0, st1);
                lemma_extends_trans(prev, st1, *self);
                lemma_conserves_trans(prev, st0, st1);
                lemma_conserves_trans(prev, st1, *self);
                assert forall|m: Seq<bool>| #[trigger] self.models(m) implies lit_sat(
                    m,
                    res as int,
                ) == bits_eq(m, la.take(i as int + 1), lb.take(i as int + 1)) by {
                    lemma_models_extends(st1, *self, m);
                    lemma_models_extends(st0, st1, m);
                    lemma_bits_eq_take(m, la, lb, i as int);
                }
            }
            i = i + 1;
        }
        proof {
            assert(la.take(la.len() as int) =~= la);
            assert(lb.take(lb.len() as int) =~= lb);
            assert forall|m: Seq<bool>| #[trigger] self.models(m) implies lit_sat(m, res as int)
                == (bits_val(m, la) == bits_val(m, lb)) by {
                lemma_bits_val_eq(m, la, lb);
            }
            if !self.is_solver_spec() {
                assert(self.models(calc_env()));
            }
        }
        Ok(res)
    }

    /// Returns a literal meaning the two sequences differ somewhere; the
    /// sequences must have the same length.
    pub fn comp_ne(&mut self, lits0: &Vec<i32>, lits1: &Vec<i32>) -> (r: Result<i32, Error>)
        requires
            old(self).wf(),
            lits_ok(ints(lits0@), old(self).nv()),
            lits_ok(ints(lits1@), old(self).nv()),
            old(self).nv() + 2 * lits0@.len() <= i32::MAX,
        ensures
            final(self).wf(),
            final(self).extends(*old(self)),
            final(self).nv() <= old(self).nv() + 2 * lits0@.len(),
            final(self).cl().len() <= old(self).cl().len() + 7 * lits0@.len(),
            conserves(*old(self), *final(self)),
            r is Ok <==> lits0@.len() == lits1@.len(),
            r is Err ==> *final(self) == *old(self) && r == Err::<i32, Error>(
                Error::LengthMismatch,
            ),
            match r {
                Ok(v) => lit_ok(v as int, final(self).nv()) && (forall|m: Seq<bool>| #[trigger]
                    final(self).models(m) ==> lit_sat(m, v as int) == (bits_val(m, ints(lits0@))
                        != bits_val(m, ints(lits1@)))) && (!final(self).is_solver_spec() ==> (v
                    == TRUE <==> bits_val(calc_env(), ints(lits0@)) != bits_val(
                    calc_env(),
                    ints(lits1@),
                ))),
                Err(_) => true,
            },
    {
        match self.comp_eq(lits0, lits1) {
            Ok(t) => {
                proof {
                    assert forall|m: Seq<bool>| #[trigger] self.models(m) implies lit_sat(
                        m,
                        -(t as int),
                    ) == (bits_val(m, ints(lits0@)) != bits_val(m, ints(lits1@))) by {
                        lemma_lit_neg(m, t as int);
                    }
                    if !self.is_solver_spec() {
                        assert(self.models(calc_env()));
                    }
                }
                Ok(-t)
            },
            Err(e) => Err(e),
        }
    }

    /// Returns a literal meaning the first sequence, read as a binary number
    /// with the least significant digit first, is at most the second one.
    /// So `[TRUE, FALSE] = 1` is smaller than `[FALSE, TRUE] = 2`. The two
    /// sequences must have the same length.
    pub fn comp_le(&mut self, lits0: &Vec<i32>, lits1: &Vec<i32>) -> (r: Result<i32, Error>)
        requires
            old(self).wf(),
            lits_ok(ints(lits0@), old(self).nv()),
            lits_ok(ints(lits1@), old(self).nv()),
            old(self).nv() + 2 * lits0@.len() <= i32::MAX,
        ensures
            final(self).wf(),
            final(self).extends(*old(self)),
            final(self).nv() <= old(self).nv() + 2 * lits0@.len(),
            final(self).cl().len() <= old(self).cl().len() + 8 * lits0@.len(),
            conserves(*old(self), *final(self)),
            r is Ok <==> lits0@.len() == lits1@.len(),
            r is Err ==> *final(self) == *old(self) && r == Err::<i32, Error>(
                Error::LengthMismatch,
            ),
            match r {
                Ok(v) => lit_ok(v as int, final(self).nv()) && (forall|m: Seq<bool>| #[trigger]
                    final(self).models(m) ==> lit_sat(m, v as int) == (bits_val(m, ints(lits0@))
                        <= bits_val(m, ints(lits1@)))) && (!final(self).is_solver_spec() ==> (v
                    == TRUE <==> bits_val(calc_env(), ints(lits0@)) <= bits_val(
                    calc_env(),
                    ints(lits1@),
                ))),
                Err(_) => true,
            },
    {
        if lits0.len() != lits1.len() {
            proof {
                lemma_extends_refl(*self);
                lemma_conserves_refl(*self);
            }
            return Err(Error::LengthMismatch);
        }
        let ghost prev = *self;
        let ghost la = ints(lits0@);
        let ghost lb = ints(lits1@);
        let mut res: i32 = TRUE;
        let mut i: usize = 0;
        proof {
            lemma_extends_refl(*self);
            lemma_conserves_refl(*self);
        }
        while i < lits0.len()
            invariant
                prev == *old(self),
                prev.wf(),
                self.wf(),
                self.extends(prev),
                la == ints(lits0@),
                lb == ints(lits1@),
                la.len() == lits0@.len(),
                lb.len() == lits1@.len(),
                la.len() == lb.len(),
                lits_ok(la, prev.nv()),
                lits_ok(lb, prev.nv()),
                prev.nv() + 2 * la.len() <= i32::MAX,
                0 <= i <= la.len(),
                self.nv() <= prev.nv() + 2 * i,
                self.cl().len() <= prev.cl().len() + 8 * i,
                conserves(prev, *self),
                lit_ok(res as int, self.nv()),
                forall|m: Seq<bool>| #[trigger]
                    self.models(m) ==> lit_sat(m, res as int) == (bits_val(m, la.take(i as int))
                        <= bits_val(m, lb.take(i as int))),
            decreases la.len() - i,
        {
            let x = lits0[i];
            let y = lits1[i];
            proof {
                assert(la[i as int] == lits0@[i as int] as int);
                assert(lb[i as int] == lits1@[i as int] as int);
                assert(lit_ok(la[i as int], prev.nv()));
                assert(lit_ok(lb[i as int], prev.nv()));
            }
            let ghost st0 = *self;
            let d = self.bool_xor(x, y);
            let ghost st1 = *self;
            res = self.bool_iff(d, y, res);
            proof {
                lemma_extends_trans(prev, st0, st1);
                lemma_extends_trans(prev, st1, *self);
                lemma_conserves_trans(prev, st0, st1);
                lemma_conserves_trans(prev, st1, *self);
                assert forall|m: Seq<bool>| #[trigger] self.models(m) implies lit_sat(
                    m,
                    res as int,
                ) == (bits_val(m, la.take(i as int + 1)) <= bits_val(
                    m,
                    lb.take(i as int + 1),
                )) by {
                    lemma_models_extends(st1, *self, m);
                    lemma_models_extends(st0, st1, m);
                    lemma_bits_val_take(m, la, i as int);
                    lemma_bits_val_take(m, lb, i as int);
                    lemma_bits_val_bound(m, la.take(i as int));
                    lemma_bits_val_bound(m, lb.take(i as int));
                    assert(la.take(i as int).len() == i as int);
                    assert(lb.take(i as int).len() == i as int);
                    lemma_cmp_step(
                        bits_val(m, la.take(i as int)),
                        bits_val(m, lb.take(i as int)),
                        two_pow(i as nat),
                        lit_sat(m, la[i as int]),
                        lit_sat(m, lb[i as int]),
                    );
                }
            }
            i = i + 1;
        }
        proof {
            assert(la.take(la.len() as int) =~= la);
            assert(lb.take(lb.len() as int) =~= lb);
            if !self.is_solver_spec() {
                assert(self.models(calc_env()));
            }
        }
        Ok(res)
    }

    /// Returns a literal meaning the first sequence, read as a binary number
    /// with the least significant digit first, is at least the second one:
    /// the same running fold as `comp_le`, picking the first sequence's bit
    /// on a differing position. The two sequences must have the same length.
    pub fn comp_ge(&mut self, lits0: &Vec<i32>, lits1: &Vec<i32>) -> (r: Result<i32, Error>)
        requires
            old(self).wf(),
            lits_ok(ints(lits0@), old(self).nv()),
            lits_ok(ints(lits1@), old(self).nv()),
            old(self).nv() + 2 * lits0@.len() <= i32::MAX,
        ensures
            final(self).wf(),
            final(self).extends(*old(self)),
            final(self).nv() <= old(self).nv() + 2 * lits0@.len(),
            final(self).cl().len() <= old(self).cl().len() + 8 * lits0@.len(),
            conserves(*old(self), *final(self)),
            r is Ok <==> lits0@.len() == lits1@.len(),
            r is Err ==> *final(self) == *old(self) && r == Err::<i32, Error>(
                Error::LengthMismatch,
            ),
            match r {
                Ok(v) => lit_ok(v as int, final(self).nv()) && (forall|m: Seq<bool>| #[trigger]
                    final(self).models(m) ==> lit_sat(m, v as int) == (bits_val(m, ints(lits0@))
                        >= bits_val(m, ints(lits1@)))) && (!final(self).is_solver_spec() ==> (v
                    == TRUE <==> bits_val(calc_env(), ints(lits0@)) >= bits_val(
                    calc_env(),
                    ints(lits1@),
                ))),
                Err(_) => true,
            },
    {
        if lits0.len() != lits1.len() {
            proof {
                lemma_extends_refl(*self);
                lemma_conserves_refl(*self);
            }
            return Err(Error::LengthMismatch);
        }
        let ghost prev = *self;
        let ghost la = ints(lits0@);
        let ghost lb = ints(lits1@);
        let mut res: i32 = TRUE;
        let mut i: usize = 0;
        proof {
            lemma_extends_refl(*self);
            lemma_conserves_refl(*self);
        }
        while i < lits0.len()
            invariant
                prev == *old(self),
                prev.wf(),
                self.wf(),
                self.extends(prev),
                la == ints(lits0@),
                lb == ints(lits1@),
                la.len() == lits0@.len(),
                lb.len() == lits1@.len(),
                la.len() == lb.len(),
                lits_ok(la, prev.nv()),
                lits_ok(lb, prev.nv()),
                prev.nv() + 2 * la.len() <= i32::MAX,
                0 <= i <= la.len(),
                self.nv() <= prev.nv() + 2 * i,
                self.cl().len() <= prev.cl().len() + 8 * i,
                conserves(prev, *self),
                lit_ok(res as int, self.nv()),
                forall|m: Seq<bool>| #[trigger]
                    self.models(m) ==> lit_sat(m, res as int) == (bits_val(m, la.take(i as int))
                        >= bits_val(m, lb.take(i as int))),
            decreases la.len() - i,
        {
            let x = lits0[i];
            let y = lits1[i];
            proof {
                assert(la[i as int] == lits0@[i as int] as int);
                assert(lb[i as int] == lits1@[i as int] as int);
                assert(lit_ok(la[i as int], prev.nv()));
                assert(lit_ok(lb[i as int], prev.nv()));
            }
            let ghost st0 = *self;
            let d = self.bool_xor(x, y);
            let ghost st1 = *self;
            res = self.bool_iff(d, x, res);
            proof {
                lemma_extends_trans(prev, st0, st1);
                lemma_extends_trans(prev, st1, *self);
                lemma_conserves_trans(prev, st0, st1);
                lemma_conserves_trans(prev, st1, *self);
                assert forall|m: Seq<bool>| #[trigger] self.models(m) implies lit_sat(
                    m,
                    res as int,
                ) == (bits_val(m, la.take(i as int + 1)) >= bits_val(
                    m,
                    lb.take(i as int + 1),
                )) by {
                    lemma_models_extends(st1, *self, m);
                    lemma_models_extends(st0, st1, m);
                    lemma_bits_val_take(m, la, i as int);
                    lemma_bits_val_take(m, lb, i as int);
                    lemma_bits_val_bound(m, la.take(i as int));
                    lemma_bits_val_bound(m, lb.take(i as int));
                    assert(la.take(i as int).len() == i as int);
                    assert(lb.take(i as int).len() == i as int);
                    lemma_cmp_step(
                        bits_val(m, lb.take(i as int)),
                        bits_val(m, la.take(i as int)),
                        two_pow(i as nat),
                        lit_sat(m, lb[i as int]),
                        lit_sat(m, la[i as int]),
                    );
                }
            }
            i = i + 1;
        }
        proof {
            assert(la.take(la.len() as int) =~= la);
            assert(lb.take(lb.len() as int) =~= lb);
            if !self.is_solver_spec() {
                assert(self.models(calc_env()));
            }
        }
        Ok(res)
    }

    /// Returns a literal meaning the first sequence is strictly smaller than
    /// the second as a binary number: the negation of `comp_ge`.
    pub fn comp_lt(&mut self, lits0: &Vec<i32>, lits1: &Vec<i32>) -> (r: Result<i32, Error>)
        requires
            old(self).wf(),
            lits_ok(ints(lits0@), old(self).nv()),
            lits_ok(ints(lits1@), old(self).nv()),
            old(self).nv() + 2 * lits0@.len() <= i32::MAX,
        ensures
            final(self).wf(),
            final(self).extends(*old(self)),
            final(self).nv() <= old(self).nv() + 2 * lits0@.len(),
            final(self).cl().len() <= old(self).cl().len() + 8 * lits0@.len(),
            conserves(*old(self), *final(self)),
            r is Ok <==> lits0@.len() == lits1@.len(),
            r is Err ==> *final(self) == *old(self) && r == Err::<i32, Error>(
                Error::LengthMismatch,
            ),
            match r {
                Ok(v) => lit_ok(v as int, final(self).nv()) && (forall|m: Seq<bool>| #[trigger]
                    final(self).models(m) ==> lit_sat(m, v as int) == (bits_val(m, ints(lits0@))
                        < bits_val(m, ints(lits1@)))) && (!final(self).is_solver_spec() ==> (v
                    == TRUE <==> bits_val(calc_env(), ints(lits0@)) < bits_val(
                    calc_env(),
                    ints(lits1@),
                ))),
                Err(_) => true,
            },
    {
        match self.comp_ge(lits0, lits1) {
            Ok(t) => {
                proof {
                    assert forall|m: Seq<bool>| #[trigger] self.models(m) implies lit_sat(
                        m,
                        -(t as int),
                    ) == (bits_val(m, ints(lits0@)) < bits_val(m, ints(lits1@))) by {
                        lemma_lit_neg(m, t as int);
                    }
                    if !self.is_solver_spec() {
                        assert(self.models(calc_env()));
                    }
                }
                Ok(-t)
            },
            Err(e) => Err(e),
        }
    }

    /// Returns a literal meaning the first sequence is strictly greater than
    /// the second as a binary number: the negation of `comp_le`.
    pub fn comp_gt(&mut self, lits0: &Vec<i32>, lits1: &Vec<i32>) -> (r: Result<i32, Error>)
        requires
            old(self).wf(),
            lits_ok(ints(lits0@), old(self).nv()),
            lits_ok(ints(lits1@), old(self).nv()),
            old(self).nv() + 2 * lits0@.len() <= i32::MAX,
        ensures
            final(self).wf(),
            final(self).extends(*old(self)),
            final(self).nv() <= old(self).nv() + 2 * lits0@.len(),
            final(self).cl().len() <= old(self).cl().len() + 8 * lits0@.len(),
            conserves(*old(self), *final(self)),
            r is Ok <==> lits0@.len() == lits1@.len(),
            r is Err ==> *final(self) == *old(self) && r == Err::<i32, Error>(
                Error::LengthMismatch,
            ),
            match r {
                Ok(v) => lit_ok(v as int, final(self).nv()) && (forall|m: Seq<bool>| #[trigger]
                    final(self).models(m) ==> lit_sat(m, v as int) == (bits_val(m, ints(lits0@))
                        > bits_val(m, ints(lits1@)))) && (!final(self).is_solver_spec() ==> (v
                    == TRUE <==> bits_val(calc_env(), ints(lits0@)) > bits_val(
                    calc_env(),
                    ints(lits1@),
                ))),
                Err(_) => true,
            },
    {
        match self.comp_le(lits0, lits1) {
            Ok(t) => {
                proof {
                    assert forall|m: Seq<bool>| #[trigger] self.models(m) implies lit_sat(
                        m,
                        -(t as int),
                    ) == (bits_val(m, ints(lits0@)) > bits_val(m, ints(lits1@))) by {
                        lemma_lit_neg(m, t as int);
                    }
                    if !self.is_solver_spec() {
                        assert(self.models(calc_env()));
                    }
                }
                Ok(-t)
            },
            Err(e) => Err(e),
        }
    }
}

} // verus!
