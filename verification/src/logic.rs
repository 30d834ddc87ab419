//! The mathematical model of the encoder: truth of literals under an
//! assignment, clause and formula satisfaction, counting of true literals,
//! binary values of literal sequences, and the exact literals and clauses
//! produced by each gate together with its algebraic simplifications.

use vstd::prelude::*;

verus! {

// ---------------------------------------------------------------------------
// Literals under an assignment
// ---------------------------------------------------------------------------

/// A well-formed literal for an instance with `nv` variables: non-zero and
/// with magnitude at most `nv`.
pub open spec fn lit_ok(l: int, nv: int) -> bool {
    l != 0 && -nv <= l && l <= nv
}

/// Truth value of literal `l` under assignment `m`, where `m[v - 1]` holds
/// the value of variable `v`.
pub open spec fn lit_sat(m: Seq<bool>, l: int) -> bool {
    if l > 0 {
        m[l - 1]
    } else {
        !m[-l - 1]
    }
}

pub proof fn lemma_lit_neg(m: Seq<bool>, l: int)
    requires
        l != 0,
    ensures
        lit_sat(m, -l) == !lit_sat(m, l),
{
}

/// The sequence of mathematical integers behind a sequence of literals.
pub open spec fn ints(v: Seq<i32>) -> Seq<int> {
    v.map_values(|l: i32| l as int)
}

/// Every literal of `ls` is well formed for `nv` variables.
pub open spec fn lits_ok(ls: Seq<int>, nv: int) -> bool {
    forall|i: int| 0 <= i < ls.len() ==> lit_ok(#[trigger] ls[i], nv)
}

/// Every literal of `ls` is true under `m`.
pub open spec fn seq_all(m: Seq<bool>, ls: Seq<int>) -> bool {
    forall|i: int| 0 <= i < ls.len() ==> lit_sat(m, #[trigger] ls[i])
}

// ---------------------------------------------------------------------------
// Clauses and formulas
// ---------------------------------------------------------------------------

/// A clause is satisfied when at least one of its literals is true.
pub open spec fn clause_sat(m: Seq<bool>, c: Seq<int>) -> bool {
    exists|i: int| 0 <= i < c.len() && lit_sat(m, #[trigger] c[i])
}

pub open spec fn formula_ok(f: Seq<Seq<int>>, nv: int) -> bool {
    forall|i: int| 0 <= i < f.len() ==> lits_ok(#[trigger] f[i], nv)
}

/// A formula is satisfied when all of its clauses are.
pub open spec fn formula_sat(m: Seq<bool>, f: Seq<Seq<int>>) -> bool {
    forall|i: int| 0 <= i < f.len() ==> clause_sat(m, #[trigger] f[i])
}

pub proof fn lemma_formula_prefix(m: Seq<bool>, f1: Seq<Seq<int>>, f2: Seq<Seq<int>>)
    requires
        f1.is_prefix_of(f2),
        formula_sat(m, f2),
    ensures
        formula_sat(m, f1),
{
    assert forall|i: int| 0 <= i < f1.len() implies clause_sat(m, #[trigger] f1[i]) by {
        assert(f1[i] == f2.subrange(0, f1.len() as int)[i]);
        assert(f1[i] == f2[i]);
    }
}

pub proof fn lemma_clause1(m: Seq<bool>, x: int)
    ensures
        clause_sat(m, seq![x]) == lit_sat(m, x),
{
    let c = seq![x];
    if clause_sat(m, c) {
        let i = choose|i: int| 0 <= i < c.len() && lit_sat(m, #[trigger] c[i]);
        assert(c[i] == x);
    }
    if lit_sat(m, x) {
        assert(lit_sat(m, c[0]));
    }
}

pub proof fn lemma_clause2(m: Seq<bool>, x: int, y: int)
    ensures
        clause_sat(m, seq![x, y]) == (lit_sat(m, x) || lit_sat(m, y)),
{
    let c = seq![x, y];
    if clause_sat(m, c) {
        let i = choose|i: int| 0 <= i < c.len() && lit_sat(m, #[trigger] c[i]);
        assert(c[i] == x || c[i] == y);
    }
    if lit_sat(m, x) {
        assert(lit_sat(m, c[0]));
    } else if lit_sat(m, y) {
        assert(lit_sat(m, c[1]));
    }
}

pub proof fn lemma_clause3(m: Seq<bool>, x: int, y: int, z: int)
    ensures
        clause_sat(m, seq![x, y, z]) == (lit_sat(m, x) || lit_sat(m, y) || lit_sat(m, z)),
{
    let c = seq![x, y, z];
    if clause_sat(m, c) {
        let i = choose|i: int| 0 <= i < c.len() && lit_sat(m, #[trigger] c[i]);
        assert(c[i] == x || c[i] == y || c[i] == z);
    }
    if lit_sat(m, x) {
        assert(lit_sat(m, c[0]));
    } else if lit_sat(m, y) {
        assert(lit_sat(m, c[1]));
    } else if lit_sat(m, z) {
        assert(lit_sat(m, c[2]));
    }
}

// ---------------------------------------------------------------------------
// Counting true literals
// ---------------------------------------------------------------------------

/// The number of literals of `ls` that are true under `m`.
pub open spec fn num_true(m: Seq<bool>, ls: Seq<int>) -> nat
    decreases ls.len(),
{
    if ls.len() == 0 {
        0
    } else {
        num_true(m, ls.drop_last()) + if lit_sat(m, ls.last()) {
            1nat
        } else {
            0nat
        }
    }
}

pub proof fn lemma_num_true_take(m: Seq<bool>, ls: Seq<int>, k: int)
    requires
        0 <= k < ls.len(),
    ensures
        num_true(m, ls.take(k + 1)) == num_true(m, ls.take(k)) + if lit_sat(m, ls[k]) {
            1nat
        } else {
            0nat
        },
{
    assert(ls.take(k + 1).drop_last() =~= ls.take(k));
    assert(ls.take(k + 1).last() == ls[k]);
}

pub proof fn lemma_num_true_take_le(m: Seq<bool>, ls: Seq<int>, k: int)
    requires
        0 <= k <= ls.len(),
    ensures
        num_true(m, ls.take(k)) <= num_true(m, ls),
    decreases ls.len() - k,
{
    if k == ls.len() {
        assert(ls.take(k) =~= ls);
    } else {
        lemma_num_true_take(m, ls, k);
        lemma_num_true_take_le(m, ls, k + 1);
    }
}

// ---------------------------------------------------------------------------
// Binary values, least significant bit first
// ---------------------------------------------------------------------------

pub open spec fn two_pow(k: nat) -> nat
    decreases k,
{
    if k == 0 {
        1
    } else {
        2 * two_pow((k - 1) as nat)
    }
}

pub proof fn lemma_two_pow_pos(k: nat)
    ensures
        two_pow(k) >= 1,
    decreases k,
{
    if k > 0 {
        lemma_two_pow_pos((k - 1) as nat);
    }
}

/// The value of a literal sequence read as a binary number whose least
/// significant digit is the first literal.
pub open spec fn bits_val(m: Seq<bool>, ls: Seq<int>) -> nat
    decreases ls.len(),
{
    if ls.len() == 0 {
        0
    } else {
        bits_val(m, ls.drop_last()) + if lit_sat(m, ls.last()) {
            two_pow((ls.len() - 1) as nat)
        } else {
            0nat
        }
    }
}

pub proof fn lemma_bits_val_bound(m: Seq<bool>, ls: Seq<int>)
    ensures
        bits_val(m, ls) < two_pow(ls.len()),
    decreases ls.len(),
{
    if ls.len() == 0 {
    } else {
        lemma_bits_val_bound(m, ls.drop_last());
        lemma_two_pow_pos((ls.len() - 1) as nat);
    }
}

pub proof fn lemma_bits_val_take(m: Seq<bool>, ls: Seq<int>, k: int)
    requires
        0 <= k < ls.len(),
    ensures
        bits_val(m, ls.take(k + 1)) == bits_val(m, ls.take(k)) + if lit_sat(m, ls[k]) {
            two_pow(k as nat)
        } else {
            0nat
        },
{
    assert(ls.take(k + 1).drop_last() =~= ls.take(k));
    assert(ls.take(k + 1).last() == ls[k]);
}

/// Two equally long sequences agree bitwise if and only if they have the
/// same binary value.
pub proof fn lemma_bits_val_eq(m: Seq<bool>, a: Seq<int>, b: Seq<int>)
    requires
        a.len() == b.len(),
    ensures
        (bits_val(m, a) == bits_val(m, b)) == (forall|i: int|
            0 <= i < a.len() ==> lit_sat(m, #[trigger] a[i]) == lit_sat(m, b[i])),
    decreases a.len(),
{
    if a.len() == 0 {
    } else {
        let n = a.len() - 1;
        lemma_bits_val_eq(m, a.drop_last(), b.drop_last());
        lemma_bits_val_bound(m, a.drop_last());
        lemma_bits_val_bound(m, b.drop_last());
        if bits_val(m, a) == bits_val(m, b) {
            assert(lit_sat(m, a.last()) == lit_sat(m, b.last()));
            assert(bits_val(m, a.drop_last()) == bits_val(m, b.drop_last()));
            assert forall|i: int| 0 <= i < a.len() implies lit_sat(m, #[trigger] a[i]) == lit_sat(
                m,
                b[i],
            ) by {
                if i < n {
                    assert(a.drop_last()[i] == a[i]);
                    assert(b.drop_last()[i] == b[i]);
                } else {
                    assert(a[i] == a.last());
                    assert(b[i] == b.last());
                }
            }
        } else {
            if forall|i: int| 0 <= i < a.len() ==> lit_sat(m, #[trigger] a[i]) == lit_sat(
                m,
                b[i],
            ) {
                assert forall|i: int|
                    0 <= i < a.drop_last().len() implies lit_sat(m, #[trigger] a.drop_last()[i])
                    == lit_sat(m, b.drop_last()[i]) by {
                    assert(a.drop_last()[i] == a[i]);
                    assert(b.drop_last()[i] == b[i]);
                }
                assert(lit_sat(m, a.last()) == lit_sat(m, a[n]));
                assert(lit_sat(m, b.last()) == lit_sat(m, b[n]));
                assert(bits_val(m, a) == bits_val(m, b));
            }
        }
    }
}

// ---------------------------------------------------------------------------
// Boolean helpers
// ---------------------------------------------------------------------------

pub open spec fn maj_bool(x: bool, y: bool, z: bool) -> bool {
    (x && y) || (x && z) || (y && z)
}

pub open spec fn ite_bool(c: bool, t: bool, e: bool) -> bool {
    if c {
        t
    } else {
        e
    }
}

// ---------------------------------------------------------------------------
// Exact gate results
//
// Each gate first tries the algebraic simplifications below, in this order;
// only when none applies does it allocate the fresh variable `nv + 1` and
// assert the defining clauses. The functions here state exactly which
// literal comes back and which clauses are added.
// ---------------------------------------------------------------------------

/// The literal returned by disjunction when a simplification applies.
pub open spec fn or_simp(a: int, b: int) -> Option<int> {
    if a == 1 || b == 1 || a == -b {
        Some(1)
    } else if a == -1 || a == b {
        Some(b)
    } else if b == -1 {
        Some(a)
    } else {
        None
    }
}

pub open spec fn or_result(a: int, b: int, nv: int) -> int {
    match or_simp(a, b) {
        Some(l) => l,
        None => nv + 1,
    }
}

/// The clauses defining `c <-> (a | b)` for the fresh literal `c = nv + 1`,
/// or no clauses at all when a simplification applies.
pub open spec fn or_defs(a: int, b: int, nv: int) -> Seq<Seq<int>> {
    match or_simp(a, b) {
        Some(_) => Seq::empty(),
        None => seq![seq![-a, nv + 1], seq![-b, nv + 1], seq![a, b, -(nv + 1)]],
    }
}

pub open spec fn and_result(a: int, b: int, nv: int) -> int {
    -or_result(-a, -b, nv)
}

pub open spec fn and_defs(a: int, b: int, nv: int) -> Seq<Seq<int>> {
    or_defs(-a, -b, nv)
}

pub open spec fn imp_result(a: int, b: int, nv: int) -> int {
    or_result(-a, b, nv)
}

/// The literal returned by exclusive or when a simplification applies.
pub open spec fn xor_simp(a: int, b: int) -> Option<int> {
    if a == -1 {
        Some(b)
    } else if a == 1 {
        Some(-b)
    } else if b == -1 {
        Some(a)
    } else if b == 1 {
        Some(-a)
    } else if a == b {
        Some(-1)
    } else if a == -b {
        Some(1)
    } else {
        None
    }
}

pub open spec fn xor_result(a: int, b: int, nv: int) -> int {
    match xor_simp(a, b) {
        Some(l) => l,
        None => nv + 1,
    }
}

/// The clauses defining `c <-> (a ^ b)` for the fresh literal `c = nv + 1`.
pub open spec fn xor_defs(a: int, b: int, nv: int) -> Seq<Seq<int>> {
    match xor_simp(a, b) {
        Some(_) => Seq::empty(),
        None => seq![
            seq![-a, b, nv + 1],
            seq![a, -b, nv + 1],
            seq![a, b, -(nv + 1)],
            seq![-a, -b, -(nv + 1)],
        ],
    }
}

pub open spec fn equ_result(a: int, b: int, nv: int) -> int {
    xor_result(-a, b, nv)
}

/// The literal returned by three-input majority: the simplifications first,
/// then the degenerate two-input cases, then the fresh variable.
pub open spec fn maj_result(a: int, b: int, c: int, nv: int) -> int {
    if a == b || a == c || b == -c {
        a
    } else if b == c || a == -c {
        b
    } else if a == -b {
        c
    } else if a == -1 {
        and_result(b, c, nv)
    } else if a == 1 {
        or_result(b, c, nv)
    } else if b == -1 {
        and_result(a, c, nv)
    } else if b == 1 {
        or_result(a, c, nv)
    } else if c == -1 {
        and_result(a, b, nv)
    } else if c == 1 {
        or_result(a, b, nv)
    } else {
        nv + 1
    }
}

/// The clauses added by three-input majority.
pub open spec fn maj_defs(a: int, b: int, c: int, nv: int) -> Seq<Seq<int>> {
    if a == b || a == c || b == -c || b == c || a == -c || a == -b {
        Seq::empty()
    } else if a == -1 {
        and_defs(b, c, nv)
    } else if a == 1 {
        or_defs(b, c, nv)
    } else if b == -1 {
        and_defs(a, c, nv)
    } else if b == 1 {
        or_defs(a, c, nv)
    } else if c == -1 {
        and_defs(a, b, nv)
    } else if c == 1 {
        or_defs(a, b, nv)
    } else {
        seq![
            seq![a, b, -(nv + 1)],
            seq![a, c, -(nv + 1)],
            seq![b, c, -(nv + 1)],
            seq![-a, -b, nv + 1],
            seq![-a, -c, nv + 1],
            seq![-b, -c, nv + 1],
        ]
    }
}

/// The literal returned by if-then-else on `(c, t, e)`.
pub open spec fn iff_result(c: int, t: int, e: int, nv: int) -> int {
    if t == e || c == 1 {
        t
    } else if c == -1 {
        e
    } else if t == -e {
        xor_result(c, e, nv)
    } else if c == t || t == 1 {
        or_result(c, e, nv)
    } else if c == -t || t == -1 {
        and_result(-c, e, nv)
    } else if c == -e || e == 1 {
        or_result(-c, t, nv)
    } else if c == e || e == -1 {
        and_result(c, t, nv)
    } else {
        nv + 1
    }
}

/// The clauses added by if-then-else on `(c, t, e)`.
pub open spec fn iff_defs(c: int, t: int, e: int, nv: int) -> Seq<Seq<int>> {
    if t == e || c == 1 || c == -1 {
        Seq::empty()
    } else if t == -e {
        xor_defs(c, e, nv)
    } else if c == t || t == 1 {
        or_defs(c, e, nv)
    } else if c == -t || t == -1 {
        and_defs(-c, e, nv)
    } else if c == -e || e == 1 {
        or_defs(-c, t, nv)
    } else if c == e || e == -1 {
        and_defs(c, t, nv)
    } else {
        seq![
            seq![-c, -t, nv + 1],
            seq![-c, t, -(nv + 1)],
            seq![c, -e, nv + 1],
            seq![c, e, -(nv + 1)],
        ]
    }
}

// ---------------------------------------------------------------------------
// Helper lemmas about formulas growing over time
// ---------------------------------------------------------------------------

pub proof fn lemma_prefix_refl(f: Seq<Seq<int>>)
    ensures
        f.is_prefix_of(f),
{
    assert(f =~= f.subrange(0, f.len() as int));
}

pub proof fn lemma_prefix_push(f: Seq<Seq<int>>, c: Seq<int>)
    ensures
        f.is_prefix_of(f.push(c)),
{
    assert(f =~= f.push(c).subrange(0, f.len() as int));
}

pub proof fn lemma_prefix_trans<A>(f1: Seq<A>, f2: Seq<A>, f3: Seq<A>)
    requires
        f1.is_prefix_of(f2),
        f2.is_prefix_of(f3),
    ensures
        f1.is_prefix_of(f3),
{
    assert(f1 =~= f3.subrange(0, f1.len() as int)) by {
        assert forall|i: int| 0 <= i < f1.len() implies f1[i] == f3.subrange(
            0,
            f1.len() as int,
        )[i] by {
            assert(f1[i] == f2.subrange(0, f1.len() as int)[i]);
            assert(f2[i] == f3.subrange(0, f2.len() as int)[i]);
        }
    }
}

pub proof fn lemma_lits_ok_mono(ls: Seq<int>, nv1: int, nv2: int)
    requires
        lits_ok(ls, nv1),
        nv1 <= nv2,
    ensures
        lits_ok(ls, nv2),
{
    assert forall|i: int| 0 <= i < ls.len() implies lit_ok(#[trigger] ls[i], nv2) by {
        assert(lit_ok(ls[i], nv1));
    }
}

pub proof fn lemma_formula_ok_mono(f: Seq<Seq<int>>, nv1: int, nv2: int)
    requires
        formula_ok(f, nv1),
        nv1 <= nv2,
    ensures
        formula_ok(f, nv2),
{
    assert forall|i: int| 0 <= i < f.len() implies lits_ok(#[trigger] f[i], nv2) by {
        assert(lits_ok(f[i], nv1));
        lemma_lits_ok_mono(f[i], nv1, nv2);
    }
}

pub proof fn lemma_formula_ok_push(f: Seq<Seq<int>>, c: Seq<int>, nv: int)
    requires
        formula_ok(f, nv),
        lits_ok(c, nv),
    ensures
        formula_ok(f.push(c), nv),
{
    assert forall|i: int| 0 <= i < f.push(c).len() implies lits_ok(#[trigger] f.push(c)[i], nv) by {
        if i < f.len() {
            assert(f.push(c)[i] == f[i]);
        } else {
            assert(f.push(c)[i] == c);
        }
    }
}

// ---------------------------------------------------------------------------
// Truth of the simplified gate results
// ---------------------------------------------------------------------------

pub proof fn lemma_or_shortcut(m: Seq<bool>, a: int, b: int, nv: int)
    requires
        a != 0,
        b != 0,
        m.len() > 0,
        m[0],
        or_simp(a, b) is Some,
    ensures
        lit_sat(m, or_result(a, b, nv)) == (lit_sat(m, a) || lit_sat(m, b)),
{
    lemma_lit_neg(m, a);
    lemma_lit_neg(m, b);
}

pub proof fn lemma_xor_shortcut(m: Seq<bool>, a: int, b: int, nv: int)
    requires
        a != 0,
        b != 0,
        m.len() > 0,
        m[0],
        xor_simp(a, b) is Some,
    ensures
        lit_sat(m, xor_result(a, b, nv)) == (lit_sat(m, a) != lit_sat(m, b)),
{
    lemma_lit_neg(m, a);
    lemma_lit_neg(m, b);
}

pub proof fn lemma_maj_shortcut(m: Seq<bool>, a: int, b: int, c: int, nv: int)
    requires
        a != 0,
        b != 0,
        c != 0,
        a == b || a == c || b == -c || b == c || a == -c || a == -b,
    ensures
        lit_sat(m, maj_result(a, b, c, nv)) == maj_bool(
            lit_sat(m, a),
            lit_sat(m, b),
            lit_sat(m, c),
        ),
{
    lemma_lit_neg(m, a);
    lemma_lit_neg(m, b);
    lemma_lit_neg(m, c);
}

pub proof fn lemma_iff_shortcut(m: Seq<bool>, c: int, t: int, e: int, nv: int)
    requires
        c != 0,
        t != 0,
        e != 0,
        m.len() > 0,
        m[0],
        t == e || c == 1 || c == -1,
    ensures
        lit_sat(m, iff_result(c, t, e, nv)) == ite_bool(
            lit_sat(m, c),
            lit_sat(m, t),
            lit_sat(m, e),
        ),
{
    lemma_lit_neg(m, c);
    lemma_lit_neg(m, t);
    lemma_lit_neg(m, e);
}

// ---------------------------------------------------------------------------
// Prefixes of literal sequences under folds
// ---------------------------------------------------------------------------

pub proof fn lemma_seq_all_take(m: Seq<bool>, ls: Seq<int>, k: int)
    requires
        0 <= k < ls.len(),
    ensures
        seq_all(m, ls.take(k + 1)) == (seq_all(m, ls.take(k)) && lit_sat(m, ls[k])),
{
    let t1 = ls.take(k + 1);
    let t0 = ls.take(k);
    if seq_all(m, t1) {
        assert(lit_sat(m, t1[k]));
        assert(t1[k] == ls[k]);
        assert forall|i: int| 0 <= i < t0.len() implies lit_sat(m, #[trigger] t0[i]) by {
            assert(t0[i] == t1[i]);
            assert(lit_sat(m, t1[i]));
        }
    }
    if seq_all(m, t0) && lit_sat(m, ls[k]) {
        assert forall|i: int| 0 <= i < t1.len() implies lit_sat(m, #[trigger] t1[i]) by {
            if i < k {
                assert(t1[i] == t0[i]);
                assert(lit_sat(m, t0[i]));
            } else {
                assert(t1[i] == ls[k]);
            }
        }
    }
}

pub proof fn lemma_seq_all_prefix(m: Seq<bool>, ls: Seq<int>, k: int)
    requires
        0 <= k <= ls.len(),
        seq_all(m, ls),
    ensures
        seq_all(m, ls.take(k)),
{
    let t = ls.take(k);
    assert forall|i: int| 0 <= i < t.len() implies lit_sat(m, #[trigger] t[i]) by {
        assert(t[i] == ls[i]);
        assert(lit_sat(m, ls[i]));
    }
}

pub proof fn lemma_clause_sat_take(m: Seq<bool>, ls: Seq<int>, k: int)
    requires
        0 <= k < ls.len(),
    ensures
        clause_sat(m, ls.take(k + 1)) == (clause_sat(m, ls.take(k)) || lit_sat(m, ls[k])),
{
    let t1 = ls.take(k + 1);
    let t0 = ls.take(k);
    if clause_sat(m, t1) {
        let i = choose|i: int| 0 <= i < t1.len() && lit_sat(m, #[trigger] t1[i]);
        if i < k {
            assert(t0[i] == t1[i]);
            assert(lit_sat(m, t0[i]));
        } else {
            assert(t1[i] == ls[k]);
        }
    }
    if clause_sat(m, t0) {
        let i = choose|i: int| 0 <= i < t0.len() && lit_sat(m, #[trigger] t0[i]);
        assert(t1[i] == t0[i]);
        assert(lit_sat(m, t1[i]));
    }
    if lit_sat(m, ls[k]) {
        assert(t1[k] == ls[k]);
        assert(lit_sat(m, t1[k]));
    }
}

pub proof fn lemma_clause_sat_prefix(m: Seq<bool>, ls: Seq<int>, k: int)
    requires
        0 <= k <= ls.len(),
        clause_sat(m, ls.take(k)),
    ensures
        clause_sat(m, ls),
{
    let t = ls.take(k);
    let i = choose|i: int| 0 <= i < t.len() && lit_sat(m, #[trigger] t[i]);
    assert(t[i] == ls[i]);
    assert(lit_sat(m, ls[i]));
}

// ---------------------------------------------------------------------------
// Pointwise equality of literal sequences and the comparison step
// ---------------------------------------------------------------------------

/// Two literal sequences of equal length agree bitwise under `m`.
pub open spec fn bits_eq(m: Seq<bool>, a: Seq<int>, b: Seq<int>) -> bool {
    forall|i: int| 0 <= i < a.len() ==> lit_sat(m, #[trigger] a[i]) == lit_sat(m, b[i])
}

pub proof fn lemma_bits_eq_take(m: Seq<bool>, a: Seq<int>, b: Seq<int>, k: int)
    requires
        a.len() == b.len(),
        0 <= k < a.len(),
    ensures
        bits_eq(m, a.take(k + 1), b.take(k + 1)) == (bits_eq(m, a.take(k), b.take(k)) && (lit_sat(
            m,
            a[k],
        ) == lit_sat(m, b[k]))),
{
    let a1 = a.take(k + 1);
    let b1 = b.take(k + 1);
    let a0 = a.take(k);
    let b0 = b.take(k);
    if bits_eq(m, a1, b1) {
        assert(lit_sat(m, a1[k]) == lit_sat(m, b1[k]));
        assert(a1[k] == a[k] && b1[k] == b[k]);
        assert forall|i: int| 0 <= i < a0.len() implies lit_sat(m, #[trigger] a0[i]) == lit_sat(
            m,
            b0[i],
        ) by {
            assert(a0[i] == a1[i] && b0[i] == b1[i]);
            assert(lit_sat(m, a1[i]) == lit_sat(m, b1[i]));
        }
    }
    if bits_eq(m, a0, b0) && lit_sat(m, a[k]) == lit_sat(m, b[k]) {
        assert forall|i: int| 0 <= i < a1.len() implies lit_sat(m, #[trigger] a1[i]) == lit_sat(
            m,
            b1[i],
        ) by {
            if i < k {
                assert(a1[i] == a0[i] && b1[i] == b0[i]);
                assert(lit_sat(m, a0[i]) == lit_sat(m, b0[i]));
            } else {
                assert(a1[i] == a[k] && b1[i] == b[k]);
            }
        }
    }
}

/// One step of the least-significant-first running comparison: a more
/// significant differing bit overrides the comparison of the lower bits.
pub proof fn lemma_cmp_step(va: nat, vb: nat, p: nat, ba: bool, bb: bool)
    requires
        va < p,
        vb < p,
    ensures
        ((va + if ba {
            p
        } else {
            0nat
        }) <= (vb + if bb {
            p
        } else {
            0nat
        })) == (if ba != bb {
            bb
        } else {
            va <= vb
        }),
{
}

/// The one-variable assignment of the calculator: variable 1, the TRUE
/// constant, is the only variable and it is true.
pub open spec fn calc_env() -> Seq<bool> {
    seq![true]
}

// ---------------------------------------------------------------------------
// Assignments extended by one fresh variable
// ---------------------------------------------------------------------------

pub proof fn lemma_lit_sat_push(m: Seq<bool>, x: bool, l: int, nv: int)
    requires
        lit_ok(l, nv),
        m.len() >= nv,
    ensures
        lit_sat(m.push(x), l) == lit_sat(m, l),
{
    if l > 0 {
        assert(m.push(x)[l - 1] == m[l - 1]);
    } else {
        assert(m.push(x)[-l - 1] == m[-l - 1]);
    }
}

pub proof fn lemma_clause_sat_push(m: Seq<bool>, x: bool, c: Seq<int>, nv: int)
    requires
        lits_ok(c, nv),
        m.len() >= nv,
    ensures
        clause_sat(m.push(x), c) == clause_sat(m, c),
{
    let m2 = m.push(x);
    if clause_sat(m2, c) {
        let i = choose|i: int| 0 <= i < c.len() && lit_sat(m2, #[trigger] c[i]);
        lemma_lit_sat_push(m, x, c[i], nv);
        assert(lit_sat(m, c[i]));
    }
    if clause_sat(m, c) {
        let i = choose|i: int| 0 <= i < c.len() && lit_sat(m, #[trigger] c[i]);
        lemma_lit_sat_push(m, x, c[i], nv);
        assert(lit_sat(m2, c[i]));
    }
}

pub proof fn lemma_formula_sat_push(m: Seq<bool>, x: bool, f: Seq<Seq<int>>, nv: int)
    requires
        formula_ok(f, nv),
        m.len() >= nv,
        formula_sat(m, f),
    ensures
        formula_sat(m.push(x), f),
{
    let m2 = m.push(x);
    assert forall|i: int| 0 <= i < f.len() implies clause_sat(m2, #[trigger] f[i]) by {
        assert(lits_ok(f[i], nv));
        assert(clause_sat(m, f[i]));
        lemma_clause_sat_push(m, x, f[i], nv);
    }
}

pub proof fn lemma_lit_sat_prefix(m: Seq<bool>, m2: Seq<bool>, l: int, nv: int)
    requires
        lit_ok(l, nv),
        m.len() >= nv,
        m.is_prefix_of(m2),
    ensures
        lit_sat(m2, l) == lit_sat(m, l),
{
    if l > 0 {
        assert(m[l - 1] == m2.subrange(0, m.len() as int)[l - 1]);
    } else {
        assert(m[-l - 1] == m2.subrange(0, m.len() as int)[-l - 1]);
    }
}

pub proof fn lemma_num_true_prefix(m: Seq<bool>, m2: Seq<bool>, ls: Seq<int>, nv: int)
    requires
        lits_ok(ls, nv),
        m.len() >= nv,
        m.is_prefix_of(m2),
    ensures
        num_true(m2, ls) == num_true(m, ls),
    decreases ls.len(),
{
    if ls.len() > 0 {
        assert forall|i: int| 0 <= i < ls.drop_last().len() implies lit_ok(
            #[trigger] ls.drop_last()[i],
            nv,
        ) by {
            assert(ls.drop_last()[i] == ls[i]);
        }
        lemma_num_true_prefix(m, m2, ls.drop_last(), nv);
        assert(lit_ok(ls.last(), nv));
        lemma_lit_sat_prefix(m, m2, ls.last(), nv);
    }
}

} // verus!
