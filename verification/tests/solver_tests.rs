use uasat::Solver;
use uasat::Error;
use uasat::FALSE;
use uasat::TRUE;

fn bool_op2(op: fn(&mut Solver, i32, i32) -> i32, table: [bool; 4]) {
    let lits = [1, -1, 2, -2, 3, -3];
    for a in lits {
        for b in lits {
            let mut solver = Solver::new(1);
            assert_eq!(solver.add_variable().unwrap(), 2);
            assert_eq!(solver.add_variable().unwrap(), 3);
            let c = op(&mut solver, a, b);
            solver.add_clause1(2).unwrap();
            solver.add_clause1(3).unwrap();
            assert_eq!(solver.solve().unwrap(), Some(true));
            let a = solver.get_value(a).unwrap().unwrap();
            let b = solver.get_value(b).unwrap().unwrap();
            let c = solver.get_value(c).unwrap().unwrap();
            assert_eq!(c, table[2 * (a as usize) + (b as usize)]);
        }
    }
}

fn bool_op3(op: fn(&mut Solver, i32, i32, i32) -> i32, table: [bool; 8]) {
    let lits = [1, -1, 2, -2, 3, -3, 4, -4];
    for a in lits {
        for b in lits {
            for c in lits {
                let mut solver = Solver::new(1);
                assert_eq!(solver.add_variable().unwrap(), 2);
                assert_eq!(solver.add_variable().unwrap(), 3);
                assert_eq!(solver.add_variable().unwrap(), 4);
                let d = op(&mut solver, a, b, c);
                solver.add_clause1(2).unwrap();
                solver.add_clause1(3).unwrap();
                solver.add_clause1(4).unwrap();
                assert_eq!(solver.solve().unwrap(), Some(true));
                let a = solver.get_value(a).unwrap().unwrap();
                let b = solver.get_value(b).unwrap().unwrap();
                let c = solver.get_value(c).unwrap().unwrap();
                let d = solver.get_value(d).unwrap().unwrap();
                assert_eq!(d, table[4 * (a as usize) + 2 * (b as usize) + (c as usize)]);
            }
        }
    }
}

#[test]
fn bool_ops() {
    bool_op2(Solver::bool_or, [false, true, true, true]);
    bool_op2(Solver::bool_and, [false, false, false, true]);
    bool_op2(Solver::bool_imp, [true, true, false, true]);
    bool_op2(Solver::bool_xor, [false, true, true, false]);
    bool_op2(Solver::bool_equ, [true, false, false, true]);
    bool_op3(
        Solver::bool_maj,
        [false, false, false, true, false, true, true, true],
    );
    bool_op3(
        Solver::bool_iff,
        [false, true, false, true, false, false, true, true],
    );
}

#[test]
fn not_involution() {
    for lit in [1, -1, 2, -2, 17, -123] {
        assert_eq!(Solver::bool_not(Solver::bool_not(lit)), lit);
    }
    assert_eq!(Solver::bool_lift(true), TRUE);
    assert_eq!(Solver::bool_lift(false), FALSE);
    assert_eq!(Solver::bool_not(TRUE), FALSE);
}

#[test]
fn or_commutes_and_demorgan() {
    let lits = [1, -1, 2, -2, 3, -3];
    for a in lits {
        for b in lits {
            // two solvers brought into the same state
            let mut s1 = Solver::new(1);
            s1.add_variable().unwrap();
            s1.add_variable().unwrap();
            let mut s2 = Solver::new(2);
            s2.add_variable().unwrap();
            s2.add_variable().unwrap();
            assert_eq!(s1.bool_or(a, b), s2.bool_or(b, a));

            let mut s3 = Solver::new(3);
            s3.add_variable().unwrap();
            s3.add_variable().unwrap();
            let mut s4 = Solver::new(4);
            s4.add_variable().unwrap();
            s4.add_variable().unwrap();
            let and_ab = s3.bool_and(a, b);
            let nor = s4.bool_or(Solver::bool_not(a), Solver::bool_not(b));
            assert_eq!(and_ab, Solver::bool_not(nor));
        }
    }
}

#[test]
fn calculator_gates() {
    let mut calc = Solver::calculator();
    assert_eq!(calc.bool_or(TRUE, FALSE), TRUE);
    assert_eq!(calc.bool_or(FALSE, FALSE), FALSE);
    assert_eq!(calc.bool_and(TRUE, TRUE), TRUE);
    assert_eq!(calc.bool_and(TRUE, FALSE), FALSE);
    assert_eq!(calc.bool_imp(FALSE, FALSE), TRUE);
    assert_eq!(calc.bool_xor(TRUE, TRUE), FALSE);
    assert_eq!(calc.bool_equ(TRUE, TRUE), TRUE);
    assert_eq!(calc.bool_maj(TRUE, FALSE, TRUE), TRUE);
    assert_eq!(calc.bool_maj(TRUE, FALSE, FALSE), FALSE);
    assert_eq!(calc.bool_iff(TRUE, FALSE, TRUE), FALSE);
    assert_eq!(calc.bool_iff(FALSE, FALSE, TRUE), TRUE);
    assert!(!calc.is_solver());
    assert_eq!(calc.num_clauses(), 0);
    assert_eq!(calc.num_variables(), 1);
    assert_eq!(calc.signature(), "calculator");
}

#[test]
fn solver_fold_one_counts() {
    // exactly one TRUE
    let mut calc = Solver::calculator();
    assert_eq!(calc.fold_one(&vec![TRUE, FALSE, FALSE]), TRUE);
    // two or more TRUE
    assert_eq!(calc.fold_one(&vec![TRUE, FALSE, TRUE]), FALSE);
    assert_eq!(calc.fold_one(&vec![TRUE, TRUE, TRUE]), FALSE);
    // no TRUE at all
    assert_eq!(calc.fold_one(&vec![FALSE, FALSE]), FALSE);
    assert_eq!(calc.fold_one(&vec![]), FALSE);
}

#[test]
fn solver_fold_amo_counts() {
    let mut calc = Solver::calculator();
    assert_eq!(calc.fold_amo(&vec![]), TRUE);
    assert_eq!(calc.fold_amo(&vec![FALSE, FALSE]), TRUE);
    assert_eq!(calc.fold_amo(&vec![FALSE, TRUE]), TRUE);
    assert_eq!(calc.fold_amo(&vec![TRUE, TRUE]), FALSE);
    assert_eq!(calc.fold_amo(&vec![TRUE, FALSE, TRUE, TRUE]), FALSE);
}

#[test]
fn solver_fold_all_any() {
    let mut calc = Solver::calculator();
    assert_eq!(calc.fold_all(&vec![]), TRUE);
    assert_eq!(calc.fold_all(&vec![TRUE, TRUE]), TRUE);
    assert_eq!(calc.fold_all(&vec![TRUE, FALSE]), FALSE);
    assert_eq!(calc.fold_any(&vec![]), FALSE);
    assert_eq!(calc.fold_any(&vec![FALSE, FALSE]), FALSE);
    assert_eq!(calc.fold_any(&vec![FALSE, TRUE]), TRUE);
}

fn const_bits(x: u32, width: usize) -> Vec<i32> {
    let mut out = Vec::new();
    for i in 0..width {
        out.push(if (x >> i) & 1 == 1 { TRUE } else { FALSE });
    }
    out
}

#[test]
fn solver_comparators_round_trip() {
    let mut calc = Solver::calculator();
    for x in 0..8u32 {
        for y in 0..8u32 {
            let a = const_bits(x, 3);
            let b = const_bits(y, 3);
            assert_eq!(calc.comp_eq(&a, &b).unwrap() == TRUE, x == y);
            assert_eq!(calc.comp_ne(&a, &b).unwrap() == TRUE, x != y);
            assert_eq!(calc.comp_le(&a, &b).unwrap() == TRUE, x <= y);
            assert_eq!(calc.comp_lt(&a, &b).unwrap() == TRUE, x < y);
            assert_eq!(calc.comp_ge(&a, &b).unwrap() == TRUE, x >= y);
            assert_eq!(calc.comp_gt(&a, &b).unwrap() == TRUE, x > y);
        }
    }
    // the concrete case: [TRUE, FALSE] = 1 against [FALSE, TRUE] = 2
    let a = vec![TRUE, FALSE];
    let b = vec![FALSE, TRUE];
    assert_eq!(calc.comp_le(&a, &b).unwrap(), TRUE);
    assert_eq!(calc.comp_lt(&a, &b).unwrap(), TRUE);
    assert_eq!(calc.comp_ge(&a, &b).unwrap(), FALSE);
    assert_eq!(calc.comp_eq(&a, &b).unwrap(), FALSE);
}

#[test]
fn solver_comparator_length_mismatch() {
    let mut calc = Solver::calculator();
    let a = vec![TRUE, FALSE];
    let b = vec![TRUE];
    assert_eq!(calc.comp_eq(&a, &b), Err(Error::LengthMismatch));
    assert_eq!(calc.comp_le(&a, &b), Err(Error::LengthMismatch));
    assert_eq!(calc.comp_gt(&a, &b), Err(Error::LengthMismatch));
}

#[test]
fn with_config_profiles() {
    for name in ["default", "plain", "sat", "unsat"] {
        let mut solver = Solver::with_config(1, name).unwrap();
        assert!(solver.is_solver());
        assert_eq!(solver.solve().unwrap(), Some(true));
    }
    assert_eq!(
        Solver::with_config(1, "bogus").map(|_| ()),
        Err(Error::ConfigurationError)
    );
    assert_eq!(
        Solver::with_config(1, "").map(|_| ()),
        Err(Error::ConfigurationError)
    );
}

#[test]
fn calculator_errors() {
    let mut calc = Solver::calculator();
    assert_eq!(calc.add_variable(), Err(Error::NoBackingSolver));
    assert_eq!(calc.solve(), Err(Error::NoBackingSolver));
    assert_eq!(calc.solve_with(vec![1]), Err(Error::NoBackingSolver));
    assert_eq!(calc.add_clause(vec![1]), Err(Error::NoBackingSolver));
    assert_eq!(calc.get_value(1), Err(Error::NoBackingSolver));
}

#[test]
fn clause_literal_validation() {
    let mut solver = Solver::new(1);
    solver.add_variable().unwrap();
    // literal 0 and out-of-range magnitudes are rejected before any change
    assert_eq!(solver.add_clause(vec![0]), Err(Error::InvalidLiteral));
    assert_eq!(solver.add_clause(vec![2, 5]), Err(Error::InvalidLiteral));
    assert_eq!(solver.add_clause1(7), Err(Error::InvalidLiteral));
    assert_eq!(solver.solve_with(vec![9]), Err(Error::InvalidLiteral));
    assert_eq!(solver.add_clause2(2, -2), Ok(()));
    assert_eq!(solver.solve().unwrap(), Some(true));
}

#[test]
fn get_value_requires_solved() {
    let mut solver = Solver::new(1);
    solver.add_variable().unwrap();
    assert_eq!(solver.status(), None);
    assert_eq!(solver.get_value(2), Err(Error::NotSolved));
    solver.add_clause1(2).unwrap();
    assert_eq!(solver.solve().unwrap(), Some(true));
    assert_eq!(solver.status(), Some(true));
    assert_eq!(solver.get_value(2).unwrap(), Some(true));
    assert_eq!(solver.get_value(-2).unwrap(), Some(false));
    assert_eq!(solver.get_value(0), Err(Error::InvalidLiteral));
    // mutating the instance invalidates the model
    solver.add_variable().unwrap();
    solver.add_clause1(-3).unwrap();
    assert_eq!(solver.get_value(2), Err(Error::NotSolved));
}

#[test]
fn solve_with_assumptions() {
    let mut solver = Solver::new(1);
    solver.add_variable().unwrap();
    solver.add_variable().unwrap();
    solver.add_clause2(2, 3).unwrap();
    assert_eq!(solver.solve_with(vec![-2]).unwrap(), Some(true));
    assert_eq!(solver.get_value(3).unwrap(), Some(true));
    assert_eq!(solver.solve_with(vec![-2, -3]).unwrap(), Some(false));
}

#[test]
fn unsatisfiable_formula() {
    let mut solver = Solver::new(1);
    solver.add_variable().unwrap();
    solver.add_clause1(2).unwrap();
    solver.add_clause1(-2).unwrap();
    assert_eq!(solver.solve().unwrap(), Some(false));
}

#[test]
fn counters_and_signature() {
    let mut solver = Solver::new(1);
    assert_eq!(solver.num_variables(), 1);
    // the initial unit clause is fixed at the root, so the oracle reports
    // no active irredundant clause yet
    assert_eq!(solver.num_clauses(), 0);
    assert_eq!(solver.add_variable().unwrap(), 2);
    assert_eq!(solver.add_variable().unwrap(), 3);
    assert_eq!(solver.num_variables(), 3);
    solver.add_clause2(2, 3).unwrap();
    assert_eq!(solver.num_clauses(), 1);
    assert!(solver.signature().starts_with("cadical"));
}

#[test]
fn tseitin_or_allocates_one_variable() {
    let mut solver = Solver::new(1);
    solver.add_variable().unwrap();
    solver.add_variable().unwrap();
    // simplifications return existing literals without any allocation
    assert_eq!(solver.bool_or(TRUE, 2), TRUE);
    assert_eq!(solver.bool_or(2, 2), 2);
    assert_eq!(solver.bool_or(2, -2), TRUE);
    assert_eq!(solver.bool_or(FALSE, 3), 3);
    assert_eq!(solver.num_variables(), 3);
    // the general case allocates exactly one fresh variable
    assert_eq!(solver.bool_or(2, 3), 4);
    assert_eq!(solver.num_variables(), 4);
}
