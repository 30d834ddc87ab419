use uasat::BitVec;
use uasat::Error;
use uasat::Mode;
use uasat::Solver;
use uasat::FALSE;
use uasat::TRUE;

#[test]
fn mode_join_rules() {
    // a bound side always wins over a constant one
    assert_eq!(
        Mode::join(Mode::Bound(7), Mode::Constant),
        Ok(Mode::Bound(7))
    );
    assert_eq!(
        Mode::join(Mode::Constant, Mode::Bound(7)),
        Ok(Mode::Bound(7))
    );
    assert_eq!(Mode::join(Mode::Constant, Mode::Constant), Ok(Mode::Constant));
    assert_eq!(Mode::join(Mode::Bound(7), Mode::Bound(7)), Ok(Mode::Bound(7)));
    // distinct stores never join
    assert_eq!(
        Mode::join(Mode::Bound(7), Mode::Bound(8)),
        Err(Error::IncompatibleSolvers)
    );
}

#[test]
fn constant_vector_construction() {
    let calc = Solver::calculator();
    let bv = BitVec::new(&calc, vec![TRUE, FALSE, TRUE]).unwrap();
    assert_eq!(bv.get_solver(), Mode::Constant);
    assert_eq!(bv.len(), 3);
    assert_eq!(bv.get_literals(), vec![TRUE, FALSE, TRUE]);
    // a constant vector may hold only the TRUE/FALSE constants
    assert!(matches!(
        BitVec::new(&calc, vec![TRUE, 5]),
        Err(Error::InvalidLiteral)
    ));
}

#[test]
fn bound_vector_construction() {
    let mut solver = Solver::new(1);
    solver.add_variable().unwrap();
    solver.add_variable().unwrap();
    let bv = BitVec::new(&solver, vec![2, -3, TRUE]).unwrap();
    assert_eq!(bv.get_solver(), Mode::Bound(1));
    // literals must name allocated variables
    assert!(matches!(
        BitVec::new(&solver, vec![2, 9]),
        Err(Error::InvalidLiteral)
    ));
    assert!(matches!(
        BitVec::new(&solver, vec![0]),
        Err(Error::InvalidLiteral)
    ));
}

#[test]
fn new_variable_allocates_in_order() {
    let mut solver = Solver::new(1);
    let bv = BitVec::new_variable(&mut solver, 4).unwrap();
    assert_eq!(bv.get_literals(), vec![2, 3, 4, 5]);
    assert_eq!(solver.num_variables(), 5);
    let mut calc = Solver::calculator();
    assert!(matches!(
        BitVec::new_variable(&mut calc, 2),
        Err(Error::NoBackingSolver)
    ));
}

#[test]
fn indexing_and_slicing() {
    let calc = Solver::calculator();
    let bv = BitVec::new(&calc, vec![TRUE, FALSE, TRUE, TRUE, FALSE]).unwrap();
    assert_eq!(bv.get(0), Ok(TRUE));
    assert_eq!(bv.get(1), Ok(FALSE));
    assert_eq!(bv.get(5), Err(Error::IndexOutOfRange));
    let sub = bv.slice(1, 4, 1).unwrap();
    assert_eq!(sub.get_literals(), vec![FALSE, TRUE, TRUE]);
    let strided = bv.slice(0, 5, 2).unwrap();
    assert_eq!(strided.get_literals(), vec![TRUE, TRUE, FALSE]);
    assert!(matches!(bv.slice(3, 2, 1), Err(Error::IndexOutOfRange)));
    assert!(matches!(bv.slice(0, 6, 1), Err(Error::IndexOutOfRange)));
    assert!(matches!(bv.slice(0, 5, 0), Err(Error::IndexOutOfRange)));
    assert_eq!(bv.repr(), "[1, -1, 1, 1, -1]");
}

#[test]
fn negate_flips_literals() {
    let calc = Solver::calculator();
    let bv = BitVec::new(&calc, vec![TRUE, FALSE]).unwrap();
    assert_eq!(bv.negate().get_literals(), vec![FALSE, TRUE]);
}

#[test]
fn constant_bitwise_ops() {
    let calc = Solver::calculator();
    let mut scratch = Solver::calculator();
    let a = BitVec::new(&calc, vec![TRUE, TRUE, FALSE, FALSE]).unwrap();
    let b = BitVec::new(&calc, vec![TRUE, FALSE, TRUE, FALSE]).unwrap();
    let and = a.bv_and(&b, &mut scratch).unwrap();
    assert_eq!(and.get_literals(), vec![TRUE, FALSE, FALSE, FALSE]);
    let or = a.bv_or(&b, &mut scratch).unwrap();
    assert_eq!(or.get_literals(), vec![TRUE, TRUE, TRUE, FALSE]);
    let xor = a.bv_xor(&b, &mut scratch).unwrap();
    assert_eq!(xor.get_literals(), vec![FALSE, TRUE, TRUE, FALSE]);
    assert_eq!(and.get_solver(), Mode::Constant);
}

#[test]
fn bound_and_constant_combine() {
    let mut solver = Solver::new(5);
    let vars = BitVec::new_variable(&mut solver, 2).unwrap();
    let mask = BitVec::new(&Solver::calculator(), vec![TRUE, FALSE]).unwrap();
    // combining a bound vector with a constant one never errors and the
    // result stays tied to the original store
    let anded = vars.bv_and(&mask, &mut solver).unwrap();
    assert_eq!(anded.get_solver(), Mode::Bound(5));
    assert_eq!(anded.get_literals(), vec![2, FALSE]);
    let ored = mask.bv_or(&vars, &mut solver).unwrap();
    assert_eq!(ored.get_solver(), Mode::Bound(5));
    assert_eq!(ored.get_literals(), vec![TRUE, 3]);
}

#[test]
fn distinct_solvers_never_combine() {
    let mut s1 = Solver::new(1);
    let mut s2 = Solver::new(2);
    let a = BitVec::new_variable(&mut s1, 2).unwrap();
    let b = BitVec::new_variable(&mut s2, 2).unwrap();
    assert!(matches!(
        a.bv_and(&b, &mut s1),
        Err(Error::IncompatibleSolvers)
    ));
    assert!(matches!(
        a.comp_le(&b, &mut s1),
        Err(Error::IncompatibleSolvers)
    ));
    // a bound vector offered to the wrong solver is refused as well
    assert!(matches!(
        a.fold_all(&mut s2),
        Err(Error::IncompatibleSolvers)
    ));
}

#[test]
fn vector_length_mismatch() {
    let calc = Solver::calculator();
    let mut scratch = Solver::calculator();
    let a = BitVec::new(&calc, vec![TRUE, FALSE]).unwrap();
    let b = BitVec::new(&calc, vec![TRUE]).unwrap();
    assert!(matches!(
        a.bv_xor(&b, &mut scratch),
        Err(Error::LengthMismatch)
    ));
    assert!(matches!(
        a.comp_eq(&b, &mut scratch),
        Err(Error::LengthMismatch)
    ));
}

fn const_vec(x: u32, width: usize) -> BitVec {
    let mut lits = Vec::new();
    for i in 0..width {
        lits.push(if (x >> i) & 1 == 1 { TRUE } else { FALSE });
    }
    BitVec::new(&Solver::calculator(), lits).unwrap()
}

fn single(bv: &BitVec) -> i32 {
    assert_eq!(bv.len(), 1);
    bv.get(0).unwrap()
}

#[test]
fn vector_comparators_round_trip() {
    let mut scratch = Solver::calculator();
    for x in 0..4u32 {
        for y in 0..4u32 {
            let a = const_vec(x, 2);
            let b = const_vec(y, 2);
            assert_eq!(single(&a.comp_le(&b, &mut scratch).unwrap()) == TRUE, x <= y);
            assert_eq!(single(&a.comp_lt(&b, &mut scratch).unwrap()) == TRUE, x < y);
            assert_eq!(single(&a.comp_ge(&b, &mut scratch).unwrap()) == TRUE, x >= y);
            assert_eq!(single(&a.comp_gt(&b, &mut scratch).unwrap()) == TRUE, x > y);
            assert_eq!(single(&a.comp_eq(&b, &mut scratch).unwrap()) == TRUE, x == y);
            assert_eq!(single(&a.comp_ne(&b, &mut scratch).unwrap()) == TRUE, x != y);
        }
    }
}

#[test]
fn vector_folds() {
    let mut scratch = Solver::calculator();
    let one_true = const_vec(2, 3);
    let two_true = const_vec(5, 3);
    let none_true = const_vec(0, 3);
    assert_eq!(single(&one_true.fold_one(&mut scratch).unwrap()), TRUE);
    assert_eq!(single(&two_true.fold_one(&mut scratch).unwrap()), FALSE);
    assert_eq!(single(&none_true.fold_one(&mut scratch).unwrap()), FALSE);
    assert_eq!(single(&one_true.fold_amo(&mut scratch).unwrap()), TRUE);
    assert_eq!(single(&none_true.fold_amo(&mut scratch).unwrap()), TRUE);
    assert_eq!(single(&two_true.fold_amo(&mut scratch).unwrap()), FALSE);
    assert_eq!(single(&one_true.fold_all(&mut scratch).unwrap()), FALSE);
    assert_eq!(single(&const_vec(7, 3).fold_all(&mut scratch).unwrap()), TRUE);
    assert_eq!(single(&one_true.fold_any(&mut scratch).unwrap()), TRUE);
    assert_eq!(single(&none_true.fold_any(&mut scratch).unwrap()), FALSE);
}

#[test]
fn ensure_all_constant() {
    let calc = Solver::calculator();
    let mut scratch = Solver::calculator();
    // a constant vector containing any FALSE literal fails the assertion
    let with_false = BitVec::new(&calc, vec![TRUE, FALSE, TRUE]).unwrap();
    assert_eq!(
        with_false.ensure_all(&mut scratch),
        Err(Error::AssertionFailed)
    );
    // an all-TRUE vector succeeds with no state change
    let all_true = BitVec::new(&calc, vec![TRUE, TRUE]).unwrap();
    assert_eq!(all_true.ensure_all(&mut scratch), Ok(()));
    assert_eq!(scratch.num_variables(), 1);
    assert_eq!(scratch.num_clauses(), 0);
}

#[test]
fn ensure_any_and_one_constant() {
    let calc = Solver::calculator();
    let mut scratch = Solver::calculator();
    let mixed = BitVec::new(&calc, vec![FALSE, TRUE]).unwrap();
    assert_eq!(mixed.ensure_any(&mut scratch), Ok(()));
    let none = BitVec::new(&calc, vec![FALSE, FALSE]).unwrap();
    assert_eq!(none.ensure_any(&mut scratch), Err(Error::AssertionFailed));
    assert_eq!(mixed.ensure_one(&mut scratch), Ok(()));
    let two = BitVec::new(&calc, vec![TRUE, TRUE]).unwrap();
    assert_eq!(two.ensure_one(&mut scratch), Err(Error::AssertionFailed));
}

#[test]
fn ensure_asserts_clauses() {
    let mut solver = Solver::new(1);
    let vars = BitVec::new_variable(&mut solver, 2).unwrap();
    vars.ensure_one(&mut solver).unwrap();
    assert_eq!(solver.solve().unwrap(), Some(true));
    let v2 = solver.get_value(2).unwrap().unwrap();
    let v3 = solver.get_value(3).unwrap().unwrap();
    assert!(v2 != v3);

    let mut s2 = Solver::new(2);
    let vars = BitVec::new_variable(&mut s2, 2).unwrap();
    vars.ensure_all(&mut s2).unwrap();
    assert_eq!(s2.solve().unwrap(), Some(true));
    assert_eq!(s2.get_value(2).unwrap(), Some(true));
    assert_eq!(s2.get_value(3).unwrap(), Some(true));

    let mut s3 = Solver::new(3);
    let vars = BitVec::new_variable(&mut s3, 2).unwrap();
    vars.ensure_any(&mut s3).unwrap();
    s3.add_clause1(-2).unwrap();
    assert_eq!(s3.solve().unwrap(), Some(true));
    assert_eq!(s3.get_value(3).unwrap(), Some(true));
}

#[test]
fn get_value_reads_model() {
    let mut solver = Solver::new(1);
    let vars = BitVec::new_variable(&mut solver, 3).unwrap();
    // before any solve the model may not be read, not even of the empty
    // vector
    assert!(matches!(vars.get_value(&solver), Err(Error::NotSolved)));
    let empty = vars.slice(0, 0, 1).unwrap();
    assert!(matches!(empty.get_value(&solver), Err(Error::NotSolved)));
    solver.add_clause1(2).unwrap();
    solver.add_clause1(-3).unwrap();
    solver.add_clause1(4).unwrap();
    assert_eq!(solver.solve().unwrap(), Some(true));
    let values = vars.get_value(&solver).unwrap();
    assert_eq!(values.get_solver(), Mode::Constant);
    assert_eq!(values.get_literals(), vec![TRUE, FALSE, TRUE]);
    // a constant vector has no model to read
    assert!(matches!(
        values.get_value(&solver),
        Err(Error::NoBackingSolver)
    ));
}

#[test]
fn maj_matches_truth_table_after_solve() {
    // force two auxiliary variables true; the majority-derived literal then
    // follows the third input in both polarities
    for third in [4, -4] {
        let mut solver = Solver::new(1);
        solver.add_variable().unwrap();
        solver.add_variable().unwrap();
        solver.add_variable().unwrap();
        let all_true = solver.bool_maj(2, 3, third);
        let follows_third = solver.bool_maj(2, -3, third);
        solver.add_clause1(2).unwrap();
        solver.add_clause1(3).unwrap();
        assert_eq!(solver.solve_with(vec![4]).unwrap(), Some(true));
        assert_eq!(solver.get_value(all_true).unwrap(), Some(true));
        assert_eq!(
            solver.get_value(follows_third).unwrap(),
            Some(third == 4)
        );
        assert_eq!(solver.solve_with(vec![-4]).unwrap(), Some(true));
        assert_eq!(solver.get_value(all_true).unwrap(), Some(true));
        assert_eq!(
            solver.get_value(follows_third).unwrap(),
            Some(third == -4)
        );
    }
}
