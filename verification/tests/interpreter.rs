use zokrates::field::Field;
use zokrates::ir::interpreter::{ExecutionError, Interpreter};
use zokrates::ir::lincomb::{LinComb, Term, Variable};
use zokrates::ir::program::{Program, Role};
use zokrates::ir::statement::{Directive, Reason, Statement};

fn var(id: usize) -> LinComb {
    LinComb::variable(Variable::new(id))
}

fn terms(list: &[(usize, u64)]) -> LinComb {
    LinComb {
        terms: list.iter().map(|(id, coeff)| Term { var: Variable::new(*id), coeff: *coeff }).collect(),
    }
}

fn field() -> Field {
    Field::new(101).unwrap()
}

/// main(private a) { return a * a }
fn square() -> Program {
    Program::new(
        field(),
        vec![true],
        4,
        vec![
            Statement::Directive(Directive::Product(Variable::new(2), var(1), var(1))),
            Statement::Constraint(var(1), var(1), var(2)),
            Statement::Definition(Variable::new(3), var(2)),
        ],
        vec![Variable::new(3)],
        false,
    )
    .unwrap()
}

#[test]
fn square_of_three_is_nine() {
    let program = square();
    let witness = Interpreter::default().execute(&program, &vec![3]).unwrap();
    assert_eq!(witness.return_values(&program), Some(vec![9]));
    assert_eq!(witness.values, vec![Some(1), Some(3), Some(9), Some(9)]);
    assert_eq!(witness.get(Variable::one()), Some(1));
    assert_eq!(witness.get(Variable::new(7)), None);
    assert_eq!(program.constraint_count(), 2);
}

#[test]
fn square_wraps_around_the_modulus() {
    let program = square();
    let witness = Interpreter::default().execute(&program, &vec![100]).unwrap();
    assert_eq!(witness.return_values(&program), Some(vec![1]));
}

#[test]
fn execution_is_repeatable() {
    let program = square();
    let interpreter = Interpreter::default();
    let first = interpreter.execute(&program, &vec![42]).unwrap();
    let second = interpreter.execute(&program, &vec![42]).unwrap();
    assert_eq!(first.values, second.values);
    assert_eq!(first.values, vec![Some(1), Some(42), Some(47), Some(47)]);
}

#[test]
fn wrong_inputs_are_refused() {
    let program = square();
    let interpreter = Interpreter::default();
    assert_eq!(
        interpreter.execute(&program, &vec![]).unwrap_err(),
        ExecutionError::WrongArgumentCount
    );
    assert_eq!(
        interpreter.execute(&program, &vec![1, 2]).unwrap_err(),
        ExecutionError::WrongArgumentCount
    );
    assert_eq!(
        interpreter.execute(&program, &vec![101]).unwrap_err(),
        ExecutionError::ArgumentOutOfField
    );
}

#[test]
fn a_violated_constraint_stops_the_execution() {
    // a * a = 4 holds for a = 2 and a = 99 only
    let program = Program::new(
        field(),
        vec![false],
        2,
        vec![Statement::Constraint(var(1), var(1), terms(&[(0, 4)]))],
        vec![],
        false,
    )
    .unwrap();
    let interpreter = Interpreter::default();
    assert!(interpreter.execute(&program, &vec![2]).is_ok());
    assert!(interpreter.execute(&program, &vec![99]).is_ok());
    assert_eq!(
        interpreter.execute(&program, &vec![3]).unwrap_err(),
        ExecutionError::Failed(0, Reason::UnsatisfiedConstraint)
    );
}

/// main(a, x) { return a / x }
fn division() -> Program {
    Program::new(
        field(),
        vec![false, false],
        5,
        vec![
            Statement::Definition(Variable::new(3), terms(&[(1, 2)])),
            Statement::Directive(Directive::Quotient(Variable::new(4), var(3), var(2))),
            Statement::Constraint(var(2), var(4), var(3)),
        ],
        vec![Variable::new(4)],
        false,
    )
    .unwrap()
}

#[test]
fn division_by_zero_fails_at_the_directive() {
    let program = division();
    let interpreter = Interpreter::default();
    let witness = interpreter.execute(&program, &vec![6, 4]).unwrap();
    assert_eq!(witness.return_values(&program), Some(vec![3]));
    assert_eq!(
        interpreter.execute(&program, &vec![6, 0]).unwrap_err(),
        ExecutionError::Failed(1, Reason::NotInvertible)
    );
}

#[test]
fn zero_test_directive() {
    let program = Program::new(
        field(),
        vec![false],
        4,
        vec![
            Statement::Directive(Directive::NonZero(Variable::new(2), Variable::new(3), var(1))),
            Statement::Constraint(var(1), var(3), var(2)),
        ],
        vec![Variable::new(2)],
        false,
    )
    .unwrap();
    let interpreter = Interpreter::default();
    let zero = interpreter.execute(&program, &vec![0]).unwrap();
    assert_eq!(zero.values, vec![Some(1), Some(0), Some(0), Some(0)]);
    let five = interpreter.execute(&program, &vec![5]).unwrap();
    assert_eq!(five.values, vec![Some(1), Some(5), Some(1), Some(81)]);
}

#[test]
fn structural_faults_fail_closed() {
    let interpreter = Interpreter::default();
    // variable 2 is read before it has a value
    let undefined = Program::new(
        field(),
        vec![false],
        4,
        vec![Statement::Definition(Variable::new(3), var(2))],
        vec![],
        false,
    )
    .unwrap();
    assert_eq!(
        interpreter.execute(&undefined, &vec![1]).unwrap_err(),
        ExecutionError::Failed(0, Reason::UndefinedVariable)
    );
    // variable 2 is defined twice
    let twice = Program::new(
        field(),
        vec![false],
        3,
        vec![
            Statement::Definition(Variable::new(2), var(1)),
            Statement::Definition(Variable::new(2), var(1)),
        ],
        vec![],
        false,
    )
    .unwrap();
    assert_eq!(
        interpreter.execute(&twice, &vec![1]).unwrap_err(),
        ExecutionError::Failed(1, Reason::Redefinition)
    );
    // an input cannot be defined again
    let input = Program::new(
        field(),
        vec![false],
        2,
        vec![Statement::Definition(Variable::new(1), LinComb::zero())],
        vec![],
        false,
    )
    .unwrap();
    assert_eq!(
        interpreter.execute(&input, &vec![1]).unwrap_err(),
        ExecutionError::Failed(0, Reason::Redefinition)
    );
    // an output that nothing defines
    let dangling = Program::new(field(), vec![false], 3, vec![], vec![Variable::new(2)], false).unwrap();
    assert_eq!(
        interpreter.execute(&dangling, &vec![1]).unwrap_err(),
        ExecutionError::Failed(0, Reason::UndefinedVariable)
    );
}

#[test]
fn programs_are_checked_when_built() {
    // a variable beyond the count
    assert!(Program::new(
        field(),
        vec![false],
        2,
        vec![Statement::Definition(Variable::new(2), var(1))],
        vec![],
        false
    )
    .is_none());
    // a coefficient that is not reduced
    assert!(Program::new(
        field(),
        vec![false],
        3,
        vec![Statement::Definition(Variable::new(2), terms(&[(1, 101)]))],
        vec![],
        false
    )
    .is_none());
    // a zero coefficient
    assert!(Program::new(
        field(),
        vec![false],
        3,
        vec![Statement::Definition(Variable::new(2), terms(&[(1, 0)]))],
        vec![],
        false
    )
    .is_none());
    // variables out of order
    assert!(Program::new(
        field(),
        vec![false],
        3,
        vec![Statement::Definition(Variable::new(2), terms(&[(1, 1), (0, 1)]))],
        vec![],
        false
    )
    .is_none());
    // no room for the arguments
    assert!(Program::new(field(), vec![false, false], 2, vec![], vec![], false).is_none());
    // an unusable modulus
    assert!(Program::new(Field { modulus: 1 }, vec![], 1, vec![], vec![], false).is_none());
    assert!(Program::new(field(), vec![], 1, vec![], vec![Variable::one()], false).is_some());
}

#[test]
fn roles_and_signature() {
    let program = Program::new(field(), vec![true, false], 5, vec![], vec![Variable::new(1)], true).unwrap();
    assert_eq!(program.role(Variable::one()), Role::One);
    assert_eq!(program.role(Variable::new(1)), Role::PrivateInput);
    assert_eq!(program.role(Variable::new(2)), Role::PublicInput);
    assert_eq!(program.role(Variable::new(3)), Role::Intermediate);
    assert_eq!(program.arguments_count(), 2);
    let signature = program.signature();
    assert_eq!(signature.arguments, 2);
    assert_eq!(signature.private, vec![true, false]);
    assert_eq!(signature.outputs, 1);
    assert!(program.light);
    assert!(program.is_well_formed());
    assert_eq!(program.output_marks(), vec![false, true, false, false, false]);
}

#[test]
fn linear_combinations() {
    let f = field();
    let a = terms(&[(0, 5), (2, 100)]);
    let b = terms(&[(1, 3), (2, 1), (4, 7)]);
    assert_eq!(a.add(&b, &f).terms, terms(&[(0, 5), (1, 3), (4, 7)]).terms);
    assert_eq!(a.sub(&b, &f).terms, terms(&[(0, 5), (1, 98), (2, 99), (4, 94)]).terms);
    assert_eq!(a.scale(2, &f).terms, terms(&[(0, 10), (2, 99)]).terms);
    assert_eq!(a.scale(0, &f).terms, vec![]);
    assert_eq!(a.negate(&f).terms, terms(&[(0, 96), (2, 1)]).terms);
    assert_eq!(a.complement(&f).terms, terms(&[(0, 97), (2, 1)]).terms);
    assert_eq!(LinComb::constant(205, &f).terms, terms(&[(0, 3)]).terms);
    assert_eq!(LinComb::constant(202, &f).terms, vec![]);
    assert_eq!(LinComb::zero().len(), 0);
    let w = vec![Some(1), Some(10), Some(20), None, Some(4)];
    assert_eq!(a.eval(&w, &f), Some((5 + 100 * 20) % 101));
    assert_eq!(b.eval(&w, &f), Some((30 + 20 + 28) % 101));
    assert_eq!(terms(&[(3, 1)]).eval(&w, &f), None);
    assert_eq!(terms(&[(9, 1)]).eval(&w, &f), None);
    assert_eq!(LinComb::zero().eval(&w, &f), Some(0));
    assert!(a.is_well_formed(&f, 3));
    assert!(!a.is_well_formed(&f, 2));
    assert_eq!(a.clone().terms, a.terms);
}

#[test]
fn bits_directive() {
    let program = Program::new(
        field(),
        vec![false],
        6,
        vec![Statement::Directive(Directive::Bits(Variable::new(2), 4, var(1)))],
        vec![Variable::new(2), Variable::new(3), Variable::new(4), Variable::new(5)],
        false,
    )
    .unwrap();
    let interpreter = Interpreter::default();
    let bits = |x: u64| interpreter.execute(&program, &vec![x]).map(|w| w.return_values(&program).unwrap());
    assert_eq!(bits(0), Ok(vec![0, 0, 0, 0]));
    assert_eq!(bits(1), Ok(vec![1, 0, 0, 0]));
    assert_eq!(bits(10), Ok(vec![0, 1, 0, 1]));
    assert_eq!(bits(15), Ok(vec![1, 1, 1, 1]));
    assert_eq!(bits(16), Err(ExecutionError::Failed(0, Reason::OutOfRange)));
    assert_eq!(bits(100), Err(ExecutionError::Failed(0, Reason::OutOfRange)));
    // no bits at all hold zero alone
    let none = Program::new(
        field(),
        vec![false],
        2,
        vec![Statement::Directive(Directive::Bits(Variable::new(2), 0, var(1)))],
        vec![],
        false,
    )
    .unwrap();
    assert!(interpreter.execute(&none, &vec![0]).is_ok());
    assert_eq!(
        interpreter.execute(&none, &vec![1]).unwrap_err(),
        ExecutionError::Failed(0, Reason::OutOfRange)
    );
    // the bits need room, and variables without value
    assert!(Program::new(
        field(),
        vec![false],
        5,
        vec![Statement::Directive(Directive::Bits(Variable::new(2), 4, var(1)))],
        vec![],
        false
    )
    .is_none());
    let taken = Program::new(
        field(),
        vec![false],
        6,
        vec![
            Statement::Definition(Variable::new(3), var(1)),
            Statement::Directive(Directive::Bits(Variable::new(2), 4, var(1))),
        ],
        vec![],
        false,
    )
    .unwrap();
    assert_eq!(
        interpreter.execute(&taken, &vec![3]).unwrap_err(),
        ExecutionError::Failed(1, Reason::Redefinition)
    );
}

#[test]
fn constraints_of_a_program() {
    let program = division();
    let constraints = program.constraints();
    assert_eq!(constraints.len(), 2);
    assert_eq!(program.constraint_count(), 2);
    // x3 = 2 * x1 is the constraint (2 * x1) * 1 = x3
    assert_eq!(constraints[0].a.terms, terms(&[(1, 2)]).terms);
    assert_eq!(constraints[0].b.terms, terms(&[(0, 1)]).terms);
    assert_eq!(constraints[0].c.terms, terms(&[(3, 1)]).terms);
    assert_eq!(constraints[1].a.terms, var(2).terms);
    assert_eq!(constraints[1].b.terms, var(4).terms);
    assert_eq!(constraints[1].c.terms, var(3).terms);
    // the witness solves them
    let f = field();
    let witness = Interpreter::default().execute(&program, &vec![6, 4]).unwrap();
    for c in constraints.iter() {
        let a = c.a.eval(&witness.values, &f).unwrap();
        let b = c.b.eval(&witness.values, &f).unwrap();
        assert_eq!(Some(f.mul(a, b)), c.c.eval(&witness.values, &f));
    }
}
