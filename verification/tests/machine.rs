use zokrates::field::Field;
use zokrates::ir::interpreter::{ExecutionError, Interpreter};
use zokrates::ir::lincomb::{LinComb, Term, Variable};
use zokrates::ir::machine::State;
use zokrates::ir::program::Program;
use zokrates::ir::statement::{Directive, Reason, Statement};

fn var(id: usize) -> LinComb {
    LinComb::variable(Variable::new(id))
}

/// main(a, x) { return a / x }, with the constraint that checks the quotient
fn division() -> Program {
    Program::new(
        Field::new(101).unwrap(),
        vec![false, false],
        4,
        vec![
            Statement::Directive(Directive::Quotient(Variable::new(3), var(1), var(2))),
            Statement::Constraint(var(2), var(3), var(1)),
        ],
        vec![Variable::new(3)],
        false,
    )
    .unwrap()
}

#[test]
fn an_execution_goes_from_ready_to_satisfied() {
    let program = division();
    let interpreter = Interpreter::default();
    let mut execution = interpreter.start(&program, &vec![12, 4]).unwrap();
    assert_eq!(execution.state, State::Ready);
    assert_eq!(execution.position, 0);
    assert_eq!(execution.witness.values, vec![Some(1), Some(12), Some(4), None]);
    assert!(!execution.is_done());

    execution.step(&program);
    assert_eq!(execution.state, State::Running);
    assert_eq!(execution.position, 1);
    assert_eq!(execution.witness.values, vec![Some(1), Some(12), Some(4), Some(3)]);

    execution.step(&program);
    assert_eq!(execution.state, State::Running);
    assert_eq!(execution.position, 2);
    assert!(!execution.is_done());

    execution.step(&program);
    assert_eq!(execution.state, State::Satisfied);
    assert_eq!(execution.position, 2);
    assert!(execution.is_done());

    // there is no way on from the end
    execution.step(&program);
    assert_eq!(execution.state, State::Satisfied);
    assert_eq!(execution.position, 2);

    let witness = execution.finish().unwrap();
    assert_eq!(witness.values, interpreter.execute(&program, &vec![12, 4]).unwrap().values);
}

#[test]
fn an_execution_fails_where_a_statement_fails() {
    let program = division();
    let interpreter = Interpreter::default();
    let mut execution = interpreter.start(&program, &vec![12, 0]).unwrap();
    execution.step(&program);
    assert_eq!(execution.state, State::Failed(Reason::NotInvertible));
    assert_eq!(execution.position, 0);
    assert!(execution.is_done());
    execution.step(&program);
    assert_eq!(execution.state, State::Failed(Reason::NotInvertible));
    assert_eq!(execution.position, 0);
    assert_eq!(
        execution.finish().unwrap_err(),
        ExecutionError::Failed(0, Reason::NotInvertible)
    );
    assert_eq!(
        interpreter.execute(&program, &vec![12, 0]).unwrap_err(),
        ExecutionError::Failed(0, Reason::NotInvertible)
    );
}

#[test]
fn an_execution_runs_to_its_end() {
    let program = division();
    let interpreter = Interpreter::default();
    for (a, x) in [(12u64, 4u64), (1, 2), (0, 5), (7, 0), (100, 100)] {
        let mut execution = interpreter.start(&program, &vec![a, x]).unwrap();
        execution.run(&program);
        assert!(execution.is_done());
        let stepwise = execution.finish().map(|w| w.values);
        let at_once = interpreter.execute(&program, &vec![a, x]).map(|w| w.values);
        assert_eq!(stepwise, at_once);
    }
}

#[test]
fn an_execution_without_output_value_fails_past_the_end() {
    let program = Program::new(
        Field::new(101).unwrap(),
        vec![],
        2,
        vec![Statement::Constraint(LinComb::zero(), LinComb::zero(), LinComb::zero())],
        vec![Variable::new(1)],
        false,
    )
    .unwrap();
    let interpreter = Interpreter::default();
    let mut execution = interpreter.start(&program, &vec![]).unwrap();
    execution.run(&program);
    assert_eq!(execution.state, State::Failed(Reason::UndefinedVariable));
    assert_eq!(execution.position, 1);
    assert_eq!(
        interpreter.execute(&program, &vec![]).unwrap_err(),
        ExecutionError::Failed(1, Reason::UndefinedVariable)
    );
}

#[test]
fn inputs_are_checked_at_the_start() {
    let program = division();
    let interpreter = Interpreter::default();
    assert_eq!(
        interpreter.start(&program, &vec![1]).unwrap_err(),
        ExecutionError::WrongArgumentCount
    );
    assert_eq!(
        interpreter.start(&program, &vec![1, 101]).unwrap_err(),
        ExecutionError::ArgumentOutOfField
    );
    assert!(Variable::one().is_one());
    assert!(!Variable::new(3).is_one());
    assert_eq!(Variable::new(3).id(), 3);
    assert_eq!(LinComb::term(Term { var: Variable::new(2), coeff: 5 }).terms.len(), 1);
}
