use zokrates::compile::compile;
use zokrates::field::Field;
use zokrates::ir::interpreter::Interpreter;
use zokrates::static_analysis::inline::Inliner;
use zokrates::static_analysis::return_binder::ReturnBinder;
use zokrates::static_analysis::statement_logger::StatementLogger;
use zokrates::static_analysis::unroll::Unroller;
use zokrates::typed_absy::{
    Expression, Identifier, Kind, Operator, Parameter, TypedFunction, TypedProgram, TypedStatement,
    Value,
};

const P: u64 = 2147483647;

fn id(n: usize) -> Identifier {
    Identifier { id: n }
}

fn var(n: usize) -> Expression {
    Expression::Variable(id(n))
}

fn num(n: u64) -> Expression {
    Expression::Number(n)
}

fn bin(op: Operator, a: Expression, b: Expression) -> Expression {
    Expression::Binary(op, Box::new(a), Box::new(b))
}

fn private(n: usize) -> Parameter {
    Parameter { id: id(n), kind: Kind::Field, private: true }
}

fn program(functions: Vec<TypedFunction>) -> TypedProgram {
    TypedProgram { field: Field::new(P).unwrap(), functions, main: 0 }
}

/// `main(a)`: the sum of `a * i` for `i` from 0 up to 4, by a loop that
/// calls a function.
fn looping() -> TypedProgram {
    program(vec![
        TypedFunction {
            parameters: vec![private(0)],
            statements: vec![
                TypedStatement::Definition(id(1), num(0)),
                TypedStatement::For(
                    id(2),
                    num(0),
                    num(4),
                    vec![
                        TypedStatement::MultipleDefinition(vec![id(3)], 1, vec![var(0), var(2)]),
                        TypedStatement::Definition(id(1), bin(Operator::Add, var(1), var(3))),
                    ],
                ),
                TypedStatement::Return(vec![var(1)]),
            ],
            outputs: vec![Kind::Field],
            variable_count: 4,
        },
        TypedFunction {
            parameters: vec![private(0), private(1)],
            statements: vec![TypedStatement::Return(vec![bin(Operator::Mult, var(0), var(1))])],
            outputs: vec![Kind::Field],
            variable_count: 2,
        },
    ])
}

#[test]
fn a_loop_with_calls_runs() {
    let r = looping().call(0, &vec![Value::Field(5)], false, 2);
    assert_eq!(r, Some(vec![Value::Field(30)]));
    let r = looping().call(1, &vec![Value::Field(5), Value::Field(7)], true, 1);
    assert_eq!(r, Some(vec![Value::Field(35)]));
}

#[test]
fn a_run_needs_fuel_for_its_calls() {
    assert_eq!(looping().call(0, &vec![Value::Field(5)], false, 0), None);
    assert_eq!(looping().call(0, &vec![Value::Field(5)], false, 1), None);
    assert_eq!(looping().call(0, &vec![Value::Field(5)], false, 9), Some(vec![Value::Field(30)]));
}

#[test]
fn the_strict_reading_refuses_a_second_assignment() {
    assert_eq!(looping().call(0, &vec![Value::Field(5)], true, 2), None);
}

#[test]
fn arguments_have_to_fit_the_parameters() {
    assert_eq!(looping().call(0, &vec![], false, 2), None);
    assert_eq!(looping().call(0, &vec![Value::Boolean(true)], false, 2), None);
    assert_eq!(looping().call(2, &vec![Value::Field(1)], false, 2), None);
}

#[test]
fn returned_values_have_to_be_of_the_declared_kinds() {
    let wrong = program(vec![TypedFunction {
        parameters: vec![private(0)],
        statements: vec![TypedStatement::Return(vec![var(0)])],
        outputs: vec![Kind::Boolean],
        variable_count: 1,
    }]);
    assert_eq!(wrong.call(0, &vec![Value::Field(1)], false, 1), None);
}

#[test]
fn a_recursive_function_runs_out_of_fuel() {
    let recursive = program(vec![TypedFunction {
        parameters: vec![private(0)],
        statements: vec![
            TypedStatement::MultipleDefinition(vec![id(1)], 0, vec![var(0)]),
            TypedStatement::Return(vec![var(1)]),
        ],
        outputs: vec![Kind::Field],
        variable_count: 2,
    }]);
    assert_eq!(recursive.call(0, &vec![Value::Field(1)], false, 50), None);
}

#[test]
fn each_pass_keeps_what_a_program_returns() {
    for a in [0u64, 1, 5, 1000, P - 1] {
        let arguments = vec![Value::Field(a)];
        let expected = looping().call(0, &arguments, false, 2);
        assert_eq!(expected, Some(vec![Value::Field((6 * (a as u128) % (P as u128)) as u64)]));
        let logged = StatementLogger::create_logs(looping());
        assert_eq!(logged.call(0, &arguments, false, 2), expected);
        let unrolled = Unroller::new(100).unroll(logged).unwrap();
        assert_eq!(unrolled.call(0, &arguments, true, 2), expected);
        let bound = ReturnBinder::bind(unrolled).unwrap();
        assert_eq!(bound.call(0, &arguments, true, 2), expected);
        let inlined = Inliner::inline(bound).unwrap();
        assert_eq!(inlined.call(0, &arguments, true, 1), expected);
        assert_eq!(inlined.functions[0].execute(&arguments, &inlined.field), expected);
    }
}

#[test]
fn a_compiled_program_returns_what_the_program_returns() {
    let compiled = compile(looping()).unwrap();
    for a in [0u64, 1, 5, 1000, P - 1] {
        let expected = looping().call(0, &vec![Value::Field(a)], false, 2).unwrap();
        let witness = Interpreter::default().execute(&compiled, &vec![a]).unwrap();
        let outputs = witness.return_values(&compiled).unwrap();
        assert_eq!(outputs.len(), expected.len());
        assert_eq!(Value::Field(outputs[0]), expected[0]);
    }
}
