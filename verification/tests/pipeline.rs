use zokrates::compile::{compile, CompileError};
use zokrates::field::Field;
use zokrates::flatten::{FlattenError, Flattener};
use zokrates::ir::interpreter::{ExecutionError, Interpreter};
use zokrates::ir::program::Program;
use zokrates::ir::statement::{Directive, Reason, Statement};
use zokrates::static_analysis::constrain_inputs::{InputConstrainer, Policy};
use zokrates::static_analysis::inline::Inliner;
use zokrates::static_analysis::propagation::Propagator;
use zokrates::static_analysis::return_binder::ReturnBinder;
use zokrates::static_analysis::statement_logger::{statement_notation, StatementLogger};
use zokrates::static_analysis::unroll::Unroller;
use zokrates::static_analysis::{Analyse, AnalysisError};
use zokrates::typed_absy::{
    Expression, Identifier, Kind, Operator, Parameter, TypedFunction, TypedProgram, TypedStatement,
    Value,
};

const P: u64 = 2147483647;

fn field() -> Field {
    Field::new(P).unwrap()
}

fn id(n: usize) -> Identifier {
    Identifier { id: n }
}

fn var(n: usize) -> Expression {
    Expression::Variable(id(n))
}

fn flag(n: usize) -> Expression {
    Expression::Flag(id(n))
}

fn num(n: u64) -> Expression {
    Expression::Number(n)
}

fn bin(op: Operator, a: Expression, b: Expression) -> Expression {
    Expression::Binary(op, Box::new(a), Box::new(b))
}

fn private(n: usize) -> Parameter {
    Parameter { id: id(n), kind: Kind::Field, private: true }
}

fn public(n: usize) -> Parameter {
    Parameter { id: id(n), kind: Kind::Field, private: false }
}

fn function(
    parameters: Vec<Parameter>,
    statements: Vec<TypedStatement>,
    outputs: Vec<Kind>,
    variable_count: usize,
) -> TypedFunction {
    TypedFunction { parameters, statements, outputs, variable_count }
}

fn program(functions: Vec<TypedFunction>) -> TypedProgram {
    TypedProgram { field: field(), functions, main: 0 }
}

fn run(program: &Program, inputs: &[u64]) -> Result<Vec<u64>, ExecutionError> {
    let witness = Interpreter::default().execute(program, &inputs.to_vec())?;
    Ok(witness.return_values(program).unwrap())
}

fn is_multiplication(s: &Statement) -> bool {
    match s {
        Statement::Constraint(a, b, _) => {
            let constant = |l: &zokrates::ir::lincomb::LinComb| {
                l.terms.is_empty() || (l.terms.len() == 1 && l.terms[0].var.id == 0)
            };
            !constant(a) && !constant(b)
        }
        _ => false,
    }
}

fn count_loops(statements: &[TypedStatement]) -> usize {
    statements.iter().filter(|s| matches!(s, TypedStatement::For(..))).count()
}

fn count_additions(statements: &[TypedStatement]) -> usize {
    statements
        .iter()
        .filter(|s| matches!(s, TypedStatement::Definition(_, Expression::Binary(Operator::Add, _, _))))
        .count()
}

/// main(private field a) -> field { return a * a }
fn square() -> TypedProgram {
    program(vec![function(
        vec![private(0)],
        vec![TypedStatement::Return(vec![bin(Operator::Mult, var(0), var(0))])],
        vec![Kind::Field],
        1,
    )])
}

#[test]
fn square_has_one_multiplication() {
    let flat = compile(square()).unwrap();
    assert_eq!(run(&flat, &[3]), Ok(vec![9]));
    assert_eq!(flat.statements.iter().filter(|s| is_multiplication(s)).count(), 1);
    assert_eq!(flat.private, vec![true]);
    assert_eq!(flat.outputs.len(), 1);
    assert!(flat.is_well_formed());
    // the directive serves the witness alone
    assert_eq!(flat.constraint_count(), flat.statements.len() - 1);
    assert_eq!(run(&flat, &[P - 1]), Ok(vec![1]));
}

/// main() -> field { acc = 0; for i in 0..3 { acc = acc + i }; return acc }
fn sum_loop() -> TypedProgram {
    program(vec![function(
        vec![],
        vec![
            TypedStatement::Definition(id(0), num(0)),
            TypedStatement::For(
                id(1),
                num(0),
                num(3),
                vec![TypedStatement::Definition(id(0), bin(Operator::Add, var(0), var(1)))],
            ),
            TypedStatement::Return(vec![var(0)]),
        ],
        vec![Kind::Field],
        2,
    )])
}

#[test]
fn a_loop_is_unrolled_into_its_iterations() {
    let unrolled = Unroller::new(100).unroll(sum_loop()).unwrap();
    let statements = &unrolled.functions[0].statements;
    assert_eq!(count_loops(statements), 0);
    assert_eq!(count_additions(statements), 3);
    // acc = 0, then for each iteration the index and the addition, then the return
    assert_eq!(statements.len(), 1 + 3 * 2 + 1);
    assert_eq!(unrolled.functions[0].variable_count, 2 + 7);
    let expected = vec![
        "_2 = 0", "_3 = 0", "_4 = (_2 + _3)", "_5 = 1", "_6 = (_4 + _5)", "_7 = 2", "_8 = (_6 + _7)",
        "return _8",
    ];
    let shown: Vec<String> = statements.iter().map(statement_notation).collect();
    assert_eq!(shown, expected);

    let flat = compile(sum_loop()).unwrap();
    assert_eq!(run(&flat, &[]), Ok(vec![3]));
}

#[test]
fn loop_bounds_have_to_be_constants() {
    // for i in 0..a with a an input
    let looping = program(vec![function(
        vec![private(0)],
        vec![
            TypedStatement::Definition(id(1), num(0)),
            TypedStatement::For(id(2), num(0), var(0), vec![]),
            TypedStatement::Return(vec![var(1)]),
        ],
        vec![Kind::Field],
        3,
    )]);
    assert_eq!(
        Unroller::new(100).unroll(looping).unwrap_err(),
        AnalysisError::UnrollableBound(0, 1)
    );
    // a bound that is a constant once what is known is put in
    let known = program(vec![function(
        vec![],
        vec![
            TypedStatement::Definition(id(0), bin(Operator::Add, num(1), num(1))),
            TypedStatement::Definition(id(1), num(0)),
            TypedStatement::For(
                id(2),
                num(0),
                bin(Operator::Mult, var(0), num(2)),
                vec![TypedStatement::Definition(id(1), bin(Operator::Add, var(1), num(10)))],
            ),
            TypedStatement::Return(vec![var(1)]),
        ],
        vec![Kind::Field],
        3,
    )]);
    let flat = compile(known).unwrap();
    assert_eq!(run(&flat, &[]), Ok(vec![40]));
}

#[test]
fn unrolling_is_limited() {
    assert!(Unroller::new(3).unroll(sum_loop()).is_ok());
    assert_eq!(Unroller::new(2).unroll(sum_loop()).unwrap_err(), AnalysisError::TooManyIterations);
    // an empty range takes no iteration
    let empty = program(vec![function(
        vec![],
        vec![TypedStatement::For(id(0), num(5), num(5), vec![]), TypedStatement::Return(vec![])],
        vec![],
        1,
    )]);
    let unrolled = Unroller::new(0).unroll(empty).unwrap();
    assert_eq!(unrolled.functions[0].statements.len(), 1);
}

#[test]
fn nested_loops_are_unrolled() {
    // for i in 0..2 { for j in 0..3 { acc = acc + i * j } }
    let nested = program(vec![function(
        vec![],
        vec![
            TypedStatement::Definition(id(0), num(0)),
            TypedStatement::For(
                id(1),
                num(0),
                num(2),
                vec![TypedStatement::For(
                    id(2),
                    num(0),
                    num(3),
                    vec![TypedStatement::Definition(
                        id(0),
                        bin(Operator::Add, var(0), bin(Operator::Mult, var(1), var(2))),
                    )],
                )],
            ),
            TypedStatement::Return(vec![var(0)]),
        ],
        vec![Kind::Field],
        3,
    )]);
    let flat = compile(nested).unwrap();
    assert_eq!(run(&flat, &[]), Ok(vec![3]));
}

/// main(private field a, field b) -> bool { return a == b }
fn equality() -> TypedProgram {
    program(vec![function(
        vec![private(0), public(1)],
        vec![TypedStatement::Return(vec![bin(Operator::Eq, var(0), var(1))])],
        vec![Kind::Boolean],
        2,
    )])
}

#[test]
fn equality_of_two_inputs() {
    let flat = compile(equality()).unwrap();
    assert_eq!(run(&flat, &[5, 5]), Ok(vec![1]));
    assert_eq!(run(&flat, &[5, 6]), Ok(vec![0]));
    assert_eq!(run(&flat, &[6, 5]), Ok(vec![0]));
    assert_eq!(run(&flat, &[0, 0]), Ok(vec![1]));
    assert_eq!(flat.private, vec![true, false]);
}

/// main(field a, field x) -> field { return a / x }
fn quotient() -> TypedProgram {
    program(vec![function(
        vec![public(0), public(1)],
        vec![TypedStatement::Return(vec![bin(Operator::Div, var(0), var(1))])],
        vec![Kind::Field],
        2,
    )])
}

#[test]
fn division_by_zero_fails_at_the_inversion() {
    let flat = compile(quotient()).unwrap();
    assert_eq!(run(&flat, &[12, 4]), Ok(vec![3]));
    let failure = run(&flat, &[12, 0]).unwrap_err();
    match failure {
        ExecutionError::Failed(position, Reason::NotInvertible) => {
            assert!(matches!(
                flat.statements[position],
                Statement::Directive(Directive::Quotient(..))
            ));
        }
        other => panic!("{:?}", other),
    }
}

/// main(private field a, field b) -> field { return b }
fn unused_input() -> TypedProgram {
    program(vec![function(
        vec![private(0), public(1)],
        vec![TypedStatement::Return(vec![var(1)])],
        vec![Kind::Field],
        2,
    )])
}

#[test]
fn an_unused_input_is_bound_or_refused() {
    let bound = InputConstrainer::new(Policy::Synthesize).constrain(unused_input()).unwrap();
    let statements = &bound.functions[0].statements;
    assert_eq!(statements.len(), 2);
    assert_eq!(statement_notation(&statements[0]), "_0 == _0");
    assert_eq!(statement_notation(&statements[1]), "return _1");

    assert_eq!(
        InputConstrainer::new(Policy::Reject).constrain(unused_input()).unwrap_err(),
        AnalysisError::UnconstrainedInput(0)
    );

    // the binding reaches the flat program
    let flat = compile(unused_input()).unwrap();
    let reads_first_input = flat.statements.iter().any(|s| match s {
        Statement::Constraint(a, _, c) => {
            a.terms.iter().any(|t| t.var.id == 1) && c.terms.iter().any(|t| t.var.id == 1)
        }
        _ => false,
    });
    assert!(reads_first_input);
    assert_eq!(run(&flat, &[7, 9]), Ok(vec![9]));
}

#[test]
fn used_inputs_are_left_alone() {
    let constrainer = InputConstrainer::new(Policy::Reject);
    assert_eq!(constrainer.policy, Policy::Reject);
    let kept = constrainer.constrain(square()).unwrap();
    assert_eq!(kept.functions[0].statements.len(), 1);
    // an input that a condition reads is constrained
    let conditioned = program(vec![function(
        vec![private(0)],
        vec![TypedStatement::Condition(var(0), num(4)), TypedStatement::Return(vec![])],
        vec![],
        1,
    )]);
    assert!(constrainer.constrain(conditioned).is_ok());
    // an input that only a dead definition reads is not
    let dead = program(vec![function(
        vec![private(0)],
        vec![TypedStatement::Definition(id(1), var(0)), TypedStatement::Return(vec![num(1)])],
        vec![Kind::Field],
        2,
    )]);
    assert_eq!(constrainer.constrain(dead).unwrap_err(), AnalysisError::UnconstrainedInput(0));
    // a boolean input is bound as a flag
    let boolean = program(vec![function(
        vec![Parameter { id: id(0), kind: Kind::Boolean, private: true }],
        vec![TypedStatement::Return(vec![])],
        vec![],
        1,
    )]);
    let bound = InputConstrainer::new(Policy::Synthesize).constrain(boolean).unwrap();
    assert!(matches!(
        bound.functions[0].statements[0],
        TypedStatement::Condition(Expression::Flag(_), Expression::Flag(_))
    ));
}

#[test]
fn passes_that_take_no_loop_name_it() {
    assert_eq!(
        Propagator::propagate(sum_loop()).unwrap_err(),
        AnalysisError::UnexpectedStatement(1)
    );
    assert_eq!(
        InputConstrainer::new(Policy::Synthesize).constrain(sum_loop()).unwrap_err(),
        AnalysisError::UnexpectedStatement(1)
    );
    assert_eq!(Inliner::inline(sum_loop()).unwrap_err(), AnalysisError::UnexpectedStatement(1));
    assert_eq!(Flattener::flatten(&sum_loop()).unwrap_err(), FlattenError::NotLowered);
}

/// main(a) { x, y = f(a, 2); return x + y }   f(u, v) { w = u * v; return w, w + 1 }
fn calling() -> TypedProgram {
    program(vec![
        function(
            vec![private(0)],
            vec![
                TypedStatement::MultipleDefinition(vec![id(1), id(2)], 1, vec![var(0), num(2)]),
                TypedStatement::Return(vec![bin(Operator::Add, var(1), var(2))]),
            ],
            vec![Kind::Field],
            3,
        ),
        function(
            vec![public(0), public(1)],
            vec![
                TypedStatement::Definition(id(2), bin(Operator::Mult, var(0), var(1))),
                TypedStatement::Return(vec![var(2), bin(Operator::Add, var(2), num(1))]),
            ],
            vec![Kind::Field, Kind::Field],
            3,
        ),
    ])
}

#[test]
fn calls_are_inlined() {
    let inlined = Inliner::inline(calling()).unwrap();
    assert_eq!(inlined.functions.len(), 1);
    assert_eq!(inlined.main, 0);
    let shown: Vec<String> = inlined.functions[0].statements.iter().map(statement_notation).collect();
    assert_eq!(
        shown,
        vec!["_3 = _0", "_4 = 2", "_5 = (_3 * _4)", "_1 = _5", "_2 = (_5 + 1)", "return (_1 + _2)"]
    );
    assert_eq!(inlined.functions[0].variable_count, 6);
    let flat = compile(calling()).unwrap();
    assert_eq!(run(&flat, &[5]), Ok(vec![21]));
}

#[test]
fn recursion_is_refused() {
    let direct = program(vec![function(
        vec![private(0)],
        vec![
            TypedStatement::MultipleDefinition(vec![id(1)], 0, vec![var(0)]),
            TypedStatement::Return(vec![var(1)]),
        ],
        vec![Kind::Field],
        2,
    )]);
    assert_eq!(Inliner::inline(direct).unwrap_err(), AnalysisError::Recursion(0));
    let call = |callee: usize| {
        function(
            vec![private(0)],
            vec![
                TypedStatement::MultipleDefinition(vec![id(1)], callee, vec![var(0)]),
                TypedStatement::Return(vec![var(1)]),
            ],
            vec![Kind::Field],
            2,
        )
    };
    let mutual = program(vec![call(1), call(2), call(1)]);
    assert_eq!(Inliner::inline(mutual).unwrap_err(), AnalysisError::Recursion(1));
    assert_eq!(
        compile(program(vec![call(1), call(2), call(0)])).unwrap_err(),
        CompileError::Analysis(AnalysisError::Recursion(0))
    );
}

#[test]
fn calls_have_to_fit() {
    let call = |callee: usize, targets: Vec<Identifier>, args: Vec<Expression>| {
        program(vec![
            function(
                vec![private(0)],
                vec![
                    TypedStatement::MultipleDefinition(targets, callee, args),
                    TypedStatement::Return(vec![var(0)]),
                ],
                vec![Kind::Field],
                3,
            ),
            function(vec![public(0)], vec![TypedStatement::Return(vec![var(0)])], vec![Kind::Field], 1),
            function(vec![public(0)], vec![], vec![Kind::Field], 1),
        ])
    };
    assert!(Inliner::inline(call(1, vec![id(1)], vec![var(0)])).is_ok());
    assert_eq!(
        Inliner::inline(call(7, vec![id(1)], vec![var(0)])).unwrap_err(),
        AnalysisError::InvalidCall(7)
    );
    assert_eq!(
        Inliner::inline(call(1, vec![id(1)], vec![])).unwrap_err(),
        AnalysisError::InvalidCall(1)
    );
    assert_eq!(
        Inliner::inline(call(1, vec![id(1), id(2)], vec![var(0)])).unwrap_err(),
        AnalysisError::InvalidCall(1)
    );
    assert_eq!(
        Inliner::inline(call(2, vec![id(1)], vec![var(0)])).unwrap_err(),
        AnalysisError::MissingReturn(2)
    );
}

#[test]
fn returns_are_bound_to_variables() {
    let bound = ReturnBinder::bind(calling()).unwrap();
    let shown: Vec<String> = bound.functions[1].statements.iter().map(statement_notation).collect();
    assert_eq!(shown, vec!["_2 = (_0 * _1)", "_3 = _2", "_4 = (_2 + 1)", "return _3, _4"]);
    assert_eq!(bound.functions[1].variable_count, 5);
    let shown: Vec<String> = bound.functions[0].statements.iter().map(statement_notation).collect();
    assert_eq!(shown, vec!["_1, _2 = f1(_0, 2)", "_3 = (_1 + _2)", "return _3"]);
    // a boolean is returned through a flag
    let bound = ReturnBinder::bind(equality()).unwrap();
    assert!(matches!(
        &bound.functions[0].statements[1],
        TypedStatement::Return(es) if matches!(es[0], Expression::Flag(_))
    ));
}

#[test]
fn constants_and_copies_are_propagated() {
    // x = 2 + 3; y = x; z = a * y; assert z == z... return z + x
    let source = program(vec![function(
        vec![private(0)],
        vec![
            TypedStatement::Definition(id(1), bin(Operator::Add, num(2), num(3))),
            TypedStatement::Definition(id(2), var(1)),
            TypedStatement::Definition(id(3), bin(Operator::Mult, var(0), var(2))),
            TypedStatement::Condition(var(1), num(5)),
            TypedStatement::Definition(
                id(4),
                Expression::IfElse(
                    Box::new(bin(Operator::Eq, var(2), num(5))),
                    Box::new(var(3)),
                    Box::new(bin(Operator::Div, num(1), num(0))),
                ),
            ),
            TypedStatement::Return(vec![bin(Operator::Add, var(4), var(1))]),
        ],
        vec![Kind::Field],
        5,
    )]);
    let once = Propagator::propagate(source).unwrap();
    let shown: Vec<String> = once.functions[0].statements.iter().map(statement_notation).collect();
    assert_eq!(shown, vec!["_3 = (_0 * 5)", "return (_3 + 5)"]);
    let twice = Propagator::propagate(Propagator::propagate(once).unwrap()).unwrap();
    let again: Vec<String> = twice.functions[0].statements.iter().map(statement_notation).collect();
    assert_eq!(again, shown);
}

#[test]
fn folding_of_constants() {
    let fold = |e: Expression| {
        let source = program(vec![function(vec![], vec![TypedStatement::Return(vec![e])], vec![], 0)]);
        let folded = Propagator::propagate(source).unwrap();
        statement_notation(&folded.functions[0].statements[0])
    };
    assert_eq!(fold(bin(Operator::Sub, num(3), num(5))), format!("return {}", P - 2));
    assert_eq!(fold(bin(Operator::Mult, num(P + 2), num(4))), "return 8");
    assert_eq!(fold(bin(Operator::Div, num(12), num(4))), "return 3");
    assert_eq!(fold(bin(Operator::Div, num(12), num(0))), "return (12 / 0)");
    assert_eq!(fold(bin(Operator::Eq, num(P + 1), num(1))), "return true");
    assert_eq!(
        fold(bin(Operator::Or, Expression::Boolean(false), Expression::Boolean(true))),
        "return true"
    );
    assert_eq!(
        fold(bin(Operator::And, Expression::Boolean(false), Expression::Boolean(true))),
        "return false"
    );
    assert_eq!(fold(Expression::Not(Box::new(Expression::Boolean(false)))), "return true");
    assert_eq!(fold(bin(Operator::Add, var(9), num(P))), "return (_9 + 0)");
    assert_eq!(
        fold(Expression::IfElse(
            Box::new(Expression::Boolean(false)),
            Box::new(num(1)),
            Box::new(num(2))
        )),
        "return 2"
    );
    assert_eq!(
        fold(Expression::IfElse(Box::new(flag(3)), Box::new(num(1)), Box::new(num(2)))),
        "return if _3 then 1 else 2 fi"
    );
}

#[test]
fn statements_are_logged() {
    let logged = StatementLogger::create_logs(sum_loop());
    let shown: Vec<String> = logged.functions[0].statements.iter().map(statement_notation).collect();
    assert_eq!(
        shown,
        vec![
            "log _0 = 0",
            "_0 = 0",
            "log for _1 in 0..3 do 1 statements endfor",
            "for _1 in 0..3 do 1 statements endfor",
            "log return _0",
            "return _0",
        ]
    );
    let folded = StatementLogger::new().fold_statement(TypedStatement::Condition(var(1), num(2)));
    assert_eq!(folded.len(), 2);
    assert!(matches!(&folded[0], TypedStatement::Log(text) if text == "_1 == 2"));
    assert!(matches!(&folded[1], TypedStatement::Condition(..)));
}

#[test]
fn analysis_of_a_typed_program() {
    let analysed = sum_loop().analyse().unwrap();
    assert_eq!(analysed.functions.len(), 1);
    let statements = &analysed.functions[0].statements;
    assert_eq!(count_loops(statements), 0);
    // the sum is known when the program is analysed
    assert!(matches!(statements.last(), Some(TypedStatement::Return(es)) if matches!(es[0], Expression::Number(3))));
}

#[test]
fn analysis_of_a_flat_program_is_stable() {
    let flat = compile(calling()).unwrap();
    let before: Vec<String> = flat.statements.iter().map(|s| format!("{:?}", s)).collect();
    let again = flat.analyse().unwrap();
    let after: Vec<String> = again.statements.iter().map(|s| format!("{:?}", s)).collect();
    assert_eq!(before, after);
}

#[test]
fn booleans_and_choices() {
    // main(bool c, field a, field b) { return if c && !(a == b) then a else b fi, c || (a == b) }
    let source = program(vec![function(
        vec![
            Parameter { id: id(0), kind: Kind::Boolean, private: false },
            public(1),
            public(2),
        ],
        vec![TypedStatement::Return(vec![
            Expression::IfElse(
                Box::new(bin(
                    Operator::And,
                    flag(0),
                    Expression::Not(Box::new(bin(Operator::Eq, var(1), var(2)))),
                )),
                Box::new(var(1)),
                Box::new(var(2)),
            ),
            bin(Operator::Or, flag(0), bin(Operator::Eq, var(1), var(2))),
        ])],
        vec![Kind::Field, Kind::Boolean],
        3,
    )]);
    let flat = compile(source).unwrap();
    assert_eq!(run(&flat, &[1, 10, 20]), Ok(vec![10, 1]));
    assert_eq!(run(&flat, &[0, 10, 20]), Ok(vec![20, 0]));
    assert_eq!(run(&flat, &[1, 20, 20]), Ok(vec![20, 1]));
    assert_eq!(run(&flat, &[0, 20, 20]), Ok(vec![20, 1]));
    // a boolean input has to be 0 or 1
    assert!(matches!(
        run(&flat, &[2, 10, 20]),
        Err(ExecutionError::Failed(_, Reason::UnsatisfiedConstraint))
    ));
}

#[test]
fn typed_and_flat_evaluation_agree() {
    // ((a + 3) * b - a / b) == a
    let e = bin(
        Operator::Eq,
        bin(
            Operator::Sub,
            bin(Operator::Mult, bin(Operator::Add, var(0), num(3)), var(1)),
            bin(Operator::Div, var(0), var(1)),
        ),
        var(0),
    );
    let source = program(vec![function(
        vec![public(0), public(1)],
        vec![TypedStatement::Return(vec![e.clone()])],
        vec![Kind::Boolean],
        2,
    )]);
    let flat = Flattener::flatten(&source).unwrap();
    let f = field();
    for a in [0u64, 1, 2, 5, 1000, P - 1] {
        for b in [1u64, 2, 3, 77, P - 1] {
            let env = vec![Some(Value::Field(a)), Some(Value::Field(b))];
            let typed = e.evaluate(&env, &f).unwrap();
            let expected = match typed {
                Value::Boolean(true) => 1,
                Value::Boolean(false) => 0,
                Value::Field(x) => x,
            };
            assert_eq!(run(&flat, &[a, b]), Ok(vec![expected]));
        }
    }
    let env = vec![Some(Value::Field(3)), Some(Value::Field(0))];
    assert_eq!(e.evaluate(&env, &f), None);
    assert!(run(&flat, &[3, 0]).is_err());
    // 2 * 1 - 0 / 1 == ... : a = 0, b = 1 gives (3 * 1 - 0) == 0, false
    let env = vec![Some(Value::Field(0)), Some(Value::Field(1))];
    assert_eq!(e.evaluate(&env, &f), Some(Value::Boolean(false)));
}

#[test]
fn flattening_names_what_it_cannot_lower() {
    let unknown = program(vec![function(
        vec![],
        vec![TypedStatement::Return(vec![var(3)])],
        vec![Kind::Field],
        1,
    )]);
    assert_eq!(
        Flattener::flatten(&unknown).unwrap_err(),
        FlattenError::UnknownIdentifier(id(3))
    );
    let undefined = program(vec![function(
        vec![],
        vec![TypedStatement::Return(vec![var(0)])],
        vec![Kind::Field],
        1,
    )]);
    assert_eq!(
        Flattener::flatten(&undefined).unwrap_err(),
        FlattenError::UnknownIdentifier(id(0))
    );
    assert!(Flattener::new(Field { modulus: 1 }).is_none());
    assert_eq!(Flattener::new(field()).unwrap().next, 1);
}

#[test]
fn scalar_products_stay_linear() {
    // 3 * a + a * 4 - 2 takes no constraint
    let source = program(vec![function(
        vec![public(0)],
        vec![TypedStatement::Return(vec![bin(
            Operator::Sub,
            bin(
                Operator::Add,
                bin(Operator::Mult, num(3), var(0)),
                bin(Operator::Mult, var(0), num(4)),
            ),
            num(2),
        )])],
        vec![Kind::Field],
        1,
    )]);
    let flat = Flattener::flatten(&source).unwrap();
    assert_eq!(flat.statements.len(), 1);
    assert!(matches!(flat.statements[0], Statement::Definition(..)));
    assert_eq!(run(&flat, &[10]), Ok(vec![68]));
}

/// main(field a, field b) -> bool { return a < b }
fn less() -> TypedProgram {
    program(vec![function(
        vec![public(0), public(1)],
        vec![TypedStatement::Return(vec![bin(Operator::Lt, var(0), var(1))])],
        vec![Kind::Boolean],
        2,
    )])
}

#[test]
fn comparison_by_bits() {
    let flat = compile(less()).unwrap();
    assert!(flat.is_well_formed());
    assert_eq!(run(&flat, &[5, 6]), Ok(vec![1]));
    assert_eq!(run(&flat, &[6, 5]), Ok(vec![0]));
    assert_eq!(run(&flat, &[5, 5]), Ok(vec![0]));
    assert_eq!(run(&flat, &[0, 0]), Ok(vec![0]));
    assert_eq!(run(&flat, &[0, 1]), Ok(vec![1]));
    // the modulus is 2^31 - 1: elements of up to 29 bits can be compared
    let bound = 1u64 << 29;
    assert_eq!(run(&flat, &[bound - 1, bound - 2]), Ok(vec![0]));
    assert_eq!(run(&flat, &[bound - 2, bound - 1]), Ok(vec![1]));
    assert_eq!(run(&flat, &[0, bound - 1]), Ok(vec![1]));
    assert_eq!(run(&flat, &[bound - 1, 0]), Ok(vec![0]));
    // an element that takes more bits stops the directive that decomposes it
    match run(&flat, &[bound, 0]).unwrap_err() {
        ExecutionError::Failed(position, Reason::OutOfRange) => {
            assert!(matches!(
                flat.statements[position],
                Statement::Directive(Directive::Bits(..))
            ));
        }
        other => panic!("{:?}", other),
    }
    assert!(run(&flat, &[0, P - 1]).is_err());
    // three decompositions: the two elements, and their difference with one bit more
    let directives = flat
        .statements
        .iter()
        .filter(|s| matches!(s, Statement::Directive(Directive::Bits(..))))
        .count();
    assert_eq!(directives, 3);
    // one, the inputs, the bits, the variable that is returned and the output
    assert_eq!(flat.variable_count, 1 + 2 + (3 * 29 + 1) + 1 + 1);
}

#[test]
fn typed_and_flat_comparisons_agree() {
    let f = Field::new(23).unwrap();
    // 2^3 = 8 <= 23 / 2: elements of 3 bits can be compared
    assert_eq!(zokrates::typed_absy::comparison_width(&f), 3);
    assert_eq!(zokrates::typed_absy::comparison_bound(&f), 8);
    assert_eq!(zokrates::typed_absy::power_of_two(10), 1024);
    let e = bin(Operator::Lt, var(0), var(1));
    let source = TypedProgram {
        field: f,
        functions: vec![function(
            vec![public(0), public(1)],
            vec![TypedStatement::Return(vec![e.clone()])],
            vec![Kind::Boolean],
            2,
        )],
        main: 0,
    };
    let flat = Flattener::flatten(&source).unwrap();
    for a in 0..23u64 {
        for b in 0..23u64 {
            let env = vec![Some(Value::Field(a)), Some(Value::Field(b))];
            let typed = e.evaluate(&env, &f);
            let flat_outcome = run(&flat, &[a, b]);
            match typed {
                Some(Value::Boolean(t)) => {
                    assert!(a < 8 && b < 8);
                    assert_eq!(t, a < b);
                    assert_eq!(flat_outcome, Ok(vec![if t { 1 } else { 0 }]));
                }
                _ => {
                    assert!(a >= 8 || b >= 8);
                    assert!(flat_outcome.is_err());
                }
            }
        }
    }
    for p in [2u64, 3, 4, 5, 7, 8, 9, 16, 1 << 40, u64::MAX] {
        let f = Field::new(p).unwrap();
        let n = zokrates::typed_absy::comparison_width(&f);
        assert!(1u128 << (n + 1) <= p as u128);
        assert!(1u128 << (n + 2) > p as u128);
    }
}

#[test]
fn the_meaning_of_a_function() {
    let f = field();
    let main = function(
        vec![public(0), Parameter { id: id(1), kind: Kind::Boolean, private: false }],
        vec![
            TypedStatement::Definition(id(2), bin(Operator::Mult, var(0), num(3))),
            TypedStatement::Log(String::from("here")),
            TypedStatement::Condition(flag(1), Expression::Boolean(true)),
            TypedStatement::Return(vec![bin(Operator::Add, var(2), num(1)), flag(1)]),
            TypedStatement::Definition(id(3), num(0)),
        ],
        vec![Kind::Field, Kind::Boolean],
        4,
    );
    assert_eq!(
        main.execute(&vec![Value::Field(5), Value::Boolean(true)], &f),
        Some(vec![Value::Field(16), Value::Boolean(true)])
    );
    // the condition fails
    assert_eq!(main.execute(&vec![Value::Field(5), Value::Boolean(false)], &f), None);
    // an argument of the wrong kind, or too few
    assert_eq!(main.execute(&vec![Value::Field(5), Value::Field(1)], &f), None);
    assert_eq!(main.execute(&vec![Value::Field(5)], &f), None);
    // a variable is assigned once
    let twice = function(
        vec![public(0)],
        vec![TypedStatement::Definition(id(0), num(1)), TypedStatement::Return(vec![])],
        vec![],
        1,
    );
    assert_eq!(twice.execute(&vec![Value::Field(5)], &f), None);
    // loops and calls have no meaning here, nor has a function without return
    assert_eq!(sum_loop().functions[0].execute(&vec![], &f), None);
    let silent = function(vec![], vec![TypedStatement::Definition(id(0), num(1))], vec![], 1);
    assert_eq!(silent.execute(&vec![], &f), None);
    // the unrolled loop has the meaning of the loop
    let unrolled = Unroller::new(10).unroll(sum_loop()).unwrap();
    assert_eq!(unrolled.functions[0].execute(&vec![], &f), Some(vec![Value::Field(3)]));
}

#[test]
fn passes_keep_the_meaning() {
    let f = field();
    let source = calling();
    let arguments = vec![Value::Field(5)];
    let inlined = Inliner::inline(ReturnBinder::bind(Unroller::new(10).unroll(source).unwrap()).unwrap())
        .unwrap();
    let expected = Some(vec![Value::Field(21)]);
    assert_eq!(inlined.functions[0].execute(&arguments, &f), expected);
    let propagated = Propagator::propagate(inlined).unwrap();
    assert_eq!(propagated.functions[0].execute(&arguments, &f), expected);
    let constrained = InputConstrainer::new(Policy::Synthesize).constrain(propagated).unwrap();
    assert_eq!(constrained.functions[0].execute(&arguments, &f), expected);
    let flat = Flattener::flatten(&constrained).unwrap();
    assert_eq!(run(&flat, &[5]), Ok(vec![21]));
}
