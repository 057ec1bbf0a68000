use zokrates::field::Field;
use zokrates::ir::interpreter::Interpreter;
use zokrates::ir::lincomb::{LinComb, Term, Variable};
use zokrates::ir::program::Program;
use zokrates::ir::statement::{Directive, Statement};
use zokrates::static_analysis::flat_propagation::FlatPropagator;
use zokrates::static_analysis::unconstrained_vars::UnconstrainedVariableDetector;
use zokrates::static_analysis::Analyse;

fn var(id: usize) -> LinComb {
    LinComb::variable(Variable::new(id))
}

fn terms(list: &[(usize, u64)]) -> LinComb {
    LinComb {
        terms: list.iter().map(|(id, coeff)| Term { var: Variable::new(*id), coeff: *coeff }).collect(),
    }
}

fn field() -> Field {
    Field::new(101).unwrap()
}

fn show(program: &Program) -> Vec<String> {
    program.statements.iter().map(|s| format!("{:?}", s)).collect()
}

fn outputs(program: &Program, inputs: &[u64]) -> Option<Vec<u64>> {
    let witness = Interpreter::default().execute(program, &inputs.to_vec()).ok()?;
    witness.return_values(program)
}

/// x2 = 3; x3 = x1; x4 = x2 * x3 + ...; out x5 = x4 + x2
fn foldable() -> Program {
    Program::new(
        field(),
        vec![false],
        8,
        vec![
            Statement::Definition(Variable::new(2), terms(&[(0, 3)])),
            Statement::Definition(Variable::new(3), var(1)),
            Statement::Directive(Directive::Product(Variable::new(4), var(2), var(3))),
            Statement::Constraint(var(2), var(3), var(4)),
            Statement::Directive(Directive::Product(Variable::new(6), var(2), var(2))),
            Statement::Constraint(var(2), var(2), var(6)),
            Statement::Directive(Directive::Quotient(Variable::new(7), var(6), var(2))),
            Statement::Constraint(var(2), var(7), var(6)),
            Statement::Definition(Variable::new(5), terms(&[(2, 1), (4, 1), (7, 1)])),
        ],
        vec![Variable::new(5)],
        false,
    )
    .unwrap()
}

#[test]
fn constants_and_copies_are_folded() {
    let source = foldable();
    let folded = FlatPropagator::propagate(foldable());
    assert!(folded.is_well_formed());
    // x4 = 3 * x1 stays, as a product by a constant; everything on constants is gone
    assert_eq!(folded.statements.len(), 3);
    assert!(matches!(&folded.statements[0], Statement::Directive(Directive::Product(v, a, b))
        if v.id == 4 && a.terms == terms(&[(0, 3)]).terms && b.terms == var(1).terms));
    assert!(matches!(&folded.statements[1], Statement::Constraint(a, b, c)
        if a.terms == terms(&[(0, 3)]).terms && b.terms == var(1).terms && c.terms == var(4).terms));
    assert!(matches!(&folded.statements[2], Statement::Definition(v, e)
        if v.id == 5 && e.terms == terms(&[(0, 6), (4, 1)]).terms));
    for x in [0u64, 1, 2, 50, 100] {
        assert_eq!(outputs(&folded, &[x]), outputs(&source, &[x]));
        assert_eq!(outputs(&folded, &[x]), Some(vec![(6 + 3 * x) % 101]));
    }
}

#[test]
fn propagation_is_idempotent() {
    let once = FlatPropagator::propagate(foldable());
    let shown = show(&once);
    let twice = FlatPropagator::propagate(once);
    assert_eq!(show(&twice), shown);
    assert_eq!(twice.variable_count, 8);
    assert_eq!(twice.private, vec![false]);
}

#[test]
fn a_violated_constraint_between_constants_stays() {
    let program = Program::new(
        field(),
        vec![],
        2,
        vec![
            Statement::Definition(Variable::new(1), terms(&[(0, 2)])),
            Statement::Constraint(var(1), var(1), terms(&[(0, 5)])),
        ],
        vec![],
        false,
    )
    .unwrap();
    let folded = FlatPropagator::propagate(program);
    assert_eq!(folded.statements.len(), 1);
    assert!(Interpreter::default().execute(&folded, &vec![]).is_err());
}

#[test]
fn outputs_keep_their_definitions() {
    let program = Program::new(
        field(),
        vec![],
        3,
        vec![
            Statement::Definition(Variable::new(1), terms(&[(0, 7)])),
            Statement::Definition(Variable::new(2), var(1)),
        ],
        vec![Variable::new(2)],
        false,
    )
    .unwrap();
    let folded = FlatPropagator::propagate(program);
    assert_eq!(folded.statements.len(), 1);
    assert!(matches!(&folded.statements[0], Statement::Definition(v, e)
        if v.id == 2 && e.terms == terms(&[(0, 7)]).terms));
    assert_eq!(outputs(&folded, &[]), Some(vec![7]));
}

/// x2 = x1 + 1 (dead); x3 = x1 * x1 (the output); x4 = 1 / x1 (dead); a zero test of x2 (dead)
fn with_dead_code() -> Program {
    Program::new(
        field(),
        vec![true],
        7,
        vec![
            Statement::Definition(Variable::new(2), terms(&[(0, 1), (1, 1)])),
            Statement::Directive(Directive::Product(Variable::new(3), var(1), var(1))),
            Statement::Constraint(var(1), var(1), var(3)),
            Statement::Directive(Directive::Quotient(Variable::new(4), terms(&[(0, 1)]), var(1))),
            Statement::Directive(Directive::NonZero(Variable::new(5), Variable::new(6), var(2))),
        ],
        vec![Variable::new(3)],
        false,
    )
    .unwrap()
}

#[test]
fn statements_that_nothing_uses_are_removed() {
    let source = with_dead_code();
    let cleaned = UnconstrainedVariableDetector::detect(with_dead_code());
    assert!(cleaned.is_well_formed());
    assert!(cleaned.statements.len() < source.statements.len());
    assert!(matches!(&cleaned.statements[0], Statement::Directive(Directive::Product(v, _, _)) if v.id == 3));
    assert!(matches!(&cleaned.statements[1], Statement::Constraint(..)));
    // what is left has the values it had
    let interpreter = Interpreter::default();
    for x in [1u64, 2, 3, 100] {
        let whole = interpreter.execute(&source, &vec![x]);
        let part = interpreter.execute(&cleaned, &vec![x]).unwrap();
        if let Ok(whole) = whole {
            for (a, b) in part.values.iter().zip(whole.values.iter()) {
                if a.is_some() {
                    assert_eq!(a, b);
                }
            }
            assert_eq!(part.return_values(&cleaned), whole.return_values(&source));
        }
        assert_eq!(part.return_values(&cleaned), Some(vec![x * x % 101]));
    }
    // the division that failed is gone with the quotient that nothing used
    assert!(interpreter.execute(&cleaned, &vec![0]).is_ok());
}

#[test]
fn constraints_are_never_removed() {
    let program = Program::new(
        field(),
        vec![true],
        4,
        vec![
            Statement::Definition(Variable::new(2), terms(&[(1, 2)])),
            Statement::Constraint(var(2), var(2), terms(&[(0, 16)])),
            Statement::Definition(Variable::new(3), var(2)),
        ],
        vec![],
        false,
    )
    .unwrap();
    let cleaned = UnconstrainedVariableDetector::detect(program);
    assert_eq!(cleaned.statements.len(), 2);
    assert!(matches!(&cleaned.statements[0], Statement::Definition(v, _) if v.id == 2));
    assert!(matches!(&cleaned.statements[1], Statement::Constraint(..)));
    assert!(Interpreter::default().execute(&cleaned, &vec![2]).is_ok());
    assert!(Interpreter::default().execute(&cleaned, &vec![3]).is_err());
}

#[test]
fn analysis_of_a_flat_program() {
    let analysed = foldable().analyse().unwrap();
    assert_eq!(analysed.statements.len(), 3);
    let analysed = with_dead_code().analyse().unwrap();
    assert_eq!(outputs(&analysed, &[5]), Some(vec![25]));
}

#[test]
fn bits_are_kept_where_one_of_them_is_used() {
    let program = |outputs: Vec<Variable>| {
        Program::new(
            field(),
            vec![false],
            8,
            vec![
                Statement::Definition(Variable::new(2), terms(&[(0, 5)])),
                Statement::Directive(Directive::Bits(Variable::new(3), 4, var(2))),
                Statement::Definition(Variable::new(7), var(1)),
            ],
            outputs,
            false,
        )
        .unwrap()
    };
    let used = UnconstrainedVariableDetector::detect(program(vec![Variable::new(5)]));
    assert_eq!(used.statements.len(), 2);
    assert_eq!(outputs(&used, &[9]), Some(vec![1]));
    let unused = UnconstrainedVariableDetector::detect(program(vec![Variable::new(7)]));
    assert_eq!(unused.statements.len(), 1);
    assert_eq!(outputs(&unused, &[9]), Some(vec![9]));
    // the constant is put into the directive
    let folded = FlatPropagator::propagate(program(vec![Variable::new(3), Variable::new(5)]));
    assert_eq!(folded.statements.len(), 1);
    assert!(matches!(&folded.statements[0], Statement::Directive(Directive::Bits(v, 4, e))
        if v.id == 3 && e.terms == terms(&[(0, 5)]).terms));
    assert_eq!(outputs(&folded, &[9]), Some(vec![1, 1]));
}
