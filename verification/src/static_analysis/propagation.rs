//! Constant folding and copy propagation in typed programs.
//!
//! An operator on constants is replaced by its value, a choice on a
//! constant condition by the branch that is taken, and a variable that is
//! defined as a constant or as another variable by that definition, which
//! is then dropped. A condition between equal constants is dropped.

use crate::field::{inverse_of, invertible, Field};
use crate::typed_absy::{
    lemma_typed_view, lemma_typed_view_push, typed_view, Expression, Identifier, Operator,
    SpecTypedProgram, SpecTypedStatement, TypedProgram, TypedStatement,
};
use vstd::arithmetic::div_mod::{lemma_mod_bound, lemma_mod_twice};
use vstd::prelude::*;

verus! {

/// What is known of a variable: the constant or the variable that it is
/// defined as.
pub open spec fn known_as(known: Seq<Option<Expression>>, id: Identifier) -> Option<Expression> {
    if id.id < known.len() {
        known[id.id as int]
    } else {
        None
    }
}

/// An operator on two folded operands: its value where both are
/// constants, the operator elsewhere.
pub open spec fn fold_binary(op: Operator, a: Expression, b: Expression, p: int) -> Expression {
    match (op, a, b) {
        (Operator::Add, Expression::Number(x), Expression::Number(y)) => Expression::Number(
            ((x as int % p + y as int % p) % p) as u64,
        ),
        (Operator::Sub, Expression::Number(x), Expression::Number(y)) => Expression::Number(
            ((x as int % p - y as int % p) % p) as u64,
        ),
        (Operator::Mult, Expression::Number(x), Expression::Number(y)) => Expression::Number(
            (((x as int % p) * (y as int % p)) % p) as u64,
        ),
        (Operator::Div, Expression::Number(x), Expression::Number(y)) => if invertible(
            y as int % p,
            p,
        ) {
            Expression::Number((((x as int % p) * inverse_of(y as int % p, p)) % p) as u64)
        } else {
            Expression::Binary(op, Box::new(a), Box::new(b))
        },
        (Operator::Eq, Expression::Number(x), Expression::Number(y)) => Expression::Boolean(
            x as int % p == y as int % p,
        ),
        (Operator::And, Expression::Boolean(x), Expression::Boolean(y)) => Expression::Boolean(
            x && y,
        ),
        (Operator::Or, Expression::Boolean(x), Expression::Boolean(y)) => Expression::Boolean(
            x || y,
        ),
        _ => Expression::Binary(op, Box::new(a), Box::new(b)),
    }
}

/// A negation of a folded operand.
pub open spec fn fold_not(a: Expression) -> Expression {
    match a {
        Expression::Boolean(b) => Expression::Boolean(!b),
        _ => Expression::Not(Box::new(a)),
    }
}

/// A choice between folded branches on a folded condition.
pub open spec fn fold_choice(c: Expression, a: Expression, b: Expression) -> Expression {
    match c {
        Expression::Boolean(t) => if t {
            a
        } else {
            b
        },
        _ => Expression::IfElse(Box::new(c), Box::new(a), Box::new(b)),
    }
}

/// The expression with everything that is known folded in.
pub open spec fn fold(e: Expression, known: Seq<Option<Expression>>, p: int) -> Expression
    decreases e,
{
    match e {
        Expression::Number(c) => Expression::Number((c as int % p) as u64),
        Expression::Boolean(b) => e,
        Expression::Variable(id) => match known_as(known, id) {
            Some(r) => r,
            None => e,
        },
        Expression::Flag(id) => match known_as(known, id) {
            Some(r) => r,
            None => e,
        },
        Expression::Binary(op, a, b) => fold_binary(op, fold(*a, known, p), fold(*b, known, p), p),
        Expression::Not(a) => fold_not(fold(*a, known, p)),
        Expression::IfElse(c, a, b) => fold_choice(
            fold(*c, known, p),
            fold(*a, known, p),
            fold(*b, known, p),
        ),
    }
}

/// A constant or a variable.
pub open spec fn is_value(e: Expression) -> bool {
    e is Number || e is Boolean || e is Variable || e is Flag
}

/// Nothing is known of any of `n` variables.
pub open spec fn unknown(n: int) -> Seq<Option<Expression>> {
    Seq::new(n as nat, |i: int| None::<Expression>)
}

/// Folding finds nothing to do in the expression.
pub open spec fn normal(e: Expression, p: int) -> bool {
    forall|n: int| #[trigger] fold(e, unknown(n), p) == e
}

/// Everything known is a value in which folding finds nothing to do.
pub open spec fn known_wf(known: Seq<Option<Expression>>, p: int) -> bool {
    forall|i: int|
        0 <= i < known.len() && (#[trigger] known[i]) is Some ==> is_value(known[i].unwrap())
            && normal(known[i].unwrap(), p)
}

/// Folding leaves nothing to fold.
pub proof fn lemma_fold_normal(e: Expression, known: Seq<Option<Expression>>, p: int)
    requires
        0 < p <= u64::MAX,
        known_wf(known, p),
    ensures
        normal(fold(e, known, p), p),
    decreases e,
{
    let r = fold(e, known, p);
    assert forall|n: int| #[trigger] fold(r, unknown(n), p) == r by {
        lemma_fold_again(e, known, p, n);
    }
}

proof fn lemma_number_normal(z: int, p: int, n: int)
    requires
        0 < p <= u64::MAX,
    ensures
        fold(Expression::Number((z % p) as u64), unknown(n), p) == Expression::Number(
            (z % p) as u64,
        ),
{
    lemma_mod_bound(z, p);
    lemma_mod_twice(z, p);
}

proof fn lemma_fold_again(e: Expression, known: Seq<Option<Expression>>, p: int, n: int)
    requires
        0 < p <= u64::MAX,
        known_wf(known, p),
    ensures
        fold(fold(e, known, p), unknown(n), p) == fold(e, known, p),
    decreases e,
{
    let none = unknown(n);
    match e {
        Expression::Number(c) => {
            lemma_number_normal(c as int, p, n);
        },
        Expression::Boolean(b) => {},
        Expression::Variable(id) => {
            if known_as(known, id) is Some {
                assert(normal(known[id.id as int].unwrap(), p));
            }
        },
        Expression::Flag(id) => {
            if known_as(known, id) is Some {
                assert(normal(known[id.id as int].unwrap(), p));
            }
        },
        Expression::Binary(op, a, b) => {
            lemma_fold_again(*a, known, p, n);
            lemma_fold_again(*b, known, p, n);
            let fa = fold(*a, known, p);
            let fb = fold(*b, known, p);
            match (fa, fb) {
                (Expression::Number(x), Expression::Number(y)) => {
                    let xv = x as int % p;
                    let yv = y as int % p;
                    lemma_number_normal(xv + yv, p, n);
                    lemma_number_normal(xv - yv, p, n);
                    lemma_number_normal(xv * yv, p, n);
                    lemma_number_normal(xv * inverse_of(yv, p), p, n);
                },
                _ => {},
            }
        },
        Expression::Not(a) => {
            lemma_fold_again(*a, known, p, n);
        },
        Expression::IfElse(c, a, b) => {
            lemma_fold_again(*c, known, p, n);
            lemma_fold_again(*a, known, p, n);
            lemma_fold_again(*b, known, p, n);
        },
    }
}

} // verus!

verus! {

/// The expressions, each folded.
pub open spec fn fold_each(es: Seq<Expression>, known: Seq<Option<Expression>>, p: int) -> Seq<
    Expression,
> {
    Seq::new(es.len(), |k: int| fold(es[k], known, p))
}

/// The statement with its expressions folded. Loops and calls stay as
/// they are.
pub open spec fn rewritten(s: SpecTypedStatement, known: Seq<Option<Expression>>, p: int) -> SpecTypedStatement {
    match s {
        SpecTypedStatement::Definition(id, e) => SpecTypedStatement::Definition(
            id,
            fold(e, known, p),
        ),
        SpecTypedStatement::Condition(a, b) => SpecTypedStatement::Condition(
            fold(a, known, p),
            fold(b, known, p),
        ),
        SpecTypedStatement::Return(es) => SpecTypedStatement::Return(fold_each(es, known, p)),
        _ => s,
    }
}

/// A folded statement that has nothing left to say: the definition of a
/// variable as a value, or a condition between two equal constants.
pub open spec fn redundant(s: SpecTypedStatement, n: int) -> bool {
    match s {
        SpecTypedStatement::Definition(id, e) => is_value(e) && id.id < n,
        SpecTypedStatement::Condition(a, b) => (a is Number || a is Boolean) && a == b,
        _ => false,
    }
}

/// What is known after a redundant statement.
pub open spec fn learn(s: SpecTypedStatement, known: Seq<Option<Expression>>) -> Seq<
    Option<Expression>,
> {
    match s {
        SpecTypedStatement::Definition(id, e) => if id.id < known.len() {
            known.update(id.id as int, Some(e))
        } else {
            known
        },
        _ => known,
    }
}

/// The statements that are left, starting from what is already known.
pub open spec fn propagate_statements(
    s: Seq<SpecTypedStatement>,
    known: Seq<Option<Expression>>,
    p: int,
) -> Seq<SpecTypedStatement>
    decreases s.len(),
{
    if s.len() == 0 {
        Seq::<SpecTypedStatement>::empty()
    } else {
        let r = rewritten(s[0], known, p);
        if redundant(r, known.len() as int) {
            propagate_statements(s.drop_first(), learn(r, known), p)
        } else {
            seq![r] + propagate_statements(s.drop_first(), known, p)
        }
    }
}

/// The outcome of propagation: the program with the statements of its
/// main function folded, or the position of a loop or call in it.
pub open spec fn propagated(program: SpecTypedProgram) -> Result<
    SpecTypedProgram,
    crate::static_analysis::AnalysisError,
> {
    let main = program.main_function();
    match crate::typed_absy::first_unexpected(main.statements) {
        Some(k) => Err(crate::static_analysis::AnalysisError::UnexpectedStatement(k)),
        None => Ok(
            program.with_main_statements(
                propagate_statements(
                    main.statements,
                    unknown(main.variable_count as int),
                    program.field.modulus as int,
                ),
            ),
        ),
    }
}

proof fn lemma_fold_each_again(es: Seq<Expression>, known: Seq<Option<Expression>>, p: int, n: int)
    requires
        0 < p <= u64::MAX,
        known_wf(known, p),
    ensures
        fold_each(fold_each(es, known, p), unknown(n), p) == fold_each(es, known, p),
{
    assert forall|k: int| 0 <= k < es.len() implies fold(
        #[trigger] fold_each(es, known, p)[k],
        unknown(n),
        p,
    ) == fold_each(es, known, p)[k] by {
        lemma_fold_again(es[k], known, p, n);
    }
    assert(fold_each(fold_each(es, known, p), unknown(n), p) =~= fold_each(es, known, p));
}

/// What propagation leaves has no loop and no call, and propagation
/// leaves it unchanged.
proof fn lemma_propagate_fixed(
    s: Seq<SpecTypedStatement>,
    known: Seq<Option<Expression>>,
    p: int,
    n: int,
)
    requires
        0 < p <= u64::MAX,
        known_wf(known, p),
        known.len() == n,
        forall|k: int| 0 <= k < s.len() ==> crate::typed_absy::straight(#[trigger] s[k]),
    ensures
        forall|k: int|
            0 <= k < propagate_statements(s, known, p).len() ==> crate::typed_absy::straight(
                #[trigger] propagate_statements(s, known, p)[k],
            ),
        propagate_statements(propagate_statements(s, known, p), unknown(n), p)
            == propagate_statements(s, known, p),
    decreases s.len(),
{
    if s.len() > 0 {
        let r = rewritten(s[0], known, p);
        let rest = s.drop_first();
        assert(crate::typed_absy::straight(s[0]));
        assert forall|k: int| 0 <= k < rest.len() implies crate::typed_absy::straight(
            #[trigger] rest[k],
        ) by {
            assert(rest[k] == s[k + 1]);
        }
        if redundant(r, n) {
            let next = learn(r, known);
            assert(known_wf(next, p)) by {
                match r {
                    SpecTypedStatement::Definition(id, e) => {
                        lemma_fold_normal(s[0]->Definition_1, known, p);
                        assert forall|i: int|
                            0 <= i < next.len() && (#[trigger] next[i]) is Some implies is_value(
                            next[i].unwrap(),
                        ) && normal(next[i].unwrap(), p) by {
                            if i != id.id {
                                assert(next[i] == known[i]);
                            }
                        }
                    },
                    _ => {},
                }
            }
            lemma_propagate_fixed(rest, next, p, n);
        } else {
            lemma_propagate_fixed(rest, known, p, n);
            let tail = propagate_statements(rest, known, p);
            let out = seq![r] + tail;
            assert(out[0] == r);
            assert(out.drop_first() == tail);
            assert forall|k: int| 0 <= k < out.len() implies crate::typed_absy::straight(
                #[trigger] out[k],
            ) by {
                if k > 0 {
                    assert(out[k] == tail[k - 1]);
                }
            }
            // a second look at `r` finds it as it is
            match s[0] {
                SpecTypedStatement::Definition(id, e) => {
                    lemma_fold_again(e, known, p, n);
                },
                SpecTypedStatement::Condition(a, b) => {
                    lemma_fold_again(a, known, p, n);
                    lemma_fold_again(b, known, p, n);
                },
                SpecTypedStatement::Return(es) => {
                    lemma_fold_each_again(es, known, p, n);
                },
                _ => {},
            }
            assert(rewritten(r, unknown(n), p) == r);
        }
    }
}

/// Propagation is idempotent: a second pass over a propagated program
/// finds nothing to do and returns it as it is.
pub proof fn typed_propagation_is_idempotent(program: SpecTypedProgram)
    requires
        program.wf(),
        propagated(program) is Ok,
    ensures
        propagated(propagated(program).unwrap()) == propagated(program),
{
    let main = program.main_function();
    let p = program.field.modulus as int;
    let n = main.variable_count as int;
    crate::typed_absy::lemma_all_straight(main.statements);
    lemma_propagate_fixed(main.statements, unknown(n), p, n);
    let q = propagated(program).unwrap();
    let out = propagate_statements(main.statements, unknown(n), p);
    crate::typed_absy::lemma_none_unexpected(out);
    assert(q.main_function().statements == out);
    assert(q.with_main_statements(out).functions =~= q.functions);
}

} // verus!

verus! {

/// An operator on two folded operands; see [`fold_binary`].
fn fold_operator(op: Operator, a: Expression, b: Expression, field: &Field) -> (r: Expression)
    requires
        field.wf(),
    ensures
        r == fold_binary(op, a, b, field.modulus as int),
{
    let ghost p = field.modulus as int;
    match (&a, &b) {
        (Expression::Number(x), Expression::Number(y)) => {
            let xv = field.reduce(*x);
            let yv = field.reduce(*y);
            match op {
                Operator::Add => {
                    return Expression::Number(field.add(xv, yv));
                },
                Operator::Sub => {
                    return Expression::Number(field.sub(xv, yv));
                },
                Operator::Mult => {
                    return Expression::Number(field.mul(xv, yv));
                },
                Operator::Div => {
                    match field.div(xv, yv) {
                        Some(q) => {
                            return Expression::Number(q);
                        },
                        None => {},
                    }
                },
                Operator::Eq => {
                    return Expression::Boolean(xv == yv);
                },
                _ => {},
            }
        },
        (Expression::Boolean(x), Expression::Boolean(y)) => {
            match op {
                Operator::And => {
                    return Expression::Boolean(*x && *y);
                },
                Operator::Or => {
                    return Expression::Boolean(*x || *y);
                },
                _ => {},
            }
        },
        _ => {},
    }
    Expression::Binary(op, Box::new(a), Box::new(b))
}

/// What is known of a variable, or the expression itself.
fn replace(e: &Expression, id: Identifier, known: &Vec<Option<Expression>>) -> (r: Expression)
    ensures
        r == match known_as(known@, id) {
            Some(x) => x,
            None => *e,
        },
{
    if id.id < known.len() {
        match &known[id.id] {
            Some(x) => x.clone(),
            None => e.clone(),
        }
    } else {
        e.clone()
    }
}

/// The expression with everything that is known folded in; see [`fold`].
pub fn fold_expression(e: &Expression, known: &Vec<Option<Expression>>, field: &Field) -> (r:
    Expression)
    requires
        field.wf(),
    ensures
        r == fold(*e, known@, field.modulus as int),
    decreases *e,
{
    match e {
        Expression::Number(c) => Expression::Number(field.reduce(*c)),
        Expression::Boolean(b) => Expression::Boolean(*b),
        Expression::Variable(id) => replace(e, *id, known),
        Expression::Flag(id) => replace(e, *id, known),
        Expression::Binary(op, a, b) => {
            let fa = fold_expression(a, known, field);
            let fb = fold_expression(b, known, field);
            fold_operator(*op, fa, fb, field)
        },
        Expression::Not(a) => {
            let fa = fold_expression(a, known, field);
            match fa {
                Expression::Boolean(b) => Expression::Boolean(!b),
                _ => Expression::Not(Box::new(fa)),
            }
        },
        Expression::IfElse(c, a, b) => {
            let fc = fold_expression(c, known, field);
            let fa = fold_expression(a, known, field);
            let fb = fold_expression(b, known, field);
            match fc {
                Expression::Boolean(t) => if t {
                    fa
                } else {
                    fb
                },
                _ => Expression::IfElse(Box::new(fc), Box::new(fa), Box::new(fb)),
            }
        },
    }
}

/// The expressions, each folded.
fn fold_expressions(es: &Vec<Expression>, known: &Vec<Option<Expression>>, field: &Field) -> (r:
    Vec<Expression>)
    requires
        field.wf(),
    ensures
        r@ == fold_each(es@, known@, field.modulus as int),
{
    let mut out: Vec<Expression> = Vec::new();
    let mut k: usize = 0;
    while k < es.len()
        invariant
            k <= es.len(),
            field.wf(),
            out.len() == k,
            forall|j: int| 0 <= j < k ==> out@[j] == fold(es@[j], known@, field.modulus as int),
        decreases es.len() - k,
    {
        out.push(fold_expression(&es[k], known, field));
        k += 1;
    }
    assert(out@ =~= fold_each(es@, known@, field.modulus as int));
    out
}

/// Whether two constants are the same.
fn same_constant(a: &Expression, b: &Expression) -> (r: bool)
    ensures
        r == ((*a is Number || *a is Boolean) && *a == *b),
{
    match (a, b) {
        (Expression::Number(x), Expression::Number(y)) => *x == *y,
        (Expression::Boolean(x), Expression::Boolean(y)) => *x == *y,
        _ => false,
    }
}

fn value(e: &Expression) -> (r: bool)
    ensures
        r == is_value(*e),
{
    match e {
        Expression::Number(_) => true,
        Expression::Boolean(_) => true,
        Expression::Variable(_) => true,
        Expression::Flag(_) => true,
        _ => false,
    }
}

/// Folds constants and propagates copies in typed programs.
#[derive(Clone, Copy, Debug)]
pub struct Propagator {}

impl Propagator {
    /// Folds what is known into the statements of the main function and
    /// drops those that have nothing left to say. A loop or a call in
    /// the main function is an error, and the first one is named.
    pub fn propagate(program: TypedProgram) -> (r: Result<
        TypedProgram,
        crate::static_analysis::AnalysisError,
    >)
        requires
            program@.wf(),
        ensures
            match r {
                Ok(q) => propagated(program@) == Ok::<
                    SpecTypedProgram,
                    crate::static_analysis::AnalysisError,
                >(q@) && q@.wf(),
                Err(e) => propagated(program@) == Err::<
                    SpecTypedProgram,
                    crate::static_analysis::AnalysisError,
                >(e),
            },
    {
        let main = program.main_function();
        match crate::typed_absy::find_unexpected(&main.statements) {
            Some(k) => {
                return Err(crate::static_analysis::AnalysisError::UnexpectedStatement(k));
            },
            None => {},
        }
        let ghost s = main@.statements;
        let ghost p = program.field.modulus as int;
        let n = main.variable_count;
        let mut known: Vec<Option<Expression>> = Vec::new();
        while known.len() < n
            invariant
                known.len() <= n,
                forall|i: int| 0 <= i < known.len() ==> (#[trigger] known@[i]) is None,
            decreases n - known.len(),
        {
            known.push(None);
        }
        assert(known@ =~= unknown(n as int));
        let mut out: Vec<TypedStatement> = Vec::new();
        let mut k: usize = 0;
        proof {
            lemma_typed_view(main.statements@);
            crate::typed_absy::lemma_all_straight(s);
            assert(s.skip(0) == s);
            assert(typed_view(out@) + propagate_statements(s, known@, p) == propagate_statements(
                s,
                unknown(n as int),
                p,
            ));
        }
        while k < main.statements.len()
            invariant
                k <= main.statements.len(),
                program@.wf(),
                p == program.field.modulus as int,
                s == typed_view(main.statements@),
                s.len() == main.statements.len(),
                forall|j: int| 0 <= j < s.len() ==> s[j] == (#[trigger] main.statements@[j])@,
                forall|j: int| 0 <= j < s.len() ==> crate::typed_absy::straight(#[trigger] s[j]),
                known.len() == n,
                typed_view(out@) + propagate_statements(s.skip(k as int), known@, p)
                    == propagate_statements(s, unknown(n as int), p),
            decreases main.statements.len() - k,
        {
            let ghost rest = s.skip(k as int);
            let ghost before = out@;
            let ghost knew = known@;
            proof {
                assert(rest[0] == s[k as int]);
                assert(rest.drop_first() == s.skip(k + 1));
                assert(crate::typed_absy::straight(s[k as int]));
            }
            let ghost tail = propagate_statements(s.skip(k + 1), knew, p);
            match &main.statements[k] {
                TypedStatement::Definition(id, e) => {
                    let folded = fold_expression(e, &known, &program.field);
                    if value(&folded) && id.id < n {
                        known.set(id.id, Some(folded));
                    } else {
                        let emitted = TypedStatement::Definition(*id, folded);
                        out.push(emitted);
                        proof {
                            lemma_typed_view_push(before, emitted);
                            assert(typed_view(out@) + tail == typed_view(before) + (seq![emitted@]
                                + tail));
                        }
                    }
                },
                TypedStatement::Condition(a, b) => {
                    let fa = fold_expression(a, &known, &program.field);
                    let fb = fold_expression(b, &known, &program.field);
                    if !same_constant(&fa, &fb) {
                        let emitted = TypedStatement::Condition(fa, fb);
                        out.push(emitted);
                        proof {
                            lemma_typed_view_push(before, emitted);
                            assert(typed_view(out@) + tail == typed_view(before) + (seq![emitted@]
                                + tail));
                        }
                    }
                },
                TypedStatement::Return(es) => {
                    let emitted = TypedStatement::Return(
                        fold_expressions(es, &known, &program.field),
                    );
                    out.push(emitted);
                    proof {
                        lemma_typed_view_push(before, emitted);
                        assert(typed_view(out@) + tail == typed_view(before) + (seq![emitted@]
                            + tail));
                    }
                },
                other => {
                    let emitted = other.clone();
                    out.push(emitted);
                    proof {
                        lemma_typed_view_push(before, emitted);
                        assert(typed_view(out@) + tail == typed_view(before) + (seq![emitted@]
                            + tail));
                    }
                },
            }
            k += 1;
        }
        proof {
            assert(s.skip(k as int) == Seq::<SpecTypedStatement>::empty());
            assert(typed_view(out@) + Seq::<SpecTypedStatement>::empty() == typed_view(out@));
        }
        Ok(program.with_main_statements(out))
    }
}

} // verus!
