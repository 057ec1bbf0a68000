//! Folding and propagation in typed programs keep what they compute.

use crate::field::inverse_of;
use crate::static_analysis::propagation::{
    fold, fold_binary, fold_each, known_as, learn, propagate_statements, propagated, redundant,
    rewritten, unknown,
};
use crate::typed_absy::{
    bind_arguments, empty_env, env_within, evaluate, evaluate_each, lemma_evaluate_within, lookup,
    meaning, operate, outputs_of, value_within, Expression, Identifier, Operator, Parameter,
    SpecTypedProgram, SpecTypedStatement, Value,
};
use vstd::arithmetic::div_mod::{lemma_mod_bound, lemma_mod_twice};
use vstd::prelude::*;

verus! {

/// What is known follows a run: `env` is the environment of the whole
/// function, `part` that of the propagated function. Whatever a
/// variable is known as has, in `part`, the value that the variable has
/// in `env`; every other variable has the same value in both.
pub open spec fn follows(
    known: Seq<Option<Expression>>,
    env: Seq<Option<Value>>,
    part: Seq<Option<Value>>,
    p: int,
) -> bool {
    &&& part.len() == env.len()
    &&& forall|id: Identifier|
        (#[trigger] known_as(known, id)) is None ==> lookup(part, id) == lookup(env, id)
    &&& forall|id: Identifier|
        (#[trigger] known_as(known, id)) is Some ==> lookup(env, id) is Some && evaluate(
            known_as(known, id).unwrap(),
            part,
            p,
        ) == lookup(env, id)
}

/// What is known holds in the environment: whatever a variable is known
/// as has the variable's value.
pub open spec fn agrees(known: Seq<Option<Expression>>, env: Seq<Option<Value>>, p: int) -> bool {
    follows(known, env, env, p)
}

/// An operator on folded operands has the value of the operator.
proof fn lemma_fold_binary(
    op: Operator,
    a: Expression,
    b: Expression,
    env: Seq<Option<Value>>,
    p: int,
)
    requires
        2 <= p <= u64::MAX,
        env_within(env, p),
        evaluate(a, env, p) is Some,
        evaluate(b, env, p) is Some,
        operate(op, evaluate(a, env, p).unwrap(), evaluate(b, env, p).unwrap(), p) is Some,
    ensures
        evaluate(fold_binary(op, a, b, p), env, p) == operate(
            op,
            evaluate(a, env, p).unwrap(),
            evaluate(b, env, p).unwrap(),
            p,
        ),
{
    match (a, b) {
        (Expression::Number(x), Expression::Number(y)) => {
            let xv = x as int % p;
            let yv = y as int % p;
            lemma_mod_bound(x as int, p);
            lemma_mod_bound(y as int, p);
            lemma_mod_bound(xv + yv, p);
            lemma_mod_bound(xv - yv, p);
            lemma_mod_bound(xv * yv, p);
            lemma_mod_bound(xv * inverse_of(yv, p), p);
            lemma_mod_twice(xv + yv, p);
            lemma_mod_twice(xv - yv, p);
            lemma_mod_twice(xv * yv, p);
            lemma_mod_twice(xv * inverse_of(yv, p), p);
        },
        _ => {},
    }
}

/// A folded expression has, in the part, the value that the expression
/// has in the whole.
pub proof fn lemma_fold_follows(
    e: Expression,
    known: Seq<Option<Expression>>,
    env: Seq<Option<Value>>,
    part: Seq<Option<Value>>,
    p: int,
)
    requires
        2 <= p <= u64::MAX,
        env_within(part, p),
        follows(known, env, part, p),
        evaluate(e, env, p) is Some,
    ensures
        evaluate(fold(e, known, p), part, p) == evaluate(e, env, p),
    decreases e,
{
    match e {
        Expression::Number(c) => {
            lemma_mod_bound(c as int, p);
            lemma_mod_twice(c as int, p);
        },
        Expression::Boolean(_) => {},
        Expression::Variable(id) => {
            if known_as(known, id) is Some {
                assert(evaluate(known_as(known, id).unwrap(), part, p) == lookup(env, id));
            } else {
                assert(lookup(part, id) == lookup(env, id));
            }
        },
        Expression::Flag(id) => {
            if known_as(known, id) is Some {
                assert(evaluate(known_as(known, id).unwrap(), part, p) == lookup(env, id));
            } else {
                assert(lookup(part, id) == lookup(env, id));
            }
        },
        Expression::Binary(op, a, b) => {
            lemma_fold_follows(*a, known, env, part, p);
            lemma_fold_follows(*b, known, env, part, p);
            lemma_fold_binary(op, fold(*a, known, p), fold(*b, known, p), part, p);
        },
        Expression::Not(a) => {
            lemma_fold_follows(*a, known, env, part, p);
        },
        Expression::IfElse(c, a, b) => {
            lemma_fold_follows(*c, known, env, part, p);
            lemma_fold_follows(*a, known, env, part, p);
            lemma_fold_follows(*b, known, env, part, p);
        },
    }
}

/// Folding is sound: an expression that has a value keeps it when what
/// is known is folded in.
pub proof fn folding_is_sound(
    e: Expression,
    known: Seq<Option<Expression>>,
    env: Seq<Option<Value>>,
    p: int,
)
    requires
        2 <= p <= u64::MAX,
        env_within(env, p),
        agrees(known, env, p),
        evaluate(e, env, p) is Some,
    ensures
        evaluate(fold(e, known, p), env, p) == evaluate(e, env, p),
{
    lemma_fold_follows(e, known, env, env, p);
}

/// An expression keeps its value when the environment grows.
pub proof fn lemma_evaluate_extends(
    e: Expression,
    env: Seq<Option<Value>>,
    more: Seq<Option<Value>>,
    p: int,
)
    requires
        env.len() == more.len(),
        forall|i: int| 0 <= i < env.len() && (#[trigger] env[i]) is Some ==> more[i] == env[i],
        evaluate(e, env, p) is Some,
    ensures
        evaluate(e, more, p) == evaluate(e, env, p),
    decreases e,
{
    match e {
        Expression::Variable(id) => {
            assert(env[id.id as int] is Some);
        },
        Expression::Flag(id) => {
            assert(env[id.id as int] is Some);
        },
        Expression::Binary(op, a, b) => {
            lemma_evaluate_extends(*a, env, more, p);
            lemma_evaluate_extends(*b, env, more, p);
        },
        Expression::Not(a) => {
            lemma_evaluate_extends(*a, env, more, p);
        },
        Expression::IfElse(c, a, b) => {
            lemma_evaluate_extends(*c, env, more, p);
            lemma_evaluate_extends(*a, env, more, p);
            lemma_evaluate_extends(*b, env, more, p);
        },
        _ => {},
    }
}

/// An environment stays within the field when it takes the value of an
/// expression.
proof fn lemma_update_within(env: Seq<Option<Value>>, id: int, e: Expression, from: Seq<Option<Value>>, p: int)
    requires
        2 <= p <= u64::MAX,
        env_within(env, p),
        env_within(from, p),
        0 <= id < env.len(),
        evaluate(e, from, p) is Some,
    ensures
        env_within(env.update(id, evaluate(e, from, p)), p),
{
    lemma_evaluate_within(e, from, p);
    let next = env.update(id, evaluate(e, from, p));
    assert forall|i: int|
        0 <= i < next.len() && (#[trigger] next[i]) is Some && next[i].unwrap() is Field implies next[i].unwrap()->Field_0
        < p by {
        if i != id {
            assert(next[i] == env[i]);
        }
    }
}

/// The propagated statements return from the part what the statements
/// return from the whole.
proof fn lemma_propagate_sound(
    s: Seq<SpecTypedStatement>,
    known: Seq<Option<Expression>>,
    env: Seq<Option<Value>>,
    part: Seq<Option<Value>>,
    p: int,
)
    requires
        2 <= p <= u64::MAX,
        known.len() == env.len(),
        env_within(env, p),
        env_within(part, p),
        follows(known, env, part, p),
        outputs_of(s, env, p) is Some,
    ensures
        outputs_of(propagate_statements(s, known, p), part, p) == outputs_of(s, env, p),
    decreases s.len(),
{
    let rest = s.drop_first();
    let r = rewritten(s[0], known, p);
    let n = known.len() as int;
    match s[0] {
        SpecTypedStatement::Return(es) => {
            let out = seq![r] + propagate_statements(rest, known, p);
            assert(out[0] == r);
            let folded = fold_each(es, known, p);
            assert forall|k: int| 0 <= k < es.len() implies evaluate(
                #[trigger] folded[k],
                part,
                p,
            ) == evaluate(es[k], env, p) by {
                assert(evaluate(es[k], env, p) is Some);
                lemma_fold_follows(es[k], known, env, part, p);
            }
            assert(evaluate_each(folded, part, p).unwrap() =~= evaluate_each(es, env, p).unwrap());
        },
        SpecTypedStatement::Definition(id, e) => {
            let v = evaluate(e, env, p);
            let env2 = env.update(id.id as int, v);
            lemma_fold_follows(e, known, env, part, p);
            lemma_update_within(env, id.id as int, e, env, p);
            let folded = fold(e, known, p);
            assert(lookup(env, id) is None);
            if redundant(r, n) {
                let known2 = learn(r, known);
                assert forall|u: Identifier| (#[trigger] known_as(known2, u)) is None implies lookup(
                    part,
                    u,
                ) == lookup(env2, u) by {
                    assert(known_as(known, u) is None);
                }
                assert forall|u: Identifier|
                    (#[trigger] known_as(known2, u)) is Some implies lookup(env2, u) is Some
                    && evaluate(known_as(known2, u).unwrap(), part, p) == lookup(env2, u) by {
                    if u != id {
                        assert(known_as(known, u) is Some);
                    }
                }
                lemma_propagate_sound(rest, known2, env2, part, p);
            } else {
                let out = seq![r] + propagate_statements(rest, known, p);
                assert(out[0] == r);
                assert(out.drop_first() == propagate_statements(rest, known, p));
                assert(lookup(part, id) is None) by {
                    if known_as(known, id) is Some {
                        assert(lookup(env, id) is Some);
                    }
                }
                let part2 = part.update(id.id as int, v);
                lemma_update_within(part, id.id as int, e, env, p);
                assert forall|u: Identifier| (#[trigger] known_as(known, u)) is None implies lookup(
                    part2,
                    u,
                ) == lookup(env2, u) by {}
                assert forall|u: Identifier|
                    (#[trigger] known_as(known, u)) is Some implies lookup(env2, u) is Some
                    && evaluate(known_as(known, u).unwrap(), part2, p) == lookup(env2, u) by {
                    assert(lookup(env, u) is Some);
                    lemma_evaluate_extends(known_as(known, u).unwrap(), part, part2, p);
                }
                lemma_propagate_sound(rest, known, env2, part2, p);
            }
        },
        SpecTypedStatement::Condition(a, b) => {
            lemma_fold_follows(a, known, env, part, p);
            lemma_fold_follows(b, known, env, part, p);
            if redundant(r, n) {
                lemma_propagate_sound(rest, known, env, part, p);
            } else {
                let out = seq![r] + propagate_statements(rest, known, p);
                assert(out[0] == r);
                assert(out.drop_first() == propagate_statements(rest, known, p));
                lemma_propagate_sound(rest, known, env, part, p);
            }
        },
        SpecTypedStatement::Log(_) => {
            let out = seq![r] + propagate_statements(rest, known, p);
            assert(out[0] == r);
            assert(out.drop_first() == propagate_statements(rest, known, p));
            lemma_propagate_sound(rest, known, env, part, p);
        },
        _ => {},
    }
}

/// Binding arguments keeps the environment within the field.
proof fn lemma_bind_arguments_within(
    parameters: Seq<Parameter>,
    k: int,
    arguments: Seq<Value>,
    env: Seq<Option<Value>>,
    p: int,
)
    requires
        env_within(env, p),
        forall|j: int| 0 <= j < arguments.len() ==> value_within(#[trigger] arguments[j], p),
        bind_arguments(parameters, k, arguments, env) is Some,
    ensures
        env_within(bind_arguments(parameters, k, arguments, env).unwrap(), p),
        bind_arguments(parameters, k, arguments, env).unwrap().len() == env.len(),
    decreases parameters.len() - k,
{
    if 0 <= k < parameters.len() {
        let id = parameters[k].id.id as int;
        let next = env.update(id, Some(arguments[k]));
        assert(value_within(arguments[k], p));
        assert forall|i: int|
            0 <= i < next.len() && (#[trigger] next[i]) is Some && next[i].unwrap() is Field implies next[i].unwrap()->Field_0
            < p by {
            if i != id {
                assert(next[i] == env[i]);
            }
        }
        lemma_bind_arguments_within(parameters, k + 1, arguments, next, p);
    }
}

/// Propagation is sound: where the main function of a program returns
/// values on some arguments, the main function of the propagated
/// program returns the same values.
pub proof fn typed_propagation_is_sound(program: SpecTypedProgram, arguments: Seq<Value>)
    requires
        program.wf(),
        program.field.modulus <= u64::MAX,
        propagated(program) is Ok,
        forall|j: int|
            0 <= j < arguments.len() ==> value_within(
                #[trigger] arguments[j],
                program.field.modulus as int,
            ),
        meaning(program.main_function(), arguments, program.field.modulus as int) is Some,
    ensures
        meaning(
            propagated(program).unwrap().main_function(),
            arguments,
            program.field.modulus as int,
        ) == meaning(program.main_function(), arguments, program.field.modulus as int),
{
    let main = program.main_function();
    let p = program.field.modulus as int;
    let n = main.variable_count as int;
    let start = empty_env(n);
    lemma_bind_arguments_within(main.parameters, 0, arguments, start, p);
    let env = bind_arguments(main.parameters, 0, arguments, start).unwrap();
    lemma_propagate_sound(main.statements, unknown(n), env, env, p);
}

} // verus!
