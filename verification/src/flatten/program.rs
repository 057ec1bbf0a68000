//! The lowering of a function is sound: the flat program computes what
//! the typed function means.

use crate::flatten::soundness::{flattening_is_sound, lemma_represents_extends, represents};
use crate::flatten::{
    bound, boolean_constraint, flat, flat_variable, flattened, lower_condition, lower_definition,
    lower_parameters, lower_return, lower_statement, lower_statements, start, Lowering,
};
use crate::ir::interpreter::{
    execution, initial, lemma_initial, lemma_run_concat, lemma_run_extends, lemma_run_one, part_of,
    returned, run,
};
use crate::ir::lincomb::{eval, has_one, lemma_eval_single, single, value_at, within};
use crate::ir::statement::{apply, SpecStatement};
use crate::typed_absy::{
    bind_arguments, empty_env, encode, env_within, evaluate, evaluate_each, lemma_evaluate_within,
    lookup, meaning, outputs_of, perform, value_within, Expression, Identifier, Kind, Parameter,
    SpecTypedProgram, SpecTypedStatement, Value,
};
use crate::text::{lemma_starts_append, lemma_starts_transitive, starts};
use vstd::prelude::*;

verus! {

/// A lowering of expressions to be returned only adds statements and
/// outputs.
proof fn lemma_return_grows(es: Seq<Expression>, st: Lowering, p: int)
    requires
        lower_return(es, st, p) is Ok,
    ensures
        starts(st.statements, lower_return(es, st, p).unwrap().statements),
        starts(st.outputs, lower_return(es, st, p).unwrap().outputs),
        lower_return(es, st, p).unwrap().outputs.len() == st.outputs.len() + es.len(),
        lower_return(es, st, p).unwrap().layout == st.layout,
    decreases es.len(),
{
    if es.len() == 0 {
        assert(st.statements.take(st.statements.len() as int) == st.statements);
        assert(st.outputs.take(st.outputs.len() as int) == st.outputs);
    } else {
        let f = flat(es[0], st.layout, st.next, p).unwrap();
        let next = Lowering {
            layout: st.layout,
            next: f.next + 1,
            statements: st.statements + f.statements + seq![
                SpecStatement::Definition(flat_variable(f.next), f.result),
            ],
            outputs: st.outputs.push(flat_variable(f.next)),
        };
        lemma_return_grows(es.drop_first(), next, p);
        let fin = lower_return(es, st, p).unwrap();
        assert(next.statements == st.statements + (f.statements + seq![
            SpecStatement::Definition(flat_variable(f.next), f.result),
        ]));
        lemma_starts_append(st.statements, f.statements + seq![
            SpecStatement::Definition(flat_variable(f.next), f.result),
        ]);
        lemma_starts_transitive(st.statements, next.statements, fin.statements);
        assert(next.outputs == st.outputs + seq![flat_variable(f.next)]);
        lemma_starts_append(st.outputs, seq![flat_variable(f.next)]);
        lemma_starts_transitive(st.outputs, next.outputs, fin.outputs);
    }
}

/// A lowering of one statement only adds statements.
proof fn lemma_statement_grows(s: SpecTypedStatement, st: Lowering, p: int)
    requires
        lower_statement(s, st, p) is Ok,
    ensures
        starts(st.statements, lower_statement(s, st, p).unwrap().statements),
        !(s is Return) ==> lower_statement(s, st, p).unwrap().outputs == st.outputs,
{
    match s {
        SpecTypedStatement::Return(es) => {
            lemma_return_grows(es, st, p);
        },
        SpecTypedStatement::Definition(id, e) => {
            let f = flat(e, st.layout, st.next, p).unwrap();
            let added = f.statements + seq![
                SpecStatement::Definition(flat_variable(f.next), f.result),
            ];
            assert(lower_statement(s, st, p).unwrap().statements == st.statements + added);
            lemma_starts_append(st.statements, added);
        },
        SpecTypedStatement::Condition(a, b) => {
            let fa = flat(a, st.layout, st.next, p).unwrap();
            let fb = flat(b, st.layout, fa.next, p).unwrap();
            let added = fa.statements + fb.statements + seq![
                SpecStatement::Constraint(fa.result, crate::ir::lincomb::constant_terms(1), fb.result),
            ];
            assert(lower_statement(s, st, p).unwrap().statements == st.statements + added);
            lemma_starts_append(st.statements, added);
        },
        SpecTypedStatement::Log(_) => {
            assert(st.statements.take(st.statements.len() as int) == st.statements);
        },
        _ => {},
    }
}

/// A lowering of statements only adds statements.
proof fn lemma_statements_grow(s: Seq<SpecTypedStatement>, st: Lowering, p: int)
    requires
        lower_statements(s, st, p) is Ok,
    ensures
        starts(st.statements, lower_statements(s, st, p).unwrap().statements),
    decreases s.len(),
{
    if s.len() == 0 {
        assert(st.statements.take(st.statements.len() as int) == st.statements);
    } else {
        lemma_statement_grows(s[0], st, p);
        let next = lower_statement(s[0], st, p).unwrap();
        if !(s[0] is Return) {
            lemma_statements_grow(s.drop_first(), next, p);
            lemma_starts_transitive(
                st.statements,
                next.statements,
                lower_statements(s, st, p).unwrap().statements,
            );
        }
    }
}

/// What the flat statements emitted so far leave of `w0`.
pub open spec fn ran(st: Lowering, w0: Seq<Option<u64>>, p: int) -> Seq<Option<u64>> {
    run(st.statements, w0, p).unwrap()
}

/// The lowering keeps step with the typed function: the statements
/// emitted so far run to the end, and under what they leave the layout
/// represents the environment.
pub open spec fn in_step(st: Lowering, env: Seq<Option<Value>>, w0: Seq<Option<u64>>, p: int) -> bool {
    &&& run(st.statements, w0, p) is Ok
    &&& represents(st.layout, env, ran(st, w0, p), p)
    &&& has_one(w0)
    &&& within(w0, p)
}

/// What is left after a start of the statements is within the field and
/// holds one.
pub(crate) proof fn lemma_ran(st: Lowering, w0: Seq<Option<u64>>, p: int)
    requires
        2 <= p <= u64::MAX,
        has_one(w0),
        within(w0, p),
        run(st.statements, w0, p) is Ok,
    ensures
        has_one(ran(st, w0, p)),
        within(ran(st, w0, p), p),
        part_of(w0, ran(st, w0, p)),
{
    lemma_run_extends(st.statements, w0, p);
    assert(w0[0] is Some);
}

} // verus!

verus! {

/// What a start of the statements leaves is part of what all of them
/// leave.
pub(crate) proof fn lemma_start_ran(a: Seq<SpecStatement>, b: Seq<SpecStatement>, w0: Seq<Option<u64>>, p: int)
    requires
        2 <= p <= u64::MAX,
        within(w0, p),
        starts(a, b),
        run(b, w0, p) is Ok,
    ensures
        run(a, w0, p) is Ok,
        part_of(run(a, w0, p).unwrap(), run(b, w0, p).unwrap()),
        within(run(a, w0, p).unwrap(), p),
{
    let rest = b.skip(a.len() as int);
    assert(b == a + rest);
    lemma_run_concat(a, rest, w0, p);
    lemma_run_extends(a, w0, p);
    lemma_run_extends(rest, run(a, w0, p).unwrap(), p);
}

pub(crate) proof fn lemma_part_of_chain(a: Seq<Option<u64>>, b: Seq<Option<u64>>, c: Seq<Option<u64>>)
    requires
        part_of(a, b),
        part_of(b, c),
    ensures
        part_of(a, c),
{
    assert forall|id: int| 0 <= id < a.len() && (#[trigger] a[id]) is Some implies a[id] == c[id] by {
        assert(b[id] is Some);
    }
}

/// Lowering an expression and defining a fresh variable as its value
/// gives the variable the value of the expression.
pub(crate) proof fn lemma_define(
    e: Expression,
    st: Lowering,
    env: Seq<Option<Value>>,
    w0: Seq<Option<u64>>,
    p: int,
)
    requires
        2 <= p <= u64::MAX,
        0 <= st.next,
        in_step(st, env, w0, p),
        env_within(env, p),
        evaluate(e, env, p) is Some,
        flat(e, st.layout, st.next, p) is Ok,
        flat(e, st.layout, st.next, p).unwrap().next < usize::MAX,
        run(
            st.statements + flat(e, st.layout, st.next, p).unwrap().statements + seq![
                SpecStatement::Definition(
                    flat_variable(flat(e, st.layout, st.next, p).unwrap().next),
                    flat(e, st.layout, st.next, p).unwrap().result,
                ),
            ],
            w0,
            p,
        ) is Ok,
    ensures
        ({
            let f = flat(e, st.layout, st.next, p).unwrap();
            let all = st.statements + f.statements + seq![
                SpecStatement::Definition(flat_variable(f.next), f.result),
            ];
            let w2 = run(all, w0, p).unwrap();
            &&& value_at(w2, flat_variable(f.next)) == Some(encode(evaluate(e, env, p).unwrap()))
            &&& part_of(ran(st, w0, p), w2)
            &&& represents(st.layout, env, w2, p)
            &&& within(w2, p)
            &&& f.next >= st.next
        }),
{
    let f = flat(e, st.layout, st.next, p).unwrap();
    let d = SpecStatement::Definition(flat_variable(f.next), f.result);
    let all = st.statements + f.statements + seq![d];
    lemma_run_concat(st.statements + f.statements, seq![d], w0, p);
    lemma_run_concat(st.statements, f.statements, w0, p);
    let ws = ran(st, w0, p);
    lemma_ran(st, w0, p);
    let wf = run(f.statements, ws, p).unwrap();
    flattening_is_sound(e, st.layout, st.next, p, env, ws);
    lemma_run_one(d, wf, p);
    let w2 = run(all, w0, p).unwrap();
    assert(w2 == apply(d, wf, p).unwrap());
    crate::ir::interpreter::lemma_apply_within(d, wf, p);
    lemma_part_of_chain(ws, wf, w2);
    lemma_represents_extends(st.layout, env, ws, w2, p);
}

/// A definition keeps the lowering in step.
pub(crate) proof fn lemma_definition_step(
    id: Identifier,
    e: Expression,
    st: Lowering,
    env: Seq<Option<Value>>,
    w0: Seq<Option<u64>>,
    p: int,
)
    requires
        2 <= p <= u64::MAX,
        0 <= st.next,
        in_step(st, env, w0, p),
        env_within(env, p),
        lower_definition(id, e, st, p) is Ok,
        perform(SpecTypedStatement::Definition(id, e), env, p) is Some,
        run(lower_definition(id, e, st, p).unwrap().statements, w0, p) is Ok,
    ensures
        in_step(
            lower_definition(id, e, st, p).unwrap(),
            perform(SpecTypedStatement::Definition(id, e), env, p).unwrap(),
            w0,
            p,
        ),
        env_within(perform(SpecTypedStatement::Definition(id, e), env, p).unwrap(), p),
        lower_definition(id, e, st, p).unwrap().next >= st.next,
{
    let st2 = lower_definition(id, e, st, p).unwrap();
    let env2 = perform(SpecTypedStatement::Definition(id, e), env, p).unwrap();
    let f = flat(e, st.layout, st.next, p).unwrap();
    let val = evaluate(e, env, p).unwrap();
    lemma_define(e, st, env, w0, p);
    let w2 = ran(st2, w0, p);
    lemma_evaluate_within(e, env, p);
    lemma_eval_single(flat_variable(f.next), w2, p);
    assert forall|u: Identifier|
        (#[trigger] bound(st2.layout, u)) is Some && lookup(env2, u) is Some implies eval(
        bound(st2.layout, u).unwrap(),
        w2,
        p,
    ) == Some(encode(lookup(env2, u).unwrap())) by {
        if u.id != id.id {
            assert(bound(st2.layout, u) == bound(st.layout, u));
            assert(lookup(env2, u) == lookup(env, u));
        } else {
            assert(u == id);
        }
    }
    assert forall|i: int|
        0 <= i < env2.len() && (#[trigger] env2[i]) is Some && env2[i].unwrap() is Field implies env2[i].unwrap()->Field_0
        < p by {
        if i != id.id {
            assert(env2[i] == env[i]);
        }
    }
}

/// A condition keeps the lowering in step.
pub(crate) proof fn lemma_condition_step(
    a: Expression,
    b: Expression,
    st: Lowering,
    env: Seq<Option<Value>>,
    w0: Seq<Option<u64>>,
    p: int,
)
    requires
        2 <= p <= u64::MAX,
        0 <= st.next,
        in_step(st, env, w0, p),
        env_within(env, p),
        lower_condition(a, b, st, p) is Ok,
        perform(SpecTypedStatement::Condition(a, b), env, p) is Some,
        run(lower_condition(a, b, st, p).unwrap().statements, w0, p) is Ok,
    ensures
        in_step(lower_condition(a, b, st, p).unwrap(), env, w0, p),
        lower_condition(a, b, st, p).unwrap().next >= st.next,
{
    let st2 = lower_condition(a, b, st, p).unwrap();
    let fa = flat(a, st.layout, st.next, p).unwrap();
    let fb = flat(b, st.layout, fa.next, p).unwrap();
    let c = SpecStatement::Constraint(
        fa.result,
        crate::ir::lincomb::constant_terms(1),
        fb.result,
    );
    let before = st.statements;
    assert(st2.statements == before + (fa.statements + fb.statements + seq![c]));
    lemma_starts_append(before, fa.statements + fb.statements + seq![c]);
    lemma_start_ran(before, st2.statements, w0, p);
    lemma_represents_extends(st.layout, env, ran(st, w0, p), ran(st2, w0, p), p);
    // the next free variable only grows
    lemma_run_concat(before + fa.statements + fb.statements, seq![c], w0, p);
    lemma_run_concat(before + fa.statements, fb.statements, w0, p);
    lemma_run_concat(before, fa.statements, w0, p);
    lemma_ran(st, w0, p);
    let ws = ran(st, w0, p);
    flattening_is_sound(a, st.layout, st.next, p, env, ws);
    let wa = run(fa.statements, ws, p).unwrap();
    lemma_represents_extends(st.layout, env, ws, wa, p);
    assert(ws[0] is Some);
    flattening_is_sound(b, st.layout, fa.next, p, env, wa);
}

} // verus!

verus! {

/// The field elements that stand for the values.
pub open spec fn encode_each(values: Seq<Value>) -> Seq<u64> {
    Seq::new(values.len(), |k: int| encode(values[k]))
}

/// The outputs that a return adds hold the values of its expressions.
proof fn lemma_return_sound(
    es: Seq<Expression>,
    st: Lowering,
    env: Seq<Option<Value>>,
    w0: Seq<Option<u64>>,
    p: int,
)
    requires
        2 <= p <= u64::MAX,
        0 <= st.next,
        in_step(st, env, w0, p),
        env_within(env, p),
        evaluate_each(es, env, p) is Some,
        lower_return(es, st, p) is Ok,
        run(lower_return(es, st, p).unwrap().statements, w0, p) is Ok,
    ensures
        lower_return(es, st, p).unwrap().outputs.len() == st.outputs.len() + es.len(),
        forall|j: int|
            0 <= j < es.len() ==> value_at(
                ran(lower_return(es, st, p).unwrap(), w0, p),
                #[trigger] lower_return(es, st, p).unwrap().outputs[st.outputs.len() + j],
            ) == Some(encode(evaluate(es[j], env, p).unwrap())),
    decreases es.len(),
{
    let fin = lower_return(es, st, p).unwrap();
    lemma_return_grows(es, st, p);
    if es.len() > 0 {
        let f = flat(es[0], st.layout, st.next, p).unwrap();
        let v = flat_variable(f.next);
        let next = Lowering {
            layout: st.layout,
            next: f.next + 1,
            statements: st.statements + f.statements + seq![SpecStatement::Definition(v, f.result)],
            outputs: st.outputs.push(v),
        };
        let rest = es.drop_first();
        lemma_return_grows(rest, next, p);
        lemma_start_ran(next.statements, fin.statements, w0, p);
        assert(evaluate(es[0], env, p) is Some);
        lemma_define(es[0], st, env, w0, p);
        let w_next = ran(next, w0, p);
        let w_fin = ran(fin, w0, p);
        assert(evaluate_each(rest, env, p) is Some) by {
            assert forall|k: int| 0 <= k < rest.len() implies evaluate(
                #[trigger] rest[k],
                env,
                p,
            ) is Some by {
                assert(rest[k] == es[k + 1]);
            }
        }
        lemma_return_sound(rest, next, env, w0, p);
        assert forall|j: int| 0 <= j < es.len() implies value_at(
            w_fin,
            #[trigger] fin.outputs[st.outputs.len() + j],
        ) == Some(encode(evaluate(es[j], env, p).unwrap())) by {
            if j == 0 {
                assert(fin.outputs.take(next.outputs.len() as int)[st.outputs.len() as int]
                    == fin.outputs[st.outputs.len() as int]);
                assert(next.outputs[st.outputs.len() as int] == v);
                assert(w_next[v.id as int] is Some);
            } else {
                assert(rest[j - 1] == es[j]);
                assert(fin.outputs[next.outputs.len() + (j - 1)] == fin.outputs[st.outputs.len()
                    + j]);
            }
        }
    }
}

/// What the lowered statements leave in the outputs is what the typed
/// statements return.
proof fn lemma_statements_sound(
    s: Seq<SpecTypedStatement>,
    st: Lowering,
    env: Seq<Option<Value>>,
    w0: Seq<Option<u64>>,
    p: int,
)
    requires
        2 <= p <= u64::MAX,
        0 <= st.next,
        st.outputs.len() == 0,
        in_step(st, env, w0, p),
        env_within(env, p),
        outputs_of(s, env, p) is Some,
        lower_statements(s, st, p) is Ok,
        run(lower_statements(s, st, p).unwrap().statements, w0, p) is Ok,
    ensures
        returned(
            lower_statements(s, st, p).unwrap().outputs,
            ran(lower_statements(s, st, p).unwrap(), w0, p),
        ) == encode_each(outputs_of(s, env, p).unwrap()),
    decreases s.len(),
{
    let fin = lower_statements(s, st, p).unwrap();
    let rest = s.drop_first();
    match s[0] {
        SpecTypedStatement::Return(es) => {
            lemma_return_sound(es, st, env, w0, p);
            let values = evaluate_each(es, env, p).unwrap();
            assert forall|j: int| 0 <= j < fin.outputs.len() implies value_at(
                ran(fin, w0, p),
                fin.outputs[j],
            ).unwrap() == encode(values[j]) by {
                assert(fin.outputs[st.outputs.len() + j] == fin.outputs[j]);
            }
            assert(returned(fin.outputs, ran(fin, w0, p)) =~= encode_each(values));
        },
        SpecTypedStatement::Definition(id, e) => {
            let next = lower_definition(id, e, st, p).unwrap();
            lemma_statements_grow(rest, next, p);
            lemma_start_ran(next.statements, fin.statements, w0, p);
            lemma_definition_step(id, e, st, env, w0, p);
            lemma_statements_sound(rest, next, perform(s[0], env, p).unwrap(), w0, p);
        },
        SpecTypedStatement::Condition(a, b) => {
            let next = lower_condition(a, b, st, p).unwrap();
            lemma_statements_grow(rest, next, p);
            lemma_start_ran(next.statements, fin.statements, w0, p);
            lemma_condition_step(a, b, st, env, w0, p);
            lemma_statements_sound(rest, next, env, w0, p);
        },
        SpecTypedStatement::Log(_) => {
            lemma_statements_sound(rest, st, env, w0, p);
        },
        _ => {},
    }
}

/// A lowering of parameters only adds statements, and takes one
/// variable for each parameter.
proof fn lemma_parameters_grow(parameters: Seq<Parameter>, k: int, st: Lowering, p: int)
    requires
        0 <= k <= parameters.len(),
        lower_parameters(parameters, k, st, p) is Ok,
    ensures
        starts(st.statements, lower_parameters(parameters, k, st, p).unwrap().statements),
        lower_parameters(parameters, k, st, p).unwrap().outputs == st.outputs,
        lower_parameters(parameters, k, st, p).unwrap().next == st.next + parameters.len() - k,
    decreases parameters.len() - k,
{
    if k >= parameters.len() {
        assert(st.statements.take(st.statements.len() as int) == st.statements);
    } else {
        let next = Lowering {
            layout: st.layout.update(parameters[k].id.id as int, Some(single(st.next))),
            next: st.next + 1,
            statements: if parameters[k].kind == Kind::Boolean {
                st.statements.push(boolean_constraint(st.next, p))
            } else {
                st.statements
            },
            outputs: st.outputs,
        };
        lemma_parameters_grow(parameters, k + 1, next, p);
        if parameters[k].kind == Kind::Boolean {
            assert(next.statements == st.statements + seq![boolean_constraint(st.next, p)]);
            lemma_starts_append(st.statements, seq![boolean_constraint(st.next, p)]);
        } else {
            assert(st.statements.take(st.statements.len() as int) == st.statements);
        }
        lemma_starts_transitive(
            st.statements,
            next.statements,
            lower_parameters(parameters, k, st, p).unwrap().statements,
        );
    }
}

/// The parameters are lowered in step with the arguments: each takes
/// the variable that holds its argument.
pub(crate) proof fn lemma_parameters_sound(
    parameters: Seq<Parameter>,
    k: int,
    arguments: Seq<Value>,
    st: Lowering,
    env: Seq<Option<Value>>,
    w0: Seq<Option<u64>>,
    p: int,
)
    requires
        2 <= p <= u64::MAX,
        0 <= k <= parameters.len(),
        arguments.len() == parameters.len(),
        st.next == k + 1,
        in_step(st, env, w0, p),
        env_within(env, p),
        forall|j: int| 0 <= j < arguments.len() ==> value_within(#[trigger] arguments[j], p),
        forall|j: int|
            0 <= j < arguments.len() ==> value_at(w0, flat_variable(j + 1)) == Some(
                encode(#[trigger] arguments[j]),
            ),
        lower_parameters(parameters, k, st, p) is Ok,
        bind_arguments(parameters, k, arguments, env) is Some,
        run(lower_parameters(parameters, k, st, p).unwrap().statements, w0, p) is Ok,
    ensures
        in_step(
            lower_parameters(parameters, k, st, p).unwrap(),
            bind_arguments(parameters, k, arguments, env).unwrap(),
            w0,
            p,
        ),
        env_within(bind_arguments(parameters, k, arguments, env).unwrap(), p),
    decreases parameters.len() - k,
{
    if k < parameters.len() {
        let id = parameters[k].id;
        let next = Lowering {
            layout: st.layout.update(id.id as int, Some(single(st.next))),
            next: st.next + 1,
            statements: if parameters[k].kind == Kind::Boolean {
                st.statements.push(boolean_constraint(st.next, p))
            } else {
                st.statements
            },
            outputs: st.outputs,
        };
        let env2 = env.update(id.id as int, Some(arguments[k]));
        let fin = lower_parameters(parameters, k, st, p).unwrap();
        lemma_parameters_grow(parameters, k + 1, next, p);
        lemma_start_ran(next.statements, fin.statements, w0, p);
        if parameters[k].kind == Kind::Boolean {
            assert(next.statements == st.statements + seq![boolean_constraint(st.next, p)]);
            lemma_starts_append(st.statements, seq![boolean_constraint(st.next, p)]);
        } else {
            assert(st.statements.take(st.statements.len() as int) == st.statements);
        }
        lemma_start_ran(st.statements, next.statements, w0, p);
        lemma_ran(next, w0, p);
        let ws = ran(st, w0, p);
        let w2 = ran(next, w0, p);
        lemma_represents_extends(st.layout, env, ws, w2, p);
        let v = flat_variable(st.next);
        lemma_eval_single(v, w2, p);
        assert(value_at(w0, v) == Some(encode(arguments[k])));
        assert(w0[v.id as int] is Some);
        assert(value_within(arguments[k], p));
        assert forall|u: Identifier|
            (#[trigger] bound(next.layout, u)) is Some && lookup(env2, u) is Some implies eval(
            bound(next.layout, u).unwrap(),
            w2,
            p,
        ) == Some(encode(lookup(env2, u).unwrap())) by {
            if u.id != id.id {
                assert(bound(next.layout, u) == bound(st.layout, u));
                assert(lookup(env2, u) == lookup(env, u));
            } else {
                assert(u == id);
            }
        }
        assert forall|i: int|
            0 <= i < env2.len() && (#[trigger] env2[i]) is Some && env2[i].unwrap() is Field implies env2[i].unwrap()->Field_0
            < p by {
            if i != id.id {
                assert(env2[i] == env[i]);
            }
        }
        lemma_parameters_sound(parameters, k + 1, arguments, next, env2, w0, p);
    }
}

/// The lowering of programs is sound. Take a typed program whose main
/// function returns values on some arguments, and inputs that stand for
/// the arguments. If the flat program that the main function lowers to
/// runs to the end on the inputs, its outputs stand for the values that
/// the main function returns.
pub proof fn flattening_of_programs_is_sound(
    program: SpecTypedProgram,
    arguments: Seq<Value>,
    inputs: Seq<u64>,
)
    requires
        program.wf(),
        flattened(program) is Ok,
        forall|j: int|
            0 <= j < arguments.len() ==> value_within(
                #[trigger] arguments[j],
                program.field.modulus as int,
            ),
        inputs == encode_each(arguments),
        meaning(program.main_function(), arguments, program.field.modulus as int) is Some,
        execution(flattened(program).unwrap(), inputs) is Ok,
    ensures
        returned(
            flattened(program).unwrap().outputs,
            execution(flattened(program).unwrap(), inputs).unwrap(),
        ) == encode_each(
            meaning(program.main_function(), arguments, program.field.modulus as int).unwrap(),
        ),
{
    crate::flatten::shape::lemma_flattened_wf(program);
    let main = program.main_function();
    let p = program.field.modulus as int;
    let flat_program = flattened(program).unwrap();
    let n = flat_program.variable_count as int;
    let w0 = initial(n, inputs);
    let begin = start(main.variable_count as int);
    let bound_state = lower_parameters(main.parameters, 0, begin, p).unwrap();
    let done = lower_statements(main.statements, bound_state, p).unwrap();
    let env0 = empty_env(main.variable_count as int);
    assert(inputs.len() == flat_program.private.len());
    assert forall|i: int| 0 <= i < inputs.len() implies (#[trigger] inputs[i]) < p by {
        assert(value_within(arguments[i], p));
    }
    lemma_initial(n, inputs, p);
    lemma_parameters_grow(main.parameters, 0, begin, p);
    lemma_statements_grow(main.statements, bound_state, p);
    lemma_start_ran(bound_state.statements, done.statements, w0, p);
    assert(run(begin.statements, w0, p) is Ok);
    assert(represents(begin.layout, env0, ran(begin, w0, p), p));
    assert forall|j: int| 0 <= j < arguments.len() implies value_at(w0, flat_variable(j + 1))
        == Some(encode(#[trigger] arguments[j])) by {
        assert(w0[j + 1] == Some(inputs[j]));
    }
    lemma_parameters_sound(main.parameters, 0, arguments, begin, env0, w0, p);
    let env = bind_arguments(main.parameters, 0, arguments, env0).unwrap();
    lemma_statements_sound(main.statements, bound_state, env, w0, p);
}

} // verus!
