//! Unrolling keeps what programs mean.
//!
//! The source is read loosely: the body of a loop assigns its variables
//! again and again. The unrolled program is read strictly: it is in
//! single-assignment form.

use crate::text::{lemma_starts_push, lemma_starts_self, lemma_starts_transitive, starts};
use crate::typed_absy::lemma_known;
use crate::semantics::{
    assign_variable, assign_variables, call, lemma_bind_larger, lemma_run_range_one,
    lemma_run_range_split, lemma_run_range_start, run_block, run_loop, run_range, run_statement,
    Outcome,
};
use crate::static_analysis::unroll::{
    assign_all, assigned, emitting, rename, rename_each, start, target, unroll_block, unroll_from,
    unroll_function, unroll_functions, unroll_iterations, unroll_statement, unrolled, Unrolling,
};
use crate::static_analysis::AnalysisError;
use crate::typed_absy::{
    bind_arguments, empty_env, env_within, evaluate, evaluate_each, lemma_evaluate_within,
    value_within, Expression, Identifier, SpecFunction, SpecTypedProgram, SpecTypedStatement,
    Value,
};
use vstd::arithmetic::div_mod::lemma_small_mod;
use vstd::prelude::*;

verus! {

/// The state of an unrolling is sound: every variable of the source
/// stands for a variable that has been handed out, and something is
/// known or not of each variable handed out.
pub open spec fn state_ok(st: Unrolling, p: int) -> bool {
    &&& 0 <= st.names.len() <= st.next <= usize::MAX
    &&& st.env.len() == st.next
    &&& env_within(st.env, p)
    &&& forall|x: int| 0 <= x < st.names.len() ==> (#[trigger] st.names[x]).id < st.next
}

/// The unrolled run follows the source run: `env` is the environment of
/// the source, `ssa` that of the unrolled function. Each variable of the
/// source has the value of the variable that stands for it; what is
/// known of a variable is its value; the variables that are not handed
/// out yet have no value.
pub open spec fn follows(st: Unrolling, env: Seq<Option<Value>>, ssa: Seq<Option<Value>>) -> bool {
    &&& env.len() == st.names.len()
    &&& st.next <= ssa.len()
    &&& forall|x: int|
        0 <= x < st.names.len() ==> ssa[(#[trigger] st.names[x]).id as int] == env[x]
    &&& forall|id: int| st.next <= id < ssa.len() ==> (#[trigger] ssa[id]) is None
    &&& forall|id: int|
        0 <= id < st.env.len() && (#[trigger] st.env[id]) is Some ==> ssa[id] == st.env[id]
}

/// A renamed expression has, in the unrolled run, the value that the
/// expression has in the source.
proof fn lemma_rename(
    e: Expression,
    st: Unrolling,
    env: Seq<Option<Value>>,
    ssa: Seq<Option<Value>>,
    p: int,
)
    requires
        state_ok(st, p),
        follows(st, env, ssa),
        evaluate(e, env, p) is Some,
    ensures
        evaluate(rename(e, st.names), ssa, p) == evaluate(e, env, p),
    decreases e,
{
    match e {
        Expression::Variable(id) => {
            assert(st.names[id.id as int].id < st.next);
        },
        Expression::Flag(id) => {
            assert(st.names[id.id as int].id < st.next);
        },
        Expression::Binary(_, a, b) => {
            lemma_rename(*a, st, env, ssa, p);
            lemma_rename(*b, st, env, ssa, p);
        },
        Expression::Not(a) => {
            lemma_rename(*a, st, env, ssa, p);
        },
        Expression::IfElse(c, a, b) => {
            lemma_rename(*c, st, env, ssa, p);
            lemma_rename(*a, st, env, ssa, p);
            lemma_rename(*b, st, env, ssa, p);
        },
        _ => {},
    }
}

/// Renamed expressions have the values of the expressions.
proof fn lemma_rename_each(
    es: Seq<Expression>,
    st: Unrolling,
    env: Seq<Option<Value>>,
    ssa: Seq<Option<Value>>,
    p: int,
)
    requires
        state_ok(st, p),
        follows(st, env, ssa),
        evaluate_each(es, env, p) is Some,
    ensures
        evaluate_each(rename_each(es, st.names), ssa, p) == evaluate_each(es, env, p),
{
    let renamed = rename_each(es, st.names);
    assert forall|k: int| 0 <= k < es.len() implies evaluate(#[trigger] renamed[k], ssa, p)
        == evaluate(es[k], env, p) by {
        assert(evaluate(es[k], env, p) is Some);
        lemma_rename(es[k], st, env, ssa, p);
    }
    assert(evaluate_each(renamed, ssa, p).unwrap() =~= evaluate_each(es, env, p).unwrap());
}

/// An assignment keeps the state sound.
proof fn lemma_assigned_ok(id: Identifier, known: Option<Value>, st: Unrolling, p: int)
    requires
        state_ok(st, p),
        st.next < usize::MAX,
        known is Some ==> value_within(known.unwrap(), p),
    ensures
        state_ok(assigned(id, known, st), p),
        assigned(id, known, st).out == st.out,
        assigned(id, known, st).budget == st.budget,
        st.next <= assigned(id, known, st).next <= st.next + 1,
        assigned(id, known, st).names.len() == st.names.len(),
{
    let st2 = assigned(id, known, st);
    if id.id < st.names.len() {
        assert forall|x: int| 0 <= x < st2.names.len() implies (#[trigger] st2.names[x]).id
            < st2.next by {
            if x != id.id {
                assert(st2.names[x] == st.names[x]);
            }
        }
        assert forall|i: int|
            0 <= i < st2.env.len() && (#[trigger] st2.env[i]) is Some && st2.env[i].unwrap() is Field implies st2.env[i].unwrap()->Field_0
            < p by {
            if i < st.env.len() {
                assert(st2.env[i] == st.env[i]);
            }
        }
    }
}

proof fn lemma_assign_all_ok(
    ids: Seq<Identifier>,
    k: int,
    defined: Seq<Identifier>,
    st: Unrolling,
    p: int,
)
    requires
        0 <= k,
        state_ok(st, p),
        assign_all(ids, k, defined, st) is Ok,
    ensures
        state_ok(assign_all(ids, k, defined, st).unwrap().1, p),
        assign_all(ids, k, defined, st).unwrap().1.out == st.out,
        assign_all(ids, k, defined, st).unwrap().1.budget == st.budget,
        st.next <= assign_all(ids, k, defined, st).unwrap().1.next,
        assign_all(ids, k, defined, st).unwrap().1.names.len() == st.names.len(),
    decreases ids.len() - k,
{
    if k < ids.len() {
        lemma_assigned_ok(ids[k], None, st, p);
        lemma_assign_all_ok(ids, k + 1, defined.push(target(ids[k], st)), assigned(ids[k], None, st), p);
    }
}

/// What unrolling a statement leaves of a state: the state stays sound
/// and its statements are added to.
pub open spec fn grown(st: Unrolling, st2: Unrolling, p: int) -> bool {
    &&& state_ok(st2, p)
    &&& starts(st.out, st2.out)
    &&& st.next <= st2.next
    &&& st2.names.len() == st.names.len()
}

proof fn lemma_statement_grows(s: SpecTypedStatement, st: Unrolling, p: int, place: AnalysisError)
    requires
        2 <= p <= u64::MAX,
        state_ok(st, p),
        unroll_statement(s, st, p, place) is Ok,
    ensures
        grown(st, unroll_statement(s, st, p, place).unwrap(), p),
    decreases s, 0int, 0int,
{
    let st2 = unroll_statement(s, st, p, place).unwrap();
    match s {
        SpecTypedStatement::Definition(id, e) => {
            let renamed = rename(e, st.names);
            let known = evaluate(renamed, st.env, p);
            if known is Some {
                lemma_evaluate_within(renamed, st.env, p);
            }
            lemma_assigned_ok(id, known, st, p);
            lemma_starts_push(st.out, SpecTypedStatement::Definition(target(id, st), renamed));
        },
        SpecTypedStatement::Condition(a, b) => {
            lemma_starts_push(
                st.out,
                SpecTypedStatement::Condition(rename(a, st.names), rename(b, st.names)),
            );
        },
        SpecTypedStatement::Return(es) => {
            lemma_starts_push(st.out, SpecTypedStatement::Return(rename_each(es, st.names)));
        },
        SpecTypedStatement::Log(_) => {
            lemma_starts_push(st.out, s);
        },
        SpecTypedStatement::MultipleDefinition(ids, callee, args) => {
            lemma_assign_all_ok(ids, 0, Seq::<Identifier>::empty(), st, p);
            let (defined, after) = assign_all(ids, 0, Seq::<Identifier>::empty(), st).unwrap();
            lemma_starts_push(
                after.out,
                SpecTypedStatement::MultipleDefinition(defined, callee, rename_each(args, st.names)),
            );
        },
        SpecTypedStatement::For(id, from, to, body) => {
            let low = evaluate(rename(from, st.names), st.env, p).unwrap()->Field_0;
            let high = evaluate(rename(to, st.names), st.env, p).unwrap()->Field_0;
            lemma_evaluate_within(rename(to, st.names), st.env, p);
            lemma_iterations_grow(id, body, low as int, high as int, st, p, place);
        },
    }
}

proof fn lemma_iterations_grow(
    id: Identifier,
    body: Seq<SpecTypedStatement>,
    v: int,
    high: int,
    st: Unrolling,
    p: int,
    place: AnalysisError,
)
    requires
        2 <= p <= u64::MAX,
        0 <= v,
        high < p,
        state_ok(st, p),
        unroll_iterations(id, body, v, high, st, p, place) is Ok,
    ensures
        grown(st, unroll_iterations(id, body, v, high, st, p, place).unwrap(), p),
    decreases body, 1int, high - v,
{
    if v < high {
        let spent = Unrolling { budget: st.budget - 1, ..st };
        let index = emitting(
            SpecTypedStatement::Definition(target(id, spent), Expression::Number(v as u64)),
            assigned(id, Some(Value::Field(v as u64)), spent),
        );
        lemma_assigned_ok(id, Some(Value::Field(v as u64)), spent, p);
        lemma_starts_push(
            st.out,
            SpecTypedStatement::Definition(target(id, spent), Expression::Number(v as u64)),
        );
        lemma_block_grows(body, 0, index, p, place);
        let after = unroll_block(body, 0, index, p, place).unwrap();
        lemma_iterations_grow(id, body, v + 1, high, after, p, place);
        let done = unroll_iterations(id, body, v, high, st, p, place).unwrap();
        lemma_starts_transitive(st.out, index.out, after.out);
        lemma_starts_transitive(st.out, after.out, done.out);
    } else {
        lemma_starts_self(st.out);
    }
}

proof fn lemma_block_grows(
    body: Seq<SpecTypedStatement>,
    k: int,
    st: Unrolling,
    p: int,
    place: AnalysisError,
)
    requires
        2 <= p <= u64::MAX,
        state_ok(st, p),
        unroll_block(body, k, st, p, place) is Ok,
    ensures
        grown(st, unroll_block(body, k, st, p, place).unwrap(), p),
    decreases body, 0int, body.len() - k,
{
    if 0 <= k < body.len() {
        lemma_statement_grows(body[k], st, p, place);
        let after = unroll_statement(body[k], st, p, place).unwrap();
        lemma_block_grows(body, k + 1, after, p, place);
        lemma_starts_transitive(st.out, after.out, unroll_block(body, k, st, p, place).unwrap().out);
    } else {
        lemma_starts_self(st.out);
    }
}

} // verus!

verus! {

/// Every call that returns in the source, read loosely, returns the same
/// in the unrolled program, read strictly.
pub open spec fn calls_kept(
    source: Seq<SpecFunction>,
    unrolled_functions: Seq<SpecFunction>,
    p: int,
    fuel: nat,
) -> bool {
    forall|callee: usize, arguments: Seq<Value>|
        (#[trigger] call(source, callee, arguments, p, false, fuel)) is Some ==> call(
            unrolled_functions,
            callee,
            arguments,
            p,
            true,
            fuel,
        ) == call(source, callee, arguments, p, false, fuel)
}

/// The unrolled run follows the source run through an assignment.
proof fn lemma_follows_assign(
    st: Unrolling,
    env: Seq<Option<Value>>,
    ssa: Seq<Option<Value>>,
    id: Identifier,
    v: Value,
    known: Option<Value>,
    p: int,
)
    requires
        state_ok(st, p),
        follows(st, env, ssa),
        id.id < env.len(),
        st.next < ssa.len(),
        st.next < usize::MAX,
        known is Some ==> known == Some(v),
    ensures
        follows(
            assigned(id, known, st),
            env.update(id.id as int, Some(v)),
            ssa.update(st.next, Some(v)),
        ),
        assign_variable(ssa, target(id, st), v, true) == Some(ssa.update(st.next, Some(v))),
{
    let st2 = assigned(id, known, st);
    let env2 = env.update(id.id as int, Some(v));
    let ssa2 = ssa.update(st.next, Some(v));
    assert(ssa[st.next] is None);
    assert forall|x: int| 0 <= x < st2.names.len() implies ssa2[(#[trigger] st2.names[x]).id as int]
        == env2[x] by {
        if x != id.id {
            assert(st2.names[x] == st.names[x]);
            assert(st.names[x].id < st.next);
        }
    }
    assert forall|i: int| 0 <= i < st2.env.len() && (#[trigger] st2.env[i]) is Some implies ssa2[i]
        == st2.env[i] by {
        if i < st.env.len() {
            assert(st2.env[i] == st.env[i]);
        }
    }
}

/// What the variables of a call are renamed to.
proof fn lemma_assign_all_defined(
    ids: Seq<Identifier>,
    k: int,
    defined: Seq<Identifier>,
    st: Unrolling,
)
    requires
        0 <= k <= ids.len(),
        defined.len() == k,
        assign_all(ids, k, defined, st) is Ok,
    ensures
        assign_all(ids, k, defined, st).unwrap().0.len() == ids.len(),
        assign_all(ids, k, defined, st).unwrap().0.take(k) == defined,
        k < ids.len() ==> assign_all(ids, k, defined, st).unwrap().0[k] == target(ids[k], st),
    decreases ids.len() - k,
{
    if k < ids.len() {
        let next = defined.push(target(ids[k], st));
        lemma_assign_all_defined(ids, k + 1, next, assigned(ids[k], None, st));
        let all = assign_all(ids, k, defined, st).unwrap().0;
        assert(all.take(k + 1)[k] == all[k]);
        assert(all.take(k) == all.take(k + 1).take(k));
    } else {
        assert(defined.take(k) == defined);
    }
}

/// The unrolled run follows the source run through the assignments of
/// a call.
proof fn lemma_assign_all_kept(
    ids: Seq<Identifier>,
    k: int,
    defined: Seq<Identifier>,
    st: Unrolling,
    env: Seq<Option<Value>>,
    ssa: Seq<Option<Value>>,
    values: Seq<Value>,
    all: Seq<Identifier>,
    p: int,
)
    requires
        0 <= k <= ids.len(),
        defined.len() == k,
        state_ok(st, p),
        follows(st, env, ssa),
        assign_all(ids, k, defined, st) is Ok,
        all == assign_all(ids, k, defined, st).unwrap().0,
        assign_all(ids, k, defined, st).unwrap().1.next <= ssa.len(),
        assign_variables(env, ids, values, k, false) is Some,
    ensures
        assign_variables(ssa, all, values, k, true) is Some,
        follows(
            assign_all(ids, k, defined, st).unwrap().1,
            assign_variables(env, ids, values, k, false).unwrap(),
            assign_variables(ssa, all, values, k, true).unwrap(),
        ),
        assign_variables(ssa, all, values, k, true).unwrap().len() == ssa.len(),
    decreases ids.len() - k,
{
    lemma_assign_all_defined(ids, k, defined, st);
    if k < ids.len() {
        let st2 = assigned(ids[k], None, st);
        let next = defined.push(target(ids[k], st));
        lemma_assigned_ok(ids[k], None, st, p);
        lemma_assign_all_ok(ids, k + 1, next, st2, p);
        lemma_follows_assign(st, env, ssa, ids[k], values[k], None, p);
        let env2 = env.update(ids[k].id as int, Some(values[k]));
        let ssa2 = ssa.update(st.next, Some(values[k]));
        lemma_assign_all_kept(ids, k + 1, next, st2, env2, ssa2, values, all, p);
    }
}

} // verus!

verus! {

/// What the unrolled run makes of a piece of the source: run from the
/// statements that unrolling had emitted before the piece to those it
/// has emitted after, it returns what the source returns, and where the
/// source goes on, it follows.
pub open spec fn kept(
    unrolled_functions: Seq<SpecFunction>,
    st: Unrolling,
    st2: Unrolling,
    source: Outcome,
    ssa: Seq<Option<Value>>,
    p: int,
    fuel: nat,
) -> bool {
    let result = run_range(
        unrolled_functions,
        st2.out,
        st.out.len() as int,
        st2.out.len() as int,
        ssa,
        p,
        true,
        fuel,
    );
    &&& result is Some
    &&& result.unwrap().returned == source.returned
    &&& result.unwrap().env.len() == ssa.len()
    &&& source.returned is None ==> follows(st2, source.env, result.unwrap().env)
}

/// Unrolling keeps the meaning of a statement.
proof fn lemma_statement_kept(
    source: Seq<SpecFunction>,
    us: Seq<SpecFunction>,
    s: SpecTypedStatement,
    st: Unrolling,
    env: Seq<Option<Value>>,
    ssa: Seq<Option<Value>>,
    p: int,
    place: AnalysisError,
    fuel: nat,
)
    requires
        2 <= p <= u64::MAX,
        state_ok(st, p),
        follows(st, env, ssa),
        unroll_statement(s, st, p, place) is Ok,
        unroll_statement(s, st, p, place).unwrap().next <= ssa.len(),
        run_statement(source, s, env, p, false, fuel) is Some,
        calls_kept(source, us, p, fuel),
    ensures
        kept(
            us,
            st,
            unroll_statement(s, st, p, place).unwrap(),
            run_statement(source, s, env, p, false, fuel).unwrap(),
            ssa,
            p,
            fuel,
        ),
    decreases s, 0int, 0int,
{
    let st2 = unroll_statement(s, st, p, place).unwrap();
    let o = run_statement(source, s, env, p, false, fuel).unwrap();
    let n = st.out.len() as int;
    lemma_statement_grows(s, st, p, place);
    match s {
        SpecTypedStatement::Definition(id, e) => {
            let renamed = rename(e, st.names);
            let known = evaluate(renamed, st.env, p);
            let v = evaluate(e, env, p).unwrap();
            lemma_rename(e, st, env, ssa, p);
            if known is Some {
                lemma_known(renamed, st.env, ssa, p);
                lemma_evaluate_within(renamed, st.env, p);
            }
            lemma_assigned_ok(id, known, st, p);
            lemma_follows_assign(st, env, ssa, id, v, known, p);
            lemma_run_range_one(us, st2.out, n, ssa, p, true, fuel);
        },
        SpecTypedStatement::Condition(a, b) => {
            lemma_rename(a, st, env, ssa, p);
            lemma_rename(b, st, env, ssa, p);
            lemma_run_range_one(us, st2.out, n, ssa, p, true, fuel);
        },
        SpecTypedStatement::Return(es) => {
            lemma_rename_each(es, st, env, ssa, p);
            lemma_run_range_one(us, st2.out, n, ssa, p, true, fuel);
        },
        SpecTypedStatement::Log(_) => {
            lemma_run_range_one(us, st2.out, n, ssa, p, true, fuel);
        },
        SpecTypedStatement::MultipleDefinition(ids, callee, args) => {
            let values = evaluate_each(args, env, p).unwrap();
            lemma_rename_each(args, st, env, ssa, p);
            let returned = call(source, callee, values, p, false, fuel).unwrap();
            assert(call(us, callee, values, p, true, fuel) == Some(returned));
            let (defined, after) = assign_all(ids, 0, Seq::<Identifier>::empty(), st).unwrap();
            lemma_assign_all_ok(ids, 0, Seq::<Identifier>::empty(), st, p);
            lemma_assign_all_defined(ids, 0, Seq::<Identifier>::empty(), st);
            lemma_assign_all_kept(
                ids,
                0,
                Seq::<Identifier>::empty(),
                st,
                env,
                ssa,
                returned,
                defined,
                p,
            );
            lemma_run_range_one(us, st2.out, n, ssa, p, true, fuel);
        },
        SpecTypedStatement::For(id, from, to, body) => {
            let low = evaluate(rename(from, st.names), st.env, p).unwrap()->Field_0;
            let high = evaluate(rename(to, st.names), st.env, p).unwrap()->Field_0;
            lemma_evaluate_within(rename(to, st.names), st.env, p);
            lemma_known(rename(from, st.names), st.env, ssa, p);
            lemma_known(rename(to, st.names), st.env, ssa, p);
            lemma_rename(from, st, env, ssa, p);
            lemma_rename(to, st, env, ssa, p);
            lemma_iterations_kept(
                source,
                us,
                id,
                body,
                low as int,
                high as int,
                st,
                env,
                ssa,
                p,
                place,
                fuel,
            );
        },
    }
}

/// Unrolling keeps the meaning of the iterations of a loop.
proof fn lemma_iterations_kept(
    source: Seq<SpecFunction>,
    us: Seq<SpecFunction>,
    id: Identifier,
    body: Seq<SpecTypedStatement>,
    v: int,
    high: int,
    st: Unrolling,
    env: Seq<Option<Value>>,
    ssa: Seq<Option<Value>>,
    p: int,
    place: AnalysisError,
    fuel: nat,
)
    requires
        2 <= p <= u64::MAX,
        0 <= v,
        high < p,
        state_ok(st, p),
        follows(st, env, ssa),
        unroll_iterations(id, body, v, high, st, p, place) is Ok,
        unroll_iterations(id, body, v, high, st, p, place).unwrap().next <= ssa.len(),
        run_loop(source, id, body, v, high, env, p, false, fuel) is Some,
        calls_kept(source, us, p, fuel),
    ensures
        kept(
            us,
            st,
            unroll_iterations(id, body, v, high, st, p, place).unwrap(),
            run_loop(source, id, body, v, high, env, p, false, fuel).unwrap(),
            ssa,
            p,
            fuel,
        ),
    decreases body, 1int, high - v,
{
    let done = unroll_iterations(id, body, v, high, st, p, place).unwrap();
    let n = st.out.len() as int;
    lemma_iterations_grow(id, body, v, high, st, p, place);
    if v >= high {
        lemma_run_range_one(us, st.out.push(SpecTypedStatement::Log(Seq::<char>::empty())), n, ssa, p, true, fuel);
        assert(st.out.take(n) == st.out);
        assert(run_block(us, st.out, n, ssa, p, true, fuel) == Some(
            Outcome { env: ssa, returned: None },
        ));
    } else {
        let spent = Unrolling { budget: st.budget - 1, ..st };
        let number = Expression::Number(v as u64);
        let definition = SpecTypedStatement::Definition(target(id, spent), number);
        let index = emitting(definition, assigned(id, Some(Value::Field(v as u64)), spent));
        let value = Value::Field(v as u64);
        lemma_small_mod(v as nat, p as nat);
        lemma_assigned_ok(id, Some(value), spent, p);
        lemma_block_grows(body, 0, index, p, place);
        let after = unroll_block(body, 0, index, p, place).unwrap();
        lemma_iterations_grow(id, body, v + 1, high, after, p, place);
        // the index
        lemma_follows_assign(spent, env, ssa, id, value, Some(value), p);
        let env1 = env.update(id.id as int, Some(value));
        let ssa1 = ssa.update(st.next, Some(value));
        lemma_run_range_one(us, index.out, n, ssa, p, true, fuel);
        assert(run_range(us, index.out, n, n + 1, ssa, p, true, fuel) == Some(
            Outcome { env: ssa1, returned: None },
        ));
        // the body
        let inner = run_block(source, body, 0, env1, p, false, fuel).unwrap();
        lemma_block_kept(source, us, body, 0, index, env1, ssa1, p, place, fuel);
        let m = after.out.len() as int;
        // what is emitted up to here is the start of all that is emitted
        lemma_starts_push(st.out, definition);
        lemma_starts_transitive(st.out, index.out, after.out);
        lemma_run_range_start(us, index.out, after.out, n, n + 1, ssa, p, true, fuel);
        lemma_run_range_split(us, after.out, n, n + 1, m, ssa, p, true, fuel);
        let through = run_range(us, after.out, n, m, ssa, p, true, fuel).unwrap();
        lemma_run_range_start(us, after.out, done.out, n, m, ssa, p, true, fuel);
        lemma_run_range_split(us, done.out, n, m, done.out.len() as int, ssa, p, true, fuel);
        if inner.returned is None {
            lemma_iterations_kept(
                source,
                us,
                id,
                body,
                v + 1,
                high,
                after,
                inner.env,
                through.env,
                p,
                place,
                fuel,
            );
        }
    }
}

/// Unrolling keeps the meaning of the statements of a block.
proof fn lemma_block_kept(
    source: Seq<SpecFunction>,
    us: Seq<SpecFunction>,
    body: Seq<SpecTypedStatement>,
    k: int,
    st: Unrolling,
    env: Seq<Option<Value>>,
    ssa: Seq<Option<Value>>,
    p: int,
    place: AnalysisError,
    fuel: nat,
)
    requires
        2 <= p <= u64::MAX,
        0 <= k,
        state_ok(st, p),
        follows(st, env, ssa),
        unroll_block(body, k, st, p, place) is Ok,
        unroll_block(body, k, st, p, place).unwrap().next <= ssa.len(),
        run_block(source, body, k, env, p, false, fuel) is Some,
        calls_kept(source, us, p, fuel),
    ensures
        kept(
            us,
            st,
            unroll_block(body, k, st, p, place).unwrap(),
            run_block(source, body, k, env, p, false, fuel).unwrap(),
            ssa,
            p,
            fuel,
        ),
    decreases body, 0int, body.len() - k,
{
    let done = unroll_block(body, k, st, p, place).unwrap();
    let n = st.out.len() as int;
    lemma_block_grows(body, k, st, p, place);
    if k >= body.len() {
        assert(st.out.take(n) == st.out);
        assert(run_block(us, st.out, n, ssa, p, true, fuel) == Some(
            Outcome { env: ssa, returned: None },
        ));
    } else {
        lemma_statement_grows(body[k], st, p, place);
        let after = unroll_statement(body[k], st, p, place).unwrap();
        lemma_block_grows(body, k + 1, after, p, place);
        let first = run_statement(source, body[k], env, p, false, fuel).unwrap();
        lemma_statement_kept(source, us, body[k], st, env, ssa, p, place, fuel);
        let m = after.out.len() as int;
        let through = run_range(us, after.out, n, m, ssa, p, true, fuel).unwrap();
        lemma_run_range_start(us, after.out, done.out, n, m, ssa, p, true, fuel);
        lemma_run_range_split(us, done.out, n, m, done.out.len() as int, ssa, p, true, fuel);
        if first.returned is None {
            lemma_block_kept(source, us, body, k + 1, after, first.env, through.env, p, place, fuel);
        }
    }
}

} // verus!

verus! {

proof fn lemma_from_grows(s: Seq<SpecTypedStatement>, k: int, st: Unrolling, p: int, function: usize)
    requires
        2 <= p <= u64::MAX,
        state_ok(st, p),
        unroll_from(s, k, st, p, function) is Ok,
    ensures
        grown(st, unroll_from(s, k, st, p, function).unwrap(), p),
    decreases s.len() - k,
{
    if 0 <= k < s.len() {
        let place = AnalysisError::UnrollableBound(function, k as usize);
        lemma_statement_grows(s[k], st, p, place);
        let after = unroll_statement(s[k], st, p, place).unwrap();
        lemma_from_grows(s, k + 1, after, p, function);
        lemma_starts_transitive(st.out, after.out, unroll_from(s, k, st, p, function).unwrap().out);
    } else {
        lemma_starts_self(st.out);
    }
}

/// Unrolling keeps the meaning of the statements of a function.
proof fn lemma_from_kept(
    source: Seq<SpecFunction>,
    us: Seq<SpecFunction>,
    s: Seq<SpecTypedStatement>,
    k: int,
    st: Unrolling,
    env: Seq<Option<Value>>,
    ssa: Seq<Option<Value>>,
    p: int,
    function: usize,
    fuel: nat,
)
    requires
        2 <= p <= u64::MAX,
        0 <= k,
        state_ok(st, p),
        follows(st, env, ssa),
        unroll_from(s, k, st, p, function) is Ok,
        unroll_from(s, k, st, p, function).unwrap().next <= ssa.len(),
        run_block(source, s, k, env, p, false, fuel) is Some,
        calls_kept(source, us, p, fuel),
    ensures
        kept(
            us,
            st,
            unroll_from(s, k, st, p, function).unwrap(),
            run_block(source, s, k, env, p, false, fuel).unwrap(),
            ssa,
            p,
            fuel,
        ),
    decreases s.len() - k,
{
    let done = unroll_from(s, k, st, p, function).unwrap();
    let n = st.out.len() as int;
    lemma_from_grows(s, k, st, p, function);
    if k >= s.len() {
        assert(st.out.take(n) == st.out);
        assert(run_block(us, st.out, n, ssa, p, true, fuel) == Some(
            Outcome { env: ssa, returned: None },
        ));
    } else {
        let place = AnalysisError::UnrollableBound(function, k as usize);
        lemma_statement_grows(s[k], st, p, place);
        let after = unroll_statement(s[k], st, p, place).unwrap();
        lemma_from_grows(s, k + 1, after, p, function);
        let first = run_statement(source, s[k], env, p, false, fuel).unwrap();
        lemma_statement_kept(source, us, s[k], st, env, ssa, p, place, fuel);
        let m = after.out.len() as int;
        let through = run_range(us, after.out, n, m, ssa, p, true, fuel).unwrap();
        lemma_run_range_start(us, after.out, done.out, n, m, ssa, p, true, fuel);
        lemma_run_range_split(us, done.out, n, m, done.out.len() as int, ssa, p, true, fuel);
        if first.returned is None {
            lemma_from_kept(source, us, s, k + 1, after, first.env, through.env, p, function, fuel);
        }
    }
}

/// The functions of an unrolled program are the functions of the
/// source, each unrolled.
proof fn lemma_unroll_functions_each(
    functions: Seq<SpecFunction>,
    k: int,
    done: Seq<SpecFunction>,
    p: int,
    limit: usize,
)
    requires
        0 <= k <= functions.len(),
        done.len() == k,
        unroll_functions(functions, k, done, p, limit) is Ok,
    ensures
        unroll_functions(functions, k, done, p, limit).unwrap().len() == functions.len(),
        unroll_functions(functions, k, done, p, limit).unwrap().take(k) == done,
        forall|j: int|
            k <= j < functions.len() ==> unroll_function(
                #[trigger] functions[j],
                p,
                j as usize,
                limit,
            ) == Ok::<SpecFunction, AnalysisError>(
                unroll_functions(functions, k, done, p, limit).unwrap()[j],
            ),
    decreases functions.len() - k,
{
    if k < functions.len() {
        let f = unroll_function(functions[k], p, k as usize, limit).unwrap();
        lemma_unroll_functions_each(functions, k + 1, done.push(f), p, limit);
        let all = unroll_functions(functions, k, done, p, limit).unwrap();
        assert(all.take(k + 1)[k] == all[k]);
        assert(all.take(k) == all.take(k + 1).take(k));
    } else {
        assert(done.take(k) == done);
    }
}

/// Unrolling keeps every call, however deep.
proof fn lemma_calls_kept(program: SpecTypedProgram, limit: usize, fuel: nat)
    requires
        program.field.wf(),
        unrolled(program, limit) is Ok,
    ensures
        calls_kept(
            program.functions,
            unrolled(program, limit).unwrap().functions,
            program.field.modulus as int,
            fuel,
        ),
    decreases fuel,
{
    let source = program.functions;
    let us = unrolled(program, limit).unwrap().functions;
    let p = program.field.modulus as int;
    lemma_unroll_functions_each(source, 0, Seq::<SpecFunction>::empty(), p, limit);
    if fuel > 0 {
        lemma_calls_kept(program, limit, (fuel - 1) as nat);
        assert forall|callee: usize, arguments: Seq<Value>|
            (#[trigger] call(source, callee, arguments, p, false, fuel)) is Some implies call(
            us,
            callee,
            arguments,
            p,
            true,
            fuel,
        ) == call(source, callee, arguments, p, false, fuel) by {
            let f = source[callee as int];
            let u = us[callee as int];
            assert(unroll_function(f, p, callee, limit) == Ok::<SpecFunction, AnalysisError>(u));
            let begin = start(f, limit);
            let done = unroll_from(f.statements, 0, begin, p, callee).unwrap();
            lemma_from_grows(f.statements, 0, begin, p, callee);
            let small = empty_env(f.variable_count as int);
            let large = empty_env(u.variable_count as int);
            assert(u.variable_count == done.next);
            lemma_bind_larger(f.parameters, 0, arguments, small, large);
            let env = bind_arguments(f.parameters, 0, arguments, small).unwrap();
            let ssa = bind_arguments(f.parameters, 0, arguments, large).unwrap();
            assert forall|x: int| 0 <= x < begin.names.len() implies ssa[(
            #[trigger] begin.names[x]).id as int] == env[x] by {
                assert(begin.names[x].id == x);
            }
            assert(follows(begin, env, ssa));
            lemma_from_kept(
                source,
                us,
                f.statements,
                0,
                begin,
                env,
                ssa,
                p,
                callee,
                (fuel - 1) as nat,
            );
            assert(done.out.take(done.out.len() as int) == done.out);
        }
    }
}

/// Unrolling keeps the meaning of programs. Where a function of the
/// source returns values on some arguments, with every variable free to
/// be assigned again, the unrolled function returns the same values,
/// with every variable assigned once.
pub proof fn unrolling_keeps_meaning(
    program: SpecTypedProgram,
    limit: usize,
    callee: usize,
    arguments: Seq<Value>,
    fuel: nat,
)
    requires
        program.field.wf(),
        unrolled(program, limit) is Ok,
        call(program.functions, callee, arguments, program.field.modulus as int, false, fuel)
            is Some,
    ensures
        call(
            unrolled(program, limit).unwrap().functions,
            callee,
            arguments,
            program.field.modulus as int,
            true,
            fuel,
        ) == call(program.functions, callee, arguments, program.field.modulus as int, false, fuel),
{
    lemma_calls_kept(program, limit, fuel);
}

} // verus!
