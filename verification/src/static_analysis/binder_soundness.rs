//! Binding the returns changes nothing that a program computes.

use crate::semantics::{
    assign_variable, call, calls_same, entered, lemma_bind_larger, lemma_run_block_shift,
    lemma_statement_padded, of_kinds, padded, run_block, run_statement, Outcome,
};
use crate::static_analysis::return_binder::{
    bind_statements, bound, bound_return, returned_count, returned_variable, variables,
};
use crate::typed_absy::{
    empty_env, evaluate, evaluate_each, lemma_known, Expression, Identifier, Kind, SpecFunction,
    SpecTypedProgram, SpecTypedStatement, Value,
};
use vstd::prelude::*;

verus! {

/// No count of returned values is negative.
proof fn lemma_count(s: Seq<SpecTypedStatement>)
    ensures
        returned_count(s) >= 0,
    decreases s.len(),
{
    if s.len() > 0 {
        lemma_count(s.drop_first());
    }
}

/// The environment `cur` is `env` with the first `j` of the values in
/// the variables from `next` on, and nothing else added.
spec fn filled(
    env: Seq<Option<Value>>,
    cur: Seq<Option<Value>>,
    next: int,
    j: int,
    vs: Seq<Value>,
) -> bool {
    &&& env.len() <= next
    &&& next + vs.len() <= cur.len() <= usize::MAX
    &&& forall|i: int| 0 <= i < env.len() ==> #[trigger] cur[i] == env[i]
    &&& forall|i: int| env.len() <= i < next ==> (#[trigger] cur[i]) is None
    &&& forall|i: int| next <= i < next + j ==> #[trigger] cur[i] == Some(vs[i - next])
    &&& forall|i: int| next + j <= i < cur.len() ==> (#[trigger] cur[i]) is None
}

/// A bound return, run from its `j`-th definition on, returns what the
/// return returned.
proof fn lemma_bound_return(
    functions: Seq<SpecFunction>,
    all: Seq<SpecTypedStatement>,
    es: Seq<Expression>,
    next: int,
    kinds: Seq<Kind>,
    j: int,
    env: Seq<Option<Value>>,
    cur: Seq<Option<Value>>,
    vs: Seq<Value>,
    p: int,
    fuel: nat,
)
    requires
        0 <= j <= es.len() < all.len(),
        forall|i: int|
            0 <= i < es.len() ==> #[trigger] all[i] == SpecTypedStatement::Definition(
                Identifier { id: (next + i) as usize },
                es[i],
            ),
        all[es.len() as int] == SpecTypedStatement::Return(variables(es.len() as int, next, kinds)),
        evaluate_each(es, env, p) == Some(vs),
        of_kinds(vs, kinds),
        filled(env, cur, next, j, vs),
    ensures
        run_block(functions, all, j, cur, p, true, fuel) is Some,
        run_block(functions, all, j, cur, p, true, fuel).unwrap().returned == Some(vs),
    decreases es.len() - j,
{
    if j < es.len() {
        assert(evaluate(es[j], env, p) is Some);
        assert(vs[j] == evaluate(es[j], env, p).unwrap());
        lemma_known(es[j], env, cur, p);
        let id = Identifier { id: (next + j) as usize };
        assert(cur[next + j] is None);
        let after = assign_variable(cur, id, vs[j], true).unwrap();
        assert(filled(env, after, next, j + 1, vs)) by {
            assert forall|i: int| next <= i < next + j + 1 implies #[trigger] after[i] == Some(
                vs[i - next],
            ) by {
                if i < next + j {
                    assert(cur[i] == Some(vs[i - next]));
                }
            }
            assert forall|i: int| next + j + 1 <= i < after.len() implies (#[trigger] after[i])
                is None by {
                assert(cur[i] is None);
            }
            assert forall|i: int| 0 <= i < env.len() implies #[trigger] after[i] == env[i] by {
                assert(cur[i] == env[i]);
            }
            assert forall|i: int| env.len() <= i < next implies (#[trigger] after[i]) is None by {
                assert(cur[i] is None);
            }
        }
        assert(evaluate(es[j], cur, p) == Some(vs[j]));
        assert(all[j] == SpecTypedStatement::Definition(id, es[j]));
        assert(run_statement(functions, all[j], cur, p, true, fuel) == Some(
            Outcome { env: after, returned: None },
        ));
        lemma_bound_return(functions, all, es, next, kinds, j + 1, env, after, vs, p, fuel);
    } else {
        let rs = variables(es.len() as int, next, kinds);
        assert forall|i: int| 0 <= i < rs.len() implies evaluate(#[trigger] rs[i], cur, p) == Some(
            vs[i],
        ) by {
            assert(cur[next + i] == Some(vs[(next + i) - next]));
            assert(crate::typed_absy::of_kind(vs[i], kinds[i]));
            assert(rs[i] == returned_variable(kinds, i, next + i));
        }
        assert(evaluate_each(rs, cur, p) is Some);
        assert(evaluate_each(rs, cur, p).unwrap() =~= vs);
        assert(run_statement(functions, all[j], cur, p, true, fuel) == Some(
            Outcome { env: cur, returned: Some(vs) },
        ));
    }
}

/// A block with its returns bound returns, in a padded environment,
/// what the block returns.
proof fn lemma_bound_block(
    first: Seq<SpecFunction>,
    second: Seq<SpecFunction>,
    body: Seq<SpecTypedStatement>,
    k: int,
    next: int,
    kinds: Seq<Kind>,
    env: Seq<Option<Value>>,
    larger: Seq<Option<Value>>,
    p: int,
    fuel: nat,
)
    requires
        0 <= k <= body.len(),
        padded(env, larger),
        env.len() <= next,
        next + returned_count(body.skip(k)) <= larger.len() <= usize::MAX,
        run_block(first, body, k, env, p, true, fuel) is Some,
        run_block(first, body, k, env, p, true, fuel).unwrap().returned is Some ==> of_kinds(
            run_block(first, body, k, env, p, true, fuel).unwrap().returned.unwrap(),
            kinds,
        ),
        calls_same(first, second, p, true, fuel),
    ensures
        run_block(second, bind_statements(body.skip(k), next, kinds), 0, larger, p, true, fuel)
            is Some,
        run_block(
            second,
            bind_statements(body.skip(k), next, kinds),
            0,
            larger,
            p,
            true,
            fuel,
        ).unwrap().returned == run_block(first, body, k, env, p, true, fuel).unwrap().returned,
    decreases body.len() - k,
{
    let rest = body.skip(k);
    if k < body.len() {
        assert(rest[0] == body[k]);
        assert(rest.drop_first() == body.skip(k + 1));
        lemma_count(body.skip(k + 1));
        match body[k] {
            SpecTypedStatement::Return(es) => {
                assert(run_statement(first, body[k], env, p, true, fuel) is Some);
                let vs = evaluate_each(es, env, p).unwrap();
                assert(run_block(first, body, k, env, p, true, fuel) == Some(
                    Outcome { env, returned: Some(vs) },
                ));
                let head = bound_return(es, next, kinds);
                let tail = bind_statements(body.skip(k + 1), next + es.len(), kinds);
                let all = head + tail;
                assert(bind_statements(rest, next, kinds) == all);
                assert forall|i: int| 0 <= i < es.len() implies #[trigger] all[i]
                    == SpecTypedStatement::Definition(Identifier { id: (next + i) as usize }, es[i]) by {
                    assert(all[i] == head[i]);
                }
                assert(all[es.len() as int] == head[es.len() as int]);
                lemma_bound_return(second, all, es, next, kinds, 0, env, larger, vs, p, fuel);
            },
            other => {
                let tail = bind_statements(body.skip(k + 1), next, kinds);
                let all = seq![other] + tail;
                assert(bind_statements(rest, next, kinds) == all);
                assert(all[0] == other);
                lemma_statement_padded(first, second, other, env, larger, p, true, fuel);
                let o = run_statement(first, other, env, p, true, fuel).unwrap();
                let o2 = run_statement(second, other, larger, p, true, fuel).unwrap();
                if o.returned is None {
                    lemma_run_block_shift(second, seq![other], tail, 0, o2.env, p, true, fuel);
                    lemma_bound_block(
                        first,
                        second,
                        body,
                        k + 1,
                        next,
                        kinds,
                        o.env,
                        o2.env,
                        p,
                        fuel,
                    );
                }
            },
        }
    }
}

/// Calls at most `fuel` deep return with the bound functions what they
/// return with the functions.
proof fn lemma_bound_calls(program: SpecTypedProgram, p: int, fuel: nat)
    requires
        bound(program) is Ok,
    ensures
        calls_same(program.functions, bound(program).unwrap().functions, p, true, fuel),
    decreases fuel,
{
    let first = program.functions;
    let second = bound(program).unwrap().functions;
    assert forall|callee: usize, arguments: Seq<Value>|
        (#[trigger] call(first, callee, arguments, p, true, fuel)) is Some implies call(
        second,
        callee,
        arguments,
        p,
        true,
        fuel,
    ) == call(first, callee, arguments, p, true, fuel) by {
        lemma_bound_calls(program, p, (fuel - 1) as nat);
        let f = first[callee as int];
        let g = second[callee as int];
        lemma_count(f.statements);
        let env = entered(first, callee, arguments, fuel).unwrap();
        lemma_bind_larger(
            f.parameters,
            0,
            arguments,
            empty_env(f.variable_count as int),
            empty_env(g.variable_count as int),
        );
        let larger = entered(second, callee, arguments, fuel).unwrap();
        assert(f.statements.skip(0) == f.statements);
        lemma_bound_block(
            first,
            second,
            f.statements,
            0,
            f.variable_count as int,
            f.outputs,
            env,
            larger,
            p,
            (fuel - 1) as nat,
        );
    }
}

/// Binding keeps the meaning: a call that returns in a program returns
/// the same values in the program with its returns bound, under the
/// strict reading.
pub proof fn binding_keeps_meaning(
    program: SpecTypedProgram,
    callee: usize,
    arguments: Seq<Value>,
    fuel: nat,
)
    requires
        bound(program) is Ok,
        call(program.functions, callee, arguments, program.field.modulus as int, true, fuel)
            is Some,
    ensures
        call(
            bound(program).unwrap().functions,
            callee,
            arguments,
            program.field.modulus as int,
            true,
            fuel,
        ) == call(program.functions, callee, arguments, program.field.modulus as int, true, fuel),
{
    lemma_bound_calls(program, program.field.modulus as int, fuel);
}

} // verus!
