//! Logging changes nothing that a program computes.

use crate::semantics::{
    call, calls_same, entered, lemma_statement_padded, run_block, run_statement, Outcome,
};
use crate::static_analysis::statement_logger::{log_statements, logged, statement_text};
use crate::typed_absy::{SpecFunction, SpecTypedProgram, SpecTypedStatement, Value};
use vstd::prelude::*;

verus! {

/// A logged list is twice as long as the list.
pub proof fn lemma_log_statements_len(s: Seq<SpecTypedStatement>)
    ensures
        log_statements(s).len() == 2 * s.len(),
    decreases s.len(),
{
    if s.len() > 0 {
        lemma_log_statements_len(s.drop_last());
    }
}

/// In a logged list each statement stands behind its log.
pub proof fn lemma_log_statements(s: Seq<SpecTypedStatement>, k: int)
    requires
        0 <= k < s.len(),
    ensures
        log_statements(s)[2 * k] == SpecTypedStatement::Log(statement_text(s[k])),
        log_statements(s)[2 * k + 1] == s[k],
    decreases s.len(),
{
    lemma_log_statements_len(s.drop_last());
    if k < s.len() - 1 {
        lemma_log_statements(s.drop_last(), k);
    }
}

/// A logged block leaves what the block leaves.
proof fn lemma_logged_block(
    first: Seq<SpecFunction>,
    second: Seq<SpecFunction>,
    body: Seq<SpecTypedStatement>,
    k: int,
    env: Seq<Option<Value>>,
    p: int,
    strict: bool,
    fuel: nat,
)
    requires
        0 <= k <= body.len(),
        run_block(first, body, k, env, p, strict, fuel) is Some,
        calls_same(first, second, p, strict, fuel),
    ensures
        run_block(second, log_statements(body), 2 * k, env, p, strict, fuel) == run_block(
            first,
            body,
            k,
            env,
            p,
            strict,
            fuel,
        ),
    decreases body.len() - k,
{
    lemma_log_statements_len(body);
    if k < body.len() {
        lemma_log_statements(body, k);
        let logs = log_statements(body);
        assert(run_statement(second, logs[2 * k], env, p, strict, fuel) == Some(
            Outcome { env, returned: None },
        ));
        lemma_statement_padded(first, second, body[k], env, env, p, strict, fuel);
        let o = run_statement(first, body[k], env, p, strict, fuel).unwrap();
        let o2 = run_statement(second, body[k], env, p, strict, fuel).unwrap();
        assert(o2.env =~= o.env);
        assert(run_block(second, logs, 2 * k, env, p, strict, fuel) == run_block(
            second,
            logs,
            2 * k + 1,
            env,
            p,
            strict,
            fuel,
        ));
        if o.returned is None {
            lemma_logged_block(first, second, body, k + 1, o.env, p, strict, fuel);
        }
    }
}

/// Calls at most `fuel` deep return with the logged functions what they
/// return with the functions.
proof fn lemma_logged_calls(program: SpecTypedProgram, p: int, strict: bool, fuel: nat)
    ensures
        calls_same(program.functions, logged(program).functions, p, strict, fuel),
    decreases fuel,
{
    let first = program.functions;
    let second = logged(program).functions;
    assert forall|callee: usize, arguments: Seq<Value>|
        (#[trigger] call(first, callee, arguments, p, strict, fuel)) is Some implies call(
        second,
        callee,
        arguments,
        p,
        strict,
        fuel,
    ) == call(first, callee, arguments, p, strict, fuel) by {
        lemma_logged_calls(program, p, strict, (fuel - 1) as nat);
        let env = entered(first, callee, arguments, fuel).unwrap();
        assert(entered(second, callee, arguments, fuel) == Some(env));
        lemma_logged_block(
            first,
            second,
            first[callee as int].statements,
            0,
            env,
            p,
            strict,
            (fuel - 1) as nat,
        );
    }
}

/// Logging keeps the meaning: a call that returns in a program returns
/// the same values in the logged program, under either reading.
pub proof fn logging_keeps_meaning(
    program: SpecTypedProgram,
    strict: bool,
    callee: usize,
    arguments: Seq<Value>,
    fuel: nat,
)
    requires
        call(program.functions, callee, arguments, program.field.modulus as int, strict, fuel)
            is Some,
    ensures
        call(
            logged(program).functions,
            callee,
            arguments,
            program.field.modulus as int,
            strict,
            fuel,
        ) == call(program.functions, callee, arguments, program.field.modulus as int, strict, fuel),
{
    lemma_logged_calls(program, program.field.modulus as int, strict, fuel);
}

} // verus!
