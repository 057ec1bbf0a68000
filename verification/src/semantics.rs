//! What typed programs mean.
//!
//! A function is run on arguments: its parameters take them, and its
//! statements are executed in order until one returns. A loop runs its
//! body once for each value of its range; a call runs the function that
//! it names. The depth of calls is limited, so that every run ends.
//!
//! There are two readings. In the loose one a variable can be assigned
//! again and again, as the body of a loop does. In the strict one a
//! variable is assigned once: this is the reading of programs in
//! single-assignment form.

use crate::typed_absy::{
    bind_arguments, empty_env, evaluate, evaluate_each, of_kind, Expression, Identifier, Kind,
    Parameter, SpecFunction, SpecTypedStatement, Value,
};
use vstd::prelude::*;

verus! {

/// What a statement leaves: the environment, and the values returned
/// where a return was executed.
pub struct Outcome {
    pub env: Seq<Option<Value>>,
    pub returned: Option<Seq<Value>>,
}

/// The environment with a variable assigned. Under the strict reading
/// the variable must have no value yet.
pub open spec fn assign_variable(
    env: Seq<Option<Value>>,
    id: Identifier,
    v: Value,
    strict: bool,
) -> Option<Seq<Option<Value>>> {
    if id.id < env.len() && (!strict || env[id.id as int] is None) {
        Some(env.update(id.id as int, Some(v)))
    } else {
        None
    }
}

/// The environment with the variables from the `k`-th on assigned the
/// values.
pub open spec fn assign_variables(
    env: Seq<Option<Value>>,
    ids: Seq<Identifier>,
    values: Seq<Value>,
    k: int,
    strict: bool,
) -> Option<Seq<Option<Value>>>
    decreases ids.len() - k,
{
    if k < 0 || k >= ids.len() {
        Some(env)
    } else if k >= values.len() {
        None
    } else {
        match assign_variable(env, ids[k], values[k], strict) {
            Some(next) => assign_variables(next, ids, values, k + 1, strict),
            None => None,
        }
    }
}

/// The values are of the kinds, one for one.
pub open spec fn of_kinds(values: Seq<Value>, kinds: Seq<Kind>) -> bool {
    values.len() == kinds.len() && forall|k: int|
        0 <= k < values.len() ==> of_kind(#[trigger] values[k], kinds[k])
}

/// The environment in which a function starts on the arguments: its
/// parameters hold them. There is none for a function that the program
/// does not have, for arguments that do not fit, and where no call is
/// left to make.
pub open spec fn entered(
    functions: Seq<SpecFunction>,
    callee: usize,
    arguments: Seq<Value>,
    fuel: nat,
) -> Option<Seq<Option<Value>>> {
    if fuel == 0 || callee >= functions.len() {
        None
    } else if arguments.len() != functions[callee as int].parameters.len() {
        None
    } else {
        bind_arguments(
            functions[callee as int].parameters,
            0,
            arguments,
            empty_env(functions[callee as int].variable_count as int),
        )
    }
}

/// What a statement leaves of an environment, with calls at most `fuel`
/// deep.
pub open spec fn run_statement(
    functions: Seq<SpecFunction>,
    s: SpecTypedStatement,
    env: Seq<Option<Value>>,
    p: int,
    strict: bool,
    fuel: nat,
) -> Option<Outcome>
    decreases fuel, s, 0int, 0int,
{
    match s {
        SpecTypedStatement::Definition(id, e) => match evaluate(e, env, p) {
            Some(v) => match assign_variable(env, id, v, strict) {
                Some(next) => Some(Outcome { env: next, returned: None }),
                None => None,
            },
            None => None,
        },
        SpecTypedStatement::Condition(a, b) => match (evaluate(a, env, p), evaluate(b, env, p)) {
            (Some(x), Some(y)) => if x == y {
                Some(Outcome { env, returned: None })
            } else {
                None
            },
            _ => None,
        },
        SpecTypedStatement::Log(_) => Some(Outcome { env, returned: None }),
        SpecTypedStatement::Return(es) => match evaluate_each(es, env, p) {
            Some(values) => Some(Outcome { env, returned: Some(values) }),
            None => None,
        },
        SpecTypedStatement::For(id, from, to, body) => match (
            evaluate(from, env, p),
            evaluate(to, env, p),
        ) {
            (Some(Value::Field(low)), Some(Value::Field(high))) => run_loop(
                functions,
                id,
                body,
                low as int,
                high as int,
                env,
                p,
                strict,
                fuel,
            ),
            _ => None,
        },
        SpecTypedStatement::MultipleDefinition(ids, callee, args) => match evaluate_each(
            args,
            env,
            p,
        ) {
            Some(values) => match entered(functions, callee, values, fuel) {
                Some(inner) => match run_block(
                    functions,
                    functions[callee as int].statements,
                    0,
                    inner,
                    p,
                    strict,
                    (fuel - 1) as nat,
                ) {
                    Some(outcome) => match outcome.returned {
                        Some(returned) => if returned.len() == ids.len() && of_kinds(
                            returned,
                            functions[callee as int].outputs,
                        ) {
                            match assign_variables(env, ids, returned, 0, strict) {
                                Some(next) => Some(Outcome { env: next, returned: None }),
                                None => None,
                            }
                        } else {
                            None
                        },
                        None => None,
                    },
                    None => None,
                },
                None => None,
            },
            None => None,
        },
    }
}

/// What the iterations of a loop from the value `v` on leave.
pub open spec fn run_loop(
    functions: Seq<SpecFunction>,
    id: Identifier,
    body: Seq<SpecTypedStatement>,
    v: int,
    high: int,
    env: Seq<Option<Value>>,
    p: int,
    strict: bool,
    fuel: nat,
) -> Option<Outcome>
    decreases fuel, body, 1int, high - v,
{
    if v >= high {
        Some(Outcome { env, returned: None })
    } else {
        match assign_variable(env, id, Value::Field(v as u64), strict) {
            None => None,
            Some(entered) => match run_block(functions, body, 0, entered, p, strict, fuel) {
                None => None,
                Some(outcome) => if outcome.returned is Some {
                    Some(outcome)
                } else {
                    run_loop(functions, id, body, v + 1, high, outcome.env, p, strict, fuel)
                },
            },
        }
    }
}

/// What the statements of a block from the `k`-th on leave. A return
/// ends the block.
pub open spec fn run_block(
    functions: Seq<SpecFunction>,
    body: Seq<SpecTypedStatement>,
    k: int,
    env: Seq<Option<Value>>,
    p: int,
    strict: bool,
    fuel: nat,
) -> Option<Outcome>
    decreases fuel, body, 0int, body.len() - k,
{
    if k < 0 || k >= body.len() {
        Some(Outcome { env, returned: None })
    } else {
        match run_statement(functions, body[k], env, p, strict, fuel) {
            None => None,
            Some(outcome) => if outcome.returned is Some {
                Some(outcome)
            } else {
                run_block(functions, body, k + 1, outcome.env, p, strict, fuel)
            },
        }
    }
}

/// What a function returns on the arguments, with calls at most `fuel`
/// deep: the values of its first return, which have to be of the kinds
/// that the function declares.
pub open spec fn call(
    functions: Seq<SpecFunction>,
    callee: usize,
    arguments: Seq<Value>,
    p: int,
    strict: bool,
    fuel: nat,
) -> Option<Seq<Value>> {
    match entered(functions, callee, arguments, fuel) {
        None => None,
        Some(env) => match run_block(
            functions,
            functions[callee as int].statements,
            0,
            env,
            p,
            strict,
            (fuel - 1) as nat,
        ) {
            Some(outcome) => match outcome.returned {
                Some(returned) => if of_kinds(returned, functions[callee as int].outputs) {
                    Some(returned)
                } else {
                    None
                },
                None => None,
            },
            None => None,
        },
    }
}

} // verus!

verus! {

/// What the statements from the `from`-th up to the `to`-th leave.
pub open spec fn run_range(
    functions: Seq<SpecFunction>,
    body: Seq<SpecTypedStatement>,
    from: int,
    to: int,
    env: Seq<Option<Value>>,
    p: int,
    strict: bool,
    fuel: nat,
) -> Option<Outcome> {
    run_block(functions, body.take(to), from, env, p, strict, fuel)
}

/// A run of a block depends on the statements that it reaches alone.
pub proof fn lemma_run_block_same(
    functions: Seq<SpecFunction>,
    a: Seq<SpecTypedStatement>,
    b: Seq<SpecTypedStatement>,
    k: int,
    env: Seq<Option<Value>>,
    p: int,
    strict: bool,
    fuel: nat,
)
    requires
        0 <= k,
        a.len() == b.len(),
        forall|i: int| k <= i < a.len() ==> a[i] == b[i],
    ensures
        run_block(functions, a, k, env, p, strict, fuel) == run_block(
            functions,
            b,
            k,
            env,
            p,
            strict,
            fuel,
        ),
    decreases a.len() - k,
{
    if k < a.len() {
        match run_statement(functions, a[k], env, p, strict, fuel) {
            Some(outcome) => {
                if outcome.returned is None {
                    lemma_run_block_same(functions, a, b, k + 1, outcome.env, p, strict, fuel);
                }
            },
            None => {},
        }
    }
}

/// A run up to some statement, and from there on, is a run of all.
pub proof fn lemma_run_range_split(
    functions: Seq<SpecFunction>,
    body: Seq<SpecTypedStatement>,
    from: int,
    mid: int,
    to: int,
    env: Seq<Option<Value>>,
    p: int,
    strict: bool,
    fuel: nat,
)
    requires
        0 <= from <= mid <= to <= body.len(),
    ensures
        run_range(functions, body, from, to, env, p, strict, fuel) == (match run_range(
            functions,
            body,
            from,
            mid,
            env,
            p,
            strict,
            fuel,
        ) {
            None => None,
            Some(outcome) => if outcome.returned is Some {
                Some(outcome)
            } else {
                run_range(functions, body, mid, to, outcome.env, p, strict, fuel)
            },
        }),
    decreases mid - from,
{
    let whole = body.take(to);
    let part = body.take(mid);
    if from < mid {
        assert(whole[from] == body[from]);
        assert(part[from] == body[from]);
        match run_statement(functions, body[from], env, p, strict, fuel) {
            Some(outcome) => {
                if outcome.returned is None {
                    lemma_run_range_split(
                        functions,
                        body,
                        from + 1,
                        mid,
                        to,
                        outcome.env,
                        p,
                        strict,
                        fuel,
                    );
                }
            },
            None => {},
        }
    }
}

/// A run of the statements up to the `to`-th is the same in every list
/// that starts with them.
pub proof fn lemma_run_range_start(
    functions: Seq<SpecFunction>,
    a: Seq<SpecTypedStatement>,
    b: Seq<SpecTypedStatement>,
    from: int,
    to: int,
    env: Seq<Option<Value>>,
    p: int,
    strict: bool,
    fuel: nat,
)
    requires
        0 <= from <= to <= a.len() <= b.len(),
        b.take(a.len() as int) == a,
    ensures
        run_range(functions, a, from, to, env, p, strict, fuel) == run_range(
            functions,
            b,
            from,
            to,
            env,
            p,
            strict,
            fuel,
        ),
{
    assert(a.take(to) == b.take(to)) by {
        assert(b.take(a.len() as int).take(to) == b.take(to));
    }
}

/// A run of one statement.
pub proof fn lemma_run_range_one(
    functions: Seq<SpecFunction>,
    body: Seq<SpecTypedStatement>,
    k: int,
    env: Seq<Option<Value>>,
    p: int,
    strict: bool,
    fuel: nat,
)
    requires
        0 <= k < body.len(),
    ensures
        run_range(functions, body, k, k + 1, env, p, strict, fuel) == run_statement(
            functions,
            body[k],
            env,
            p,
            strict,
            fuel,
        ),
        run_range(functions, body, k, k, env, p, strict, fuel) == Some(
            Outcome { env, returned: None },
        ),
{
    let one = body.take(k + 1);
    assert(one[k] == body[k]);
    match run_statement(functions, body[k], env, p, strict, fuel) {
        Some(outcome) => {
            if outcome.returned is None {
                assert(run_block(functions, one, k + 1, outcome.env, p, strict, fuel) == Some(
                    Outcome { env: outcome.env, returned: None },
                ));
                assert(outcome == Outcome { env: outcome.env, returned: None });
            }
        },
        None => {},
    }
}

} // verus!

verus! {

/// The second environment is the first with variables without value
/// added at the end.
pub open spec fn padded(env: Seq<Option<Value>>, larger: Seq<Option<Value>>) -> bool {
    &&& env.len() <= larger.len()
    &&& forall|i: int| 0 <= i < env.len() ==> #[trigger] larger[i] == env[i]
    &&& forall|i: int| env.len() <= i < larger.len() ==> (#[trigger] larger[i]) is None
}

/// Every call that returns with the first functions returns the same
/// with the second.
pub open spec fn calls_same(
    first: Seq<SpecFunction>,
    second: Seq<SpecFunction>,
    p: int,
    strict: bool,
    fuel: nat,
) -> bool {
    forall|callee: usize, arguments: Seq<Value>|
        (#[trigger] call(first, callee, arguments, p, strict, fuel)) is Some ==> call(
            second,
            callee,
            arguments,
            p,
            strict,
            fuel,
        ) == call(first, callee, arguments, p, strict, fuel)
}

/// What a piece of a program leaves in a padded environment: what it
/// leaves in the environment, padded.
pub open spec fn padded_outcome(small: Option<Outcome>, large: Option<Outcome>) -> bool {
    &&& large is Some
    &&& small.unwrap().returned == large.unwrap().returned
    &&& padded(small.unwrap().env, large.unwrap().env)
}

/// Expressions have the same values in a padded environment.
pub proof fn lemma_evaluate_each_padded(
    es: Seq<Expression>,
    env: Seq<Option<Value>>,
    larger: Seq<Option<Value>>,
    p: int,
)
    requires
        padded(env, larger),
        evaluate_each(es, env, p) is Some,
    ensures
        evaluate_each(es, larger, p) == evaluate_each(es, env, p),
{
    assert forall|k: int| 0 <= k < es.len() implies evaluate(#[trigger] es[k], larger, p)
        == evaluate(es[k], env, p) by {
        assert(evaluate(es[k], env, p) is Some);
        crate::typed_absy::lemma_known(es[k], env, larger, p);
    }
    assert(evaluate_each(es, larger, p).unwrap() =~= evaluate_each(es, env, p).unwrap());
}

/// Variables are assigned alike in a padded environment.
pub proof fn lemma_assign_variables_padded(
    env: Seq<Option<Value>>,
    larger: Seq<Option<Value>>,
    ids: Seq<Identifier>,
    values: Seq<Value>,
    k: int,
    strict: bool,
)
    requires
        0 <= k,
        padded(env, larger),
        assign_variables(env, ids, values, k, strict) is Some,
    ensures
        assign_variables(larger, ids, values, k, strict) is Some,
        padded(
            assign_variables(env, ids, values, k, strict).unwrap(),
            assign_variables(larger, ids, values, k, strict).unwrap(),
        ),
        assign_variables(env, ids, values, k, strict).unwrap().len() == env.len(),
        assign_variables(larger, ids, values, k, strict).unwrap().len() == larger.len(),
    decreases ids.len() - k,
{
    if k < ids.len() {
        let id = ids[k].id as int;
        lemma_assign_variables_padded(
            env.update(id, Some(values[k])),
            larger.update(id, Some(values[k])),
            ids,
            values,
            k + 1,
            strict,
        );
    }
}

/// A statement runs alike in a padded environment, with functions that
/// return alike.
pub proof fn lemma_statement_padded(
    first: Seq<SpecFunction>,
    second: Seq<SpecFunction>,
    s: SpecTypedStatement,
    env: Seq<Option<Value>>,
    larger: Seq<Option<Value>>,
    p: int,
    strict: bool,
    fuel: nat,
)
    requires
        padded(env, larger),
        run_statement(first, s, env, p, strict, fuel) is Some,
        calls_same(first, second, p, strict, fuel),
    ensures
        padded_outcome(
            run_statement(first, s, env, p, strict, fuel),
            run_statement(second, s, larger, p, strict, fuel),
        ),
        run_statement(first, s, env, p, strict, fuel).unwrap().env.len() == env.len(),
        run_statement(second, s, larger, p, strict, fuel).unwrap().env.len() == larger.len(),
    decreases s, 0int, 0int,
{
    match s {
        SpecTypedStatement::Definition(id, e) => {
            crate::typed_absy::lemma_known(e, env, larger, p);
        },
        SpecTypedStatement::Condition(a, b) => {
            crate::typed_absy::lemma_known(a, env, larger, p);
            crate::typed_absy::lemma_known(b, env, larger, p);
        },
        SpecTypedStatement::Log(_) => {},
        SpecTypedStatement::Return(es) => {
            lemma_evaluate_each_padded(es, env, larger, p);
        },
        SpecTypedStatement::For(id, from, to, body) => {
            crate::typed_absy::lemma_known(from, env, larger, p);
            crate::typed_absy::lemma_known(to, env, larger, p);
            let low = evaluate(from, env, p).unwrap()->Field_0;
            let high = evaluate(to, env, p).unwrap()->Field_0;
            lemma_loop_padded(
                first,
                second,
                id,
                body,
                low as int,
                high as int,
                env,
                larger,
                p,
                strict,
                fuel,
            );
        },
        SpecTypedStatement::MultipleDefinition(ids, callee, args) => {
            lemma_evaluate_each_padded(args, env, larger, p);
            let values = evaluate_each(args, env, p).unwrap();
            let returned = call(first, callee, values, p, strict, fuel).unwrap();
            assert(call(second, callee, values, p, strict, fuel) == Some(returned));
            lemma_assign_variables_padded(env, larger, ids, returned, 0, strict);
        },
    }
}

/// The iterations of a loop run alike in a padded environment.
pub proof fn lemma_loop_padded(
    first: Seq<SpecFunction>,
    second: Seq<SpecFunction>,
    id: Identifier,
    body: Seq<SpecTypedStatement>,
    v: int,
    high: int,
    env: Seq<Option<Value>>,
    larger: Seq<Option<Value>>,
    p: int,
    strict: bool,
    fuel: nat,
)
    requires
        padded(env, larger),
        run_loop(first, id, body, v, high, env, p, strict, fuel) is Some,
        calls_same(first, second, p, strict, fuel),
    ensures
        padded_outcome(
            run_loop(first, id, body, v, high, env, p, strict, fuel),
            run_loop(second, id, body, v, high, larger, p, strict, fuel),
        ),
        run_loop(first, id, body, v, high, env, p, strict, fuel).unwrap().env.len() == env.len(),
        run_loop(second, id, body, v, high, larger, p, strict, fuel).unwrap().env.len()
            == larger.len(),
    decreases body, 1int, high - v,
{
    if v < high {
        let value = Value::Field(v as u64);
        let entered_small = env.update(id.id as int, Some(value));
        let entered_large = larger.update(id.id as int, Some(value));
        lemma_block_padded(first, second, body, 0, entered_small, entered_large, p, strict, fuel);
        let inner = run_block(first, body, 0, entered_small, p, strict, fuel).unwrap();
        let inner_large = run_block(second, body, 0, entered_large, p, strict, fuel).unwrap();
        if inner.returned is None {
            lemma_loop_padded(
                first,
                second,
                id,
                body,
                v + 1,
                high,
                inner.env,
                inner_large.env,
                p,
                strict,
                fuel,
            );
        }
    }
}

/// The statements of a block run alike in a padded environment.
pub proof fn lemma_block_padded(
    first: Seq<SpecFunction>,
    second: Seq<SpecFunction>,
    body: Seq<SpecTypedStatement>,
    k: int,
    env: Seq<Option<Value>>,
    larger: Seq<Option<Value>>,
    p: int,
    strict: bool,
    fuel: nat,
)
    requires
        padded(env, larger),
        run_block(first, body, k, env, p, strict, fuel) is Some,
        calls_same(first, second, p, strict, fuel),
    ensures
        padded_outcome(
            run_block(first, body, k, env, p, strict, fuel),
            run_block(second, body, k, larger, p, strict, fuel),
        ),
        run_block(first, body, k, env, p, strict, fuel).unwrap().env.len() == env.len(),
        run_block(second, body, k, larger, p, strict, fuel).unwrap().env.len() == larger.len(),
    decreases body, 0int, body.len() - k,
{
    if 0 <= k < body.len() {
        lemma_statement_padded(first, second, body[k], env, larger, p, strict, fuel);
        let o = run_statement(first, body[k], env, p, strict, fuel).unwrap();
        let o2 = run_statement(second, body[k], larger, p, strict, fuel).unwrap();
        if o.returned is None {
            lemma_block_padded(first, second, body, k + 1, o.env, o2.env, p, strict, fuel);
        }
    }
}

} // verus!

verus! {

/// Arguments are bound alike in a larger environment.
pub proof fn lemma_bind_larger(
    parameters: Seq<Parameter>,
    k: int,
    arguments: Seq<Value>,
    env: Seq<Option<Value>>,
    larger: Seq<Option<Value>>,
)
    requires
        0 <= k,
        env.len() <= larger.len(),
        forall|i: int| 0 <= i < env.len() ==> #[trigger] larger[i] == env[i],
        forall|i: int| env.len() <= i < larger.len() ==> (#[trigger] larger[i]) is None,
        bind_arguments(parameters, k, arguments, env) is Some,
    ensures
        bind_arguments(parameters, k, arguments, larger) is Some,
        bind_arguments(parameters, k, arguments, env).unwrap().len() == env.len(),
        bind_arguments(parameters, k, arguments, larger).unwrap().len() == larger.len(),
        forall|i: int|
            0 <= i < env.len() ==> #[trigger] bind_arguments(
                parameters,
                k,
                arguments,
                larger,
            ).unwrap()[i] == bind_arguments(parameters, k, arguments, env).unwrap()[i],
        forall|i: int|
            env.len() <= i < larger.len() ==> (#[trigger] bind_arguments(
                parameters,
                k,
                arguments,
                larger,
            ).unwrap()[i]) is None,
    decreases parameters.len() - k,
{
    if k < parameters.len() {
        let id = parameters[k].id.id as int;
        lemma_bind_larger(
            parameters,
            k + 1,
            arguments,
            env.update(id, Some(arguments[k])),
            larger.update(id, Some(arguments[k])),
        );
    }
}

/// A run of a block from behind some statements is a run of what
/// follows them.
pub proof fn lemma_run_block_shift(
    functions: Seq<SpecFunction>,
    front: Seq<SpecTypedStatement>,
    rest: Seq<SpecTypedStatement>,
    k: int,
    env: Seq<Option<Value>>,
    p: int,
    strict: bool,
    fuel: nat,
)
    requires
        0 <= k,
    ensures
        run_block(functions, front + rest, front.len() + k, env, p, strict, fuel) == run_block(
            functions,
            rest,
            k,
            env,
            p,
            strict,
            fuel,
        ),
    decreases rest.len() - k,
{
    if k < rest.len() {
        assert((front + rest)[front.len() + k] == rest[k]);
        match run_statement(functions, rest[k], env, p, strict, fuel) {
            Some(outcome) => {
                if outcome.returned is None {
                    lemma_run_block_shift(
                        functions,
                        front,
                        rest,
                        k + 1,
                        outcome.env,
                        p,
                        strict,
                        fuel,
                    );
                }
            },
            None => {},
        }
    }
}

/// A statement that is neither loop nor call does in the strict
/// reading what it does to the environment of a straight-line function.
pub proof fn lemma_straight_statement(
    functions: Seq<SpecFunction>,
    s: SpecTypedStatement,
    env: Seq<Option<Value>>,
    p: int,
    fuel: nat,
)
    requires
        crate::typed_absy::straight(s),
        !(s is Return),
    ensures
        match run_statement(functions, s, env, p, true, fuel) {
            Some(outcome) => outcome.returned is None && crate::typed_absy::perform(s, env, p)
                == Some(outcome.env),
            None => crate::typed_absy::perform(s, env, p) is None,
        },
{
}

/// What a straight-line block returns in the strict reading is what
/// the statements return.
pub proof fn lemma_straight_block(
    functions: Seq<SpecFunction>,
    body: Seq<SpecTypedStatement>,
    k: int,
    env: Seq<Option<Value>>,
    p: int,
    fuel: nat,
)
    requires
        0 <= k <= body.len(),
        forall|i: int| 0 <= i < body.len() ==> crate::typed_absy::straight(#[trigger] body[i]),
        run_block(functions, body, k, env, p, true, fuel) is Some,
        run_block(functions, body, k, env, p, true, fuel).unwrap().returned is Some,
    ensures
        crate::typed_absy::outputs_of(body.skip(k), env, p) == run_block(
            functions,
            body,
            k,
            env,
            p,
            true,
            fuel,
        ).unwrap().returned,
    decreases body.len() - k,
{
    if k < body.len() {
        let rest = body.skip(k);
        assert(rest[0] == body[k]);
        assert(rest.drop_first() == body.skip(k + 1));
        assert(crate::typed_absy::straight(body[k]));
        if !(body[k] is Return) {
            lemma_straight_statement(functions, body[k], env, p, fuel);
            let next = run_statement(functions, body[k], env, p, true, fuel).unwrap();
            lemma_straight_block(functions, body, k + 1, next.env, p, fuel);
        }
    }
}

/// The strict reading of a straight-line function is its meaning: what
/// a call of the function returns, the function means.
pub proof fn lemma_call_is_meaning(
    functions: Seq<SpecFunction>,
    callee: usize,
    arguments: Seq<Value>,
    p: int,
    fuel: nat,
)
    requires
        call(functions, callee, arguments, p, true, fuel) is Some,
        forall|i: int|
            0 <= i < functions[callee as int].statements.len() ==> crate::typed_absy::straight(
                #[trigger] functions[callee as int].statements[i],
            ),
    ensures
        crate::typed_absy::meaning(functions[callee as int], arguments, p) == call(
            functions,
            callee,
            arguments,
            p,
            true,
            fuel,
        ),
{
    let f = functions[callee as int];
    let env = bind_arguments(f.parameters, 0, arguments, empty_env(f.variable_count as int)).unwrap();
    lemma_straight_block(functions, f.statements, 0, env, p, (fuel - 1) as nat);
    assert(f.statements.skip(0) == f.statements);
}

} // verus!
