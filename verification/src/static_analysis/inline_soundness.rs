//! Inlining changes nothing that a program computes.
//!
//! While the main function runs, each call has a frame of variables of
//! its own. The inlined function holds all these frames in one
//! environment, each at its offset.

use crate::semantics::{
    assign_variable, assign_variables, call, entered, lemma_bind_larger, lemma_run_range_one,
    lemma_run_range_split, lemma_run_range_start, lemma_straight_block, run_block, run_range,
    run_statement, Outcome,
};
use crate::static_analysis::inline::{
    call_fault, define_each, inline_block, inlined, inlining_leaves_no_call, parameter_ids, shift,
    shift_each, shift_id, shift_ids, Inlining,
};
use crate::text::{lemma_starts_append, lemma_starts_push, lemma_starts_self, lemma_starts_transitive, starts};
use crate::typed_absy::{
    bind_arguments, empty_env, evaluate, evaluate_each, lookup, meaning, Expression, Identifier,
    Parameter, SpecFunction, SpecTypedProgram, SpecTypedStatement, Value,
};
use vstd::prelude::*;

verus! {

/// The frame `env` lies in the environment `all` from `offset` on.
pub open spec fn seen(env: Seq<Option<Value>>, all: Seq<Option<Value>>, offset: int) -> bool {
    &&& 0 <= offset
    &&& offset + env.len() <= all.len() <= usize::MAX
    &&& forall|i: int| 0 <= i < env.len() ==> all[offset + i] == #[trigger] env[i]
}

/// No variable from `next` on has a value.
pub open spec fn fresh_from(all: Seq<Option<Value>>, next: int) -> bool {
    forall|i: int| next <= i < all.len() ==> (#[trigger] all[i]) is None
}

/// The variables from the `from`-th on are different variables of the
/// environment, and none has a value.
pub open spec fn distinct_free(env: Seq<Option<Value>>, ids: Seq<Identifier>, from: int) -> bool {
    &&& forall|i: int|
        from <= i < ids.len() ==> (#[trigger] ids[i]).id < env.len() && env[ids[i].id as int]
            is None
    &&& forall|i: int, j: int|
        from <= i < ids.len() && from <= j < ids.len() && i != j ==> (#[trigger] ids[i]).id != (
        #[trigger] ids[j]).id
}

/// The environment `after` is `before` with the variables from the
/// `from`-th on holding their values.
pub open spec fn written(
    before: Seq<Option<Value>>,
    after: Seq<Option<Value>>,
    ids: Seq<Identifier>,
    vs: Seq<Value>,
    from: int,
) -> bool {
    &&& after.len() == before.len()
    &&& forall|i: int|
        from <= i < ids.len() ==> (#[trigger] ids[i]).id < after.len() && after[ids[i].id as int]
            == Some(vs[i])
    &&& forall|x: int|
        0 <= x < before.len() && (forall|i: int| from <= i < ids.len() ==> (#[trigger] ids[i]).id != x)
            ==> #[trigger] after[x] == before[x]
}

/// A shifted expression has in the whole environment the value that the
/// expression has in its frame.
pub proof fn lemma_shift(
    e: Expression,
    env: Seq<Option<Value>>,
    all: Seq<Option<Value>>,
    offset: int,
    p: int,
)
    requires
        seen(env, all, offset),
        evaluate(e, env, p) is Some,
    ensures
        evaluate(shift(e, offset), all, p) == evaluate(e, env, p),
    decreases e,
{
    match e {
        Expression::Number(_) => {},
        Expression::Boolean(_) => {},
        Expression::Variable(id) => {
            assert(lookup(env, id) is Some);
            assert(all[offset + id.id] == env[id.id as int]);
        },
        Expression::Flag(id) => {
            assert(lookup(env, id) is Some);
            assert(all[offset + id.id] == env[id.id as int]);
        },
        Expression::Binary(_, a, b) => {
            lemma_shift(*a, env, all, offset, p);
            lemma_shift(*b, env, all, offset, p);
        },
        Expression::Not(a) => {
            lemma_shift(*a, env, all, offset, p);
        },
        Expression::IfElse(c, a, b) => {
            lemma_shift(*c, env, all, offset, p);
            lemma_shift(*a, env, all, offset, p);
            lemma_shift(*b, env, all, offset, p);
        },
    }
}

/// Variables that are assigned one after the other under the strict
/// reading are different and had no value, and then hold the values.
pub proof fn lemma_assigned_strict(
    env: Seq<Option<Value>>,
    ids: Seq<Identifier>,
    vs: Seq<Value>,
    k: int,
)
    requires
        0 <= k,
        assign_variables(env, ids, vs, k, true) is Some,
    ensures
        distinct_free(env, ids, k),
        written(env, assign_variables(env, ids, vs, k, true).unwrap(), ids, vs, k),
    decreases ids.len() - k,
{
    if k < ids.len() {
        let next = assign_variable(env, ids[k], vs[k], true).unwrap();
        let out = assign_variables(env, ids, vs, k, true).unwrap();
        lemma_assigned_strict(next, ids, vs, k + 1);
        assert(next[ids[k].id as int] is Some);
        assert forall|i: int| k <= i < ids.len() implies (#[trigger] ids[i]).id < env.len()
            && env[ids[i].id as int] is None by {
            if i > k {
                assert(next[ids[i].id as int] is None);
            }
        }
        assert forall|i: int, j: int|
            k <= i < ids.len() && k <= j < ids.len() && i != j implies (#[trigger] ids[i]).id != (
        #[trigger] ids[j]).id by {
            if i > k {
                assert(next[ids[i].id as int] is None);
            }
            if j > k {
                assert(next[ids[j].id as int] is None);
            }
        }
        assert forall|i: int| k <= i < ids.len() implies (#[trigger] ids[i]).id < out.len()
            && out[ids[i].id as int] == Some(vs[i]) by {
            if i == k {
                assert forall|j: int| k + 1 <= j < ids.len() implies (#[trigger] ids[j]).id
                    != ids[k].id by {
                    assert(next[ids[j].id as int] is None);
                }
                assert(out[ids[k].id as int] == next[ids[k].id as int]);
            }
        }
        assert forall|x: int|
            0 <= x < env.len() && (forall|i: int| k <= i < ids.len() ==> (#[trigger] ids[i]).id != x)
            implies #[trigger] out[x] == env[x] by {
            assert(ids[k].id != x);
            assert(out[x] == next[x]);
        }
    }
}

/// The variables that the parameters name.
pub open spec fn parameter_names(parameters: Seq<Parameter>) -> Seq<Identifier> {
    Seq::new(parameters.len(), |j: int| parameters[j].id)
}

/// Parameters that take arguments are different variables that had no
/// value, and then hold the arguments.
pub proof fn lemma_bound_strict(
    parameters: Seq<Parameter>,
    k: int,
    arguments: Seq<Value>,
    env: Seq<Option<Value>>,
)
    requires
        0 <= k,
        bind_arguments(parameters, k, arguments, env) is Some,
    ensures
        distinct_free(env, parameter_names(parameters), k),
        written(
            env,
            bind_arguments(parameters, k, arguments, env).unwrap(),
            parameter_names(parameters),
            arguments,
            k,
        ),
    decreases parameters.len() - k,
{
    let ids = parameter_names(parameters);
    if k < parameters.len() {
        let next = env.update(parameters[k].id.id as int, Some(arguments[k]));
        let out = bind_arguments(parameters, k, arguments, env).unwrap();
        lemma_bound_strict(parameters, k + 1, arguments, next);
        assert(ids[k] == parameters[k].id);
        assert(next[ids[k].id as int] is Some);
        assert forall|i: int| k <= i < ids.len() implies (#[trigger] ids[i]).id < env.len()
            && env[ids[i].id as int] is None by {
            if i > k {
                assert(next[ids[i].id as int] is None);
            }
        }
        assert forall|i: int, j: int|
            k <= i < ids.len() && k <= j < ids.len() && i != j implies (#[trigger] ids[i]).id != (
        #[trigger] ids[j]).id by {
            if i > k {
                assert(next[ids[i].id as int] is None);
            }
            if j > k {
                assert(next[ids[j].id as int] is None);
            }
        }
        assert forall|i: int| k <= i < ids.len() implies (#[trigger] ids[i]).id < out.len()
            && out[ids[i].id as int] == Some(arguments[i]) by {
            if i == k {
                assert forall|j: int| k + 1 <= j < ids.len() implies (#[trigger] ids[j]).id
                    != ids[k].id by {
                    assert(next[ids[j].id as int] is None);
                }
                assert(out[ids[k].id as int] == next[ids[k].id as int]);
            }
        }
        assert forall|x: int|
            0 <= x < env.len() && (forall|i: int| k <= i < ids.len() ==> (#[trigger] ids[i]).id != x)
            implies #[trigger] out[x] == env[x] by {
            assert(ids[k].id != x);
            assert(out[x] == next[x]);
        }
    }
}

/// Definitions of variables outside a frame, as shifted expressions of
/// the frame, give the variables the values of the expressions.
pub proof fn lemma_definitions_run(
    target: Seq<SpecFunction>,
    out: Seq<SpecTypedStatement>,
    n: int,
    ids: Seq<Identifier>,
    es: Seq<Expression>,
    offset: int,
    env: Seq<Option<Value>>,
    vs: Seq<Value>,
    j: int,
    cur: Seq<Option<Value>>,
    p: int,
    fuel: nat,
)
    requires
        0 <= j <= ids.len() == es.len(),
        0 <= n,
        n + ids.len() <= out.len(),
        forall|i: int|
            0 <= i < ids.len() ==> #[trigger] out[n + i] == SpecTypedStatement::Definition(
                ids[i],
                shift(es[i], offset),
            ),
        evaluate_each(es, env, p) == Some(vs),
        seen(env, cur, offset),
        forall|i: int|
            0 <= i < ids.len() ==> !(offset <= (#[trigger] ids[i]).id < offset + env.len()),
        distinct_free(cur, ids, j),
    ensures
        run_range(target, out, n + j, n + ids.len(), cur, p, true, fuel) is Some,
        run_range(target, out, n + j, n + ids.len(), cur, p, true, fuel).unwrap().returned is None,
        written(
            cur,
            run_range(target, out, n + j, n + ids.len(), cur, p, true, fuel).unwrap().env,
            ids,
            vs,
            j,
        ),
    decreases ids.len() - j,
{
    let m = n + ids.len();
    if j < ids.len() {
        assert(evaluate(es[j], env, p) is Some);
        assert(vs[j] == evaluate(es[j], env, p).unwrap());
        lemma_shift(es[j], env, cur, offset, p);
        let next = cur.update(ids[j].id as int, Some(vs[j]));
        assert(out[n + j] == SpecTypedStatement::Definition(ids[j], shift(es[j], offset)));
        assert(run_statement(target, out[n + j], cur, p, true, fuel) == Some(
            Outcome { env: next, returned: None },
        ));
        lemma_run_range_one(target, out, n + j, cur, p, true, fuel);
        assert(seen(env, next, offset)) by {
            assert forall|i: int| 0 <= i < env.len() implies next[offset + i] == #[trigger] env[i] by {
                assert(cur[offset + i] == env[i]);
            }
        }
        assert(distinct_free(next, ids, j + 1)) by {
            assert forall|i: int| j + 1 <= i < ids.len() implies (#[trigger] ids[i]).id < next.len()
                && next[ids[i].id as int] is None by {
                assert(ids[i].id != ids[j].id);
                assert(cur[ids[i].id as int] is None);
            }
        }
        lemma_definitions_run(target, out, n, ids, es, offset, env, vs, j + 1, next, p, fuel);
        lemma_run_range_split(target, out, n + j, n + j + 1, m, cur, p, true, fuel);
        let fin = run_range(target, out, n + j + 1, m, next, p, true, fuel).unwrap().env;
        assert(written(cur, fin, ids, vs, j)) by {
            assert forall|i: int| j <= i < ids.len() implies (#[trigger] ids[i]).id < fin.len()
                && fin[ids[i].id as int] == Some(vs[i]) by {
                if i == j {
                    assert forall|h: int| j + 1 <= h < ids.len() implies (#[trigger] ids[h]).id
                        != ids[j].id by {}
                    assert(fin[ids[j].id as int] == next[ids[j].id as int]);
                }
            }
            assert forall|x: int|
                0 <= x < cur.len() && (forall|i: int|
                    j <= i < ids.len() ==> (#[trigger] ids[i]).id != x) implies #[trigger] fin[x]
                == cur[x] by {
                assert(ids[j].id != x);
                assert(fin[x] == next[x]);
            }
        }
    } else {
        assert(out.take(m).len() == m);
    }
}

} // verus!

verus! {

/// The shifted expressions have in the whole environment the values
/// that the expressions have in their frame.
pub proof fn lemma_shift_each(
    es: Seq<Expression>,
    env: Seq<Option<Value>>,
    all: Seq<Option<Value>>,
    offset: int,
    p: int,
)
    requires
        seen(env, all, offset),
        evaluate_each(es, env, p) is Some,
    ensures
        evaluate_each(shift_each(es, offset), all, p) == evaluate_each(es, env, p),
{
    let shifted = shift_each(es, offset);
    assert forall|k: int| 0 <= k < shifted.len() implies evaluate(#[trigger] shifted[k], all, p)
        == evaluate(es[k], env, p) by {
        assert(evaluate(es[k], env, p) is Some);
        lemma_shift(es[k], env, all, offset, p);
    }
    assert(evaluate_each(shifted, all, p).unwrap() =~= evaluate_each(es, env, p).unwrap());
}

/// The second environment is the first below the bound.
pub open spec fn below(first: Seq<Option<Value>>, second: Seq<Option<Value>>, bound: int) -> bool {
    &&& second.len() == first.len()
    &&& forall|x: int| 0 <= x < bound && x < first.len() ==> #[trigger] second[x] == first[x]
}

/// The environment `after` has the values in the variables, and is
/// `before` in the other variables below the bound.
pub open spec fn written_below(
    before: Seq<Option<Value>>,
    after: Seq<Option<Value>>,
    ids: Seq<Identifier>,
    vs: Seq<Value>,
    bound: int,
) -> bool {
    &&& after.len() == before.len()
    &&& forall|i: int|
        0 <= i < ids.len() ==> (#[trigger] ids[i]).id < after.len() && after[ids[i].id as int]
            == Some(vs[i])
    &&& forall|x: int|
        0 <= x < bound && x < before.len() && (forall|i: int|
            0 <= i < ids.len() ==> (#[trigger] ids[i]).id != x) ==> #[trigger] after[x] == before[x]
}

/// Inlining adds to the statements emitted and to the variables used.
pub proof fn lemma_inline_grows(
    functions: Seq<SpecFunction>,
    body: Seq<SpecTypedStatement>,
    k: int,
    offset: int,
    targets: Option<Seq<Identifier>>,
    this: usize,
    fuel: nat,
    stack: Seq<usize>,
    st: Inlining,
)
    requires
        inline_block(functions, body, k, offset, targets, this, fuel, stack, st) is Ok,
    ensures
        st.next <= inline_block(
            functions,
            body,
            k,
            offset,
            targets,
            this,
            fuel,
            stack,
            st,
        ).unwrap().next,
        starts(
            st.out,
            inline_block(functions, body, k, offset, targets, this, fuel, stack, st).unwrap().out,
        ),
    decreases fuel, body.len() - k,
{
    let done = inline_block(functions, body, k, offset, targets, this, fuel, stack, st).unwrap();
    if 0 <= k < body.len() {
        match body[k] {
            SpecTypedStatement::Definition(id, e) => {
                let s = SpecTypedStatement::Definition(shift_id(id, offset), shift(e, offset));
                let next = Inlining { out: st.out.push(s), ..st };
                lemma_inline_grows(functions, body, k + 1, offset, targets, this, fuel, stack, next);
                lemma_starts_push(st.out, s);
                lemma_starts_transitive(st.out, next.out, done.out);
            },
            SpecTypedStatement::Condition(a, b) => {
                let s = SpecTypedStatement::Condition(shift(a, offset), shift(b, offset));
                let next = Inlining { out: st.out.push(s), ..st };
                lemma_inline_grows(functions, body, k + 1, offset, targets, this, fuel, stack, next);
                lemma_starts_push(st.out, s);
                lemma_starts_transitive(st.out, next.out, done.out);
            },
            SpecTypedStatement::Log(_) => {
                let next = Inlining { out: st.out.push(body[k]), ..st };
                lemma_inline_grows(functions, body, k + 1, offset, targets, this, fuel, stack, next);
                lemma_starts_push(st.out, body[k]);
                lemma_starts_transitive(st.out, next.out, done.out);
            },
            SpecTypedStatement::Return(es) => {
                match targets {
                    None => {
                        lemma_starts_push(
                            st.out,
                            SpecTypedStatement::Return(shift_each(es, offset)),
                        );
                    },
                    Some(ids) => {
                        lemma_starts_append(st.out, define_each(ids, shift_each(es, offset)));
                    },
                }
            },
            SpecTypedStatement::For(_, _, _, _) => {},
            SpecTypedStatement::MultipleDefinition(ids, callee, args) => {
                let g = functions[callee as int];
                let definitions = define_each(
                    parameter_ids(g.parameters, st.next),
                    shift_each(args, offset),
                );
                let entered = Inlining {
                    next: st.next + g.variable_count,
                    out: st.out + definitions,
                };
                lemma_starts_append(st.out, definitions);
                lemma_inline_grows(
                    functions,
                    g.statements,
                    0,
                    st.next,
                    Some(shift_ids(ids, offset)),
                    callee,
                    (fuel - 1) as nat,
                    stack.push(callee),
                    entered,
                );
                let after = inline_block(
                    functions,
                    g.statements,
                    0,
                    st.next,
                    Some(shift_ids(ids, offset)),
                    callee,
                    (fuel - 1) as nat,
                    stack.push(callee),
                    entered,
                ).unwrap();
                lemma_inline_grows(functions, body, k + 1, offset, targets, this, fuel, stack, after);
                lemma_starts_transitive(st.out, entered.out, after.out);
                lemma_starts_transitive(st.out, after.out, done.out);
            },
        }
    } else {
        lemma_starts_self(st.out);
    }
}

/// The definitions of the parameters of a called function as the
/// arguments leave the frame in which the function starts.
proof fn lemma_call_entered(
    target: Seq<SpecFunction>,
    out: Seq<SpecTypedStatement>,
    n: int,
    parameters: Seq<Parameter>,
    count: int,
    args: Seq<Expression>,
    offset: int,
    env: Seq<Option<Value>>,
    values: Seq<Value>,
    all: Seq<Option<Value>>,
    next: int,
    p: int,
    fuel: nat,
)
    requires
        0 <= n,
        0 <= count,
        n + parameters.len() <= out.len(),
        args.len() == parameters.len(),
        forall|i: int|
            0 <= i < parameters.len() ==> #[trigger] out[n + i] == SpecTypedStatement::Definition(
                shift_id(parameters[i].id, next),
                shift(args[i], offset),
            ),
        evaluate_each(args, env, p) == Some(values),
        seen(env, all, offset),
        offset + env.len() <= next,
        next + count <= all.len(),
        fresh_from(all, next),
        bind_arguments(parameters, 0, values, empty_env(count)) is Some,
    ensures
        run_range(target, out, n, n + parameters.len(), all, p, true, fuel) is Some,
        run_range(target, out, n, n + parameters.len(), all, p, true, fuel).unwrap().returned
            is None,
        seen(
            bind_arguments(parameters, 0, values, empty_env(count)).unwrap(),
            run_range(target, out, n, n + parameters.len(), all, p, true, fuel).unwrap().env,
            next,
        ),
        fresh_from(
            run_range(target, out, n, n + parameters.len(), all, p, true, fuel).unwrap().env,
            next + count,
        ),
        below(
            all,
            run_range(target, out, n, n + parameters.len(), all, p, true, fuel).unwrap().env,
            next,
        ),
{
    let names = parameter_names(parameters);
    let ids = parameter_ids(parameters, next);
    let inner = bind_arguments(parameters, 0, values, empty_env(count)).unwrap();
    lemma_bound_strict(parameters, 0, values, empty_env(count));
    assert forall|i: int| 0 <= i < ids.len() implies (#[trigger] ids[i]).id == names[i].id + next by {
        assert(names[i].id < count);
    }
    assert(distinct_free(all, ids, 0)) by {
        assert forall|i: int| 0 <= i < ids.len() implies (#[trigger] ids[i]).id < all.len()
            && all[ids[i].id as int] is None by {
            assert(names[i].id < count);
        }
        assert forall|i: int, j: int|
            0 <= i < ids.len() && 0 <= j < ids.len() && i != j implies (#[trigger] ids[i]).id != (
        #[trigger] ids[j]).id by {
            assert(names[i].id != names[j].id);
        }
    }
    assert forall|i: int| 0 <= i < ids.len() implies #[trigger] out[n + i]
        == SpecTypedStatement::Definition(ids[i], shift(args[i], offset)) by {}
    lemma_definitions_run(target, out, n, ids, args, offset, env, values, 0, all, p, fuel);
    let fin = run_range(target, out, n, n + parameters.len(), all, p, true, fuel).unwrap().env;
    assert(seen(inner, fin, next)) by {
        assert forall|x: int| 0 <= x < inner.len() implies fin[next + x] == #[trigger] inner[x] by {
            if exists|j: int| 0 <= j < names.len() && (#[trigger] names[j]).id == x {
                let j = choose|j: int| 0 <= j < names.len() && (#[trigger] names[j]).id == x;
                assert(ids[j].id == next + x);
                assert(fin[ids[j].id as int] == Some(values[j]));
                assert(inner[names[j].id as int] == Some(values[j]));
            } else {
                assert forall|j: int| 0 <= j < ids.len() implies (#[trigger] ids[j]).id != next
                    + x by {
                    assert(names[j].id != x);
                }
                assert(fin[next + x] == all[next + x]);
                assert(all[next + x] is None);
                assert forall|j: int| 0 <= j < names.len() implies (#[trigger] names[j]).id
                    != x by {}
                assert(inner[x] == empty_env(count)[x]);
            }
        }
    }
    assert(fresh_from(fin, next + count)) by {
        assert forall|x: int| next + count <= x < fin.len() implies (#[trigger] fin[x]) is None by {
            assert forall|j: int| 0 <= j < ids.len() implies (#[trigger] ids[j]).id != x by {
                assert(names[j].id < count);
            }
            assert(fin[x] == all[x]);
            assert(all[x] is None);
        }
    }
    assert(below(all, fin, next)) by {
        assert forall|x: int| 0 <= x < next && x < all.len() implies #[trigger] fin[x] == all[x] by {
            assert forall|j: int| 0 <= j < ids.len() implies (#[trigger] ids[j]).id != x by {}
        }
    }
}

/// Where the caller can assign what a call returns, the whole
/// environment has the shifted variables free.
proof fn lemma_targets_ready(
    env: Seq<Option<Value>>,
    ids: Seq<Identifier>,
    vs: Seq<Value>,
    offset: int,
    all: Seq<Option<Value>>,
    next: int,
)
    requires
        seen(env, all, offset),
        offset + env.len() <= next,
        assign_variables(env, ids, vs, 0, true) is Some,
    ensures
        distinct_free(all, shift_ids(ids, offset), 0),
        forall|i: int|
            0 <= i < ids.len() ==> offset <= (#[trigger] shift_ids(ids, offset)[i]).id < next,
        forall|i: int|
            0 <= i < ids.len() ==> (#[trigger] shift_ids(ids, offset)[i]).id == ids[i].id + offset,
{
    lemma_assigned_strict(env, ids, vs, 0);
    let moved = shift_ids(ids, offset);
    assert forall|i: int| 0 <= i < ids.len() implies (#[trigger] moved[i]).id == ids[i].id
        + offset by {
        assert(ids[i].id < env.len());
    }
    assert forall|i: int| 0 <= i < moved.len() implies (#[trigger] moved[i]).id < all.len()
        && all[moved[i].id as int] is None by {
        assert(ids[i].id < env.len());
        assert(all[offset + ids[i].id] == env[ids[i].id as int]);
    }
    assert forall|i: int, j: int|
        0 <= i < moved.len() && 0 <= j < moved.len() && i != j implies (#[trigger] moved[i]).id != (
    #[trigger] moved[j]).id by {
        assert(ids[i].id != ids[j].id);
    }
    assert forall|i: int| 0 <= i < ids.len() implies offset <= (#[trigger] moved[i]).id < next by {
        assert(ids[i].id < env.len());
    }
}

/// Free variables below a bound are free in every environment that is
/// the same below the bound.
proof fn lemma_free_below(
    first: Seq<Option<Value>>,
    second: Seq<Option<Value>>,
    ids: Seq<Identifier>,
    bound: int,
)
    requires
        below(first, second, bound),
        distinct_free(first, ids, 0),
        forall|i: int| 0 <= i < ids.len() ==> (#[trigger] ids[i]).id < bound,
    ensures
        distinct_free(second, ids, 0),
{
    assert forall|i: int| 0 <= i < ids.len() implies (#[trigger] ids[i]).id < second.len()
        && second[ids[i].id as int] is None by {
        assert(first[ids[i].id as int] is None);
    }
}

/// Once the inlined function has defined the shifted variables of a
/// call, the whole environment holds the frame of the caller with the
/// variables assigned.
proof fn lemma_call_returned(
    env: Seq<Option<Value>>,
    ids: Seq<Identifier>,
    vs: Seq<Value>,
    offset: int,
    before: Seq<Option<Value>>,
    after: Seq<Option<Value>>,
    next: int,
)
    requires
        seen(env, before, offset),
        offset + env.len() <= next,
        assign_variables(env, ids, vs, 0, true) is Some,
        written_below(before, after, shift_ids(ids, offset), vs, next),
    ensures
        seen(assign_variables(env, ids, vs, 0, true).unwrap(), after, offset),
        below(before, after, offset),
{
    let env1 = assign_variables(env, ids, vs, 0, true).unwrap();
    let moved = shift_ids(ids, offset);
    lemma_assigned_strict(env, ids, vs, 0);
    lemma_targets_ready(env, ids, vs, offset, before, next);
    assert forall|x: int| 0 <= x < env1.len() implies after[offset + x] == #[trigger] env1[x] by {
        if exists|j: int| 0 <= j < ids.len() && (#[trigger] ids[j]).id == x {
            let j = choose|j: int| 0 <= j < ids.len() && (#[trigger] ids[j]).id == x;
            assert(moved[j].id == offset + x);
            assert(after[moved[j].id as int] == Some(vs[j]));
            assert(env1[ids[j].id as int] == Some(vs[j]));
        } else {
            assert forall|j: int| 0 <= j < moved.len() implies (#[trigger] moved[j]).id != offset
                + x by {
                assert(ids[j].id != x);
            }
            assert(after[offset + x] == before[offset + x]);
            assert forall|j: int| 0 <= j < ids.len() implies (#[trigger] ids[j]).id != x by {}
            assert(env1[x] == env[x]);
            assert(before[offset + x] == env[x]);
        }
    }
    assert forall|x: int| 0 <= x < offset && x < before.len() implies #[trigger] after[x]
        == before[x] by {
        assert forall|j: int| 0 <= j < moved.len() implies (#[trigger] moved[j]).id != x by {}
    }
}

} // verus!

verus! {

/// What the inlined statements have to leave in the whole environment,
/// given what the statements left in their frame. The statements of the
/// main function return what they returned; those of a called function
/// define the variables that the call assigns.
pub open spec fn agrees(
    targets: Option<Seq<Identifier>>,
    offset: int,
    next: int,
    all: Seq<Option<Value>>,
    o: Outcome,
    r: Option<Outcome>,
) -> bool {
    match targets {
        None => {
            &&& r is Some
            &&& r.unwrap().returned == o.returned
            &&& o.returned is None ==> {
                &&& seen(o.env, r.unwrap().env, offset)
                &&& offset + o.env.len() <= next
                &&& fresh_from(r.unwrap().env, next)
                &&& below(all, r.unwrap().env, offset)
            }
        },
        Some(ids) => {
            &&& r is Some
            &&& r.unwrap().returned is None
            &&& o.returned is Some
            &&& fresh_from(r.unwrap().env, next)
            &&& written_below(all, r.unwrap().env, ids, o.returned.unwrap(), offset)
        },
    }
}

/// A statement without call or return, shifted.
pub open spec fn moved(s: SpecTypedStatement, offset: int) -> SpecTypedStatement {
    match s {
        SpecTypedStatement::Definition(id, e) => SpecTypedStatement::Definition(
            shift_id(id, offset),
            shift(e, offset),
        ),
        SpecTypedStatement::Condition(a, b) => SpecTypedStatement::Condition(
            shift(a, offset),
            shift(b, offset),
        ),
        other => other,
    }
}

/// The second environment is the first outside of a frame.
pub open spec fn same_outside(
    first: Seq<Option<Value>>,
    second: Seq<Option<Value>>,
    offset: int,
    len: int,
) -> bool {
    &&& second.len() == first.len()
    &&& forall|x: int|
        0 <= x < first.len() && (x < offset || x >= offset + len) ==> #[trigger] second[x]
            == first[x]
}

/// A shifted statement does to the frame in the whole environment what
/// the statement does to its frame.
proof fn lemma_simple_step(
    source: Seq<SpecFunction>,
    target: Seq<SpecFunction>,
    s: SpecTypedStatement,
    offset: int,
    env: Seq<Option<Value>>,
    all: Seq<Option<Value>>,
    p: int,
    sfuel: nat,
    tfuel: nat,
)
    requires
        seen(env, all, offset),
        s is Definition || s is Condition || s is Log,
        run_statement(source, s, env, p, true, sfuel) is Some,
    ensures
        run_statement(target, moved(s, offset), all, p, true, tfuel) is Some,
        run_statement(target, moved(s, offset), all, p, true, tfuel).unwrap().returned is None,
        run_statement(source, s, env, p, true, sfuel).unwrap().returned is None,
        run_statement(source, s, env, p, true, sfuel).unwrap().env.len() == env.len(),
        seen(
            run_statement(source, s, env, p, true, sfuel).unwrap().env,
            run_statement(target, moved(s, offset), all, p, true, tfuel).unwrap().env,
            offset,
        ),
        same_outside(
            all,
            run_statement(target, moved(s, offset), all, p, true, tfuel).unwrap().env,
            offset,
            env.len() as int,
        ),
{
    match s {
        SpecTypedStatement::Definition(id, e) => {
            lemma_shift(e, env, all, offset, p);
            let v = evaluate(e, env, p).unwrap();
            let env1 = env.update(id.id as int, Some(v));
            let all1 = all.update(offset + id.id, Some(v));
            assert(all[offset + id.id] == env[id.id as int]);
            assert(run_statement(target, moved(s, offset), all, p, true, tfuel) == Some(
                Outcome { env: all1, returned: None },
            ));
            assert forall|i: int| 0 <= i < env1.len() implies all1[offset + i] == #[trigger] env1[i] by {
                assert(all[offset + i] == env[i]);
            }
        },
        SpecTypedStatement::Condition(a, b) => {
            lemma_shift(a, env, all, offset, p);
            lemma_shift(b, env, all, offset, p);
        },
        _ => {},
    }
}

/// What holds of the environment after a step holds of the environment
/// before it, where the step has left the variables below the frame.
proof fn lemma_agrees_back(
    targets: Option<Seq<Identifier>>,
    offset: int,
    next: int,
    first: Seq<Option<Value>>,
    second: Seq<Option<Value>>,
    o: Outcome,
    r: Option<Outcome>,
)
    requires
        agrees(targets, offset, next, second, o, r),
        below(first, second, offset),
    ensures
        agrees(targets, offset, next, first, o, r),
{
    match targets {
        None => {
            if o.returned is None {
                let fin = r.unwrap().env;
                assert forall|x: int| 0 <= x < offset && x < first.len() implies #[trigger] fin[x]
                    == first[x] by {
                    assert(second[x] == first[x]);
                }
            }
        },
        Some(ids) => {
            let fin = r.unwrap().env;
            assert forall|x: int|
                0 <= x < offset && x < first.len() && (forall|i: int|
                    0 <= i < ids.len() ==> (#[trigger] ids[i]).id != x) implies #[trigger] fin[x]
                == first[x] by {
                assert(second[x] == first[x]);
            }
        },
    }
}

} // verus!

verus! {

/// The inlined statements run as a first statement followed by the
/// rest.
proof fn lemma_after_step(
    target: Seq<SpecFunction>,
    out: Seq<SpecTypedStatement>,
    n: int,
    targets: Option<Seq<Identifier>>,
    offset: int,
    next: int,
    all: Seq<Option<Value>>,
    all1: Seq<Option<Value>>,
    o: Outcome,
    p: int,
    fuel: nat,
)
    requires
        0 <= n < out.len(),
        run_statement(target, out[n], all, p, true, fuel) == Some(
            Outcome { env: all1, returned: None },
        ),
        below(all, all1, offset),
        agrees(
            targets,
            offset,
            next,
            all1,
            o,
            run_range(target, out, n + 1, out.len() as int, all1, p, true, fuel),
        ),
    ensures
        agrees(
            targets,
            offset,
            next,
            all,
            o,
            run_range(target, out, n, out.len() as int, all, p, true, fuel),
        ),
{
    lemma_run_range_one(target, out, n, all, p, true, fuel);
    lemma_run_range_split(target, out, n, n + 1, out.len() as int, all, p, true, fuel);
    lemma_agrees_back(
        targets,
        offset,
        next,
        all,
        all1,
        o,
        run_range(target, out, n + 1, out.len() as int, all1, p, true, fuel),
    );
}

/// Inlined statements leave in the whole environment what the
/// statements leave in their frame.
proof fn lemma_inline_block(
    source: Seq<SpecFunction>,
    target: Seq<SpecFunction>,
    body: Seq<SpecTypedStatement>,
    k: int,
    offset: int,
    targets: Option<Seq<Identifier>>,
    this: usize,
    ifuel: nat,
    stack: Seq<usize>,
    st: Inlining,
    env: Seq<Option<Value>>,
    all: Seq<Option<Value>>,
    p: int,
    sfuel: nat,
    tfuel: nat,
)
    requires
        0 <= k <= body.len(),
        inline_block(source, body, k, offset, targets, this, ifuel, stack, st) is Ok,
        inline_block(source, body, k, offset, targets, this, ifuel, stack, st).unwrap().next
            <= all.len(),
        seen(env, all, offset),
        offset + env.len() <= st.next,
        fresh_from(all, st.next),
        run_block(source, body, k, env, p, true, sfuel) is Some,
        targets is Some ==> distinct_free(all, targets.unwrap(), 0) && forall|i: int|
            0 <= i < targets.unwrap().len() ==> (#[trigger] targets.unwrap()[i]).id < offset,
    ensures
        agrees(
            targets,
            offset,
            inline_block(source, body, k, offset, targets, this, ifuel, stack, st).unwrap().next,
            all,
            run_block(source, body, k, env, p, true, sfuel).unwrap(),
            run_range(
                target,
                inline_block(source, body, k, offset, targets, this, ifuel, stack, st).unwrap().out,
                st.out.len() as int,
                inline_block(
                    source,
                    body,
                    k,
                    offset,
                    targets,
                    this,
                    ifuel,
                    stack,
                    st,
                ).unwrap().out.len() as int,
                all,
                p,
                true,
                tfuel,
            ),
        ),
    decreases ifuel, body.len() - k,
{
    let done = inline_block(source, body, k, offset, targets, this, ifuel, stack, st).unwrap();
    let n = st.out.len() as int;
    let m = done.out.len() as int;
    let o = run_block(source, body, k, env, p, true, sfuel).unwrap();
    lemma_inline_grows(source, body, k, offset, targets, this, ifuel, stack, st);
    if k >= body.len() {
        assert(done.out.take(m) == done.out);
    } else {
        let s = body[k];
        if s is Definition || s is Condition || s is Log {
            let s2 = moved(s, offset);
            let st1 = Inlining { out: st.out.push(s2), ..st };
            assert(inline_block(source, body, k + 1, offset, targets, this, ifuel, stack, st1)
                == Ok::<Inlining, crate::static_analysis::AnalysisError>(done));
            lemma_simple_step(source, target, s, offset, env, all, p, sfuel, tfuel);
            let o1 = run_statement(source, s, env, p, true, sfuel).unwrap();
            let all1 = run_statement(target, s2, all, p, true, tfuel).unwrap().env;
            assert(below(all, all1, offset));
            assert(fresh_from(all1, st.next)) by {
                assert forall|x: int| st.next <= x < all1.len() implies (#[trigger] all1[x])
                    is None by {
                    assert(all[x] is None);
                }
            }
            if targets is Some {
                lemma_free_below(all, all1, targets.unwrap(), offset);
            }
            lemma_inline_block(
                source,
                target,
                body,
                k + 1,
                offset,
                targets,
                this,
                ifuel,
                stack,
                st1,
                o1.env,
                all1,
                p,
                sfuel,
                tfuel,
            );
            lemma_inline_grows(source, body, k + 1, offset, targets, this, ifuel, stack, st1);
            assert(done.out[n] == s2) by {
                assert(done.out.take(n + 1)[n] == st1.out[n]);
            }
            lemma_after_step(target, done.out, n, targets, offset, done.next, all, all1, o, p, tfuel);
        } else if s is Return {
            let es = s->Return_0;
            let vs = evaluate_each(es, env, p).unwrap();
            assert(run_statement(source, s, env, p, true, sfuel) == Some(
                Outcome { env, returned: Some(vs) },
            ));
            match targets {
                None => {
                    let s2 = SpecTypedStatement::Return(shift_each(es, offset));
                    assert(done.out == st.out.push(s2));
                    lemma_shift_each(es, env, all, offset, p);
                    lemma_run_range_one(target, done.out, n, all, p, true, tfuel);
                },
                Some(ids) => {
                    let definitions = define_each(ids, shift_each(es, offset));
                    assert(done.out == st.out + definitions);
                    assert forall|i: int| 0 <= i < ids.len() implies #[trigger] done.out[n + i]
                        == SpecTypedStatement::Definition(ids[i], shift(es[i], offset)) by {
                        assert(done.out[n + i] == definitions[i]);
                    }
                    lemma_definitions_run(
                        target,
                        done.out,
                        n,
                        ids,
                        es,
                        offset,
                        env,
                        vs,
                        0,
                        all,
                        p,
                        tfuel,
                    );
                    let fin = run_range(target, done.out, n, m, all, p, true, tfuel).unwrap().env;
                    assert forall|x: int| done.next <= x < fin.len() implies (#[trigger] fin[x])
                        is None by {
                        assert forall|i: int| 0 <= i < ids.len() implies (#[trigger] ids[i]).id
                            != x by {}
                        assert(fin[x] == all[x]);
                        assert(all[x] is None);
                    }
                },
            }
        } else if s is MultipleDefinition {
            let ids = s->MultipleDefinition_0;
            let callee = s->MultipleDefinition_1;
            let args = s->MultipleDefinition_2;
            assert(call_fault(
                source,
                callee,
                ids.len() as int,
                args.len() as int,
                ifuel,
                stack,
                st.next,
            ) is None);
            let g = source[callee as int];
            let definitions = define_each(
                parameter_ids(g.parameters, st.next),
                shift_each(args, offset),
            );
            let first = Inlining { next: st.next + g.variable_count, out: st.out + definitions };
            let moved_ids = shift_ids(ids, offset);
            let inner_fuel = (ifuel - 1) as nat;
            let after = inline_block(
                source,
                g.statements,
                0,
                st.next,
                Some(moved_ids),
                callee,
                inner_fuel,
                stack.push(callee),
                first,
            ).unwrap();
            assert(inline_block(source, body, k + 1, offset, targets, this, ifuel, stack, after)
                == Ok::<Inlining, crate::static_analysis::AnalysisError>(done));
            lemma_inline_grows(
                source,
                g.statements,
                0,
                st.next,
                Some(moved_ids),
                callee,
                inner_fuel,
                stack.push(callee),
                first,
            );
            lemma_inline_grows(source, body, k + 1, offset, targets, this, ifuel, stack, after);
            lemma_starts_append(st.out, definitions);
            // what the statements do
            let values = evaluate_each(args, env, p).unwrap();
            let inner = entered(source, callee, values, sfuel).unwrap();
            let o_in = run_block(source, g.statements, 0, inner, p, true, (sfuel - 1) as nat).unwrap();
            let vs = o_in.returned.unwrap();
            let env1 = assign_variables(env, ids, vs, 0, true).unwrap();
            assert(run_statement(source, s, env, p, true, sfuel) == Some(
                Outcome { env: env1, returned: None },
            ));
            // the parameters
            let na = first.out.len() as int;
            assert(na == n + g.parameters.len());
            assert forall|i: int| 0 <= i < g.parameters.len() implies #[trigger] first.out[n + i]
                == SpecTypedStatement::Definition(
                shift_id(g.parameters[i].id, st.next),
                shift(args[i], offset),
            ) by {
                assert(first.out[n + i] == definitions[i]);
            }
            lemma_call_entered(
                target,
                first.out,
                n,
                g.parameters,
                g.variable_count as int,
                args,
                offset,
                env,
                values,
                all,
                st.next,
                p,
                tfuel,
            );
            let all_a = run_range(target, first.out, n, na, all, p, true, tfuel).unwrap().env;
            // the body of the function
            lemma_targets_ready(env, ids, vs, offset, all, st.next);
            lemma_free_below(all, all_a, moved_ids, st.next);
            lemma_bound_strict(g.parameters, 0, values, empty_env(g.variable_count as int));
            lemma_inline_block(
                source,
                target,
                g.statements,
                0,
                st.next,
                Some(moved_ids),
                callee,
                inner_fuel,
                stack.push(callee),
                first,
                inner,
                all_a,
                p,
                (sfuel - 1) as nat,
                tfuel,
            );
            let ma = after.out.len() as int;
            let all_b = run_range(target, after.out, na, ma, all_a, p, true, tfuel).unwrap().env;
            lemma_call_returned(env, ids, vs, offset, all_a, all_b, st.next);
            // the rest
            assert(below(all, all_b, offset)) by {
                assert forall|x: int| 0 <= x < offset && x < all.len() implies #[trigger] all_b[x]
                    == all[x] by {
                    assert(all_a[x] == all[x]);
                }
            }
            assert(seen(env, all_a, offset)) by {
                assert forall|i: int| 0 <= i < env.len() implies all_a[offset + i]
                    == #[trigger] env[i] by {
                    assert(all[offset + i] == env[i]);
                }
            }
            lemma_assigned_strict(env, ids, vs, 0);
            if targets is Some {
                lemma_free_below(all, all_b, targets.unwrap(), offset);
            }
            lemma_inline_block(
                source,
                target,
                body,
                k + 1,
                offset,
                targets,
                this,
                ifuel,
                stack,
                after,
                env1,
                all_b,
                p,
                sfuel,
                tfuel,
            );
            // all in one run
            lemma_starts_transitive(first.out, after.out, done.out);
            lemma_run_range_start(target, first.out, done.out, n, na, all, p, true, tfuel);
            lemma_run_range_start(target, after.out, done.out, na, ma, all_a, p, true, tfuel);
            lemma_run_range_split(target, done.out, na, ma, m, all_a, p, true, tfuel);
            lemma_run_range_split(target, done.out, n, na, m, all, p, true, tfuel);
            lemma_agrees_back(
                targets,
                offset,
                done.next,
                all,
                all_b,
                o,
                run_range(target, done.out, ma, m, all_b, p, true, tfuel),
            );
        }
    }
}

} // verus!

verus! {

/// Inlining numbers no variable beyond the largest number there is.
proof fn lemma_inline_bounded(
    functions: Seq<SpecFunction>,
    body: Seq<SpecTypedStatement>,
    k: int,
    offset: int,
    targets: Option<Seq<Identifier>>,
    this: usize,
    fuel: nat,
    stack: Seq<usize>,
    st: Inlining,
)
    requires
        st.next <= usize::MAX,
        inline_block(functions, body, k, offset, targets, this, fuel, stack, st) is Ok,
    ensures
        inline_block(functions, body, k, offset, targets, this, fuel, stack, st).unwrap().next
            <= usize::MAX,
    decreases fuel, body.len() - k,
{
    if 0 <= k < body.len() {
        match body[k] {
            SpecTypedStatement::Definition(id, e) => {
                let s = SpecTypedStatement::Definition(shift_id(id, offset), shift(e, offset));
                let next = Inlining { out: st.out.push(s), ..st };
                lemma_inline_bounded(functions, body, k + 1, offset, targets, this, fuel, stack, next);
            },
            SpecTypedStatement::Condition(a, b) => {
                let s = SpecTypedStatement::Condition(shift(a, offset), shift(b, offset));
                let next = Inlining { out: st.out.push(s), ..st };
                lemma_inline_bounded(functions, body, k + 1, offset, targets, this, fuel, stack, next);
            },
            SpecTypedStatement::Log(_) => {
                let next = Inlining { out: st.out.push(body[k]), ..st };
                lemma_inline_bounded(functions, body, k + 1, offset, targets, this, fuel, stack, next);
            },
            SpecTypedStatement::Return(_) => {},
            SpecTypedStatement::For(_, _, _, _) => {},
            SpecTypedStatement::MultipleDefinition(ids, callee, args) => {
                let g = functions[callee as int];
                let first = Inlining {
                    next: st.next + g.variable_count,
                    out: st.out + define_each(
                        parameter_ids(g.parameters, st.next),
                        shift_each(args, offset),
                    ),
                };
                lemma_inline_bounded(
                    functions,
                    g.statements,
                    0,
                    st.next,
                    Some(shift_ids(ids, offset)),
                    callee,
                    (fuel - 1) as nat,
                    stack.push(callee),
                    first,
                );
                let after = inline_block(
                    functions,
                    g.statements,
                    0,
                    st.next,
                    Some(shift_ids(ids, offset)),
                    callee,
                    (fuel - 1) as nat,
                    stack.push(callee),
                    first,
                ).unwrap();
                lemma_inline_bounded(functions, body, k + 1, offset, targets, this, fuel, stack, after);
            },
        }
    }
}

/// Inlining keeps the meaning: what a call of the main function returns
/// under the strict reading, the inlined main function means.
pub proof fn inlining_keeps_meaning(program: SpecTypedProgram, arguments: Seq<Value>, fuel: nat)
    requires
        program.wf(),
        inlined(program) is Ok,
        call(program.functions, program.main, arguments, program.field.modulus as int, true, fuel)
            is Some,
    ensures
        meaning(inlined(program).unwrap().main_function(), arguments, program.field.modulus as int)
            == call(
            program.functions,
            program.main,
            arguments,
            program.field.modulus as int,
            true,
            fuel,
        ),
{
    let p = program.field.modulus as int;
    let source = program.functions;
    let main = program.main_function();
    let st = Inlining { next: main.variable_count as int, out: Seq::<SpecTypedStatement>::empty() };
    let stack = seq![program.main];
    let done = inline_block(
        source,
        main.statements,
        0,
        0,
        None,
        program.main,
        source.len(),
        stack,
        st,
    ).unwrap();
    let q = inlined(program).unwrap();
    let target = q.functions;
    lemma_inline_bounded(source, main.statements, 0, 0, None, program.main, source.len(), stack, st);
    lemma_inline_grows(source, main.statements, 0, 0, None, program.main, source.len(), stack, st);
    inlining_leaves_no_call(program);
    let env = entered(source, program.main, arguments, fuel).unwrap();
    lemma_bind_larger(
        main.parameters,
        0,
        arguments,
        empty_env(main.variable_count as int),
        empty_env(done.next),
    );
    let all = bind_arguments(main.parameters, 0, arguments, empty_env(done.next)).unwrap();
    lemma_inline_block(
        source,
        target,
        main.statements,
        0,
        0,
        None,
        program.main,
        source.len(),
        stack,
        st,
        env,
        all,
        p,
        (fuel - 1) as nat,
        0,
    );
    assert(done.out.take(done.out.len() as int) == done.out);
    assert(done.out.skip(0) == done.out);
    lemma_straight_block(target, done.out, 0, all, p, 0);
}

} // verus!
