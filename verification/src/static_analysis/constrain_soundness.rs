//! Constraining the inputs changes nothing that a program computes.

use crate::static_analysis::constrain_inputs::{binding, bindings, constrained, Policy};
use crate::typed_absy::{
    bind_arguments, empty_env, meaning, of_kind, outputs_of, perform, Parameter, SpecTypedProgram,
    SpecTypedStatement, Value,
};
use vstd::prelude::*;

verus! {

/// The parameter holds a value of its kind in the environment.
pub open spec fn holds_argument(env: Seq<Option<Value>>, parameter: Parameter) -> bool {
    &&& parameter.id.id < env.len()
    &&& env[parameter.id.id as int] is Some
    &&& of_kind(env[parameter.id.id as int].unwrap(), parameter.kind)
}

/// Once the arguments are bound, every parameter holds a value of its
/// kind, and what had a value before has kept it.
proof fn lemma_arguments_held(
    parameters: Seq<Parameter>,
    k: int,
    arguments: Seq<Value>,
    env: Seq<Option<Value>>,
)
    requires
        0 <= k,
        bind_arguments(parameters, k, arguments, env) is Some,
    ensures
        bind_arguments(parameters, k, arguments, env).unwrap().len() == env.len(),
        forall|i: int|
            0 <= i < env.len() && (#[trigger] env[i]) is Some ==> bind_arguments(
                parameters,
                k,
                arguments,
                env,
            ).unwrap()[i] == env[i],
        forall|j: int|
            k <= j < parameters.len() ==> holds_argument(
                bind_arguments(parameters, k, arguments, env).unwrap(),
                #[trigger] parameters[j],
            ),
    decreases parameters.len() - k,
{
    if k < parameters.len() {
        let id = parameters[k].id.id as int;
        let next = env.update(id, Some(arguments[k]));
        lemma_arguments_held(parameters, k + 1, arguments, next);
        let out = bind_arguments(parameters, k, arguments, env).unwrap();
        assert(next[id] is Some);
        assert(out[id] == next[id]);
        assert forall|i: int| 0 <= i < env.len() && (#[trigger] env[i]) is Some implies out[i]
            == env[i] by {
            assert(next[i] == env[i]);
            assert(next[i] is Some);
        }
    }
}

/// Every binding is the binding of a parameter.
proof fn lemma_bindings_from(parameters: Seq<Parameter>, s: Seq<SpecTypedStatement>, i: int)
    requires
        0 <= i < bindings(parameters, s).len(),
    ensures
        exists|j: int|
            0 <= j < parameters.len() && bindings(parameters, s)[i] == binding(
                #[trigger] parameters[j],
            ),
    decreases parameters.len(),
{
    if parameters.len() > 0 {
        let front = bindings(parameters.drop_last(), s);
        if i < front.len() {
            lemma_bindings_from(parameters.drop_last(), s, i);
            let j = choose|j: int|
                0 <= j < parameters.drop_last().len() && front[i] == binding(
                    #[trigger] parameters.drop_last()[j],
                );
            assert(parameters[j] == parameters.drop_last()[j]);
        } else {
            assert(bindings(parameters, s)[i] == binding(parameters[parameters.len() - 1]));
        }
    }
}

/// Statements that leave the environment as it is can stand in front of
/// a function's statements: the outputs are the same.
proof fn lemma_outputs_behind(
    front: Seq<SpecTypedStatement>,
    s: Seq<SpecTypedStatement>,
    env: Seq<Option<Value>>,
    p: int,
)
    requires
        forall|i: int|
            0 <= i < front.len() ==> !((#[trigger] front[i]) is Return) && perform(
                front[i],
                env,
                p,
            ) == Some(env),
    ensures
        outputs_of(front + s, env, p) == outputs_of(s, env, p),
    decreases front.len(),
{
    if front.len() == 0 {
        assert(front + s == s);
    } else {
        assert((front + s)[0] == front[0]);
        assert((front + s).drop_first() == front.drop_first() + s);
        assert forall|i: int| 0 <= i < front.drop_first().len() implies !((
        #[trigger] front.drop_first()[i]) is Return) && perform(front.drop_first()[i], env, p)
            == Some(env) by {
            assert(front.drop_first()[i] == front[i + 1]);
        }
        lemma_outputs_behind(front.drop_first(), s, env, p);
    }
}

/// Constraining keeps the meaning: a program whose inputs were
/// constrained returns what the program returns, on every input.
pub proof fn constraining_keeps_meaning(
    program: SpecTypedProgram,
    policy: Policy,
    arguments: Seq<Value>,
)
    requires
        program.wf(),
        constrained(program, policy) is Ok,
    ensures
        meaning(
            constrained(program, policy).unwrap().main_function(),
            arguments,
            program.field.modulus as int,
        ) == meaning(program.main_function(), arguments, program.field.modulus as int),
{
    let main = program.main_function();
    let p = program.field.modulus as int;
    if policy == Policy::Synthesize && arguments.len() == main.parameters.len() {
        let start = empty_env(main.variable_count as int);
        if bind_arguments(main.parameters, 0, arguments, start) is Some {
            let env = bind_arguments(main.parameters, 0, arguments, start).unwrap();
            lemma_arguments_held(main.parameters, 0, arguments, start);
            let front = bindings(main.parameters, main.statements);
            assert forall|i: int| 0 <= i < front.len() implies !((#[trigger] front[i]) is Return)
                && perform(front[i], env, p) == Some(env) by {
                lemma_bindings_from(main.parameters, main.statements, i);
                let j = choose|j: int|
                    0 <= j < main.parameters.len() && front[i] == binding(
                        #[trigger] main.parameters[j],
                    );
                assert(holds_argument(env, main.parameters[j]));
            }
            lemma_outputs_behind(front, main.statements, env, p);
        }
    }
}

} // verus!
