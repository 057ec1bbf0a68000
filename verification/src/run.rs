//! Running typed programs: what [`call`] describes, computed.

use crate::field::Field;
use crate::semantics::{
    assign_variable, assign_variables, call, entered, of_kinds, run_block, run_loop,
    run_statement, Outcome,
};
use crate::typed_absy::{
    bind_arguments, empty_env, env_within, evaluate_all, evaluate_each, functions_view,
    lemma_evaluate_within, lemma_typed_view, of_kind, typed_view, value_within, Identifier, Kind,
    TypedFunction, TypedProgram, TypedStatement, Value,
};
use vstd::prelude::*;

verus! {

/// What a piece of a function has left: the environment and, after a
/// return, the values returned.
pub struct Left {
    pub env: Vec<Option<Value>>,
    pub returned: Option<Vec<Value>>,
}

impl View for Left {
    type V = Outcome;

    open spec fn view(&self) -> Outcome {
        Outcome {
            env: self.env@,
            returned: match self.returned {
                Some(values) => Some(values@),
                None => None,
            },
        }
    }
}

/// The mathematical content of what was left, if anything was.
pub open spec fn left_view(r: Option<Left>) -> Option<Outcome> {
    match r {
        Some(left) => Some(left@),
        None => None,
    }
}

/// Every field element among the values is below `p`.
pub open spec fn values_within(values: Seq<Value>, p: int) -> bool {
    forall|k: int| 0 <= k < values.len() ==> value_within(#[trigger] values[k], p)
}

/// What was left holds elements of the field only.
pub open spec fn left_within(r: Option<Left>, p: int) -> bool {
    r is Some ==> env_within(r.unwrap().env@, p) && (r.unwrap().returned is Some ==> values_within(
        r.unwrap().returned.unwrap()@,
        p,
    ))
}

/// The environment with the variable assigned; see [`assign_variable`].
fn assign_one(env: Vec<Option<Value>>, id: Identifier, v: Value, strict: bool, Ghost(p): Ghost<int>) -> (r:
    Option<Vec<Option<Value>>>)
    requires
        env_within(env@, p),
        value_within(v, p),
    ensures
        match r {
            Some(next) => assign_variable(env@, id, v, strict) == Some(next@) && env_within(
                next@,
                p,
            ),
            None => assign_variable(env@, id, v, strict) is None,
        },
{
    let mut env = env;
    if id.id < env.len() && (!strict || env[id.id].is_none()) {
        let ghost before = env@;
        env.set(id.id, Some(v));
        proof {
            assert forall|i: int|
                0 <= i < env@.len() && (#[trigger] env@[i]) is Some && env@[i].unwrap()
                    is Field implies env@[i].unwrap()->Field_0 < p by {
                if i != id.id {
                    assert(env@[i] == before[i]);
                }
            }
        }
        Some(env)
    } else {
        None
    }
}

/// The environment with the variables assigned the values; see
/// [`assign_variables`].
fn assign_many(
    env: Vec<Option<Value>>,
    ids: &Vec<Identifier>,
    values: &Vec<Value>,
    strict: bool,
    Ghost(p): Ghost<int>,
) -> (r: Option<Vec<Option<Value>>>)
    requires
        env_within(env@, p),
        values_within(values@, p),
    ensures
        match r {
            Some(next) => assign_variables(env@, ids@, values@, 0, strict) == Some(next@)
                && env_within(next@, p),
            None => assign_variables(env@, ids@, values@, 0, strict) is None,
        },
{
    let ghost start = env@;
    let mut cur = env;
    let mut k: usize = 0;
    while k < ids.len()
        invariant
            k <= ids.len(),
            start == env@,
            env_within(cur@, p),
            values_within(values@, p),
            assign_variables(cur@, ids@, values@, k as int, strict) == assign_variables(
                start,
                ids@,
                values@,
                0,
                strict,
            ),
        decreases ids.len() - k,
    {
        if k >= values.len() {
            return None;
        }
        assert(value_within(values@[k as int], p));
        match assign_one(cur, ids[k], values[k], strict, Ghost(p)) {
            Some(next) => {
                cur = next;
            },
            None => {
                return None;
            },
        }
        k += 1;
    }
    Some(cur)
}

/// Whether the values are of the kinds, one for one; see [`of_kinds`].
fn kinds_fit(values: &Vec<Value>, kinds: &Vec<Kind>) -> (r: bool)
    ensures
        r == of_kinds(values@, kinds@),
{
    if values.len() != kinds.len() {
        return false;
    }
    let mut k: usize = 0;
    while k < values.len()
        invariant
            k <= values.len(),
            values.len() == kinds.len(),
            forall|j: int| 0 <= j < k ==> of_kind(#[trigger] values@[j], kinds@[j]),
        decreases values.len() - k,
    {
        let fits = match (kinds[k], values[k]) {
            (Kind::Field, Value::Field(_)) => true,
            (Kind::Boolean, Value::Boolean(_)) => true,
            _ => false,
        };
        if !fits {
            assert(!of_kind(values@[k as int], kinds@[k as int]));
            return false;
        }
        k += 1;
    }
    true
}

/// The environment in which a function starts on the arguments; see
/// [`entered`].
fn enter(functions: &Vec<TypedFunction>, callee: usize, arguments: &Vec<Value>, fuel: usize, Ghost(p): Ghost<int>) -> (r:
    Option<Vec<Option<Value>>>)
    requires
        values_within(arguments@, p),
    ensures
        match r {
            Some(env) => entered(functions_view(functions@), callee, arguments@, fuel as nat)
                == Some(env@) && env_within(env@, p),
            None => entered(functions_view(functions@), callee, arguments@, fuel as nat) is None,
        },
{
    if fuel == 0 || callee >= functions.len() {
        return None;
    }
    let f = &functions[callee];
    assert(functions_view(functions@)[callee as int] == f@);
    if arguments.len() != f.parameters.len() {
        return None;
    }
    let mut env: Vec<Option<Value>> = Vec::new();
    while env.len() < f.variable_count
        invariant
            env.len() <= f.variable_count,
            forall|i: int| 0 <= i < env.len() ==> (#[trigger] env@[i]) is None,
        decreases f.variable_count - env.len(),
    {
        env.push(None);
    }
    assert(env@ =~= empty_env(f.variable_count as int));
    let mut k: usize = 0;
    while k < f.parameters.len()
        invariant
            k <= f.parameters.len(),
            fuel > 0,
            callee < functions.len(),
            functions_view(functions@)[callee as int] == f@,
            arguments.len() == f.parameters.len(),
            env_within(env@, p),
            values_within(arguments@, p),
            bind_arguments(f.parameters@, k as int, arguments@, env@) == bind_arguments(
                f.parameters@,
                0,
                arguments@,
                empty_env(f.variable_count as int),
            ),
        decreases f.parameters.len() - k,
    {
        let parameter = f.parameters[k];
        let argument = arguments[k];
        let fits = match (parameter.kind, argument) {
            (Kind::Field, Value::Field(_)) => true,
            (Kind::Boolean, Value::Boolean(_)) => true,
            _ => false,
        };
        if !fits || parameter.id.id >= env.len() || env[parameter.id.id].is_some() {
            return None;
        }
        assert(value_within(arguments@[k as int], p));
        let ghost before = env@;
        env.set(parameter.id.id, Some(argument));
        proof {
            assert forall|i: int|
                0 <= i < env@.len() && (#[trigger] env@[i]) is Some && env@[i].unwrap()
                    is Field implies env@[i].unwrap()->Field_0 < p by {
                if i != parameter.id.id {
                    assert(env@[i] == before[i]);
                }
            }
        }
        k += 1;
    }
    Some(env)
}

} // verus!

verus! {

/// What a statement leaves of an environment; see [`run_statement`].
fn step(
    functions: &Vec<TypedFunction>,
    s: &TypedStatement,
    env: Vec<Option<Value>>,
    field: &Field,
    strict: bool,
    fuel: usize,
) -> (r: Option<Left>)
    requires
        field.wf(),
        env_within(env@, field.modulus as int),
    ensures
        left_view(r) == run_statement(
            functions_view(functions@),
            s@,
            env@,
            field.modulus as int,
            strict,
            fuel as nat,
        ),
        left_within(r, field.modulus as int),
    decreases fuel, *s, 0nat,
{
    let ghost p = field.modulus as int;
    let ghost fv = functions_view(functions@);
    match s {
        TypedStatement::Definition(id, e) => match e.evaluate(&env, field) {
            Some(v) => match assign_one(env, *id, v, strict, Ghost(p)) {
                Some(next) => Some(Left { env: next, returned: None }),
                None => None,
            },
            None => None,
        },
        TypedStatement::Condition(a, b) => match (a.evaluate(&env, field), b.evaluate(&env, field)) {
            (Some(x), Some(y)) => if x == y {
                Some(Left { env, returned: None })
            } else {
                None
            },
            _ => None,
        },
        TypedStatement::Log(_) => Some(Left { env, returned: None }),
        TypedStatement::Return(es) => match evaluate_all(es, &env, field) {
            Some(values) => {
                proof {
                    assert forall|k: int| 0 <= k < values@.len() implies value_within(
                        #[trigger] values@[k],
                        p,
                    ) by {
                        lemma_evaluate_within(es@[k], env@, p);
                    }
                }
                Some(Left { env, returned: Some(values) })
            },
            None => None,
        },
        TypedStatement::For(id, from, to, body) => match (
            from.evaluate(&env, field),
            to.evaluate(&env, field),
        ) {
            (Some(Value::Field(low)), Some(Value::Field(high))) => repeat(
                functions,
                *id,
                body,
                low,
                high,
                env,
                field,
                strict,
                fuel,
            ),
            _ => None,
        },
        TypedStatement::MultipleDefinition(ids, callee, args) => {
            let values = match evaluate_all(args, &env, field) {
                Some(values) => values,
                None => {
                    return None;
                },
            };
            proof {
                assert forall|k: int| 0 <= k < values@.len() implies value_within(
                    #[trigger] values@[k],
                    p,
                ) by {
                    lemma_evaluate_within(args@[k], env@, p);
                }
            }
            let inner = match enter(functions, *callee, &values, fuel, Ghost(p)) {
                Some(inner) => inner,
                None => {
                    return None;
                },
            };
            let f = &functions[*callee];
            assert(fv[*callee as int] == f@);
            let left = match block(functions, &f.statements, inner, field, strict, fuel - 1) {
                Some(left) => left,
                None => {
                    return None;
                },
            };
            match left.returned {
                Some(returned) => {
                    if returned.len() == ids.len() && kinds_fit(&returned, &f.outputs) {
                        match assign_many(env, ids, &returned, strict, Ghost(p)) {
                            Some(next) => Some(Left { env: next, returned: None }),
                            None => None,
                        }
                    } else {
                        None
                    }
                },
                None => None,
            }
        },
    }
}

/// What the iterations of a loop leave; see [`run_loop`].
fn repeat(
    functions: &Vec<TypedFunction>,
    id: Identifier,
    body: &Vec<TypedStatement>,
    low: u64,
    high: u64,
    env: Vec<Option<Value>>,
    field: &Field,
    strict: bool,
    fuel: usize,
) -> (r: Option<Left>)
    requires
        field.wf(),
        high < field.modulus,
        env_within(env@, field.modulus as int),
    ensures
        left_view(r) == run_loop(
            functions_view(functions@),
            id,
            typed_view(body@),
            low as int,
            high as int,
            env@,
            field.modulus as int,
            strict,
            fuel as nat,
        ),
        left_within(r, field.modulus as int),
    decreases fuel, body, 1nat,
{
    let ghost p = field.modulus as int;
    let ghost fv = functions_view(functions@);
    let ghost bv = typed_view(body@);
    let ghost start = env@;
    let mut cur = env;
    let mut v: u64 = low;
    while v < high
        invariant
            field.wf(),
            p == field.modulus as int,
            high < p,
            fv == functions_view(functions@),
            bv == typed_view(body@),
            start == env@,
            env_within(cur@, p),
            run_loop(fv, id, bv, v as int, high as int, cur@, p, strict, fuel as nat) == run_loop(
                fv,
                id,
                bv,
                low as int,
                high as int,
                start,
                p,
                strict,
                fuel as nat,
            ),
        decreases high - v,
    {
        let inner = match assign_one(cur, id, Value::Field(v), strict, Ghost(p)) {
            Some(inner) => inner,
            None => {
                return None;
            },
        };
        let left = match block(functions, body, inner, field, strict, fuel) {
            Some(left) => left,
            None => {
                return None;
            },
        };
        if left.returned.is_some() {
            return Some(left);
        }
        cur = left.env;
        v += 1;
    }
    Some(Left { env: cur, returned: None })
}

/// What the statements of a block leave; see [`run_block`].
fn block(
    functions: &Vec<TypedFunction>,
    body: &Vec<TypedStatement>,
    env: Vec<Option<Value>>,
    field: &Field,
    strict: bool,
    fuel: usize,
) -> (r: Option<Left>)
    requires
        field.wf(),
        env_within(env@, field.modulus as int),
    ensures
        left_view(r) == run_block(
            functions_view(functions@),
            typed_view(body@),
            0,
            env@,
            field.modulus as int,
            strict,
            fuel as nat,
        ),
        left_within(r, field.modulus as int),
    decreases fuel, body, 0nat,
{
    let ghost p = field.modulus as int;
    let ghost fv = functions_view(functions@);
    let ghost bv = typed_view(body@);
    let ghost start = env@;
    proof {
        lemma_typed_view(body@);
    }
    let mut cur = env;
    let mut k: usize = 0;
    while k < body.len()
        invariant
            k <= body.len(),
            field.wf(),
            p == field.modulus as int,
            fv == functions_view(functions@),
            bv == typed_view(body@),
            bv.len() == body.len(),
            forall|j: int| 0 <= j < bv.len() ==> bv[j] == (#[trigger] body@[j])@,
            start == env@,
            env_within(cur@, p),
            run_block(fv, bv, k as int, cur@, p, strict, fuel as nat) == run_block(
                fv,
                bv,
                0,
                start,
                p,
                strict,
                fuel as nat,
            ),
        decreases body.len() - k,
    {
        assert(bv[k as int] == body@[k as int]@);
        let left = match step(functions, &body[k], cur, field, strict, fuel) {
            Some(left) => left,
            None => {
                return None;
            },
        };
        if left.returned.is_some() {
            return Some(left);
        }
        cur = left.env;
        k += 1;
    }
    Some(Left { env: cur, returned: None })
}

impl TypedProgram {
    /// What the function `callee` returns on the arguments, with calls
    /// at most `fuel` deep: under the strict reading where `strict`
    /// holds, under the loose reading elsewhere. There is no result
    /// where the run fails or needs deeper calls.
    pub fn call(&self, callee: usize, arguments: &Vec<Value>, strict: bool, fuel: usize) -> (r:
        Option<Vec<Value>>)
        requires
            self.field.wf(),
            values_within(arguments@, self.field.modulus as int),
        ensures
            match r {
                Some(values) => call(
                    self@.functions,
                    callee,
                    arguments@,
                    self.field.modulus as int,
                    strict,
                    fuel as nat,
                ) == Some(values@),
                None => call(
                    self@.functions,
                    callee,
                    arguments@,
                    self.field.modulus as int,
                    strict,
                    fuel as nat,
                ) is None,
            },
    {
        let ghost p = self.field.modulus as int;
        let inner = match enter(&self.functions, callee, arguments, fuel, Ghost(p)) {
            Some(inner) => inner,
            None => {
                return None;
            },
        };
        let f = &self.functions[callee];
        assert(functions_view(self.functions@)[callee as int] == f@);
        let left = match block(&self.functions, &f.statements, inner, &self.field, strict, fuel - 1) {
            Some(left) => left,
            None => {
                return None;
            },
        };
        match left.returned {
            Some(returned) => if kinds_fit(&returned, &f.outputs) {
                Some(returned)
            } else {
                None
            },
            None => None,
        }
    }
}

} // verus!
