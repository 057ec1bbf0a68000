//! Every input of a program has to bear on what the program proves.
//!
//! A variable is live where an output, a condition, or the definition of
//! a live variable reads it. An input that is not live at the start of
//! the main function is free: a prover could give it any value. Such an
//! input is either bound by a condition on itself, or refused.

use crate::static_analysis::AnalysisError;
use crate::typed_absy::{
    find_unexpected, first_unexpected, lemma_typed_view, lemma_typed_view_push, typed_view,
    Expression, Identifier, Kind, Parameter, SpecTypedProgram, SpecTypedStatement, TypedProgram,
    TypedStatement,
};
use vstd::prelude::*;

verus! {

/// What to do with an input that nothing constrains.
#[derive(Clone, Copy, Debug, PartialEq, Eq, Structural)]
pub enum Policy {
    /// Add a condition that binds the input to itself.
    Synthesize,
    /// Refuse the program.
    Reject,
}

/// The expression reads the variable.
pub open spec fn occurs(e: Expression, id: Identifier) -> bool
    decreases e,
{
    match e {
        Expression::Number(_) => false,
        Expression::Boolean(_) => false,
        Expression::Variable(x) => x == id,
        Expression::Flag(x) => x == id,
        Expression::Binary(_, a, b) => occurs(*a, id) || occurs(*b, id),
        Expression::Not(a) => occurs(*a, id),
        Expression::IfElse(c, a, b) => occurs(*c, id) || occurs(*a, id) || occurs(*b, id),
    }
}

/// One of the expressions reads the variable.
pub open spec fn occurs_in(es: Seq<Expression>, id: Identifier) -> bool {
    exists|k: int| 0 <= k < es.len() && occurs(#[trigger] es[k], id)
}

/// The variable is live before the statements: an output or a condition
/// among them reads it, or the definition of a variable that is live
/// after that definition.
pub open spec fn live(s: Seq<SpecTypedStatement>, id: Identifier) -> bool
    decreases s.len(),
{
    if s.len() == 0 {
        false
    } else {
        let after = live(s.drop_first(), id);
        match s[0] {
            SpecTypedStatement::Return(es) => after || occurs_in(es, id),
            SpecTypedStatement::Condition(a, b) => after || occurs(a, id) || occurs(b, id),
            SpecTypedStatement::Definition(x, e) => after || (live(s.drop_first(), x) && occurs(
                e,
                id,
            )),
            _ => after,
        }
    }
}

/// The condition that binds a parameter to itself.
pub open spec fn binding(parameter: Parameter) -> SpecTypedStatement {
    match parameter.kind {
        Kind::Field => SpecTypedStatement::Condition(
            Expression::Variable(parameter.id),
            Expression::Variable(parameter.id),
        ),
        Kind::Boolean => SpecTypedStatement::Condition(
            Expression::Flag(parameter.id),
            Expression::Flag(parameter.id),
        ),
    }
}

/// The bindings of the parameters that are not live before `s`, in the
/// order of the parameters.
pub open spec fn bindings(parameters: Seq<Parameter>, s: Seq<SpecTypedStatement>) -> Seq<
    SpecTypedStatement,
>
    decreases parameters.len(),
{
    if parameters.len() == 0 {
        Seq::<SpecTypedStatement>::empty()
    } else {
        let front = bindings(parameters.drop_last(), s);
        if live(s, parameters.last().id) {
            front
        } else {
            front.push(binding(parameters.last()))
        }
    }
}

/// The index of the first parameter that is not live before `s`.
pub open spec fn first_unconstrained(parameters: Seq<Parameter>, s: Seq<SpecTypedStatement>) -> Option<
    usize,
>
    decreases parameters.len(),
{
    if parameters.len() == 0 {
        None
    } else {
        match first_unconstrained(parameters.drop_last(), s) {
            Some(k) => Some(k),
            None => if live(s, parameters.last().id) {
                None
            } else {
                Some((parameters.len() - 1) as usize)
            },
        }
    }
}

/// The outcome of constraining the inputs of the main function.
pub open spec fn constrained(program: SpecTypedProgram, policy: Policy) -> Result<
    SpecTypedProgram,
    AnalysisError,
> {
    let main = program.main_function();
    match first_unexpected(main.statements) {
        Some(k) => Err(AnalysisError::UnexpectedStatement(k)),
        None => match policy {
            Policy::Reject => match first_unconstrained(main.parameters, main.statements) {
                Some(k) => Err(AnalysisError::UnconstrainedInput(k)),
                None => Ok(program),
            },
            Policy::Synthesize => Ok(
                program.with_main_statements(
                    bindings(main.parameters, main.statements) + main.statements,
                ),
            ),
        },
    }
}

/// Every input is live before the statements.
pub open spec fn inputs_constrained(parameters: Seq<Parameter>, s: Seq<SpecTypedStatement>) -> bool {
    forall|k: int| 0 <= k < parameters.len() ==> live(s, (#[trigger] parameters[k]).id)
}

/// What is live before some statements is live before any statements
/// put in front of them.
proof fn lemma_live_prepend(
    front: Seq<SpecTypedStatement>,
    s: Seq<SpecTypedStatement>,
    id: Identifier,
)
    requires
        live(s, id),
    ensures
        live(front + s, id),
    decreases front.len(),
{
    if front.len() == 0 {
        assert(front + s == s);
    } else {
        assert((front + s).drop_first() == front.drop_first() + s);
        assert((front + s)[0] == front[0]);
        lemma_live_prepend(front.drop_first(), s, id);
    }
}

/// A condition on a variable makes the variable live.
proof fn lemma_live_condition(
    front: Seq<SpecTypedStatement>,
    s: Seq<SpecTypedStatement>,
    k: int,
    id: Identifier,
)
    requires
        0 <= k < front.len(),
        front[k] is Condition,
        occurs(front[k]->Condition_0, id),
    ensures
        live(front + s, id),
    decreases front.len(),
{
    assert((front + s).drop_first() == front.drop_first() + s);
    assert((front + s)[0] == front[0]);
    if k > 0 {
        assert(front.drop_first()[k - 1] == front[k]);
        lemma_live_condition(front.drop_first(), s, k - 1, id);
    }
}

/// Every parameter that is not live has its binding among the bindings.
proof fn lemma_bindings(parameters: Seq<Parameter>, s: Seq<SpecTypedStatement>, k: int)
    requires
        0 <= k < parameters.len(),
        !live(s, parameters[k].id),
    ensures
        exists|j: int|
            0 <= j < bindings(parameters, s).len() && #[trigger] bindings(parameters, s)[j]
                == binding(parameters[k]),
    decreases parameters.len(),
{
    let all = bindings(parameters, s);
    let front = bindings(parameters.drop_last(), s);
    if k == parameters.len() - 1 {
        assert(all[front.len() as int] == binding(parameters[k]));
    } else {
        assert(parameters.drop_last()[k] == parameters[k]);
        lemma_bindings(parameters.drop_last(), s, k);
        let j = choose|j: int| 0 <= j < front.len() && #[trigger] front[j] == binding(parameters[k]);
        assert(all[j] == front[j]);
    }
}

/// Where no parameter is found wanting, every one is live.
proof fn lemma_none_unconstrained(parameters: Seq<Parameter>, s: Seq<SpecTypedStatement>)
    requires
        first_unconstrained(parameters, s) is None,
    ensures
        inputs_constrained(parameters, s),
    decreases parameters.len(),
{
    if parameters.len() > 0 {
        lemma_none_unconstrained(parameters.drop_last(), s);
        assert forall|k: int| 0 <= k < parameters.len() implies live(
            s,
            (#[trigger] parameters[k]).id,
        ) by {
            if k < parameters.len() - 1 {
                assert(parameters.drop_last()[k] == parameters[k]);
            }
        }
    }
}

/// Constraining is complete: in a program that the pass lets through,
/// every input of the main function is live: an output or a condition
/// depends on it.
pub proof fn constraining_is_complete(program: SpecTypedProgram, policy: Policy)
    requires
        program.wf(),
        constrained(program, policy) is Ok,
    ensures
        inputs_constrained(
            constrained(program, policy).unwrap().main_function().parameters,
            constrained(program, policy).unwrap().main_function().statements,
        ),
        constrained(program, policy).unwrap().main_function().parameters
            == program.main_function().parameters,
{
    let main = program.main_function();
    let q = constrained(program, policy).unwrap();
    match policy {
        Policy::Reject => {
            lemma_none_unconstrained(main.parameters, main.statements);
        },
        Policy::Synthesize => {
            let front = bindings(main.parameters, main.statements);
            let all = front + main.statements;
            assert(q.main_function().statements == all);
            assert forall|k: int| 0 <= k < main.parameters.len() implies live(
                all,
                (#[trigger] main.parameters[k]).id,
            ) by {
                let id = main.parameters[k].id;
                if live(main.statements, id) {
                    lemma_live_prepend(front, main.statements, id);
                } else {
                    lemma_bindings(main.parameters, main.statements, k);
                    let j = choose|j: int|
                        0 <= j < front.len() && #[trigger] front[j] == binding(main.parameters[k]);
                    lemma_live_condition(front, main.statements, j, id);
                }
            }
        },
    }
}

} // verus!

verus! {

fn contains(list: &Vec<Identifier>, id: Identifier) -> (r: bool)
    ensures
        r == list@.contains(id),
{
    let mut k: usize = 0;
    while k < list.len()
        invariant
            k <= list.len(),
            forall|j: int| 0 <= j < k ==> list@[j] != id,
        decreases list.len() - k,
    {
        if list[k].id == id.id {
            return true;
        }
        k += 1;
    }
    false
}

/// Adds the variables that the expression reads.
fn collect(e: &Expression, list: &mut Vec<Identifier>)
    ensures
        forall|id: Identifier|
            #[trigger] final(list)@.contains(id) == (old(list)@.contains(id) || occurs(*e, id)),
    decreases *e,
{
    match e {
        Expression::Number(_) => {},
        Expression::Boolean(_) => {},
        Expression::Variable(x) => {
            list.push(*x);
            assert forall|id: Identifier| #[trigger]
                list@.contains(id) == (old(list)@.contains(id) || occurs(*e, id)) by {
                lemma_contains_push(old(list)@, *x, id);
            }
        },
        Expression::Flag(x) => {
            list.push(*x);
            assert forall|id: Identifier| #[trigger]
                list@.contains(id) == (old(list)@.contains(id) || occurs(*e, id)) by {
                lemma_contains_push(old(list)@, *x, id);
            }
        },
        Expression::Binary(_, a, b) => {
            collect(a, list);
            collect(b, list);
        },
        Expression::Not(a) => {
            collect(a, list);
        },
        Expression::IfElse(c, a, b) => {
            collect(c, list);
            collect(a, list);
            collect(b, list);
        },
    }
}

proof fn lemma_contains_push(s: Seq<Identifier>, x: Identifier, id: Identifier)
    ensures
        s.push(x).contains(id) == (s.contains(id) || x == id),
{
    let t = s.push(x);
    if s.contains(id) {
        let k = choose|k: int| 0 <= k < s.len() && s[k] == id;
        assert(t[k] == id);
    }
    if x == id {
        assert(t[s.len() as int] == id);
    }
    if t.contains(id) {
        let k = choose|k: int| 0 <= k < t.len() && t[k] == id;
        if k < s.len() {
            assert(s[k] == id);
        }
    }
}

/// Adds the variables that the expressions read.
fn collect_all(es: &Vec<Expression>, list: &mut Vec<Identifier>)
    ensures
        forall|id: Identifier|
            #[trigger] final(list)@.contains(id) == (old(list)@.contains(id) || occurs_in(es@, id)),
{
    let mut k: usize = 0;
    while k < es.len()
        invariant
            k <= es.len(),
            forall|id: Identifier|
                #[trigger] list@.contains(id) == (old(list)@.contains(id) || occurs_in(
                    es@.take(k as int),
                    id,
                )),
        decreases es.len() - k,
    {
        let ghost before = list@;
        collect(&es[k], list);
        proof {
            let prefix = es@.take(k as int);
            let next = es@.take(k + 1);
            assert forall|id: Identifier| #[trigger]
                list@.contains(id) == (old(list)@.contains(id) || occurs_in(next, id)) by {
                assert(before.contains(id) == (old(list)@.contains(id) || occurs_in(prefix, id)));
                if occurs_in(prefix, id) {
                    let j = choose|j: int| 0 <= j < prefix.len() && occurs(#[trigger] prefix[j], id);
                    assert(next[j] == prefix[j]);
                }
                if occurs(es@[k as int], id) {
                    assert(next[k as int] == es@[k as int]);
                }
                if occurs_in(next, id) {
                    let j = choose|j: int| 0 <= j < next.len() && occurs(#[trigger] next[j], id);
                    if j < k {
                        assert(prefix[j] == next[j]);
                    }
                }
            }
        }
        k += 1;
    }
    assert(es@.take(k as int) == es@);
}

/// The variables that are live before the statements.
fn live_variables(statements: &Vec<TypedStatement>) -> (r: Vec<Identifier>)
    ensures
        forall|id: Identifier| #[trigger] r@.contains(id) == live(typed_view(statements@), id),
{
    let ghost s = typed_view(statements@);
    proof {
        lemma_typed_view(statements@);
    }
    let mut list: Vec<Identifier> = Vec::new();
    let mut k: usize = statements.len();
    assert(s.skip(k as int) == Seq::<SpecTypedStatement>::empty());
    while k > 0
        invariant
            k <= statements.len(),
            s == typed_view(statements@),
            s.len() == statements.len(),
            forall|j: int| 0 <= j < s.len() ==> s[j] == (#[trigger] statements@[j])@,
            forall|id: Identifier| #[trigger] list@.contains(id) == live(s.skip(k as int), id),
        decreases k,
    {
        k -= 1;
        let ghost rest = s.skip(k as int);
        let ghost before = list@;
        proof {
            assert(rest[0] == s[k as int]);
            assert(rest.drop_first() == s.skip(k + 1));
            assert(s[k as int] == statements@[k as int]@);
        }
        match &statements[k] {
            TypedStatement::Return(es) => {
                collect_all(es, &mut list);
            },
            TypedStatement::Condition(a, b) => {
                collect(a, &mut list);
                collect(b, &mut list);
            },
            TypedStatement::Definition(x, e) => {
                if contains(&list, *x) {
                    collect(e, &mut list);
                }
            },
            _ => {},
        }
    }
    assert(s.skip(0) == s);
    list
}

/// The condition that binds a parameter to itself.
fn bind(parameter: Parameter) -> (r: TypedStatement)
    ensures
        r@ == binding(parameter),
{
    match parameter.kind {
        Kind::Field => TypedStatement::Condition(
            Expression::Variable(parameter.id),
            Expression::Variable(parameter.id),
        ),
        Kind::Boolean => TypedStatement::Condition(
            Expression::Flag(parameter.id),
            Expression::Flag(parameter.id),
        ),
    }
}

/// Sees to it that every input of a program is constrained.
#[derive(Clone, Copy, Debug)]
pub struct InputConstrainer {
    pub policy: Policy,
}

impl InputConstrainer {
    pub fn new(policy: Policy) -> (r: InputConstrainer)
        ensures
            r.policy == policy,
    {
        InputConstrainer { policy }
    }

    /// Checks that every input of the main function is live. Under
    /// [`Policy::Reject`] the first input that is not is an error. Under
    /// [`Policy::Synthesize`] each such input gets a condition that binds
    /// it to itself, put before the other statements. A loop or a call
    /// in the main function is an error.
    pub fn constrain(&self, program: TypedProgram) -> (r: Result<TypedProgram, AnalysisError>)
        requires
            program@.wf(),
        ensures
            match r {
                Ok(q) => constrained(program@, self.policy) == Ok::<SpecTypedProgram, AnalysisError>(
                    q@,
                ) && q@.wf(),
                Err(e) => constrained(program@, self.policy) == Err::<
                    SpecTypedProgram,
                    AnalysisError,
                >(e),
            },
    {
        let main = program.main_function();
        match find_unexpected(&main.statements) {
            Some(k) => {
                return Err(AnalysisError::UnexpectedStatement(k));
            },
            None => {},
        }
        let ghost s = main@.statements;
        let ghost parameters = main@.parameters;
        let alive = live_variables(&main.statements);
        let mut out: Vec<TypedStatement> = Vec::new();
        let mut k: usize = 0;
        assert(parameters.take(0) == Seq::<Parameter>::empty());
        while k < main.parameters.len()
            invariant
                k <= main.parameters.len(),
                parameters == main.parameters@,
                s == typed_view(main.statements@),
                main@ == program@.main_function(),
                first_unexpected(s) is None,
                forall|id: Identifier| #[trigger] alive@.contains(id) == live(s, id),
                typed_view(out@) == bindings(parameters.take(k as int), s),
                self.policy == Policy::Reject ==> first_unconstrained(parameters.take(k as int), s)
                    is None,
            decreases main.parameters.len() - k,
        {
            let parameter = main.parameters[k];
            proof {
                assert(parameters.take(k + 1).drop_last() == parameters.take(k as int));
                assert(parameters.take(k + 1).last() == parameter);
            }
            if !contains(&alive, parameter.id) {
                match self.policy {
                    Policy::Reject => {
                        proof {
                            assert(!live(s, parameter.id));
                            assert(first_unconstrained(parameters.take(k + 1), s) == Some(k));
                            lemma_first_unconstrained_prefix(parameters, s, k + 1);
                        }
                        return Err(AnalysisError::UnconstrainedInput(k));
                    },
                    Policy::Synthesize => {
                        let ghost before = out@;
                        let b = bind(parameter);
                        out.push(b);
                        proof {
                            lemma_typed_view_push(before, b);
                        }
                    },
                }
            }
            k += 1;
        }
        assert(parameters.take(k as int) == parameters);
        match self.policy {
            Policy::Reject => Ok(program),
            Policy::Synthesize => {
                let ghost front = out@;
                let mut j: usize = 0;
                assert(s.take(0) == Seq::<SpecTypedStatement>::empty());
                assert(typed_view(front) + s.take(0) == typed_view(front));
                while j < main.statements.len()
                    invariant
                        j <= main.statements.len(),
                        s == typed_view(main.statements@),
                        typed_view(out@) == typed_view(front) + s.take(j as int),
                    decreases main.statements.len() - j,
                {
                    let ghost before = out@;
                    let copy = main.statements[j].clone();
                    out.push(copy);
                    proof {
                        lemma_typed_view(main.statements@);
                        lemma_typed_view_push(before, copy);
                        assert(s.take(j + 1) == s.take(j as int).push(s[j as int]));
                        assert((typed_view(front) + s.take(j as int)).push(s[j as int])
                            == typed_view(front) + s.take(j + 1));
                    }
                    j += 1;
                }
                proof {
                    lemma_typed_view(main.statements@);
                    assert(s.take(j as int) == s);
                }
                Ok(program.with_main_statements(out))
            },
        }
    }
}

/// What is found among a prefix of the parameters is found among all.
proof fn lemma_first_unconstrained_prefix(
    parameters: Seq<Parameter>,
    s: Seq<SpecTypedStatement>,
    k: int,
)
    requires
        0 <= k <= parameters.len(),
        first_unconstrained(parameters.take(k), s) is Some,
    ensures
        first_unconstrained(parameters, s) == first_unconstrained(parameters.take(k), s),
    decreases parameters.len(),
{
    if k == parameters.len() {
        assert(parameters.take(k) == parameters);
    } else {
        assert(parameters.drop_last().take(k) == parameters.take(k));
        lemma_first_unconstrained_prefix(parameters.drop_last(), s, k);
    }
}

} // verus!
