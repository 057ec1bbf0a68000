//! Loops are replaced by their iterations.
//!
//! The bounds of a loop have to be constants once the constants known so
//! far are put in. Each assignment gets a variable of its own, so that
//! the copies of a loop body do not collide. The number of iterations is
//! limited.

use crate::field::Field;
use crate::static_analysis::AnalysisError;
use crate::typed_absy::{
    clone_kinds, clone_parameters, env_within, evaluate, lemma_typed_view, lemma_typed_view_push,
    typed_view, Expression, Identifier, SpecFunction, SpecTypedProgram, SpecTypedStatement,
    TypedFunction, TypedProgram, TypedStatement, Value,
};
use vstd::prelude::*;

verus! {

/// How far an unrolling has come.
pub struct Unrolling {
    /// For each variable of the source, the variable that stands for it
    /// now.
    pub names: Seq<Identifier>,
    /// The next fresh variable.
    pub next: int,
    /// For each variable, its value where it is a known constant.
    pub env: Seq<Option<Value>>,
    /// The statements emitted so far.
    pub out: Seq<SpecTypedStatement>,
    /// How many iterations may still be unrolled.
    pub budget: int,
}

/// The variable that stands for a variable of the source.
pub open spec fn current(names: Seq<Identifier>, id: Identifier) -> Identifier {
    if id.id < names.len() {
        names[id.id as int]
    } else {
        id
    }
}

/// The expression with every variable replaced by what stands for it.
pub open spec fn rename(e: Expression, names: Seq<Identifier>) -> Expression
    decreases e,
{
    match e {
        Expression::Number(_) => e,
        Expression::Boolean(_) => e,
        Expression::Variable(id) => Expression::Variable(current(names, id)),
        Expression::Flag(id) => Expression::Flag(current(names, id)),
        Expression::Binary(op, a, b) => Expression::Binary(
            op,
            Box::new(rename(*a, names)),
            Box::new(rename(*b, names)),
        ),
        Expression::Not(a) => Expression::Not(Box::new(rename(*a, names))),
        Expression::IfElse(c, a, b) => Expression::IfElse(
            Box::new(rename(*c, names)),
            Box::new(rename(*a, names)),
            Box::new(rename(*b, names)),
        ),
    }
}

/// The expressions, each renamed.
pub open spec fn rename_each(es: Seq<Expression>, names: Seq<Identifier>) -> Seq<Expression> {
    Seq::new(es.len(), |k: int| rename(es[k], names))
}

/// The variable that an assignment to `id` defines: a fresh one for a
/// variable of the source, the variable itself for any other.
pub open spec fn target(id: Identifier, st: Unrolling) -> Identifier {
    if id.id < st.names.len() {
        Identifier { id: st.next as usize }
    } else {
        id
    }
}

/// The state after an assignment to `id` of a value that is `known`.
pub open spec fn assigned(id: Identifier, known: Option<Value>, st: Unrolling) -> Unrolling {
    if id.id < st.names.len() {
        Unrolling {
            names: st.names.update(id.id as int, Identifier { id: st.next as usize }),
            next: st.next + 1,
            env: st.env.push(known),
            ..st
        }
    } else {
        st
    }
}

/// The state with one more statement emitted.
pub open spec fn emitting(s: SpecTypedStatement, st: Unrolling) -> Unrolling {
    Unrolling { out: st.out.push(s), ..st }
}

/// Assignments to the variables from the `k`-th on, none with a known
/// value; the variables they define are added to `defined`.
pub open spec fn assign_all(
    ids: Seq<Identifier>,
    k: int,
    defined: Seq<Identifier>,
    st: Unrolling,
) -> Result<(Seq<Identifier>, Unrolling), AnalysisError>
    decreases ids.len() - k,
{
    if k < 0 || k >= ids.len() {
        Ok((defined, st))
    } else if st.next >= usize::MAX {
        Err(AnalysisError::TooManyVariables)
    } else {
        assign_all(ids, k + 1, defined.push(target(ids[k], st)), assigned(ids[k], None, st))
    }
}

/// What a statement unrolls to. `place` is the error for a loop whose
/// bounds are no constants.
pub open spec fn unroll_statement(
    s: SpecTypedStatement,
    st: Unrolling,
    p: int,
    place: AnalysisError,
) -> Result<Unrolling, AnalysisError>
    decreases s, 0int, 0int,
{
    match s {
        SpecTypedStatement::Definition(id, e) => if st.next >= usize::MAX {
            Err(AnalysisError::TooManyVariables)
        } else {
            let renamed = rename(e, st.names);
            Ok(
                emitting(
                    SpecTypedStatement::Definition(target(id, st), renamed),
                    assigned(id, evaluate(renamed, st.env, p), st),
                ),
            )
        },
        SpecTypedStatement::Condition(a, b) => Ok(
            emitting(SpecTypedStatement::Condition(rename(a, st.names), rename(b, st.names)), st),
        ),
        SpecTypedStatement::Return(es) => Ok(
            emitting(SpecTypedStatement::Return(rename_each(es, st.names)), st),
        ),
        SpecTypedStatement::Log(text) => Ok(emitting(s, st)),
        SpecTypedStatement::MultipleDefinition(ids, callee, args) => match assign_all(
            ids,
            0,
            Seq::<Identifier>::empty(),
            st,
        ) {
            Err(e) => Err(e),
            Ok((defined, after)) => Ok(
                emitting(
                    SpecTypedStatement::MultipleDefinition(
                        defined,
                        callee,
                        rename_each(args, st.names),
                    ),
                    after,
                ),
            ),
        },
        SpecTypedStatement::For(id, from, to, body) => match (
            evaluate(rename(from, st.names), st.env, p),
            evaluate(rename(to, st.names), st.env, p),
        ) {
            (Some(Value::Field(low)), Some(Value::Field(high))) => unroll_iterations(
                id,
                body,
                low as int,
                high as int,
                st,
                p,
                place,
            ),
            _ => Err(place),
        },
    }
}

/// The iterations of a loop from the value `v` on.
pub open spec fn unroll_iterations(
    id: Identifier,
    body: Seq<SpecTypedStatement>,
    v: int,
    high: int,
    st: Unrolling,
    p: int,
    place: AnalysisError,
) -> Result<Unrolling, AnalysisError>
    decreases body, 1int, high - v,
{
    if v >= high {
        Ok(st)
    } else if st.budget <= 0 {
        Err(AnalysisError::TooManyIterations)
    } else if st.next >= usize::MAX {
        Err(AnalysisError::TooManyVariables)
    } else {
        let spent = Unrolling { budget: st.budget - 1, ..st };
        let index = emitting(
            SpecTypedStatement::Definition(target(id, spent), Expression::Number(v as u64)),
            assigned(id, Some(Value::Field(v as u64)), spent),
        );
        match unroll_block(body, 0, index, p, place) {
            Err(e) => Err(e),
            Ok(after) => unroll_iterations(id, body, v + 1, high, after, p, place),
        }
    }
}

/// The statements of a block from the `k`-th on.
pub open spec fn unroll_block(
    body: Seq<SpecTypedStatement>,
    k: int,
    st: Unrolling,
    p: int,
    place: AnalysisError,
) -> Result<Unrolling, AnalysisError>
    decreases body, 0int, body.len() - k,
{
    if k < 0 || k >= body.len() {
        Ok(st)
    } else {
        match unroll_statement(body[k], st, p, place) {
            Err(e) => Err(e),
            Ok(after) => unroll_block(body, k + 1, after, p, place),
        }
    }
}

/// The statements of a function from the `k`-th on. A loop whose bounds
/// are no constants is reported with the index of the function and the
/// position of the statement that holds it.
pub open spec fn unroll_from(
    s: Seq<SpecTypedStatement>,
    k: int,
    st: Unrolling,
    p: int,
    function: usize,
) -> Result<Unrolling, AnalysisError>
    decreases s.len() - k,
{
    if k < 0 || k >= s.len() {
        Ok(st)
    } else {
        match unroll_statement(s[k], st, p, AnalysisError::UnrollableBound(function, k as usize)) {
            Err(e) => Err(e),
            Ok(after) => unroll_from(s, k + 1, after, p, function),
        }
    }
}

/// Where the unrolling of a function starts: every variable stands for
/// itself and none is known.
pub open spec fn start(f: SpecFunction, limit: usize) -> Unrolling {
    Unrolling {
        names: Seq::new(f.variable_count as nat, |i: int| Identifier { id: i as usize }),
        next: f.variable_count as int,
        env: Seq::new(f.variable_count as nat, |i: int| None::<Value>),
        out: Seq::<SpecTypedStatement>::empty(),
        budget: limit as int,
    }
}

/// The outcome of unrolling one function.
pub open spec fn unroll_function(f: SpecFunction, p: int, function: usize, limit: usize) -> Result<
    SpecFunction,
    AnalysisError,
> {
    match unroll_from(f.statements, 0, start(f, limit), p, function) {
        Err(e) => Err(e),
        Ok(done) => Ok(
            SpecFunction { statements: done.out, variable_count: done.next as usize, ..f },
        ),
    }
}

/// The outcome of unrolling the functions from the `k`-th on, added to
/// those already `done`.
pub open spec fn unroll_functions(
    functions: Seq<SpecFunction>,
    k: int,
    done: Seq<SpecFunction>,
    p: int,
    limit: usize,
) -> Result<Seq<SpecFunction>, AnalysisError>
    decreases functions.len() - k,
{
    if k < 0 || k >= functions.len() {
        Ok(done)
    } else {
        match unroll_function(functions[k], p, k as usize, limit) {
            Err(e) => Err(e),
            Ok(f) => unroll_functions(functions, k + 1, done.push(f), p, limit),
        }
    }
}

/// The outcome of unrolling a program, with at most `limit` iterations
/// in each function.
pub open spec fn unrolled(program: SpecTypedProgram, limit: usize) -> Result<
    SpecTypedProgram,
    AnalysisError,
> {
    match unroll_functions(
        program.functions,
        0,
        Seq::<SpecFunction>::empty(),
        program.field.modulus as int,
        limit,
    ) {
        Err(e) => Err(e),
        Ok(functions) => Ok(SpecTypedProgram { functions, ..program }),
    }
}

} // verus!

verus! {

/// The variable that stands for a variable of the source.
fn current_name(names: &Vec<Identifier>, id: Identifier) -> (r: Identifier)
    ensures
        r == current(names@, id),
{
    if id.id < names.len() {
        names[id.id]
    } else {
        id
    }
}

/// The expression with every variable replaced by what stands for it.
fn rename_expression(e: &Expression, names: &Vec<Identifier>) -> (r: Expression)
    ensures
        r == rename(*e, names@),
    decreases *e,
{
    match e {
        Expression::Number(c) => Expression::Number(*c),
        Expression::Boolean(b) => Expression::Boolean(*b),
        Expression::Variable(id) => Expression::Variable(current_name(names, *id)),
        Expression::Flag(id) => Expression::Flag(current_name(names, *id)),
        Expression::Binary(op, a, b) => Expression::Binary(
            *op,
            Box::new(rename_expression(a, names)),
            Box::new(rename_expression(b, names)),
        ),
        Expression::Not(a) => Expression::Not(Box::new(rename_expression(a, names))),
        Expression::IfElse(c, a, b) => Expression::IfElse(
            Box::new(rename_expression(c, names)),
            Box::new(rename_expression(a, names)),
            Box::new(rename_expression(b, names)),
        ),
    }
}

/// The expressions, each renamed.
fn rename_expressions(es: &Vec<Expression>, names: &Vec<Identifier>) -> (r: Vec<Expression>)
    ensures
        r@ == rename_each(es@, names@),
{
    let mut out: Vec<Expression> = Vec::new();
    let mut k: usize = 0;
    while k < es.len()
        invariant
            k <= es.len(),
            out.len() == k,
            forall|j: int| 0 <= j < k ==> out@[j] == rename(es@[j], names@),
        decreases es.len() - k,
    {
        out.push(rename_expression(&es[k], names));
        k += 1;
    }
    assert(out@ =~= rename_each(es@, names@));
    out
}

/// The state of an unrolling.
struct State {
    names: Vec<Identifier>,
    next: usize,
    env: Vec<Option<Value>>,
    out: Vec<TypedStatement>,
    budget: usize,
}

impl View for State {
    type V = Unrolling;

    closed spec fn view(&self) -> Unrolling {
        Unrolling {
            names: self.names@,
            next: self.next as int,
            env: self.env@,
            out: typed_view(self.out@),
            budget: self.budget as int,
        }
    }
}

/// A known value is a reduced field element or a boolean.
spec fn known_within(known: Option<Value>, p: int) -> bool {
    known is Some && known.unwrap() is Field ==> known.unwrap()->Field_0 < p
}

impl State {
    /// Gives an assignment to `id` its variable.
    fn assign(&mut self, id: Identifier, known: Option<Value>, Ghost(p): Ghost<int>) -> (r:
        Identifier)
        requires
            old(self).next < usize::MAX,
            env_within(old(self).env@, p),
            known_within(known, p),
        ensures
            final(self)@ == assigned(id, known, old(self)@),
            r == target(id, old(self)@),
            env_within(final(self).env@, p),
    {
        if id.id < self.names.len() {
            let fresh = Identifier { id: self.next };
            self.names.set(id.id, fresh);
            self.env.push(known);
            self.next = self.next + 1;
            proof {
                let env = self.env@;
                assert forall|i: int|
                    0 <= i < env.len() && (#[trigger] env[i]) is Some && env[i].unwrap() is Field implies env[i].unwrap()->Field_0
                    < p by {
                    if i < old(self).env@.len() {
                        assert(env[i] == old(self).env@[i]);
                    }
                }
            }
            fresh
        } else {
            id
        }
    }

    fn emit(&mut self, s: TypedStatement)
        ensures
            final(self)@ == emitting(s@, old(self)@),
            final(self).env == old(self).env,
    {
        proof {
            lemma_typed_view_push(self.out@, s);
        }
        self.out.push(s);
    }
}

/// Gives each of the variables an assignment; see [`assign_all`].
fn assign_variables(st: &mut State, ids: &Vec<Identifier>, Ghost(p): Ghost<int>) -> (r: Result<
    Vec<Identifier>,
    AnalysisError,
>)
    requires
        env_within(old(st).env@, p),
    ensures
        env_within(final(st).env@, p),
        match r {
            Ok(defined) => assign_all(ids@, 0, Seq::<Identifier>::empty(), old(st)@) == Ok::<
                (Seq<Identifier>, Unrolling),
                AnalysisError,
            >((defined@, final(st)@)),
            Err(e) => assign_all(ids@, 0, Seq::<Identifier>::empty(), old(st)@) == Err::<
                (Seq<Identifier>, Unrolling),
                AnalysisError,
            >(e),
        },
{
    let mut defined: Vec<Identifier> = Vec::new();
    let mut k: usize = 0;
    while k < ids.len()
        invariant
            k <= ids.len(),
            env_within(st.env@, p),
            assign_all(ids@, k as int, defined@, st@) == assign_all(
                ids@,
                0,
                Seq::<Identifier>::empty(),
                old(st)@,
            ),
        decreases ids.len() - k,
    {
        if st.next == usize::MAX {
            return Err(AnalysisError::TooManyVariables);
        }
        let id = st.assign(ids[k], None, Ghost(p));
        defined.push(id);
        k += 1;
    }
    Ok(defined)
}

/// Unrolls a statement; see [`unroll_statement`].
fn unroll_one(st: &mut State, s: &TypedStatement, field: &Field, place: AnalysisError) -> (r: Result<
    (),
    AnalysisError,
>)
    requires
        field.wf(),
        env_within(old(st).env@, field.modulus as int),
    ensures
        env_within(final(st).env@, field.modulus as int),
        match r {
            Ok(_) => unroll_statement(s@, old(st)@, field.modulus as int, place) == Ok::<
                Unrolling,
                AnalysisError,
            >(final(st)@),
            Err(e) => unroll_statement(s@, old(st)@, field.modulus as int, place) == Err::<
                Unrolling,
                AnalysisError,
            >(e),
        },
    decreases *s, 0nat, 0nat,
{
    let ghost p = field.modulus as int;
    match s {
        TypedStatement::Definition(id, e) => {
            if st.next == usize::MAX {
                return Err(AnalysisError::TooManyVariables);
            }
            let renamed = rename_expression(e, &st.names);
            let known = renamed.evaluate(&st.env, field);
            let fresh = st.assign(*id, known, Ghost(p));
            st.emit(TypedStatement::Definition(fresh, renamed));
            Ok(())
        },
        TypedStatement::Condition(a, b) => {
            let ra = rename_expression(a, &st.names);
            let rb = rename_expression(b, &st.names);
            st.emit(TypedStatement::Condition(ra, rb));
            Ok(())
        },
        TypedStatement::Return(es) => {
            let renamed = rename_expressions(es, &st.names);
            st.emit(TypedStatement::Return(renamed));
            Ok(())
        },
        TypedStatement::Log(text) => {
            st.emit(TypedStatement::Log(text.clone()));
            Ok(())
        },
        TypedStatement::MultipleDefinition(ids, callee, args) => {
            let renamed = rename_expressions(args, &st.names);
            let defined = match assign_variables(st, ids, Ghost(p)) {
                Ok(defined) => defined,
                Err(e) => {
                    return Err(e);
                },
            };
            st.emit(TypedStatement::MultipleDefinition(defined, *callee, renamed));
            Ok(())
        },
        TypedStatement::For(id, from, to, body) => {
            let low = rename_expression(from, &st.names).evaluate(&st.env, field);
            let high = rename_expression(to, &st.names).evaluate(&st.env, field);
            match (low, high) {
                (Some(Value::Field(low)), Some(Value::Field(high))) => unroll_loop(
                    st,
                    *id,
                    body,
                    low,
                    high,
                    field,
                    place,
                ),
                _ => Err(place),
            }
        },
    }
}

/// Unrolls the iterations of a loop; see [`unroll_iterations`].
fn unroll_loop(
    st: &mut State,
    id: Identifier,
    body: &Vec<TypedStatement>,
    low: u64,
    high: u64,
    field: &Field,
    place: AnalysisError,
) -> (r: Result<(), AnalysisError>)
    requires
        field.wf(),
        high < field.modulus,
        env_within(old(st).env@, field.modulus as int),
    ensures
        env_within(final(st).env@, field.modulus as int),
        match r {
            Ok(_) => unroll_iterations(
                id,
                typed_view(body@),
                low as int,
                high as int,
                old(st)@,
                field.modulus as int,
                place,
            ) == Ok::<Unrolling, AnalysisError>(final(st)@),
            Err(e) => unroll_iterations(
                id,
                typed_view(body@),
                low as int,
                high as int,
                old(st)@,
                field.modulus as int,
                place,
            ) == Err::<Unrolling, AnalysisError>(e),
        },
    decreases body, 1nat, 0nat,
{
    let ghost p = field.modulus as int;
    let ghost bv = typed_view(body@);
    let mut v: u64 = low;
    while v < high
        invariant
            field.wf(),
            p == field.modulus as int,
            high < p,
            bv == typed_view(body@),
            env_within(st.env@, p),
            unroll_iterations(id, bv, v as int, high as int, st@, p, place) == unroll_iterations(
                id,
                bv,
                low as int,
                high as int,
                old(st)@,
                p,
                place,
            ),
        decreases high - v,
    {
        if st.budget == 0 {
            return Err(AnalysisError::TooManyIterations);
        }
        if st.next == usize::MAX {
            return Err(AnalysisError::TooManyVariables);
        }
        st.budget = st.budget - 1;
        let index = st.assign(id, Some(Value::Field(v)), Ghost(p));
        st.emit(TypedStatement::Definition(index, Expression::Number(v)));
        match unroll_body(st, body, field, place) {
            Ok(_) => {},
            Err(e) => {
                return Err(e);
            },
        }
        v += 1;
    }
    Ok(())
}

/// Unrolls the statements of a block; see [`unroll_block`].
fn unroll_body(st: &mut State, body: &Vec<TypedStatement>, field: &Field, place: AnalysisError) -> (r:
    Result<(), AnalysisError>)
    requires
        field.wf(),
        env_within(old(st).env@, field.modulus as int),
    ensures
        env_within(final(st).env@, field.modulus as int),
        match r {
            Ok(_) => unroll_block(typed_view(body@), 0, old(st)@, field.modulus as int, place)
                == Ok::<Unrolling, AnalysisError>(final(st)@),
            Err(e) => unroll_block(typed_view(body@), 0, old(st)@, field.modulus as int, place)
                == Err::<Unrolling, AnalysisError>(e),
        },
    decreases body, 0nat, 0nat,
{
    let ghost p = field.modulus as int;
    let ghost bv = typed_view(body@);
    proof {
        lemma_typed_view(body@);
    }
    let mut k: usize = 0;
    while k < body.len()
        invariant
            k <= body.len(),
            field.wf(),
            p == field.modulus as int,
            bv == typed_view(body@),
            bv.len() == body.len(),
            forall|j: int| 0 <= j < bv.len() ==> bv[j] == (#[trigger] body@[j])@,
            env_within(st.env@, p),
            unroll_block(bv, k as int, st@, p, place) == unroll_block(bv, 0, old(st)@, p, place),
        decreases body.len() - k,
    {
        assert(bv[k as int] == body@[k as int]@);
        match unroll_one(st, &body[k], field, place) {
            Ok(_) => {},
            Err(e) => {
                return Err(e);
            },
        }
        k += 1;
    }
    Ok(())
}

} // verus!

verus! {

/// None of the statements is a loop.
pub open spec fn loop_free(s: Seq<SpecTypedStatement>) -> bool {
    forall|k: int| 0 <= k < s.len() ==> !((#[trigger] s[k]) is For)
}

proof fn lemma_assign_all_out(ids: Seq<Identifier>, k: int, defined: Seq<Identifier>, st: Unrolling)
    requires
        assign_all(ids, k, defined, st) is Ok,
    ensures
        assign_all(ids, k, defined, st).unwrap().1.out == st.out,
    decreases ids.len() - k,
{
    if 0 <= k < ids.len() {
        lemma_assign_all_out(ids, k + 1, defined.push(target(ids[k], st)), assigned(ids[k], None, st));
    }
}

proof fn lemma_statement_loop_free(
    s: SpecTypedStatement,
    st: Unrolling,
    p: int,
    place: AnalysisError,
)
    requires
        loop_free(st.out),
        unroll_statement(s, st, p, place) is Ok,
    ensures
        loop_free(unroll_statement(s, st, p, place).unwrap().out),
    decreases s, 0int, 0int,
{
    match s {
        SpecTypedStatement::MultipleDefinition(ids, callee, args) => {
            lemma_assign_all_out(ids, 0, Seq::<Identifier>::empty(), st);
        },
        SpecTypedStatement::For(id, from, to, body) => {
            let low = evaluate(rename(from, st.names), st.env, p).unwrap()->Field_0;
            let high = evaluate(rename(to, st.names), st.env, p).unwrap()->Field_0;
            lemma_iterations_loop_free(id, body, low as int, high as int, st, p, place);
        },
        _ => {},
    }
}

proof fn lemma_iterations_loop_free(
    id: Identifier,
    body: Seq<SpecTypedStatement>,
    v: int,
    high: int,
    st: Unrolling,
    p: int,
    place: AnalysisError,
)
    requires
        loop_free(st.out),
        unroll_iterations(id, body, v, high, st, p, place) is Ok,
    ensures
        loop_free(unroll_iterations(id, body, v, high, st, p, place).unwrap().out),
    decreases body, 1int, high - v,
{
    if v < high {
        let spent = Unrolling { budget: st.budget - 1, ..st };
        let index = emitting(
            SpecTypedStatement::Definition(target(id, spent), Expression::Number(v as u64)),
            assigned(id, Some(Value::Field(v as u64)), spent),
        );
        lemma_block_loop_free(body, 0, index, p, place);
        let after = unroll_block(body, 0, index, p, place).unwrap();
        lemma_iterations_loop_free(id, body, v + 1, high, after, p, place);
    }
}

proof fn lemma_block_loop_free(
    body: Seq<SpecTypedStatement>,
    k: int,
    st: Unrolling,
    p: int,
    place: AnalysisError,
)
    requires
        loop_free(st.out),
        unroll_block(body, k, st, p, place) is Ok,
    ensures
        loop_free(unroll_block(body, k, st, p, place).unwrap().out),
    decreases body, 0int, body.len() - k,
{
    if 0 <= k < body.len() {
        lemma_statement_loop_free(body[k], st, p, place);
        lemma_block_loop_free(body, k + 1, unroll_statement(body[k], st, p, place).unwrap(), p, place);
    }
}

proof fn lemma_from_loop_free(
    s: Seq<SpecTypedStatement>,
    k: int,
    st: Unrolling,
    p: int,
    function: usize,
)
    requires
        loop_free(st.out),
        unroll_from(s, k, st, p, function) is Ok,
    ensures
        loop_free(unroll_from(s, k, st, p, function).unwrap().out),
    decreases s.len() - k,
{
    if 0 <= k < s.len() {
        let place = AnalysisError::UnrollableBound(function, k as usize);
        lemma_statement_loop_free(s[k], st, p, place);
        lemma_from_loop_free(s, k + 1, unroll_statement(s[k], st, p, place).unwrap(), p, function);
    }
}

proof fn lemma_functions_loop_free(
    functions: Seq<SpecFunction>,
    k: int,
    done: Seq<SpecFunction>,
    p: int,
    limit: usize,
)
    requires
        forall|j: int| 0 <= j < done.len() ==> loop_free((#[trigger] done[j]).statements),
        unroll_functions(functions, k, done, p, limit) is Ok,
    ensures
        forall|j: int|
            0 <= j < unroll_functions(functions, k, done, p, limit).unwrap().len() ==> loop_free(
                (#[trigger] unroll_functions(functions, k, done, p, limit).unwrap()[j]).statements,
            ),
    decreases functions.len() - k,
{
    if 0 <= k < functions.len() {
        let f = unroll_function(functions[k], p, k as usize, limit).unwrap();
        lemma_from_loop_free(functions[k].statements, 0, start(functions[k], limit), p, k as usize);
        let next = done.push(f);
        assert forall|j: int| 0 <= j < next.len() implies loop_free(
            (#[trigger] next[j]).statements,
        ) by {
            if j < done.len() {
                assert(next[j] == done[j]);
            }
        }
        lemma_functions_loop_free(functions, k + 1, next, p, limit);
    }
}

/// Unrolling leaves no loop: no statement of any function of an
/// unrolled program is a loop.
pub proof fn unrolling_leaves_no_loop(program: SpecTypedProgram, limit: usize)
    requires
        unrolled(program, limit) is Ok,
    ensures
        forall|j: int|
            0 <= j < unrolled(program, limit).unwrap().functions.len() ==> loop_free(
                (#[trigger] unrolled(program, limit).unwrap().functions[j]).statements,
            ),
{
    lemma_functions_loop_free(
        program.functions,
        0,
        Seq::<SpecFunction>::empty(),
        program.field.modulus as int,
        limit,
    );
}

/// Unrolls one function; see [`unroll_function`].
fn unroll_in(f: &TypedFunction, field: &Field, function: usize, limit: usize) -> (r: Result<
    TypedFunction,
    AnalysisError,
>)
    requires
        field.wf(),
    ensures
        match r {
            Ok(g) => unroll_function(f@, field.modulus as int, function, limit) == Ok::<
                SpecFunction,
                AnalysisError,
            >(g@),
            Err(e) => unroll_function(f@, field.modulus as int, function, limit) == Err::<
                SpecFunction,
                AnalysisError,
            >(e),
        },
{
    let ghost p = field.modulus as int;
    let ghost s = f@.statements;
    let mut names: Vec<Identifier> = Vec::new();
    let mut env: Vec<Option<Value>> = Vec::new();
    while names.len() < f.variable_count
        invariant
            names.len() <= f.variable_count,
            env.len() == names.len(),
            forall|i: int| 0 <= i < names.len() ==> (#[trigger] names@[i]).id == i,
            forall|i: int| 0 <= i < env.len() ==> (#[trigger] env@[i]) is None,
        decreases f.variable_count - names.len(),
    {
        names.push(Identifier { id: names.len() });
        env.push(None);
    }
    let mut st = State { names, next: f.variable_count, env, out: Vec::new(), budget: limit };
    proof {
        let begin = start(f@, limit);
        assert(st@.names =~= begin.names);
        assert(st@.env =~= begin.env);
        assert(st@ == begin);
        lemma_typed_view(f.statements@);
    }
    let mut k: usize = 0;
    while k < f.statements.len()
        invariant
            k <= f.statements.len(),
            field.wf(),
            p == field.modulus as int,
            s == typed_view(f.statements@),
            s == f@.statements,
            s.len() == f.statements.len(),
            forall|j: int| 0 <= j < s.len() ==> s[j] == (#[trigger] f.statements@[j])@,
            env_within(st.env@, p),
            unroll_from(s, k as int, st@, p, function) == unroll_from(
                s,
                0,
                start(f@, limit),
                p,
                function,
            ),
        decreases f.statements.len() - k,
    {
        assert(s[k as int] == f.statements@[k as int]@);
        match unroll_one(&mut st, &f.statements[k], field, AnalysisError::UnrollableBound(function, k)) {
            Ok(_) => {},
            Err(e) => {
                return Err(e);
            },
        }
        k += 1;
    }
    Ok(
        TypedFunction {
            parameters: clone_parameters(&f.parameters),
            statements: st.out,
            outputs: clone_kinds(&f.outputs),
            variable_count: st.next,
        },
    )
}

/// Replaces loops by their iterations.
#[derive(Clone, Copy, Debug)]
pub struct Unroller {
    /// How many iterations may be unrolled in one function.
    pub limit: usize,
}

impl Unroller {
    pub fn new(limit: usize) -> (r: Unroller)
        ensures
            r.limit == limit,
    {
        Unroller { limit }
    }

    /// Unrolls every loop of every function. Each assignment defines a
    /// variable of its own. A loop whose bounds are no constants is an
    /// error that names the function and the statement; so is a function
    /// that takes more iterations than the limit.
    pub fn unroll(&self, program: TypedProgram) -> (r: Result<TypedProgram, AnalysisError>)
        requires
            program.field.wf(),
        ensures
            match r {
                Ok(q) => unrolled(program@, self.limit) == Ok::<SpecTypedProgram, AnalysisError>(q@),
                Err(e) => unrolled(program@, self.limit) == Err::<SpecTypedProgram, AnalysisError>(
                    e,
                ),
            },
    {
        let ghost p = program.field.modulus as int;
        let ghost all = program@.functions;
        let mut functions: Vec<TypedFunction> = Vec::new();
        let mut k: usize = 0;
        assert(crate::typed_absy::functions_view(functions@) =~= Seq::<SpecFunction>::empty());
        while k < program.functions.len()
            invariant
                k <= program.functions.len(),
                program.field.wf(),
                p == program.field.modulus as int,
                all == program@.functions,
                unroll_functions(
                    all,
                    k as int,
                    crate::typed_absy::functions_view(functions@),
                    p,
                    self.limit,
                ) == unroll_functions(all, 0, Seq::<SpecFunction>::empty(), p, self.limit),
            decreases program.functions.len() - k,
        {
            assert(all[k as int] == program.functions@[k as int]@);
            let ghost before = functions@;
            match unroll_in(&program.functions[k], &program.field, k, self.limit) {
                Ok(g) => {
                    functions.push(g);
                    assert(crate::typed_absy::functions_view(functions@)
                        =~= crate::typed_absy::functions_view(before).push(g@));
                },
                Err(e) => {
                    return Err(e);
                },
            }
            k += 1;
        }
        Ok(TypedProgram { field: program.field, functions, main: program.main })
    }
}

} // verus!

verus! {

proof fn lemma_unroll_functions_len(
    functions: Seq<SpecFunction>,
    k: int,
    done: Seq<SpecFunction>,
    p: int,
    limit: usize,
)
    requires
        0 <= k <= functions.len(),
        done.len() == k,
        unroll_functions(functions, k, done, p, limit) is Ok,
    ensures
        unroll_functions(functions, k, done, p, limit).unwrap().len() == functions.len(),
    decreases functions.len() - k,
{
    if k < functions.len() {
        let f = unroll_function(functions[k], p, k as usize, limit).unwrap();
        lemma_unroll_functions_len(functions, k + 1, done.push(f), p, limit);
    }
}

/// Unrolling keeps the functions of a program in their places.
pub proof fn lemma_unrolled_wf(program: SpecTypedProgram, limit: usize)
    requires
        program.wf(),
        unrolled(program, limit) is Ok,
    ensures
        unrolled(program, limit).unwrap().wf(),
{
    lemma_unroll_functions_len(
        program.functions,
        0,
        Seq::<SpecFunction>::empty(),
        program.field.modulus as int,
        limit,
    );
}

} // verus!
