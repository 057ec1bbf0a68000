//! Every return is made to return variables only.
//!
//! `return e1, e2` becomes `r1 = e1`, `r2 = e2`, `return r1, r2` with
//! fresh variables, so that later passes meet one form of return.

use crate::static_analysis::AnalysisError;
use crate::typed_absy::{
    clone_kinds, clone_parameters, lemma_typed_view, lemma_typed_view_push, typed_view, Expression,
    Identifier, Kind, SpecFunction, SpecTypedProgram, SpecTypedStatement, TypedFunction,
    TypedProgram, TypedStatement,
};
use vstd::prelude::*;

verus! {

/// The variable that holds the `j`-th returned value: a flag where the
/// function returns a boolean there, a field variable elsewhere.
pub open spec fn returned_variable(kinds: Seq<Kind>, j: int, id: int) -> Expression {
    if 0 <= j < kinds.len() && kinds[j] == Kind::Boolean {
        Expression::Flag(Identifier { id: id as usize })
    } else {
        Expression::Variable(Identifier { id: id as usize })
    }
}

/// The definitions of the variables `next`, `next + 1`, ... as the
/// expressions.
pub open spec fn definitions(es: Seq<Expression>, next: int) -> Seq<SpecTypedStatement> {
    Seq::new(
        es.len(),
        |j: int| SpecTypedStatement::Definition(Identifier { id: (next + j) as usize }, es[j]),
    )
}

/// The variables `next`, `next + 1`, ... as expressions.
pub open spec fn variables(count: int, next: int, kinds: Seq<Kind>) -> Seq<Expression> {
    Seq::new(count as nat, |j: int| returned_variable(kinds, j, next + j))
}

/// What a return becomes: the definitions, then the return of the
/// variables they define.
pub open spec fn bound_return(es: Seq<Expression>, next: int, kinds: Seq<Kind>) -> Seq<
    SpecTypedStatement,
> {
    definitions(es, next).push(SpecTypedStatement::Return(variables(es.len() as int, next, kinds)))
}

/// The statements with every return among them bound, numbering fresh
/// variables from `next`.
pub open spec fn bind_statements(s: Seq<SpecTypedStatement>, next: int, kinds: Seq<Kind>) -> Seq<
    SpecTypedStatement,
>
    decreases s.len(),
{
    if s.len() == 0 {
        Seq::<SpecTypedStatement>::empty()
    } else {
        match s[0] {
            SpecTypedStatement::Return(es) => bound_return(es, next, kinds) + bind_statements(
                s.drop_first(),
                next + es.len(),
                kinds,
            ),
            other => seq![other] + bind_statements(s.drop_first(), next, kinds),
        }
    }
}

/// How many values the returns among the statements return in all.
pub open spec fn returned_count(s: Seq<SpecTypedStatement>) -> int
    decreases s.len(),
{
    if s.len() == 0 {
        0
    } else {
        (match s[0] {
            SpecTypedStatement::Return(es) => es.len() as int,
            _ => 0,
        }) + returned_count(s.drop_first())
    }
}

/// The function with its returns bound.
pub open spec fn bind_function(f: SpecFunction) -> SpecFunction {
    SpecFunction {
        statements: bind_statements(f.statements, f.variable_count as int, f.outputs),
        variable_count: (f.variable_count + returned_count(f.statements)) as usize,
        ..f
    }
}

/// The function has room for the variables that binding takes.
pub open spec fn has_room(f: SpecFunction) -> bool {
    f.variable_count + returned_count(f.statements) <= usize::MAX
}

/// The outcome of binding the returns of every function. Binding fails
/// only where a function has no room for the fresh variables.
pub open spec fn bound(program: SpecTypedProgram) -> Result<SpecTypedProgram, AnalysisError> {
    if forall|k: int| 0 <= k < program.functions.len() ==> has_room(#[trigger] program.functions[k]) {
        Ok(
            SpecTypedProgram {
                functions: Seq::new(
                    program.functions.len(),
                    |k: int| bind_function(program.functions[k]),
                ),
                ..program
            },
        )
    } else {
        Err(AnalysisError::TooManyVariables)
    }
}

/// The expression is a variable.
pub open spec fn is_variable(e: Expression) -> bool {
    e is Variable || e is Flag
}

/// Every return among the statements returns variables only.
pub open spec fn returns_bound(s: Seq<SpecTypedStatement>) -> bool {
    forall|k: int, j: int|
        0 <= k < s.len() && (#[trigger] s[k]) is Return && 0 <= j < s[k]->Return_0.len()
            ==> is_variable(#[trigger] s[k]->Return_0[j])
}

/// After binding, every return returns variables only.
pub proof fn lemma_bind_statements(s: Seq<SpecTypedStatement>, next: int, kinds: Seq<Kind>)
    ensures
        returns_bound(bind_statements(s, next, kinds)),
    decreases s.len(),
{
    if s.len() > 0 {
        let out = bind_statements(s, next, kinds);
        match s[0] {
            SpecTypedStatement::Return(es) => {
                let head = bound_return(es, next, kinds);
                let tail = bind_statements(s.drop_first(), next + es.len(), kinds);
                lemma_bind_statements(s.drop_first(), next + es.len(), kinds);
                assert forall|k: int, j: int|
                    0 <= k < out.len() && (#[trigger] out[k]) is Return && 0 <= j
                        < out[k]->Return_0.len() implies is_variable(
                    #[trigger] out[k]->Return_0[j],
                ) by {
                    if k < head.len() {
                        assert(out[k] == head[k]);
                    } else {
                        assert(out[k] == tail[k - head.len()]);
                    }
                }
            },
            other => {
                let tail = bind_statements(s.drop_first(), next, kinds);
                lemma_bind_statements(s.drop_first(), next, kinds);
                assert forall|k: int, j: int|
                    0 <= k < out.len() && (#[trigger] out[k]) is Return && 0 <= j
                        < out[k]->Return_0.len() implies is_variable(
                    #[trigger] out[k]->Return_0[j],
                ) by {
                    if k > 0 {
                        assert(out[k] == tail[k - 1]);
                    }
                }
            },
        }
    }
}

/// Binding is canonical: in a bound program, every return of every
/// function returns variables only.
pub proof fn binding_is_canonical(program: SpecTypedProgram)
    requires
        bound(program) is Ok,
    ensures
        forall|k: int|
            0 <= k < bound(program).unwrap().functions.len() ==> returns_bound(
                (#[trigger] bound(program).unwrap().functions[k]).statements,
            ),
{
    let q = bound(program).unwrap();
    assert forall|k: int| 0 <= k < q.functions.len() implies returns_bound(
        (#[trigger] q.functions[k]).statements,
    ) by {
        let f = program.functions[k];
        lemma_bind_statements(f.statements, f.variable_count as int, f.outputs);
    }
}

} // verus!

verus! {

proof fn lemma_returned_count_nonnegative(s: Seq<SpecTypedStatement>)
    ensures
        returned_count(s) >= 0,
    decreases s.len(),
{
    if s.len() > 0 {
        lemma_returned_count_nonnegative(s.drop_first());
    }
}

/// Binds the returns of function; see [`bind_function`].
fn bind_returns(f: &TypedFunction) -> (r: Option<TypedFunction>)
    ensures
        match r {
            Some(g) => has_room(f@) && g@ == bind_function(f@),
            None => !has_room(f@),
        },
{
    let ghost s = f@.statements;
    let ghost kinds = f.outputs@;
    let ghost first = f.variable_count as int;
    let mut next: usize = f.variable_count;
    let mut out: Vec<TypedStatement> = Vec::new();
    let mut k: usize = 0;
    proof {
        lemma_typed_view(f.statements@);
        assert(s.skip(0) == s);
        assert(typed_view(out@) + bind_statements(s, first, kinds) == bind_statements(
            s,
            first,
            kinds,
        ));
    }
    while k < f.statements.len()
        invariant
            k <= f.statements.len(),
            s == typed_view(f.statements@),
            s == f@.statements,
            s.len() == f.statements.len(),
            forall|j: int| 0 <= j < s.len() ==> s[j] == (#[trigger] f.statements@[j])@,
            kinds == f.outputs@,
            first == f.variable_count,
            next + returned_count(s.skip(k as int)) == first + returned_count(s),
            typed_view(out@) + bind_statements(s.skip(k as int), next as int, kinds)
                == bind_statements(s, first, kinds),
        decreases f.statements.len() - k,
    {
        let ghost rest = s.skip(k as int);
        let ghost before = out@;
        proof {
            assert(rest[0] == s[k as int]);
            assert(rest.drop_first() == s.skip(k + 1));
            assert(s[k as int] == f.statements@[k as int]@);
            lemma_returned_count_nonnegative(s.skip(k + 1));
        }
        match &f.statements[k] {
            TypedStatement::Return(es) => {
                if es.len() > usize::MAX - next {
                    return None;
                }
                let ghost tail = bind_statements(s.skip(k + 1), next + es.len(), kinds);
                let mut variables_out: Vec<Expression> = Vec::new();
                let mut j: usize = 0;
                while j < es.len()
                    invariant
                        j <= es.len(),
                        next + es.len() <= usize::MAX,
                        kinds == f.outputs@,
                        variables_out.len() == j,
                        forall|i: int|
                            0 <= i < j ==> variables_out@[i] == returned_variable(
                                kinds,
                                i,
                                next + i,
                            ),
                        typed_view(out@) == typed_view(before) + definitions(es@, next as int).take(
                            j as int,
                        ),
                    decreases es.len() - j,
                {
                    let ghost so_far = out@;
                    let id = Identifier { id: next + j };
                    let definition = TypedStatement::Definition(id, es[j].clone());
                    out.push(definition);
                    let boolean = j < f.outputs.len() && match f.outputs[j] {
                        Kind::Boolean => true,
                        Kind::Field => false,
                    };
                    variables_out.push(
                        if boolean {
                            Expression::Flag(id)
                        } else {
                            Expression::Variable(id)
                        },
                    );
                    proof {
                        lemma_typed_view_push(so_far, definition);
                        let d = definitions(es@, next as int);
                        assert(d.take(j + 1) == d.take(j as int).push(d[j as int]));
                        assert((typed_view(before) + d.take(j as int)).push(d[j as int])
                            == typed_view(before) + d.take(j + 1));
                    }
                    j += 1;
                }
                let ghost so_far = out@;
                let bound_statement = TypedStatement::Return(variables_out);
                out.push(bound_statement);
                proof {
                    lemma_typed_view_push(so_far, bound_statement);
                    let d = definitions(es@, next as int);
                    assert(d.take(j as int) == d);
                    assert(variables_out@ =~= variables(es@.len() as int, next as int, kinds));
                    assert(typed_view(out@) == typed_view(before) + bound_return(
                        es@,
                        next as int,
                        kinds,
                    ));
                    assert(typed_view(out@) + tail == typed_view(before) + (bound_return(
                        es@,
                        next as int,
                        kinds,
                    ) + tail));
                }
                next = next + es.len();
            },
            other => {
                let copy = other.clone();
                out.push(copy);
                proof {
                    let tail = bind_statements(s.skip(k + 1), next as int, kinds);
                    lemma_typed_view_push(before, copy);
                    assert(typed_view(out@) + tail == typed_view(before) + (seq![copy@] + tail));
                }
            },
        }
        k += 1;
    }
    proof {
        assert(s.skip(k as int) == Seq::<SpecTypedStatement>::empty());
        assert(typed_view(out@) + Seq::<SpecTypedStatement>::empty() == typed_view(out@));
    }
    Some(
        TypedFunction {
            parameters: clone_parameters(&f.parameters),
            statements: out,
            outputs: clone_kinds(&f.outputs),
            variable_count: next,
        },
    )
}

/// Makes every return a return of variables.
#[derive(Clone, Copy, Debug)]
pub struct ReturnBinder {}

impl ReturnBinder {
    /// Binds the returns of every function of the program. In the
    /// result, every return returns variables only; see
    /// [`binding_is_canonical`].
    pub fn bind(program: TypedProgram) -> (r: Result<TypedProgram, AnalysisError>)
        ensures
            match r {
                Ok(q) => bound(program@) == Ok::<SpecTypedProgram, AnalysisError>(q@),
                Err(e) => bound(program@) == Err::<SpecTypedProgram, AnalysisError>(e),
            },
    {
        let mut functions: Vec<TypedFunction> = Vec::new();
        let mut k: usize = 0;
        while k < program.functions.len()
            invariant
                k <= program.functions.len(),
                functions.len() == k,
                forall|j: int| 0 <= j < k ==> has_room(#[trigger] program@.functions[j]),
                forall|j: int|
                    0 <= j < k ==> (#[trigger] functions@[j])@ == bind_function(
                        program@.functions[j],
                    ),
            decreases program.functions.len() - k,
        {
            assert(program@.functions[k as int] == program.functions@[k as int]@);
            match bind_returns(&program.functions[k]) {
                Some(g) => {
                    functions.push(g);
                },
                None => {
                    return Err(AnalysisError::TooManyVariables);
                },
            }
            k += 1;
        }
        let q = TypedProgram { field: program.field, functions, main: program.main };
        assert(q@.functions =~= bound(program@).unwrap().functions);
        Ok(q)
    }
}

} // verus!
