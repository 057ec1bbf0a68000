//! Calls are replaced by the body of the function that is called.
//!
//! The variables of the called function are renumbered behind those in
//! use, its parameters are defined as the arguments, and what it returns
//! defines the variables that the call assigns. A function that is
//! reached again while it is being inlined is recursive, and refused.
//! Of the program, the main function alone is left.

use crate::static_analysis::AnalysisError;
use crate::typed_absy::{
    clone_kinds, clone_parameters, lemma_typed_view, lemma_typed_view_push, typed_view, Expression,
    Identifier, Parameter, SpecFunction, SpecTypedProgram, SpecTypedStatement, TypedFunction,
    TypedProgram, TypedStatement,
};
use vstd::prelude::*;

verus! {

/// How far an inlining has come: the next free variable and the
/// statements emitted.
pub struct Inlining {
    pub next: int,
    pub out: Seq<SpecTypedStatement>,
}

/// The variable `offset` places further on.
pub open spec fn shift_id(id: Identifier, offset: int) -> Identifier {
    Identifier { id: (id.id + offset) as usize }
}

/// The expression with every variable moved `offset` places on.
pub open spec fn shift(e: Expression, offset: int) -> Expression
    decreases e,
{
    match e {
        Expression::Number(_) => e,
        Expression::Boolean(_) => e,
        Expression::Variable(id) => Expression::Variable(shift_id(id, offset)),
        Expression::Flag(id) => Expression::Flag(shift_id(id, offset)),
        Expression::Binary(op, a, b) => Expression::Binary(
            op,
            Box::new(shift(*a, offset)),
            Box::new(shift(*b, offset)),
        ),
        Expression::Not(a) => Expression::Not(Box::new(shift(*a, offset))),
        Expression::IfElse(c, a, b) => Expression::IfElse(
            Box::new(shift(*c, offset)),
            Box::new(shift(*a, offset)),
            Box::new(shift(*b, offset)),
        ),
    }
}

/// Every variable of the expression can be moved `offset` places on.
pub open spec fn fits(e: Expression, offset: int) -> bool
    decreases e,
{
    match e {
        Expression::Number(_) => true,
        Expression::Boolean(_) => true,
        Expression::Variable(id) => id.id + offset <= usize::MAX,
        Expression::Flag(id) => id.id + offset <= usize::MAX,
        Expression::Binary(_, a, b) => fits(*a, offset) && fits(*b, offset),
        Expression::Not(a) => fits(*a, offset),
        Expression::IfElse(c, a, b) => fits(*c, offset) && fits(*a, offset) && fits(*b, offset),
    }
}

/// Every variable of the expressions can be moved `offset` places on.
pub open spec fn all_fit(es: Seq<Expression>, offset: int) -> bool {
    forall|j: int| 0 <= j < es.len() ==> fits(#[trigger] es[j], offset)
}

/// Every variable of the statement can be moved `offset` places on.
/// Nothing is asked of a loop: it is refused anyway.
pub open spec fn statement_fits(s: SpecTypedStatement, offset: int) -> bool {
    match s {
        SpecTypedStatement::Definition(id, e) => id.id + offset <= usize::MAX && fits(e, offset),
        SpecTypedStatement::Condition(a, b) => fits(a, offset) && fits(b, offset),
        SpecTypedStatement::Return(es) => all_fit(es, offset),
        SpecTypedStatement::MultipleDefinition(ids, _, args) => (forall|j: int|
            0 <= j < ids.len() ==> (#[trigger] ids[j]).id + offset <= usize::MAX) && all_fit(
            args,
            offset,
        ),
        _ => true,
    }
}

/// Every variable of the function can be moved `offset` places on.
pub open spec fn function_fits(f: SpecFunction, offset: int) -> bool {
    &&& forall|j: int|
        0 <= j < f.parameters.len() ==> (#[trigger] f.parameters[j]).id.id + offset <= usize::MAX
    &&& forall|k: int| 0 <= k < f.statements.len() ==> statement_fits(#[trigger] f.statements[k], offset)
}

/// The expressions, each moved `offset` places on.
pub open spec fn shift_each(es: Seq<Expression>, offset: int) -> Seq<Expression> {
    Seq::new(es.len(), |k: int| shift(es[k], offset))
}

/// The variables, each moved `offset` places on.
pub open spec fn shift_ids(ids: Seq<Identifier>, offset: int) -> Seq<Identifier> {
    Seq::new(ids.len(), |k: int| shift_id(ids[k], offset))
}

/// The definitions of the variables as the expressions, one by one.
pub open spec fn define_each(ids: Seq<Identifier>, es: Seq<Expression>) -> Seq<SpecTypedStatement> {
    Seq::new(ids.len(), |k: int| SpecTypedStatement::Definition(ids[k], es[k]))
}

/// The parameters of a function as variables `offset` places on.
pub open spec fn parameter_ids(parameters: Seq<Parameter>, offset: int) -> Seq<Identifier> {
    Seq::new(parameters.len(), |k: int| shift_id(parameters[k].id, offset))
}

/// Why the call cannot be inlined, if it cannot.
pub open spec fn call_fault(
    functions: Seq<SpecFunction>,
    callee: usize,
    assigned: int,
    arguments: int,
    fuel: nat,
    stack: Seq<usize>,
    next: int,
) -> Option<AnalysisError> {
    if callee >= functions.len() {
        Some(AnalysisError::InvalidCall(callee))
    } else if stack.contains(callee) || fuel == 0 {
        Some(AnalysisError::Recursion(callee))
    } else if arguments != functions[callee as int].parameters.len() || assigned
        != functions[callee as int].outputs.len() {
        Some(AnalysisError::InvalidCall(callee))
    } else if next + functions[callee as int].variable_count > usize::MAX || !function_fits(
        functions[callee as int],
        next,
    ) {
        Some(AnalysisError::TooManyVariables)
    } else {
        None
    }
}

/// The statements of a function from the `k`-th on, inlined. The
/// function is `this`, its variables are moved `offset` places on, and
/// what it returns defines `targets`; the main function has no targets
/// and keeps its return. The statements after a return are dropped.
pub open spec fn inline_block(
    functions: Seq<SpecFunction>,
    body: Seq<SpecTypedStatement>,
    k: int,
    offset: int,
    targets: Option<Seq<Identifier>>,
    this: usize,
    fuel: nat,
    stack: Seq<usize>,
    st: Inlining,
) -> Result<Inlining, AnalysisError>
    decreases fuel, body.len() - k,
{
    if k < 0 || k >= body.len() {
        match targets {
            Some(_) => Err(AnalysisError::MissingReturn(this)),
            None => Ok(st),
        }
    } else {
        match body[k] {
            SpecTypedStatement::Definition(id, e) => inline_block(
                functions,
                body,
                k + 1,
                offset,
                targets,
                this,
                fuel,
                stack,
                Inlining {
                    out: st.out.push(
                        SpecTypedStatement::Definition(shift_id(id, offset), shift(e, offset)),
                    ),
                    ..st
                },
            ),
            SpecTypedStatement::Condition(a, b) => inline_block(
                functions,
                body,
                k + 1,
                offset,
                targets,
                this,
                fuel,
                stack,
                Inlining {
                    out: st.out.push(
                        SpecTypedStatement::Condition(shift(a, offset), shift(b, offset)),
                    ),
                    ..st
                },
            ),
            SpecTypedStatement::Log(text) => inline_block(
                functions,
                body,
                k + 1,
                offset,
                targets,
                this,
                fuel,
                stack,
                Inlining { out: st.out.push(body[k]), ..st },
            ),
            SpecTypedStatement::Return(es) => match targets {
                None => Ok(
                    Inlining {
                        out: st.out.push(SpecTypedStatement::Return(shift_each(es, offset))),
                        ..st
                    },
                ),
                Some(ids) => if ids.len() != es.len() {
                    Err(AnalysisError::InvalidCall(this))
                } else {
                    Ok(Inlining { out: st.out + define_each(ids, shift_each(es, offset)), ..st })
                },
            },
            SpecTypedStatement::For(_, _, _, _) => Err(
                AnalysisError::UnexpectedStatement(k as usize),
            ),
            SpecTypedStatement::MultipleDefinition(ids, callee, args) => match call_fault(
                functions,
                callee,
                ids.len() as int,
                args.len() as int,
                fuel,
                stack,
                st.next,
            ) {
                Some(e) => Err(e),
                None => {
                    let g = functions[callee as int];
                    let entered = Inlining {
                        next: st.next + g.variable_count,
                        out: st.out + define_each(
                            parameter_ids(g.parameters, st.next),
                            shift_each(args, offset),
                        ),
                    };
                    match inline_block(
                        functions,
                        g.statements,
                        0,
                        st.next,
                        Some(shift_ids(ids, offset)),
                        callee,
                        (fuel - 1) as nat,
                        stack.push(callee),
                        entered,
                    ) {
                        Err(e) => Err(e),
                        Ok(after) => inline_block(
                            functions,
                            body,
                            k + 1,
                            offset,
                            targets,
                            this,
                            fuel,
                            stack,
                            after,
                        ),
                    }
                },
            },
        }
    }
}

/// The outcome of inlining: the main function with every call replaced,
/// as the only function of the program.
pub open spec fn inlined(program: SpecTypedProgram) -> Result<SpecTypedProgram, AnalysisError> {
    let main = program.main_function();
    match inline_block(
        program.functions,
        main.statements,
        0,
        0,
        None,
        program.main,
        program.functions.len(),
        seq![program.main],
        Inlining { next: main.variable_count as int, out: Seq::<SpecTypedStatement>::empty() },
    ) {
        Err(e) => Err(e),
        Ok(done) => Ok(
            SpecTypedProgram {
                field: program.field,
                functions: seq![
                    SpecFunction { statements: done.out, variable_count: done.next as usize, ..main },
                ],
                main: 0,
            },
        ),
    }
}

/// None of the statements is a call or a loop.
pub open spec fn call_free(s: Seq<SpecTypedStatement>) -> bool {
    forall|k: int| 0 <= k < s.len() ==> crate::typed_absy::straight(#[trigger] s[k])
}

proof fn lemma_call_free_append(a: Seq<SpecTypedStatement>, b: Seq<SpecTypedStatement>)
    requires
        call_free(a),
        call_free(b),
    ensures
        call_free(a + b),
{
    assert forall|k: int| 0 <= k < (a + b).len() implies crate::typed_absy::straight(
        #[trigger] (a + b)[k],
    ) by {
        if k < a.len() {
            assert((a + b)[k] == a[k]);
        } else {
            assert((a + b)[k] == b[k - a.len()]);
        }
    }
}

proof fn lemma_call_free_push(a: Seq<SpecTypedStatement>, s: SpecTypedStatement)
    requires
        call_free(a),
        crate::typed_absy::straight(s),
    ensures
        call_free(a.push(s)),
{
    assert forall|k: int| 0 <= k < a.push(s).len() implies crate::typed_absy::straight(
        #[trigger] a.push(s)[k],
    ) by {
        if k < a.len() {
            assert(a.push(s)[k] == a[k]);
        }
    }
}

proof fn lemma_inline_call_free(
    functions: Seq<SpecFunction>,
    body: Seq<SpecTypedStatement>,
    k: int,
    offset: int,
    targets: Option<Seq<Identifier>>,
    this: usize,
    fuel: nat,
    stack: Seq<usize>,
    st: Inlining,
)
    requires
        call_free(st.out),
        inline_block(functions, body, k, offset, targets, this, fuel, stack, st) is Ok,
    ensures
        call_free(
            inline_block(functions, body, k, offset, targets, this, fuel, stack, st).unwrap().out,
        ),
    decreases fuel, body.len() - k,
{
    if 0 <= k < body.len() {
        match body[k] {
            SpecTypedStatement::Definition(id, e) => {
                let s = SpecTypedStatement::Definition(shift_id(id, offset), shift(e, offset));
                lemma_call_free_push(st.out, s);
                lemma_inline_call_free(
                    functions,
                    body,
                    k + 1,
                    offset,
                    targets,
                    this,
                    fuel,
                    stack,
                    Inlining { out: st.out.push(s), ..st },
                );
            },
            SpecTypedStatement::Condition(a, b) => {
                let s = SpecTypedStatement::Condition(shift(a, offset), shift(b, offset));
                lemma_call_free_push(st.out, s);
                lemma_inline_call_free(
                    functions,
                    body,
                    k + 1,
                    offset,
                    targets,
                    this,
                    fuel,
                    stack,
                    Inlining { out: st.out.push(s), ..st },
                );
            },
            SpecTypedStatement::Log(text) => {
                lemma_call_free_push(st.out, body[k]);
                lemma_inline_call_free(
                    functions,
                    body,
                    k + 1,
                    offset,
                    targets,
                    this,
                    fuel,
                    stack,
                    Inlining { out: st.out.push(body[k]), ..st },
                );
            },
            SpecTypedStatement::Return(es) => {
                match targets {
                    None => {
                        lemma_call_free_push(
                            st.out,
                            SpecTypedStatement::Return(shift_each(es, offset)),
                        );
                    },
                    Some(ids) => {
                        lemma_call_free_append(st.out, define_each(ids, shift_each(es, offset)));
                    },
                }
            },
            SpecTypedStatement::For(_, _, _, _) => {},
            SpecTypedStatement::MultipleDefinition(ids, callee, args) => {
                let g = functions[callee as int];
                let entered = Inlining {
                    next: st.next + g.variable_count,
                    out: st.out + define_each(
                        parameter_ids(g.parameters, st.next),
                        shift_each(args, offset),
                    ),
                };
                lemma_call_free_append(
                    st.out,
                    define_each(parameter_ids(g.parameters, st.next), shift_each(args, offset)),
                );
                lemma_inline_call_free(
                    functions,
                    g.statements,
                    0,
                    st.next,
                    Some(shift_ids(ids, offset)),
                    callee,
                    (fuel - 1) as nat,
                    stack.push(callee),
                    entered,
                );
                let after = inline_block(
                    functions,
                    g.statements,
                    0,
                    st.next,
                    Some(shift_ids(ids, offset)),
                    callee,
                    (fuel - 1) as nat,
                    stack.push(callee),
                    entered,
                ).unwrap();
                lemma_inline_call_free(
                    functions,
                    body,
                    k + 1,
                    offset,
                    targets,
                    this,
                    fuel,
                    stack,
                    after,
                );
            },
        }
    }
}

/// Inlining leaves one function without calls: an inlined program has
/// its main function alone, and none of its statements is a call or a
/// loop.
pub proof fn inlining_leaves_no_call(program: SpecTypedProgram)
    requires
        inlined(program) is Ok,
    ensures
        inlined(program).unwrap().functions.len() == 1,
        inlined(program).unwrap().main == 0,
        call_free(inlined(program).unwrap().main_function().statements),
        inlined(program).unwrap().main_function().parameters == program.main_function().parameters,
{
    let main = program.main_function();
    lemma_inline_call_free(
        program.functions,
        main.statements,
        0,
        0,
        None,
        program.main,
        program.functions.len(),
        seq![program.main],
        Inlining { next: main.variable_count as int, out: Seq::<SpecTypedStatement>::empty() },
    );
}

} // verus!

verus! {

/// Whether every variable of the expression can be moved `offset`
/// places on.
fn expression_fits(e: &Expression, offset: usize) -> (r: bool)
    ensures
        r == fits(*e, offset as int),
    decreases *e,
{
    match e {
        Expression::Number(_) => true,
        Expression::Boolean(_) => true,
        Expression::Variable(id) => id.id <= usize::MAX - offset,
        Expression::Flag(id) => id.id <= usize::MAX - offset,
        Expression::Binary(_, a, b) => expression_fits(a, offset) && expression_fits(b, offset),
        Expression::Not(a) => expression_fits(a, offset),
        Expression::IfElse(c, a, b) => expression_fits(c, offset) && expression_fits(a, offset)
            && expression_fits(b, offset),
    }
}

fn expressions_fit(es: &Vec<Expression>, offset: usize) -> (r: bool)
    ensures
        r == all_fit(es@, offset as int),
{
    let mut k: usize = 0;
    while k < es.len()
        invariant
            k <= es.len(),
            forall|j: int| 0 <= j < k ==> fits(#[trigger] es@[j], offset as int),
        decreases es.len() - k,
    {
        if !expression_fits(&es[k], offset) {
            return false;
        }
        k += 1;
    }
    true
}

fn identifiers_fit(ids: &Vec<Identifier>, offset: usize) -> (r: bool)
    ensures
        r == forall|j: int| 0 <= j < ids@.len() ==> (#[trigger] ids@[j]).id + offset <= usize::MAX,
{
    let mut k: usize = 0;
    while k < ids.len()
        invariant
            k <= ids.len(),
            forall|j: int| 0 <= j < k ==> (#[trigger] ids@[j]).id + offset <= usize::MAX,
        decreases ids.len() - k,
    {
        if ids[k].id > usize::MAX - offset {
            return false;
        }
        k += 1;
    }
    true
}

fn statement_fits_in(s: &TypedStatement, offset: usize) -> (r: bool)
    ensures
        r == statement_fits(s@, offset as int),
{
    match s {
        TypedStatement::Definition(id, e) => {
            let first = id.id <= usize::MAX - offset;
            let second = expression_fits(e, offset);
            first && second
        },
        TypedStatement::Condition(a, b) => {
            let first = expression_fits(a, offset);
            let second = expression_fits(b, offset);
            first && second
        },
        TypedStatement::Return(es) => expressions_fit(es, offset),
        TypedStatement::MultipleDefinition(ids, _, args) => {
            let first = identifiers_fit(ids, offset);
            let second = expressions_fit(args, offset);
            assert(s@->MultipleDefinition_0 == ids@);
            assert(s@->MultipleDefinition_2 == args@);
            first && second
        },
        TypedStatement::For(_, _, _, _) => true,
        TypedStatement::Log(_) => true,
    }
}

fn function_fits_in(f: &TypedFunction, offset: usize) -> (r: bool)
    ensures
        r == function_fits(f@, offset as int),
{
    let mut j: usize = 0;
    while j < f.parameters.len()
        invariant
            j <= f.parameters.len(),
            forall|i: int|
                0 <= i < j ==> (#[trigger] f.parameters@[i]).id.id + offset <= usize::MAX,
        decreases f.parameters.len() - j,
    {
        if f.parameters[j].id.id > usize::MAX - offset {
            return false;
        }
        j += 1;
    }
    proof {
        lemma_typed_view(f.statements@);
    }
    let mut k: usize = 0;
    while k < f.statements.len()
        invariant
            k <= f.statements.len(),
            f@.statements.len() == f.statements.len(),
            forall|i: int| 0 <= i < f.statements.len() ==> f@.statements[i] == (
            #[trigger] f.statements@[i])@,
            forall|i: int|
                0 <= i < f.parameters@.len() ==> (#[trigger] f.parameters@[i]).id.id + offset
                    <= usize::MAX,
            forall|i: int| 0 <= i < k ==> statement_fits(#[trigger] f@.statements[i], offset as int),
        decreases f.statements.len() - k,
    {
        if !statement_fits_in(&f.statements[k], offset) {
            assert(!statement_fits(f@.statements[k as int], offset as int));
            return false;
        }
        k += 1;
    }
    true
}

/// The expression with every variable moved `offset` places on.
fn shift_expression(e: &Expression, offset: usize) -> (r: Expression)
    requires
        fits(*e, offset as int),
    ensures
        r == shift(*e, offset as int),
    decreases *e,
{
    match e {
        Expression::Number(c) => Expression::Number(*c),
        Expression::Boolean(b) => Expression::Boolean(*b),
        Expression::Variable(id) => Expression::Variable(Identifier { id: id.id + offset }),
        Expression::Flag(id) => Expression::Flag(Identifier { id: id.id + offset }),
        Expression::Binary(op, a, b) => Expression::Binary(
            *op,
            Box::new(shift_expression(a, offset)),
            Box::new(shift_expression(b, offset)),
        ),
        Expression::Not(a) => Expression::Not(Box::new(shift_expression(a, offset))),
        Expression::IfElse(c, a, b) => Expression::IfElse(
            Box::new(shift_expression(c, offset)),
            Box::new(shift_expression(a, offset)),
            Box::new(shift_expression(b, offset)),
        ),
    }
}

fn shift_expressions(es: &Vec<Expression>, offset: usize) -> (r: Vec<Expression>)
    requires
        all_fit(es@, offset as int),
    ensures
        r@ == shift_each(es@, offset as int),
{
    let mut out: Vec<Expression> = Vec::new();
    let mut k: usize = 0;
    while k < es.len()
        invariant
            k <= es.len(),
            out.len() == k,
            all_fit(es@, offset as int),
            forall|j: int| 0 <= j < k ==> out@[j] == shift(es@[j], offset as int),
        decreases es.len() - k,
    {
        out.push(shift_expression(&es[k], offset));
        k += 1;
    }
    assert(out@ =~= shift_each(es@, offset as int));
    out
}

fn shift_identifiers(ids: &Vec<Identifier>, offset: usize) -> (r: Vec<Identifier>)
    requires
        forall|j: int| 0 <= j < ids@.len() ==> (#[trigger] ids@[j]).id + offset <= usize::MAX,
    ensures
        r@ == shift_ids(ids@, offset as int),
{
    let mut out: Vec<Identifier> = Vec::new();
    let mut k: usize = 0;
    while k < ids.len()
        invariant
            k <= ids.len(),
            out.len() == k,
            forall|j: int| 0 <= j < ids@.len() ==> (#[trigger] ids@[j]).id + offset <= usize::MAX,
            forall|j: int| 0 <= j < k ==> out@[j] == shift_id(ids@[j], offset as int),
        decreases ids.len() - k,
    {
        out.push(Identifier { id: ids[k].id + offset });
        k += 1;
    }
    assert(out@ =~= shift_ids(ids@, offset as int));
    out
}

fn parameter_identifiers(parameters: &Vec<Parameter>, offset: usize) -> (r: Vec<Identifier>)
    requires
        forall|j: int|
            0 <= j < parameters@.len() ==> (#[trigger] parameters@[j]).id.id + offset <= usize::MAX,
    ensures
        r@ == parameter_ids(parameters@, offset as int),
{
    let mut out: Vec<Identifier> = Vec::new();
    let mut k: usize = 0;
    while k < parameters.len()
        invariant
            k <= parameters.len(),
            out.len() == k,
            forall|j: int|
                0 <= j < parameters@.len() ==> (#[trigger] parameters@[j]).id.id + offset
                    <= usize::MAX,
            forall|j: int| 0 <= j < k ==> out@[j] == shift_id(parameters@[j].id, offset as int),
        decreases parameters.len() - k,
    {
        out.push(Identifier { id: parameters[k].id.id + offset });
        k += 1;
    }
    assert(out@ =~= parameter_ids(parameters@, offset as int));
    out
}

fn in_stack(stack: &Vec<usize>, x: usize) -> (r: bool)
    ensures
        r == stack@.contains(x),
{
    let mut k: usize = 0;
    while k < stack.len()
        invariant
            k <= stack.len(),
            forall|j: int| 0 <= j < k ==> stack@[j] != x,
        decreases stack.len() - k,
    {
        if stack[k] == x {
            return true;
        }
        k += 1;
    }
    false
}

fn with_callee(stack: &Vec<usize>, callee: usize) -> (r: Vec<usize>)
    ensures
        r@ == stack@.push(callee),
{
    let mut out: Vec<usize> = Vec::new();
    let mut k: usize = 0;
    while k < stack.len()
        invariant
            k <= stack.len(),
            out@ == stack@.take(k as int),
        decreases stack.len() - k,
    {
        out.push(stack[k]);
        assert(stack@.take(k + 1) == stack@.take(k as int).push(stack@[k as int]));
        k += 1;
    }
    assert(stack@.take(k as int) == stack@);
    out.push(callee);
    out
}

/// The state of an inlining.
struct State {
    next: usize,
    out: Vec<TypedStatement>,
}

impl View for State {
    type V = Inlining;

    closed spec fn view(&self) -> Inlining {
        Inlining { next: self.next as int, out: typed_view(self.out@) }
    }
}

impl State {
    fn emit(&mut self, s: TypedStatement)
        ensures
            final(self)@ == (Inlining { out: old(self)@.out.push(s@), ..old(self)@ }),
    {
        proof {
            lemma_typed_view_push(self.out@, s);
        }
        self.out.push(s);
    }

    /// Emits the definitions of the variables as the expressions.
    fn emit_definitions(&mut self, ids: &Vec<Identifier>, es: Vec<Expression>)
        requires
            ids@.len() == es@.len(),
        ensures
            final(self)@ == (Inlining {
                out: old(self)@.out + define_each(ids@, es@),
                ..old(self)@
            }),
    {
        let ghost all = define_each(ids@, es@);
        let ghost before = self@.out;
        let mut k: usize = 0;
        assert(before + all.take(0) == before);
        while k < ids.len()
            invariant
                k <= ids.len(),
                ids@.len() == es@.len(),
                all == define_each(ids@, es@),
                self.next == old(self).next,
                self@.out == before + all.take(k as int),
            decreases ids.len() - k,
        {
            let ghost so_far = self@.out;
            self.emit(TypedStatement::Definition(ids[k], es[k].clone()));
            proof {
                assert(all.take(k + 1) == all.take(k as int).push(all[k as int]));
                assert((before + all.take(k as int)).push(all[k as int]) == before + all.take(
                    k + 1,
                ));
            }
            k += 1;
        }
        assert(all.take(k as int) == all);
    }
}

/// The targets of an inlining, by their view.
pub open spec fn targets_view(targets: Option<&Vec<Identifier>>) -> Option<Seq<Identifier>> {
    match targets {
        Some(v) => Some(v@),
        None => None,
    }
}

/// Inlines the statements of a function; see [`inline_block`].
fn inline_into(
    st: &mut State,
    functions: &Vec<TypedFunction>,
    body: &Vec<TypedStatement>,
    offset: usize,
    targets: Option<&Vec<Identifier>>,
    this: usize,
    fuel: usize,
    stack: &Vec<usize>,
) -> (r: Result<(), AnalysisError>)
    requires
        forall|k: int|
            0 <= k < typed_view(body@).len() ==> statement_fits(
                #[trigger] typed_view(body@)[k],
                offset as int,
            ),
        targets is Some ==> forall|j: int|
            0 <= j < targets.unwrap()@.len() ==> (#[trigger] targets.unwrap()@[j]).id
                <= usize::MAX,
    ensures
        match r {
            Ok(_) => inline_block(
                crate::typed_absy::functions_view(functions@),
                typed_view(body@),
                0,
                offset as int,
                targets_view(targets),
                this,
                fuel as nat,
                stack@,
                old(st)@,
            ) == Ok::<Inlining, AnalysisError>(final(st)@),
            Err(e) => inline_block(
                crate::typed_absy::functions_view(functions@),
                typed_view(body@),
                0,
                offset as int,
                targets_view(targets),
                this,
                fuel as nat,
                stack@,
                old(st)@,
            ) == Err::<Inlining, AnalysisError>(e),
        },
    decreases fuel,
{
    let ghost fv = crate::typed_absy::functions_view(functions@);
    let ghost bv = typed_view(body@);
    let ghost tv = targets_view(targets);
    let ghost begin = st@;
    proof {
        lemma_typed_view(body@);
    }
    let mut k: usize = 0;
    while k < body.len()
        invariant
            k <= body.len(),
            fv == crate::typed_absy::functions_view(functions@),
            bv == typed_view(body@),
            tv == targets_view(targets),
            bv.len() == body.len(),
            forall|j: int| 0 <= j < bv.len() ==> bv[j] == (#[trigger] body@[j])@,
            forall|j: int| 0 <= j < bv.len() ==> statement_fits(#[trigger] bv[j], offset as int),
            begin == old(st)@,
            inline_block(fv, bv, k as int, offset as int, tv, this, fuel as nat, stack@, st@)
                == inline_block(fv, bv, 0, offset as int, tv, this, fuel as nat, stack@, begin),
        decreases body.len() - k,
    {
        proof {
            assert(bv[k as int] == body@[k as int]@);
            assert(statement_fits(bv[k as int], offset as int));
        }
        match &body[k] {
            TypedStatement::Definition(id, e) => {
                st.emit(
                    TypedStatement::Definition(
                        Identifier { id: id.id + offset },
                        shift_expression(e, offset),
                    ),
                );
            },
            TypedStatement::Condition(a, b) => {
                st.emit(
                    TypedStatement::Condition(shift_expression(a, offset), shift_expression(b, offset)),
                );
            },
            TypedStatement::Log(text) => {
                st.emit(TypedStatement::Log(text.clone()));
            },
            TypedStatement::Return(es) => {
                match targets {
                    None => {
                        st.emit(TypedStatement::Return(shift_expressions(es, offset)));
                    },
                    Some(ids) => {
                        if ids.len() != es.len() {
                            return Err(AnalysisError::InvalidCall(this));
                        }
                        st.emit_definitions(ids, shift_expressions(es, offset));
                    },
                }
                return Ok(());
            },
            TypedStatement::For(_, _, _, _) => {
                return Err(AnalysisError::UnexpectedStatement(k));
            },
            TypedStatement::MultipleDefinition(ids, callee, args) => {
                let callee = *callee;
                if callee >= functions.len() {
                    return Err(AnalysisError::InvalidCall(callee));
                }
                if in_stack(stack, callee) || fuel == 0 {
                    return Err(AnalysisError::Recursion(callee));
                }
                let g = &functions[callee];
                assert(fv[callee as int] == g@);
                if args.len() != g.parameters.len() || ids.len() != g.outputs.len() {
                    return Err(AnalysisError::InvalidCall(callee));
                }
                if g.variable_count > usize::MAX - st.next || !function_fits_in(g, st.next) {
                    return Err(AnalysisError::TooManyVariables);
                }
                let base = st.next;
                let parameters = parameter_identifiers(&g.parameters, base);
                st.emit_definitions(&parameters, shift_expressions(args, offset));
                st.next = st.next + g.variable_count;
                let assigned = shift_identifiers(ids, offset);
                let deeper = with_callee(stack, callee);
                match inline_into(
                    st,
                    functions,
                    &g.statements,
                    base,
                    Some(&assigned),
                    callee,
                    fuel - 1,
                    &deeper,
                ) {
                    Ok(_) => {},
                    Err(e) => {
                        return Err(e);
                    },
                }
            },
        }
        k += 1;
    }
    match targets {
        Some(_) => Err(AnalysisError::MissingReturn(this)),
        None => Ok(()),
    }
}

/// Replaces calls by the bodies of the functions that are called.
#[derive(Clone, Copy, Debug)]
pub struct Inliner {}

impl Inliner {
    /// Inlines every call that the main function makes, and every call
    /// made from there. The result has the main function alone, without
    /// a call; see [`inlining_leaves_no_call`]. A function that calls
    /// itself, directly or through others, is an error, as is a call
    /// that does not fit the function it names, and a loop.
    pub fn inline(program: TypedProgram) -> (r: Result<TypedProgram, AnalysisError>)
        requires
            program@.wf(),
        ensures
            match r {
                Ok(q) => inlined(program@) == Ok::<SpecTypedProgram, AnalysisError>(q@) && q@.wf(),
                Err(e) => inlined(program@) == Err::<SpecTypedProgram, AnalysisError>(e),
            },
    {
        let main = program.main_function();
        let mut st = State { next: main.variable_count, out: Vec::new() };
        let mut stack: Vec<usize> = Vec::new();
        stack.push(program.main);
        proof {
            assert(stack@ =~= seq![program.main]);
            assert(typed_view(st.out@) =~= Seq::<SpecTypedStatement>::empty());
            assert forall|k: int| 0 <= k < typed_view(main.statements@).len() implies statement_fits(
                #[trigger] typed_view(main.statements@)[k],
                0,
            ) by {
                lemma_statement_fits_in_place(typed_view(main.statements@)[k]);
            }
        }
        match inline_into(
            &mut st,
            &program.functions,
            &main.statements,
            0,
            None,
            program.main,
            program.functions.len(),
            &stack,
        ) {
            Ok(_) => {},
            Err(e) => {
                return Err(e);
            },
        }
        let only = TypedFunction {
            parameters: clone_parameters(&main.parameters),
            statements: st.out,
            outputs: clone_kinds(&main.outputs),
            variable_count: st.next,
        };
        let mut functions: Vec<TypedFunction> = Vec::new();
        functions.push(only);
        let q = TypedProgram { field: program.field, functions, main: 0 };
        assert(q@.functions =~= inlined(program@).unwrap().functions);
        Ok(q)
    }
}

/// Every expression stays where it is when it is moved by nothing.
proof fn lemma_fits_in_place(e: Expression)
    ensures
        fits(e, 0),
    decreases e,
{
    match e {
        Expression::Binary(_, a, b) => {
            lemma_fits_in_place(*a);
            lemma_fits_in_place(*b);
        },
        Expression::Not(a) => {
            lemma_fits_in_place(*a);
        },
        Expression::IfElse(c, a, b) => {
            lemma_fits_in_place(*c);
            lemma_fits_in_place(*a);
            lemma_fits_in_place(*b);
        },
        _ => {},
    }
}

proof fn lemma_statement_fits_in_place(s: SpecTypedStatement)
    ensures
        statement_fits(s, 0),
{
    match s {
        SpecTypedStatement::Definition(id, e) => {
            lemma_fits_in_place(e);
        },
        SpecTypedStatement::Condition(a, b) => {
            lemma_fits_in_place(a);
            lemma_fits_in_place(b);
        },
        SpecTypedStatement::Return(es) => {
            assert forall|j: int| 0 <= j < es.len() implies fits(#[trigger] es[j], 0) by {
                lemma_fits_in_place(es[j]);
            }
        },
        SpecTypedStatement::MultipleDefinition(ids, _, args) => {
            assert forall|j: int| 0 <= j < args.len() implies fits(#[trigger] args[j], 0) by {
                lemma_fits_in_place(args[j]);
            }
        },
        _ => {},
    }
}

} // verus!
