//! What the flattener emits is well formed: every combination is
//! canonical, and every variable is one that the program has.

use crate::flatten::{
    booleans, boolean_constraint, choice, combine, decomposition, flat, flat_variable, flattened,
    lemma_bits_sum_wf, lemma_single_wf, lower_parameters, lower_return, lower_statement,
    lower_statements, nonzero, product, quotient, shifted_difference, start, Lowering,
};
use crate::ir::lincomb::{
    complement, constant_terms, constant_value, difference, is_constant,
    lemma_arithmetic_vars_below, lemma_merge_canonical, lemma_scaled_canonical, merge, negated,
    scaled, single, Term,
};
use crate::ir::statement::{linear_wf, statement_wf, SpecStatement};
use crate::static_analysis::flat_propagation::{lemma_constant_wf, statements_wf, substitution_wf};
use crate::typed_absy::{
    lemma_two_to_grows, lemma_width, two_to, width, Expression, Kind, Operator, Parameter,
    SpecTypedProgram, SpecTypedStatement,
};
use vstd::arithmetic::div_mod::lemma_mod_bound;
use vstd::prelude::*;

verus! {

/// Sums, multiples, differences and complements of well-formed
/// combinations are well formed.
proof fn lemma_arithmetic_wf(a: Seq<Term>, b: Seq<Term>, c: int, p: int, n: int)
    requires
        2 <= p <= u64::MAX,
        n > 0,
        linear_wf(a, p, n),
        linear_wf(b, p, n),
    ensures
        linear_wf(merge(a, b, p), p, n),
        linear_wf(scaled(a, c, p), p, n),
        linear_wf(difference(a, b, p), p, n),
        linear_wf(complement(a, p), p, n),
{
    lemma_arithmetic_vars_below(a, b, c, p, n);
    lemma_merge_canonical(a, b, p, 0);
    lemma_scaled_canonical(a, c, p, 0);
    lemma_scaled_canonical(b, p - 1, p, 0);
    lemma_merge_canonical(a, negated(b, p), p, 0);
    lemma_constant_wf(1, p, n);
    lemma_scaled_canonical(a, p - 1, p, 0);
    lemma_merge_canonical(constant_terms(1), negated(a, p), p, 0);
}

/// What is well formed over the variables below `n` is so below any
/// larger bound.
pub proof fn lemma_linear_room(t: Seq<Term>, p: int, n: int, m: int)
    requires
        n <= m,
        linear_wf(t, p, n),
    ensures
        linear_wf(t, p, m),
{
    assert forall|i: int| 0 <= i < t.len() implies (#[trigger] t[i]).var.id < m by {
        assert(t[i].var.id < n);
    }
}

/// Statements that are well formed over the variables below `n` are so
/// below any larger bound.
proof fn lemma_statements_room(s: Seq<SpecStatement>, p: int, n: int, m: int)
    requires
        n <= m,
        statements_wf(s, p, n),
    ensures
        statements_wf(s, p, m),
{
    crate::flatten::lemma_room(Seq::<Option<Seq<Term>>>::empty(), s, p, n, m);
}

/// A layout that is well formed over the variables below `n` is so
/// below any larger bound.
pub proof fn lemma_layout_room(layout: Seq<Option<Seq<Term>>>, p: int, n: int, m: int)
    requires
        n <= m,
        substitution_wf(layout, p, n),
    ensures
        substitution_wf(layout, p, m),
{
    crate::flatten::lemma_room(layout, Seq::<SpecStatement>::empty(), p, n, m);
}

/// Well-formed statements, one list after the other, are well formed.
proof fn lemma_statements_append(a: Seq<SpecStatement>, b: Seq<SpecStatement>, p: int, n: int)
    requires
        statements_wf(a, p, n),
        statements_wf(b, p, n),
    ensures
        statements_wf(a + b, p, n),
{
    assert forall|i: int| 0 <= i < (a + b).len() implies statement_wf(#[trigger] (a + b)[i], p, n) by {
        if i < a.len() {
            assert((a + b)[i] == a[i]);
        } else {
            assert((a + b)[i] == b[i - a.len()]);
        }
    }
}

/// The statements of a product are well formed.
proof fn lemma_product_wf(a: Seq<Term>, b: Seq<Term>, v: int, p: int)
    requires
        2 <= p <= u64::MAX,
        1 <= v < usize::MAX,
        linear_wf(a, p, v),
        linear_wf(b, p, v),
    ensures
        statements_wf(product(a, b, v), p, v + 1),
        linear_wf(single(v), p, v + 1),
{
    lemma_single_wf(v, p, v + 1);
    lemma_linear_room(a, p, v, v + 1);
    lemma_linear_room(b, p, v, v + 1);
}

/// The statements of a quotient are well formed.
proof fn lemma_quotient_wf(a: Seq<Term>, b: Seq<Term>, v: int, p: int)
    requires
        2 <= p <= u64::MAX,
        1 <= v < usize::MAX,
        linear_wf(a, p, v),
        linear_wf(b, p, v),
    ensures
        statements_wf(quotient(a, b, v), p, v + 1),
        linear_wf(single(v), p, v + 1),
{
    lemma_single_wf(v, p, v + 1);
    lemma_linear_room(a, p, v, v + 1);
    lemma_linear_room(b, p, v, v + 1);
}

/// The statements of a test for zero are well formed.
proof fn lemma_nonzero_wf(d: Seq<Term>, v: int, p: int)
    requires
        2 <= p <= u64::MAX,
        1 <= v,
        v + 1 < usize::MAX,
        linear_wf(d, p, v),
    ensures
        statements_wf(nonzero(d, v, p), p, v + 2),
        linear_wf(complement(single(v), p), p, v + 2),
{
    lemma_single_wf(v, p, v + 2);
    lemma_single_wf(v + 1, p, v + 2);
    lemma_linear_room(d, p, v, v + 2);
    lemma_arithmetic_wf(single(v), single(v), 0, p, v + 2);
    assert(linear_wf(Seq::<Term>::empty(), p, v + 2));
}

/// The statements of a decomposition into bits are well formed.
proof fn lemma_decomposition_wf(t: Seq<Term>, first: int, count: int, p: int, n: int)
    requires
        2 <= p <= u64::MAX,
        1 <= first,
        0 <= count,
        first + count <= n <= usize::MAX,
        two_to(count) <= p,
        linear_wf(t, p, n),
    ensures
        statements_wf(decomposition(t, first, count, p), p, n),
{
    let all = decomposition(t, first, count, p);
    let bits = booleans(first, count, p);
    lemma_bits_sum_wf(first, count, p, n);
    lemma_constant_wf(1, p, n);
    assert(linear_wf(Seq::<Term>::empty(), p, n));
    assert forall|i: int| 0 <= i < all.len() implies statement_wf(#[trigger] all[i], p, n) by {
        if i == 0 {
        } else if i <= count {
            assert(all[i] == bits[i - 1]);
            let v = first + i - 1;
            lemma_single_wf(v, p, n);
            lemma_arithmetic_wf(single(v), single(v), 0, p, n);
        } else {
        }
    }
}

/// What an operator lowers to is well formed.
pub proof fn lemma_combine_wf(op: Operator, a: Seq<Term>, b: Seq<Term>, next: int, p: int)
    requires
        2 <= p <= u64::MAX,
        1 <= next <= usize::MAX,
        linear_wf(a, p, next),
        linear_wf(b, p, next),
        combine(op, a, b, next, p) is Ok,
    ensures
        next <= combine(op, a, b, next, p).unwrap().next <= usize::MAX,
        linear_wf(
            combine(op, a, b, next, p).unwrap().result,
            p,
            combine(op, a, b, next, p).unwrap().next,
        ),
        statements_wf(
            combine(op, a, b, next, p).unwrap().statements,
            p,
            combine(op, a, b, next, p).unwrap().next,
        ),
{
    reveal(combine);
    let f = combine(op, a, b, next, p).unwrap();
    match op {
        Operator::Add => {
            lemma_arithmetic_wf(a, b, 0, p, next);
        },
        Operator::Sub => {
            lemma_arithmetic_wf(a, b, 0, p, next);
        },
        Operator::Mult => {
            if is_constant(a) {
                lemma_arithmetic_wf(b, a, constant_value(a), p, next);
            } else if is_constant(b) {
                lemma_arithmetic_wf(a, b, constant_value(b), p, next);
            } else {
                lemma_product_wf(a, b, next, p);
            }
        },
        Operator::Div => {
            lemma_quotient_wf(a, b, next, p);
        },
        Operator::Eq => {
            lemma_arithmetic_wf(a, b, 0, p, next);
            lemma_nonzero_wf(difference(a, b, p), next, p);
        },
        Operator::Lt => {
            let n = width(p);
            let last = next + 3 * n + 1;
            lemma_width(p);
            lemma_two_to_grows(n, n + 1);
            lemma_linear_room(a, p, next, last);
            lemma_linear_room(b, p, next, last);
            lemma_arithmetic_wf(a, b, 0, p, last);
            lemma_constant_wf(two_to(n), p, last);
            lemma_arithmetic_wf(difference(a, b, p), constant_terms(two_to(n)), 0, p, last);
            lemma_decomposition_wf(a, next, n, p, last);
            lemma_decomposition_wf(b, next + n, n, p, last);
            lemma_decomposition_wf(shifted_difference(a, b, n, p), next + 2 * n, n + 1, p, last);
            lemma_statements_append(
                decomposition(a, next, n, p),
                decomposition(b, next + n, n, p),
                p,
                last,
            );
            lemma_statements_append(
                decomposition(a, next, n, p) + decomposition(b, next + n, n, p),
                decomposition(shifted_difference(a, b, n, p), next + 2 * n, n + 1, p),
                p,
                last,
            );
            lemma_single_wf(next + 3 * n, p, last);
            lemma_arithmetic_wf(single(next + 3 * n), single(next + 3 * n), 0, p, last);
        },
        Operator::And => {
            lemma_product_wf(a, b, next, p);
        },
        Operator::Or => {
            lemma_product_wf(a, b, next, p);
            lemma_linear_room(a, p, next, next + 1);
            lemma_linear_room(b, p, next, next + 1);
            lemma_arithmetic_wf(a, b, 0, p, next + 1);
            lemma_arithmetic_wf(merge(a, b, p), single(next), 0, p, next + 1);
        },
    }
}

/// What a choice lowers to is well formed.
pub proof fn lemma_choice_wf(c: Seq<Term>, a: Seq<Term>, b: Seq<Term>, next: int, p: int)
    requires
        2 <= p <= u64::MAX,
        1 <= next <= usize::MAX,
        linear_wf(c, p, next),
        linear_wf(a, p, next),
        linear_wf(b, p, next),
        choice(c, a, b, next, p) is Ok,
    ensures
        next <= choice(c, a, b, next, p).unwrap().next <= usize::MAX,
        linear_wf(
            choice(c, a, b, next, p).unwrap().result,
            p,
            choice(c, a, b, next, p).unwrap().next,
        ),
        statements_wf(
            choice(c, a, b, next, p).unwrap().statements,
            p,
            choice(c, a, b, next, p).unwrap().next,
        ),
{
    lemma_product_wf(c, a, next, p);
    lemma_arithmetic_wf(c, c, 0, p, next);
    lemma_linear_room(complement(c, p), p, next, next + 1);
    lemma_linear_room(b, p, next, next + 1);
    lemma_product_wf(complement(c, p), b, next + 1, p);
    lemma_statements_room(product(c, a, next), p, next + 1, next + 2);
    lemma_statements_append(
        product(c, a, next),
        product(complement(c, p), b, next + 1),
        p,
        next + 2,
    );
    lemma_single_wf(next, p, next + 2);
    lemma_arithmetic_wf(single(next), single(next + 1), 0, p, next + 2);
}

/// What an expression lowers to is well formed.
pub proof fn lemma_flat_wf(e: Expression, layout: Seq<Option<Seq<Term>>>, next: int, p: int)
    requires
        2 <= p <= u64::MAX,
        1 <= next <= usize::MAX,
        substitution_wf(layout, p, next),
        flat(e, layout, next, p) is Ok,
    ensures
        next <= flat(e, layout, next, p).unwrap().next <= usize::MAX,
        linear_wf(flat(e, layout, next, p).unwrap().result, p, flat(e, layout, next, p).unwrap().next),
        statements_wf(
            flat(e, layout, next, p).unwrap().statements,
            p,
            flat(e, layout, next, p).unwrap().next,
        ),
    decreases e,
{
    match e {
        Expression::Number(c) => {
            lemma_mod_bound(c as int, p);
            lemma_constant_wf(c as int % p, p, next);
        },
        Expression::Boolean(b) => {
            lemma_constant_wf(1, p, next);
            lemma_constant_wf(0, p, next);
        },
        Expression::Variable(id) => {
            assert(layout[id.id as int] is Some);
        },
        Expression::Flag(id) => {
            assert(layout[id.id as int] is Some);
        },
        Expression::Binary(op, a, b) => {
            let fa = flat(*a, layout, next, p).unwrap();
            lemma_flat_wf(*a, layout, next, p);
            lemma_layout_room(layout, p, next, fa.next);
            let fb = flat(*b, layout, fa.next, p).unwrap();
            lemma_flat_wf(*b, layout, fa.next, p);
            lemma_linear_room(fa.result, p, fa.next, fb.next);
            let f = combine(op, fa.result, fb.result, fb.next, p).unwrap();
            lemma_combine_wf(op, fa.result, fb.result, fb.next, p);
            lemma_statements_room(fa.statements, p, fa.next, f.next);
            lemma_statements_room(fb.statements, p, fb.next, f.next);
            lemma_statements_append(fa.statements, fb.statements, p, f.next);
            lemma_statements_append(fa.statements + fb.statements, f.statements, p, f.next);
        },
        Expression::Not(a) => {
            let fa = flat(*a, layout, next, p).unwrap();
            lemma_flat_wf(*a, layout, next, p);
            lemma_arithmetic_wf(fa.result, fa.result, 0, p, fa.next);
        },
        Expression::IfElse(c, a, b) => {
            let fc = flat(*c, layout, next, p).unwrap();
            lemma_flat_wf(*c, layout, next, p);
            lemma_layout_room(layout, p, next, fc.next);
            let fa = flat(*a, layout, fc.next, p).unwrap();
            lemma_flat_wf(*a, layout, fc.next, p);
            lemma_layout_room(layout, p, fc.next, fa.next);
            let fb = flat(*b, layout, fa.next, p).unwrap();
            lemma_flat_wf(*b, layout, fa.next, p);
            lemma_linear_room(fc.result, p, fc.next, fb.next);
            lemma_linear_room(fa.result, p, fa.next, fb.next);
            let f = choice(fc.result, fa.result, fb.result, fb.next, p).unwrap();
            lemma_choice_wf(fc.result, fa.result, fb.result, fb.next, p);
            lemma_statements_room(fc.statements, p, fc.next, f.next);
            lemma_statements_room(fa.statements, p, fa.next, f.next);
            lemma_statements_room(fb.statements, p, fb.next, f.next);
            lemma_statements_append(fc.statements, fa.statements, p, f.next);
            lemma_statements_append(fc.statements + fa.statements, fb.statements, p, f.next);
            lemma_statements_append(
                fc.statements + fa.statements + fb.statements,
                f.statements,
                p,
                f.next,
            );
        },
    }
}

} // verus!

verus! {

/// The state of a lowering is well formed: its layout, the statements
/// emitted and the outputs know the variables handed out alone.
pub open spec fn lowering_wf(st: Lowering, p: int) -> bool {
    &&& 1 <= st.next <= usize::MAX
    &&& substitution_wf(st.layout, p, st.next)
    &&& statements_wf(st.statements, p, st.next)
    &&& forall|i: int| 0 <= i < st.outputs.len() ==> (#[trigger] st.outputs[i]).id < st.next
}

/// The statements emitted, then those of an expression, then the
/// definition of a fresh variable as its result, are well formed.
pub proof fn lemma_defined_wf(st: Lowering, e: Expression, p: int)
    requires
        2 <= p <= u64::MAX,
        lowering_wf(st, p),
        flat(e, st.layout, st.next, p) is Ok,
        flat(e, st.layout, st.next, p).unwrap().next < usize::MAX,
    ensures
        st.next <= flat(e, st.layout, st.next, p).unwrap().next,
        statements_wf(
            st.statements + flat(e, st.layout, st.next, p).unwrap().statements + seq![
                SpecStatement::Definition(
                    flat_variable(flat(e, st.layout, st.next, p).unwrap().next),
                    flat(e, st.layout, st.next, p).unwrap().result,
                ),
            ],
            p,
            flat(e, st.layout, st.next, p).unwrap().next + 1,
        ),
        substitution_wf(st.layout, p, flat(e, st.layout, st.next, p).unwrap().next + 1),
        linear_wf(
            single(flat(e, st.layout, st.next, p).unwrap().next),
            p,
            flat(e, st.layout, st.next, p).unwrap().next + 1,
        ),
{
    let f = flat(e, st.layout, st.next, p).unwrap();
    let n = f.next + 1;
    lemma_flat_wf(e, st.layout, st.next, p);
    lemma_statements_room(st.statements, p, st.next, n);
    lemma_statements_room(f.statements, p, f.next, n);
    lemma_linear_room(f.result, p, f.next, n);
    lemma_layout_room(st.layout, p, st.next, n);
    lemma_single_wf(f.next, p, n);
    let last = seq![SpecStatement::Definition(flat_variable(f.next), f.result)];
    assert(statements_wf(last, p, n));
    lemma_statements_append(st.statements, f.statements, p, n);
    lemma_statements_append(st.statements + f.statements, last, p, n);
}

/// Lowering a return leaves a well-formed state.
pub proof fn lemma_lower_return_wf(es: Seq<Expression>, st: Lowering, p: int)
    requires
        2 <= p <= u64::MAX,
        lowering_wf(st, p),
        lower_return(es, st, p) is Ok,
    ensures
        lowering_wf(lower_return(es, st, p).unwrap(), p),
        st.next <= lower_return(es, st, p).unwrap().next,
    decreases es.len(),
{
    if es.len() > 0 {
        let f = flat(es[0], st.layout, st.next, p).unwrap();
        let next = Lowering {
            layout: st.layout,
            next: f.next + 1,
            statements: st.statements + f.statements + seq![
                SpecStatement::Definition(flat_variable(f.next), f.result),
            ],
            outputs: st.outputs.push(flat_variable(f.next)),
        };
        lemma_defined_wf(st, es[0], p);
        assert forall|i: int| 0 <= i < next.outputs.len() implies (#[trigger] next.outputs[i]).id
            < next.next by {
            if i < st.outputs.len() {
                assert(next.outputs[i] == st.outputs[i]);
            }
        }
        lemma_lower_return_wf(es.drop_first(), next, p);
    }
}

/// Lowering a statement leaves a well-formed state.
pub proof fn lemma_lower_statement_wf(s: SpecTypedStatement, st: Lowering, p: int)
    requires
        2 <= p <= u64::MAX,
        lowering_wf(st, p),
        lower_statement(s, st, p) is Ok,
    ensures
        lowering_wf(lower_statement(s, st, p).unwrap(), p),
        st.next <= lower_statement(s, st, p).unwrap().next,
{
    let done = lower_statement(s, st, p).unwrap();
    match s {
        SpecTypedStatement::Return(es) => {
            lemma_lower_return_wf(es, st, p);
        },
        SpecTypedStatement::Definition(id, e) => {
            let f = flat(e, st.layout, st.next, p).unwrap();
            lemma_defined_wf(st, e, p);
            assert forall|i: int| 0 <= i < done.layout.len() && (#[trigger] done.layout[i])
                is Some implies linear_wf(done.layout[i].unwrap(), p, done.next) by {
                if i != id.id {
                    assert(done.layout[i] == st.layout[i]);
                }
            }
        },
        SpecTypedStatement::Condition(a, b) => {
            let fa = flat(a, st.layout, st.next, p).unwrap();
            lemma_flat_wf(a, st.layout, st.next, p);
            lemma_layout_room(st.layout, p, st.next, fa.next);
            let fb = flat(b, st.layout, fa.next, p).unwrap();
            lemma_flat_wf(b, st.layout, fa.next, p);
            let n = fb.next;
            lemma_layout_room(st.layout, p, fa.next, n);
            lemma_linear_room(fa.result, p, fa.next, n);
            lemma_constant_wf(1, p, n);
            lemma_statements_room(st.statements, p, st.next, n);
            lemma_statements_room(fa.statements, p, fa.next, n);
            let last = seq![SpecStatement::Constraint(fa.result, constant_terms(1), fb.result)];
            assert(statements_wf(last, p, n));
            lemma_statements_append(st.statements, fa.statements, p, n);
            lemma_statements_append(st.statements + fa.statements, fb.statements, p, n);
            lemma_statements_append(st.statements + fa.statements + fb.statements, last, p, n);
        },
        _ => {},
    }
}

/// Lowering statements leaves a well-formed state.
pub proof fn lemma_lower_statements_wf(s: Seq<SpecTypedStatement>, st: Lowering, p: int)
    requires
        2 <= p <= u64::MAX,
        lowering_wf(st, p),
        lower_statements(s, st, p) is Ok,
    ensures
        lowering_wf(lower_statements(s, st, p).unwrap(), p),
        st.next <= lower_statements(s, st, p).unwrap().next,
    decreases s.len(),
{
    if s.len() > 0 {
        lemma_lower_statement_wf(s[0], st, p);
        if !(s[0] is Return) {
            lemma_lower_statements_wf(s.drop_first(), lower_statement(s[0], st, p).unwrap(), p);
        }
    }
}

/// Lowering the parameters leaves a well-formed state, with one
/// variable more for each parameter.
pub proof fn lemma_lower_parameters_wf(parameters: Seq<Parameter>, k: int, st: Lowering, p: int)
    requires
        2 <= p <= u64::MAX,
        0 <= k <= parameters.len(),
        lowering_wf(st, p),
        lower_parameters(parameters, k, st, p) is Ok,
    ensures
        lowering_wf(lower_parameters(parameters, k, st, p).unwrap(), p),
        lower_parameters(parameters, k, st, p).unwrap().next == st.next + parameters.len() - k,
    decreases parameters.len() - k,
{
    if k < parameters.len() {
        let n = st.next + 1;
        let next = Lowering {
            layout: st.layout.update(parameters[k].id.id as int, Some(single(st.next))),
            next: n,
            statements: if parameters[k].kind == Kind::Boolean {
                st.statements.push(boolean_constraint(st.next, p))
            } else {
                st.statements
            },
            outputs: st.outputs,
        };
        lemma_single_wf(st.next, p, n);
        lemma_layout_room(st.layout, p, st.next, n);
        lemma_statements_room(st.statements, p, st.next, n);
        lemma_arithmetic_wf(single(st.next), single(st.next), 0, p, n);
        assert(linear_wf(Seq::<Term>::empty(), p, n));
        assert forall|i: int| 0 <= i < next.layout.len() && (#[trigger] next.layout[i])
            is Some implies linear_wf(next.layout[i].unwrap(), p, n) by {
            if i != parameters[k].id.id {
                assert(next.layout[i] == st.layout[i]);
            }
        }
        assert forall|i: int| 0 <= i < next.statements.len() implies statement_wf(
            #[trigger] next.statements[i],
            p,
            n,
        ) by {
            if i < st.statements.len() {
                assert(next.statements[i] == st.statements[i]);
            }
        }
        assert forall|i: int| 0 <= i < next.outputs.len() implies (#[trigger] next.outputs[i]).id
            < n by {
            assert(st.outputs[i].id < st.next);
        }
        lemma_lower_parameters_wf(parameters, k + 1, next, p);
    }
}

/// The flattener returns well-formed programs only.
pub proof fn lemma_flattened_wf(program: SpecTypedProgram)
    requires
        program.wf(),
        flattened(program) is Ok,
    ensures
        flattened(program).unwrap().wf(),
{
    let main = program.main_function();
    let p = program.field.modulus as int;
    let begin = start(main.variable_count as int);
    lemma_lower_parameters_wf(main.parameters, 0, begin, p);
    let bound = lower_parameters(main.parameters, 0, begin, p).unwrap();
    lemma_lower_statements_wf(main.statements, bound, p);
}

} // verus!
