//! The lowering is complete over a prime field: where the typed program
//! has a meaning, the flat program runs to its end.

use crate::field::{inverse_of, invertible, is_inverse, is_prime, lemma_prime_field};
use crate::flatten::program::{
    encode_each, in_step, lemma_condition_step, lemma_define, lemma_definition_step,
    lemma_parameters_sound, lemma_part_of_chain, lemma_ran, ran,
};
use crate::flatten::shape::{
    lemma_choice_wf, lemma_combine_wf, lemma_flat_wf, lemma_flattened_wf, lemma_layout_room,
    lemma_linear_room, lemma_lower_parameters_wf, lemma_lower_return_wf,
    lemma_lower_statement_wf, lemma_lower_statements_wf, lowering_wf,
};
use crate::flatten::soundness::{
    flattening_is_sound, lemma_halved, lemma_has_one_extends, lemma_part_of_transitive,
    lemma_represents_extends, represents,
};
use crate::flatten::{
    bits_sum, boolean_constraint, booleans, choice, combine, decomposition, flat, flat_variable,
    flattened, lower_condition, lower_definition, lower_parameters, lower_return, lower_statements,
    nonzero, product, quotient, shifted_difference, start, Lowering,
};
use crate::ir::interpreter::{
    execution, initial, lemma_assign_bits_frame, lemma_initial, lemma_run_extends,
    lemma_run_length, lemma_run_one, lemma_run_push, outputs_assigned, part_of, run,
    ExecutionError,
};
use crate::ir::lincomb::{
    complement, constant_terms, difference, eval, has_one, is_constant, lemma_eval_complement,
    lemma_eval_constant, lemma_eval_difference, lemma_eval_extends, lemma_eval_merge,
    lemma_eval_single, single, sum, term_value, value_at, within, Term, Variable,
};
use crate::static_analysis::flat_propagation::substitution_wf;
use crate::ir::statement::{
    apply, assign_bits, bit, halved, lemma_halved_zero, Reason, SpecDirective, SpecStatement,
};
use crate::typed_absy::{
    bind_arguments, empty_env, encode, env_within, evaluate, evaluate_each, lemma_two_to_grows,
    lemma_width, meaning, of_kind, operate, outputs_of, perform, two_to, value_within, width,
    Expression, Identifier, Kind, Operator, Parameter, SpecTypedProgram, SpecTypedStatement,
    Value,
};
use vstd::arithmetic::div_mod::{
    lemma_basic_div, lemma_fundamental_div_mod, lemma_mod_bound, lemma_mul_mod_noop_right,
    lemma_small_mod,
};
use vstd::prelude::*;

verus! {

/// No variable from `next` on has a value.
pub open spec fn fresh(w: Seq<Option<u64>>, next: int) -> bool {
    forall|i: int| next <= i < w.len() ==> (#[trigger] w[i]) is None
}

/// Statements that run one list after the other run as one list.
pub proof fn lemma_run_join(a: Seq<SpecStatement>, b: Seq<SpecStatement>, w: Seq<Option<u64>>, p: int)
    requires
        run(a, w, p) is Ok,
        run(b, run(a, w, p).unwrap(), p) is Ok,
    ensures
        run(a + b, w, p) == run(b, run(a, w, p).unwrap(), p),
    decreases b.len(),
{
    if b.len() == 0 {
        assert(a + b == a);
    } else {
        assert((a + b).drop_last() == a + b.drop_last());
        assert((a + b).last() == b.last());
        lemma_run_join(a, b.drop_last(), w, p);
    }
}

/// Two statements that can be applied in turn run.
proof fn lemma_run_two(x: SpecStatement, y: SpecStatement, w: Seq<Option<u64>>, p: int)
    requires
        apply(x, w, p) is Ok,
        apply(y, apply(x, w, p).unwrap(), p) is Ok,
    ensures
        run(seq![x, y], w, p) == Ok::<Seq<Option<u64>>, ExecutionError>(
            apply(y, apply(x, w, p).unwrap(), p).unwrap(),
        ),
{
    lemma_run_one(x, w, p);
    lemma_run_push(seq![x], y, w, p);
    assert(seq![x].push(y) == seq![x, y]);
}

/// Three statements that can be applied in turn run.
proof fn lemma_run_three(
    x: SpecStatement,
    y: SpecStatement,
    z: SpecStatement,
    w: Seq<Option<u64>>,
    p: int,
)
    requires
        apply(x, w, p) is Ok,
        apply(y, apply(x, w, p).unwrap(), p) is Ok,
        apply(z, apply(y, apply(x, w, p).unwrap(), p).unwrap(), p) is Ok,
    ensures
        run(seq![x, y, z], w, p) == Ok::<Seq<Option<u64>>, ExecutionError>(
            apply(z, apply(y, apply(x, w, p).unwrap(), p).unwrap(), p).unwrap(),
        ),
{
    lemma_run_two(x, y, w, p);
    lemma_run_push(seq![x, y], z, w, p);
    assert(seq![x, y].push(z) == seq![x, y, z]);
}

/// A variable that is given a value of the field leaves the values of
/// all combinations that had one.
proof fn lemma_assigned_keeps(t: Seq<Term>, w: Seq<Option<u64>>, v: int, x: u64, p: int)
    requires
        0 <= v < w.len(),
        w[v] is None,
        eval(t, w, p) is Some,
    ensures
        eval(t, w.update(v, Some(x)), p) == eval(t, w, p),
{
    lemma_eval_extends(t, w, w.update(v, Some(x)), p);
}

/// The statements of a product run, and give the fresh variable the
/// product.
pub proof fn lemma_product_runs(a: Seq<Term>, b: Seq<Term>, v: int, w: Seq<Option<u64>>, p: int)
    requires
        2 <= p <= u64::MAX,
        within(w, p),
        0 <= v < w.len() <= usize::MAX,
        w[v] is None,
        eval(a, w, p) is Some,
        eval(b, w, p) is Some,
    ensures
        run(product(a, b, v), w, p) == Ok::<Seq<Option<u64>>, ExecutionError>(
            w.update(v, Some(((eval(a, w, p).unwrap() * eval(b, w, p).unwrap()) % p) as u64)),
        ),
{
    let x = eval(a, w, p).unwrap();
    let y = eval(b, w, p).unwrap();
    lemma_mod_bound(x * y, p);
    let val = ((x * y) % p) as u64;
    let w1 = w.update(v, Some(val));
    let o = Variable { id: v as usize };
    let d = SpecStatement::Directive(SpecDirective::Product(o, a, b));
    let c = SpecStatement::Constraint(a, b, single(v));
    assert(apply(d, w, p) == Ok::<Seq<Option<u64>>, Reason>(w1));
    lemma_assigned_keeps(a, w, v, val, p);
    lemma_assigned_keeps(b, w, v, val, p);
    assert(within(w1, p));
    lemma_eval_single(o, w1, p);
    assert(apply(c, w1, p) == Ok::<Seq<Option<u64>>, Reason>(w1));
    lemma_run_two(d, c, w, p);
    assert(product(a, b, v) == seq![d, c]);
}

/// A field element times its inverse times another is the other.
proof fn lemma_quotient_checks(x: int, y: int, p: int)
    requires
        2 <= p,
        0 <= x < p,
        invertible(y, p),
    ensures
        (y * ((x * inverse_of(y, p)) % p)) % p == x,
{
    let i = inverse_of(y, p);
    assert(is_inverse(y, i, p));
    lemma_mul_mod_noop_right(y, x * i, p);
    assert(y * (x * i) == x * (y * i)) by (nonlinear_arith);
    lemma_mul_mod_noop_right(x, y * i, p);
    lemma_small_mod(x as nat, p as nat);
}

/// The statements of a quotient run where the divisor can be inverted,
/// and give the fresh variable the quotient.
pub proof fn lemma_quotient_runs(a: Seq<Term>, b: Seq<Term>, v: int, w: Seq<Option<u64>>, p: int)
    requires
        2 <= p <= u64::MAX,
        within(w, p),
        0 <= v < w.len() <= usize::MAX,
        w[v] is None,
        eval(a, w, p) is Some,
        eval(b, w, p) is Some,
        invertible(eval(b, w, p).unwrap() as int, p),
    ensures
        run(quotient(a, b, v), w, p) == Ok::<Seq<Option<u64>>, ExecutionError>(
            w.update(
                v,
                Some(
                    ((eval(a, w, p).unwrap() * inverse_of(eval(b, w, p).unwrap() as int, p))
                        % p) as u64,
                ),
            ),
        ),
{
    let x = eval(a, w, p).unwrap();
    let y = eval(b, w, p).unwrap();
    let i = inverse_of(y as int, p);
    lemma_mod_bound(x * i, p);
    lemma_mod_bound(sum(a, w), p);
    let val = ((x * i) % p) as u64;
    let w1 = w.update(v, Some(val));
    let o = Variable { id: v as usize };
    let d = SpecStatement::Directive(SpecDirective::Quotient(o, a, b));
    let c = SpecStatement::Constraint(b, single(v), a);
    assert(apply(d, w, p) == Ok::<Seq<Option<u64>>, Reason>(w1));
    lemma_assigned_keeps(a, w, v, val, p);
    lemma_assigned_keeps(b, w, v, val, p);
    assert(within(w1, p));
    lemma_eval_single(o, w1, p);
    lemma_quotient_checks(x as int, y as int, p);
    assert(apply(c, w1, p) == Ok::<Seq<Option<u64>>, Reason>(w1));
    lemma_run_two(d, c, w, p);
    assert(quotient(a, b, v) == seq![d, c]);
}

/// What the statements of a test for zero leave.
pub open spec fn nonzero_result(x: int, v: int, w: Seq<Option<u64>>, p: int) -> Seq<Option<u64>> {
    if x == 0 {
        w.update(v, Some(0u64)).update(v + 1, Some(0u64))
    } else {
        w.update(v, Some(1u64)).update(v + 1, Some(inverse_of(x, p) as u64))
    }
}

/// The statements of a test for zero run over a prime field.
pub proof fn lemma_nonzero_runs(d: Seq<Term>, v: int, w: Seq<Option<u64>>, p: int)
    requires
        is_prime(p),
        p <= u64::MAX,
        within(w, p),
        has_one(w),
        1 <= v,
        v + 1 < w.len() <= usize::MAX,
        w[v] is None,
        w[v + 1] is None,
        eval(d, w, p) is Some,
    ensures
        run(nonzero(d, v, p), w, p) == Ok::<Seq<Option<u64>>, ExecutionError>(
            nonzero_result(eval(d, w, p).unwrap() as int, v, w, p),
        ),
{
    let x = eval(d, w, p).unwrap();
    lemma_mod_bound(sum(d, w), p);
    let f = Variable { id: v as usize };
    let i = Variable { id: (v + 1) as usize };
    let s1 = SpecStatement::Directive(SpecDirective::NonZero(f, i, d));
    let s2 = SpecStatement::Constraint(d, single(v + 1), single(v));
    let s3 = SpecStatement::Constraint(complement(single(v), p), d, Seq::<Term>::empty());
    let w2 = nonzero_result(x as int, v, w, p);
    if x != 0 {
        lemma_prime_field(x as int, p);
        assert(is_inverse(x as int, inverse_of(x as int, p), p));
    }
    assert(apply(s1, w, p) == Ok::<Seq<Option<u64>>, Reason>(w2));
    assert(within(w2, p));
    assert(has_one(w2));
    lemma_eval_extends(d, w, w2, p);
    lemma_eval_single(f, w2, p);
    lemma_eval_single(i, w2, p);
    lemma_eval_complement(single(v), w2, p);
    assert(eval(Seq::<Term>::empty(), w2, p) == Some(0u64)) by {
        assert(sum(Seq::<Term>::empty(), w2) == 0);
        lemma_small_mod(0, p as nat);
    }
    if x == 0 {
        lemma_small_mod(0, p as nat);
        lemma_small_mod(1, p as nat);
        assert(0 * 0 == 0);
        assert(1 * 0 == 0);
    } else {
        let inv = inverse_of(x as int, p);
        assert((x * inv) % p == 1);
        lemma_small_mod(0, p as nat);
        assert(0 * x == 0) by (nonlinear_arith);
    }
    assert(apply(s2, w2, p) == Ok::<Seq<Option<u64>>, Reason>(w2));
    assert(apply(s3, w2, p) == Ok::<Seq<Option<u64>>, Reason>(w2));
    lemma_run_three(s1, s2, s3, w, p);
    assert(nonzero(d, v, p) == seq![s1, s2, s3]);
}

} // verus!

verus! {

/// A term more at the end adds its value to the sum.
proof fn lemma_sum_push(t: Seq<Term>, x: Term, w: Seq<Option<u64>>)
    ensures
        sum(t.push(x), w) == sum(t, w) + term_value(x, w),
    decreases t.len(),
{
    let all = t.push(x);
    if t.len() == 0 {
        assert(all.drop_first() == Seq::<Term>::empty());
        assert(sum(all.drop_first(), w) == 0);
    } else {
        assert(all[0] == t[0]);
        assert(all.drop_first() == t.drop_first().push(x));
        lemma_sum_push(t.drop_first(), x, w);
    }
}

/// The bits of a number, each times the power of two of its place, add
/// up to the number without what lies above the bits.
proof fn lemma_bits_value(first: int, count: int, w: Seq<Option<u64>>, x: int)
    requires
        0 <= first,
        0 <= count,
        0 <= x,
        first + count <= w.len() <= usize::MAX,
        two_to(count) <= u64::MAX,
        forall|i: int| 0 <= i < count ==> #[trigger] w[first + i] == Some(bit(x, i)),
    ensures
        sum(bits_sum(first, count), w) == x - two_to(count) * halved(x, count),
    decreases count,
{
    if count == 0 {
        assert(bits_sum(first, count) == Seq::<Term>::empty());
        assert(two_to(0) * x == x) by (nonlinear_arith)
            requires
                two_to(0) == 1,
        ;
    } else {
        let last = Term {
            var: Variable { id: (first + count - 1) as usize },
            coeff: two_to(count - 1) as u64,
        };
        lemma_two_to_grows(count - 1, count);
        lemma_bits_value(first, count - 1, w, x);
        assert(bits_sum(first, count) == bits_sum(first, count - 1).push(last));
        lemma_sum_push(bits_sum(first, count - 1), last, w);
        lemma_halved_zero(x, count - 1, count - 1);
        let h = halved(x, count - 1);
        let t = two_to(count - 1);
        assert(w[first + (count - 1)] == Some(bit(x, count - 1)));
        assert(term_value(last, w) == t * (h % 2));
        lemma_fundamental_div_mod(h, 2);
        assert(x - t * h + t * (h % 2) == x - (2 * t) * (h / 2)) by (nonlinear_arith)
            requires
                h == 2 * (h / 2) + h % 2,
        ;
    }
}

/// The bits of a number can be given to variables that have no value.
proof fn lemma_assign_bits_ok(w: Seq<Option<u64>>, first: Variable, count: int, x: int)
    requires
        0 <= count,
        first.id + count <= w.len(),
        forall|i: int| first.id <= i < first.id + count ==> (#[trigger] w[i]) is None,
    ensures
        assign_bits(w, first, count, x) is Ok,
    decreases count,
{
    if count > 0 {
        lemma_assign_bits_ok(w, first, count - 1, x);
        lemma_assign_bits_frame(w, first, count - 1, x);
        let w1 = assign_bits(w, first, count - 1, x).unwrap();
        assert(w1[first.id + count - 1] == w[first.id + count - 1]);
    }
}

/// Constraints that hold run, and leave everything as it is.
proof fn lemma_constraints_run(s: Seq<SpecStatement>, w: Seq<Option<u64>>, p: int)
    requires
        forall|k: int|
            0 <= k < s.len() ==> (#[trigger] s[k]) is Constraint && apply(s[k], w, p) is Ok,
    ensures
        run(s, w, p) == Ok::<Seq<Option<u64>>, ExecutionError>(w),
    decreases s.len(),
{
    if s.len() > 0 {
        assert forall|k: int| 0 <= k < s.drop_last().len() implies (#[trigger] s.drop_last()[k])
            is Constraint && apply(s.drop_last()[k], w, p) is Ok by {
            assert(s.drop_last()[k] == s[k]);
        }
        lemma_constraints_run(s.drop_last(), w, p);
        assert(s[s.len() - 1] is Constraint);
    }
}

/// The statements of a decomposition run on a number that fits the
/// bits, and give the fresh variables its bits.
pub proof fn lemma_decomposition_runs(
    t: Seq<Term>,
    first: int,
    count: int,
    w: Seq<Option<u64>>,
    p: int,
)
    requires
        2 <= p <= u64::MAX,
        within(w, p),
        has_one(w),
        1 <= first,
        0 <= count,
        first + count <= w.len() <= usize::MAX,
        forall|i: int| first <= i < first + count ==> (#[trigger] w[i]) is None,
        eval(t, w, p) is Some,
        eval(t, w, p).unwrap() < two_to(count) <= p,
    ensures
        assign_bits(w, Variable { id: first as usize }, count, eval(t, w, p).unwrap() as int)
            is Ok,
        run(decomposition(t, first, count, p), w, p) == Ok::<Seq<Option<u64>>, ExecutionError>(
            assign_bits(
                w,
                Variable { id: first as usize },
                count,
                eval(t, w, p).unwrap() as int,
            ).unwrap(),
        ),
{
    let x = eval(t, w, p).unwrap() as int;
    let f = Variable { id: first as usize };
    let directive = SpecStatement::Directive(SpecDirective::Bits(f, count as usize, t));
    let checks = booleans(first, count, p);
    let total = SpecStatement::Constraint(bits_sum(first, count), constant_terms(1), t);
    lemma_halved(x, count);
    lemma_basic_div(x, two_to(count));
    lemma_assign_bits_ok(w, f, count, x);
    lemma_assign_bits_frame(w, f, count, x);
    let w1 = assign_bits(w, f, count, x).unwrap();
    assert(apply(directive, w, p) == Ok::<Seq<Option<u64>>, Reason>(w1));
    assert(within(w1, p)) by {
        assert forall|i: int| 0 <= i < w1.len() && (#[trigger] w1[i]) is Some implies w1[i].unwrap()
            < p by {
            if first <= i < first + count {
                assert(w1[first + (i - first)] == Some(bit(x, i - first)));
            } else {
                assert(w1[i] == w[i]);
            }
        }
    }
    assert(has_one(w1)) by {
        assert(w1[0] == w[0]);
    }
    lemma_eval_extends(t, w, w1, p);
    lemma_small_mod(0, p as nat);
    assert(eval(Seq::<Term>::empty(), w1, p) == Some(0u64)) by {
        assert(sum(Seq::<Term>::empty(), w1) == 0);
    }
    assert forall|k: int| 0 <= k < checks.len() implies (#[trigger] checks[k]) is Constraint
        && apply(checks[k], w1, p) is Ok by {
        let v = Variable { id: (first + k) as usize };
        lemma_eval_single(v, w1, p);
        lemma_eval_complement(single(first + k), w1, p);
        assert(w1[first + k] == Some(bit(x, k)));
        let b = bit(x, k) as int;
        let c = (1 - b) % p;
        if b == 0 {
            assert(0 * c == 0);
        } else {
            assert(b == 1);
            assert(1 * 0 == 0);
        }
    }
    lemma_constraints_run(checks, w1, p);
    // the sum of the bits
    lemma_bits_value(first, count, w1, x);
    assert(two_to(count) * 0 == 0);
    assert(crate::ir::lincomb::assigned(bits_sum(first, count), w1)) by {
        assert forall|i: int| 0 <= i < bits_sum(first, count).len() implies crate::ir::lincomb::value_at(
            w1,
            (#[trigger] bits_sum(first, count)[i]).var,
        ) is Some by {
            assert(w1[first + i] == Some(bit(x, i)));
        }
    }
    lemma_small_mod(x as nat, p as nat);
    lemma_eval_constant(1, w1, p);
    assert(x * 1 == x);
    assert(apply(total, w1, p) == Ok::<Seq<Option<u64>>, Reason>(w1));
    lemma_run_one(directive, w, p);
    lemma_run_join(seq![directive], checks, w, p);
    lemma_run_one(total, w1, p);
    lemma_run_join(seq![directive] + checks, seq![total], w, p);
    assert(decomposition(t, first, count, p) == (seq![directive] + checks) + seq![total]);
}

} // verus!

verus! {

/// What a decomposition leaves is within the field, holds one, has
/// kept the values there were, and has no value behind its bits where
/// there was none behind them before.
proof fn lemma_decomposition_leaves(
    t: Seq<Term>,
    first: int,
    count: int,
    w: Seq<Option<u64>>,
    p: int,
)
    requires
        2 <= p <= u64::MAX,
        within(w, p),
        has_one(w),
        1 <= first,
        0 <= count,
        first + count <= w.len() <= usize::MAX,
        fresh(w, first),
        eval(t, w, p) is Some,
        eval(t, w, p).unwrap() < two_to(count) <= p,
    ensures
        run(decomposition(t, first, count, p), w, p) is Ok,
        within(run(decomposition(t, first, count, p), w, p).unwrap(), p),
        has_one(run(decomposition(t, first, count, p), w, p).unwrap()),
        part_of(w, run(decomposition(t, first, count, p), w, p).unwrap()),
        fresh(run(decomposition(t, first, count, p), w, p).unwrap(), first + count),
{
    lemma_decomposition_runs(t, first, count, w, p);
    let s = decomposition(t, first, count, p);
    let w1 = run(s, w, p).unwrap();
    lemma_run_extends(s, w, p);
    lemma_has_one_extends(w, w1);
    lemma_assign_bits_frame(
        w,
        Variable { id: first as usize },
        count,
        eval(t, w, p).unwrap() as int,
    );
    assert forall|i: int| first + count <= i < w1.len() implies (#[trigger] w1[i]) is None by {
        assert(w1[i] == w[i]);
        assert(w[i] is None);
    }
}

/// The statements of a comparison run on numbers that fit the bits.
proof fn lemma_less_runs(
    a: Seq<Term>,
    b: Seq<Term>,
    next: int,
    p: int,
    w: Seq<Option<u64>>,
    x: int,
    y: int,
)
    requires
        2 <= p <= u64::MAX,
        1 <= next,
        within(w, p),
        has_one(w),
        eval(a, w, p) == Some(x as u64),
        eval(b, w, p) == Some(y as u64),
        0 <= x < two_to(width(p)),
        0 <= y < two_to(width(p)),
        combine(Operator::Lt, a, b, next, p) is Ok,
        combine(Operator::Lt, a, b, next, p).unwrap().next <= w.len() <= usize::MAX,
        fresh(w, next),
    ensures
        run(combine(Operator::Lt, a, b, next, p).unwrap().statements, w, p) is Ok,
        fresh(
            run(combine(Operator::Lt, a, b, next, p).unwrap().statements, w, p).unwrap(),
            combine(Operator::Lt, a, b, next, p).unwrap().next,
        ),
{
    reveal(combine);
    let n = width(p);
    lemma_width(p);
    let bound_n = two_to(n);
    assert(two_to(n + 1) == 2 * bound_n);
    let moved = shifted_difference(a, b, n, p);
    let first = decomposition(a, next, n, p);
    let second = decomposition(b, next + n, n, p);
    let third = decomposition(moved, next + 2 * n, n + 1, p);
    lemma_decomposition_leaves(a, next, n, w, p);
    let w1 = run(first, w, p).unwrap();
    lemma_eval_extends(b, w, w1, p);
    lemma_decomposition_leaves(b, next + n, n, w1, p);
    let w2 = run(second, w1, p).unwrap();
    lemma_part_of_transitive(w, w1, w2);
    lemma_eval_extends(a, w, w2, p);
    lemma_eval_extends(b, w, w2, p);
    lemma_eval_difference(a, b, w2, p);
    lemma_eval_constant(bound_n, w2, p);
    lemma_eval_merge(difference(a, b, p), constant_terms(bound_n), w2, p);
    vstd::arithmetic::div_mod::lemma_add_mod_noop(x - y, bound_n, p);
    lemma_small_mod(bound_n as nat, p as nat);
    let d = x - y + bound_n;
    lemma_small_mod(d as nat, p as nat);
    lemma_mod_bound(x - y, p);
    assert(eval(moved, w2, p) == Some(d as u64));
    lemma_decomposition_leaves(moved, next + 2 * n, n + 1, w2, p);
    lemma_run_join(first, second, w, p);
    lemma_run_join(first + second, third, w, p);
}

/// The statements that an operator lowers to run over a prime field,
/// on operands for which the operator is defined.
proof fn lemma_combine_runs(
    op: Operator,
    a: Seq<Term>,
    b: Seq<Term>,
    next: int,
    p: int,
    w: Seq<Option<u64>>,
    x: Value,
    y: Value,
)
    requires
        is_prime(p),
        p <= u64::MAX,
        1 <= next,
        within(w, p),
        has_one(w),
        eval(a, w, p) == Some(encode(x)),
        eval(b, w, p) == Some(encode(y)),
        operate(op, x, y, p) is Some,
        combine(op, a, b, next, p) is Ok,
        combine(op, a, b, next, p).unwrap().next <= w.len() <= usize::MAX,
        fresh(w, next),
    ensures
        run(combine(op, a, b, next, p).unwrap().statements, w, p) is Ok,
        fresh(
            run(combine(op, a, b, next, p).unwrap().statements, w, p).unwrap(),
            combine(op, a, b, next, p).unwrap().next,
        ),
{
    reveal(combine);
    let f = combine(op, a, b, next, p).unwrap();
    let none = Seq::<SpecStatement>::empty();
    assert(run(none, w, p) == Ok::<Seq<Option<u64>>, ExecutionError>(w));
    match op {
        Operator::Add => {},
        Operator::Sub => {},
        Operator::Mult => {
            if !is_constant(a) && !is_constant(b) {
                lemma_product_runs(a, b, next, w, p);
            }
        },
        Operator::Div => {
            lemma_quotient_runs(a, b, next, w, p);
        },
        Operator::Eq => {
            lemma_eval_difference(a, b, w, p);
            lemma_nonzero_runs(difference(a, b, p), next, w, p);
        },
        Operator::Lt => {
            lemma_less_runs(a, b, next, p, w, encode(x) as int, encode(y) as int);
        },
        Operator::And => {
            lemma_product_runs(a, b, next, w, p);
        },
        Operator::Or => {
            lemma_product_runs(a, b, next, w, p);
        },
    }
}

/// The statements that a choice lowers to run.
proof fn lemma_choice_runs(
    c: Seq<Term>,
    a: Seq<Term>,
    b: Seq<Term>,
    next: int,
    p: int,
    w: Seq<Option<u64>>,
)
    requires
        2 <= p <= u64::MAX,
        1 <= next,
        within(w, p),
        has_one(w),
        eval(c, w, p) is Some,
        eval(a, w, p) is Some,
        eval(b, w, p) is Some,
        choice(c, a, b, next, p) is Ok,
        choice(c, a, b, next, p).unwrap().next <= w.len() <= usize::MAX,
        fresh(w, next),
    ensures
        run(choice(c, a, b, next, p).unwrap().statements, w, p) is Ok,
        fresh(
            run(choice(c, a, b, next, p).unwrap().statements, w, p).unwrap(),
            choice(c, a, b, next, p).unwrap().next,
        ),
{
    let first = product(c, a, next);
    let second = product(complement(c, p), b, next + 1);
    lemma_product_runs(c, a, next, w, p);
    let w1 = run(first, w, p).unwrap();
    lemma_run_extends(first, w, p);
    lemma_has_one_extends(w, w1);
    lemma_eval_extends(c, w, w1, p);
    lemma_eval_extends(b, w, w1, p);
    lemma_eval_complement(c, w1, p);
    lemma_product_runs(complement(c, p), b, next + 1, w1, p);
    lemma_run_join(first, second, w, p);
}

/// What the statements of an expression leave, once they have run:
/// all that the lowering of the next expression starts from.
proof fn lemma_operand_done(
    e: Expression,
    layout: Seq<Option<Seq<Term>>>,
    next: int,
    p: int,
    env: Seq<Option<Value>>,
    w: Seq<Option<u64>>,
)
    requires
        2 <= p <= u64::MAX,
        1 <= next <= usize::MAX,
        env_within(env, p),
        within(w, p),
        has_one(w),
        represents(layout, env, w, p),
        substitution_wf(layout, p, next),
        evaluate(e, env, p) is Some,
        flat(e, layout, next, p) is Ok,
        run(flat(e, layout, next, p).unwrap().statements, w, p) is Ok,
    ensures
        next <= flat(e, layout, next, p).unwrap().next <= usize::MAX,
        substitution_wf(layout, p, flat(e, layout, next, p).unwrap().next),
        within(run(flat(e, layout, next, p).unwrap().statements, w, p).unwrap(), p),
        has_one(run(flat(e, layout, next, p).unwrap().statements, w, p).unwrap()),
        part_of(w, run(flat(e, layout, next, p).unwrap().statements, w, p).unwrap()),
        represents(
            layout,
            env,
            run(flat(e, layout, next, p).unwrap().statements, w, p).unwrap(),
            p,
        ),
        eval(
            flat(e, layout, next, p).unwrap().result,
            run(flat(e, layout, next, p).unwrap().statements, w, p).unwrap(),
            p,
        ) is Some,
{
    let f = flat(e, layout, next, p).unwrap();
    let w1 = run(f.statements, w, p).unwrap();
    lemma_flat_wf(e, layout, next, p);
    lemma_layout_room(layout, p, next, f.next);
    flattening_is_sound(e, layout, next, p, env, w);
    lemma_represents_extends(layout, env, w, w1, p);
    lemma_has_one_extends(w, w1);
}

/// The statements of an operator on two expressions run, once those of
/// the expressions have.
proof fn lemma_binary_runs(
    op: Operator,
    a: Expression,
    b: Expression,
    layout: Seq<Option<Seq<Term>>>,
    next: int,
    p: int,
    env: Seq<Option<Value>>,
    w: Seq<Option<u64>>,
)
    requires
        is_prime(p),
        p <= u64::MAX,
        1 <= next <= usize::MAX,
        env_within(env, p),
        within(w, p),
        has_one(w),
        represents(layout, env, w, p),
        substitution_wf(layout, p, next),
        evaluate(Expression::Binary(op, Box::new(a), Box::new(b)), env, p) is Some,
        flat(Expression::Binary(op, Box::new(a), Box::new(b)), layout, next, p) is Ok,
        flat(Expression::Binary(op, Box::new(a), Box::new(b)), layout, next, p).unwrap().next
            <= w.len() <= usize::MAX,
        run(flat(a, layout, next, p).unwrap().statements, w, p) is Ok,
        run(
            flat(b, layout, flat(a, layout, next, p).unwrap().next, p).unwrap().statements,
            run(flat(a, layout, next, p).unwrap().statements, w, p).unwrap(),
            p,
        ) is Ok,
        fresh(
            run(
                flat(b, layout, flat(a, layout, next, p).unwrap().next, p).unwrap().statements,
                run(flat(a, layout, next, p).unwrap().statements, w, p).unwrap(),
                p,
            ).unwrap(),
            flat(b, layout, flat(a, layout, next, p).unwrap().next, p).unwrap().next,
        ),
    ensures
        run(
            flat(Expression::Binary(op, Box::new(a), Box::new(b)), layout, next, p).unwrap().statements,
            w,
            p,
        ) is Ok,
        fresh(
            run(
                flat(
                    Expression::Binary(op, Box::new(a), Box::new(b)),
                    layout,
                    next,
                    p,
                ).unwrap().statements,
                w,
                p,
            ).unwrap(),
            flat(Expression::Binary(op, Box::new(a), Box::new(b)), layout, next, p).unwrap().next,
        ),
{
    let fa = flat(a, layout, next, p).unwrap();
    let fb = flat(b, layout, fa.next, p).unwrap();
    let fo = combine(op, fa.result, fb.result, fb.next, p).unwrap();
    let x = evaluate(a, env, p).unwrap();
    let y = evaluate(b, env, p).unwrap();
    let wa = run(fa.statements, w, p).unwrap();
    let wb = run(fb.statements, wa, p).unwrap();
    lemma_operand_done(a, layout, next, p, env, w);
    lemma_operand_done(b, layout, fa.next, p, env, wa);
    flattening_is_sound(a, layout, next, p, env, w);
    flattening_is_sound(b, layout, fa.next, p, env, wa);
    lemma_eval_extends(fa.result, wa, wb, p);
    lemma_combine_runs(op, fa.result, fb.result, fb.next, p, wb, x, y);
    lemma_run_join(fa.statements, fb.statements, w, p);
    lemma_run_join(fa.statements + fb.statements, fo.statements, w, p);
}

/// The statements of a choice between two expressions run, once those
/// of the condition and of the expressions have.
proof fn lemma_ifelse_runs(
    c: Expression,
    a: Expression,
    b: Expression,
    layout: Seq<Option<Seq<Term>>>,
    next: int,
    p: int,
    env: Seq<Option<Value>>,
    w: Seq<Option<u64>>,
)
    requires
        2 <= p <= u64::MAX,
        1 <= next <= usize::MAX,
        env_within(env, p),
        within(w, p),
        has_one(w),
        represents(layout, env, w, p),
        substitution_wf(layout, p, next),
        evaluate(Expression::IfElse(Box::new(c), Box::new(a), Box::new(b)), env, p) is Some,
        flat(Expression::IfElse(Box::new(c), Box::new(a), Box::new(b)), layout, next, p) is Ok,
        flat(
            Expression::IfElse(Box::new(c), Box::new(a), Box::new(b)),
            layout,
            next,
            p,
        ).unwrap().next <= w.len() <= usize::MAX,
        run(flat(c, layout, next, p).unwrap().statements, w, p) is Ok,
        ({
            let fc = flat(c, layout, next, p).unwrap();
            let wc = run(fc.statements, w, p).unwrap();
            let fa = flat(a, layout, fc.next, p).unwrap();
            &&& run(fa.statements, wc, p) is Ok
            &&& ({
                let wa = run(fa.statements, wc, p).unwrap();
                let fb = flat(b, layout, fa.next, p).unwrap();
                &&& run(fb.statements, wa, p) is Ok
                &&& fresh(run(fb.statements, wa, p).unwrap(), fb.next)
            })
        }),
    ensures
        run(
            flat(
                Expression::IfElse(Box::new(c), Box::new(a), Box::new(b)),
                layout,
                next,
                p,
            ).unwrap().statements,
            w,
            p,
        ) is Ok,
        fresh(
            run(
                flat(
                    Expression::IfElse(Box::new(c), Box::new(a), Box::new(b)),
                    layout,
                    next,
                    p,
                ).unwrap().statements,
                w,
                p,
            ).unwrap(),
            flat(
                Expression::IfElse(Box::new(c), Box::new(a), Box::new(b)),
                layout,
                next,
                p,
            ).unwrap().next,
        ),
{
    let fc = flat(c, layout, next, p).unwrap();
    let fa = flat(a, layout, fc.next, p).unwrap();
    let fb = flat(b, layout, fa.next, p).unwrap();
    let fo = choice(fc.result, fa.result, fb.result, fb.next, p).unwrap();
    let wc = run(fc.statements, w, p).unwrap();
    let wa = run(fa.statements, wc, p).unwrap();
    let wb = run(fb.statements, wa, p).unwrap();
    lemma_operand_done(c, layout, next, p, env, w);
    lemma_operand_done(a, layout, fc.next, p, env, wc);
    lemma_operand_done(b, layout, fa.next, p, env, wa);
    lemma_part_of_transitive(wc, wa, wb);
    lemma_eval_extends(fc.result, wc, wb, p);
    lemma_eval_extends(fa.result, wa, wb, p);
    lemma_choice_runs(fc.result, fa.result, fb.result, fb.next, p, wb);
    lemma_run_join(fc.statements, fa.statements, w, p);
    lemma_run_join(fc.statements + fa.statements, fb.statements, w, p);
    lemma_run_join(fc.statements + fa.statements + fb.statements, fo.statements, w, p);
}

/// The lowering hands out variables in order: what an expression
/// lowers to needs no variable that a part of it does not need.
proof fn lemma_flat_parts(e: Expression, layout: Seq<Option<Seq<Term>>>, next: int, p: int)
    requires
        2 <= p <= u64::MAX,
        1 <= next <= usize::MAX,
        substitution_wf(layout, p, next),
        flat(e, layout, next, p) is Ok,
    ensures
        match e {
            Expression::Binary(_, a, b) => {
                let fa = flat(*a, layout, next, p).unwrap();
                let fb = flat(*b, layout, fa.next, p).unwrap();
                &&& next <= fa.next <= fb.next <= flat(e, layout, next, p).unwrap().next
                &&& substitution_wf(layout, p, fa.next)
            },
            Expression::IfElse(c, a, b) => {
                let fc = flat(*c, layout, next, p).unwrap();
                let fa = flat(*a, layout, fc.next, p).unwrap();
                let fb = flat(*b, layout, fa.next, p).unwrap();
                &&& next <= fc.next <= fa.next <= fb.next <= flat(e, layout, next, p).unwrap().next
                &&& substitution_wf(layout, p, fc.next)
                &&& substitution_wf(layout, p, fa.next)
            },
            _ => true,
        },
{
    match e {
        Expression::Binary(op, a, b) => {
            let fa = flat(*a, layout, next, p).unwrap();
            let fb = flat(*b, layout, fa.next, p).unwrap();
            lemma_flat_wf(*a, layout, next, p);
            lemma_layout_room(layout, p, next, fa.next);
            lemma_flat_wf(*b, layout, fa.next, p);
            lemma_linear_room(fa.result, p, fa.next, fb.next);
            lemma_combine_wf(op, fa.result, fb.result, fb.next, p);
        },
        Expression::IfElse(c, a, b) => {
            let fc = flat(*c, layout, next, p).unwrap();
            let fa = flat(*a, layout, fc.next, p).unwrap();
            let fb = flat(*b, layout, fa.next, p).unwrap();
            lemma_flat_wf(*c, layout, next, p);
            lemma_layout_room(layout, p, next, fc.next);
            lemma_flat_wf(*a, layout, fc.next, p);
            lemma_layout_room(layout, p, fc.next, fa.next);
            lemma_flat_wf(*b, layout, fa.next, p);
            lemma_linear_room(fc.result, p, fc.next, fb.next);
            lemma_linear_room(fa.result, p, fa.next, fb.next);
            lemma_choice_wf(fc.result, fa.result, fb.result, fb.next, p);
        },
        _ => {},
    }
}

/// The statements that an expression lowers to run over a prime field
/// where the expression has a value, and use fresh variables only.
pub proof fn lemma_flat_runs(
    e: Expression,
    layout: Seq<Option<Seq<Term>>>,
    next: int,
    p: int,
    env: Seq<Option<Value>>,
    w: Seq<Option<u64>>,
)
    requires
        is_prime(p),
        p <= u64::MAX,
        1 <= next <= usize::MAX,
        env_within(env, p),
        within(w, p),
        has_one(w),
        represents(layout, env, w, p),
        substitution_wf(layout, p, next),
        evaluate(e, env, p) is Some,
        flat(e, layout, next, p) is Ok,
        flat(e, layout, next, p).unwrap().next <= w.len() <= usize::MAX,
        fresh(w, next),
    ensures
        run(flat(e, layout, next, p).unwrap().statements, w, p) is Ok,
        fresh(
            run(flat(e, layout, next, p).unwrap().statements, w, p).unwrap(),
            flat(e, layout, next, p).unwrap().next,
        ),
    decreases e,
{
    let none = Seq::<SpecStatement>::empty();
    assert(run(none, w, p) == Ok::<Seq<Option<u64>>, ExecutionError>(w));
    lemma_flat_parts(e, layout, next, p);
    match e {
        Expression::Number(_) => {},
        Expression::Boolean(_) => {},
        Expression::Variable(_) => {},
        Expression::Flag(_) => {},
        Expression::Binary(op, a, b) => {
            let fa = flat(*a, layout, next, p).unwrap();
            lemma_flat_runs(*a, layout, next, p, env, w);
            let wa = run(fa.statements, w, p).unwrap();
            lemma_operand_done(*a, layout, next, p, env, w);
            lemma_flat_runs(*b, layout, fa.next, p, env, wa);
            lemma_binary_runs(op, *a, *b, layout, next, p, env, w);
        },
        Expression::Not(a) => {
            lemma_flat_runs(*a, layout, next, p, env, w);
        },
        Expression::IfElse(c, a, b) => {
            let fc = flat(*c, layout, next, p).unwrap();
            let fa = flat(*a, layout, fc.next, p).unwrap();
            lemma_flat_runs(*c, layout, next, p, env, w);
            let wc = run(fc.statements, w, p).unwrap();
            lemma_operand_done(*c, layout, next, p, env, w);
            lemma_flat_runs(*a, layout, fc.next, p, env, wc);
            let wa = run(fa.statements, wc, p).unwrap();
            lemma_operand_done(*a, layout, fc.next, p, env, wc);
            lemma_flat_runs(*b, layout, fa.next, p, env, wa);
            lemma_ifelse_runs(*c, *a, *b, layout, next, p, env, w);
        },
    }
}

} // verus!

verus! {

/// The lowering can go on: the statements emitted so far run, what they
/// leave represents the environment and has no value in the variables
/// that are still free, and the outputs have their values.
pub open spec fn ready(st: Lowering, env: Seq<Option<Value>>, w0: Seq<Option<u64>>, p: int) -> bool {
    &&& in_step(st, env, w0, p)
    &&& lowering_wf(st, p)
    &&& env_within(env, p)
    &&& w0.len() <= usize::MAX
    &&& fresh(ran(st, w0, p), st.next)
    &&& outputs_assigned(st.outputs, ran(st, w0, p))
}

/// The statements of an expression, and the definition of a fresh
/// variable as its result, run behind the statements emitted so far.
proof fn lemma_define_runs(
    e: Expression,
    st: Lowering,
    env: Seq<Option<Value>>,
    w0: Seq<Option<u64>>,
    p: int,
)
    requires
        is_prime(p),
        p <= u64::MAX,
        ready(st, env, w0, p),
        evaluate(e, env, p) is Some,
        flat(e, st.layout, st.next, p) is Ok,
        flat(e, st.layout, st.next, p).unwrap().next < w0.len(),
    ensures
        ({
            let f = flat(e, st.layout, st.next, p).unwrap();
            let all = st.statements + f.statements + seq![
                SpecStatement::Definition(flat_variable(f.next), f.result),
            ];
            &&& run(all, w0, p) is Ok
            &&& fresh(run(all, w0, p).unwrap(), f.next + 1)
            &&& value_at(run(all, w0, p).unwrap(), flat_variable(f.next)) is Some
            &&& part_of(ran(st, w0, p), run(all, w0, p).unwrap())
        }),
{
    let f = flat(e, st.layout, st.next, p).unwrap();
    let d = SpecStatement::Definition(flat_variable(f.next), f.result);
    let ws = ran(st, w0, p);
    lemma_ran(st, w0, p);
    lemma_run_length(st.statements, w0, p);
    lemma_flat_runs(e, st.layout, st.next, p, env, ws);
    lemma_operand_done(e, st.layout, st.next, p, env, ws);
    let w1 = run(f.statements, ws, p).unwrap();
    lemma_run_length(f.statements, ws, p);
    let x = eval(f.result, w1, p).unwrap();
    let w2 = w1.update(f.next, Some(x));
    assert(w1[f.next] is None);
    assert(apply(d, w1, p) == Ok::<Seq<Option<u64>>, Reason>(w2));
    lemma_run_one(d, w1, p);
    lemma_run_join(st.statements, f.statements, w0, p);
    lemma_run_join(st.statements + f.statements, seq![d], w0, p);
    assert forall|id: int| 0 <= id < ws.len() && (#[trigger] ws[id]) is Some implies ws[id]
        == w2[id] by {
        assert(w1[id] == ws[id]);
    }
}

/// The values that there are stay where more values are given.
proof fn lemma_outputs_stay(outputs: Seq<Variable>, w: Seq<Option<u64>>, more: Seq<Option<u64>>)
    requires
        outputs_assigned(outputs, w),
        part_of(w, more),
    ensures
        outputs_assigned(outputs, more),
{
    assert forall|i: int| 0 <= i < outputs.len() implies value_at(more, #[trigger] outputs[i])
        is Some by {
        assert(value_at(w, outputs[i]) is Some);
        assert(w[outputs[i].id as int] is Some);
    }
}

/// A return keeps the lowering going.
proof fn lemma_return_runs(
    es: Seq<Expression>,
    st: Lowering,
    env: Seq<Option<Value>>,
    w0: Seq<Option<u64>>,
    p: int,
)
    requires
        is_prime(p),
        p <= u64::MAX,
        ready(st, env, w0, p),
        evaluate_each(es, env, p) is Some,
        lower_return(es, st, p) is Ok,
        lower_return(es, st, p).unwrap().next <= w0.len(),
    ensures
        ready(lower_return(es, st, p).unwrap(), env, w0, p),
    decreases es.len(),
{
    if es.len() > 0 {
        let f = flat(es[0], st.layout, st.next, p).unwrap();
        let next = Lowering {
            layout: st.layout,
            next: f.next + 1,
            statements: st.statements + f.statements + seq![
                SpecStatement::Definition(flat_variable(f.next), f.result),
            ],
            outputs: st.outputs.push(flat_variable(f.next)),
        };
        let rest = es.drop_first();
        let one = seq![es[0]];
        assert(one.drop_first().len() == 0);
        assert(lower_return(one.drop_first(), next, p) == Ok::<Lowering, crate::flatten::FlattenError>(next));
        assert(lower_return(one, st, p) == Ok::<Lowering, crate::flatten::FlattenError>(next));
        lemma_lower_return_wf(one, st, p);
        lemma_lower_return_wf(rest, next, p);
        assert(evaluate(es[0], env, p) is Some);
        lemma_define_runs(es[0], st, env, w0, p);
        lemma_define(es[0], st, env, w0, p);
        let w2 = ran(next, w0, p);
        lemma_outputs_stay(st.outputs, ran(st, w0, p), w2);
        assert forall|i: int| 0 <= i < next.outputs.len() implies value_at(
            w2,
            #[trigger] next.outputs[i],
        ) is Some by {
            if i < st.outputs.len() {
                assert(next.outputs[i] == st.outputs[i]);
            }
        }
        assert forall|k: int| 0 <= k < rest.len() implies evaluate(#[trigger] rest[k], env, p)
            is Some by {
            assert(rest[k] == es[k + 1]);
        }
        assert(evaluate_each(rest, env, p) is Some);
        lemma_return_runs(rest, next, env, w0, p);
    }
}

/// A definition keeps the lowering going.
proof fn lemma_definition_runs(
    id: Identifier,
    e: Expression,
    st: Lowering,
    env: Seq<Option<Value>>,
    w0: Seq<Option<u64>>,
    p: int,
)
    requires
        is_prime(p),
        p <= u64::MAX,
        ready(st, env, w0, p),
        lower_definition(id, e, st, p) is Ok,
        lower_definition(id, e, st, p).unwrap().next <= w0.len(),
        perform(SpecTypedStatement::Definition(id, e), env, p) is Some,
    ensures
        ready(
            lower_definition(id, e, st, p).unwrap(),
            perform(SpecTypedStatement::Definition(id, e), env, p).unwrap(),
            w0,
            p,
        ),
{
    let s = SpecTypedStatement::Definition(id, e);
    let next = lower_definition(id, e, st, p).unwrap();
    lemma_lower_statement_wf(s, st, p);
    lemma_define_runs(e, st, env, w0, p);
    lemma_definition_step(id, e, st, env, w0, p);
    lemma_outputs_stay(st.outputs, ran(st, w0, p), ran(next, w0, p));
}

/// A condition that holds keeps the lowering going.
proof fn lemma_condition_runs(
    a: Expression,
    b: Expression,
    st: Lowering,
    env: Seq<Option<Value>>,
    w0: Seq<Option<u64>>,
    p: int,
)
    requires
        is_prime(p),
        p <= u64::MAX,
        ready(st, env, w0, p),
        lower_condition(a, b, st, p) is Ok,
        lower_condition(a, b, st, p).unwrap().next <= w0.len(),
        perform(SpecTypedStatement::Condition(a, b), env, p) is Some,
    ensures
        ready(lower_condition(a, b, st, p).unwrap(), env, w0, p),
{
    let s = SpecTypedStatement::Condition(a, b);
    let next = lower_condition(a, b, st, p).unwrap();
    let fa = flat(a, st.layout, st.next, p).unwrap();
    let fb = flat(b, st.layout, fa.next, p).unwrap();
    let c = SpecStatement::Constraint(fa.result, constant_terms(1), fb.result);
    let ws = ran(st, w0, p);
    lemma_lower_statement_wf(s, st, p);
    lemma_ran(st, w0, p);
    lemma_run_length(st.statements, w0, p);
    lemma_flat_wf(a, st.layout, st.next, p);
    lemma_layout_room(st.layout, p, st.next, fa.next);
    lemma_flat_wf(b, st.layout, fa.next, p);
    lemma_flat_runs(a, st.layout, st.next, p, env, ws);
    lemma_operand_done(a, st.layout, st.next, p, env, ws);
    let wa = run(fa.statements, ws, p).unwrap();
    lemma_run_length(fa.statements, ws, p);
    lemma_flat_runs(b, st.layout, fa.next, p, env, wa);
    lemma_operand_done(b, st.layout, fa.next, p, env, wa);
    let wb = run(fb.statements, wa, p).unwrap();
    flattening_is_sound(a, st.layout, st.next, p, env, ws);
    flattening_is_sound(b, st.layout, fa.next, p, env, wa);
    lemma_eval_extends(fa.result, wa, wb, p);
    lemma_eval_constant(1, wb, p);
    let x = encode(evaluate(a, env, p).unwrap());
    lemma_mod_bound(sum(fa.result, wb), p);
    lemma_small_mod(x as nat, p as nat);
    assert(x * 1 == x);
    assert(apply(c, wb, p) == Ok::<Seq<Option<u64>>, Reason>(wb));
    lemma_run_one(c, wb, p);
    lemma_run_join(st.statements, fa.statements, w0, p);
    lemma_run_join(st.statements + fa.statements, fb.statements, w0, p);
    lemma_run_join(st.statements + fa.statements + fb.statements, seq![c], w0, p);
    lemma_condition_step(a, b, st, env, w0, p);
    lemma_part_of_chain(ws, wa, wb);
    lemma_outputs_stay(st.outputs, ws, wb);
}

/// The statements that a function lowers to run where the function
/// returns, and the outputs have their values.
proof fn lemma_statements_run(
    s: Seq<SpecTypedStatement>,
    st: Lowering,
    env: Seq<Option<Value>>,
    w0: Seq<Option<u64>>,
    p: int,
)
    requires
        is_prime(p),
        p <= u64::MAX,
        ready(st, env, w0, p),
        outputs_of(s, env, p) is Some,
        lower_statements(s, st, p) is Ok,
        lower_statements(s, st, p).unwrap().next <= w0.len(),
    ensures
        run(lower_statements(s, st, p).unwrap().statements, w0, p) is Ok,
        outputs_assigned(
            lower_statements(s, st, p).unwrap().outputs,
            ran(lower_statements(s, st, p).unwrap(), w0, p),
        ),
    decreases s.len(),
{
    let rest = s.drop_first();
    match s[0] {
        SpecTypedStatement::Return(es) => {
            lemma_return_runs(es, st, env, w0, p);
        },
        SpecTypedStatement::Definition(id, e) => {
            let next = lower_definition(id, e, st, p).unwrap();
            lemma_lower_statement_wf(s[0], st, p);
            lemma_lower_statements_wf(rest, next, p);
            lemma_definition_runs(id, e, st, env, w0, p);
            lemma_statements_run(rest, next, perform(s[0], env, p).unwrap(), w0, p);
        },
        SpecTypedStatement::Condition(a, b) => {
            let next = lower_condition(a, b, st, p).unwrap();
            lemma_lower_statement_wf(s[0], st, p);
            lemma_lower_statements_wf(rest, next, p);
            lemma_condition_runs(a, b, st, env, w0, p);
            lemma_statements_run(rest, next, env, w0, p);
        },
        SpecTypedStatement::Log(_) => {
            lemma_statements_run(rest, st, env, w0, p);
        },
        _ => {},
    }
}

} // verus!

verus! {

/// The constraints on the parameters hold of arguments of their kinds,
/// and leave everything as it is.
proof fn lemma_parameters_run(
    parameters: Seq<Parameter>,
    k: int,
    arguments: Seq<Value>,
    st: Lowering,
    env: Seq<Option<Value>>,
    w0: Seq<Option<u64>>,
    p: int,
)
    requires
        2 <= p <= u64::MAX,
        0 <= k <= parameters.len(),
        arguments.len() == parameters.len(),
        st.next == k + 1,
        parameters.len() < w0.len() <= usize::MAX,
        within(w0, p),
        has_one(w0),
        run(st.statements, w0, p) == Ok::<Seq<Option<u64>>, ExecutionError>(w0),
        forall|j: int|
            0 <= j < arguments.len() ==> value_at(w0, flat_variable(j + 1)) == Some(
                encode(#[trigger] arguments[j]),
            ),
        lower_parameters(parameters, k, st, p) is Ok,
        bind_arguments(parameters, k, arguments, env) is Some,
    ensures
        run(lower_parameters(parameters, k, st, p).unwrap().statements, w0, p) == Ok::<
            Seq<Option<u64>>,
            ExecutionError,
        >(w0),
        lower_parameters(parameters, k, st, p).unwrap().outputs == st.outputs,
    decreases parameters.len() - k,
{
    if k < parameters.len() {
        let id = parameters[k].id;
        let c = boolean_constraint(st.next, p);
        let next = Lowering {
            layout: st.layout.update(id.id as int, Some(single(st.next))),
            next: st.next + 1,
            statements: if parameters[k].kind == Kind::Boolean {
                st.statements.push(c)
            } else {
                st.statements
            },
            outputs: st.outputs,
        };
        if parameters[k].kind == Kind::Boolean {
            let v = flat_variable(k + 1);
            assert(value_at(w0, v) == Some(encode(arguments[k])));
            assert(of_kind(arguments[k], parameters[k].kind));
            lemma_eval_single(v, w0, p);
            lemma_eval_complement(single(st.next), w0, p);
            lemma_small_mod(0, p as nat);
            lemma_small_mod(1, p as nat);
            assert(eval(Seq::<Term>::empty(), w0, p) == Some(0u64)) by {
                assert(sum(Seq::<Term>::empty(), w0) == 0);
            }
            let b = encode(arguments[k]) as int;
            if b == 0 {
                assert(0 * ((1 - 0) % p) == 0);
            } else {
                assert(1 * 0 == 0);
            }
            assert(apply(c, w0, p) == Ok::<Seq<Option<u64>>, Reason>(w0));
            lemma_run_push(st.statements, c, w0, p);
        }
        lemma_parameters_run(
            parameters,
            k + 1,
            arguments,
            next,
            env.update(id.id as int, Some(arguments[k])),
            w0,
            p,
        );
    }
}

/// The lowering is complete over a prime field: where the main
/// function of a program returns values on some arguments, the flat
/// program runs to its end on these arguments as inputs.
pub proof fn flattening_is_complete(
    program: SpecTypedProgram,
    arguments: Seq<Value>,
    inputs: Seq<u64>,
)
    requires
        program.wf(),
        is_prime(program.field.modulus as int),
        flattened(program) is Ok,
        forall|j: int|
            0 <= j < arguments.len() ==> value_within(
                #[trigger] arguments[j],
                program.field.modulus as int,
            ),
        inputs == encode_each(arguments),
        meaning(program.main_function(), arguments, program.field.modulus as int) is Some,
    ensures
        execution(flattened(program).unwrap(), inputs) is Ok,
{
    let main = program.main_function();
    let p = program.field.modulus as int;
    let flat_program = flattened(program).unwrap();
    let n = flat_program.variable_count as int;
    let w0 = initial(n, inputs);
    let begin = start(main.variable_count as int);
    let bound_state = lower_parameters(main.parameters, 0, begin, p).unwrap();
    let done = lower_statements(main.statements, bound_state, p).unwrap();
    let env0 = empty_env(main.variable_count as int);
    lemma_flattened_wf(program);
    assert(lowering_wf(begin, p));
    lemma_lower_parameters_wf(main.parameters, 0, begin, p);
    lemma_lower_statements_wf(main.statements, bound_state, p);
    assert(inputs.len() == flat_program.private.len());
    assert forall|i: int| 0 <= i < inputs.len() implies (#[trigger] inputs[i]) < p by {
        assert(value_within(arguments[i], p));
    }
    lemma_initial(n, inputs, p);
    assert(run(begin.statements, w0, p) == Ok::<Seq<Option<u64>>, ExecutionError>(w0));
    assert forall|j: int| 0 <= j < arguments.len() implies value_at(w0, flat_variable(j + 1))
        == Some(encode(#[trigger] arguments[j])) by {
        assert(w0[j + 1] == Some(inputs[j]));
    }
    lemma_parameters_run(main.parameters, 0, arguments, begin, env0, w0, p);
    assert(crate::flatten::soundness::represents(begin.layout, env0, ran(begin, w0, p), p));
    lemma_parameters_sound(main.parameters, 0, arguments, begin, env0, w0, p);
    let env = bind_arguments(main.parameters, 0, arguments, env0).unwrap();
    assert(ready(bound_state, env, w0, p));
    lemma_statements_run(main.statements, bound_state, env, w0, p);
}

/// Over a prime field the flat program computes what the typed program
/// means: where the main function of a program returns values on some
/// arguments, the flat program runs to its end on these arguments as
/// inputs, and returns the field elements that stand for the values.
pub proof fn flattening_agrees_with_meaning(
    program: SpecTypedProgram,
    arguments: Seq<Value>,
    inputs: Seq<u64>,
)
    requires
        program.wf(),
        is_prime(program.field.modulus as int),
        flattened(program) is Ok,
        forall|j: int|
            0 <= j < arguments.len() ==> value_within(
                #[trigger] arguments[j],
                program.field.modulus as int,
            ),
        inputs == encode_each(arguments),
        meaning(program.main_function(), arguments, program.field.modulus as int) is Some,
    ensures
        execution(flattened(program).unwrap(), inputs) is Ok,
        crate::ir::interpreter::returned(
            flattened(program).unwrap().outputs,
            execution(flattened(program).unwrap(), inputs).unwrap(),
        ) == encode_each(
            meaning(program.main_function(), arguments, program.field.modulus as int).unwrap(),
        ),
{
    flattening_is_complete(program, arguments, inputs);
    crate::flatten::program::flattening_of_programs_is_sound(program, arguments, inputs);
}

} // verus!
