//! The lowering of expressions is sound: what the flat statements compute
//! is what the typed expression means.

use crate::field::{inverse_of, invertible};
use crate::flatten::{
    bits_sum, booleans, bound, choice, combine, decomposition, flat, nonzero, product, quotient,
    shifted_difference,
};
use crate::ir::interpreter::{
    lemma_apply_within, lemma_run_concat, lemma_run_constraints, lemma_run_extends, lemma_run_one,
    part_of, run,
};
use crate::ir::lincomb::{
    complement, constant_terms, constant_value, difference, eval, has_one, is_constant,
    lemma_eval_complement, lemma_eval_constant, lemma_eval_difference, lemma_eval_extends,
    lemma_eval_merge, lemma_eval_scaled, lemma_eval_single, merge, single, sum, term_value,
    value_at, within, Term, Variable,
};
use crate::ir::statement::{apply, assign_bits, bit, halved, SpecDirective, SpecStatement};
use crate::typed_absy::{
    choose_branch, encode, env_within, evaluate, lemma_evaluate_within, lemma_width, lookup,
    operate, two_to, width, Expression, Identifier, Operator, Value,
};
use vstd::arithmetic::div_mod::{
    lemma_mod_bound, lemma_mul_mod_noop_left, lemma_small_mod, lemma_sub_mod_noop,
};
use vstd::prelude::*;

verus! {

/// Under `w`, the combination of every typed variable that has a value
/// evaluates to the field element that stands for that value.
pub open spec fn represents(
    layout: Seq<Option<Seq<Term>>>,
    env: Seq<Option<Value>>,
    w: Seq<Option<u64>>,
    p: int,
) -> bool {
    forall|id: Identifier|
        (#[trigger] bound(layout, id)) is Some && lookup(env, id) is Some ==> eval(
            bound(layout, id).unwrap(),
            w,
            p,
        ) == Some(encode(lookup(env, id).unwrap()))
}

/// What represents an environment goes on doing so when values are added.
pub proof fn lemma_represents_extends(
    layout: Seq<Option<Seq<Term>>>,
    env: Seq<Option<Value>>,
    w: Seq<Option<u64>>,
    more: Seq<Option<u64>>,
    p: int,
)
    requires
        represents(layout, env, w, p),
        part_of(w, more),
    ensures
        represents(layout, env, more, p),
{
    assert forall|id: Identifier|
        (#[trigger] bound(layout, id)) is Some && lookup(env, id) is Some implies eval(
        bound(layout, id).unwrap(),
        more,
        p,
    ) == Some(encode(lookup(env, id).unwrap())) by {
        lemma_eval_extends(bound(layout, id).unwrap(), w, more, p);
    }
}

pub proof fn lemma_part_of_transitive(a: Seq<Option<u64>>, b: Seq<Option<u64>>, c: Seq<Option<u64>>)
    requires
        part_of(a, b),
        part_of(b, c),
    ensures
        part_of(a, c),
{
    assert forall|id: int| 0 <= id < a.len() && (#[trigger] a[id]) is Some implies a[id] == c[id] by {
        assert(b[id] is Some);
    }
}

pub proof fn lemma_has_one_extends(w: Seq<Option<u64>>, more: Seq<Option<u64>>)
    requires
        has_one(w),
        part_of(w, more),
    ensures
        has_one(more),
{
    assert(w[0] is Some);
}

/// The value of a constant combination is its constant, reduced.
proof fn lemma_eval_is_constant(t: Seq<Term>, w: Seq<Option<u64>>, p: int)
    requires
        0 < p <= u64::MAX,
        is_constant(t),
        has_one(w),
    ensures
        eval(t, w, p) == Some((constant_value(t) % p) as u64),
{
    lemma_mod_bound(constant_value(t), p);
    if t.len() == 0 {
    } else {
        assert(t[0].var == Variable { id: 0 });
        assert(t.drop_first() == Seq::<Term>::empty());
        assert(sum(t.drop_first(), w) == 0);
        assert(term_value(t[0], w) == t[0].coeff * 1);
    }
}

/// The product gadget gives its variable the product.
proof fn lemma_product_sound(a: Seq<Term>, b: Seq<Term>, v: int, w: Seq<Option<u64>>, p: int)
    requires
        2 <= p <= u64::MAX,
        0 <= v <= usize::MAX,
        within(w, p),
        eval(a, w, p) is Some,
        eval(b, w, p) is Some,
        run(product(a, b, v), w, p) is Ok,
    ensures
        eval(single(v), run(product(a, b, v), w, p).unwrap(), p) == Some(
            ((eval(a, w, p).unwrap() * eval(b, w, p).unwrap()) % p) as u64,
        ),
        part_of(w, run(product(a, b, v), w, p).unwrap()),
        within(run(product(a, b, v), w, p).unwrap(), p),
{
    let s = product(a, b, v);
    let first = seq![s[0]];
    let second = seq![s[1]];
    assert(s == first + second);
    lemma_run_concat(first, second, w, p);
    lemma_run_one(s[0], w, p);
    let w1 = apply(s[0], w, p).unwrap();
    lemma_run_one(s[1], w1, p);
    lemma_run_extends(s, w, p);
    lemma_apply_within(s[0], w, p);
    lemma_eval_single(Variable { id: v as usize }, w1, p);
}

/// The quotient gadget gives its variable the quotient.
proof fn lemma_quotient_sound(a: Seq<Term>, b: Seq<Term>, v: int, w: Seq<Option<u64>>, p: int)
    requires
        2 <= p <= u64::MAX,
        0 <= v <= usize::MAX,
        within(w, p),
        eval(a, w, p) is Some,
        eval(b, w, p) is Some,
        run(quotient(a, b, v), w, p) is Ok,
    ensures
        invertible(eval(b, w, p).unwrap() as int, p),
        eval(single(v), run(quotient(a, b, v), w, p).unwrap(), p) == Some(
            ((eval(a, w, p).unwrap() * inverse_of(eval(b, w, p).unwrap() as int, p)) % p) as u64,
        ),
        part_of(w, run(quotient(a, b, v), w, p).unwrap()),
        within(run(quotient(a, b, v), w, p).unwrap(), p),
{
    let s = quotient(a, b, v);
    let first = seq![s[0]];
    let second = seq![s[1]];
    assert(s == first + second);
    lemma_run_concat(first, second, w, p);
    lemma_run_one(s[0], w, p);
    let w1 = apply(s[0], w, p).unwrap();
    lemma_run_one(s[1], w1, p);
    lemma_run_extends(s, w, p);
    lemma_apply_within(s[0], w, p);
    lemma_eval_single(Variable { id: v as usize }, w1, p);
}

/// The gadget for zero tests: the complement of its variable is 1 where
/// the combination is zero and 0 elsewhere.
proof fn lemma_nonzero_sound(d: Seq<Term>, v: int, w: Seq<Option<u64>>, p: int)
    requires
        2 <= p <= u64::MAX,
        0 <= v < usize::MAX,
        within(w, p),
        has_one(w),
        eval(d, w, p) is Some,
        run(nonzero(d, v, p), w, p) is Ok,
    ensures
        eval(complement(single(v), p), run(nonzero(d, v, p), w, p).unwrap(), p) == Some(
            if eval(d, w, p).unwrap() == 0 {
                1u64
            } else {
                0u64
            },
        ),
        part_of(w, run(nonzero(d, v, p), w, p).unwrap()),
        within(run(nonzero(d, v, p), w, p).unwrap(), p),
{
    let s = nonzero(d, v, p);
    let first = seq![s[0]];
    let rest = seq![s[1], s[2]];
    assert(s == first + rest);
    lemma_run_concat(first, rest, w, p);
    lemma_run_one(s[0], w, p);
    let w1 = apply(s[0], w, p).unwrap();
    assert(rest == seq![s[1]] + seq![s[2]]);
    lemma_run_concat(seq![s[1]], seq![s[2]], w1, p);
    lemma_run_one(s[1], w1, p);
    lemma_run_one(s[2], w1, p);
    lemma_run_extends(s, w, p);
    lemma_apply_within(s[0], w, p);
    lemma_has_one_extends(w, w1);
    let flag = Variable { id: v as usize };
    lemma_eval_single(flag, w1, p);
    lemma_eval_complement(single(v), w1, p);
    let z = eval(d, w, p).unwrap();
    if z == 0 {
        assert(value_at(w1, flag) == Some(0u64));
        lemma_small_mod(1, p as nat);
    } else {
        assert(value_at(w1, flag) == Some(1u64));
        lemma_small_mod(0, p as nat);
    }
}

} // verus!

verus! {

/// Two reduced field elements are equal exactly when their difference
/// is zero.
proof fn lemma_difference_zero(x: int, y: int, p: int)
    requires
        0 <= x < p,
        0 <= y < p,
    ensures
        ((x - y) % p == 0) == (x == y),
{
    if x >= y {
        lemma_small_mod((x - y) as nat, p as nat);
    } else {
        vstd::arithmetic::div_mod::lemma_mod_add_multiples_vanish(x - y, p);
        lemma_small_mod((x - y + p) as nat, p as nat);
    }
}

/// Halving `n` times is dividing by two to the power of `n`.
pub proof fn lemma_halved(x: int, n: int)
    requires
        0 <= x,
        0 <= n,
    ensures
        halved(x, n) == x / two_to(n),
        two_to(n) >= 1,
    decreases n,
{
    if n > 0 {
        lemma_halved(x, n - 1);
        vstd::arithmetic::div_mod::lemma_div_denominator(x, two_to(n - 1), 2);
        assert(two_to(n - 1) * 2 == two_to(n));
    }
}

/// The bit above `n` bits tells whether a number below two to the
/// power of `n + 1` reaches two to the power of `n`.
proof fn lemma_top_bit(d: int, n: int)
    requires
        0 <= n,
        0 <= d < two_to(n + 1),
    ensures
        bit(d, n) == (if d >= two_to(n) {
            1u64
        } else {
            0u64
        }),
        halved(d, n + 1) == 0,
{
    lemma_halved(d, n);
    lemma_halved(d, n + 1);
    let t = two_to(n);
    if d < t {
        vstd::arithmetic::div_mod::lemma_basic_div(d, t);
    } else {
        vstd::arithmetic::div_mod::lemma_fundamental_div_mod_converse(d, t, 1, d - t);
    }
    vstd::arithmetic::div_mod::lemma_basic_div(d, two_to(n + 1));
}

/// What a decomposition leaves: the variables hold the bits of the
/// combination, which fits them.
proof fn lemma_decomposition(t: Seq<Term>, first: int, count: int, w: Seq<Option<u64>>, p: int)
    requires
        0 <= first,
        0 <= count,
        first + count <= usize::MAX,
        eval(t, w, p) is Some,
        run(decomposition(t, first, count, p), w, p) is Ok,
    ensures
        halved(eval(t, w, p).unwrap() as int, count) == 0,
        assign_bits(w, Variable { id: first as usize }, count, eval(t, w, p).unwrap() as int) is Ok,
        run(decomposition(t, first, count, p), w, p).unwrap() == assign_bits(
            w,
            Variable { id: first as usize },
            count,
            eval(t, w, p).unwrap() as int,
        ).unwrap(),
{
    let directive = SpecStatement::Directive(
        SpecDirective::Bits(Variable { id: first as usize }, count as usize, t),
    );
    let checks = booleans(first, count, p);
    let total = SpecStatement::Constraint(bits_sum(first, count), constant_terms(1), t);
    assert(decomposition(t, first, count, p) == (seq![directive] + checks) + seq![total]);
    lemma_run_concat(seq![directive] + checks, seq![total], w, p);
    lemma_run_concat(seq![directive], checks, w, p);
    lemma_run_one(directive, w, p);
    let w1 = apply(directive, w, p).unwrap();
    lemma_run_constraints(checks, w1, p);
    assert(seq![total][0] == total);
    lemma_run_constraints(seq![total], w1, p);
}

/// What a comparison lowers to computes the comparison.
proof fn lemma_less_sound(
    a: Seq<Term>,
    b: Seq<Term>,
    next: int,
    p: int,
    w: Seq<Option<u64>>,
    x: int,
    y: int,
)
    requires
        2 <= p <= u64::MAX,
        0 <= next,
        within(w, p),
        has_one(w),
        eval(a, w, p) == Some(x as u64),
        eval(b, w, p) == Some(y as u64),
        0 <= x < two_to(width(p)),
        0 <= y < two_to(width(p)),
        combine(Operator::Lt, a, b, next, p) is Ok,
        run(combine(Operator::Lt, a, b, next, p).unwrap().statements, w, p) is Ok,
    ensures
        eval(
            combine(Operator::Lt, a, b, next, p).unwrap().result,
            run(combine(Operator::Lt, a, b, next, p).unwrap().statements, w, p).unwrap(),
            p,
        ) == Some(
            if x < y {
                1u64
            } else {
                0u64
            },
        ),
{
    reveal(combine);
    let n = width(p);
    lemma_width(p);
    let bound_n = two_to(n);
    assert(two_to(n + 1) == 2 * bound_n);
    let moved = shifted_difference(a, b, n, p);
    let first = decomposition(a, next, n, p);
    let second = decomposition(b, next + n, n, p);
    let third = decomposition(moved, next + 2 * n, n + 1, p);
    let all = first + second + third;
    lemma_run_concat(first + second, third, w, p);
    lemma_run_extends(first + second, w, p);
    let wb = run(first + second, w, p).unwrap();
    lemma_has_one_extends(w, wb);
    lemma_eval_extends(a, w, wb, p);
    lemma_eval_extends(b, w, wb, p);
    // the difference, moved up, does not wrap around the modulus
    lemma_eval_difference(a, b, wb, p);
    lemma_eval_constant(bound_n, wb, p);
    lemma_eval_merge(difference(a, b, p), constant_terms(bound_n), wb, p);
    vstd::arithmetic::div_mod::lemma_add_mod_noop(x - y, bound_n, p);
    lemma_small_mod(bound_n as nat, p as nat);
    let d = x - y + bound_n;
    lemma_small_mod(d as nat, p as nat);
    lemma_mod_bound(x - y, p);
    assert(eval(moved, wb, p) == Some(d as u64));
    // its bits
    lemma_decomposition(moved, next + 2 * n, n + 1, wb, p);
    let top = Variable { id: (next + 3 * n) as usize };
    let w2 = run(all, w, p).unwrap();
    crate::ir::interpreter::lemma_assign_bits_frame(
        wb,
        Variable { id: (next + 2 * n) as usize },
        n + 1,
        d,
    );
    assert(w2[(next + 2 * n) + n] == Some(bit(d, n)));
    lemma_top_bit(d, n);
    lemma_run_extends(third, wb, p);
    lemma_has_one_extends(wb, w2);
    lemma_eval_single(top, w2, p);
    lemma_eval_complement(single(next + 3 * n), w2, p);
    lemma_small_mod(0, p as nat);
    lemma_small_mod(1, p as nat);
}

/// What an operator lowers to computes the value of the operator.
proof fn lemma_combine_sound(
    op: Operator,
    a: Seq<Term>,
    b: Seq<Term>,
    next: int,
    p: int,
    w: Seq<Option<u64>>,
    x: Value,
    y: Value,
)
    requires
        2 <= p <= u64::MAX,
        0 <= next,
        within(w, p),
        has_one(w),
        eval(a, w, p) == Some(encode(x)),
        eval(b, w, p) == Some(encode(y)),
        operate(op, x, y, p) is Some,
        combine(op, a, b, next, p) is Ok,
        run(combine(op, a, b, next, p).unwrap().statements, w, p) is Ok,
    ensures
        eval(
            combine(op, a, b, next, p).unwrap().result,
            run(combine(op, a, b, next, p).unwrap().statements, w, p).unwrap(),
            p,
        ) == Some(encode(operate(op, x, y, p).unwrap())),
        part_of(w, run(combine(op, a, b, next, p).unwrap().statements, w, p).unwrap()),
        within(run(combine(op, a, b, next, p).unwrap().statements, w, p).unwrap(), p),
        combine(op, a, b, next, p).unwrap().next >= next,
{
    reveal(combine);
    lemma_width(p);
    let f = combine(op, a, b, next, p).unwrap();
    let w2 = run(f.statements, w, p).unwrap();
    let xv = encode(x) as int;
    let yv = encode(y) as int;
    lemma_run_extends(f.statements, w, p);
    if f.statements.len() > 0 {
        lemma_run_one(f.statements[0], w, p);
    }
    match op {
        Operator::Add => {
            lemma_eval_merge(a, b, w, p);
        },
        Operator::Sub => {
            lemma_eval_difference(a, b, w, p);
        },
        Operator::Mult => {
            if is_constant(a) {
                lemma_eval_is_constant(a, w, p);
                lemma_eval_scaled(b, constant_value(a), w, p);
                lemma_mul_mod_noop_left(constant_value(a), yv, p);
            } else if is_constant(b) {
                lemma_eval_is_constant(b, w, p);
                lemma_eval_scaled(a, constant_value(b), w, p);
                lemma_mul_mod_noop_left(constant_value(b), xv, p);
                assert(xv * yv == yv * xv) by (nonlinear_arith);
            } else {
                lemma_product_sound(a, b, next, w, p);
            }
        },
        Operator::Div => {
            lemma_quotient_sound(a, b, next, w, p);
        },
        Operator::Eq => {
            let d = difference(a, b, p);
            lemma_eval_difference(a, b, w, p);
            lemma_nonzero_sound(d, next, w, p);
            lemma_difference_zero(xv, yv, p);
            lemma_mod_bound(xv - yv, p);
        },
        Operator::Lt => {
            lemma_less_sound(a, b, next, p, w, xv, yv);
        },
        Operator::And => {
            lemma_product_sound(a, b, next, w, p);
            lemma_small_mod(0, p as nat);
            lemma_small_mod(1, p as nat);
            assert(xv * yv == if xv == 1 && yv == 1 {
                1int
            } else {
                0int
            }) by (nonlinear_arith)
                requires
                    0 <= xv <= 1,
                    0 <= yv <= 1,
            ;
        },
        Operator::Or => {
            lemma_product_sound(a, b, next, w, p);
            lemma_eval_extends(a, w, w2, p);
            lemma_eval_extends(b, w, w2, p);
            lemma_eval_merge(a, b, w2, p);
            lemma_eval_difference(merge(a, b, p), single(next), w2, p);
            lemma_sub_mod_noop(xv + yv, xv * yv, p);
            assert(xv * yv == if xv == 1 && yv == 1 {
                1int
            } else {
                0int
            }) by (nonlinear_arith)
                requires
                    0 <= xv <= 1,
                    0 <= yv <= 1,
            ;
            lemma_small_mod(0, p as nat);
            lemma_small_mod(1, p as nat);
        },
    }
}

/// What a choice lowers to computes the chosen branch.
proof fn lemma_choice_sound(
    c: Seq<Term>,
    a: Seq<Term>,
    b: Seq<Term>,
    next: int,
    p: int,
    w: Seq<Option<u64>>,
    t: Value,
    x: Value,
    y: Value,
)
    requires
        2 <= p <= u64::MAX,
        0 <= next,
        within(w, p),
        has_one(w),
        eval(c, w, p) == Some(encode(t)),
        eval(a, w, p) == Some(encode(x)),
        eval(b, w, p) == Some(encode(y)),
        choose_branch(t, x, y) is Some,
        choice(c, a, b, next, p) is Ok,
        run(choice(c, a, b, next, p).unwrap().statements, w, p) is Ok,
    ensures
        eval(
            choice(c, a, b, next, p).unwrap().result,
            run(choice(c, a, b, next, p).unwrap().statements, w, p).unwrap(),
            p,
        ) == Some(encode(choose_branch(t, x, y).unwrap())),
        part_of(w, run(choice(c, a, b, next, p).unwrap().statements, w, p).unwrap()),
        within(run(choice(c, a, b, next, p).unwrap().statements, w, p).unwrap(), p),
{
    let f = choice(c, a, b, next, p).unwrap();
    let first = product(c, a, next);
    let second = product(complement(c, p), b, next + 1);
    let w2 = run(f.statements, w, p).unwrap();
    let tv = encode(t) as int;
    let xv = encode(x) as int;
    let yv = encode(y) as int;
    lemma_run_concat(first, second, w, p);
    let w1 = run(first, w, p).unwrap();
    lemma_product_sound(c, a, next, w, p);
    lemma_has_one_extends(w, w1);
    lemma_eval_extends(c, w, w1, p);
    lemma_eval_extends(b, w, w1, p);
    lemma_eval_complement(c, w1, p);
    lemma_product_sound(complement(c, p), b, next + 1, w1, p);
    lemma_part_of_transitive(w, w1, w2);
    lemma_eval_extends(single(next), w1, w2, p);
    lemma_eval_merge(single(next), single(next + 1), w2, p);
    lemma_small_mod(0, p as nat);
    lemma_small_mod(1, p as nat);
    lemma_small_mod(xv as nat, p as nat);
    lemma_small_mod(yv as nat, p as nat);
    if tv == 1 {
        assert(tv * xv == xv) by (nonlinear_arith)
            requires
                tv == 1,
        ;
        assert(0 * yv == 0);
    } else {
        assert(tv * xv == 0) by (nonlinear_arith)
            requires
                tv == 0,
        ;
        assert(1 * yv == yv);
    }
}

/// Lowering is sound. Take an expression that has a value under `env`,
/// and an assignment `w` under which the layout represents `env`. If the
/// statements that the expression lowers to run to the end from `w`, the
/// combination they leave evaluates to the field element that stands for
/// the expression's value. The run only adds to `w`.
pub proof fn flattening_is_sound(
    e: Expression,
    layout: Seq<Option<Seq<Term>>>,
    next: int,
    p: int,
    env: Seq<Option<Value>>,
    w: Seq<Option<u64>>,
)
    requires
        2 <= p <= u64::MAX,
        0 <= next,
        env_within(env, p),
        within(w, p),
        has_one(w),
        represents(layout, env, w, p),
        evaluate(e, env, p) is Some,
        flat(e, layout, next, p) is Ok,
        run(flat(e, layout, next, p).unwrap().statements, w, p) is Ok,
    ensures
        eval(
            flat(e, layout, next, p).unwrap().result,
            run(flat(e, layout, next, p).unwrap().statements, w, p).unwrap(),
            p,
        ) == Some(encode(evaluate(e, env, p).unwrap())),
        part_of(w, run(flat(e, layout, next, p).unwrap().statements, w, p).unwrap()),
        within(run(flat(e, layout, next, p).unwrap().statements, w, p).unwrap(), p),
        flat(e, layout, next, p).unwrap().next >= next,
    decreases e,
{
    let f = flat(e, layout, next, p).unwrap();
    let w2 = run(f.statements, w, p).unwrap();
    lemma_run_extends(f.statements, w, p);
    lemma_evaluate_within(e, env, p);
    match e {
        Expression::Number(c) => {
            lemma_mod_bound(c as int, p);
            lemma_eval_constant(c as int % p, w, p);
        },
        Expression::Boolean(b) => {
            lemma_eval_constant(1, w, p);
            lemma_eval_constant(0, w, p);
        },
        Expression::Variable(id) => {},
        Expression::Flag(id) => {},
        Expression::Binary(op, a, b) => {
            let fa = flat(*a, layout, next, p).unwrap();
            let fb = flat(*b, layout, fa.next, p).unwrap();
            let fo = combine(op, fa.result, fb.result, fb.next, p).unwrap();
            let x = evaluate(*a, env, p).unwrap();
            let y = evaluate(*b, env, p).unwrap();
            lemma_run_concat(fa.statements + fb.statements, fo.statements, w, p);
            lemma_run_concat(fa.statements, fb.statements, w, p);
            let wa = run(fa.statements, w, p).unwrap();
            let wb = run(fb.statements, wa, p).unwrap();
            flattening_is_sound(*a, layout, next, p, env, w);
            lemma_represents_extends(layout, env, w, wa, p);
            lemma_has_one_extends(w, wa);
            flattening_is_sound(*b, layout, fa.next, p, env, wa);
            lemma_has_one_extends(wa, wb);
            lemma_eval_extends(fa.result, wa, wb, p);
            lemma_combine_sound(op, fa.result, fb.result, fb.next, p, wb, x, y);
        },
        Expression::Not(a) => {
            let fa = flat(*a, layout, next, p).unwrap();
            let x = evaluate(*a, env, p).unwrap();
            flattening_is_sound(*a, layout, next, p, env, w);
            lemma_has_one_extends(w, w2);
            lemma_eval_complement(fa.result, w2, p);
            lemma_small_mod(0, p as nat);
            lemma_small_mod(1, p as nat);
        },
        Expression::IfElse(c, a, b) => {
            let fc = flat(*c, layout, next, p).unwrap();
            let fa = flat(*a, layout, fc.next, p).unwrap();
            let fb = flat(*b, layout, fa.next, p).unwrap();
            let fo = choice(fc.result, fa.result, fb.result, fb.next, p).unwrap();
            let t = evaluate(*c, env, p).unwrap();
            let x = evaluate(*a, env, p).unwrap();
            let y = evaluate(*b, env, p).unwrap();
            lemma_run_concat(fc.statements + fa.statements + fb.statements, fo.statements, w, p);
            lemma_run_concat(fc.statements + fa.statements, fb.statements, w, p);
            lemma_run_concat(fc.statements, fa.statements, w, p);
            let wc = run(fc.statements, w, p).unwrap();
            let wa = run(fa.statements, wc, p).unwrap();
            let wb = run(fb.statements, wa, p).unwrap();
            flattening_is_sound(*c, layout, next, p, env, w);
            lemma_represents_extends(layout, env, w, wc, p);
            lemma_has_one_extends(w, wc);
            flattening_is_sound(*a, layout, fc.next, p, env, wc);
            lemma_represents_extends(layout, env, wc, wa, p);
            lemma_has_one_extends(wc, wa);
            flattening_is_sound(*b, layout, fa.next, p, env, wa);
            lemma_has_one_extends(wa, wb);
            lemma_part_of_transitive(wc, wa, wb);
            lemma_eval_extends(fc.result, wc, wb, p);
            lemma_eval_extends(fa.result, wa, wb, p);
            lemma_choice_sound(fc.result, fa.result, fb.result, fb.next, p, wb, t, x, y);
        },
    }
}

} // verus!
