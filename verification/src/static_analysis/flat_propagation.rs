//! Constant folding and copy propagation in flat programs.
//!
//! The statements are visited in order. A definition whose right-hand
//! side has become a constant or a single variable is remembered and
//! dropped, and every later mention of the variable is replaced. A
//! directive on constants is computed at once. A constraint between
//! constants that holds is dropped. The definitions of outputs stay.

use crate::field::{inverse_of, invertible, lemma_inverse_of, Field};
use crate::ir::lincomb::{
    canonical, constant_of, constant_terms, constant_value, is_constant, lemma_merge_canonical,
    lemma_merge_vars_below, lemma_scaled_canonical, lemma_scaled_vars_below, merge, replacements,
    scaled, LinComb, Term, Variable,
};
use crate::ir::program::{output_marks, statements_view, Program, SpecProgram};
use crate::ir::statement::{
    linear_wf, statement_wf, Directive, SpecDirective, SpecStatement, Statement,
};
use vstd::arithmetic::div_mod::{lemma_mod_bound, lemma_small_mod};
use vstd::prelude::*;

verus! {

/// What a term becomes: the multiple of what replaces its variable, or
/// the term itself.
pub open spec fn image(x: Term, sub: Seq<Option<Seq<Term>>>, p: int) -> Seq<Term> {
    if x.var.id < sub.len() && sub[x.var.id as int] is Some {
        scaled(sub[x.var.id as int].unwrap(), x.coeff as int, p)
    } else {
        seq![x]
    }
}

/// The combination with every replaced variable substituted.
pub open spec fn substitute(t: Seq<Term>, sub: Seq<Option<Seq<Term>>>, p: int) -> Seq<Term>
    decreases t.len(),
{
    if t.len() == 0 {
        Seq::<Term>::empty()
    } else {
        merge(substitute(t.drop_last(), sub, p), image(t.last(), sub, p), p)
    }
}

/// The statement with every combination substituted.
pub open spec fn rewrite(s: SpecStatement, sub: Seq<Option<Seq<Term>>>, p: int) -> SpecStatement {
    match s {
        SpecStatement::Definition(v, e) => SpecStatement::Definition(v, substitute(e, sub, p)),
        SpecStatement::Constraint(a, b, c) => SpecStatement::Constraint(
            substitute(a, sub, p),
            substitute(b, sub, p),
            substitute(c, sub, p),
        ),
        SpecStatement::Directive(d) => SpecStatement::Directive(
            match d {
                SpecDirective::Product(o, a, b) => SpecDirective::Product(
                    o,
                    substitute(a, sub, p),
                    substitute(b, sub, p),
                ),
                SpecDirective::Quotient(o, a, b) => SpecDirective::Quotient(
                    o,
                    substitute(a, sub, p),
                    substitute(b, sub, p),
                ),
                SpecDirective::NonZero(f, i, x) => SpecDirective::NonZero(f, i, substitute(x, sub, p)),
                SpecDirective::Bits(f, count, x) => SpecDirective::Bits(
                    f,
                    count,
                    substitute(x, sub, p),
                ),
            },
        ),
    }
}

/// A constant, or a single variable with coefficient one.
pub open spec fn is_simple(t: Seq<Term>) -> bool {
    is_constant(t) || (t.len() == 1 && t[0].coeff == 1)
}

/// The variable is known and is no output.
pub open spec fn droppable(v: Variable, protected: Seq<bool>) -> bool {
    v.id < protected.len() && !protected[v.id as int]
}

/// Whether a substituted statement can be dropped: all it does is known.
pub open spec fn foldable(s: SpecStatement, protected: Seq<bool>, p: int) -> bool {
    match s {
        SpecStatement::Definition(v, e) => is_simple(e) && droppable(v, protected),
        SpecStatement::Constraint(a, b, c) => is_constant(a) && is_constant(b) && is_constant(c) && (
        constant_value(a) * constant_value(b)) % p == constant_value(c),
        SpecStatement::Directive(d) => match d {
            SpecDirective::Product(o, a, b) => is_constant(a) && is_constant(b) && droppable(
                o,
                protected,
            ),
            SpecDirective::Quotient(o, a, b) => is_constant(a) && is_constant(b) && invertible(
                constant_value(b),
                p,
            ) && droppable(o, protected),
            SpecDirective::NonZero(f, i, x) => is_constant(x) && (constant_value(x) == 0
                || invertible(constant_value(x), p)) && droppable(f, protected) && droppable(
                i,
                protected,
            ),
            SpecDirective::Bits(_, _, _) => false,
        },
    }
}

/// The substitution with `v` replaced by `e`.
pub open spec fn bind(sub: Seq<Option<Seq<Term>>>, v: Variable, e: Seq<Term>) -> Seq<
    Option<Seq<Term>>,
> {
    if v.id < sub.len() {
        sub.update(v.id as int, Some(e))
    } else {
        sub
    }
}

/// What is remembered of a statement that is dropped.
pub open spec fn record(s: SpecStatement, sub: Seq<Option<Seq<Term>>>, p: int) -> Seq<
    Option<Seq<Term>>,
> {
    match s {
        SpecStatement::Definition(v, e) => bind(sub, v, e),
        SpecStatement::Constraint(_, _, _) => sub,
        SpecStatement::Directive(d) => match d {
            SpecDirective::Product(o, a, b) => bind(
                sub,
                o,
                constant_terms((constant_value(a) * constant_value(b)) % p),
            ),
            SpecDirective::Quotient(o, a, b) => bind(
                sub,
                o,
                constant_terms((constant_value(a) * inverse_of(constant_value(b), p)) % p),
            ),
            SpecDirective::NonZero(f, i, x) => if constant_value(x) == 0 {
                bind(bind(sub, f, constant_terms(0)), i, constant_terms(0))
            } else {
                bind(
                    bind(sub, f, constant_terms(1)),
                    i,
                    constant_terms(inverse_of(constant_value(x), p)),
                )
            },
            SpecDirective::Bits(_, _, _) => sub,
        },
    }
}

/// The statements that are left, starting from what is already known.
pub open spec fn propagate_from(
    s: Seq<SpecStatement>,
    sub: Seq<Option<Seq<Term>>>,
    protected: Seq<bool>,
    p: int,
) -> Seq<SpecStatement>
    decreases s.len(),
{
    if s.len() == 0 {
        Seq::<SpecStatement>::empty()
    } else {
        let r = rewrite(s[0], sub, p);
        if foldable(r, protected, p) {
            propagate_from(s.drop_first(), record(r, sub, p), protected, p)
        } else {
            seq![r] + propagate_from(s.drop_first(), sub, protected, p)
        }
    }
}

/// The substitution that replaces nothing.
pub open spec fn nothing_known(n: int) -> Seq<Option<Seq<Term>>> {
    Seq::new(n as nat, |i: int| None::<Seq<Term>>)
}

/// The program after constant folding and copy propagation.
pub open spec fn propagated(program: SpecProgram) -> SpecProgram {
    SpecProgram {
        statements: propagate_from(
            program.statements,
            nothing_known(program.variable_count as int),
            output_marks(program.outputs, program.variable_count as int),
            program.p(),
        ),
        ..program
    }
}

/// Every replacement is canonical over the variables below `n`.
pub open spec fn substitution_wf(sub: Seq<Option<Seq<Term>>>, p: int, n: int) -> bool {
    forall|i: int|
        0 <= i < sub.len() && (#[trigger] sub[i]) is Some ==> linear_wf(sub[i].unwrap(), p, n)
}

pub proof fn lemma_image_wf(x: Term, sub: Seq<Option<Seq<Term>>>, p: int, n: int)
    requires
        0 < p <= u64::MAX,
        substitution_wf(sub, p, n),
        0 < x.coeff < p,
        x.var.id < n,
    ensures
        linear_wf(image(x, sub, p), p, n),
{
    if x.var.id < sub.len() && sub[x.var.id as int] is Some {
        let e = sub[x.var.id as int].unwrap();
        lemma_scaled_canonical(e, x.coeff as int, p, 0);
        lemma_scaled_vars_below(e, x.coeff as int, p, n);
    }
}

/// Substitution keeps combinations canonical.
pub proof fn lemma_substitute_wf(t: Seq<Term>, sub: Seq<Option<Seq<Term>>>, p: int, n: int)
    requires
        0 < p <= u64::MAX,
        substitution_wf(sub, p, n),
        linear_wf(t, p, n),
    ensures
        linear_wf(substitute(t, sub, p), p, n),
    decreases t.len(),
{
    if t.len() > 0 {
        let front = t.drop_last();
        assert forall|i: int| 0 <= i < front.len() implies 0 < (#[trigger] front[i]).coeff < p
            && front[i].var.id < n by {
            assert(front[i] == t[i]);
        }
        assert forall|i: int, j: int| 0 <= i < j < front.len() implies (#[trigger] front[i]).var.id
            < (#[trigger] front[j]).var.id by {
            assert(front[i] == t[i] && front[j] == t[j]);
        }
        lemma_substitute_wf(front, sub, p, n);
        lemma_image_wf(t.last(), sub, p, n);
        lemma_merge_canonical(substitute(front, sub, p), image(t.last(), sub, p), p, 0);
        lemma_merge_vars_below(substitute(front, sub, p), image(t.last(), sub, p), p, n);
    }
}

/// Rewriting keeps statements well formed.
pub proof fn lemma_rewrite_wf(s: SpecStatement, sub: Seq<Option<Seq<Term>>>, p: int, n: int)
    requires
        0 < p <= u64::MAX,
        substitution_wf(sub, p, n),
        statement_wf(s, p, n),
    ensures
        statement_wf(rewrite(s, sub, p), p, n),
{
    match s {
        SpecStatement::Definition(v, e) => {
            lemma_substitute_wf(e, sub, p, n);
        },
        SpecStatement::Constraint(a, b, c) => {
            lemma_substitute_wf(a, sub, p, n);
            lemma_substitute_wf(b, sub, p, n);
            lemma_substitute_wf(c, sub, p, n);
        },
        SpecStatement::Directive(d) => match d {
            SpecDirective::Product(o, a, b) => {
                lemma_substitute_wf(a, sub, p, n);
                lemma_substitute_wf(b, sub, p, n);
            },
            SpecDirective::Quotient(o, a, b) => {
                lemma_substitute_wf(a, sub, p, n);
                lemma_substitute_wf(b, sub, p, n);
            },
            SpecDirective::NonZero(f, i, x) => {
                lemma_substitute_wf(x, sub, p, n);
            },
            SpecDirective::Bits(f, count, x) => {
                lemma_substitute_wf(x, sub, p, n);
            },
        },
    }
}

/// A constant below the modulus is a canonical combination.
pub proof fn lemma_constant_wf(c: int, p: int, n: int)
    requires
        0 <= c < p <= u64::MAX,
        n > 0,
    ensures
        linear_wf(constant_terms(c), p, n),
{
    let t = constant_terms(c);
    if c != 0 {
        assert(t[0] == Term { var: Variable { id: 0 }, coeff: c as u64 });
    }
}

/// Remembering a canonical replacement keeps the substitution well formed.
pub proof fn lemma_bind_wf(
    sub: Seq<Option<Seq<Term>>>,
    v: Variable,
    e: Seq<Term>,
    p: int,
    n: int,
)
    requires
        substitution_wf(sub, p, n),
        linear_wf(e, p, n),
    ensures
        substitution_wf(bind(sub, v, e), p, n),
        bind(sub, v, e).len() == sub.len(),
{
    let next = bind(sub, v, e);
    assert forall|i: int| 0 <= i < next.len() && (#[trigger] next[i]) is Some implies linear_wf(
        next[i].unwrap(),
        p,
        n,
    ) by {
        if i != v.id {
            assert(next[i] == sub[i]);
        }
    }
}

/// What is remembered is canonical.
pub proof fn lemma_record_wf(s: SpecStatement, sub: Seq<Option<Seq<Term>>>, p: int, n: int)
    requires
        2 <= p <= u64::MAX,
        n > 0,
        substitution_wf(sub, p, n),
        statement_wf(s, p, n),
        s is Directive && s->Directive_0 is Quotient ==> invertible(
            constant_value(s->Directive_0->Quotient_2),
            p,
        ),
        s is Directive && s->Directive_0 is NonZero ==> constant_value(s->Directive_0->NonZero_2)
            == 0 || invertible(constant_value(s->Directive_0->NonZero_2), p),
    ensures
        substitution_wf(record(s, sub, p), p, n),
        record(s, sub, p).len() == sub.len(),
{
    match s {
        SpecStatement::Definition(v, e) => {
            lemma_bind_wf(sub, v, e, p, n);
        },
        SpecStatement::Constraint(a, b, c) => {},
        SpecStatement::Directive(d) => match d {
            SpecDirective::Product(o, a, b) => {
                let c = (constant_value(a) * constant_value(b)) % p;
                lemma_mod_bound(constant_value(a) * constant_value(b), p);
                lemma_constant_wf(c, p, n);
                lemma_bind_wf(sub, o, constant_terms(c), p, n);
            },
            SpecDirective::Quotient(o, a, b) => {
                let c = (constant_value(a) * inverse_of(constant_value(b), p)) % p;
                lemma_mod_bound(constant_value(a) * inverse_of(constant_value(b), p), p);
                lemma_constant_wf(c, p, n);
                lemma_bind_wf(sub, o, constant_terms(c), p, n);
            },
            SpecDirective::NonZero(f, i, x) => {
                lemma_constant_wf(0, p, n);
                lemma_constant_wf(1, p, n);
                if constant_value(x) == 0 {
                    lemma_bind_wf(sub, f, constant_terms(0), p, n);
                    lemma_bind_wf(bind(sub, f, constant_terms(0)), i, constant_terms(0), p, n);
                } else {
                    let c = inverse_of(constant_value(x), p);
                    lemma_constant_wf(c, p, n);
                    lemma_bind_wf(sub, f, constant_terms(1), p, n);
                    lemma_bind_wf(bind(sub, f, constant_terms(1)), i, constant_terms(c), p, n);
                }
            },
            SpecDirective::Bits(_, _, _) => {},
        },
    }
}

} // verus!

verus! {

/// Adding a single term of a larger variable appends it.
proof fn lemma_merge_push(a: Seq<Term>, x: Term, p: int)
    requires
        canonical(a.push(x), p),
    ensures
        merge(a, seq![x], p) == a.push(x),
    decreases a.len(),
{
    let whole = a.push(x);
    if a.len() == 0 {
        assert(whole == seq![x]);
    } else {
        assert(whole[0] == a[0]);
        assert(whole[a.len() as int] == x);
        assert(a[0].var.id < x.var.id);
        crate::ir::lincomb::lemma_canonical_rest(whole, p);
        assert(whole.drop_first() == a.drop_first().push(x));
        lemma_merge_push(a.drop_first(), x, p);
        assert(seq![x][0] == x);
        assert(seq![a[0]] + a.drop_first().push(x) == whole);
    }
}

/// Substituting nothing leaves a canonical combination as it is.
proof fn lemma_substitute_nothing(t: Seq<Term>, n: int, p: int)
    requires
        canonical(t, p),
    ensures
        substitute(t, nothing_known(n), p) == t,
    decreases t.len(),
{
    if t.len() > 0 {
        let front = t.drop_last();
        assert forall|i: int| 0 <= i < front.len() implies 0 < (#[trigger] front[i]).coeff < p by {
            assert(front[i] == t[i]);
        }
        assert forall|i: int, j: int| 0 <= i < j < front.len() implies (#[trigger] front[i]).var.id
            < (#[trigger] front[j]).var.id by {
            assert(front[i] == t[i] && front[j] == t[j]);
        }
        lemma_substitute_nothing(front, n, p);
        assert(image(t.last(), nothing_known(n), p) == seq![t.last()]);
        assert(front.push(t.last()) == t);
        lemma_merge_push(front, t.last(), p);
    }
}

/// Rewriting with nothing known leaves a well-formed statement as it is.
proof fn lemma_rewrite_nothing(s: SpecStatement, n: int, p: int, m: int)
    requires
        statement_wf(s, p, m),
    ensures
        rewrite(s, nothing_known(n), p) == s,
{
    match s {
        SpecStatement::Definition(v, e) => {
            lemma_substitute_nothing(e, n, p);
        },
        SpecStatement::Constraint(a, b, c) => {
            lemma_substitute_nothing(a, n, p);
            lemma_substitute_nothing(b, n, p);
            lemma_substitute_nothing(c, n, p);
        },
        SpecStatement::Directive(d) => match d {
            SpecDirective::Product(o, a, b) => {
                lemma_substitute_nothing(a, n, p);
                lemma_substitute_nothing(b, n, p);
            },
            SpecDirective::Quotient(o, a, b) => {
                lemma_substitute_nothing(a, n, p);
                lemma_substitute_nothing(b, n, p);
            },
            SpecDirective::NonZero(f, i, x) => {
                lemma_substitute_nothing(x, n, p);
            },
            SpecDirective::Bits(f, count, x) => {
                lemma_substitute_nothing(x, n, p);
            },
        },
    }
}

/// Every statement is well formed.
pub open spec fn statements_wf(s: Seq<SpecStatement>, p: int, n: int) -> bool {
    forall|i: int| 0 <= i < s.len() ==> statement_wf(#[trigger] s[i], p, n)
}

/// What propagation leaves is well formed, and propagation leaves it
/// unchanged.
proof fn lemma_propagate_fixed(
    s: Seq<SpecStatement>,
    sub: Seq<Option<Seq<Term>>>,
    protected: Seq<bool>,
    p: int,
    n: int,
)
    requires
        2 <= p <= u64::MAX,
        n > 0,
        statements_wf(s, p, n),
        substitution_wf(sub, p, n),
    ensures
        statements_wf(propagate_from(s, sub, protected, p), p, n),
        propagate_from(propagate_from(s, sub, protected, p), nothing_known(n), protected, p)
            == propagate_from(s, sub, protected, p),
    decreases s.len(),
{
    if s.len() > 0 {
        let r = rewrite(s[0], sub, p);
        let rest = s.drop_first();
        assert forall|i: int| 0 <= i < rest.len() implies statement_wf(#[trigger] rest[i], p, n) by {
            assert(rest[i] == s[i + 1]);
        }
        lemma_rewrite_wf(s[0], sub, p, n);
        if foldable(r, protected, p) {
            lemma_record_wf(r, sub, p, n);
            lemma_propagate_fixed(rest, record(r, sub, p), protected, p, n);
        } else {
            lemma_propagate_fixed(rest, sub, protected, p, n);
            let tail = propagate_from(rest, sub, protected, p);
            let out = seq![r] + tail;
            assert(out[0] == r);
            assert(out.drop_first() == tail);
            assert forall|i: int| 0 <= i < out.len() implies statement_wf(#[trigger] out[i], p, n) by {
                if i > 0 {
                    assert(out[i] == tail[i - 1]);
                }
            }
            lemma_rewrite_nothing(r, n, p, n);
        }
    }
}

/// Propagation is idempotent: a second pass over a propagated program
/// finds nothing to do and returns it as it is.
pub proof fn propagation_is_idempotent(program: SpecProgram)
    requires
        program.wf(),
    ensures
        propagated(program).wf(),
        propagated(propagated(program)) == propagated(program),
{
    let n = program.variable_count as int;
    lemma_propagate_fixed(
        program.statements,
        nothing_known(n),
        output_marks(program.outputs, n),
        program.p(),
        n,
    );
}

fn simple(e: &LinComb) -> (r: bool)
    ensures
        r == is_simple(e@),
{
    e.terms.len() == 0 || (e.terms.len() == 1 && (e.terms[0].var.id == 0 || e.terms[0].coeff == 1))
}

fn can_drop(v: Variable, protected: &Vec<bool>) -> (r: bool)
    ensures
        r == droppable(v, protected@),
{
    v.id < protected.len() && !protected[v.id]
}

/// The combination with every replaced variable substituted.
fn substitute_in(e: &LinComb, sub: &Vec<Option<LinComb>>, field: &Field, n: usize) -> (r: LinComb)
    requires
        field.wf(),
        linear_wf(e@, field.modulus as int, n as int),
        substitution_wf(replacements(sub@), field.modulus as int, n as int),
    ensures
        r@ == substitute(e@, replacements(sub@), field.modulus as int),
        linear_wf(r@, field.modulus as int, n as int),
{
    let ghost t = e@;
    let ghost p = field.modulus as int;
    let ghost known = replacements(sub@);
    let mut acc = LinComb::zero();
    let mut k: usize = 0;
    assert(t.take(0) == Seq::<Term>::empty());
    while k < e.terms.len()
        invariant
            k <= e.terms.len(),
            t == e@,
            p == field.modulus as int,
            known == replacements(sub@),
            field.wf(),
            linear_wf(t, p, n as int),
            substitution_wf(known, p, n as int),
            acc@ == substitute(t.take(k as int), known, p),
            canonical(acc@, p),
        decreases e.terms.len() - k,
    {
        let x = e.terms[k];
        proof {
            assert(t.take(k + 1).drop_last() == t.take(k as int));
            assert(t.take(k + 1).last() == x);
            lemma_image_wf(x, known, p, n as int);
        }
        let img = if x.var.id < sub.len() {
            match &sub[x.var.id] {
                Some(known_value) => {
                    assert(known[x.var.id as int] == Some(known_value@));
                    known_value.scale(x.coeff, field)
                },
                None => {
                    assert(known[x.var.id as int] is None);
                    LinComb::term(x)
                },
            }
        } else {
            LinComb::term(x)
        };
        acc = acc.add(&img, field);
        k += 1;
    }
    proof {
        assert(t.take(k as int) == t);
        lemma_substitute_wf(t, known, p, n as int);
    }
    acc
}

/// The statement with every combination substituted.
fn rewrite_statement(s: &Statement, sub: &Vec<Option<LinComb>>, field: &Field, n: usize) -> (r:
    Statement)
    requires
        field.wf(),
        statement_wf(s@, field.modulus as int, n as int),
        substitution_wf(replacements(sub@), field.modulus as int, n as int),
    ensures
        r@ == rewrite(s@, replacements(sub@), field.modulus as int),
        statement_wf(r@, field.modulus as int, n as int),
{
    match s {
        Statement::Definition(v, e) => Statement::Definition(*v, substitute_in(e, sub, field, n)),
        Statement::Constraint(a, b, c) => Statement::Constraint(
            substitute_in(a, sub, field, n),
            substitute_in(b, sub, field, n),
            substitute_in(c, sub, field, n),
        ),
        Statement::Directive(d) => Statement::Directive(
            match d {
                Directive::Product(o, a, b) => Directive::Product(
                    *o,
                    substitute_in(a, sub, field, n),
                    substitute_in(b, sub, field, n),
                ),
                Directive::Quotient(o, a, b) => Directive::Quotient(
                    *o,
                    substitute_in(a, sub, field, n),
                    substitute_in(b, sub, field, n),
                ),
                Directive::NonZero(f, i, x) => Directive::NonZero(
                    *f,
                    *i,
                    substitute_in(x, sub, field, n),
                ),
                Directive::Bits(f, count, x) => Directive::Bits(
                    *f,
                    *count,
                    substitute_in(x, sub, field, n),
                ),
            },
        ),
    }
}

/// Remembers that `v` is replaced by `e`.
fn remember(sub: &mut Vec<Option<LinComb>>, v: Variable, e: LinComb)
    ensures
        replacements(final(sub)@) == bind(replacements(old(sub)@), v, e@),
        final(sub).len() == old(sub).len(),
{
    if v.id < sub.len() {
        sub.set(v.id, Some(e));
    }
    assert(replacements(sub@) =~= bind(replacements(old(sub)@), v, e@));
}

/// Drops the statement if all it does is known, and remembers what it
/// assigns.
fn fold(
    s: &Statement,
    sub: &mut Vec<Option<LinComb>>,
    protected: &Vec<bool>,
    field: &Field,
    n: usize,
) -> (r: bool)
    requires
        field.wf(),
        n > 0,
        statement_wf(s@, field.modulus as int, n as int),
        substitution_wf(replacements(old(sub)@), field.modulus as int, n as int),
    ensures
        r == foldable(s@, protected@, field.modulus as int),
        final(sub).len() == old(sub).len(),
        substitution_wf(replacements(final(sub)@), field.modulus as int, n as int),
        r ==> replacements(final(sub)@) == record(
            s@,
            replacements(old(sub)@),
            field.modulus as int,
        ),
        !r ==> replacements(final(sub)@) == replacements(old(sub)@),
{
    let ghost p = field.modulus as int;
    let ghost known = replacements(sub@);
    proof {
        if foldable(s@, protected@, p) {
            lemma_record_wf(s@, known, p, n as int);
        }
    }
    match s {
        Statement::Definition(v, e) => {
            if simple(e) && can_drop(*v, protected) {
                remember(sub, *v, e.clone());
                true
            } else {
                false
            }
        },
        Statement::Constraint(a, b, c) => {
            match (constant_of(a), constant_of(b), constant_of(c)) {
                (Some(x), Some(y), Some(z)) => field.mul(x, y) == z,
                _ => false,
            }
        },
        Statement::Directive(d) => match d {
            Directive::Product(o, a, b) => {
                match (constant_of(a), constant_of(b)) {
                    (Some(x), Some(y)) => {
                        if can_drop(*o, protected) {
                            let c = field.mul(x, y);
                            proof {
                                lemma_small_mod(c as nat, p as nat);
                            }
                            remember(sub, *o, LinComb::constant(c, field));
                            true
                        } else {
                            false
                        }
                    },
                    _ => false,
                }
            },
            Directive::Quotient(o, a, b) => {
                match (constant_of(a), constant_of(b)) {
                    (Some(x), Some(y)) => {
                        if can_drop(*o, protected) {
                            match field.div(x, y) {
                                Some(c) => {
                                    proof {
                                        lemma_mod_bound(x * inverse_of(y as int, p), p);
                                        lemma_small_mod(c as nat, p as nat);
                                    }
                                    remember(sub, *o, LinComb::constant(c, field));
                                    true
                                },
                                None => false,
                            }
                        } else {
                            false
                        }
                    },
                    _ => false,
                }
            },
            Directive::NonZero(f, i, e) => {
                match constant_of(e) {
                    Some(x) => {
                        if can_drop(*f, protected) && can_drop(*i, protected) {
                            if x == 0 {
                                remember(sub, *f, LinComb::zero());
                                remember(sub, *i, LinComb::zero());
                                true
                            } else {
                                match field.inverse(x) {
                                    Some(inv) => {
                                        proof {
                                            lemma_inverse_of(x as int, inv as int, p);
                                            lemma_small_mod(inv as nat, p as nat);
                                            lemma_small_mod(1, p as nat);
                                        }
                                        remember(sub, *f, LinComb::constant(1, field));
                                        remember(sub, *i, LinComb::constant(inv, field));
                                        true
                                    },
                                    None => false,
                                }
                            }
                        } else {
                            false
                        }
                    },
                    None => false,
                }
            },
            Directive::Bits(_, _, _) => false,
        },
    }
}

/// Folds constants and propagates copies in flat programs.
#[derive(Clone, Copy, Debug)]
pub struct FlatPropagator {}

impl FlatPropagator {
    /// Substitutes what is known into every statement and drops the
    /// statements that have nothing left to say. The signature, the
    /// outputs and the order of what stays are unchanged.
    pub fn propagate(program: Program) -> (r: Program)
        requires
            program@.wf(),
        ensures
            r@ == propagated(program@),
            r@.wf(),
    {
        let ghost s = program@.statements;
        let ghost p = program@.p();
        let n = program.variable_count;
        let protected = program.output_marks();
        let mut sub: Vec<Option<LinComb>> = Vec::new();
        while sub.len() < n
            invariant
                sub.len() <= n,
                forall|i: int| 0 <= i < sub.len() ==> (#[trigger] sub@[i]) is None,
            decreases n - sub.len(),
        {
            sub.push(None);
        }
        assert(replacements(sub@) =~= nothing_known(n as int));
        let mut statements: Vec<Statement> = Vec::new();
        let mut k: usize = 0;
        assert(s.skip(0) == s);
        assert(statements_view(statements@) + propagate_from(s, replacements(sub@), protected@, p)
            == propagate_from(s, nothing_known(n as int), protected@, p));
        while k < program.statements.len()
            invariant
                k <= program.statements.len(),
                program@.wf(),
                s == program@.statements,
                p == program@.p(),
                n == program.variable_count,
                sub.len() == n,
                protected@ == output_marks(program@.outputs, n as int),
                substitution_wf(replacements(sub@), p, n as int),
                statements_view(statements@) + propagate_from(
                    s.skip(k as int),
                    replacements(sub@),
                    protected@,
                    p,
                ) == propagate_from(s, nothing_known(n as int), protected@, p),
            decreases program.statements.len() - k,
        {
            let ghost rest = s.skip(k as int);
            let ghost before = statements@;
            let ghost known = replacements(sub@);
            proof {
                assert(rest[0] == s[k as int]);
                assert(rest.drop_first() == s.skip(k + 1));
                assert(s[k as int] == program.statements@[k as int]@);
            }
            let rewritten = rewrite_statement(&program.statements[k], &sub, &program.field, n);
            if !fold(&rewritten, &mut sub, &protected, &program.field, n) {
                statements.push(rewritten);
                proof {
                    let tail = propagate_from(s.skip(k + 1), known, protected@, p);
                    assert(statements_view(statements@) =~= statements_view(before).push(
                        rewritten@,
                    ));
                    assert(statements_view(statements@) + tail == statements_view(before) + (
                    seq![rewritten@] + tail));
                }
            }
            k += 1;
        }
        proof {
            assert(s.skip(k as int) == Seq::<SpecStatement>::empty());
            assert(statements_view(statements@) + Seq::<SpecStatement>::empty() == statements_view(
                statements@,
            ));
            propagation_is_idempotent(program@);
        }
        Program {
            field: program.field,
            private: program.private,
            variable_count: program.variable_count,
            statements,
            outputs: program.outputs,
            light: program.light,
        }
    }
}

} // verus!
