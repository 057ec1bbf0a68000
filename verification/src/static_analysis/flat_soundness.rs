//! Propagation in flat programs keeps what they compute.

use crate::field::inverse_of;
use crate::ir::interpreter::{
    execution, initial, lemma_initial, lemma_run_extends, lemma_run_prefix, lemma_run_push,
    part_of, returned, run,
};
use crate::ir::lincomb::{
    assigned, canonical, constant_terms, constant_value, eval, has_one, is_constant,
    lemma_eval_constant, lemma_eval_extends, lemma_eval_merge, lemma_eval_scaled, lemma_sum_cons,
    sum, term_value, value_at, within, Term, Variable,
};
use crate::ir::program::{output_marks, SpecProgram};
use crate::ir::statement::{apply, assign, statement_wf, SpecDirective, SpecStatement};
use crate::static_analysis::flat_propagation::{
    bind, foldable, image, lemma_record_wf, lemma_rewrite_wf, lemma_substitute_wf, nothing_known,
    propagate_from, propagated, record, rewrite, statements_wf, substitute, substitution_wf,
};
use vstd::arithmetic::div_mod::{lemma_add_mod_noop, lemma_mod_bound, lemma_small_mod};
use vstd::prelude::*;

verus! {

/// What has been found out keeps track of a run: `part` holds what the
/// propagated program has computed, `w` what the whole program has.
/// Every replaced variable has, in `w`, the value that its replacement
/// has in `part`; every other variable has the same value in both.
pub open spec fn tracks(
    sub: Seq<Option<Seq<Term>>>,
    w: Seq<Option<u64>>,
    part: Seq<Option<u64>>,
    p: int,
) -> bool {
    &&& sub.len() == w.len()
    &&& part_of(part, w)
    &&& forall|v: int|
        0 <= v < sub.len() && (#[trigger] sub[v]) is Some ==> w[v] is Some && eval(
            sub[v].unwrap(),
            part,
            p,
        ) == w[v]
    &&& forall|v: int| 0 <= v < sub.len() && (#[trigger] sub[v]) is None ==> part[v] == w[v]
}

/// The sum of a combination with one more term.
proof fn lemma_sum_push(t: Seq<Term>, x: Term, w: Seq<Option<u64>>)
    ensures
        sum(t.push(x), w) == sum(t, w) + term_value(x, w),
        assigned(t.push(x), w) == (assigned(t, w) && value_at(w, x.var) is Some),
    decreases t.len(),
{
    let all = t.push(x);
    if t.len() == 0 {
        assert(all == seq![x] + Seq::<Term>::empty());
        lemma_sum_cons(x, Seq::<Term>::empty(), w);
        assert(sum(Seq::<Term>::empty(), w) == 0);
    } else {
        let rest = t.drop_first();
        lemma_sum_push(rest, x, w);
        assert(all == seq![t[0]] + rest.push(x));
        lemma_sum_cons(t[0], rest.push(x), w);
        assert(t == seq![t[0]] + rest);
        lemma_sum_cons(t[0], rest, w);
    }
}

/// The value of a single term.
proof fn lemma_eval_term(x: Term, w: Seq<Option<u64>>, p: int)
    requires
        0 < p <= u64::MAX,
        value_at(w, x.var) is Some,
    ensures
        eval(seq![x], w, p) == Some(((x.coeff * value_at(w, x.var).unwrap()) % p) as u64),
{
    let t = seq![x];
    assert(t[0] == x);
    assert(t.drop_first() == Seq::<Term>::empty());
    assert(sum(t.drop_first(), w) == 0);
    lemma_mod_bound(x.coeff * value_at(w, x.var).unwrap(), p);
}

/// A substituted combination has, in the part, the value that the
/// combination has in the whole.
proof fn lemma_substitute_eval(
    e: Seq<Term>,
    sub: Seq<Option<Seq<Term>>>,
    w: Seq<Option<u64>>,
    part: Seq<Option<u64>>,
    p: int,
)
    requires
        2 <= p <= u64::MAX,
        tracks(sub, w, part, p),
        eval(e, w, p) is Some,
    ensures
        eval(substitute(e, sub, p), part, p) == eval(e, w, p),
    decreases e.len(),
{
    if e.len() == 0 {
        assert(sum(e, w) == 0);
        assert(sum(e, part) == 0);
    } else {
        let front = e.drop_last();
        let x = e.last();
        assert(e == front.push(x));
        lemma_sum_push(front, x, w);
        lemma_substitute_eval(front, sub, w, part, p);
        let v = x.var.id as int;
        let xv = value_at(w, x.var).unwrap();
        assert(w[v] == Some(xv));
        let img = image(x, sub, p);
        assert(eval(img, part, p) == Some(((x.coeff * xv) % p) as u64)) by {
            if sub[v] is Some {
                lemma_eval_scaled(sub[v].unwrap(), x.coeff as int, part, p);
            } else {
                assert(part[v] == w[v]);
                lemma_eval_term(x, part, p);
            }
        }
        lemma_eval_merge(substitute(front, sub, p), img, part, p);
        lemma_add_mod_noop(sum(front, w), x.coeff * xv, p);
        lemma_mod_bound(sum(front, w), p);
        lemma_mod_bound(x.coeff * xv, p);
    }
}

/// Tracking goes on when both runs give a variable the same value.
proof fn lemma_tracks_assign_at(
    sub: Seq<Option<Seq<Term>>>,
    w: Seq<Option<u64>>,
    part: Seq<Option<u64>>,
    id: int,
    x: u64,
    p: int,
)
    requires
        tracks(sub, w, part, p),
        crate::ir::statement::assign_at(w, id, x) is Ok,
    ensures
        crate::ir::statement::assign_at(part, id, x) is Ok,
        tracks(
            sub,
            crate::ir::statement::assign_at(w, id, x).unwrap(),
            crate::ir::statement::assign_at(part, id, x).unwrap(),
            p,
        ),
{
    let w2 = crate::ir::statement::assign_at(w, id, x).unwrap();
    assert(part[id] is None);
    let part2 = crate::ir::statement::assign_at(part, id, x).unwrap();
    assert forall|u: int| 0 <= u < sub.len() && (#[trigger] sub[u]) is Some implies w2[u] is Some
        && eval(sub[u].unwrap(), part2, p) == w2[u] by {
        lemma_eval_extends(sub[u].unwrap(), part, part2, p);
    }
}

/// Tracking goes on when both runs give a variable the same value.
proof fn lemma_tracks_assign(
    sub: Seq<Option<Seq<Term>>>,
    w: Seq<Option<u64>>,
    part: Seq<Option<u64>>,
    v: Variable,
    x: u64,
    p: int,
)
    requires
        tracks(sub, w, part, p),
        assign(w, v, x) is Ok,
    ensures
        assign(part, v, x) is Ok,
        tracks(sub, assign(w, v, x).unwrap(), assign(part, v, x).unwrap(), p),
{
    lemma_tracks_assign_at(sub, w, part, v.id as int, x, p);
}

/// Tracking goes on when the whole run gives a variable the value that
/// its new replacement has.
proof fn lemma_tracks_bind(
    sub: Seq<Option<Seq<Term>>>,
    w: Seq<Option<u64>>,
    part: Seq<Option<u64>>,
    v: Variable,
    t: Seq<Term>,
    x: u64,
    p: int,
)
    requires
        tracks(sub, w, part, p),
        assign(w, v, x) is Ok,
        eval(t, part, p) == Some(x),
    ensures
        tracks(bind(sub, v, t), assign(w, v, x).unwrap(), part, p),
{
    let w2 = assign(w, v, x).unwrap();
    let next = bind(sub, v, t);
    assert(part[v.id as int] is None);
    assert forall|u: int| 0 <= u < next.len() && (#[trigger] next[u]) is Some implies w2[u] is Some
        && eval(next[u].unwrap(), part, p) == w2[u] by {
        if u != v.id {
            assert(next[u] == sub[u]);
        }
    }
    assert forall|u: int| 0 <= u < next.len() && (#[trigger] next[u]) is None implies part[u]
        == w2[u] by {
        assert(next[u] == sub[u]);
    }
}

/// Tracking goes on when both runs give variables the same bits.
proof fn lemma_tracks_bits(
    sub: Seq<Option<Seq<Term>>>,
    w: Seq<Option<u64>>,
    part: Seq<Option<u64>>,
    first: Variable,
    count: int,
    x: int,
    p: int,
)
    requires
        0 <= count,
        tracks(sub, w, part, p),
        crate::ir::statement::assign_bits(w, first, count, x) is Ok,
    ensures
        crate::ir::statement::assign_bits(part, first, count, x) is Ok,
        tracks(
            sub,
            crate::ir::statement::assign_bits(w, first, count, x).unwrap(),
            crate::ir::statement::assign_bits(part, first, count, x).unwrap(),
            p,
        ),
    decreases count,
{
    if count > 0 {
        lemma_tracks_bits(sub, w, part, first, count - 1, x, p);
        lemma_tracks_assign_at(
            sub,
            crate::ir::statement::assign_bits(w, first, count - 1, x).unwrap(),
            crate::ir::statement::assign_bits(part, first, count - 1, x).unwrap(),
            first.id + count - 1,
            crate::ir::statement::bit(x, count - 1),
            p,
        );
    }
}

/// The value of a canonical constant is the constant.
proof fn lemma_constant_eval(t: Seq<Term>, w: Seq<Option<u64>>, p: int)
    requires
        0 < p <= u64::MAX,
        is_constant(t),
        canonical(t, p),
        has_one(w),
    ensures
        eval(t, w, p) == Some(constant_value(t) as u64),
{
    if t.len() == 0 {
        assert(sum(t, w) == 0);
        lemma_small_mod(0, p as nat);
    } else {
        assert(t[0].var == Variable { id: 0 });
        assert(t.drop_first() == Seq::<Term>::empty());
        assert(sum(t.drop_first(), w) == 0);
        assert(term_value(t[0], w) == t[0].coeff * 1);
        lemma_small_mod(t[0].coeff as nat, p as nat);
    }
}

} // verus!

verus! {

/// What one statement asks of the proof that follows.
pub open spec fn step_ready(
    s: SpecStatement,
    sub: Seq<Option<Seq<Term>>>,
    w: Seq<Option<u64>>,
    part: Seq<Option<u64>>,
    p: int,
) -> bool {
    &&& 2 <= p <= u64::MAX
    &&& w.len() > 0
    &&& tracks(sub, w, part, p)
    &&& has_one(part)
    &&& within(part, p)
    &&& within(w, p)
    &&& substitution_wf(sub, p, w.len() as int)
    &&& statement_wf(s, p, w.len() as int)
    &&& apply(s, w, p) is Ok
}

/// What one statement leaves: where it is dropped, what is remembered
/// keeps track of the whole run; where it stays, it runs on the part as
/// on the whole.
pub open spec fn step_done(
    s: SpecStatement,
    sub: Seq<Option<Seq<Term>>>,
    protected: Seq<bool>,
    w: Seq<Option<u64>>,
    part: Seq<Option<u64>>,
    p: int,
) -> bool {
    let r = rewrite(s, sub, p);
    if foldable(r, protected, p) {
        tracks(record(r, sub, p), apply(s, w, p).unwrap(), part, p)
    } else {
        apply(r, part, p) is Ok && tracks(
            sub,
            apply(s, w, p).unwrap(),
            apply(r, part, p).unwrap(),
            p,
        )
    }
}

proof fn lemma_step_definition(
    s: SpecStatement,
    sub: Seq<Option<Seq<Term>>>,
    protected: Seq<bool>,
    w: Seq<Option<u64>>,
    part: Seq<Option<u64>>,
    p: int,
)
    requires
        step_ready(s, sub, w, part, p),
        s is Definition,
    ensures
        step_done(s, sub, protected, w, part, p),
{
    let v = s->Definition_0;
    let e = s->Definition_1;
    let x = eval(e, w, p).unwrap();
    lemma_substitute_eval(e, sub, w, part, p);
    let r = rewrite(s, sub, p);
    if foldable(r, protected, p) {
        lemma_tracks_bind(sub, w, part, v, substitute(e, sub, p), x, p);
    } else {
        lemma_tracks_assign(sub, w, part, v, x, p);
    }
}

proof fn lemma_step_constraint(
    s: SpecStatement,
    sub: Seq<Option<Seq<Term>>>,
    protected: Seq<bool>,
    w: Seq<Option<u64>>,
    part: Seq<Option<u64>>,
    p: int,
)
    requires
        step_ready(s, sub, w, part, p),
        s is Constraint,
    ensures
        step_done(s, sub, protected, w, part, p),
{
    lemma_substitute_eval(s->Constraint_0, sub, w, part, p);
    lemma_substitute_eval(s->Constraint_1, sub, w, part, p);
    lemma_substitute_eval(s->Constraint_2, sub, w, part, p);
}

proof fn lemma_step_product(
    s: SpecStatement,
    sub: Seq<Option<Seq<Term>>>,
    protected: Seq<bool>,
    w: Seq<Option<u64>>,
    part: Seq<Option<u64>>,
    p: int,
)
    requires
        step_ready(s, sub, w, part, p),
        s is Directive,
        s->Directive_0 is Product,
    ensures
        step_done(s, sub, protected, w, part, p),
{
    let o = s->Directive_0->Product_0;
    let a = s->Directive_0->Product_1;
    let b = s->Directive_0->Product_2;
    let n = w.len() as int;
    let x = eval(a, w, p).unwrap();
    let y = eval(b, w, p).unwrap();
    let z = ((x * y) % p) as u64;
    lemma_mod_bound(x * y, p);
    lemma_substitute_eval(a, sub, w, part, p);
    lemma_substitute_eval(b, sub, w, part, p);
    let r = rewrite(s, sub, p);
    if foldable(r, protected, p) {
        let fa = substitute(a, sub, p);
        let fb = substitute(b, sub, p);
        lemma_substitute_wf(a, sub, p, n);
        lemma_substitute_wf(b, sub, p, n);
        lemma_constant_eval(fa, part, p);
        lemma_constant_eval(fb, part, p);
        lemma_eval_constant(z as int, part, p);
        lemma_tracks_bind(sub, w, part, o, constant_terms(z as int), z, p);
    } else {
        lemma_tracks_assign(sub, w, part, o, z, p);
    }
}

proof fn lemma_step_quotient(
    s: SpecStatement,
    sub: Seq<Option<Seq<Term>>>,
    protected: Seq<bool>,
    w: Seq<Option<u64>>,
    part: Seq<Option<u64>>,
    p: int,
)
    requires
        step_ready(s, sub, w, part, p),
        s is Directive,
        s->Directive_0 is Quotient,
    ensures
        step_done(s, sub, protected, w, part, p),
{
    let o = s->Directive_0->Quotient_0;
    let a = s->Directive_0->Quotient_1;
    let b = s->Directive_0->Quotient_2;
    let n = w.len() as int;
    let x = eval(a, w, p).unwrap();
    let y = eval(b, w, p).unwrap();
    let z = ((x * inverse_of(y as int, p)) % p) as u64;
    lemma_mod_bound(x * inverse_of(y as int, p), p);
    lemma_substitute_eval(a, sub, w, part, p);
    lemma_substitute_eval(b, sub, w, part, p);
    let r = rewrite(s, sub, p);
    if foldable(r, protected, p) {
        let fa = substitute(a, sub, p);
        let fb = substitute(b, sub, p);
        lemma_substitute_wf(a, sub, p, n);
        lemma_substitute_wf(b, sub, p, n);
        lemma_constant_eval(fa, part, p);
        lemma_constant_eval(fb, part, p);
        lemma_eval_constant(z as int, part, p);
        lemma_tracks_bind(sub, w, part, o, constant_terms(z as int), z, p);
    } else {
        lemma_tracks_assign(sub, w, part, o, z, p);
    }
}

proof fn lemma_step_nonzero(
    s: SpecStatement,
    sub: Seq<Option<Seq<Term>>>,
    protected: Seq<bool>,
    w: Seq<Option<u64>>,
    part: Seq<Option<u64>>,
    p: int,
)
    requires
        step_ready(s, sub, w, part, p),
        s is Directive,
        s->Directive_0 is NonZero,
    ensures
        step_done(s, sub, protected, w, part, p),
{
    let f = s->Directive_0->NonZero_0;
    let i = s->Directive_0->NonZero_1;
    let e = s->Directive_0->NonZero_2;
    let n = w.len() as int;
    let x = eval(e, w, p).unwrap();
    lemma_substitute_eval(e, sub, w, part, p);
    let r = rewrite(s, sub, p);
    let flag: u64 = if x == 0 {
        0
    } else {
        1
    };
    let inv: u64 = if x == 0 {
        0
    } else {
        inverse_of(x as int, p) as u64
    };
    let w1 = assign(w, f, flag).unwrap();
    assert(assign(w1, i, inv) is Ok);
    if foldable(r, protected, p) {
        let fe = substitute(e, sub, p);
        lemma_substitute_wf(e, sub, p, n);
        lemma_constant_eval(fe, part, p);
        lemma_eval_constant(flag as int, part, p);
        lemma_eval_constant(inv as int, part, p);
        lemma_tracks_bind(sub, w, part, f, constant_terms(flag as int), flag, p);
        lemma_tracks_bind(
            bind(sub, f, constant_terms(flag as int)),
            w1,
            part,
            i,
            constant_terms(inv as int),
            inv,
            p,
        );
    } else {
        lemma_tracks_assign(sub, w, part, f, flag, p);
        lemma_tracks_assign(sub, w1, assign(part, f, flag).unwrap(), i, inv, p);
    }
}

/// One statement of the whole run, and what propagation makes of it.
proof fn lemma_step(
    s: SpecStatement,
    sub: Seq<Option<Seq<Term>>>,
    protected: Seq<bool>,
    w: Seq<Option<u64>>,
    part: Seq<Option<u64>>,
    p: int,
)
    requires
        step_ready(s, sub, w, part, p),
    ensures
        step_done(s, sub, protected, w, part, p),
{
    match s {
        SpecStatement::Definition(_, _) => {
            lemma_step_definition(s, sub, protected, w, part, p);
        },
        SpecStatement::Constraint(_, _, _) => {
            lemma_step_constraint(s, sub, protected, w, part, p);
        },
        SpecStatement::Directive(d) => match d {
            SpecDirective::Product(_, _, _) => {
                lemma_step_product(s, sub, protected, w, part, p);
            },
            SpecDirective::Quotient(_, _, _) => {
                lemma_step_quotient(s, sub, protected, w, part, p);
            },
            SpecDirective::NonZero(_, _, _) => {
                lemma_step_nonzero(s, sub, protected, w, part, p);
            },
            SpecDirective::Bits(f, count, e) => {
                lemma_substitute_eval(e, sub, w, part, p);
                lemma_tracks_bits(sub, w, part, f, count as int, eval(e, w, p).unwrap() as int, p);
            },
        },
    }
}

} // verus!

verus! {

/// What propagation has found out and emitted after `k` statements.
pub open spec fn progress(
    s: Seq<SpecStatement>,
    k: int,
    protected: Seq<bool>,
    p: int,
    n: int,
) -> (Seq<Option<Seq<Term>>>, Seq<SpecStatement>)
    decreases k,
{
    if k <= 0 {
        (nothing_known(n), Seq::<SpecStatement>::empty())
    } else {
        let (sub, out) = progress(s, k - 1, protected, p, n);
        let r = rewrite(s[k - 1], sub, p);
        if foldable(r, protected, p) {
            (record(r, sub, p), out)
        } else {
            (sub, out.push(r))
        }
    }
}

/// What has been found out is well formed and spares the protected
/// variables.
proof fn lemma_progress_wf(s: Seq<SpecStatement>, k: int, protected: Seq<bool>, p: int, n: int)
    requires
        0 <= k <= s.len(),
        2 <= p <= u64::MAX,
        n > 0,
        statements_wf(s, p, n),
    ensures
        substitution_wf(progress(s, k, protected, p, n).0, p, n),
        progress(s, k, protected, p, n).0.len() == n,
        forall|v: int|
            0 <= v < n && v < protected.len() && protected[v] ==> (#[trigger] progress(
                s,
                k,
                protected,
                p,
                n,
            ).0[v]) is None,
    decreases k,
{
    if k > 0 {
        lemma_progress_wf(s, k - 1, protected, p, n);
        let (sub, out) = progress(s, k - 1, protected, p, n);
        let r = rewrite(s[k - 1], sub, p);
        lemma_rewrite_wf(s[k - 1], sub, p, n);
        if foldable(r, protected, p) {
            lemma_record_wf(r, sub, p, n);
        }
    }
}

/// What has been emitted, and what is still to come, make up what
/// propagation leaves.
proof fn lemma_progress(s: Seq<SpecStatement>, k: int, protected: Seq<bool>, p: int, n: int)
    requires
        0 <= k <= s.len(),
    ensures
        progress(s, k, protected, p, n).1 + propagate_from(
            s.skip(k),
            progress(s, k, protected, p, n).0,
            protected,
            p,
        ) == propagate_from(s, nothing_known(n), protected, p),
    decreases k,
{
    if k == 0 {
        assert(s.skip(0) == s);
        assert(Seq::<SpecStatement>::empty() + propagate_from(
            s,
            nothing_known(n),
            protected,
            p,
        ) == propagate_from(s, nothing_known(n), protected, p));
    } else {
        lemma_progress(s, k - 1, protected, p, n);
        let (sub, out) = progress(s, k - 1, protected, p, n);
        let rest = s.skip(k - 1);
        assert(rest[0] == s[k - 1]);
        assert(rest.drop_first() == s.skip(k));
        let r = rewrite(s[k - 1], sub, p);
        if !foldable(r, protected, p) {
            let tail = propagate_from(s.skip(k), sub, protected, p);
            assert(out.push(r) + tail == out + (seq![r] + tail));
        }
    }
}

/// After any number of statements of a run that succeeds, the
/// propagated program has run as far, and what has been found out keeps
/// track of the two.
proof fn lemma_simulation(
    s: Seq<SpecStatement>,
    protected: Seq<bool>,
    w0: Seq<Option<u64>>,
    p: int,
    k: int,
)
    requires
        0 <= k <= s.len(),
        2 <= p <= u64::MAX,
        w0.len() > 0,
        statements_wf(s, p, w0.len() as int),
        has_one(w0),
        within(w0, p),
        run(s, w0, p) is Ok,
    ensures
        run(s.take(k), w0, p) is Ok,
        run(progress(s, k, protected, p, w0.len() as int).1, w0, p) is Ok,
        tracks(
            progress(s, k, protected, p, w0.len() as int).0,
            run(s.take(k), w0, p).unwrap(),
            run(progress(s, k, protected, p, w0.len() as int).1, w0, p).unwrap(),
            p,
        ),
    decreases k,
{
    let n = w0.len() as int;
    lemma_run_prefix(s, k, w0, p);
    if k == 0 {
        assert(s.take(0) == Seq::<SpecStatement>::empty());
    } else {
        lemma_simulation(s, protected, w0, p, k - 1);
        lemma_run_prefix(s, k - 1, w0, p);
        lemma_progress_wf(s, k - 1, protected, p, n);
        let (sub, out) = progress(s, k - 1, protected, p, n);
        let x = s[k - 1];
        let w = run(s.take(k - 1), w0, p).unwrap();
        let part = run(out, w0, p).unwrap();
        assert(s.take(k) == s.take(k - 1).push(x));
        lemma_run_push(s.take(k - 1), x, w0, p);
        lemma_run_extends(s.take(k - 1), w0, p);
        lemma_run_extends(out, w0, p);
        assert(w0[0] is Some);
        assert(has_one(part));
        assert(step_ready(x, sub, w, part, p));
        lemma_step(x, sub, protected, w, part, p);
        let r = rewrite(x, sub, p);
        if !foldable(r, protected, p) {
            lemma_run_push(out, r, w0, p);
        }
    }
}

/// Propagation is sound. Where a program runs to the end on `inputs`,
/// so does the propagated program; every variable that the propagated
/// program assigns has the value that the whole program gives it, and
/// the returned values are the same.
pub proof fn propagation_is_sound(program: SpecProgram, inputs: Seq<u64>)
    requires
        program.wf(),
        execution(program, inputs) is Ok,
    ensures
        execution(propagated(program), inputs) is Ok,
        part_of(
            execution(propagated(program), inputs).unwrap(),
            execution(program, inputs).unwrap(),
        ),
        returned(program.outputs, execution(propagated(program), inputs).unwrap()) == returned(
            program.outputs,
            execution(program, inputs).unwrap(),
        ),
{
    let s = program.statements;
    let n = program.variable_count as int;
    let p = program.p();
    let protected = output_marks(program.outputs, n);
    let w0 = initial(n, inputs);
    let k = s.len() as int;
    lemma_initial(n, inputs, p);
    lemma_simulation(s, protected, w0, p, k);
    lemma_progress(s, k, protected, p, n);
    lemma_progress_wf(s, k, protected, p, n);
    assert(s.take(k) == s);
    assert(s.skip(k) == Seq::<SpecStatement>::empty());
    let (sub, out) = progress(s, k, protected, p, n);
    assert(out + Seq::<SpecStatement>::empty() == out);
    assert(propagated(program).statements == out);
    let w = run(s, w0, p).unwrap();
    let part = run(out, w0, p).unwrap();
    assert forall|i: int| 0 <= i < program.outputs.len() implies value_at(
        part,
        #[trigger] program.outputs[i],
    ) == value_at(w, program.outputs[i]) by {
        let id = program.outputs[i].id as int;
        assert(protected[id]);
        assert(sub[id] is None);
    }
    assert(returned(program.outputs, part) =~= returned(program.outputs, w));
}

} // verus!
