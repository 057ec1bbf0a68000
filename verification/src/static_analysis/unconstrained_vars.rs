//! Removal of statements whose results nothing uses.
//!
//! A variable is live when an output, a constraint, or a statement that
//! was kept reads it. Statements are visited from the last to the first;
//! a definition or a directive is kept exactly when something it assigns
//! is live, and constraints are always kept.

use crate::ir::interpreter::{
    execution, initial, lemma_apply_frame, lemma_run_length, lemma_run_prefix, lemma_run_push,
    part_of, returned, run, writes,
};
use crate::ir::lincomb::{eval, lemma_sum_agree, value_at, LinComb, Term, Variable};
use crate::ir::program::{output_marks, statements_view, Program, SpecProgram};
use crate::ir::statement::{
    apply, assign_bits, statement_wf, Directive, SpecDirective, SpecStatement, Statement,
};
use vstd::prelude::*;

verus! {

/// The combination has a term in the variable with index `id`.
pub open spec fn mentions(t: Seq<Term>, id: int) -> bool {
    exists|k: int| 0 <= k < t.len() && (#[trigger] t[k]).var.id == id
}

/// The statement reads the variable with index `id`.
pub open spec fn reads(s: SpecStatement, id: int) -> bool {
    match s {
        SpecStatement::Definition(_, e) => mentions(e, id),
        SpecStatement::Constraint(a, b, c) => mentions(a, id) || mentions(b, id) || mentions(c, id),
        SpecStatement::Directive(d) => match d {
            SpecDirective::Product(_, a, b) => mentions(a, id) || mentions(b, id),
            SpecDirective::Quotient(_, a, b) => mentions(a, id) || mentions(b, id),
            SpecDirective::NonZero(_, _, x) => mentions(x, id),
            SpecDirective::Bits(_, _, x) => mentions(x, id),
        },
    }
}

/// Whether the variable with index `id` is marked.
pub open spec fn marked(live: Seq<bool>, id: int) -> bool {
    0 <= id < live.len() && live[id]
}

/// A statement stays when it is a constraint or assigns a live variable.
pub open spec fn kept(s: SpecStatement, live: Seq<bool>) -> bool {
    s is Constraint || exists|id: int| writes(s, id) && #[trigger] marked(live, id)
}

/// `live`, and the variables that `s` reads.
pub open spec fn with_reads(live: Seq<bool>, s: SpecStatement) -> Seq<bool> {
    Seq::new(live.len(), |id: int| live[id] || reads(s, id))
}

/// The variables that are live just before statement `k`.
pub open spec fn live_from(s: Seq<SpecStatement>, k: int, last: Seq<bool>) -> Seq<bool>
    decreases s.len() - k,
{
    if k < 0 || k >= s.len() {
        last
    } else {
        let after = live_from(s, k + 1, last);
        if kept(s[k], after) {
            with_reads(after, s[k])
        } else {
            after
        }
    }
}

/// For each statement, whether it stays.
pub open spec fn keep_flags(s: Seq<SpecStatement>, last: Seq<bool>) -> Seq<bool> {
    Seq::new(s.len(), |k: int| kept(s[k], live_from(s, k + 1, last)))
}

/// The statements whose flag is set, in their order.
pub open spec fn select(s: Seq<SpecStatement>, flags: Seq<bool>) -> Seq<SpecStatement>
    recommends
        s.len() == flags.len(),
    decreases s.len(),
{
    if s.len() == 0 {
        Seq::<SpecStatement>::empty()
    } else if flags.last() {
        select(s.drop_last(), flags.drop_last()).push(s.last())
    } else {
        select(s.drop_last(), flags.drop_last())
    }
}

/// The program without the statements whose results nothing uses.
pub open spec fn without_dead_code(program: SpecProgram) -> SpecProgram {
    SpecProgram {
        statements: select(
            program.statements,
            keep_flags(
                program.statements,
                output_marks(program.outputs, program.variable_count as int),
            ),
        ),
        ..program
    }
}

/// Finds and removes the statements that no output and no constraint
/// depends on.
#[derive(Clone, Copy, Debug)]
pub struct UnconstrainedVariableDetector {}

/// Marks the variables of `e` in `live`.
fn mark_terms(live: &mut Vec<bool>, e: &LinComb)
    ensures
        final(live).len() == old(live).len(),
        forall|id: int|
            0 <= id < old(live).len() ==> #[trigger] final(live)@[id] == (old(live)@[id] || mentions(
                e@,
                id,
            )),
{
    let ghost t = e@;
    let ghost start = live@;
    let mut k: usize = 0;
    assert forall|id: int| 0 <= id < start.len() implies !mentions(t.take(0), id) by {}
    while k < e.terms.len()
        invariant
            k <= e.terms.len(),
            t == e@,
            start == old(live)@,
            live.len() == start.len(),
            forall|id: int|
                0 <= id < start.len() ==> #[trigger] live@[id] == (start[id] || mentions(
                    t.take(k as int),
                    id,
                )),
        decreases e.terms.len() - k,
    {
        let id = e.terms[k].var.id;
        let ghost before = live@;
        if id < live.len() {
            live.set(id, true);
        }
        proof {
            let prefix = t.take(k as int);
            let next = t.take(k + 1);
            assert(next[k as int] == t[k as int]);
            assert(next[k as int].var.id == id);
            assert forall|j: int| 0 <= j < start.len() implies #[trigger] live@[j] == (start[j]
                || mentions(next, j)) by {
                assert(before[j] == (start[j] || mentions(prefix, j)));
                if mentions(prefix, j) {
                    let m = choose|m: int| 0 <= m < prefix.len() && (#[trigger] prefix[m]).var.id == j;
                    assert(next[m] == prefix[m]);
                    assert(mentions(next, j));
                }
                if j == id {
                    assert(mentions(next, j));
                } else {
                    assert(live@[j] == before[j]);
                    if mentions(next, j) {
                        let m = choose|m: int| 0 <= m < next.len() && (#[trigger] next[m]).var.id == j;
                        assert(m != k);
                        assert(prefix[m] == next[m]);
                        assert(mentions(prefix, j));
                    }
                }
            }
        }
        k += 1;
    }
    assert(t.take(k as int) == t);
}

/// Marks the variables that `s` reads.
fn mark_reads(live: &mut Vec<bool>, s: &Statement)
    ensures
        final(live)@ == with_reads(old(live)@, s@),
{
    let ghost w0 = live@;
    match s {
        Statement::Definition(_, e) => {
            mark_terms(live, e);
        },
        Statement::Constraint(a, b, c) => {
            mark_terms(live, a);
            let ghost w1 = live@;
            mark_terms(live, b);
            let ghost w2 = live@;
            mark_terms(live, c);
            assert forall|id: int| 0 <= id < w0.len() implies #[trigger] live@[id] == (w0[id]
                || reads(s@, id)) by {
                assert(w1[id] == (w0[id] || mentions(a@, id)));
                assert(w2[id] == (w1[id] || mentions(b@, id)));
            }
        },
        Statement::Directive(d) => match d {
            Directive::Product(_, a, b) => {
                mark_terms(live, a);
                let ghost w1 = live@;
                mark_terms(live, b);
                assert forall|id: int| 0 <= id < w0.len() implies #[trigger] live@[id] == (w0[id]
                    || reads(s@, id)) by {
                    assert(w1[id] == (w0[id] || mentions(a@, id)));
                }
            },
            Directive::Quotient(_, a, b) => {
                mark_terms(live, a);
                let ghost w1 = live@;
                mark_terms(live, b);
                assert forall|id: int| 0 <= id < w0.len() implies #[trigger] live@[id] == (w0[id]
                    || reads(s@, id)) by {
                    assert(w1[id] == (w0[id] || mentions(a@, id)));
                }
            },
            Directive::NonZero(_, _, x) => {
                mark_terms(live, x);
            },
            Directive::Bits(_, _, x) => {
                mark_terms(live, x);
            },
        },
    }
    assert(live@ =~= with_reads(w0, s@));
}

/// Whether the variable is marked.
fn is_marked(live: &Vec<bool>, v: Variable) -> (r: bool)
    ensures
        r == marked(live@, v.id as int),
{
    v.id < live.len() && live[v.id]
}

/// Whether `s` stays, given what is live after it.
fn is_kept(s: &Statement, live: &Vec<bool>) -> (r: bool)
    ensures
        r == kept(s@, live@),
{
    match s {
        Statement::Definition(v, _) => {
            let r = is_marked(live, *v);
            assert(r ==> writes(s@, v.id as int) && marked(live@, v.id as int));
            r
        },
        Statement::Constraint(_, _, _) => true,
        Statement::Directive(d) => match d {
            Directive::Product(o, _, _) => {
                let r = is_marked(live, *o);
                assert(r ==> writes(s@, o.id as int) && marked(live@, o.id as int));
                r
            },
            Directive::Quotient(o, _, _) => {
                let r = is_marked(live, *o);
                assert(r ==> writes(s@, o.id as int) && marked(live@, o.id as int));
                r
            },
            Directive::NonZero(f, i, _) => {
                let a = is_marked(live, *f);
                let b = is_marked(live, *i);
                assert(a ==> writes(s@, f.id as int) && marked(live@, f.id as int));
                assert(b ==> writes(s@, i.id as int) && marked(live@, i.id as int));
                a || b
            },
            Directive::Bits(f, count, x) => {
                let n = live.len();
                let mut i: usize = 0;
                while i < *count
                    invariant
                        i <= *count,
                        n == live@.len(),
                        s@ == SpecStatement::Directive(SpecDirective::Bits(*f, *count, x@)),
                        forall|id: int| f.id <= id < f.id + i ==> !#[trigger] marked(live@, id),
                    decreases *count - i,
                {
                    if f.id <= usize::MAX - i {
                        if is_marked(live, Variable { id: f.id + i }) {
                            assert(writes(s@, f.id + i) && marked(live@, f.id + i));
                            return true;
                        }
                    } else {
                        assert(!marked(live@, f.id + i));
                    }
                    i += 1;
                }
                false
            },
        },
    }
}

impl UnconstrainedVariableDetector {
    /// Removes from `program` every definition and directive whose
    /// results reach no output and no constraint. Constraints, the
    /// signature and the order of what stays are unchanged.
    pub fn detect(program: Program) -> (r: Program)
        requires
            program@.wf(),
        ensures
            r@ == without_dead_code(program@),
            r@.wf(),
    {
        let ghost s = program@.statements;
        let n = program.statements.len();
        let mut live = program.output_marks();
        let ghost last = live@;
        // from the last statement to the first
        let mut flags: Vec<bool> = Vec::new();
        while flags.len() < n
            invariant
                flags.len() <= n,
            decreases n - flags.len(),
        {
            flags.push(false);
        }
        let mut k: usize = n;
        while k > 0
            invariant
                k <= n,
                n == program.statements.len(),
                s == program@.statements,
                flags.len() == n,
                live@ == live_from(s, k as int, last),
                forall|m: int| k <= m < n ==> flags@[m] == kept(s[m], live_from(s, m + 1, last)),
            decreases k,
        {
            k -= 1;
            assert(s[k as int] == program.statements@[k as int]@);
            let keep = is_kept(&program.statements[k], &live);
            if keep {
                mark_reads(&mut live, &program.statements[k]);
            }
            flags.set(k, keep);
        }
        assert(flags@ =~= keep_flags(s, last));
        // what stays, in order
        let mut statements: Vec<Statement> = Vec::new();
        let mut i: usize = 0;
        assert(s.take(0) == Seq::<SpecStatement>::empty());
        while i < n
            invariant
                i <= n,
                n == program.statements.len(),
                flags.len() == n,
                s == program@.statements,
                program@.wf(),
                statements_view(statements@) == select(s.take(i as int), flags@.take(i as int)),
                forall|m: int|
                    0 <= m < statements.len() ==> statement_wf(
                        #[trigger] statements_view(statements@)[m],
                        program@.p(),
                        program.variable_count as int,
                    ),
            decreases n - i,
        {
            assert(s.take(i + 1).drop_last() == s.take(i as int));
            assert(flags@.take(i + 1).drop_last() == flags@.take(i as int));
            assert(s[i as int] == program.statements@[i as int]@);
            if flags[i] {
                let ghost before = statements@;
                let copy = program.statements[i].clone();
                statements.push(copy);
                assert(statements_view(statements@) =~= statements_view(before).push(s[i as int]));
            }
            i += 1;
        }
        assert(s.take(i as int) == s);
        assert(flags@.take(i as int) == flags@);
        Program {
            field: program.field,
            private: program.private,
            variable_count: program.variable_count,
            statements,
            outputs: program.outputs,
            light: program.light,
        }
    }
}

} // verus!

verus! {

/// The two assignments give every marked variable the same value.
pub open spec fn agree_on(live: Seq<bool>, a: Seq<Option<u64>>, b: Seq<Option<u64>>) -> bool {
    forall|id: int| 0 <= id < live.len() && #[trigger] live[id] ==> a[id] == b[id]
}

/// A combination has the same value under two assignments that agree on
/// its variables.
proof fn lemma_eval_agree(t: Seq<Term>, a: Seq<Option<u64>>, b: Seq<Option<u64>>, p: int)
    requires
        a.len() == b.len(),
        forall|id: int| 0 <= id < a.len() && mentions(t, id) ==> a[id] == b[id],
    ensures
        eval(t, a, p) == eval(t, b, p),
{
    assert forall|k: int| 0 <= k < t.len() implies value_at(a, (#[trigger] t[k]).var) == value_at(
        b,
        t[k].var,
    ) by {
        assert(mentions(t, t[k].var.id as int));
    }
    lemma_sum_agree(t, a, b);
}

/// A statement that runs on `w` runs in the same way on a part of `w`
/// that holds everything the statement reads.
proof fn lemma_apply_agree(
    s: SpecStatement,
    w: Seq<Option<u64>>,
    part: Seq<Option<u64>>,
    p: int,
)
    requires
        part_of(part, w),
        apply(s, w, p) is Ok,
        forall|id: int| 0 <= id < w.len() && reads(s, id) ==> part[id] == w[id],
    ensures
        apply(s, part, p) is Ok,
        part_of(apply(s, part, p).unwrap(), apply(s, w, p).unwrap()),
        forall|id: int|
            0 <= id < w.len() && (part[id] == w[id] || writes(s, id)) ==> #[trigger] apply(
                s,
                part,
                p,
            ).unwrap()[id] == apply(s, w, p).unwrap()[id],
{
    match s {
        SpecStatement::Definition(v, e) => {
            lemma_eval_agree(e, part, w, p);
        },
        SpecStatement::Constraint(a, b, c) => {
            lemma_eval_agree(a, part, w, p);
            lemma_eval_agree(b, part, w, p);
            lemma_eval_agree(c, part, w, p);
        },
        SpecStatement::Directive(d) => match d {
            SpecDirective::Product(o, a, b) => {
                lemma_eval_agree(a, part, w, p);
                lemma_eval_agree(b, part, w, p);
            },
            SpecDirective::Quotient(o, a, b) => {
                lemma_eval_agree(a, part, w, p);
                lemma_eval_agree(b, part, w, p);
            },
            SpecDirective::NonZero(f, i, x) => {
                lemma_eval_agree(x, part, w, p);
            },
            SpecDirective::Bits(f, count, x) => {
                lemma_eval_agree(x, part, w, p);
                lemma_assign_bits_agree(w, part, f, count as int, eval(x, w, p).unwrap() as int);
            },
        },
    }
}

/// Bits that can be assigned in the whole can be assigned in a part of
/// it, with the same outcome.
proof fn lemma_assign_bits_agree(
    w: Seq<Option<u64>>,
    part: Seq<Option<u64>>,
    first: Variable,
    count: int,
    x: int,
)
    requires
        0 <= count,
        part_of(part, w),
        assign_bits(w, first, count, x) is Ok,
    ensures
        assign_bits(part, first, count, x) is Ok,
        part_of(assign_bits(part, first, count, x).unwrap(), assign_bits(w, first, count, x).unwrap()),
        forall|id: int|
            0 <= id < w.len() && (part[id] == w[id] || first.id <= id < first.id + count)
                ==> #[trigger] assign_bits(part, first, count, x).unwrap()[id] == assign_bits(
                w,
                first,
                count,
                x,
            ).unwrap()[id],
    decreases count,
{
    if count > 0 {
        lemma_assign_bits_agree(w, part, first, count - 1, x);
        crate::ir::interpreter::lemma_assign_bits_frame(w, first, count - 1, x);
        crate::ir::interpreter::lemma_assign_bits_frame(part, first, count - 1, x);
    }
}

proof fn lemma_live_from(s: Seq<SpecStatement>, k: int, last: Seq<bool>)
    requires
        0 <= k <= s.len(),
    ensures
        live_from(s, k, last).len() == last.len(),
        k < s.len() ==> forall|id: int|
            marked(live_from(s, k + 1, last), id) ==> marked(live_from(s, k, last), id),
    decreases s.len() - k,
{
    if k < s.len() {
        lemma_live_from(s, k + 1, last);
    }
}

/// One statement that was kept: it runs on the part as on the whole.
proof fn lemma_step_kept(
    s: SpecStatement,
    after: Seq<bool>,
    w: Seq<Option<u64>>,
    part: Seq<Option<u64>>,
    p: int,
)
    requires
        after.len() == w.len(),
        part_of(part, w),
        agree_on(with_reads(after, s), part, w),
        apply(s, w, p) is Ok,
    ensures
        apply(s, part, p) is Ok,
        part_of(apply(s, part, p).unwrap(), apply(s, w, p).unwrap()),
        agree_on(after, apply(s, part, p).unwrap(), apply(s, w, p).unwrap()),
{
    let before = with_reads(after, s);
    assert forall|id: int| 0 <= id < w.len() && reads(s, id) implies part[id] == w[id] by {
        assert(before[id]);
    }
    lemma_apply_agree(s, w, part, p);
    let part2 = apply(s, part, p).unwrap();
    let w2 = apply(s, w, p).unwrap();
    assert forall|id: int| 0 <= id < after.len() && #[trigger] after[id] implies part2[id]
        == w2[id] by {
        assert(before[id]);
    }
}

/// One statement that was dropped: what is live after it is untouched.
proof fn lemma_step_dropped(
    s: SpecStatement,
    after: Seq<bool>,
    w: Seq<Option<u64>>,
    part: Seq<Option<u64>>,
    p: int,
)
    requires
        after.len() == w.len(),
        part_of(part, w),
        agree_on(after, part, w),
        !kept(s, after),
        apply(s, w, p) is Ok,
    ensures
        part_of(part, apply(s, w, p).unwrap()),
        agree_on(after, part, apply(s, w, p).unwrap()),
{
    lemma_apply_frame(s, w, p);
    let w2 = apply(s, w, p).unwrap();
    assert forall|id: int| 0 <= id < after.len() && #[trigger] after[id] implies part[id]
        == w2[id] by {
        assert(marked(after, id));
        assert(!writes(s, id));
    }
    assert forall|id: int| 0 <= id < part.len() && (#[trigger] part[id]) is Some implies part[id]
        == w2[id] by {
        if writes(s, id) {
            assert(w[id] is None);
        }
    }
}

/// How the selection goes on by one statement.
proof fn lemma_select_push(s: Seq<SpecStatement>, flags: Seq<bool>, x: SpecStatement, f: bool)
    requires
        s.len() == flags.len(),
    ensures
        select(s.push(x), flags.push(f)) == if f {
            select(s, flags).push(x)
        } else {
            select(s, flags)
        },
{
    assert(s.push(x).drop_last() == s);
    assert(flags.push(f).drop_last() == flags);
}

/// After any number of statements, the shortened program has computed a
/// part of what the whole program has, and the two agree on every
/// variable that is still live.
proof fn lemma_shortened_run(
    s: Seq<SpecStatement>,
    last: Seq<bool>,
    w0: Seq<Option<u64>>,
    p: int,
    k: int,
)
    requires
        0 <= k <= s.len(),
        last.len() == w0.len(),
        run(s, w0, p) is Ok,
    ensures
        run(s.take(k), w0, p) is Ok,
        run(select(s.take(k), keep_flags(s, last).take(k)), w0, p) is Ok,
        part_of(
            run(select(s.take(k), keep_flags(s, last).take(k)), w0, p).unwrap(),
            run(s.take(k), w0, p).unwrap(),
        ),
        agree_on(
            live_from(s, k, last),
            run(select(s.take(k), keep_flags(s, last).take(k)), w0, p).unwrap(),
            run(s.take(k), w0, p).unwrap(),
        ),
    decreases k,
{
    let flags = keep_flags(s, last);
    lemma_run_prefix(s, k, w0, p);
    lemma_live_from(s, k, last);
    if k == 0 {
        assert(s.take(0) == Seq::<SpecStatement>::empty());
        assert(select(s.take(0), flags.take(0)) == Seq::<SpecStatement>::empty());
    } else {
        lemma_shortened_run(s, last, w0, p, k - 1);
        lemma_run_prefix(s, k - 1, w0, p);
        let x = s[k - 1];
        let f = flags[k - 1];
        let whole_before = s.take(k - 1);
        let short_before = select(whole_before, flags.take(k - 1));
        assert(s.take(k) == whole_before.push(x));
        assert(flags.take(k) == flags.take(k - 1).push(f));
        lemma_run_push(whole_before, x, w0, p);
        lemma_select_push(whole_before, flags.take(k - 1), x, f);
        let w = run(whole_before, w0, p).unwrap();
        let part = run(short_before, w0, p).unwrap();
        let after = live_from(s, k, last);
        assert(f == kept(x, after));
        assert(after.len() == w.len()) by {
            lemma_run_length(whole_before, w0, p);
        }
        if f {
            assert(live_from(s, k - 1, last) == with_reads(after, x));
            lemma_step_kept(x, after, w, part, p);
            lemma_run_push(short_before, x, w0, p);
        } else {
            assert(live_from(s, k - 1, last) == after);
            lemma_step_dropped(x, after, w, part, p);
        }
    }
}

/// Removing dead code changes no value that is left. Where the program
/// runs to the end on `inputs`, so does the shortened program; every
/// variable that the shortened program assigns has the value that the
/// whole program gives it, and the returned values are the same.
pub proof fn dead_code_safety(program: SpecProgram, inputs: Seq<u64>)
    requires
        program.wf(),
        execution(program, inputs) is Ok,
    ensures
        execution(without_dead_code(program), inputs) is Ok,
        part_of(
            execution(without_dead_code(program), inputs).unwrap(),
            execution(program, inputs).unwrap(),
        ),
        returned(program.outputs, execution(without_dead_code(program), inputs).unwrap())
            == returned(program.outputs, execution(program, inputs).unwrap()),
{
    let s = program.statements;
    let n = program.variable_count as int;
    let last = output_marks(program.outputs, n);
    let w0 = initial(n, inputs);
    let p = program.p();
    let k = s.len() as int;
    lemma_shortened_run(s, last, w0, p, k);
    assert(s.take(k) == s);
    assert(keep_flags(s, last).take(k) == keep_flags(s, last));
    let w = run(s, w0, p).unwrap();
    let part = run(without_dead_code(program).statements, w0, p).unwrap();
    assert(live_from(s, k, last) == last);
    assert forall|i: int| 0 <= i < program.outputs.len() implies value_at(
        part,
        #[trigger] program.outputs[i],
    ) == value_at(w, program.outputs[i]) by {
        let id = program.outputs[i].id as int;
        assert(last[id]);
    }
    assert(returned(program.outputs, part) =~= returned(program.outputs, w));
}

} // verus!
