//! The rank-1 constraints of a flat program: what a proving backend
//! sees of it.

use crate::ir::interpreter::{execution, execution_is_sound, satisfied, satisfies};
use crate::ir::lincomb::{
    constant_terms, eval, lemma_eval_constant, lemma_eval_single, single, value_at, within,
    LinComb, Term, Variable,
};
use crate::ir::program::{count_constraints, Program, SpecProgram};
use crate::ir::statement::{SpecStatement, Statement};
use vstd::arithmetic::div_mod::lemma_small_mod;
use vstd::prelude::*;

verus! {

/// One rank-1 constraint: the product of the first two combinations is
/// the third.
#[derive(Debug)]
pub struct Constraint {
    pub a: LinComb,
    pub b: LinComb,
    pub c: LinComb,
}

/// The mathematical content of a [`Constraint`].
pub struct SpecConstraint {
    pub a: Seq<Term>,
    pub b: Seq<Term>,
    pub c: Seq<Term>,
}

impl View for Constraint {
    type V = SpecConstraint;

    open spec fn view(&self) -> SpecConstraint {
        SpecConstraint { a: self.a@, b: self.b@, c: self.c@ }
    }
}

/// The constraint that a statement stands for: a definition says that
/// the combination times one is the variable; a directive stands for
/// none.
pub open spec fn constraint_of(s: SpecStatement) -> Option<SpecConstraint> {
    match s {
        SpecStatement::Definition(v, e) => Some(
            SpecConstraint { a: e, b: constant_terms(1), c: single(v.id as int) },
        ),
        SpecStatement::Constraint(a, b, c) => Some(SpecConstraint { a, b, c }),
        SpecStatement::Directive(_) => None,
    }
}

/// The constraints that the statements stand for, in order.
pub open spec fn constraints_of(s: Seq<SpecStatement>) -> Seq<SpecConstraint>
    decreases s.len(),
{
    if s.len() == 0 {
        Seq::<SpecConstraint>::empty()
    } else {
        match constraint_of(s.last()) {
            Some(c) => constraints_of(s.drop_last()).push(c),
            None => constraints_of(s.drop_last()),
        }
    }
}

/// The constraints of a vector, each by its view.
pub open spec fn constraints_view(v: Seq<Constraint>) -> Seq<SpecConstraint> {
    Seq::new(v.len(), |k: int| v[k]@)
}

/// The witness meets the constraint.
pub open spec fn holds(c: SpecConstraint, w: Seq<Option<u64>>, p: int) -> bool {
    eval(c.a, w, p) is Some && eval(c.b, w, p) is Some && eval(c.c, w, p) is Some && (eval(
        c.a,
        w,
        p,
    ).unwrap() * eval(c.b, w, p).unwrap()) % p == eval(c.c, w, p).unwrap()
}

/// There are as many constraints as statements that are no directives.
pub proof fn lemma_constraints_count(s: Seq<SpecStatement>)
    ensures
        constraints_of(s).len() == count_constraints(s),
    decreases s.len(),
{
    if s.len() > 0 {
        lemma_constraints_count(s.drop_last());
    }
}

/// A witness that meets the statements meets their constraints.
proof fn lemma_constraints_hold(s: Seq<SpecStatement>, w: Seq<Option<u64>>, p: int)
    requires
        2 <= p <= u64::MAX,
        within(w, p),
        value_at(w, Variable { id: 0 }) == Some(1u64),
        satisfies(s, w, p),
    ensures
        forall|k: int|
            0 <= k < constraints_of(s).len() ==> holds(#[trigger] constraints_of(s)[k], w, p),
    decreases s.len(),
{
    if s.len() > 0 {
        let front = s.drop_last();
        assert forall|k: int| 0 <= k < front.len() implies satisfied(#[trigger] front[k], w, p) by {
            assert(front[k] == s[k]);
        }
        lemma_constraints_hold(front, w, p);
        assert(satisfied(s[s.len() - 1], w, p));
        match s.last() {
            SpecStatement::Definition(v, e) => {
                let x = eval(e, w, p).unwrap();
                lemma_eval_constant(1, w, p);
                lemma_eval_single(v, w, p);
                assert(single(v.id as int) == seq![Term { var: v, coeff: 1 }]);
                assert(x * 1 == x);
                lemma_small_mod(x as nat, p as nat);
            },
            _ => {},
        }
        let all = constraints_of(s);
        assert forall|k: int| 0 <= k < all.len() implies holds(#[trigger] all[k], w, p) by {
            if k < constraints_of(front).len() {
                assert(all[k] == constraints_of(front)[k]);
            }
        }
    }
}

/// The witness of an execution is a solution of the constraint system:
/// it meets every rank-1 constraint of the program.
pub proof fn witness_solves_constraints(program: SpecProgram, inputs: Seq<u64>)
    requires
        program.wf(),
        execution(program, inputs) is Ok,
    ensures
        forall|k: int|
            0 <= k < constraints_of(program.statements).len() ==> holds(
                #[trigger] constraints_of(program.statements)[k],
                execution(program, inputs).unwrap(),
                program.p(),
            ),
{
    execution_is_sound(program, inputs);
    lemma_constraints_hold(program.statements, execution(program, inputs).unwrap(), program.p());
}

impl Program {
    /// The rank-1 constraints of the program, in the order of its
    /// statements. Directives are left out: they serve the computation
    /// of the witness alone.
    pub fn constraints(&self) -> (r: Vec<Constraint>)
        requires
            self@.wf(),
        ensures
            constraints_view(r@) == constraints_of(self@.statements),
            r@.len() == count_constraints(self@.statements),
    {
        let ghost s = self@.statements;
        let mut out: Vec<Constraint> = Vec::new();
        let mut k: usize = 0;
        proof {
            assert(s.take(0) == Seq::<SpecStatement>::empty());
            assert(constraints_view(out@) =~= Seq::<SpecConstraint>::empty());
        }
        while k < self.statements.len()
            invariant
                k <= self.statements.len(),
                self@.wf(),
                s == self@.statements,
                constraints_view(out@) == constraints_of(s.take(k as int)),
            decreases self.statements.len() - k,
        {
            let ghost before = out@;
            proof {
                assert(s.take(k + 1).drop_last() == s.take(k as int));
                assert(s.take(k + 1).last() == self.statements@[k as int]@);
            }
            match &self.statements[k] {
                Statement::Definition(v, e) => {
                    let one = LinComb::constant(1, &self.field);
                    proof {
                        lemma_small_mod(1, self.field.modulus as nat);
                    }
                    let c = Constraint { a: e.clone(), b: one, c: LinComb::variable(*v) };
                    out.push(c);
                    assert(constraints_view(out@) =~= constraints_view(before).push(c@));
                },
                Statement::Constraint(a, b, c) => {
                    let c = Constraint { a: a.clone(), b: b.clone(), c: c.clone() };
                    out.push(c);
                    assert(constraints_view(out@) =~= constraints_view(before).push(c@));
                },
                Statement::Directive(_) => {},
            }
            k += 1;
        }
        proof {
            assert(s.take(k as int) == s);
            lemma_constraints_count(s);
        }
        out
    }
}

} // verus!
