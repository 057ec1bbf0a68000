//! Lowering of typed expressions into flat statements.
//!
//! Sums, differences and products with a constant stay linear. A product
//! of two combinations, a quotient, a comparison and a choice each take
//! fresh variables, a directive that computes their values, and the
//! constraints that check them. Booleans are the field elements 0 and 1.

pub mod completeness;
pub mod program;
pub mod shape;
pub mod soundness;

use crate::field::Field;
use crate::ir::lincomb::{
    canonical, complement, constant_of, constant_terms, constant_value, difference, is_constant,
    lemma_arithmetic_vars_below, merge, replacements, scaled, single, LinComb, Term, Variable,
};
use crate::ir::program::{statements_view, Program, SpecProgram};
use crate::ir::statement::{
    linear_wf, statement_wf, Directive, SpecDirective, SpecStatement, Statement,
};
use crate::static_analysis::flat_propagation::{statements_wf, substitution_wf};
use crate::typed_absy::{
    comparison_width, lemma_two_to_grows, lemma_typed_view, lemma_width, power_of_two, two_to,
    typed_view, width, Expression, Identifier, Kind, Operator, Parameter, SpecTypedProgram,
    SpecTypedStatement, TypedProgram, TypedStatement,
};
use vstd::arithmetic::div_mod::{lemma_mod_bound, lemma_small_mod};
use vstd::prelude::*;

verus! {

/// Why a program could not be lowered.
#[derive(Clone, Copy, Debug, PartialEq, Eq, Structural)]
pub enum FlattenError {
    /// An expression reads a variable that nothing has defined.
    UnknownIdentifier(Identifier),
    /// The program needs more variables than can be numbered.
    TooManyVariables,
    /// A statement is left that should have been removed before.
    NotLowered,
}

/// What an expression lowers to: the statements to run, the combination
/// that then holds its value, and the next free variable.
pub struct Flat {
    pub statements: Seq<SpecStatement>,
    pub result: Seq<Term>,
    pub next: int,
}

/// The combination that stands for a typed variable.
pub open spec fn bound(layout: Seq<Option<Seq<Term>>>, id: Identifier) -> Option<Seq<Term>> {
    if id.id < layout.len() {
        layout[id.id as int]
    } else {
        None
    }
}

/// The statements that give variable `v` the product of `a` and `b`.
pub open spec fn product(a: Seq<Term>, b: Seq<Term>, v: int) -> Seq<SpecStatement> {
    seq![
        SpecStatement::Directive(SpecDirective::Product(Variable { id: v as usize }, a, b)),
        SpecStatement::Constraint(a, b, single(v)),
    ]
}

/// The statements that give variable `v` the quotient of `a` by `b`.
pub open spec fn quotient(a: Seq<Term>, b: Seq<Term>, v: int) -> Seq<SpecStatement> {
    seq![
        SpecStatement::Directive(SpecDirective::Quotient(Variable { id: v as usize }, a, b)),
        SpecStatement::Constraint(b, single(v), a),
    ]
}

/// The statements that give variable `v` 0 where `d` is zero and 1
/// elsewhere, with the help of variable `v + 1`.
pub open spec fn nonzero(d: Seq<Term>, v: int, p: int) -> Seq<SpecStatement> {
    seq![
        SpecStatement::Directive(
            SpecDirective::NonZero(Variable { id: v as usize }, Variable { id: (v + 1) as usize }, d),
        ),
        SpecStatement::Constraint(d, single(v + 1), single(v)),
        SpecStatement::Constraint(complement(single(v), p), d, Seq::<Term>::empty()),
    ]
}

/// The sum of the `count` variables from `first` on, each times the
/// power of two of its place.
pub open spec fn bits_sum(first: int, count: int) -> Seq<Term> {
    Seq::new(
        count as nat,
        |i: int| Term { var: Variable { id: (first + i) as usize }, coeff: two_to(i) as u64 },
    )
}

/// The constraints that let each of the `count` variables from `first`
/// on be 0 or 1 only.
pub open spec fn booleans(first: int, count: int, p: int) -> Seq<SpecStatement> {
    Seq::new(
        count as nat,
        |i: int|
            SpecStatement::Constraint(
                single(first + i),
                complement(single(first + i), p),
                Seq::<Term>::empty(),
            ),
    )
}

/// The statements that give the `count` variables from `first` on the
/// bits of a combination: the directive that computes them, the
/// constraints that make them bits, and the constraint that makes their
/// sum the combination.
pub open spec fn decomposition(t: Seq<Term>, first: int, count: int, p: int) -> Seq<SpecStatement> {
    seq![
        SpecStatement::Directive(
            SpecDirective::Bits(Variable { id: first as usize }, count as usize, t),
        ),
    ] + booleans(first, count, p) + seq![
        SpecStatement::Constraint(bits_sum(first, count), constant_terms(1), t),
    ]
}

/// The first combination minus the second, moved up by two to the
/// power of `n`.
pub open spec fn shifted_difference(a: Seq<Term>, b: Seq<Term>, n: int, p: int) -> Seq<Term> {
    merge(difference(a, b, p), constant_terms(two_to(n)), p)
}

/// What an operator on two lowered operands lowers to.
#[verifier::opaque]
pub open spec fn combine(op: Operator, a: Seq<Term>, b: Seq<Term>, next: int, p: int) -> Result<
    Flat,
    FlattenError,
> {
    let none = Seq::<SpecStatement>::empty();
    match op {
        Operator::Add => Ok(Flat { statements: none, result: merge(a, b, p), next }),
        Operator::Sub => Ok(Flat { statements: none, result: difference(a, b, p), next }),
        Operator::Mult => if is_constant(a) {
            Ok(Flat { statements: none, result: scaled(b, constant_value(a), p), next })
        } else if is_constant(b) {
            Ok(Flat { statements: none, result: scaled(a, constant_value(b), p), next })
        } else if next < usize::MAX {
            Ok(Flat { statements: product(a, b, next), result: single(next), next: next + 1 })
        } else {
            Err(FlattenError::TooManyVariables)
        },
        Operator::Div => if next < usize::MAX {
            Ok(Flat { statements: quotient(a, b, next), result: single(next), next: next + 1 })
        } else {
            Err(FlattenError::TooManyVariables)
        },
        Operator::Eq => if next + 1 < usize::MAX {
            Ok(
                Flat {
                    statements: nonzero(difference(a, b, p), next, p),
                    result: complement(single(next), p),
                    next: next + 2,
                },
            )
        } else {
            Err(FlattenError::TooManyVariables)
        },
        Operator::Lt => if next + 3 * width(p) + 1 <= usize::MAX {
            Ok(
                Flat {
                    statements: decomposition(a, next, width(p), p) + decomposition(
                        b,
                        next + width(p),
                        width(p),
                        p,
                    ) + decomposition(
                        shifted_difference(a, b, width(p), p),
                        next + 2 * width(p),
                        width(p) + 1,
                        p,
                    ),
                    result: complement(single(next + 3 * width(p)), p),
                    next: next + 3 * width(p) + 1,
                },
            )
        } else {
            Err(FlattenError::TooManyVariables)
        },
        Operator::And => if next < usize::MAX {
            Ok(Flat { statements: product(a, b, next), result: single(next), next: next + 1 })
        } else {
            Err(FlattenError::TooManyVariables)
        },
        Operator::Or => if next < usize::MAX {
            Ok(
                Flat {
                    statements: product(a, b, next),
                    result: difference(merge(a, b, p), single(next), p),
                    next: next + 1,
                },
            )
        } else {
            Err(FlattenError::TooManyVariables)
        },
    }
}

/// What a choice between two lowered branches lowers to: the condition
/// times the first branch plus its complement times the second.
pub open spec fn choice(c: Seq<Term>, a: Seq<Term>, b: Seq<Term>, next: int, p: int) -> Result<
    Flat,
    FlattenError,
> {
    if next + 1 < usize::MAX {
        Ok(
            Flat {
                statements: product(c, a, next) + product(complement(c, p), b, next + 1),
                result: merge(single(next), single(next + 1), p),
                next: next + 2,
            },
        )
    } else {
        Err(FlattenError::TooManyVariables)
    }
}

/// What an expression lowers to, with `layout` giving the combination of
/// each typed variable and `next` the first free flat variable.
pub open spec fn flat(e: Expression, layout: Seq<Option<Seq<Term>>>, next: int, p: int) -> Result<
    Flat,
    FlattenError,
>
    decreases e,
{
    match e {
        Expression::Number(c) => Ok(
            Flat {
                statements: Seq::<SpecStatement>::empty(),
                result: constant_terms(c as int % p),
                next,
            },
        ),
        Expression::Boolean(b) => Ok(
            Flat {
                statements: Seq::<SpecStatement>::empty(),
                result: constant_terms(
                    if b {
                        1
                    } else {
                        0
                    },
                ),
                next,
            },
        ),
        Expression::Variable(id) => match bound(layout, id) {
            Some(t) => Ok(Flat { statements: Seq::<SpecStatement>::empty(), result: t, next }),
            None => Err(FlattenError::UnknownIdentifier(id)),
        },
        Expression::Flag(id) => match bound(layout, id) {
            Some(t) => Ok(Flat { statements: Seq::<SpecStatement>::empty(), result: t, next }),
            None => Err(FlattenError::UnknownIdentifier(id)),
        },
        Expression::Binary(op, a, b) => match flat(*a, layout, next, p) {
            Err(e) => Err(e),
            Ok(fa) => match flat(*b, layout, fa.next, p) {
                Err(e) => Err(e),
                Ok(fb) => match combine(op, fa.result, fb.result, fb.next, p) {
                    Err(e) => Err(e),
                    Ok(f) => Ok(
                        Flat {
                            statements: fa.statements + fb.statements + f.statements,
                            result: f.result,
                            next: f.next,
                        },
                    ),
                },
            },
        },
        Expression::Not(a) => match flat(*a, layout, next, p) {
            Err(e) => Err(e),
            Ok(fa) => Ok(
                Flat { statements: fa.statements, result: complement(fa.result, p), next: fa.next },
            ),
        },
        Expression::IfElse(c, a, b) => match flat(*c, layout, next, p) {
            Err(e) => Err(e),
            Ok(fc) => match flat(*a, layout, fc.next, p) {
                Err(e) => Err(e),
                Ok(fa) => match flat(*b, layout, fa.next, p) {
                    Err(e) => Err(e),
                    Ok(fb) => match choice(fc.result, fa.result, fb.result, fb.next, p) {
                        Err(e) => Err(e),
                        Ok(f) => Ok(
                            Flat {
                                statements: fc.statements + fa.statements + fb.statements
                                    + f.statements,
                                result: f.result,
                                next: f.next,
                            },
                        ),
                    },
                },
            },
        },
    }
}

/// Lowers typed expressions and statements, numbering fresh variables as
/// it goes.
#[derive(Debug)]
pub struct Flattener {
    pub field: Field,
    /// For each typed variable, the combination that stands for it.
    pub layout: Vec<Option<LinComb>>,
    /// The first flat variable that is still free.
    pub next: usize,
    /// The statements emitted so far.
    pub statements: Vec<Statement>,
}

impl Flattener {
    /// The modulus as a mathematical integer.
    pub open spec fn p(&self) -> int {
        self.field.modulus as int
    }

    /// The layout, each combination by its view.
    pub open spec fn layout_view(&self) -> Seq<Option<Seq<Term>>> {
        replacements(self.layout@)
    }

    /// The emitted statements, each by its view.
    pub open spec fn emitted(&self) -> Seq<SpecStatement> {
        statements_view(self.statements@)
    }

    /// Everything bound or emitted is canonical and speaks of variables
    /// that have been handed out.
    pub open spec fn wf(&self) -> bool {
        &&& self.field.wf()
        &&& self.next >= 1
        &&& substitution_wf(self.layout_view(), self.p(), self.next as int)
        &&& statements_wf(self.emitted(), self.p(), self.next as int)
    }

    /// A flattener that has emitted nothing and bound nothing. Variable 0
    /// is taken: it is the constant one.
    pub fn new(field: Field) -> (r: Option<Flattener>)
        ensures
            field.wf() ==> r is Some,
            r is Some ==> r.unwrap().wf() && r.unwrap().field == field && r.unwrap().next == 1
                && r.unwrap().layout@.len() == 0 && r.unwrap().statements@.len() == 0,
            !field.wf() ==> r is None,
    {
        if field.modulus < 2 {
            None
        } else {
            Some(Flattener { field, layout: Vec::new(), next: 1, statements: Vec::new() })
        }
    }

    fn emit(&mut self, s: Statement)
        requires
            old(self).wf(),
            statement_wf(s@, old(self).p(), old(self).next as int),
        ensures
            final(self).wf(),
            final(self).field == old(self).field,
            final(self).layout == old(self).layout,
            final(self).next == old(self).next,
            final(self).emitted() == old(self).emitted().push(s@),
    {
        self.statements.push(s);
        assert(self.emitted() =~= old(self).emitted().push(s@));
    }

    /// Hands out the next free variable.
    fn fresh(&mut self) -> (r: Result<Variable, FlattenError>)
        requires
            old(self).wf(),
        ensures
            final(self).wf(),
            final(self).field == old(self).field,
            final(self).layout == old(self).layout,
            final(self).statements == old(self).statements,
            match r {
                Ok(v) => old(self).next < usize::MAX && v.id == old(self).next && final(self).next
                    == old(self).next + 1,
                Err(e) => old(self).next == usize::MAX && e == FlattenError::TooManyVariables
                    && final(self).next == old(self).next,
            },
    {
        if self.next == usize::MAX {
            Err(FlattenError::TooManyVariables)
        } else {
            let v = Variable { id: self.next };
            self.next = self.next + 1;
            proof {
                lemma_room(old(self).layout_view(), old(self).emitted(), self.p(), old(self).next as int, self.next as int);
            }
            Ok(v)
        }
    }

    /// Emits the statements that give a fresh variable the product of the
    /// two combinations, and returns the variable.
    fn emit_product(&mut self, a: &LinComb, b: &LinComb) -> (r: Result<LinComb, FlattenError>)
        requires
            old(self).wf(),
            linear_wf(a@, old(self).p(), old(self).next as int),
            linear_wf(b@, old(self).p(), old(self).next as int),
        ensures
            final(self).wf(),
            final(self).field == old(self).field,
            final(self).layout == old(self).layout,
            match r {
                Ok(l) => old(self).next < usize::MAX && l@ == single(old(self).next as int)
                    && final(self).next == old(self).next + 1 && final(self).emitted() == old(self).emitted() + product(a@, b@, old(self).next as int) && linear_wf(
                    l@,
                    final(self).p(),
                    final(self).next as int,
                ),
                Err(e) => old(self).next == usize::MAX && e == FlattenError::TooManyVariables,
            },
    {
        let v = match self.fresh() {
            Ok(v) => v,
            Err(e) => {
                return Err(e);
            },
        };
        let result = LinComb::variable(v);
        proof {
            lemma_single_wf(v.id as int, self.p(), self.next as int);
        }
        self.emit(Statement::Directive(Directive::Product(v, a.clone(), b.clone())));
        self.emit(Statement::Constraint(a.clone(), b.clone(), result.clone()));
        assert(self.emitted() =~= old(self).emitted() + product(a@, b@, old(self).next as int));
        Ok(result)
    }
}

/// The sum of bits is a canonical combination.
pub proof fn lemma_bits_sum_wf(first: int, count: int, p: int, n: int)
    requires
        0 <= first,
        0 <= count,
        first + count <= n <= usize::MAX,
        two_to(count) <= p <= u64::MAX,
    ensures
        linear_wf(bits_sum(first, count), p, n),
{
    let t = bits_sum(first, count);
    assert forall|i: int| 0 <= i < t.len() implies 0 < (#[trigger] t[i]).coeff < p by {
        lemma_two_to_grows(i + 1, count);
        lemma_two_to_grows(i, i + 1);
    }
}

/// A variable below `n`, once, is a canonical combination.
pub proof fn lemma_single_wf(v: int, p: int, n: int)
    requires
        0 <= v < n <= usize::MAX,
        p >= 2,
    ensures
        linear_wf(single(v), p, n),
{
    let t = single(v);
    assert(t[0] == Term { var: Variable { id: v as usize }, coeff: 1 });
}

/// What is well formed over the variables below `n` is so below any
/// larger bound.
pub proof fn lemma_room(
    layout: Seq<Option<Seq<Term>>>,
    statements: Seq<SpecStatement>,
    p: int,
    n: int,
    m: int,
)
    requires
        n <= m,
        substitution_wf(layout, p, n),
        statements_wf(statements, p, n),
    ensures
        substitution_wf(layout, p, m),
        statements_wf(statements, p, m),
{
    assert forall|i: int| 0 <= i < layout.len() && (#[trigger] layout[i]) is Some implies linear_wf(
        layout[i].unwrap(),
        p,
        m,
    ) by {
        assert(linear_wf(layout[i].unwrap(), p, n));
    }
    assert forall|i: int| 0 <= i < statements.len() implies statement_wf(
        #[trigger] statements[i],
        p,
        m,
    ) by {
        assert(statement_wf(statements[i], p, n));
    }
}

} // verus!

verus! {

impl Flattener {
    /// Emits the statements that give a fresh variable the quotient of
    /// `a` by `b`, and returns the variable.
    fn emit_quotient(&mut self, a: &LinComb, b: &LinComb) -> (r: Result<LinComb, FlattenError>)
        requires
            old(self).wf(),
            linear_wf(a@, old(self).p(), old(self).next as int),
            linear_wf(b@, old(self).p(), old(self).next as int),
        ensures
            final(self).wf(),
            final(self).field == old(self).field,
            final(self).layout == old(self).layout,
            match r {
                Ok(l) => old(self).next < usize::MAX && l@ == single(old(self).next as int)
                    && final(self).next == old(self).next + 1 && final(self).emitted() == old(self).emitted() + quotient(a@, b@, old(self).next as int) && linear_wf(
                    l@,
                    final(self).p(),
                    final(self).next as int,
                ),
                Err(e) => old(self).next == usize::MAX && e == FlattenError::TooManyVariables,
            },
    {
        let v = match self.fresh() {
            Ok(v) => v,
            Err(e) => {
                return Err(e);
            },
        };
        let result = LinComb::variable(v);
        proof {
            lemma_single_wf(v.id as int, self.p(), self.next as int);
        }
        self.emit(Statement::Directive(Directive::Quotient(v, a.clone(), b.clone())));
        self.emit(Statement::Constraint(b.clone(), result.clone(), a.clone()));
        assert(self.emitted() =~= old(self).emitted() + quotient(a@, b@, old(self).next as int));
        Ok(result)
    }

    /// Emits the statements that give a fresh variable 0 where `d` is
    /// zero and 1 elsewhere, and returns the complement of the variable.
    fn emit_is_zero(&mut self, d: &LinComb) -> (r: Result<LinComb, FlattenError>)
        requires
            old(self).wf(),
            linear_wf(d@, old(self).p(), old(self).next as int),
        ensures
            final(self).wf(),
            final(self).field == old(self).field,
            final(self).layout == old(self).layout,
            match r {
                Ok(l) => old(self).next + 1 < usize::MAX && l@ == complement(
                    single(old(self).next as int),
                    old(self).p(),
                ) && final(self).next == old(self).next + 2 && final(self).emitted() == old(self).emitted() + nonzero(d@, old(self).next as int, old(self).p()) && linear_wf(
                    l@,
                    final(self).p(),
                    final(self).next as int,
                ),
                Err(e) => old(self).next + 1 >= usize::MAX && e == FlattenError::TooManyVariables,
            },
    {
        if self.next >= usize::MAX - 1 {
            return Err(FlattenError::TooManyVariables);
        }
        let ghost p = self.p();
        let ghost start = self.next as int;
        let flag = match self.fresh() {
            Ok(v) => v,
            Err(e) => {
                return Err(e);
            },
        };
        let inverse = match self.fresh() {
            Ok(v) => v,
            Err(e) => {
                return Err(e);
            },
        };
        let flag_terms = LinComb::variable(flag);
        let inverse_terms = LinComb::variable(inverse);
        proof {
            lemma_single_wf(flag.id as int, p, self.next as int);
            lemma_single_wf(inverse.id as int, p, self.next as int);
        }
        let result = flag_terms.complement(&self.field);
        proof {
            lemma_arithmetic_vars_below(flag_terms@, flag_terms@, 0, p, self.next as int);
        }
        self.emit(Statement::Directive(Directive::NonZero(flag, inverse, d.clone())));
        self.emit(Statement::Constraint(d.clone(), inverse_terms, flag_terms));
        self.emit(Statement::Constraint(result.clone(), d.clone(), LinComb::zero()));
        assert(self.emitted() =~= old(self).emitted() + nonzero(d@, start, p));
        Ok(result)
    }

    /// Emits the statements that give fresh variables the bits of the
    /// combination, and returns the first of the variables; see
    /// [`decomposition`].
    fn emit_decomposition(&mut self, t: &LinComb, count: usize) -> (first: usize)
        requires
            old(self).wf(),
            linear_wf(t@, old(self).p(), old(self).next as int),
            old(self).next + count <= usize::MAX,
            count <= 63,
            two_to(count as int) <= old(self).p(),
        ensures
            final(self).wf(),
            final(self).field == old(self).field,
            final(self).layout == old(self).layout,
            first == old(self).next,
            final(self).next == old(self).next + count,
            final(self).emitted() == old(self).emitted() + decomposition(
                t@,
                old(self).next as int,
                count as int,
                old(self).p(),
            ),
    {
        let ghost p = self.p();
        let ghost before = self.emitted();
        let first = self.next;
        self.next = self.next + count;
        proof {
            lemma_room(
                old(self).layout_view(),
                old(self).emitted(),
                p,
                old(self).next as int,
                self.next as int,
            );
        }
        self.emit(Statement::Directive(Directive::Bits(Variable { id: first }, count, t.clone())));
        let ghost directive = seq![
            SpecStatement::Directive(SpecDirective::Bits(Variable { id: first }, count, t@)),
        ];
        let ghost all_booleans = booleans(first as int, count as int, p);
        let ghost all_terms = bits_sum(first as int, count as int);
        let mut terms: Vec<Term> = Vec::new();
        let mut coefficient: u64 = 1;
        let mut i: usize = 0;
        proof {
            assert(before.push(directive[0]) == before + directive);
            assert(before + directive + all_booleans.take(0) == before + directive);
            assert(all_terms.take(0) == Seq::<Term>::empty());
        }
        while i < count
            invariant
                i <= count,
                count <= 63,
                self.wf(),
                self.field == old(self).field,
                self.layout == old(self).layout,
                p == self.p(),
                first == old(self).next,
                self.next == first + count,
                two_to(count as int) <= p,
                all_booleans == booleans(first as int, count as int, p),
                all_terms == bits_sum(first as int, count as int),
                coefficient == two_to(i as int),
                terms@ == all_terms.take(i as int),
                self.emitted() == before + directive + all_booleans.take(i as int),
            decreases count - i,
        {
            let ghost so_far = self.emitted();
            let v = Variable { id: first + i };
            let x = LinComb::variable(v);
            proof {
                lemma_single_wf(v.id as int, p, self.next as int);
                lemma_arithmetic_vars_below(x@, x@, 0, p, self.next as int);
                lemma_two_to_grows(i + 1, count as int);
                lemma_two_to_grows(i as int, i + 1);
            }
            let not_x = x.complement(&self.field);
            self.emit(Statement::Constraint(x, not_x, LinComb::zero()));
            terms.push(Term { var: v, coeff: coefficient });
            proof {
                assert(all_booleans.take(i + 1) == all_booleans.take(i as int).push(
                    all_booleans[i as int],
                ));
                assert(so_far.push(all_booleans[i as int]) == before + directive
                    + all_booleans.take(i + 1));
                assert(all_terms.take(i + 1) == all_terms.take(i as int).push(all_terms[i as int]));
            }
            if i + 1 < count {
                coefficient = coefficient * 2;
            } else {
                proof {
                    assert(two_to(i + 1) == 2 * two_to(i as int));
                }
                coefficient = if coefficient <= u64::MAX / 2 {
                    coefficient * 2
                } else {
                    coefficient
                };
            }
            i += 1;
        }
        proof {
            assert(all_booleans.take(i as int) == all_booleans);
            assert(all_terms.take(i as int) == all_terms);
        }
        let sum = LinComb { terms };
        let one = LinComb::constant(1, &self.field);
        proof {
            lemma_small_mod(1, p as nat);
            lemma_arithmetic_vars_below(one@, one@, 1, p, self.next as int);
            lemma_bits_sum_wf(first as int, count as int, p, self.next as int);
        }
        let ghost so_far = self.emitted();
        let constraint = Statement::Constraint(sum, one, t.clone());
        self.emit(constraint);
        proof {
            assert(so_far.push(constraint@) == before + decomposition(
                t@,
                first as int,
                count as int,
                p,
            ));
        }
        first
    }

    /// Lowers an operator on two lowered operands; see [`combine`].
    fn combine(&mut self, op: Operator, a: &LinComb, b: &LinComb) -> (r: Result<
        LinComb,
        FlattenError,
    >)
        requires
            old(self).wf(),
            linear_wf(a@, old(self).p(), old(self).next as int),
            linear_wf(b@, old(self).p(), old(self).next as int),
        ensures
            final(self).field == old(self).field,
            final(self).layout == old(self).layout,
            match r {
                Ok(l) => {
                    let f = combine(op, a@, b@, old(self).next as int, old(self).p());
                    &&& f is Ok
                    &&& l@ == f.unwrap().result
                    &&& final(self).next == f.unwrap().next
                    &&& final(self).emitted() == old(self).emitted() + f.unwrap().statements
                    &&& final(self).wf()
                    &&& final(self).next >= old(self).next
                    &&& linear_wf(l@, final(self).p(), final(self).next as int)
                },
                Err(e) => combine(op, a@, b@, old(self).next as int, old(self).p()) == Err::<
                    Flat,
                    FlattenError,
                >(e),
            },
    {
        let ghost p = self.p();
        let ghost n = self.next as int;
        let ghost n0 = self.next as int;
        proof {
            reveal(combine);
            lemma_arithmetic_vars_below(a@, b@, 0, p, n);
            lemma_arithmetic_vars_below(b@, a@, 0, p, n);
            assert(self.emitted() + Seq::<SpecStatement>::empty() == self.emitted());
        }
        match op {
            Operator::Add => Ok(a.add(b, &self.field)),
            Operator::Sub => Ok(a.sub(b, &self.field)),
            Operator::Mult => {
                match constant_of(a) {
                    Some(c) => {
                        proof {
                            lemma_arithmetic_vars_below(b@, a@, c as int, p, n);
                        }
                        Ok(b.scale(c, &self.field))
                    },
                    None => match constant_of(b) {
                        Some(c) => {
                            proof {
                                lemma_arithmetic_vars_below(a@, b@, c as int, p, n);
                            }
                            Ok(a.scale(c, &self.field))
                        },
                        None => self.emit_product(a, b),
                    },
                }
            },
            Operator::Div => self.emit_quotient(a, b),
            Operator::Eq => {
                let d = a.sub(b, &self.field);
                self.emit_is_zero(&d)
            },
            Operator::Lt => {
                let n = comparison_width(&self.field);
                if self.next > usize::MAX - 1 || n > (usize::MAX - 1 - self.next) / 3 {
                    return Err(FlattenError::TooManyVariables);
                }
                proof {
                    lemma_width(p);
                    lemma_two_to_grows(n as int, n + 1);
                }
                let bound = power_of_two(n);
                let shift = LinComb::constant(bound, &self.field);
                let difference = a.sub(b, &self.field);
                let moved = difference.add(&shift, &self.field);
                proof {
                    lemma_small_mod(bound as nat, p as nat);
                    lemma_arithmetic_vars_below(shift@, shift@, bound as int, p, n0);
                    lemma_arithmetic_vars_below(difference@, shift@, 0, p, n0);
                }
                self.emit_decomposition(a, n);
                proof {
                    lemma_arithmetic_vars_below(b@, b@, 0, p, self.next as int);
                    lemma_arithmetic_vars_below(moved@, moved@, 0, p, self.next as int);
                }
                self.emit_decomposition(b, n);
                proof {
                    lemma_arithmetic_vars_below(moved@, moved@, 0, p, self.next as int);
                }
                let first = self.emit_decomposition(&moved, n + 1);
                let top = LinComb::variable(Variable { id: first + n });
                proof {
                    lemma_single_wf(first + n, p, self.next as int);
                    lemma_arithmetic_vars_below(top@, top@, 0, p, self.next as int);
                    assert(self.emitted() =~= old(self).emitted() + (decomposition(
                        a@,
                        n0,
                        n as int,
                        p,
                    ) + decomposition(b@, n0 + n, n as int, p) + decomposition(
                        shifted_difference(a@, b@, n as int, p),
                        n0 + 2 * n,
                        n + 1,
                        p,
                    )));
                }
                Ok(top.complement(&self.field))
            },
            Operator::And => self.emit_product(a, b),
            Operator::Or => {
                let sum = a.add(b, &self.field);
                let both = match self.emit_product(a, b) {
                    Ok(l) => l,
                    Err(e) => {
                        return Err(e);
                    },
                };
                proof {
                    lemma_arithmetic_vars_below(a@, b@, 0, p, self.next as int);
                    lemma_arithmetic_vars_below(sum@, both@, 0, p, self.next as int);
                }
                Ok(sum.sub(&both, &self.field))
            },
        }
    }

    /// Lowers a choice between two lowered branches; see [`choice`].
    fn select_branch(&mut self, c: &LinComb, a: &LinComb, b: &LinComb) -> (r: Result<
        LinComb,
        FlattenError,
    >)
        requires
            old(self).wf(),
            linear_wf(c@, old(self).p(), old(self).next as int),
            linear_wf(a@, old(self).p(), old(self).next as int),
            linear_wf(b@, old(self).p(), old(self).next as int),
        ensures
            final(self).field == old(self).field,
            final(self).layout == old(self).layout,
            match r {
                Ok(l) => {
                    let f = choice(c@, a@, b@, old(self).next as int, old(self).p());
                    &&& f is Ok
                    &&& l@ == f.unwrap().result
                    &&& final(self).next == f.unwrap().next
                    &&& final(self).emitted() == old(self).emitted() + f.unwrap().statements
                    &&& final(self).wf()
                    &&& final(self).next >= old(self).next
                    &&& linear_wf(l@, final(self).p(), final(self).next as int)
                },
                Err(e) => choice(c@, a@, b@, old(self).next as int, old(self).p()) == Err::<
                    Flat,
                    FlattenError,
                >(e),
            },
    {
        let ghost p = self.p();
        let ghost n = self.next as int;
        if self.next >= usize::MAX - 1 {
            return Err(FlattenError::TooManyVariables);
        }
        let not_c = c.complement(&self.field);
        proof {
            lemma_arithmetic_vars_below(c@, c@, 0, p, n);
        }
        let first = match self.emit_product(c, a) {
            Ok(l) => l,
            Err(e) => {
                return Err(e);
            },
        };
        let ghost between = self.emitted();
        let second = match self.emit_product(&not_c, b) {
            Ok(l) => l,
            Err(e) => {
                return Err(e);
            },
        };
        proof {
            lemma_arithmetic_vars_below(first@, second@, 0, p, self.next as int);
            assert(self.emitted() =~= old(self).emitted() + (product(c@, a@, n) + product(
                complement(c@, p),
                b@,
                n + 1,
            )));
        }
        Ok(first.add(&second, &self.field))
    }

    /// The combination bound to a typed variable.
    fn lookup(&self, id: Identifier) -> (r: Result<LinComb, FlattenError>)
        requires
            self.wf(),
        ensures
            match r {
                Ok(l) => bound(self.layout_view(), id) == Some(l@) && linear_wf(
                    l@,
                    self.p(),
                    self.next as int,
                ),
                Err(e) => bound(self.layout_view(), id) is None && e
                    == FlattenError::UnknownIdentifier(id),
            },
    {
        if id.id < self.layout.len() {
            match &self.layout[id.id] {
                Some(l) => {
                    assert(self.layout_view()[id.id as int] == Some(l@));
                    Ok(l.clone())
                },
                None => {
                    assert(self.layout_view()[id.id as int] is None);
                    Err(FlattenError::UnknownIdentifier(id))
                },
            }
        } else {
            Err(FlattenError::UnknownIdentifier(id))
        }
    }

    /// Lowers an expression: emits the statements that compute it and
    /// returns the combination that holds its value; see [`flat`].
    pub fn flatten_expression(&mut self, e: &Expression) -> (r: Result<LinComb, FlattenError>)
        requires
            old(self).wf(),
        ensures
            final(self).field == old(self).field,
            final(self).layout == old(self).layout,
            match r {
                Ok(l) => {
                    let f = flat(*e, old(self).layout_view(), old(self).next as int, old(self).p());
                    &&& f is Ok
                    &&& l@ == f.unwrap().result
                    &&& final(self).next == f.unwrap().next
                    &&& final(self).emitted() == old(self).emitted() + f.unwrap().statements
                    &&& final(self).wf()
                    &&& final(self).next >= old(self).next
                    &&& linear_wf(l@, final(self).p(), final(self).next as int)
                },
                Err(err) => flat(*e, old(self).layout_view(), old(self).next as int, old(self).p())
                    == Err::<Flat, FlattenError>(err),
            },
        decreases *e,
    {
        let ghost p = self.p();
        let ghost n = self.next as int;
        let ghost layout = self.layout_view();
        let ghost before = self.emitted();
        proof {
            assert(before + Seq::<SpecStatement>::empty() == before);
        }
        match e {
            Expression::Number(c) => {
                let l = LinComb::constant(*c, &self.field);
                proof {
                    lemma_mod_bound(*c as int, p);
                    lemma_arithmetic_vars_below(l@, l@, *c as int % p, p, n);
                }
                Ok(l)
            },
            Expression::Boolean(b) => {
                let l = LinComb::constant(
                    if *b {
                        1
                    } else {
                        0
                    },
                    &self.field,
                );
                proof {
                    lemma_small_mod(1, p as nat);
                    lemma_small_mod(0, p as nat);
                    lemma_arithmetic_vars_below(l@, l@, 1, p, n);
                    lemma_arithmetic_vars_below(l@, l@, 0, p, n);
                }
                Ok(l)
            },
            Expression::Variable(id) => self.lookup(*id),
            Expression::Flag(id) => self.lookup(*id),
            Expression::Binary(op, a, b) => {
                let la = match self.flatten_expression(a) {
                    Ok(l) => l,
                    Err(err) => {
                        return Err(err);
                    },
                };
                let lb = match self.flatten_expression(b) {
                    Ok(l) => l,
                    Err(err) => {
                        return Err(err);
                    },
                };
                let ghost fa = flat(**a, layout, n, p).unwrap();
                let ghost fb = flat(**b, layout, fa.next, p).unwrap();
                let r = self.combine(*op, &la, &lb);
                proof {
                    if r is Ok {
                        let f = combine(*op, la@, lb@, fb.next, p).unwrap();
                        assert(self.emitted() =~= before + (fa.statements + fb.statements
                            + f.statements));
                    }
                }
                r
            },
            Expression::Not(a) => {
                let la = match self.flatten_expression(a) {
                    Ok(l) => l,
                    Err(err) => {
                        return Err(err);
                    },
                };
                proof {
                    lemma_arithmetic_vars_below(la@, la@, 0, p, self.next as int);
                }
                Ok(la.complement(&self.field))
            },
            Expression::IfElse(c, a, b) => {
                let lc = match self.flatten_expression(c) {
                    Ok(l) => l,
                    Err(err) => {
                        return Err(err);
                    },
                };
                let la = match self.flatten_expression(a) {
                    Ok(l) => l,
                    Err(err) => {
                        return Err(err);
                    },
                };
                let lb = match self.flatten_expression(b) {
                    Ok(l) => l,
                    Err(err) => {
                        return Err(err);
                    },
                };
                let ghost fc = flat(**c, layout, n, p).unwrap();
                let ghost fa = flat(**a, layout, fc.next, p).unwrap();
                let ghost fb = flat(**b, layout, fa.next, p).unwrap();
                let r = self.select_branch(&lc, &la, &lb);
                proof {
                    if r is Ok {
                        let f = choice(lc@, la@, lb@, fb.next, p).unwrap();
                        assert(self.emitted() =~= before + (fc.statements + fa.statements
                            + fb.statements + f.statements));
                    }
                }
                r
            },
        }
    }
}

} // verus!

verus! {

/// How far a lowering has come: what the typed variables stand for, the
/// next free variable, the statements emitted and the outputs named.
pub struct Lowering {
    pub layout: Seq<Option<Seq<Term>>>,
    pub next: int,
    pub statements: Seq<SpecStatement>,
    pub outputs: Seq<Variable>,
}

/// The flat variable with index `v`.
pub open spec fn flat_variable(v: int) -> Variable {
    Variable { id: v as usize }
}

/// A definition: the expression is lowered and a fresh variable defined
/// as its value, which the typed variable stands for from then on.
pub open spec fn lower_definition(id: Identifier, e: Expression, st: Lowering, p: int) -> Result<
    Lowering,
    FlattenError,
> {
    match flat(e, st.layout, st.next, p) {
        Err(x) => Err(x),
        Ok(f) => if f.next >= usize::MAX {
            Err(FlattenError::TooManyVariables)
        } else if id.id >= st.layout.len() {
            Err(FlattenError::UnknownIdentifier(id))
        } else {
            Ok(
                Lowering {
                    layout: st.layout.update(id.id as int, Some(single(f.next))),
                    next: f.next + 1,
                    statements: st.statements + f.statements + seq![
                        SpecStatement::Definition(flat_variable(f.next), f.result),
                    ],
                    outputs: st.outputs,
                },
            )
        },
    }
}

/// A condition: both sides are lowered and constrained to be equal.
pub open spec fn lower_condition(a: Expression, b: Expression, st: Lowering, p: int) -> Result<
    Lowering,
    FlattenError,
> {
    match flat(a, st.layout, st.next, p) {
        Err(x) => Err(x),
        Ok(fa) => match flat(b, st.layout, fa.next, p) {
            Err(x) => Err(x),
            Ok(fb) => Ok(
                Lowering {
                    layout: st.layout,
                    next: fb.next,
                    statements: st.statements + fa.statements + fb.statements + seq![
                        SpecStatement::Constraint(fa.result, constant_terms(1), fb.result),
                    ],
                    outputs: st.outputs,
                },
            ),
        },
    }
}

/// A return: each expression is lowered and a fresh variable defined as
/// its value; these variables are the outputs.
pub open spec fn lower_return(es: Seq<Expression>, st: Lowering, p: int) -> Result<
    Lowering,
    FlattenError,
>
    decreases es.len(),
{
    if es.len() == 0 {
        Ok(st)
    } else {
        match flat(es[0], st.layout, st.next, p) {
            Err(x) => Err(x),
            Ok(f) => if f.next >= usize::MAX {
                Err(FlattenError::TooManyVariables)
            } else {
                lower_return(
                    es.drop_first(),
                    Lowering {
                        layout: st.layout,
                        next: f.next + 1,
                        statements: st.statements + f.statements + seq![
                            SpecStatement::Definition(flat_variable(f.next), f.result),
                        ],
                        outputs: st.outputs.push(flat_variable(f.next)),
                    },
                    p,
                )
            },
        }
    }
}

/// What one statement lowers to. A loop or a call cannot be lowered; a
/// line for the log leaves nothing.
pub open spec fn lower_statement(s: SpecTypedStatement, st: Lowering, p: int) -> Result<
    Lowering,
    FlattenError,
> {
    match s {
        SpecTypedStatement::Return(es) => lower_return(es, st, p),
        SpecTypedStatement::Definition(id, e) => lower_definition(id, e, st, p),
        SpecTypedStatement::Condition(a, b) => lower_condition(a, b, st, p),
        SpecTypedStatement::Log(_) => Ok(st),
        _ => Err(FlattenError::NotLowered),
    }
}

/// The statements of a function, in order, up to its first return.
pub open spec fn lower_statements(s: Seq<SpecTypedStatement>, st: Lowering, p: int) -> Result<
    Lowering,
    FlattenError,
>
    decreases s.len(),
{
    if s.len() == 0 {
        Ok(st)
    } else {
        match lower_statement(s[0], st, p) {
            Err(x) => Err(x),
            Ok(next) => if s[0] is Return {
                Ok(next)
            } else {
                lower_statements(s.drop_first(), next, p)
            },
        }
    }
}

/// The constraint that lets a variable be 0 or 1 only.
pub open spec fn boolean_constraint(v: int, p: int) -> SpecStatement {
    SpecStatement::Constraint(single(v), complement(single(v), p), Seq::<Term>::empty())
}

/// The parameters from the `k`-th on: each takes the next variable, and
/// a boolean one is constrained to be 0 or 1.
pub open spec fn lower_parameters(parameters: Seq<Parameter>, k: int, st: Lowering, p: int) -> Result<
    Lowering,
    FlattenError,
>
    decreases parameters.len() - k,
{
    if k < 0 || k >= parameters.len() {
        Ok(st)
    } else if parameters[k].id.id >= st.layout.len() {
        Err(FlattenError::UnknownIdentifier(parameters[k].id))
    } else if st.next >= usize::MAX {
        Err(FlattenError::TooManyVariables)
    } else {
        lower_parameters(
            parameters,
            k + 1,
            Lowering {
                layout: st.layout.update(parameters[k].id.id as int, Some(single(st.next))),
                next: st.next + 1,
                statements: if parameters[k].kind == Kind::Boolean {
                    st.statements.push(boolean_constraint(st.next, p))
                } else {
                    st.statements
                },
                outputs: st.outputs,
            },
            p,
        )
    }
}

/// Where a lowering starts: nothing bound, nothing emitted, variable 0
/// taken by the constant one.
pub open spec fn start(n: int) -> Lowering {
    Lowering {
        layout: Seq::new(n as nat, |i: int| None::<Seq<Term>>),
        next: 1,
        statements: Seq::<SpecStatement>::empty(),
        outputs: Seq::<Variable>::empty(),
    }
}

/// For each parameter, whether it is private.
pub open spec fn privacy(parameters: Seq<Parameter>) -> Seq<bool> {
    Seq::new(parameters.len(), |k: int| parameters[k].private)
}

/// The flat program that the main function of a typed program lowers to.
pub open spec fn flattened(program: SpecTypedProgram) -> Result<SpecProgram, FlattenError> {
    let main = program.main_function();
    let p = program.field.modulus as int;
    match lower_parameters(main.parameters, 0, start(main.variable_count as int), p) {
        Err(x) => Err(x),
        Ok(bound) => match lower_statements(main.statements, bound, p) {
            Err(x) => Err(x),
            Ok(done) => Ok(
                SpecProgram {
                    field: program.field,
                    private: privacy(main.parameters),
                    variable_count: done.next as usize,
                    statements: done.statements,
                    outputs: done.outputs,
                    light: false,
                },
            ),
        },
    }
}

} // verus!

verus! {

impl Flattener {
    /// How far the lowering has come, with the outputs named so far.
    pub open spec fn lowering(&self, outputs: Seq<Variable>) -> Lowering {
        Lowering {
            layout: self.layout_view(),
            next: self.next as int,
            statements: self.emitted(),
            outputs,
        }
    }

    /// Lets the typed variable stand for the flat variable.
    fn bind(&mut self, id: Identifier, v: Variable) -> (r: Result<(), FlattenError>)
        requires
            old(self).wf(),
            v.id < old(self).next,
        ensures
            final(self).wf(),
            final(self).field == old(self).field,
            final(self).next == old(self).next,
            final(self).statements == old(self).statements,
            match r {
                Ok(_) => id.id < old(self).layout_view().len() && final(self).layout_view() == old(self).layout_view().update(id.id as int, Some(single(v.id as int))),
                Err(e) => id.id >= old(self).layout_view().len() && e
                    == FlattenError::UnknownIdentifier(id) && final(self).layout == old(self).layout,
            },
    {
        if id.id >= self.layout.len() {
            return Err(FlattenError::UnknownIdentifier(id));
        }
        let l = LinComb::variable(v);
        proof {
            lemma_single_wf(v.id as int, self.p(), self.next as int);
        }
        self.layout.set(id.id, Some(l));
        proof {
            let updated = old(self).layout_view().update(id.id as int, Some(single(v.id as int)));
            assert(self.layout_view() =~= updated);
            assert forall|i: int|
                0 <= i < updated.len() && (#[trigger] updated[i]) is Some implies linear_wf(
                updated[i].unwrap(),
                self.p(),
                self.next as int,
            ) by {
                if i != id.id {
                    assert(updated[i] == old(self).layout_view()[i]);
                }
            }
        }
        Ok(())
    }

    /// Lowers the expression and defines a fresh variable as its value.
    fn define(&mut self, e: &Expression) -> (r: Result<Variable, FlattenError>)
        requires
            old(self).wf(),
        ensures
            final(self).field == old(self).field,
            final(self).layout == old(self).layout,
            match r {
                Ok(v) => {
                    let f = flat(*e, old(self).layout_view(), old(self).next as int, old(self).p());
                    &&& f is Ok
                    &&& f.unwrap().next < usize::MAX
                    &&& v == flat_variable(f.unwrap().next)
                    &&& final(self).next == f.unwrap().next + 1
                    &&& final(self).next > old(self).next
                    &&& final(self).emitted() == old(self).emitted() + f.unwrap().statements + seq![
                        SpecStatement::Definition(v, f.unwrap().result),
                    ]
                    &&& final(self).wf()
                },
                Err(x) => {
                    let f = flat(*e, old(self).layout_view(), old(self).next as int, old(self).p());
                    match f {
                        Err(y) => x == y,
                        Ok(f) => f.next >= usize::MAX && x == FlattenError::TooManyVariables,
                    }
                },
            },
    {
        let l = match self.flatten_expression(e) {
            Ok(l) => l,
            Err(x) => {
                return Err(x);
            },
        };
        let ghost before = self.emitted();
        let v = match self.fresh() {
            Ok(v) => v,
            Err(x) => {
                return Err(x);
            },
        };
        self.emit(Statement::Definition(v, l));
        assert(before.push(SpecStatement::Definition(v, l@)) == before + seq![
            SpecStatement::Definition(v, l@),
        ]);
        Ok(v)
    }

    /// Lowers a definition; see [`lower_definition`].
    fn lower_definition(&mut self, id: Identifier, e: &Expression, Ghost(outputs): Ghost<
        Seq<Variable>,
    >) -> (r: Result<(), FlattenError>)
        requires
            old(self).wf(),
        ensures
            final(self).field == old(self).field,
            match r {
                Ok(_) => lower_definition(id, *e, old(self).lowering(outputs), old(self).p())
                    == Ok::<Lowering, FlattenError>(final(self).lowering(outputs)) && final(self).wf()
                    && final(self).next >= old(self).next,
                Err(x) => lower_definition(id, *e, old(self).lowering(outputs), old(self).p())
                    == Err::<Lowering, FlattenError>(x),
            },
    {
        let v = match self.define(e) {
            Ok(v) => v,
            Err(x) => {
                return Err(x);
            },
        };
        self.bind(id, v)
    }

    /// Lowers a condition; see [`lower_condition`].
    fn lower_condition(&mut self, a: &Expression, b: &Expression, Ghost(outputs): Ghost<
        Seq<Variable>,
    >) -> (r: Result<(), FlattenError>)
        requires
            old(self).wf(),
        ensures
            final(self).field == old(self).field,
            match r {
                Ok(_) => lower_condition(*a, *b, old(self).lowering(outputs), old(self).p())
                    == Ok::<Lowering, FlattenError>(final(self).lowering(outputs)) && final(self).wf()
                    && final(self).next >= old(self).next,
                Err(x) => lower_condition(*a, *b, old(self).lowering(outputs), old(self).p())
                    == Err::<Lowering, FlattenError>(x),
            },
    {
        let ghost p = self.p();
        let la = match self.flatten_expression(a) {
            Ok(l) => l,
            Err(x) => {
                return Err(x);
            },
        };
        let lb = match self.flatten_expression(b) {
            Ok(l) => l,
            Err(x) => {
                return Err(x);
            },
        };
        let ghost before = self.emitted();
        let one = LinComb::constant(1, &self.field);
        proof {
            lemma_small_mod(1, p as nat);
            lemma_arithmetic_vars_below(one@, one@, 1, p, self.next as int);
        }
        let constraint = Statement::Constraint(la, one, lb);
        self.emit(constraint);
        assert(before.push(constraint@) == before + seq![constraint@]);
        Ok(())
    }

    /// Lowers a return; see [`lower_return`].
    fn lower_return(&mut self, es: &Vec<Expression>, outputs: &mut Vec<Variable>) -> (r: Result<
        (),
        FlattenError,
    >)
        requires
            old(self).wf(),
            forall|i: int| 0 <= i < old(outputs)@.len() ==> (#[trigger] old(outputs)@[i]).id < old(self).next,
        ensures
            final(self).field == old(self).field,
            match r {
                Ok(_) => lower_return(es@, old(self).lowering(old(outputs)@), old(self).p())
                    == Ok::<Lowering, FlattenError>(final(self).lowering(final(outputs)@)) && final(self).wf()
                    && final(self).next >= old(self).next && forall|i: int|
                    0 <= i < final(outputs)@.len() ==> (#[trigger] final(outputs)@[i]).id < final(self).next,
                Err(x) => lower_return(es@, old(self).lowering(old(outputs)@), old(self).p())
                    == Err::<Lowering, FlattenError>(x),
            },
    {
        let ghost p = self.p();
        let ghost begin = self.lowering(outputs@);
        let mut k: usize = 0;
        assert(es@.skip(0) == es@);
        while k < es.len()
            invariant
                k <= es.len(),
                self.wf(),
                self.field == old(self).field,
                p == self.p(),
                begin == old(self).lowering(old(outputs)@),
                self.next >= old(self).next,
                forall|i: int| 0 <= i < outputs@.len() ==> (#[trigger] outputs@[i]).id < self.next,
                lower_return(es@.skip(k as int), self.lowering(outputs@), p) == lower_return(
                    es@,
                    begin,
                    p,
                ),
            decreases es.len() - k,
        {
            let ghost rest = es@.skip(k as int);
            proof {
                assert(rest[0] == es@[k as int]);
                assert(rest.drop_first() == es@.skip(k + 1));
            }
            let v = match self.define(&es[k]) {
                Ok(v) => v,
                Err(x) => {
                    return Err(x);
                },
            };
            outputs.push(v);
            k += 1;
        }
        assert(es@.skip(k as int) == Seq::<Expression>::empty());
        Ok(())
    }

    /// Gives each parameter the next variable; see [`lower_parameters`].
    fn lower_parameters(&mut self, parameters: &Vec<Parameter>) -> (r: Result<(), FlattenError>)
        requires
            old(self).wf(),
        ensures
            final(self).field == old(self).field,
            match r {
                Ok(_) => lower_parameters(
                    parameters@,
                    0,
                    old(self).lowering(Seq::<Variable>::empty()),
                    old(self).p(),
                ) == Ok::<Lowering, FlattenError>(final(self).lowering(Seq::<Variable>::empty()))
                    && final(self).wf() && final(self).next == old(self).next + parameters@.len(),
                Err(x) => lower_parameters(
                    parameters@,
                    0,
                    old(self).lowering(Seq::<Variable>::empty()),
                    old(self).p(),
                ) == Err::<Lowering, FlattenError>(x),
            },
    {
        let ghost p = self.p();
        let ghost none = Seq::<Variable>::empty();
        let ghost begin = self.lowering(none);
        let mut k: usize = 0;
        while k < parameters.len()
            invariant
                k <= parameters.len(),
                self.wf(),
                self.field == old(self).field,
                p == self.p(),
                begin == old(self).lowering(none),
                none == Seq::<Variable>::empty(),
                self.next == old(self).next + k,
                lower_parameters(parameters@, k as int, self.lowering(none), p) == lower_parameters(
                    parameters@,
                    0,
                    begin,
                    p,
                ),
            decreases parameters.len() - k,
        {
            let parameter = parameters[k];
            if parameter.id.id >= self.layout.len() {
                return Err(FlattenError::UnknownIdentifier(parameter.id));
            }
            let v = match self.fresh() {
                Ok(v) => v,
                Err(x) => {
                    return Err(x);
                },
            };
            let ghost before = self.emitted();
            match self.bind(parameter.id, v) {
                Ok(_) => {},
                Err(x) => {
                    return Err(x);
                },
            }
            match parameter.kind {
                Kind::Boolean => {
                    let x = LinComb::variable(v);
                    proof {
                        lemma_single_wf(v.id as int, p, self.next as int);
                        lemma_arithmetic_vars_below(x@, x@, 0, p, self.next as int);
                    }
                    let not_x = x.complement(&self.field);
                    self.emit(Statement::Constraint(x, not_x, LinComb::zero()));
                },
                Kind::Field => {},
            }
            k += 1;
        }
        Ok(())
    }

    /// Lowers one statement; see [`lower_statement`].
    fn lower_statement(&mut self, s: &TypedStatement, outputs: &mut Vec<Variable>) -> (r: Result<
        (),
        FlattenError,
    >)
        requires
            old(self).wf(),
            forall|i: int| 0 <= i < old(outputs)@.len() ==> (#[trigger] old(outputs)@[i]).id < old(self).next,
        ensures
            final(self).field == old(self).field,
            match r {
                Ok(_) => lower_statement(s@, old(self).lowering(old(outputs)@), old(self).p())
                    == Ok::<Lowering, FlattenError>(final(self).lowering(final(outputs)@)) && final(self).wf()
                    && final(self).next >= old(self).next && forall|i: int|
                    0 <= i < final(outputs)@.len() ==> (#[trigger] final(outputs)@[i]).id < final(self).next,
                Err(x) => lower_statement(s@, old(self).lowering(old(outputs)@), old(self).p())
                    == Err::<Lowering, FlattenError>(x),
            },
    {
        match s {
            TypedStatement::Return(es) => self.lower_return(es, outputs),
            TypedStatement::Definition(id, e) => self.lower_definition(*id, e, Ghost(outputs@)),
            TypedStatement::Condition(a, b) => self.lower_condition(a, b, Ghost(outputs@)),
            TypedStatement::Log(_) => Ok(()),
            _ => Err(FlattenError::NotLowered),
        }
    }

    /// The flat program made of what has been emitted.
    fn finish(self, parameters: &Vec<Parameter>, outputs: Vec<Variable>) -> (r: Program)
        requires
            self.wf(),
            parameters@.len() < self.next,
            forall|i: int| 0 <= i < outputs@.len() ==> (#[trigger] outputs@[i]).id < self.next,
        ensures
            r@ == (SpecProgram {
                field: self.field,
                private: privacy(parameters@),
                variable_count: self.next,
                statements: self.emitted(),
                outputs: outputs@,
                light: false,
            }),
            r@.wf(),
    {
        let mut private: Vec<bool> = Vec::new();
        let mut k: usize = 0;
        while k < parameters.len()
            invariant
                k <= parameters.len(),
                private.len() == k,
                forall|j: int| 0 <= j < k ==> private@[j] == parameters@[j].private,
            decreases parameters.len() - k,
        {
            private.push(parameters[k].private);
            k += 1;
        }
        assert(private@ =~= privacy(parameters@));
        Program {
            field: self.field,
            private,
            variable_count: self.next,
            statements: self.statements,
            outputs,
            light: false,
        }
    }

    /// Lowers the main function of a typed program into a flat program.
    /// Each parameter becomes an argument, in order; what the function
    /// returns becomes the outputs. The function has to be free of loops
    /// and calls.
    pub fn flatten(program: &TypedProgram) -> (r: Result<Program, FlattenError>)
        requires
            program@.wf(),
        ensures
            match r {
                Ok(flat_program) => flattened(program@) == Ok::<SpecProgram, FlattenError>(
                    flat_program@,
                ) && flat_program@.wf(),
                Err(x) => flattened(program@) == Err::<SpecProgram, FlattenError>(x),
            },
    {
        let main = program.main_function();
        let ghost p = program.field.modulus as int;
        let ghost s = main@.statements;
        let mut layout: Vec<Option<LinComb>> = Vec::new();
        while layout.len() < main.variable_count
            invariant
                layout.len() <= main.variable_count,
                forall|i: int| 0 <= i < layout.len() ==> (#[trigger] layout@[i]) is None,
            decreases main.variable_count - layout.len(),
        {
            layout.push(None);
        }
        let mut flattener = Flattener {
            field: program.field,
            layout,
            next: 1,
            statements: Vec::new(),
        };
        let mut outputs: Vec<Variable> = Vec::new();
        proof {
            let st = start(main.variable_count as int);
            assert(flattener.layout_view() =~= st.layout);
            assert(flattener.emitted() =~= st.statements);
            assert(flattener.lowering(outputs@) == st);
        }
        match flattener.lower_parameters(&main.parameters) {
            Ok(_) => {},
            Err(x) => {
                return Err(x);
            },
        }
        let ghost bound = flattener.lowering(outputs@);
        let mut k: usize = 0;
        proof {
            lemma_typed_view(main.statements@);
            assert(s.skip(0) == s);
        }
        while k < main.statements.len()
            invariant
                k <= main.statements.len(),
                flattener.wf(),
                flattener.field == program.field,
                p == flattener.p(),
                program@.wf(),
                main@ == program@.main_function(),
                s == typed_view(main.statements@),
                s.len() == main.statements.len(),
                forall|j: int| 0 <= j < s.len() ==> s[j] == (#[trigger] main.statements@[j])@,
                main.parameters@.len() < flattener.next,
                forall|i: int| 0 <= i < outputs@.len() ==> (#[trigger] outputs@[i]).id < flattener.next,
                lower_parameters(
                    main.parameters@,
                    0,
                    start(main.variable_count as int),
                    p,
                ) == Ok::<Lowering, FlattenError>(bound),
                lower_statements(s.skip(k as int), flattener.lowering(outputs@), p)
                    == lower_statements(s, bound, p),
            decreases main.statements.len() - k,
        {
            let ghost rest = s.skip(k as int);
            proof {
                assert(rest[0] == s[k as int]);
                assert(rest.drop_first() == s.skip(k + 1));
                assert(s[k as int] == main.statements@[k as int]@);
            }
            match flattener.lower_statement(&main.statements[k], &mut outputs) {
                Ok(_) => {},
                Err(x) => {
                    return Err(x);
                },
            }
            match &main.statements[k] {
                TypedStatement::Return(_) => {
                    return Ok(flattener.finish(&main.parameters, outputs));
                },
                _ => {},
            }
            k += 1;
        }
        assert(s.skip(k as int) == Seq::<SpecTypedStatement>::empty());
        Ok(flattener.finish(&main.parameters, outputs))
    }
}

} // verus!
