//! Statements of the flat representation and what each does to an
//! assignment of the variables.

use crate::field::{inverse_of, invertible, lemma_inverse_of, Field};
use crate::ir::lincomb::{canonical, eval, vars_below, within, LinComb, Term, Variable};
use vstd::prelude::*;

verus! {

/// A hint for witness computation. It seeds values that constraints then
/// check; it is no part of the constraint system.
#[derive(Debug)]
pub enum Directive {
    /// `output` receives the product of the two combinations.
    Product(Variable, LinComb, LinComb),
    /// `output` receives the first combination divided by the second.
    Quotient(Variable, LinComb, LinComb),
    /// The first variable receives 0 where the combination is zero and 1
    /// elsewhere; the second its inverse, or 0 where it is zero.
    NonZero(Variable, Variable, LinComb),
    /// So many variables, from the given one on, receive the bits of the
    /// combination, the low one first.
    Bits(Variable, usize, LinComb),
}

/// The mathematical content of a [`Directive`].
pub enum SpecDirective {
    Product(Variable, Seq<Term>, Seq<Term>),
    Quotient(Variable, Seq<Term>, Seq<Term>),
    NonZero(Variable, Variable, Seq<Term>),
    Bits(Variable, usize, Seq<Term>),
}

impl View for Directive {
    type V = SpecDirective;

    open spec fn view(&self) -> SpecDirective {
        match self {
            Directive::Product(o, a, b) => SpecDirective::Product(*o, a@, b@),
            Directive::Quotient(o, a, b) => SpecDirective::Quotient(*o, a@, b@),
            Directive::NonZero(f, i, x) => SpecDirective::NonZero(*f, *i, x@),
            Directive::Bits(f, count, x) => SpecDirective::Bits(*f, *count, x@),
        }
    }
}

/// One step of a flat program.
#[derive(Debug)]
pub enum Statement {
    /// Assigns the variable the value of the combination.
    Definition(Variable, LinComb),
    /// Asserts that the first two combinations multiply to the third.
    Constraint(LinComb, LinComb, LinComb),
    /// Seeds witness values.
    Directive(Directive),
}

/// The mathematical content of a [`Statement`].
pub enum SpecStatement {
    Definition(Variable, Seq<Term>),
    Constraint(Seq<Term>, Seq<Term>, Seq<Term>),
    Directive(SpecDirective),
}

impl View for Statement {
    type V = SpecStatement;

    open spec fn view(&self) -> SpecStatement {
        match self {
            Statement::Definition(v, e) => SpecStatement::Definition(*v, e@),
            Statement::Constraint(a, b, c) => SpecStatement::Constraint(a@, b@, c@),
            Statement::Directive(d) => SpecStatement::Directive(d@),
        }
    }
}

/// Why a statement could not be executed.
#[derive(Clone, Copy, Debug, PartialEq, Eq, Structural)]
pub enum Reason {
    /// The two sides of a constraint differ.
    UnsatisfiedConstraint,
    /// A directive had to invert an element that has no inverse.
    NotInvertible,
    /// A variable was read before it had a value.
    UndefinedVariable,
    /// A variable was given a value twice, or is unknown to the program.
    Redefinition,
    /// A directive had to write a value in fewer bits than the value
    /// takes.
    OutOfRange,
}

/// A combination in canonical form over variables below `n`.
pub open spec fn linear_wf(t: Seq<Term>, p: int, n: int) -> bool {
    canonical(t, p) && vars_below(t, n)
}

pub open spec fn directive_wf(d: SpecDirective, p: int, n: int) -> bool {
    match d {
        SpecDirective::Product(o, a, b) => o.id < n && linear_wf(a, p, n) && linear_wf(b, p, n),
        SpecDirective::Quotient(o, a, b) => o.id < n && linear_wf(a, p, n) && linear_wf(b, p, n),
        SpecDirective::NonZero(f, i, x) => f.id < n && i.id < n && linear_wf(x, p, n),
        SpecDirective::Bits(f, count, x) => f.id + count <= n && linear_wf(x, p, n),
    }
}

/// Every combination canonical, every variable below `n`.
pub open spec fn statement_wf(s: SpecStatement, p: int, n: int) -> bool {
    match s {
        SpecStatement::Definition(v, e) => v.id < n && linear_wf(e, p, n),
        SpecStatement::Constraint(a, b, c) => linear_wf(a, p, n) && linear_wf(b, p, n)
            && linear_wf(c, p, n),
        SpecStatement::Directive(d) => directive_wf(d, p, n),
    }
}

/// Gives the variable with index `id` the value `x`; a variable is
/// assigned at most once.
pub open spec fn assign_at(w: Seq<Option<u64>>, id: int, x: u64) -> Result<
    Seq<Option<u64>>,
    Reason,
> {
    if 0 <= id < w.len() && w[id] is None {
        Ok(w.update(id, Some(x)))
    } else {
        Err(Reason::Redefinition)
    }
}

/// Gives `v` the value `x`; a variable is assigned at most once.
pub open spec fn assign(w: Seq<Option<u64>>, v: Variable, x: u64) -> Result<
    Seq<Option<u64>>,
    Reason,
> {
    assign_at(w, v.id as int, x)
}

/// `x` halved `i` times, rounding down.
pub open spec fn halved(x: int, i: int) -> int
    decreases i,
{
    if i <= 0 {
        x
    } else {
        halved(x, i - 1) / 2
    }
}

/// The `i`-th bit of `x`, counted from the low end.
pub open spec fn bit(x: int, i: int) -> u64 {
    (halved(x, i) % 2) as u64
}

/// Gives the `count` variables from `first` on the low bits of `x`.
pub open spec fn assign_bits(w: Seq<Option<u64>>, first: Variable, count: int, x: int) -> Result<
    Seq<Option<u64>>,
    Reason,
>
    decreases count,
{
    if count <= 0 {
        Ok(w)
    } else {
        match assign_bits(w, first, count - 1, x) {
            Ok(w1) => assign_at(w1, first.id + count - 1, bit(x, count - 1)),
            Err(r) => Err(r),
        }
    }
}

/// What a directive does to an assignment.
pub open spec fn solve(d: SpecDirective, w: Seq<Option<u64>>, p: int) -> Result<
    Seq<Option<u64>>,
    Reason,
> {
    match d {
        SpecDirective::Product(o, a, b) => match (eval(a, w, p), eval(b, w, p)) {
            (Some(x), Some(y)) => assign(w, o, ((x * y) % p) as u64),
            _ => Err(Reason::UndefinedVariable),
        },
        SpecDirective::Quotient(o, a, b) => match (eval(a, w, p), eval(b, w, p)) {
            (Some(x), Some(y)) => if invertible(y as int, p) {
                assign(w, o, ((x * inverse_of(y as int, p)) % p) as u64)
            } else {
                Err(Reason::NotInvertible)
            },
            _ => Err(Reason::UndefinedVariable),
        },
        SpecDirective::NonZero(f, i, e) => match eval(e, w, p) {
            Some(x) => if x == 0 {
                match assign(w, f, 0) {
                    Ok(w1) => assign(w1, i, 0),
                    Err(r) => Err(r),
                }
            } else if invertible(x as int, p) {
                match assign(w, f, 1) {
                    Ok(w1) => assign(w1, i, inverse_of(x as int, p) as u64),
                    Err(r) => Err(r),
                }
            } else {
                Err(Reason::NotInvertible)
            },
            None => Err(Reason::UndefinedVariable),
        },
        SpecDirective::Bits(f, count, e) => match eval(e, w, p) {
            Some(x) => if halved(x as int, count as int) == 0 {
                assign_bits(w, f, count as int, x as int)
            } else {
                Err(Reason::OutOfRange)
            },
            None => Err(Reason::UndefinedVariable),
        },
    }
}

/// What a statement does to an assignment: the next assignment, or the
/// reason why execution stops.
pub open spec fn apply(s: SpecStatement, w: Seq<Option<u64>>, p: int) -> Result<
    Seq<Option<u64>>,
    Reason,
> {
    match s {
        SpecStatement::Definition(v, e) => match eval(e, w, p) {
            Some(x) => assign(w, v, x),
            None => Err(Reason::UndefinedVariable),
        },
        SpecStatement::Constraint(a, b, c) => match (eval(a, w, p), eval(b, w, p), eval(c, w, p)) {
            (Some(x), Some(y), Some(z)) => if (x * y) % p == z {
                Ok(w)
            } else {
                Err(Reason::UnsatisfiedConstraint)
            },
            _ => Err(Reason::UndefinedVariable),
        },
        SpecStatement::Directive(d) => solve(d, w, p),
    }
}

/// Stores `x` at `v`, refusing a second assignment.
fn assign_value(w: &mut Vec<Option<u64>>, v: Variable, x: u64, field: &Field) -> (r: Result<
    (),
    Reason,
>)
    requires
        within(old(w)@, field.modulus as int),
        x < field.modulus,
    ensures
        final(w).len() == old(w).len(),
        within(final(w)@, field.modulus as int),
        match r {
            Ok(_) => assign(old(w)@, v, x) == Ok::<Seq<Option<u64>>, Reason>(final(w)@),
            Err(e) => assign(old(w)@, v, x) == Err::<Seq<Option<u64>>, Reason>(e) && final(w)@
                == old(w)@,
        },
{
    if v.id < w.len() && w[v.id].is_none() {
        w.set(v.id, Some(x));
        Ok(())
    } else {
        Err(Reason::Redefinition)
    }
}

impl Clone for Directive {
    fn clone(&self) -> (r: Self)
        ensures
            r@ == self@,
    {
        match self {
            Directive::Product(o, a, b) => Directive::Product(*o, a.clone(), b.clone()),
            Directive::Quotient(o, a, b) => Directive::Quotient(*o, a.clone(), b.clone()),
            Directive::NonZero(f, i, x) => Directive::NonZero(*f, *i, x.clone()),
            Directive::Bits(f, count, x) => Directive::Bits(*f, *count, x.clone()),
        }
    }
}

impl Clone for Statement {
    fn clone(&self) -> (r: Self)
        ensures
            r@ == self@,
    {
        match self {
            Statement::Definition(v, e) => Statement::Definition(*v, e.clone()),
            Statement::Constraint(a, b, c) => Statement::Constraint(a.clone(), b.clone(), c.clone()),
            Statement::Directive(d) => Statement::Directive(d.clone()),
        }
    }
}

impl Directive {
    /// Computes the directive's outputs and stores them in `w`.
    pub fn execute(&self, w: &mut Vec<Option<u64>>, field: &Field) -> (r: Result<(), Reason>)
        requires
            field.wf(),
            directive_wf(self@, field.modulus as int, old(w).len() as int),
            within(old(w)@, field.modulus as int),
        ensures
            final(w).len() == old(w).len(),
            within(final(w)@, field.modulus as int),
            match r {
                Ok(_) => solve(self@, old(w)@, field.modulus as int) == Ok::<
                    Seq<Option<u64>>,
                    Reason,
                >(final(w)@),
                Err(e) => solve(self@, old(w)@, field.modulus as int) == Err::<
                    Seq<Option<u64>>,
                    Reason,
                >(e),
            },
    {
        let ghost p = field.modulus as int;
        match self {
            Directive::Product(o, a, b) => {
                let x = match a.eval(w, field) {
                    Some(x) => x,
                    None => {
                        return Err(Reason::UndefinedVariable);
                    },
                };
                let y = match b.eval(w, field) {
                    Some(y) => y,
                    None => {
                        return Err(Reason::UndefinedVariable);
                    },
                };
                let z = field.mul(x, y);
                assign_value(w, *o, z, field)
            },
            Directive::Quotient(o, a, b) => {
                let x = match a.eval(w, field) {
                    Some(x) => x,
                    None => {
                        return Err(Reason::UndefinedVariable);
                    },
                };
                let y = match b.eval(w, field) {
                    Some(y) => y,
                    None => {
                        return Err(Reason::UndefinedVariable);
                    },
                };
                match field.div(x, y) {
                    Some(q) => assign_value(w, *o, q, field),
                    None => Err(Reason::NotInvertible),
                }
            },
            Directive::NonZero(f, i, e) => {
                let x = match e.eval(w, field) {
                    Some(x) => x,
                    None => {
                        return Err(Reason::UndefinedVariable);
                    },
                };
                if x == 0 {
                    match assign_value(w, *f, 0, field) {
                        Ok(_) => assign_value(w, *i, 0, field),
                        Err(r) => Err(r),
                    }
                } else {
                    match field.inverse(x) {
                        Some(inv) => {
                            proof {
                                lemma_inverse_of(x as int, inv as int, p);
                            }
                            match assign_value(w, *f, 1, field) {
                                Ok(_) => assign_value(w, *i, inv, field),
                                Err(r) => Err(r),
                            }
                        },
                        None => Err(Reason::NotInvertible),
                    }
                }
            },
            Directive::Bits(f, count, e) => {
                let x = match e.eval(w, field) {
                    Some(x) => x,
                    None => {
                        return Err(Reason::UndefinedVariable);
                    },
                };
                let mut rest: u64 = x;
                let mut i: usize = 0;
                while i < *count && rest != 0
                    invariant
                        i <= *count,
                        rest == halved(x as int, i as int),
                    decreases *count - i,
                {
                    rest = rest / 2;
                    i += 1;
                }
                proof {
                    lemma_halved_zero(x as int, i as int, *count as int);
                }
                if rest != 0 {
                    return Err(Reason::OutOfRange);
                }
                let ghost start = w@;
                let mut rest: u64 = x;
                let mut i: usize = 0;
                assert(solve(self@, start, p) == assign_bits(start, *f, *count as int, x as int));
                while i < *count
                    invariant
                        i <= *count,
                        field.wf(),
                        p == field.modulus as int,
                        start == old(w)@,
                        solve(self@, start, p) == assign_bits(start, *f, *count as int, x as int),
                        f.id + *count <= w.len(),
                        w.len() == start.len(),
                        within(w@, p),
                        rest == halved(x as int, i as int),
                        assign_bits(start, *f, i as int, x as int) == Ok::<
                            Seq<Option<u64>>,
                            Reason,
                        >(w@),
                    decreases *count - i,
                {
                    match assign_value(w, Variable { id: f.id + i }, rest % 2, field) {
                        Ok(_) => {},
                        Err(r) => {
                            proof {
                                lemma_assign_bits_failure(start, *f, i + 1, *count as int, x as int);
                            }
                            return Err(r);
                        },
                    }
                    rest = rest / 2;
                    i += 1;
                }
                Ok(())
            },
        }
    }
}

/// A value that is zero after some halvings stays zero.
pub proof fn lemma_halved_zero(x: int, i: int, j: int)
    requires
        0 <= i <= j,
        0 <= x,
    ensures
        halved(x, i) >= 0,
        halved(x, i) == 0 ==> halved(x, j) == 0,
    decreases j,
{
    if i > 0 {
        lemma_halved_zero(x, i - 1, i - 1);
    }
    if i < j {
        lemma_halved_zero(x, i, j - 1);
    }
}

/// Where the low bits cannot be assigned, neither can more of them.
pub proof fn lemma_assign_bits_failure(
    w: Seq<Option<u64>>,
    first: Variable,
    i: int,
    count: int,
    x: int,
)
    requires
        0 <= i <= count,
        assign_bits(w, first, i, x) is Err,
    ensures
        assign_bits(w, first, count, x) == assign_bits(w, first, i, x),
    decreases count,
{
    if i < count {
        lemma_assign_bits_failure(w, first, i, count - 1, x);
    }
}

impl Statement {
    /// Executes the statement on `w`: extends it, checks it, or says why
    /// execution cannot go on.
    pub fn execute(&self, w: &mut Vec<Option<u64>>, field: &Field) -> (r: Result<(), Reason>)
        requires
            field.wf(),
            statement_wf(self@, field.modulus as int, old(w).len() as int),
            within(old(w)@, field.modulus as int),
        ensures
            final(w).len() == old(w).len(),
            within(final(w)@, field.modulus as int),
            match r {
                Ok(_) => apply(self@, old(w)@, field.modulus as int) == Ok::<
                    Seq<Option<u64>>,
                    Reason,
                >(final(w)@),
                Err(e) => apply(self@, old(w)@, field.modulus as int) == Err::<
                    Seq<Option<u64>>,
                    Reason,
                >(e),
            },
    {
        let ghost p = field.modulus as int;
        match self {
            Statement::Definition(v, e) => {
                match e.eval(w, field) {
                    Some(x) => assign_value(w, *v, x, field),
                    None => Err(Reason::UndefinedVariable),
                }
            },
            Statement::Constraint(a, b, c) => {
                let x = match a.eval(w, field) {
                    Some(x) => x,
                    None => {
                        return Err(Reason::UndefinedVariable);
                    },
                };
                let y = match b.eval(w, field) {
                    Some(y) => y,
                    None => {
                        return Err(Reason::UndefinedVariable);
                    },
                };
                let z = match c.eval(w, field) {
                    Some(z) => z,
                    None => {
                        return Err(Reason::UndefinedVariable);
                    },
                };
                if field.mul(x, y) == z {
                    Ok(())
                } else {
                    Err(Reason::UnsatisfiedConstraint)
                }
            },
            Statement::Directive(d) => d.execute(w, field),
        }
    }
}

} // verus!
