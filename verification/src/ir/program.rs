//! Flat programs: an ordered list of statements with the signature of the
//! function they compute.

use crate::field::Field;
use crate::ir::lincomb::Variable;
use crate::ir::statement::{statement_wf, SpecStatement, Statement};
use vstd::prelude::*;

verus! {

/// The part a variable plays in a program.
#[derive(Clone, Copy, Debug, PartialEq, Eq, Structural)]
pub enum Role {
    /// The constant one.
    One,
    /// An argument that the verifier sees.
    PublicInput,
    /// An argument known to the prover alone.
    PrivateInput,
    /// A value computed on the way.
    Intermediate,
}

/// How many arguments a program takes, which of them are private, and how
/// many values it outputs.
#[derive(Debug)]
pub struct Signature {
    pub arguments: usize,
    pub private: Vec<bool>,
    pub outputs: usize,
}

/// A flat program. Variable 0 is the constant one, variables `1..=k` are
/// the `k` arguments, the others are intermediate.
#[derive(Debug)]
pub struct Program {
    pub field: Field,
    /// One flag per argument: whether it is private.
    pub private: Vec<bool>,
    /// Every variable of the program is below this bound.
    pub variable_count: usize,
    pub statements: Vec<Statement>,
    /// The variables that hold the results.
    pub outputs: Vec<Variable>,
    /// Whether the program was built without debugging output.
    pub light: bool,
}

/// The mathematical content of a [`Program`].
pub struct SpecProgram {
    pub field: Field,
    pub private: Seq<bool>,
    pub variable_count: usize,
    pub statements: Seq<SpecStatement>,
    pub outputs: Seq<Variable>,
    pub light: bool,
}

/// The statements of a vector, each by its view.
pub open spec fn statements_view(v: Seq<Statement>) -> Seq<SpecStatement> {
    Seq::new(v.len(), |i: int| v[i]@)
}

impl View for Program {
    type V = SpecProgram;

    open spec fn view(&self) -> SpecProgram {
        SpecProgram {
            field: self.field,
            private: self.private@,
            variable_count: self.variable_count,
            statements: statements_view(self.statements@),
            outputs: self.outputs@,
            light: self.light,
        }
    }
}

/// For each variable below `n`, whether it is one of the outputs.
pub open spec fn output_marks(outputs: Seq<Variable>, n: int) -> Seq<bool> {
    Seq::new(
        n as nat,
        |id: int| exists|k: int| 0 <= k < outputs.len() && (#[trigger] outputs[k]).id == id,
    )
}

/// How many of the statements the proving backend sees: all but the
/// directives.
pub open spec fn count_constraints(s: Seq<SpecStatement>) -> nat
    decreases s.len(),
{
    if s.len() == 0 {
        0
    } else {
        count_constraints(s.drop_last()) + (if s.last() is Directive {
            0nat
        } else {
            1nat
        })
    }
}

impl SpecProgram {
    /// The modulus as a mathematical integer.
    pub open spec fn p(self) -> int {
        self.field.modulus as int
    }

    /// The program's structure is sound: a usable field, room for the
    /// constant and the arguments, every combination canonical and every
    /// variable known.
    pub open spec fn wf(self) -> bool {
        &&& self.field.wf()
        &&& self.private.len() < self.variable_count
        &&& forall|i: int|
            0 <= i < self.statements.len() ==> statement_wf(
                #[trigger] self.statements[i],
                self.p(),
                self.variable_count as int,
            )
        &&& forall|i: int|
            0 <= i < self.outputs.len() ==> (#[trigger] self.outputs[i]).id < self.variable_count
    }

    /// The part that `v` plays.
    pub open spec fn role(self, v: Variable) -> Role {
        if v.id == 0 {
            Role::One
        } else if v.id <= self.private.len() {
            if self.private[v.id - 1] {
                Role::PrivateInput
            } else {
                Role::PublicInput
            }
        } else {
            Role::Intermediate
        }
    }
}

impl Statement {
    /// Whether every combination is canonical and every variable is
    /// below `n`.
    pub fn is_well_formed(&self, field: &Field, n: usize) -> (r: bool)
        ensures
            r == statement_wf(self@, field.modulus as int, n as int),
    {
        match self {
            Statement::Definition(v, e) => v.id < n && e.is_well_formed(field, n),
            Statement::Constraint(a, b, c) => a.is_well_formed(field, n) && b.is_well_formed(
                field,
                n,
            ) && c.is_well_formed(field, n),
            Statement::Directive(d) => match d {
                crate::ir::statement::Directive::Product(o, a, b) => o.id < n && a.is_well_formed(
                    field,
                    n,
                ) && b.is_well_formed(field, n),
                crate::ir::statement::Directive::Quotient(o, a, b) => o.id < n
                    && a.is_well_formed(field, n) && b.is_well_formed(field, n),
                crate::ir::statement::Directive::NonZero(f, i, x) => f.id < n && i.id < n
                    && x.is_well_formed(field, n),
                crate::ir::statement::Directive::Bits(f, count, x) => f.id <= n && *count <= n
                    - f.id && x.is_well_formed(field, n),
            },
        }
    }
}

impl Program {
    /// Checks a program's structure; see [`SpecProgram::wf`].
    pub fn is_well_formed(&self) -> (r: bool)
        ensures
            r == self@.wf(),
    {
        if self.field.modulus < 2 || self.private.len() >= self.variable_count {
            return false;
        }
        let mut i: usize = 0;
        while i < self.statements.len()
            invariant
                i <= self.statements.len(),
                forall|k: int|
                    0 <= k < i ==> statement_wf(
                        #[trigger] self@.statements[k],
                        self@.p(),
                        self.variable_count as int,
                    ),
            decreases self.statements.len() - i,
        {
            if !self.statements[i].is_well_formed(&self.field, self.variable_count) {
                assert(!statement_wf(
                    self@.statements[i as int],
                    self@.p(),
                    self.variable_count as int,
                ));
                return false;
            }
            i += 1;
        }
        let mut j: usize = 0;
        while j < self.outputs.len()
            invariant
                j <= self.outputs.len(),
                forall|k: int| 0 <= k < j ==> (#[trigger] self.outputs@[k]).id < self.variable_count,
            decreases self.outputs.len() - j,
        {
            if self.outputs[j].id >= self.variable_count {
                assert(!(self@.outputs[j as int].id < self.variable_count));
                return false;
            }
            j += 1;
        }
        true
    }

    /// Builds a program, or `None` where the parts do not make a
    /// well-formed one.
    pub fn new(
        field: Field,
        private: Vec<bool>,
        variable_count: usize,
        statements: Vec<Statement>,
        outputs: Vec<Variable>,
        light: bool,
    ) -> (r: Option<Program>)
        ensures
            match r {
                Some(program) => program@.wf() && program@ == (SpecProgram {
                    field,
                    private: private@,
                    variable_count,
                    statements: statements_view(statements@),
                    outputs: outputs@,
                    light,
                }),
                None => !(SpecProgram {
                    field,
                    private: private@,
                    variable_count,
                    statements: statements_view(statements@),
                    outputs: outputs@,
                    light,
                }).wf(),
            },
    {
        let program = Program { field, private, variable_count, statements, outputs, light };
        if program.is_well_formed() {
            Some(program)
        } else {
            None
        }
    }

    /// For each variable, whether it is one of the outputs.
    pub fn output_marks(&self) -> (r: Vec<bool>)
        ensures
            r@ == output_marks(self@.outputs, self.variable_count as int),
    {
        let mut marks: Vec<bool> = Vec::new();
        while marks.len() < self.variable_count
            invariant
                marks.len() <= self.variable_count,
                forall|id: int| 0 <= id < marks.len() ==> !marks@[id],
            decreases self.variable_count - marks.len(),
        {
            marks.push(false);
        }
        let mut j: usize = 0;
        while j < self.outputs.len()
            invariant
                j <= self.outputs.len(),
                marks.len() == self.variable_count,
                forall|id: int|
                    0 <= id < marks.len() ==> marks@[id] == exists|k: int|
                        0 <= k < j && (#[trigger] self.outputs@[k]).id == id,
            decreases self.outputs.len() - j,
        {
            let id = self.outputs[j].id;
            if id < marks.len() {
                marks.set(id, true);
            }
            j += 1;
        }
        assert(marks@ =~= output_marks(self@.outputs, self.variable_count as int));
        marks
    }

    /// How many arguments the program takes.
    pub fn arguments_count(&self) -> (r: usize)
        ensures
            r == self@.private.len(),
    {
        self.private.len()
    }

    /// The part that `v` plays in this program.
    pub fn role(&self, v: Variable) -> (r: Role)
        ensures
            r == self@.role(v),
    {
        if v.id == 0 {
            Role::One
        } else if v.id <= self.private.len() {
            if self.private[v.id - 1] {
                Role::PrivateInput
            } else {
                Role::PublicInput
            }
        } else {
            Role::Intermediate
        }
    }

    /// The program's signature.
    pub fn signature(&self) -> (r: Signature)
        ensures
            r.arguments == self@.private.len(),
            r.private@ == self@.private,
            r.outputs == self@.outputs.len(),
    {
        let mut private: Vec<bool> = Vec::new();
        let mut i: usize = 0;
        while i < self.private.len()
            invariant
                i <= self.private.len(),
                private@ == self.private@.take(i as int),
            decreases self.private.len() - i,
        {
            private.push(self.private[i]);
            assert(self.private@.take(i + 1) == self.private@.take(i as int).push(
                self.private@[i as int],
            ));
            i += 1;
        }
        assert(self.private@.take(i as int) == self.private@);
        Signature { arguments: self.private.len(), private, outputs: self.outputs.len() }
    }

    /// The number of constraints that the proving backend sees. Directives
    /// serve witness computation alone and are not counted.
    pub fn constraint_count(&self) -> (r: usize)
        ensures
            r == count_constraints(self@.statements),
    {
        let ghost s = self@.statements;
        let mut n: usize = 0;
        let mut i: usize = 0;
        assert(s.take(0) == Seq::<SpecStatement>::empty());
        while i < self.statements.len()
            invariant
                i <= self.statements.len(),
                s == self@.statements,
                n <= i,
                n == count_constraints(s.take(i as int)),
            decreases self.statements.len() - i,
        {
            assert(s.take(i + 1).drop_last() == s.take(i as int));
            assert(s.take(i + 1).last() == self.statements@[i as int]@);
            match &self.statements[i] {
                Statement::Directive(_) => {},
                _ => {
                    n += 1;
                },
            }
            i += 1;
        }
        assert(s.take(i as int) == s);
        n
    }
}

} // verus!
