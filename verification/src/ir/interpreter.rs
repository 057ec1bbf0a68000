//! Execution of a flat program on concrete inputs.
//!
//! Execution starts from the inputs, runs the statements in order, and
//! ends either with every statement executed and every constraint held, or
//! at the first statement that cannot be executed.

use crate::field::inverse_of;
use crate::ir::lincomb::{eval, sum, value_at, within, Variable};
use vstd::arithmetic::div_mod::lemma_mod_bound;
use crate::ir::program::{Program, SpecProgram};
use crate::ir::statement::{apply, assign_bits, bit, Reason, SpecDirective, SpecStatement};
use vstd::prelude::*;

verus! {

/// Why an execution produced no witness.
#[derive(Clone, Copy, Debug, PartialEq, Eq, Structural)]
pub enum ExecutionError {
    /// The number of inputs differs from the number of arguments.
    WrongArgumentCount,
    /// An input is not a reduced field element.
    ArgumentOutOfField,
    /// The statement at the given position could not be executed. The
    /// position one past the last statement stands for the check that
    /// every returned variable has a value.
    Failed(usize, Reason),
}

/// An assignment of field elements to the variables of a program.
#[derive(Debug)]
pub struct Witness {
    pub values: Vec<Option<u64>>,
}

impl View for Witness {
    type V = Seq<Option<u64>>;

    open spec fn view(&self) -> Seq<Option<u64>> {
        self.values@
    }
}

/// The assignment before any statement has run: one, then the inputs.
pub open spec fn initial(n: int, inputs: Seq<u64>) -> Seq<Option<u64>> {
    Seq::new(
        n as nat,
        |i: int|
            if i == 0 {
                Some(1u64)
            } else if i <= inputs.len() {
                Some(inputs[i - 1])
            } else {
                None
            },
    )
}

/// Runs the statements in order from `w`. The error names the position
/// of the first statement that cannot be executed.
pub open spec fn run(s: Seq<SpecStatement>, w: Seq<Option<u64>>, p: int) -> Result<
    Seq<Option<u64>>,
    ExecutionError,
>
    decreases s.len(),
{
    if s.len() == 0 {
        Ok(w)
    } else {
        match run(s.drop_last(), w, p) {
            Ok(w1) => match apply(s.last(), w1, p) {
                Ok(w2) => Ok(w2),
                Err(r) => Err(ExecutionError::Failed((s.len() - 1) as usize, r)),
            },
            Err(e) => Err(e),
        }
    }
}

/// Every input is a reduced field element.
pub open spec fn inputs_in_field(inputs: Seq<u64>, p: int) -> bool {
    forall|i: int| 0 <= i < inputs.len() ==> (#[trigger] inputs[i]) < p
}

/// Every returned variable has a value.
pub open spec fn outputs_assigned(outputs: Seq<Variable>, w: Seq<Option<u64>>) -> bool {
    forall|i: int| 0 <= i < outputs.len() ==> value_at(w, #[trigger] outputs[i]) is Some
}

/// The outcome of executing `program` on `inputs`.
pub open spec fn execution(program: SpecProgram, inputs: Seq<u64>) -> Result<
    Seq<Option<u64>>,
    ExecutionError,
> {
    if inputs.len() != program.private.len() {
        Err(ExecutionError::WrongArgumentCount)
    } else if !inputs_in_field(inputs, program.p()) {
        Err(ExecutionError::ArgumentOutOfField)
    } else {
        match run(program.statements, initial(program.variable_count as int, inputs), program.p()) {
            Ok(w) => if outputs_assigned(program.outputs, w) {
                Ok(w)
            } else {
                Err(ExecutionError::Failed(program.statements.len() as usize, Reason::UndefinedVariable))
            },
            Err(e) => Err(e),
        }
    }
}

/// The values that a witness gives the returned variables.
pub open spec fn returned(outputs: Seq<Variable>, w: Seq<Option<u64>>) -> Seq<u64> {
    Seq::new(outputs.len(), |i: int| value_at(w, outputs[i]).unwrap())
}

/// What an outcome of [`Interpreter::execute`] says, with the witness
/// taken by its view.
pub open spec fn outcome(r: Result<Witness, ExecutionError>) -> Result<
    Seq<Option<u64>>,
    ExecutionError,
> {
    match r {
        Ok(w) => Ok(w@),
        Err(e) => Err(e),
    }
}

/// Executes flat programs. It holds no state: each execution depends on
/// the program and the inputs alone.
#[derive(Clone, Copy, Debug)]
pub struct Interpreter {}

impl Default for Interpreter {
    fn default() -> (r: Interpreter)
        ensures
            r == (Interpreter {  }),
    {
        Interpreter {  }
    }
}

impl Interpreter {
    /// Executes `program` on `inputs`. On success the witness holds the
    /// value of every variable that a statement assigned; on failure the
    /// error tells where and why execution stopped.
    pub fn execute(&self, program: &Program, inputs: &Vec<u64>) -> (r: Result<
        Witness,
        ExecutionError,
    >)
        requires
            program@.wf(),
        ensures
            outcome(r) == execution(program@, inputs@),
            r is Ok ==> r.unwrap()@.len() == program.variable_count && within(
                r.unwrap()@,
                program@.p(),
            ),
    {
        let ghost p = program@.p();
        let ghost s = program@.statements;
        if inputs.len() != program.private.len() {
            return Err(ExecutionError::WrongArgumentCount);
        }
        let mut values: Vec<Option<u64>> = Vec::new();
        values.push(Some(1));
        let mut i: usize = 0;
        while i < inputs.len()
            invariant
                i <= inputs.len(),
                inputs.len() == program.private.len(),
                inputs.len() < program.variable_count,
                values.len() == i + 1,
                p == program.field.modulus as int,
                p >= 2,
                values@ == initial(i + 1, inputs@),
                within(values@, p),
                forall|k: int| 0 <= k < i ==> (#[trigger] inputs@[k]) < p,
            decreases inputs.len() - i,
        {
            if inputs[i] >= program.field.modulus {
                assert(!(inputs@[i as int] < p));
                return Err(ExecutionError::ArgumentOutOfField);
            }
            values.push(Some(inputs[i]));
            i += 1;
            assert(values@ =~= initial(i + 1, inputs@));
        }
        while values.len() < program.variable_count
            invariant
                inputs.len() < values.len() <= program.variable_count,
                values@ == initial(values.len() as int, inputs@),
                within(values@, p),
            decreases program.variable_count - values.len(),
        {
            values.push(None);
            assert(values@ =~= initial(values.len() as int, inputs@));
        }
        let ghost w0 = values@;
        assert(inputs_in_field(inputs@, p));
        let mut k: usize = 0;
        assert(s.take(0) == Seq::<SpecStatement>::empty());
        while k < program.statements.len()
            invariant
                k <= program.statements.len(),
                program@.wf(),
                inputs@.len() == program@.private.len(),
                inputs_in_field(inputs@, p),
                w0 == initial(program.variable_count as int, inputs@),
                p == program@.p(),
                s == program@.statements,
                values.len() == program.variable_count,
                within(values@, p),
                run(s.take(k as int), w0, p) == Ok::<Seq<Option<u64>>, ExecutionError>(values@),
            decreases program.statements.len() - k,
        {
            assert(s.take(k + 1).drop_last() == s.take(k as int));
            assert(s.take(k + 1).last() == s[k as int]);
            assert(s[k as int] == program.statements@[k as int]@);
            let ghost before = values@;
            match program.statements[k].execute(&mut values, &program.field) {
                Ok(_) => {},
                Err(reason) => {
                    proof {
                        assert(apply(s[k as int], before, p) is Err);
                        assert(run(s.take(k + 1), w0, p) == Err::<Seq<Option<u64>>, ExecutionError>(
                            ExecutionError::Failed(k, reason),
                        ));
                        lemma_run_failure(s, k as int, w0, p);
                    }
                    return Err(ExecutionError::Failed(k, reason));
                },
            }
            k += 1;
        }
        assert(s.take(k as int) == s);
        let mut j: usize = 0;
        while j < program.outputs.len()
            invariant
                j <= program.outputs.len(),
                program@.wf(),
                inputs@.len() == program@.private.len(),
                inputs_in_field(inputs@, p),
                w0 == initial(program.variable_count as int, inputs@),
                p == program@.p(),
                s == program@.statements,
                run(s, w0, p) == Ok::<Seq<Option<u64>>, ExecutionError>(values@),
                values.len() == program.variable_count,
                k == program.statements.len(),
                forall|m: int| 0 <= m < j ==> value_at(values@, #[trigger] program.outputs@[m]) is Some,
            decreases program.outputs.len() - j,
        {
            assert(program@.outputs[j as int].id < program.variable_count);
            if values[program.outputs[j].id].is_none() {
                assert(value_at(values@, program.outputs@[j as int]) is None);
                return Err(ExecutionError::Failed(k, Reason::UndefinedVariable));
            }
            j += 1;
        }
        Ok(Witness { values })
    }
}

/// A run that fails on a prefix fails in the same way on the whole.
pub proof fn lemma_run_failure(s: Seq<SpecStatement>, k: int, w: Seq<Option<u64>>, p: int)
    requires
        0 <= k < s.len(),
        run(s.take(k + 1), w, p) is Err,
    ensures
        run(s, w, p) == run(s.take(k + 1), w, p),
    decreases s.len(),
{
    if k + 1 == s.len() {
        assert(s.take(k + 1) == s);
    } else {
        assert(s.drop_last().take(k + 1) == s.take(k + 1));
        lemma_run_failure(s.drop_last(), k, w, p);
    }
}

impl Witness {
    /// The value of `v`, where it has one.
    pub fn get(&self, v: Variable) -> (r: Option<u64>)
        ensures
            r == value_at(self@, v),
    {
        if v.id < self.values.len() {
            self.values[v.id]
        } else {
            None
        }
    }

    /// The values of the returned variables, in order; `None` where one
    /// of them has no value.
    pub fn return_values(&self, program: &Program) -> (r: Option<Vec<u64>>)
        ensures
            match r {
                Some(v) => outputs_assigned(program@.outputs, self@) && v@ == returned(
                    program@.outputs,
                    self@,
                ),
                None => !outputs_assigned(program@.outputs, self@),
            },
    {
        let mut out: Vec<u64> = Vec::new();
        let mut j: usize = 0;
        while j < program.outputs.len()
            invariant
                j <= program.outputs.len(),
                out.len() == j,
                forall|m: int| 0 <= m < j ==> value_at(self@, #[trigger] program.outputs@[m]) is Some,
                forall|m: int|
                    0 <= m < j ==> out@[m] == value_at(self@, #[trigger] program.outputs@[m]).unwrap(),
            decreases program.outputs.len() - j,
        {
            match self.get(program.outputs[j]) {
                Some(x) => {
                    out.push(x);
                },
                None => {
                    return None;
                },
            }
            j += 1;
        }
        assert(out@ =~= returned(program@.outputs, self@));
        Some(out)
    }
}

/// The outcome of an execution is a function of the program and the
/// inputs: two executions of the same program on the same inputs end in
/// the same witness, or in the same failure.
pub proof fn execution_is_deterministic(
    program: SpecProgram,
    inputs: Seq<u64>,
    first: Result<Witness, ExecutionError>,
    second: Result<Witness, ExecutionError>,
)
    requires
        outcome(first) == execution(program, inputs),
        outcome(second) == execution(program, inputs),
    ensures
        outcome(first) == outcome(second),
        first is Ok ==> second is Ok && first.unwrap()@ == second.unwrap()@,
        first is Err ==> second is Err && first->Err_0 == second->Err_0,
{
}

} // verus!

verus! {

/// Every value of `part` is the value that `whole` gives the same
/// variable.
pub open spec fn part_of(part: Seq<Option<u64>>, whole: Seq<Option<u64>>) -> bool {
    &&& part.len() == whole.len()
    &&& forall|id: int| 0 <= id < part.len() && (#[trigger] part[id]) is Some ==> part[id] == whole[id]
}

/// The statement assigns the variable with index `id`.
pub open spec fn writes(s: SpecStatement, id: int) -> bool {
    match s {
        SpecStatement::Definition(v, _) => v.id == id,
        SpecStatement::Constraint(_, _, _) => false,
        SpecStatement::Directive(d) => match d {
            SpecDirective::Product(o, _, _) => o.id == id,
            SpecDirective::Quotient(o, _, _) => o.id == id,
            SpecDirective::NonZero(f, i, _) => f.id == id || i.id == id,
            SpecDirective::Bits(f, count, _) => f.id <= id < f.id + count,
        },
    }
}

/// Assigning bits changes the variables of the bits alone, which had
/// no value, and gives each its bit.
pub proof fn lemma_assign_bits_frame(w: Seq<Option<u64>>, first: Variable, count: int, x: int)
    requires
        0 <= count,
        assign_bits(w, first, count, x) is Ok,
    ensures
        assign_bits(w, first, count, x).unwrap().len() == w.len(),
        count > 0 ==> first.id + count <= w.len(),
        forall|id: int|
            0 <= id < w.len() && !(first.id <= id < first.id + count) ==> #[trigger] assign_bits(
                w,
                first,
                count,
                x,
            ).unwrap()[id] == w[id],
        forall|id: int| first.id <= id < first.id + count ==> (#[trigger] w[id]) is None,
        forall|i: int|
            0 <= i < count ==> #[trigger] assign_bits(w, first, count, x).unwrap()[first.id + i]
                == Some(bit(x, i)),
    decreases count,
{
    if count > 0 {
        lemma_assign_bits_frame(w, first, count - 1, x);
        let w1 = assign_bits(w, first, count - 1, x).unwrap();
        let w2 = assign_bits(w, first, count, x).unwrap();
        assert forall|i: int| 0 <= i < count implies #[trigger] w2[first.id + i] == Some(
            bit(x, i),
        ) by {
            if i < count - 1 {
                assert(w1[first.id + i] == Some(bit(x, i)));
            }
        }
        assert forall|id: int| first.id <= id < first.id + count implies (#[trigger] w[id])
            is None by {
            if id == first.id + count - 1 {
                assert(w1[id] == w[id]);
            }
        }
    }
}

/// A statement changes only what it assigns, and assigns only what had
/// no value.
pub proof fn lemma_apply_frame(s: SpecStatement, w: Seq<Option<u64>>, p: int)
    requires
        apply(s, w, p) is Ok,
    ensures
        apply(s, w, p).unwrap().len() == w.len(),
        forall|id: int|
            0 <= id < w.len() && !writes(s, id) ==> #[trigger] apply(s, w, p).unwrap()[id] == w[id],
        forall|id: int| 0 <= id < w.len() && writes(s, id) ==> (#[trigger] w[id]) is None,
{
    match s {
        SpecStatement::Directive(SpecDirective::Bits(f, count, e)) => {
            lemma_assign_bits_frame(w, f, count as int, eval(e, w, p).unwrap() as int);
        },
        _ => {},
    }
}

/// A run that succeeds has succeeded on every prefix.
pub proof fn lemma_run_prefix(s: Seq<SpecStatement>, k: int, w: Seq<Option<u64>>, p: int)
    requires
        0 <= k <= s.len(),
        run(s, w, p) is Ok,
    ensures
        run(s.take(k), w, p) is Ok,
{
    if k > 0 && run(s.take(k), w, p) is Err {
        lemma_run_failure(s, k - 1, w, p);
    }
}

/// How a run goes on by one statement.
pub proof fn lemma_run_push(s: Seq<SpecStatement>, x: SpecStatement, w0: Seq<Option<u64>>, p: int)
    requires
        run(s, w0, p) is Ok,
    ensures
        run(s.push(x), w0, p) == match apply(x, run(s, w0, p).unwrap(), p) {
            Ok(w2) => Ok::<Seq<Option<u64>>, ExecutionError>(w2),
            Err(r) => Err(ExecutionError::Failed(s.len() as usize, r)),
        },
{
    assert(s.push(x).drop_last() == s);
}

/// A run keeps the number of variables.
pub proof fn lemma_run_length(s: Seq<SpecStatement>, w0: Seq<Option<u64>>, p: int)
    requires
        run(s, w0, p) is Ok,
    ensures
        run(s, w0, p).unwrap().len() == w0.len(),
    decreases s.len(),
{
    if s.len() > 0 {
        lemma_run_length(s.drop_last(), w0, p);
        lemma_apply_frame(s.last(), run(s.drop_last(), w0, p).unwrap(), p);
    }
}

} // verus!

verus! {

/// A statement stores reduced field elements only.
pub proof fn lemma_apply_within(s: SpecStatement, w: Seq<Option<u64>>, p: int)
    requires
        2 <= p <= u64::MAX,
        within(w, p),
        apply(s, w, p) is Ok,
    ensures
        within(apply(s, w, p).unwrap(), p),
        part_of(w, apply(s, w, p).unwrap()),
{
    let w2 = apply(s, w, p).unwrap();
    lemma_apply_frame(s, w, p);
    match s {
        SpecStatement::Definition(v, e) => {
            lemma_mod_bound(sum(e, w), p);
        },
        SpecStatement::Constraint(a, b, c) => {},
        SpecStatement::Directive(d) => match d {
            SpecDirective::Product(o, a, b) => {
                lemma_mod_bound(eval(a, w, p).unwrap() * eval(b, w, p).unwrap(), p);
            },
            SpecDirective::Quotient(o, a, b) => {
                lemma_mod_bound(
                    eval(a, w, p).unwrap() * inverse_of(eval(b, w, p).unwrap() as int, p),
                    p,
                );
            },
            SpecDirective::NonZero(f, i, x) => {},
            SpecDirective::Bits(f, count, e) => {
                lemma_assign_bits_frame(w, f, count as int, eval(e, w, p).unwrap() as int);
                assert forall|id: int|
                    0 <= id < w2.len() && (#[trigger] w2[id]) is Some implies w2[id].unwrap()
                    < p by {
                    if f.id <= id < f.id + count {
                        assert(w2[f.id + (id - f.id)] == Some(
                            bit(eval(e, w, p).unwrap() as int, id - f.id),
                        ));
                    } else {
                        assert(w2[id] == w[id]);
                    }
                }
            },
        },
    }
    assert forall|id: int| 0 <= id < w2.len() && (#[trigger] w2[id]) is Some implies w2[id].unwrap()
        < p by {
        if !writes(s, id) {
            assert(w2[id] == w[id]);
        }
    }
}

/// A run only adds values, all of them reduced field elements.
pub proof fn lemma_run_extends(s: Seq<SpecStatement>, w: Seq<Option<u64>>, p: int)
    requires
        2 <= p <= u64::MAX,
        within(w, p),
        run(s, w, p) is Ok,
    ensures
        within(run(s, w, p).unwrap(), p),
        part_of(w, run(s, w, p).unwrap()),
    decreases s.len(),
{
    if s.len() > 0 {
        lemma_run_extends(s.drop_last(), w, p);
        lemma_apply_within(s.last(), run(s.drop_last(), w, p).unwrap(), p);
    }
}

/// Running one list of statements after another is running the two in
/// a row.
pub proof fn lemma_run_concat(
    a: Seq<SpecStatement>,
    b: Seq<SpecStatement>,
    w: Seq<Option<u64>>,
    p: int,
)
    requires
        run(a + b, w, p) is Ok,
    ensures
        run(a, w, p) is Ok,
        run(b, run(a, w, p).unwrap(), p) is Ok,
        run(a + b, w, p).unwrap() == run(b, run(a, w, p).unwrap(), p).unwrap(),
    decreases b.len(),
{
    if b.len() == 0 {
        assert(a + b == a);
    } else {
        assert((a + b).drop_last() == a + b.drop_last());
        assert((a + b).last() == b.last());
        lemma_run_concat(a, b.drop_last(), w, p);
    }
}

/// A run of no statement changes nothing; a run of one statement is
/// that statement.
pub proof fn lemma_run_one(x: SpecStatement, w: Seq<Option<u64>>, p: int)
    ensures
        run(Seq::<SpecStatement>::empty(), w, p) == Ok::<Seq<Option<u64>>, ExecutionError>(w),
        run(seq![x], w, p) is Ok == apply(x, w, p) is Ok,
        run(seq![x], w, p) is Ok ==> run(seq![x], w, p).unwrap() == apply(x, w, p).unwrap(),
{
    assert(seq![x].drop_last() == Seq::<SpecStatement>::empty());
    assert(seq![x].last() == x);
}

} // verus!

verus! {

/// What a statement asks of a witness: a definition, that the variable
/// has the value of the combination; a constraint, that the product of
/// the first two combinations is the third. A directive asks nothing.
pub open spec fn satisfied(s: SpecStatement, w: Seq<Option<u64>>, p: int) -> bool {
    match s {
        SpecStatement::Definition(v, e) => eval(e, w, p) is Some && value_at(w, v) == eval(e, w, p),
        SpecStatement::Constraint(a, b, c) => eval(a, w, p) is Some && eval(b, w, p) is Some && eval(
            c,
            w,
            p,
        ) is Some && (eval(a, w, p).unwrap() * eval(b, w, p).unwrap()) % p == eval(
            c,
            w,
            p,
        ).unwrap(),
        SpecStatement::Directive(_) => true,
    }
}

/// The witness meets every statement.
pub open spec fn satisfies(s: Seq<SpecStatement>, w: Seq<Option<u64>>, p: int) -> bool {
    forall|k: int| 0 <= k < s.len() ==> satisfied(#[trigger] s[k], w, p)
}

/// What a witness meets, it goes on meeting when values are added.
proof fn lemma_satisfied_extends(
    s: SpecStatement,
    w: Seq<Option<u64>>,
    more: Seq<Option<u64>>,
    p: int,
)
    requires
        satisfied(s, w, p),
        part_of(w, more),
    ensures
        satisfied(s, more, p),
{
    match s {
        SpecStatement::Definition(v, e) => {
            crate::ir::lincomb::lemma_eval_extends(e, w, more, p);
            assert(w[v.id as int] is Some);
        },
        SpecStatement::Constraint(a, b, c) => {
            crate::ir::lincomb::lemma_eval_extends(a, w, more, p);
            crate::ir::lincomb::lemma_eval_extends(b, w, more, p);
            crate::ir::lincomb::lemma_eval_extends(c, w, more, p);
        },
        SpecStatement::Directive(_) => {},
    }
}

/// A statement that has been executed is met by what it leaves.
proof fn lemma_apply_satisfies(s: SpecStatement, w: Seq<Option<u64>>, p: int)
    requires
        2 <= p <= u64::MAX,
        within(w, p),
        apply(s, w, p) is Ok,
    ensures
        satisfied(s, apply(s, w, p).unwrap(), p),
{
    let w2 = apply(s, w, p).unwrap();
    lemma_apply_within(s, w, p);
    match s {
        SpecStatement::Definition(v, e) => {
            crate::ir::lincomb::lemma_eval_extends(e, w, w2, p);
        },
        _ => {},
    }
}

/// A run that succeeds leaves a witness that meets all its statements.
pub proof fn lemma_run_satisfies(s: Seq<SpecStatement>, w: Seq<Option<u64>>, p: int)
    requires
        2 <= p <= u64::MAX,
        within(w, p),
        run(s, w, p) is Ok,
    ensures
        satisfies(s, run(s, w, p).unwrap(), p),
    decreases s.len(),
{
    if s.len() > 0 {
        let front = s.drop_last();
        lemma_run_satisfies(front, w, p);
        lemma_run_extends(front, w, p);
        let w1 = run(front, w, p).unwrap();
        let w2 = run(s, w, p).unwrap();
        lemma_apply_within(s.last(), w1, p);
        lemma_apply_satisfies(s.last(), w1, p);
        assert forall|k: int| 0 <= k < s.len() implies satisfied(#[trigger] s[k], w2, p) by {
            if k < s.len() - 1 {
                assert(front[k] == s[k]);
                lemma_satisfied_extends(s[k], w1, w2, p);
            }
        }
    }
}

/// The start of an execution holds one and the inputs, all of them
/// reduced.
pub proof fn lemma_initial(n: int, inputs: Seq<u64>, p: int)
    requires
        2 <= p,
        inputs.len() < n,
        inputs_in_field(inputs, p),
    ensures
        within(initial(n, inputs), p),
        initial(n, inputs).len() == n,
        value_at(initial(n, inputs), Variable { id: 0 }) == Some(1u64),
        forall|i: int|
            0 <= i < inputs.len() ==> (#[trigger] initial(n, inputs)[i + 1]) == Some(inputs[i]),
{
}

/// The interpreter is sound: the witness of an execution that succeeds
/// meets every definition and every constraint of the program, holds
/// one and the inputs in their places, and gives every output a value.
pub proof fn execution_is_sound(program: SpecProgram, inputs: Seq<u64>)
    requires
        program.wf(),
        execution(program, inputs) is Ok,
    ensures
        satisfies(program.statements, execution(program, inputs).unwrap(), program.p()),
        within(execution(program, inputs).unwrap(), program.p()),
        execution(program, inputs).unwrap().len() == program.variable_count,
        value_at(execution(program, inputs).unwrap(), Variable { id: 0 }) == Some(1u64),
        forall|i: int|
            0 <= i < inputs.len() ==> (#[trigger] execution(program, inputs).unwrap()[i + 1])
                == Some(inputs[i]),
        outputs_assigned(program.outputs, execution(program, inputs).unwrap()),
{
    let p = program.p();
    let n = program.variable_count as int;
    let w0 = initial(n, inputs);
    lemma_initial(n, inputs, p);
    lemma_run_satisfies(program.statements, w0, p);
    lemma_run_extends(program.statements, w0, p);
    let w = run(program.statements, w0, p).unwrap();
    assert(w0[0] is Some);
    assert forall|i: int| 0 <= i < inputs.len() implies (#[trigger] w[i + 1]) == Some(
        inputs[i],
    ) by {
        assert(w0[i + 1] is Some);
    }
}

} // verus!

verus! {

/// Constraints change nothing: a run of constraints alone leaves the
/// assignment as it was.
pub proof fn lemma_run_constraints(s: Seq<SpecStatement>, w: Seq<Option<u64>>, p: int)
    requires
        run(s, w, p) is Ok,
        forall|k: int| 0 <= k < s.len() ==> (#[trigger] s[k]) is Constraint,
    ensures
        run(s, w, p).unwrap() == w,
    decreases s.len(),
{
    if s.len() > 0 {
        assert forall|k: int| 0 <= k < s.len() - 1 implies (#[trigger] s.drop_last()[k])
            is Constraint by {
            assert(s.drop_last()[k] == s[k]);
        }
        lemma_run_constraints(s.drop_last(), w, p);
        assert(s[s.len() - 1] is Constraint);
    }
}

} // verus!
