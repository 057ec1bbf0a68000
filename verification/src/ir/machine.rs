//! The interpreter as a state machine.
//!
//! An execution is ready once the inputs are supplied, runs while
//! statements are executed in order, and ends satisfied, when every
//! statement is executed and every output has a value, or failed, at the
//! first statement that cannot be executed. There is no way back.

use crate::ir::interpreter::{
    execution, initial, inputs_in_field, lemma_run_failure, outputs_assigned, run, ExecutionError,
    Interpreter, Witness,
};
use crate::ir::lincomb::{value_at, within};
use crate::ir::program::{Program, SpecProgram};
use crate::ir::statement::{apply, Reason, SpecStatement};
use vstd::prelude::*;

verus! {

/// Where an execution stands.
#[derive(Clone, Copy, Debug, PartialEq, Eq, Structural)]
pub enum State {
    /// The inputs are supplied; no statement is executed.
    Ready,
    /// Some statements are executed, and all of them succeeded.
    Running,
    /// Every statement is executed and every output has a value.
    Satisfied,
    /// The statement at the position could not be executed.
    Failed(Reason),
}

/// An execution of a program: its state, the position of the next
/// statement, and the values assigned so far.
#[derive(Debug)]
pub struct Execution {
    pub state: State,
    pub position: usize,
    pub witness: Witness,
}

/// The mathematical content of an [`Execution`]. A failed execution
/// holds no values.
pub struct SpecExecution {
    pub state: State,
    pub position: usize,
    pub values: Seq<Option<u64>>,
}

impl View for Execution {
    type V = SpecExecution;

    open spec fn view(&self) -> SpecExecution {
        SpecExecution {
            state: self.state,
            position: self.position,
            values: if self.state is Failed {
                Seq::<Option<u64>>::empty()
            } else {
                self.witness@
            },
        }
    }
}

/// The execution has come to its end.
pub open spec fn terminal(state: State) -> bool {
    state is Satisfied || state is Failed
}

/// One step of the machine. An execution that is ready or running
/// executes the statement at its position and goes on, or fails there;
/// past the last statement it is satisfied where every output has a
/// value, and fails elsewhere. An execution at its end stays as it is.
pub open spec fn transition(program: SpecProgram, m: SpecExecution) -> SpecExecution {
    if terminal(m.state) {
        m
    } else if m.position < program.statements.len() {
        match apply(program.statements[m.position as int], m.values, program.p()) {
            Ok(values) => SpecExecution {
                state: State::Running,
                position: (m.position + 1) as usize,
                values,
            },
            Err(reason) => SpecExecution {
                state: State::Failed(reason),
                position: m.position,
                values: Seq::<Option<u64>>::empty(),
            },
        }
    } else if outputs_assigned(program.outputs, m.values) {
        SpecExecution { state: State::Satisfied, ..m }
    } else {
        SpecExecution {
            state: State::Failed(Reason::UndefinedVariable),
            position: m.position,
            values: Seq::<Option<u64>>::empty(),
        }
    }
}

/// The machine after `k` steps.
pub open spec fn after(program: SpecProgram, m: SpecExecution, k: nat) -> SpecExecution
    decreases k,
{
    if k == 0 {
        m
    } else {
        transition(program, after(program, m, (k - 1) as nat))
    }
}

/// The execution that is ready to run the program on the inputs.
pub open spec fn ready(program: SpecProgram, inputs: Seq<u64>) -> SpecExecution {
    SpecExecution {
        state: State::Ready,
        position: 0,
        values: initial(program.variable_count as int, inputs),
    }
}

/// What an execution at its end says of the program: the witness, or
/// where and why it failed.
pub open spec fn verdict(m: SpecExecution) -> Result<Seq<Option<u64>>, ExecutionError> {
    match m.state {
        State::Failed(reason) => Err(ExecutionError::Failed(m.position, reason)),
        _ => Ok(m.values),
    }
}

/// While the program runs without fault, the machine runs with it.
proof fn lemma_after_running(program: SpecProgram, inputs: Seq<u64>, k: nat)
    requires
        program.statements.len() <= usize::MAX,
        k <= program.statements.len(),
        run(
            program.statements.take(k as int),
            initial(program.variable_count as int, inputs),
            program.p(),
        ) is Ok,
    ensures
        !terminal(after(program, ready(program, inputs), k).state),
        after(program, ready(program, inputs), k).position == k,
        after(program, ready(program, inputs), k).values == run(
            program.statements.take(k as int),
            initial(program.variable_count as int, inputs),
            program.p(),
        ).unwrap(),
    decreases k,
{
    let s = program.statements;
    let w0 = initial(program.variable_count as int, inputs);
    if k == 0 {
        assert(s.take(0) == Seq::<SpecStatement>::empty());
    } else {
        assert(s.take(k as int).drop_last() == s.take(k - 1));
        assert(s.take(k as int).last() == s[k - 1]);
        lemma_after_running(program, inputs, (k - 1) as nat);
    }
}

/// Once at its end, the machine stays there.
proof fn lemma_after_terminal(program: SpecProgram, m: SpecExecution, k: nat)
    requires
        terminal(m.state),
    ensures
        after(program, m, k) == m,
    decreases k,
{
    if k > 0 {
        lemma_after_terminal(program, m, (k - 1) as nat);
    }
}

proof fn lemma_after_add(program: SpecProgram, m: SpecExecution, j: nat, k: nat)
    ensures
        after(program, m, j + k) == after(program, after(program, m, j), k),
    decreases k,
{
    if k > 0 {
        lemma_after_add(program, m, j, (k - 1) as nat);
    }
}

/// The machine computes what execution means. Started on valid inputs
/// and given one step for each statement and one more, it has come to
/// its end, and what it says there is the outcome of the execution.
pub proof fn machine_agrees_with_execution(program: SpecProgram, inputs: Seq<u64>)
    requires
        program.statements.len() < usize::MAX,
        inputs.len() == program.private.len(),
        inputs_in_field(inputs, program.p()),
    ensures
        terminal(
            after(program, ready(program, inputs), (program.statements.len() + 1) as nat).state,
        ),
        verdict(after(program, ready(program, inputs), (program.statements.len() + 1) as nat))
            == execution(program, inputs),
{
    let s = program.statements;
    let n = s.len();
    let p = program.p();
    let w0 = initial(program.variable_count as int, inputs);
    let start = ready(program, inputs);
    assert(s.take(n as int) == s);
    if run(s, w0, p) is Ok {
        lemma_after_running(program, inputs, n);
    } else {
        // the first statement that fails
        let k = choose_failure(s, w0, p);
        lemma_after_running(program, inputs, k as nat);
        assert(s.take(k + 1).drop_last() == s.take(k));
        assert(s.take(k + 1).last() == s[k]);
        lemma_run_failure(s, k, w0, p);
        let failed = after(program, start, (k + 1) as nat);
        assert(terminal(failed.state));
        lemma_after_add(program, start, (k + 1) as nat, (n - k) as nat);
        lemma_after_terminal(program, failed, (n - k) as nat);
    }
}

/// The position of the first statement that fails in a run that fails.
proof fn choose_failure(s: Seq<SpecStatement>, w0: Seq<Option<u64>>, p: int) -> (k: int)
    requires
        run(s, w0, p) is Err,
    ensures
        0 <= k < s.len(),
        run(s.take(k), w0, p) is Ok,
        run(s.take(k + 1), w0, p) is Err,
    decreases s.len(),
{
    if run(s.drop_last(), w0, p) is Err {
        let k = choose_failure(s.drop_last(), w0, p);
        assert(s.drop_last().take(k) == s.take(k));
        assert(s.drop_last().take(k + 1) == s.take(k + 1));
        k
    } else {
        assert(s.take(s.len() - 1) == s.drop_last());
        assert(s.take(s.len() as int) == s);
        s.len() - 1
    }
}

impl Interpreter {
    /// Makes an execution ready: checks the inputs and puts one and the
    /// inputs in their places.
    pub fn start(&self, program: &Program, inputs: &Vec<u64>) -> (r: Result<
        Execution,
        ExecutionError,
    >)
        requires
            program@.wf(),
        ensures
            match r {
                Ok(m) => inputs@.len() == program@.private.len() && inputs_in_field(
                    inputs@,
                    program@.p(),
                ) && m@ == ready(program@, inputs@) && m.fits(program@),
                Err(e) => if inputs@.len() != program@.private.len() {
                    e == ExecutionError::WrongArgumentCount
                } else {
                    !inputs_in_field(inputs@, program@.p()) && e
                        == ExecutionError::ArgumentOutOfField
                },
            },
    {
        let ghost p = program@.p();
        if inputs.len() != program.private.len() {
            return Err(ExecutionError::WrongArgumentCount);
        }
        let mut values: Vec<Option<u64>> = Vec::new();
        values.push(Some(1));
        let mut i: usize = 0;
        while i < inputs.len()
            invariant
                i <= inputs.len(),
                inputs.len() == program.private.len(),
                inputs.len() < program.variable_count,
                values.len() == i + 1,
                p == program.field.modulus as int,
                p >= 2,
                values@ == initial(i + 1, inputs@),
                within(values@, p),
                forall|k: int| 0 <= k < i ==> (#[trigger] inputs@[k]) < p,
            decreases inputs.len() - i,
        {
            if inputs[i] >= program.field.modulus {
                assert(!(inputs@[i as int] < p));
                return Err(ExecutionError::ArgumentOutOfField);
            }
            values.push(Some(inputs[i]));
            i += 1;
            assert(values@ =~= initial(i + 1, inputs@));
        }
        while values.len() < program.variable_count
            invariant
                inputs.len() < values.len() <= program.variable_count,
                values@ == initial(values.len() as int, inputs@),
                within(values@, p),
            decreases program.variable_count - values.len(),
        {
            values.push(None);
            assert(values@ =~= initial(values.len() as int, inputs@));
        }
        Ok(Execution { state: State::Ready, position: 0, witness: Witness { values } })
    }
}

impl Execution {
    /// The execution is one of the program: it holds a value or none
    /// for each variable, all within the field, and stands at one of
    /// the statements or past the last.
    pub open spec fn fits(&self, program: SpecProgram) -> bool {
        &&& self.position <= program.statements.len()
        &&& !(self.state is Failed) ==> self.witness@.len() == program.variable_count && within(
            self.witness@,
            program.p(),
        )
    }

    /// Whether the execution has come to its end.
    pub fn is_done(&self) -> (r: bool)
        ensures
            r == terminal(self.state),
    {
        match self.state {
            State::Satisfied => true,
            State::Failed(_) => true,
            _ => false,
        }
    }

    /// Takes one step; see [`transition`].
    pub fn step(&mut self, program: &Program)
        requires
            program@.wf(),
            old(self).fits(program@),
        ensures
            final(self)@ == transition(program@, old(self)@),
            final(self).fits(program@),
    {
        if self.is_done() {
            return ;
        }
        if self.position < program.statements.len() {
            assert(program@.statements[self.position as int]
                == program.statements@[self.position as int]@);
            match program.statements[self.position].execute(
                &mut self.witness.values,
                &program.field,
            ) {
                Ok(_) => {
                    self.state = State::Running;
                    self.position = self.position + 1;
                },
                Err(reason) => {
                    self.state = State::Failed(reason);
                },
            }
        } else {
            let mut j: usize = 0;
            while j < program.outputs.len()
                invariant
                    j <= program.outputs.len(),
                    program@.wf(),
                    self.witness == old(self).witness,
                    self.state == old(self).state,
                    self.position == old(self).position,
                    !terminal(self.state),
                    self.position >= program@.statements.len(),
                    old(self).fits(program@),
                    self.witness@.len() == program.variable_count,
                    forall|m: int|
                        0 <= m < j ==> value_at(self.witness@, #[trigger] program.outputs@[m])
                            is Some,
                decreases program.outputs.len() - j,
            {
                assert(program@.outputs[j as int].id < program.variable_count);
                if self.witness.values[program.outputs[j].id].is_none() {
                    assert(value_at(self.witness@, program.outputs@[j as int]) is None);
                    self.state = State::Failed(Reason::UndefinedVariable);
                    return ;
                }
                j += 1;
            }
            self.state = State::Satisfied;
        }
    }

    /// Takes steps until the execution has come to its end.
    pub fn run(&mut self, program: &Program)
        requires
            program@.wf(),
            old(self).fits(program@),
        ensures
            terminal(final(self).state),
            final(self).fits(program@),
            exists|k: nat| final(self)@ == #[trigger] after(program@, old(self)@, k),
    {
        let ghost steps: nat = 0;
        while !self.is_done()
            invariant
                program@.wf(),
                self.fits(program@),
                self@ == after(program@, old(self)@, steps),
            decreases
                    2 * (program.statements.len() - self.position) + (if terminal(self.state) {
                        0int
                    } else {
                        1int
                    }),
        {
            self.step(program);
            proof {
                steps = steps + 1;
            }
        }
    }

    /// What the execution says at its end: the witness, or where and
    /// why it failed; see [`verdict`].
    pub fn finish(self) -> (r: Result<Witness, ExecutionError>)
        requires
            terminal(self.state),
        ensures
            crate::ir::interpreter::outcome(r) == verdict(self@),
    {
        match self.state {
            State::Failed(reason) => Err(ExecutionError::Failed(self.position, reason)),
            _ => Ok(self.witness),
        }
    }
}

} // verus!
