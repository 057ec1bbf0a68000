//! The passes that simplify programs without changing what they compute.

pub mod binder_soundness;
pub mod constrain_inputs;
pub mod constrain_soundness;
pub mod flat_propagation;
pub mod flat_soundness;
pub mod inline;
pub mod inline_soundness;
pub mod logger_soundness;
pub mod propagation;
pub mod propagation_soundness;
pub mod return_binder;
pub mod statement_logger;
pub mod unconstrained_vars;
pub mod unroll;
pub mod unroll_soundness;

use vstd::prelude::*;

verus! {

/// Why a program could not be analysed.
#[derive(Clone, Copy, Debug, PartialEq, Eq, Structural)]
pub enum AnalysisError {
    /// A bound of the loop at the given position of the given function
    /// is no constant.
    UnrollableBound(usize, usize),
    /// Unrolling would take more iterations than are allowed.
    TooManyIterations,
    /// The function with the given index calls itself, directly or
    /// through others.
    Recursion(usize),
    /// A call names a function that the program does not have, or does
    /// not fit its signature.
    InvalidCall(usize),
    /// The function with the given index has no single return at its end.
    MissingReturn(usize),
    /// The parameter with the given index reaches no output and no
    /// condition.
    UnconstrainedInput(usize),
    /// The statement at the given position is a loop or a call, in a
    /// pass that takes neither.
    UnexpectedStatement(usize),
    /// The program needs more variables than can be numbered.
    TooManyVariables,
}

} // verus!

verus! {

/// How many iterations the analysis unrolls in one function at most.
pub const UNROLL_LIMIT: usize = 1048576;

/// What can be analysed: simplified, without a change to what it
/// computes.
pub trait Analyse: Sized {
    /// What the analysis asks of a program.
    spec fn analysable(&self) -> bool;

    /// What the analysis makes of a program.
    spec fn analysed(&self, r: Result<Self, AnalysisError>) -> bool;

    fn analyse(self) -> (r: Result<Self, AnalysisError>)
        requires
            self.analysable(),
        ensures
            self.analysed(r),
    ;
}

/// The analysis of a typed program: its statements are logged, its
/// loops unrolled, its returns bound, its calls inlined, its constants
/// propagated and its inputs constrained, in this order. The first pass
/// that fails ends the analysis with its error.
pub open spec fn typed_analysis(program: crate::typed_absy::SpecTypedProgram) -> Result<
    crate::typed_absy::SpecTypedProgram,
    AnalysisError,
> {
    match unroll::unrolled(statement_logger::logged(program), UNROLL_LIMIT) {
        Err(e) => Err(e),
        Ok(unrolled) => match return_binder::bound(unrolled) {
            Err(e) => Err(e),
            Ok(bound) => match inline::inlined(bound) {
                Err(e) => Err(e),
                Ok(inlined) => match propagation::propagated(inlined) {
                    Err(e) => Err(e),
                    Ok(propagated) => constrain_inputs::constrained(
                        propagated,
                        constrain_inputs::Policy::Synthesize,
                    ),
                },
            },
        },
    }
}

impl Analyse for crate::typed_absy::TypedProgram {
    open spec fn analysable(&self) -> bool {
        self@.wf()
    }

    open spec fn analysed(&self, r: Result<Self, AnalysisError>) -> bool {
        match r {
            Ok(q) => typed_analysis(self@) == Ok::<crate::typed_absy::SpecTypedProgram, AnalysisError>(
                q@,
            ) && q@.wf(),
            Err(e) => typed_analysis(self@) == Err::<
                crate::typed_absy::SpecTypedProgram,
                AnalysisError,
            >(e),
        }
    }

    fn analyse(self) -> (r: Result<Self, AnalysisError>) {
        let logged = statement_logger::StatementLogger::create_logs(self);
        let unrolled = match unroll::Unroller::new(UNROLL_LIMIT).unroll(logged) {
            Ok(q) => q,
            Err(e) => {
                return Err(e);
            },
        };
        proof {
            unroll::lemma_unrolled_wf(statement_logger::logged(self@), UNROLL_LIMIT);
        }
        let bound = match return_binder::ReturnBinder::bind(unrolled) {
            Ok(q) => q,
            Err(e) => {
                return Err(e);
            },
        };
        let inlined = match inline::Inliner::inline(bound) {
            Ok(q) => q,
            Err(e) => {
                return Err(e);
            },
        };
        let propagated = match propagation::Propagator::propagate(inlined) {
            Ok(q) => q,
            Err(e) => {
                return Err(e);
            },
        };
        constrain_inputs::InputConstrainer::new(constrain_inputs::Policy::Synthesize).constrain(
            propagated,
        )
    }
}

/// The analysis of a flat program: constants and copies are propagated,
/// then the statements that nothing depends on are removed.
pub open spec fn flat_analysis(program: crate::ir::program::SpecProgram) -> crate::ir::program::SpecProgram {
    unconstrained_vars::without_dead_code(flat_propagation::propagated(program))
}

impl Analyse for crate::ir::program::Program {
    open spec fn analysable(&self) -> bool {
        self@.wf()
    }

    open spec fn analysed(&self, r: Result<Self, AnalysisError>) -> bool {
        r is Ok && r.unwrap()@ == flat_analysis(self@) && r.unwrap()@.wf()
    }

    fn analyse(self) -> (r: Result<Self, AnalysisError>) {
        let propagated = flat_propagation::FlatPropagator::propagate(self);
        Ok(unconstrained_vars::UnconstrainedVariableDetector::detect(propagated))
    }
}

} // verus!
