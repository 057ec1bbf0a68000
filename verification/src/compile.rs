//! From a typed program to a flat program.

use crate::field::is_prime;
use crate::flatten::completeness::flattening_is_complete;
use crate::flatten::program::{encode_each, flattening_of_programs_is_sound};
use crate::flatten::shape::lemma_flattened_wf;
use crate::flatten::{flattened, FlattenError, Flattener};
use crate::ir::interpreter::{execution, returned};
use crate::ir::program::{Program, SpecProgram};
use crate::semantics::call;
use crate::static_analysis::binder_soundness::binding_keeps_meaning;
use crate::static_analysis::constrain_inputs::Policy;
use crate::static_analysis::constrain_soundness::constraining_keeps_meaning;
use crate::static_analysis::flat_propagation::propagation_is_idempotent;
use crate::static_analysis::flat_soundness::propagation_is_sound;
use crate::static_analysis::inline::inlined;
use crate::static_analysis::inline_soundness::inlining_keeps_meaning;
use crate::static_analysis::logger_soundness::logging_keeps_meaning;
use crate::static_analysis::propagation::propagated;
use crate::static_analysis::propagation_soundness::typed_propagation_is_sound;
use crate::static_analysis::return_binder::bound;
use crate::static_analysis::statement_logger::logged;
use crate::static_analysis::unconstrained_vars::dead_code_safety;
use crate::static_analysis::unroll::{lemma_unrolled_wf, unrolled};
use crate::static_analysis::unroll_soundness::unrolling_keeps_meaning;
use crate::static_analysis::{
    flat_analysis, typed_analysis, Analyse, AnalysisError, UNROLL_LIMIT,
};
use crate::typed_absy::{meaning, value_within, SpecTypedProgram, TypedProgram, Value};
use vstd::prelude::*;

verus! {

/// Why a program could not be compiled.
#[derive(Clone, Copy, Debug, PartialEq, Eq, Structural)]
pub enum CompileError {
    /// A pass of the analysis failed.
    Analysis(AnalysisError),
    /// The analysed program could not be lowered.
    Flattening(FlattenError),
}

/// The outcome of compilation: the typed program is analysed, its main
/// function lowered, and the flat program analysed. The first step that
/// fails ends the compilation with its error.
pub open spec fn compiled(program: SpecTypedProgram) -> Result<SpecProgram, CompileError> {
    match typed_analysis(program) {
        Err(e) => Err(CompileError::Analysis(e)),
        Ok(analysed) => match flattened(analysed) {
            Err(e) => Err(CompileError::Flattening(e)),
            Ok(flat) => Ok(flat_analysis(flat)),
        },
    }
}

/// Compiles a typed program into a flat program; see [`compiled`].
pub fn compile(program: TypedProgram) -> (r: Result<Program, CompileError>)
    requires
        program@.wf(),
    ensures
        match r {
            Ok(flat) => compiled(program@) == Ok::<SpecProgram, CompileError>(flat@) && flat@.wf(),
            Err(e) => compiled(program@) == Err::<SpecProgram, CompileError>(e),
        },
{
    let analysed = match program.analyse() {
        Ok(q) => q,
        Err(e) => {
            return Err(CompileError::Analysis(e));
        },
    };
    let flat = match Flattener::flatten(&analysed) {
        Ok(q) => q,
        Err(e) => {
            return Err(CompileError::Flattening(e));
        },
    };
    match flat.analyse() {
        Ok(q) => Ok(q),
        Err(e) => Err(CompileError::Analysis(e)),
    }
}

} // verus!

verus! {

/// The analysis keeps the meaning: what a call of the main function
/// returns in a program, the main function of the analysed program
/// means.
pub proof fn analysis_keeps_meaning(program: SpecTypedProgram, arguments: Seq<Value>, fuel: nat)
    requires
        program.wf(),
        typed_analysis(program) is Ok,
        forall|j: int|
            0 <= j < arguments.len() ==> value_within(
                #[trigger] arguments[j],
                program.field.modulus as int,
            ),
        call(program.functions, program.main, arguments, program.field.modulus as int, false, fuel)
            is Some,
    ensures
        typed_analysis(program).unwrap().wf(),
        typed_analysis(program).unwrap().field == program.field,
        meaning(
            typed_analysis(program).unwrap().main_function(),
            arguments,
            program.field.modulus as int,
        ) == call(
            program.functions,
            program.main,
            arguments,
            program.field.modulus as int,
            false,
            fuel,
        ),
{
    let with_logs = logged(program);
    let without_loops = unrolled(with_logs, UNROLL_LIMIT).unwrap();
    let with_bound_returns = bound(without_loops).unwrap();
    let without_calls = inlined(with_bound_returns).unwrap();
    let folded = propagated(without_calls).unwrap();
    logging_keeps_meaning(program, false, program.main, arguments, fuel);
    unrolling_keeps_meaning(with_logs, UNROLL_LIMIT, program.main, arguments, fuel);
    lemma_unrolled_wf(with_logs, UNROLL_LIMIT);
    binding_keeps_meaning(without_loops, program.main, arguments, fuel);
    inlining_keeps_meaning(with_bound_returns, arguments, fuel);
    typed_propagation_is_sound(without_calls, arguments);
    constraining_keeps_meaning(folded, Policy::Synthesize, arguments);
}

/// Compilation is sound. Let a call of the main function of a program
/// return values, under the loose reading, and let the program compile.
/// Then on the arguments of the call as inputs the compiled program
/// returns these values, provided that the lowered program, before the
/// flat analysis, accepts the inputs.
pub proof fn compilation_is_sound(
    program: SpecTypedProgram,
    arguments: Seq<Value>,
    inputs: Seq<u64>,
    fuel: nat,
)
    requires
        program.wf(),
        compiled(program) is Ok,
        forall|j: int|
            0 <= j < arguments.len() ==> value_within(
                #[trigger] arguments[j],
                program.field.modulus as int,
            ),
        inputs == encode_each(arguments),
        call(program.functions, program.main, arguments, program.field.modulus as int, false, fuel)
            is Some,
        execution(flattened(typed_analysis(program).unwrap()).unwrap(), inputs) is Ok,
    ensures
        execution(compiled(program).unwrap(), inputs) is Ok,
        returned(
            compiled(program).unwrap().outputs,
            execution(compiled(program).unwrap(), inputs).unwrap(),
        ) == encode_each(
            call(
                program.functions,
                program.main,
                arguments,
                program.field.modulus as int,
                false,
                fuel,
            ).unwrap(),
        ),
{
    let analysed = typed_analysis(program).unwrap();
    let flat = flattened(analysed).unwrap();
    analysis_keeps_meaning(program, arguments, fuel);
    lemma_flattened_wf(analysed);
    flattening_of_programs_is_sound(analysed, arguments, inputs);
    propagation_is_sound(flat, inputs);
    propagation_is_idempotent(flat);
    dead_code_safety(crate::static_analysis::flat_propagation::propagated(flat), inputs);
}

/// Compilation is correct over a prime field. Let a call of the main
/// function of a program return values, under the loose reading, and
/// let the program compile. Then on the arguments of the call as inputs
/// the compiled program runs to its end and returns the field elements
/// that stand for these values.
pub proof fn compilation_is_correct(
    program: SpecTypedProgram,
    arguments: Seq<Value>,
    inputs: Seq<u64>,
    fuel: nat,
)
    requires
        program.wf(),
        is_prime(program.field.modulus as int),
        compiled(program) is Ok,
        forall|j: int|
            0 <= j < arguments.len() ==> value_within(
                #[trigger] arguments[j],
                program.field.modulus as int,
            ),
        inputs == encode_each(arguments),
        call(program.functions, program.main, arguments, program.field.modulus as int, false, fuel)
            is Some,
    ensures
        execution(compiled(program).unwrap(), inputs) is Ok,
        returned(
            compiled(program).unwrap().outputs,
            execution(compiled(program).unwrap(), inputs).unwrap(),
        ) == encode_each(
            call(
                program.functions,
                program.main,
                arguments,
                program.field.modulus as int,
                false,
                fuel,
            ).unwrap(),
        ),
{
    let analysed = typed_analysis(program).unwrap();
    analysis_keeps_meaning(program, arguments, fuel);
    flattening_is_complete(analysed, arguments, inputs);
    compilation_is_sound(program, arguments, inputs, fuel);
}

} // verus!
