//! What the command line decides: which curve, backend and scheme a
//! command names, whether they go together, and what the arguments of a
//! computation are.

use crate::field::Field;
use crate::ir::interpreter::{outcome, execution, ExecutionError, Interpreter, Witness};
use crate::ir::program::Program;
use crate::ir::statement::Reason;
use crate::parse::{is_numeral, numeral_value};
use crate::proof_system::same_text;
use crate::text::{decimal, decimal_text};
use vstd::prelude::*;
use vstd::string::{StrSliceExecFns, StringExecFns};

verus! {

pub const BELLMAN: &'static str = "bellman";

pub const LIBSNARK: &'static str = "libsnark";

pub const ZEXE: &'static str = "zexe";

pub const BN128: &'static str = "bn128";

pub const BLS12_381: &'static str = "bls12_381";

pub const BLS12_377: &'static str = "bls12_377";

pub const BW6_761: &'static str = "bw6_761";

pub const G16: &'static str = "g16";

pub const PGHR13: &'static str = "pghr13";

pub const GM17: &'static str = "gm17";

/// The curve that a program is compiled for.
#[derive(Clone, Copy, Debug, PartialEq, Eq, Structural)]
pub enum CurveDimension {
    Bn128,
    Bls12_381,
    Bls12_377,
    Bw6_761,
}

/// The library that proves and verifies.
#[derive(Clone, Copy, Debug, PartialEq, Eq, Structural)]
pub enum BackendDimension {
    Bellman,
    Zexe,
    Libsnark,
}

/// The proving scheme.
#[derive(Clone, Copy, Debug, PartialEq, Eq, Structural)]
pub enum SchemeDimension {
    G16,
    GM17,
    PGHR13,
}

/// A backend, a curve and a scheme that go together.
#[derive(Clone, Copy, Debug, PartialEq, Eq, Structural)]
pub struct Dimensions(pub BackendDimension, pub CurveDimension, pub SchemeDimension);

/// The curve of the given name.
pub open spec fn curve_named(s: Seq<char>) -> Option<CurveDimension> {
    if s == BN128@ {
        Some(CurveDimension::Bn128)
    } else if s == BLS12_381@ {
        Some(CurveDimension::Bls12_381)
    } else if s == BLS12_377@ {
        Some(CurveDimension::Bls12_377)
    } else if s == BW6_761@ {
        Some(CurveDimension::Bw6_761)
    } else {
        None
    }
}

/// The backend of the given name.
pub open spec fn backend_named(s: Seq<char>) -> Option<BackendDimension> {
    if s == BELLMAN@ {
        Some(BackendDimension::Bellman)
    } else if s == ZEXE@ {
        Some(BackendDimension::Zexe)
    } else if s == LIBSNARK@ {
        Some(BackendDimension::Libsnark)
    } else {
        None
    }
}

/// The scheme of the given name.
pub open spec fn scheme_named(s: Seq<char>) -> Option<SchemeDimension> {
    if s == G16@ {
        Some(SchemeDimension::G16)
    } else if s == GM17@ {
        Some(SchemeDimension::GM17)
    } else if s == PGHR13@ {
        Some(SchemeDimension::PGHR13)
    } else {
        None
    }
}

/// The two texts in a row.
fn join(a: &str, b: &str) -> (r: String)
    ensures
        r@ == a@ + b@,
{
    let mut out = String::from_str(a);
    out.append(b);
    out
}

impl CurveDimension {
    /// The curve that `s` names, or an error that quotes `s`.
    pub fn try_from(s: &str) -> (r: Result<CurveDimension, String>)
        ensures
            match r {
                Ok(c) => curve_named(s@) == Some(c),
                Err(m) => curve_named(s@) is None && m@ == "Unknown curve "@ + s@,
            },
    {
        if same_text(s, BN128) {
            Ok(CurveDimension::Bn128)
        } else if same_text(s, BLS12_381) {
            Ok(CurveDimension::Bls12_381)
        } else if same_text(s, BLS12_377) {
            Ok(CurveDimension::Bls12_377)
        } else if same_text(s, BW6_761) {
            Ok(CurveDimension::Bw6_761)
        } else {
            Err(join("Unknown curve ", s))
        }
    }
}

impl BackendDimension {
    /// The backend that `s` names, or an error that quotes `s`.
    pub fn try_from(s: &str) -> (r: Result<BackendDimension, String>)
        ensures
            match r {
                Ok(b) => backend_named(s@) == Some(b),
                Err(m) => backend_named(s@) is None && m@ == "Unknown backend "@ + s@,
            },
    {
        if same_text(s, BELLMAN) {
            Ok(BackendDimension::Bellman)
        } else if same_text(s, ZEXE) {
            Ok(BackendDimension::Zexe)
        } else if same_text(s, LIBSNARK) {
            Ok(BackendDimension::Libsnark)
        } else {
            Err(join("Unknown backend ", s))
        }
    }
}

impl SchemeDimension {
    /// The scheme that `s` names, or an error that quotes `s`.
    pub fn try_from(s: &str) -> (r: Result<SchemeDimension, String>)
        ensures
            match r {
                Ok(x) => scheme_named(s@) == Some(x),
                Err(m) => scheme_named(s@) is None && m@ == "Unknown proving scheme "@ + s@,
            },
    {
        if same_text(s, G16) {
            Ok(SchemeDimension::G16)
        } else if same_text(s, GM17) {
            Ok(SchemeDimension::GM17)
        } else if same_text(s, PGHR13) {
            Ok(SchemeDimension::PGHR13)
        } else {
            Err(join("Unknown proving scheme ", s))
        }
    }
}

/// The backends, curves and schemes that go together. Those of libsnark
/// count only where libsnark is built in.
pub open spec fn supported(
    backend: BackendDimension,
    curve: CurveDimension,
    scheme: SchemeDimension,
    libsnark: bool,
) -> bool {
    match (backend, curve, scheme) {
        (BackendDimension::Bellman, CurveDimension::Bn128, SchemeDimension::G16) => true,
        (BackendDimension::Bellman, CurveDimension::Bls12_381, SchemeDimension::G16) => true,
        (BackendDimension::Zexe, CurveDimension::Bls12_377, SchemeDimension::GM17) => true,
        (BackendDimension::Zexe, CurveDimension::Bw6_761, SchemeDimension::GM17) => true,
        (BackendDimension::Libsnark, CurveDimension::Bn128, SchemeDimension::GM17) => libsnark,
        (BackendDimension::Libsnark, CurveDimension::Bn128, SchemeDimension::PGHR13) => libsnark,
        _ => false,
    }
}

/// The message for a backend, a curve and a scheme that do not go
/// together.
pub open spec fn unsupported_message(backend: Seq<char>, curve: Seq<char>, scheme: Seq<char>) -> Seq<
    char,
> {
    "Unsupported combination of dimensions (backend: "@ + backend + ", curve: "@ + curve
        + ", proving scheme: "@ + scheme + ")"@
}

/// The curves and schemes for which a verifier contract can be written.
pub open spec fn verifier_supported(curve: CurveDimension, scheme: SchemeDimension) -> bool {
    curve == CurveDimension::Bn128 || curve == CurveDimension::Bls12_381
}

/// The message for a curve and a scheme without verifier contract.
pub open spec fn no_verifier_message(curve: Seq<char>, scheme: Seq<char>) -> Seq<char> {
    "Verifier is not implemented for given dimensions (curve: "@ + curve + ", proving scheme: "@
        + scheme + ")"@
}

impl Dimensions {
    /// The dimensions that the three names give. The first name that is
    /// unknown is the error, in the order backend, curve, scheme; names
    /// that do not go together are an error that quotes all three.
    pub fn try_from(backend: &str, curve: &str, scheme: &str, libsnark: bool) -> (r: Result<
        Dimensions,
        String,
    >)
        ensures
            match r {
                Ok(d) => backend_named(backend@) == Some(d.0) && curve_named(curve@) == Some(d.1)
                    && scheme_named(scheme@) == Some(d.2) && supported(d.0, d.1, d.2, libsnark),
                Err(m) => if backend_named(backend@) is None {
                    m@ == "Unknown backend "@ + backend@
                } else if curve_named(curve@) is None {
                    m@ == "Unknown curve "@ + curve@
                } else if scheme_named(scheme@) is None {
                    m@ == "Unknown proving scheme "@ + scheme@
                } else {
                    !supported(
                        backend_named(backend@).unwrap(),
                        curve_named(curve@).unwrap(),
                        scheme_named(scheme@).unwrap(),
                        libsnark,
                    ) && m@ == unsupported_message(backend@, curve@, scheme@)
                },
            },
    {
        let b = match BackendDimension::try_from(backend) {
            Ok(b) => b,
            Err(m) => {
                return Err(m);
            },
        };
        let c = match CurveDimension::try_from(curve) {
            Ok(c) => c,
            Err(m) => {
                return Err(m);
            },
        };
        let s = match SchemeDimension::try_from(scheme) {
            Ok(s) => s,
            Err(m) => {
                return Err(m);
            },
        };
        let fits = match (b, c, s) {
            (BackendDimension::Bellman, CurveDimension::Bn128, SchemeDimension::G16) => true,
            (BackendDimension::Bellman, CurveDimension::Bls12_381, SchemeDimension::G16) => true,
            (BackendDimension::Zexe, CurveDimension::Bls12_377, SchemeDimension::GM17) => true,
            (BackendDimension::Zexe, CurveDimension::Bw6_761, SchemeDimension::GM17) => true,
            (BackendDimension::Libsnark, CurveDimension::Bn128, SchemeDimension::GM17) => libsnark,
            (BackendDimension::Libsnark, CurveDimension::Bn128, SchemeDimension::PGHR13) => libsnark,
            _ => false,
        };
        if fits {
            Ok(Dimensions(b, c, s))
        } else {
            let mut m = String::from_str("Unsupported combination of dimensions (backend: ");
            m.append(backend);
            m.append(", curve: ");
            m.append(curve);
            m.append(", proving scheme: ");
            m.append(scheme);
            m.append(")");
            Err(m)
        }
    }

    /// The curve and the scheme for which a verifier contract is asked,
    /// where one can be written.
    pub fn for_verifier(curve: &str, scheme: &str) -> (r: Result<
        (CurveDimension, SchemeDimension),
        String,
    >)
        ensures
            match r {
                Ok(d) => curve_named(curve@) == Some(d.0) && scheme_named(scheme@) == Some(d.1)
                    && verifier_supported(d.0, d.1),
                Err(m) => if curve_named(curve@) is None {
                    m@ == "Unknown curve "@ + curve@
                } else if scheme_named(scheme@) is None {
                    m@ == "Unknown proving scheme "@ + scheme@
                } else {
                    !verifier_supported(
                        curve_named(curve@).unwrap(),
                        scheme_named(scheme@).unwrap(),
                    ) && m@ == no_verifier_message(curve@, scheme@)
                },
            },
    {
        let c = match CurveDimension::try_from(curve) {
            Ok(c) => c,
            Err(m) => {
                return Err(m);
            },
        };
        let s = match SchemeDimension::try_from(scheme) {
            Ok(s) => s,
            Err(m) => {
                return Err(m);
            },
        };
        match c {
            CurveDimension::Bn128 => Ok((c, s)),
            CurveDimension::Bls12_381 => Ok((c, s)),
            _ => {
                let mut m = String::from_str(
                    "Verifier is not implemented for given dimensions (curve: ",
                );
                m.append(curve);
                m.append(", proving scheme: ");
                m.append(scheme);
                m.append(")");
                Err(m)
            },
        }
    }
}

/// What is shown for the outcome of a verification.
pub fn verdict(verified: bool) -> (r: &'static str)
    ensures
        r@ == if verified {
            "PASS"@
        } else {
            "FAIL"@
        },
{
    if verified {
        "PASS"
    } else {
        "FAIL"
    }
}

} // verus!

verus! {

/// Why a statement could not be executed, in words.
pub open spec fn reason_text(reason: Reason) -> Seq<char> {
    match reason {
        Reason::UnsatisfiedConstraint => "the constraint does not hold"@,
        Reason::NotInvertible => "the value has no inverse"@,
        Reason::UndefinedVariable => "a variable has no value"@,
        Reason::Redefinition => "a variable is defined twice"@,
        Reason::OutOfRange => "the value does not fit the bits"@,
    }
}

/// Why an execution produced no witness, in words.
pub open spec fn error_text(e: ExecutionError) -> Seq<char> {
    match e {
        ExecutionError::WrongArgumentCount => "the number of arguments is wrong"@,
        ExecutionError::ArgumentOutOfField => "an argument is no field element"@,
        ExecutionError::Failed(k, reason) => "statement "@ + decimal(k as nat) + ": "@ + reason_text(
            reason,
        ),
    }
}

/// Why an execution produced no witness, in words; see [`error_text`].
pub fn describe(e: ExecutionError) -> (r: String)
    ensures
        r@ == error_text(e),
{
    match e {
        ExecutionError::WrongArgumentCount => String::from_str("the number of arguments is wrong"),
        ExecutionError::ArgumentOutOfField => String::from_str("an argument is no field element"),
        ExecutionError::Failed(k, reason) => {
            let mut out = String::from_str("statement ");
            let digits = decimal_text(k as u64);
            out.append(digits.as_str());
            out.append(": ");
            out.append(
                match reason {
                    Reason::UnsatisfiedConstraint => "the constraint does not hold",
                    Reason::NotInvertible => "the value has no inverse",
                    Reason::UndefinedVariable => "a variable has no value",
                    Reason::Redefinition => "a variable is defined twice",
                    Reason::OutOfRange => "the value does not fit the bits",
                },
            );
            out
        },
    }
}

/// Refuses arguments in the structured form that are not read from the
/// standard input.
pub fn check_input_mode(is_stdin: bool, is_abi: bool) -> (r: Result<(), String>)
    ensures
        r is Err == (!is_stdin && is_abi),
        r is Err ==> r->Err_0@
            == "ABI input as inline argument is not supported. Please use `--stdin`."@,
{
    if !is_stdin && is_abi {
        Err(
            String::from_str(
                "ABI input as inline argument is not supported. Please use `--stdin`.",
            ),
        )
    } else {
        Ok(())
    }
}

/// The field element that an argument writes in decimal notation.
pub open spec fn argument(s: Seq<char>, p: int) -> Option<u64> {
    if s.len() > 0 && is_numeral(s, 10) {
        Some((numeral_value(s, 10) % p) as u64)
    } else {
        None
    }
}

/// Every argument before the `k`-th is a number.
pub open spec fn arguments_parse(arguments: Seq<String>, k: int, p: int) -> bool {
    forall|i: int| 0 <= i < k ==> argument((#[trigger] arguments[i])@, p) is Some
}

/// The field elements that the arguments write in decimal notation. The
/// first argument that is no number is the error, and is quoted.
pub fn parse_arguments(arguments: &Vec<String>, field: &Field) -> (r: Result<Vec<u64>, String>)
    requires
        field.wf(),
    ensures
        match r {
            Ok(values) => values@.len() == arguments@.len() && forall|i: int|
                0 <= i < arguments@.len() ==> argument(
                    (#[trigger] arguments@[i])@,
                    field.modulus as int,
                ) == Some(values@[i]),
            Err(m) => exists|k: int|
                0 <= k < arguments@.len() && arguments_parse(arguments@, k, field.modulus as int)
                    && argument((#[trigger] arguments@[k])@, field.modulus as int) is None && m@
                    == "Could not parse argument: "@ + arguments@[k]@,
        },
{
    let ghost p = field.modulus as int;
    let mut values: Vec<u64> = Vec::new();
    let mut k: usize = 0;
    while k < arguments.len()
        invariant
            k <= arguments.len(),
            field.wf(),
            p == field.modulus as int,
            values.len() == k,
            forall|i: int| 0 <= i < k ==> argument((#[trigger] arguments@[i])@, p) == Some(values@[i]),
        decreases arguments.len() - k,
    {
        match field.try_from_dec_str(arguments[k].as_str()) {
            Some(x) => {
                proof {
                    vstd::arithmetic::div_mod::lemma_mod_bound(
                        numeral_value(arguments@[k as int]@, 10),
                        p,
                    );
                }
                values.push(x);
            },
            None => {
                let m = join("Could not parse argument: ", arguments[k].as_str());
                assert(arguments_parse(arguments@, k as int, p));
                assert(argument(arguments@[k as int]@, p) is None);
                return Err(m);
            },
        }
        k += 1;
    }
    Ok(values)
}

/// What has been read of a line of arguments: the arguments that are
/// complete, and the one that is being read.
pub open spec fn read_arguments(s: Seq<char>, k: int) -> (Seq<Seq<char>>, Seq<char>)
    decreases k,
{
    if k <= 0 {
        (Seq::<Seq<char>>::empty(), Seq::<char>::empty())
    } else {
        let (done, current) = read_arguments(s, k - 1);
        let c = s[k - 1];
        if c == ' ' {
            (done.push(current), Seq::<char>::empty())
        } else if c == '\n' {
            (done, current)
        } else {
            (done, current.push(c))
        }
    }
}

/// The arguments of a line: what stands between its spaces, without any
/// line break.
pub open spec fn line_arguments(s: Seq<char>) -> Seq<Seq<char>> {
    read_arguments(s, s.len() as int).0.push(read_arguments(s, s.len() as int).1)
}

/// The texts of a vector, each by its view.
pub open spec fn texts(v: Seq<String>) -> Seq<Seq<char>> {
    Seq::new(v.len(), |i: int| v[i]@)
}

/// Splits a line into its arguments; see [`line_arguments`].
pub fn split_arguments(input: &str) -> (r: Vec<String>)
    ensures
        texts(r@) == line_arguments(input@),
{
    let ghost s = input@;
    let n = input.unicode_len();
    let mut done: Vec<String> = Vec::new();
    let mut current = String::new();
    let mut from: usize = 0;
    let mut i: usize = 0;
    proof {
        assert(texts(done@) =~= Seq::<Seq<char>>::empty());
        assert(current@ + s.subrange(0, 0) =~= Seq::<char>::empty());
    }
    while i < n
        invariant
            i <= n,
            from <= i,
            n == s.len(),
            s == input@,
            texts(done@) == read_arguments(s, i as int).0,
            current@ + s.subrange(from as int, i as int) == read_arguments(s, i as int).1,
        decreases n - i,
    {
        let c = input.get_char(i);
        let ghost before = done@;
        let ghost pending = current@ + s.subrange(from as int, i as int);
        if c == ' ' {
            current.append(input.substring_char(from, i));
            done.push(current);
            current = String::new();
            from = i + 1;
            proof {
                assert(texts(done@) =~= texts(before).push(pending));
                assert(current@ + s.subrange(from as int, i + 1) =~= Seq::<char>::empty());
            }
        } else if c == '\n' {
            current.append(input.substring_char(from, i));
            from = i + 1;
            proof {
                assert(current@ + s.subrange(from as int, i + 1) =~= pending);
            }
        } else {
            proof {
                assert(current@ + s.subrange(from as int, i + 1) =~= pending.push(c));
            }
        }
        i += 1;
    }
    current.append(input.substring_char(from, n));
    let ghost before = done@;
    done.push(current);
    assert(texts(done@) =~= texts(before).push(current@));
    done
}

/// The arguments that a line of the standard input gives a program
/// with `argument_count` arguments: none for a program without
/// arguments, whatever the line holds.
pub fn stdin_arguments(input: &str, argument_count: usize, field: &Field) -> (r: Result<
    Vec<u64>,
    String,
>)
    requires
        field.wf(),
    ensures
        argument_count == 0 ==> r is Ok && r->Ok_0@.len() == 0,
        argument_count != 0 && r is Ok ==> r->Ok_0@.len() == line_arguments(input@).len()
            && forall|i: int|
            0 <= i < r->Ok_0@.len() ==> argument(
                #[trigger] line_arguments(input@)[i],
                field.modulus as int,
            ) == Some(r->Ok_0@[i]),
        argument_count != 0 && r is Err ==> exists|k: int|
            0 <= k < line_arguments(input@).len() && argument(
                #[trigger] line_arguments(input@)[k],
                field.modulus as int,
            ) is None && r->Err_0@ == "Could not parse argument: "@ + line_arguments(input@)[k],
{
    if argument_count == 0 {
        return Ok(Vec::new());
    }
    let arguments = split_arguments(input);
    let r = parse_arguments(&arguments, field);
    proof {
        let all = line_arguments(input@);
        assert(forall|i: int| 0 <= i < all.len() ==> all[i] == (#[trigger] arguments@[i])@);
        if r is Err {
            let k = choose|k: int|
                0 <= k < arguments@.len() && arguments_parse(arguments@, k, field.modulus as int)
                    && argument((#[trigger] arguments@[k])@, field.modulus as int) is None
                    && r->Err_0@ == "Could not parse argument: "@ + arguments@[k]@;
            assert(all[k] == arguments@[k]@);
        }
    }
    r
}

/// Computes the witness of a program on its arguments, or says in words
/// why there is none.
pub fn compute_witness(program: &Program, arguments: &Vec<u64>) -> (r: Result<Witness, String>)
    requires
        program@.wf(),
    ensures
        match r {
            Ok(w) => execution(program@, arguments@) == Ok::<Seq<Option<u64>>, ExecutionError>(w@),
            Err(m) => execution(program@, arguments@) is Err && m@ == "Execution failed: "@
                + error_text(execution(program@, arguments@)->Err_0),
        },
{
    match Interpreter::default().execute(program, arguments) {
        Ok(w) => Ok(w),
        Err(e) => {
            let text = describe(e);
            Err(join("Execution failed: ", text.as_str()))
        },
    }
}

} // verus!
