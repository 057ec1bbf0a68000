use zokrates::cli::{
    check_input_mode, compute_witness, describe, parse_arguments, split_arguments, stdin_arguments,
    verdict, BackendDimension, CurveDimension, Dimensions, SchemeDimension,
};
use zokrates::field::Field;
use zokrates::ir::interpreter::ExecutionError;
use zokrates::ir::lincomb::{LinComb, Variable};
use zokrates::ir::program::Program;
use zokrates::ir::statement::{Reason, Statement};

fn strings(list: &[&str]) -> Vec<String> {
    list.iter().map(|s| s.to_string()).collect()
}

#[test]
fn names_of_dimensions() {
    assert_eq!(CurveDimension::try_from("bn128"), Ok(CurveDimension::Bn128));
    assert_eq!(CurveDimension::try_from("bls12_381"), Ok(CurveDimension::Bls12_381));
    assert_eq!(CurveDimension::try_from("bls12_377"), Ok(CurveDimension::Bls12_377));
    assert_eq!(CurveDimension::try_from("bw6_761"), Ok(CurveDimension::Bw6_761));
    assert_eq!(CurveDimension::try_from("bn256"), Err(String::from("Unknown curve bn256")));
    assert_eq!(BackendDimension::try_from("bellman"), Ok(BackendDimension::Bellman));
    assert_eq!(BackendDimension::try_from("zexe"), Ok(BackendDimension::Zexe));
    assert_eq!(BackendDimension::try_from("libsnark"), Ok(BackendDimension::Libsnark));
    assert_eq!(BackendDimension::try_from(""), Err(String::from("Unknown backend ")));
    assert_eq!(SchemeDimension::try_from("g16"), Ok(SchemeDimension::G16));
    assert_eq!(SchemeDimension::try_from("gm17"), Ok(SchemeDimension::GM17));
    assert_eq!(SchemeDimension::try_from("pghr13"), Ok(SchemeDimension::PGHR13));
    assert_eq!(
        SchemeDimension::try_from("G16"),
        Err(String::from("Unknown proving scheme G16"))
    );
}

#[test]
fn dimensions_that_go_together() {
    assert_eq!(Dimensions::try_from("bellman", "bn128", "g16", false), Ok(Dimensions(BackendDimension::Bellman, CurveDimension::Bn128, SchemeDimension::G16)));
    assert_eq!(
        Dimensions::try_from("bellman", "bls12_381", "g16", false),
        Ok(Dimensions(BackendDimension::Bellman, CurveDimension::Bls12_381, SchemeDimension::G16))
    );
    assert_eq!(
        Dimensions::try_from("zexe", "bls12_377", "gm17", false),
        Ok(Dimensions(BackendDimension::Zexe, CurveDimension::Bls12_377, SchemeDimension::GM17))
    );
    assert_eq!(
        Dimensions::try_from("zexe", "bw6_761", "gm17", true),
        Ok(Dimensions(BackendDimension::Zexe, CurveDimension::Bw6_761, SchemeDimension::GM17))
    );
    assert_eq!(
        Dimensions::try_from("libsnark", "bn128", "pghr13", true),
        Ok(Dimensions(BackendDimension::Libsnark, CurveDimension::Bn128, SchemeDimension::PGHR13))
    );
    assert_eq!(
        Dimensions::try_from("libsnark", "bn128", "gm17", true),
        Ok(Dimensions(BackendDimension::Libsnark, CurveDimension::Bn128, SchemeDimension::GM17))
    );
    assert_eq!(
        Dimensions::try_from("libsnark", "bn128", "pghr13", false),
        Err(String::from(
            "Unsupported combination of dimensions (backend: libsnark, curve: bn128, proving scheme: pghr13)"
        ))
    );
    assert_eq!(
        Dimensions::try_from("bellman", "bn128", "gm17", true),
        Err(String::from(
            "Unsupported combination of dimensions (backend: bellman, curve: bn128, proving scheme: gm17)"
        ))
    );
    assert_eq!(
        Dimensions::try_from("libsnark", "bls12_381", "g16", true).unwrap_err(),
        "Unsupported combination of dimensions (backend: libsnark, curve: bls12_381, proving scheme: g16)"
    );
    assert_eq!(Dimensions::try_from("x", "y", "z", true), Err(String::from("Unknown backend x")));
    assert_eq!(Dimensions::try_from("zexe", "y", "z", true), Err(String::from("Unknown curve y")));
    assert_eq!(
        Dimensions::try_from("zexe", "bn128", "z", true),
        Err(String::from("Unknown proving scheme z"))
    );
}

#[test]
fn curves_with_a_verifier_contract() {
    assert_eq!(
        Dimensions::for_verifier("bn128", "pghr13"),
        Ok((CurveDimension::Bn128, SchemeDimension::PGHR13))
    );
    assert_eq!(
        Dimensions::for_verifier("bls12_381", "g16"),
        Ok((CurveDimension::Bls12_381, SchemeDimension::G16))
    );
    assert_eq!(
        Dimensions::for_verifier("bw6_761", "gm17"),
        Err(String::from(
            "Verifier is not implemented for given dimensions (curve: bw6_761, proving scheme: gm17)"
        ))
    );
    assert_eq!(Dimensions::for_verifier("a", "gm17"), Err(String::from("Unknown curve a")));
    assert_eq!(
        Dimensions::for_verifier("bn128", "b"),
        Err(String::from("Unknown proving scheme b"))
    );
}

#[test]
fn verdicts() {
    assert_eq!(verdict(true), "PASS");
    assert_eq!(verdict(false), "FAIL");
}

#[test]
fn structured_arguments_come_from_the_standard_input() {
    assert!(check_input_mode(true, true).is_ok());
    assert!(check_input_mode(true, false).is_ok());
    assert!(check_input_mode(false, false).is_ok());
    assert_eq!(
        check_input_mode(false, true),
        Err(String::from("ABI input as inline argument is not supported. Please use `--stdin`."))
    );
}

#[test]
fn arguments_are_decimal_numbers() {
    let f = Field::new(101).unwrap();
    assert_eq!(parse_arguments(&strings(&["1", "20", "300"]), &f), Ok(vec![1, 20, 98]));
    assert_eq!(parse_arguments(&strings(&[]), &f), Ok(vec![]));
    assert_eq!(
        parse_arguments(&strings(&["1", "x2", "y"]), &f),
        Err(String::from("Could not parse argument: x2"))
    );
    assert_eq!(
        parse_arguments(&strings(&["1", ""]), &f),
        Err(String::from("Could not parse argument: "))
    );
}

#[test]
fn a_line_is_split_at_its_spaces() {
    assert_eq!(split_arguments("1 2 3"), strings(&["1", "2", "3"]));
    assert_eq!(split_arguments("1 2 3\n"), strings(&["1", "2", "3"]));
    assert_eq!(split_arguments("12\n3 4"), strings(&["123", "4"]));
    assert_eq!(split_arguments(""), strings(&[""]));
    assert_eq!(split_arguments("\n"), strings(&[""]));
    assert_eq!(split_arguments("1  2"), strings(&["1", "", "2"]));
    assert_eq!(split_arguments(" 1 "), strings(&["", "1", ""]));
    assert_eq!(split_arguments("é ü"), strings(&["é", "ü"]));
}

#[test]
fn arguments_from_the_standard_input() {
    let f = Field::new(101).unwrap();
    assert_eq!(stdin_arguments("1 2 3\n", 3, &f), Ok(vec![1, 2, 3]));
    assert_eq!(stdin_arguments("anything at all", 0, &f), Ok(vec![]));
    assert_eq!(
        stdin_arguments("1  2\n", 2, &f),
        Err(String::from("Could not parse argument: "))
    );
    assert_eq!(
        stdin_arguments("1 two\n", 2, &f),
        Err(String::from("Could not parse argument: two"))
    );
}

#[test]
fn failures_in_words() {
    assert_eq!(describe(ExecutionError::WrongArgumentCount), "the number of arguments is wrong");
    assert_eq!(describe(ExecutionError::ArgumentOutOfField), "an argument is no field element");
    assert_eq!(
        describe(ExecutionError::Failed(12, Reason::UnsatisfiedConstraint)),
        "statement 12: the constraint does not hold"
    );
    assert_eq!(
        describe(ExecutionError::Failed(0, Reason::NotInvertible)),
        "statement 0: the value has no inverse"
    );
    assert_eq!(
        describe(ExecutionError::Failed(3, Reason::UndefinedVariable)),
        "statement 3: a variable has no value"
    );
    assert_eq!(
        describe(ExecutionError::Failed(4, Reason::Redefinition)),
        "statement 4: a variable is defined twice"
    );
}

#[test]
fn witnesses_for_the_command_line() {
    let f = Field::new(101).unwrap();
    let x = LinComb::variable(Variable::new(1));
    let program = Program::new(
        f,
        vec![false],
        2,
        vec![Statement::Constraint(x.clone(), x.clone(), LinComb::constant(4, &f))],
        vec![Variable::new(1)],
        true,
    )
    .unwrap();
    let witness = compute_witness(&program, &vec![2]).unwrap();
    assert_eq!(witness.values, vec![Some(1), Some(2)]);
    assert_eq!(
        compute_witness(&program, &vec![3]).unwrap_err(),
        "Execution failed: statement 0: the constraint does not hold"
    );
    assert_eq!(
        compute_witness(&program, &vec![]).unwrap_err(),
        "Execution failed: the number of arguments is wrong"
    );
}

#[test]
fn a_value_that_does_not_fit() {
    assert_eq!(
        describe(ExecutionError::Failed(7, Reason::OutOfRange)),
        "statement 7: the value does not fit the bits"
    );
}
