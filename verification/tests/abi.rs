use zokrates::abi_gen::{Abi, Generator, Type, TypedSignature};
use zokrates::field::Field;
use zokrates::text::decimal_text;
use zokrates::typed_absy::{
    Expression, Identifier, Kind, Parameter, TypedFunction, TypedProgram, TypedStatement,
};

#[test]
fn generate_abi() {
    let signature = TypedSignature::new()
        .inputs(vec![Type::FieldElement])
        .outputs(vec![Type::FieldElement]);

    let abi: Abi = signature.generate_abi();
    println!("{:?}", abi);
}

#[test]
fn abi_of_scalars() {
    let signature = TypedSignature::new()
        .inputs(vec![Type::FieldElement, Type::Boolean])
        .outputs(vec![Type::FieldElement]);
    let abi = signature.generate_abi();
    assert_eq!(abi.inputs.len(), 2);
    assert_eq!(abi.inputs[0].name, "");
    assert!(abi.inputs[0].public);
    assert_eq!(abi.inputs[0].internal_type, "field");
    assert!(abi.inputs[0].components.is_none());
    assert_eq!(abi.inputs[1].internal_type, "bool");
    assert!(abi.inputs[1].public);
    assert!(abi.inputs[1].components.is_none());
}

#[test]
fn names_of_types() {
    assert_eq!(Type::FieldElement.get_name(), "field");
    assert_eq!(Type::Boolean.get_name(), "bool");
    assert_eq!(Type::Array(Box::new(Type::FieldElement), 3).get_name(), "field[3]");
    assert_eq!(
        Type::Array(Box::new(Type::Array(Box::new(Type::Boolean), 12)), 250).get_name(),
        "bool[12][250]"
    );
    assert_eq!(Type::Array(Box::new(Type::FieldElement), 0).get_name(), "field[0]");
    assert_eq!(Type::Struct(vec![]).get_name(), "struct");
    assert_eq!(
        Type::Array(Box::new(Type::Struct(vec![(String::from("a"), Type::Boolean)])), 2).get_name(),
        "struct[2]"
    );
}

#[test]
fn components_of_structs() {
    let point = Type::Struct(vec![
        (String::from("x"), Type::FieldElement),
        (String::from("flags"), Type::Array(Box::new(Type::Boolean), 4)),
        (
            String::from("inner"),
            Type::Struct(vec![(String::from("y"), Type::Boolean)]),
        ),
    ]);
    assert!(Type::FieldElement.get_inner_components().is_none());
    assert!(Type::Array(Box::new(Type::Boolean), 2).get_inner_components().is_none());
    let components = point.get_inner_components().unwrap();
    assert_eq!(components.len(), 3);
    assert_eq!(components[0].name, "");
    assert_eq!(components[0].internal_type, "field");
    assert!(components[0].components.is_none());
    assert_eq!(components[1].internal_type, "bool[4]");
    assert!(components[1].components.is_none());
    assert_eq!(components[2].internal_type, "struct");
    let inner = components[2].components.as_ref().unwrap();
    assert_eq!(inner.len(), 1);
    assert_eq!(inner[0].internal_type, "bool");

    let abi = TypedSignature::new().inputs(vec![point]).generate_abi();
    assert_eq!(abi.inputs.len(), 1);
    assert_eq!(abi.inputs[0].internal_type, "struct");
    assert_eq!(abi.inputs[0].components.as_ref().unwrap().len(), 3);
    assert_eq!(Type::Struct(vec![]).get_inner_components().unwrap().len(), 0);
}

#[test]
fn abi_of_a_typed_program() {
    let main = TypedFunction {
        parameters: vec![
            Parameter { id: Identifier { id: 0 }, kind: Kind::Field, private: true },
            Parameter { id: Identifier { id: 1 }, kind: Kind::Boolean, private: false },
        ],
        statements: vec![TypedStatement::Return(vec![Expression::Variable(Identifier { id: 0 })])],
        outputs: vec![Kind::Field],
        variable_count: 2,
    };
    let program = TypedProgram { field: Field::new(101).unwrap(), functions: vec![main], main: 0 };
    let abi = program.generate_abi();
    assert_eq!(abi.inputs.len(), 2);
    assert_eq!(abi.inputs[0].internal_type, "field");
    assert_eq!(abi.inputs[1].internal_type, "bool");
    let nothing = TypedProgram { field: Field::new(101).unwrap(), functions: vec![], main: 0 };
    assert_eq!(nothing.generate_abi().inputs.len(), 0);
}

#[test]
fn decimal_notation() {
    assert_eq!(decimal_text(0), "0");
    assert_eq!(decimal_text(7), "7");
    assert_eq!(decimal_text(10), "10");
    assert_eq!(decimal_text(1234567890), "1234567890");
    assert_eq!(decimal_text(u64::MAX), "18446744073709551615");
}
