use zokrates::field::Field;
use zokrates::proof_system::pghr13::{
    ExportError, ProofPoints, SolidityLibraries, VerificationKey, CONTRACT_TEMPLATE,
    CONTRACT_TEMPLATE_V2, PGHR13,
};
use zokrates::proof_system::{
    prepare_verification, same_text, G1Affine, G2Affine, Proof, SolidityAbi, VerifyError,
};

fn word(digit: char) -> String {
    format!("0x{}", digit.to_string().repeat(64))
}

fn g1(a: char, b: char) -> G1Affine {
    G1Affine { x: word(a), y: word(b) }
}

fn g2(a: char, b: char, c: char, d: char) -> G2Affine {
    G2Affine { x: (word(a), word(b)), y: (word(c), word(d)) }
}

fn key(commitments: usize) -> VerificationKey {
    VerificationKey {
        a: g2('1', '2', '3', '4'),
        b: g1('5', '6'),
        c: g2('7', '8', '9', 'a'),
        gamma: g2('b', 'c', 'd', 'e'),
        gamma_beta_1: g1('f', '0'),
        gamma_beta_2: g2('1', '3', '5', '7'),
        z: g2('2', '4', '6', '8'),
        ic: (0..commitments).map(|_| g1('A', 'B')).collect(),
        raw: String::from("00ff"),
    }
}

fn libraries() -> SolidityLibraries {
    SolidityLibraries {
        g2_addition: String::from("library BN256G2 {}\n"),
        pairing: String::from("library Pairing {}\n"),
        pairing_v2: String::from("library PairingV2 {}\n"),
    }
}

#[test]
fn points_as_text() {
    assert_eq!(
        G1Affine { x: String::from("0x01"), y: String::from("0x02") }.to_text(),
        "0x01, 0x02"
    );
    assert_eq!(
        G2Affine {
            x: (String::from("0x01"), String::from("0x02")),
            y: (String::from("0x03"), String::from("0x04")),
        }
        .to_text(),
        "[0x01, 0x02], [0x03, 0x04]"
    );
}

#[test]
fn the_verifier_holds_the_key() {
    let text = PGHR13::export_solidity_verifier(&key(3), SolidityAbi::V1, &libraries()).unwrap();
    assert!(text.starts_with("library BN256G2 {}\nlibrary Pairing {}\ncontract Verifier {"));
    // no place of the template is left open
    assert!(!text.contains("<%"));
    let w = |d: char| format!("uint256({})", word(d));
    assert!(text.contains(&format!(
        "vk.a = Pairing.G2Point([{}, {}], [{}, {}]);",
        w('1'),
        w('2'),
        w('3'),
        w('4')
    )));
    assert!(text.contains(&format!("vk.b = Pairing.G1Point({}, {});", w('5'), w('6'))));
    assert!(text.contains(&format!(
        "vk.z = Pairing.G2Point([{}, {}], [{}, {}]);",
        w('2'),
        w('4'),
        w('6'),
        w('8')
    )));
    assert!(text.contains("vk.ic = new Pairing.G1Point[](3);"));
    assert!(text.contains("uint[2] memory input"));
    let line = |i: usize| format!("vk.ic[{}] = Pairing.G1Point({}, {});", i, w('A'), w('B'));
    assert!(text.contains(&format!(
        "{}\n        {}\n        {}\n    }}",
        line(0),
        line(1),
        line(2)
    )));
}

#[test]
fn the_second_interface_takes_the_proof_whole() {
    let v1 = PGHR13::export_solidity_verifier(&key(1), SolidityAbi::V1, &libraries()).unwrap();
    let v2 = PGHR13::export_solidity_verifier(&key(1), SolidityAbi::V2, &libraries()).unwrap();
    assert!(v2.starts_with("library BN256G2 {}\nlibrary PairingV2 {}\ncontract Verifier {"));
    assert!(v2.contains("Proof memory proof,\n            uint[0] memory input"));
    assert!(!v2.contains("uint[2] memory a_p"));
    assert!(v1.contains("uint[2] memory a_p"));
    assert!(v1.contains("uint[0] memory input"));
    assert!(CONTRACT_TEMPLATE.contains("<%vk_ic_pts%>"));
    assert!(CONTRACT_TEMPLATE_V2.contains("<%vk_input_length%>"));
}

#[test]
fn a_key_without_commitments_is_refused() {
    assert_eq!(
        PGHR13::export_solidity_verifier(&key(0), SolidityAbi::V1, &libraries()).unwrap_err(),
        ExportError::NoInputCommitment
    );
}

#[test]
fn interface_versions() {
    assert_eq!(SolidityAbi::from("v1"), Ok(SolidityAbi::V1));
    assert_eq!(SolidityAbi::from("v2"), Ok(SolidityAbi::V2));
    assert_eq!(SolidityAbi::from("v3"), Err(String::from("Invalid ABI version")));
    assert_eq!(SolidityAbi::from(""), Err(String::from("Invalid ABI version")));
    assert!(same_text("abc", "abc"));
    assert!(!same_text("abc", "abd"));
    assert!(!same_text("abc", "ab"));
    assert!(same_text("", ""));
}

#[test]
fn keys_and_proofs_are_decoded() {
    let f = Field::new(1000003).unwrap();
    let inputs = vec![String::from("0x01"), String::from("ff"), String::from("0x0xFFFFF")];
    let request = prepare_verification("00ff10Ab", "", &inputs, &f).unwrap();
    assert_eq!(request.vk, vec![0x00, 0xff, 0x10, 0xab]);
    assert_eq!(request.proof, Vec::<u8>::new());
    assert_eq!(request.inputs, vec![1, 255, 1048575 - 1000003]);

    assert_eq!(prepare_verification("0", "00", &inputs, &f).unwrap_err(), VerifyError::InvalidKey);
    assert_eq!(prepare_verification("0g", "00", &inputs, &f).unwrap_err(), VerifyError::InvalidKey);
    assert_eq!(prepare_verification("00", "abc", &inputs, &f).unwrap_err(), VerifyError::InvalidProof);
    assert_eq!(prepare_verification("é0", "00", &inputs, &f).unwrap_err(), VerifyError::InvalidKey);
    let bad = vec![String::from("0x01"), String::from("0x"), String::from("zz")];
    assert_eq!(
        prepare_verification("00", "00", &bad, &f).unwrap_err(),
        VerifyError::InvalidInput(1)
    );
}

#[test]
fn a_proof_is_prepared_for_the_backend() {
    let f = Field::new(1000003).unwrap();
    let points = ProofPoints {
        a: g1('1', '2'),
        a_p: g1('1', '2'),
        b: g2('1', '2', '3', '4'),
        b_p: g1('1', '2'),
        c: g1('1', '2'),
        c_p: g1('1', '2'),
        h: g1('1', '2'),
        k: g1('1', '2'),
    };
    let proof = Proof { proof: points, inputs: vec![String::from("0x10")], raw: String::from("beef") };
    let request = PGHR13::prepare_verify(&key(2), &proof, &f).unwrap();
    assert_eq!(request.vk, vec![0x00, 0xff]);
    assert_eq!(request.proof, vec![0xbe, 0xef]);
    assert_eq!(request.inputs, vec![16]);
    let mut broken = key(2);
    broken.raw = String::from("xyz");
    assert_eq!(PGHR13::prepare_verify(&broken, &proof, &f).unwrap_err(), VerifyError::InvalidKey);
}
