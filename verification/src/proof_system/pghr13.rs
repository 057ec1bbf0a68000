//! The proving scheme of Parno, Gentry, Howell and Raykova.

use crate::field::Field;
use crate::pattern::{regex_replaced, regex_replaced_all, replace, replace_all};
use crate::proof_system::{
    g1_text, g2_text, prepare_verification, prepared, G1Affine, G2Affine, Proof, SolidityAbi,
    VerificationRequest, VerifyError,
};
use crate::text::{decimal, decimal_text};
use vstd::prelude::*;
use vstd::string::StringExecFns;

verus! {

/// Where a point of the verification key goes, but for the input
/// commitments.
pub const VK_PATTERN: &'static str = "(<%vk_[^i%]*%>)";

/// Where the number of input commitments goes.
pub const VK_IC_LENGTH_PATTERN: &'static str = "(<%vk_ic_length%>)";

/// Where the input commitments go.
pub const VK_IC_POINTS_PATTERN: &'static str = "(<%vk_ic_pts%>)";

/// Where the number of public inputs goes.
pub const VK_INPUT_LENGTH_PATTERN: &'static str = "(<%vk_input_length%>)";

/// A number of 64 hexadecimal digits.
pub const WORD_PATTERN: &'static str = "(?P<v>0[xX][0-9a-fA-F]{64})";

/// What a number of 64 hexadecimal digits becomes.
pub const WORD_REPLACEMENT: &'static str = "uint256($v)";

/// What separates the input commitments.
pub const IC_SEPARATOR: &'static str = "\n        ";

/// The verifier contract that takes the proof as one argument.
pub const CONTRACT_TEMPLATE_V2: &'static str = r#"contract Verifier {
    using Pairing for *;
    struct VerifyingKey {
        Pairing.G2Point a;
        Pairing.G1Point b;
        Pairing.G2Point c;
        Pairing.G2Point gamma;
        Pairing.G1Point gamma_beta_1;
        Pairing.G2Point gamma_beta_2;
        Pairing.G2Point z;
        Pairing.G1Point[] ic;
    }
    struct Proof {
        Pairing.G1Point a;
        Pairing.G1Point a_p;
        Pairing.G2Point b;
        Pairing.G1Point b_p;
        Pairing.G1Point c;
        Pairing.G1Point c_p;
        Pairing.G1Point k;
        Pairing.G1Point h;
    }
    function verifyingKey() pure internal returns (VerifyingKey memory vk) {
        vk.a = Pairing.G2Point(<%vk_a%>);
        vk.b = Pairing.G1Point(<%vk_b%>);
        vk.c = Pairing.G2Point(<%vk_c%>);
        vk.gamma = Pairing.G2Point(<%vk_g%>);
        vk.gamma_beta_1 = Pairing.G1Point(<%vk_gb1%>);
        vk.gamma_beta_2 = Pairing.G2Point(<%vk_gb2%>);
        vk.z = Pairing.G2Point(<%vk_z%>);
        vk.ic = new Pairing.G1Point[](<%vk_ic_length%>);
        <%vk_ic_pts%>
    }
    function verify(uint[] memory input, Proof memory proof) internal returns (uint) {
        uint256 snark_scalar_field = 21888242871839275222246405745257275088548364400416034343698204186575808495617;
        VerifyingKey memory vk = verifyingKey();
        require(input.length + 1 == vk.ic.length);
        // Compute the linear combination vk_x
        Pairing.G1Point memory vk_x = Pairing.G1Point(0, 0);
        for (uint i = 0; i < input.length; i++) {
            require(input[i] < snark_scalar_field);
            vk_x = Pairing.addition(vk_x, Pairing.scalar_mul(vk.ic[i + 1], input[i]));
        }
        vk_x = Pairing.addition(vk_x, vk.ic[0]);
        if (!Pairing.pairingProd2(proof.a, vk.a, Pairing.negate(proof.a_p), Pairing.P2())) return 1;
        if (!Pairing.pairingProd2(vk.b, proof.b, Pairing.negate(proof.b_p), Pairing.P2())) return 2;
        if (!Pairing.pairingProd2(proof.c, vk.c, Pairing.negate(proof.c_p), Pairing.P2())) return 3;
        if (!Pairing.pairingProd3(
            proof.k, vk.gamma,
            Pairing.negate(Pairing.addition(vk_x, Pairing.addition(proof.a, proof.c))), vk.gamma_beta_2,
            Pairing.negate(vk.gamma_beta_1), proof.b
        )) return 4;
        if (!Pairing.pairingProd3(
                Pairing.addition(vk_x, proof.a), proof.b,
                Pairing.negate(proof.h), vk.z,
                Pairing.negate(proof.c), Pairing.P2()
        )) return 5;
        return 0;
    }
    event Verified(string s);
    function verifyTx(
            Proof memory proof,
            uint[<%vk_input_length%>] memory input
        ) public returns (bool r) {
        uint[] memory inputValues = new uint[](input.length);
        for(uint i = 0; i < input.length; i++){
            inputValues[i] = input[i];
        }
        if (verify(inputValues, proof) == 0) {
            emit Verified("Transaction successfully verified.");
            return true;
        } else {
            return false;
        }
    }
}
"#;

/// The verifier contract that takes each point of the proof as an
/// argument of its own.
pub const CONTRACT_TEMPLATE: &'static str = r#"contract Verifier {
    using Pairing for *;
    struct VerifyingKey {
        Pairing.G2Point a;
        Pairing.G1Point b;
        Pairing.G2Point c;
        Pairing.G2Point gamma;
        Pairing.G1Point gamma_beta_1;
        Pairing.G2Point gamma_beta_2;
        Pairing.G2Point z;
        Pairing.G1Point[] ic;
    }
    struct Proof {
        Pairing.G1Point a;
        Pairing.G1Point a_p;
        Pairing.G2Point b;
        Pairing.G1Point b_p;
        Pairing.G1Point c;
        Pairing.G1Point c_p;
        Pairing.G1Point k;
        Pairing.G1Point h;
    }
    function verifyingKey() pure internal returns (VerifyingKey memory vk) {
        vk.a = Pairing.G2Point(<%vk_a%>);
        vk.b = Pairing.G1Point(<%vk_b%>);
        vk.c = Pairing.G2Point(<%vk_c%>);
        vk.gamma = Pairing.G2Point(<%vk_g%>);
        vk.gamma_beta_1 = Pairing.G1Point(<%vk_gb1%>);
        vk.gamma_beta_2 = Pairing.G2Point(<%vk_gb2%>);
        vk.z = Pairing.G2Point(<%vk_z%>);
        vk.ic = new Pairing.G1Point[](<%vk_ic_length%>);
        <%vk_ic_pts%>
    }
    function verify(uint[] memory input, Proof memory proof) internal returns (uint) {
        uint256 snark_scalar_field = 21888242871839275222246405745257275088548364400416034343698204186575808495617;
        VerifyingKey memory vk = verifyingKey();
        require(input.length + 1 == vk.ic.length);
        // Compute the linear combination vk_x
        Pairing.G1Point memory vk_x = Pairing.G1Point(0, 0);
        for (uint i = 0; i < input.length; i++) {
            require(input[i] < snark_scalar_field);
            vk_x = Pairing.addition(vk_x, Pairing.scalar_mul(vk.ic[i + 1], input[i]));
        }
        vk_x = Pairing.addition(vk_x, vk.ic[0]);
        if (!Pairing.pairingProd2(proof.a, vk.a, Pairing.negate(proof.a_p), Pairing.P2())) return 1;
        if (!Pairing.pairingProd2(vk.b, proof.b, Pairing.negate(proof.b_p), Pairing.P2())) return 2;
        if (!Pairing.pairingProd2(proof.c, vk.c, Pairing.negate(proof.c_p), Pairing.P2())) return 3;
        if (!Pairing.pairingProd3(
            proof.k, vk.gamma,
            Pairing.negate(Pairing.addition(vk_x, Pairing.addition(proof.a, proof.c))), vk.gamma_beta_2,
            Pairing.negate(vk.gamma_beta_1), proof.b
        )) return 4;
        if (!Pairing.pairingProd3(
                Pairing.addition(vk_x, proof.a), proof.b,
                Pairing.negate(proof.h), vk.z,
                Pairing.negate(proof.c), Pairing.P2()
        )) return 5;
        return 0;
    }
    event Verified(string s);
    function verifyTx(
            uint[2] memory a,
            uint[2] memory a_p,
            uint[2][2] memory b,
            uint[2] memory b_p,
            uint[2] memory c,
            uint[2] memory c_p,
            uint[2] memory h,
            uint[2] memory k,
            uint[<%vk_input_length%>] memory input
        ) public returns (bool r) {
        Proof memory proof;
        proof.a = Pairing.G1Point(a[0], a[1]);
        proof.a_p = Pairing.G1Point(a_p[0], a_p[1]);
        proof.b = Pairing.G2Point([b[0][0], b[0][1]], [b[1][0], b[1][1]]);
        proof.b_p = Pairing.G1Point(b_p[0], b_p[1]);
        proof.c = Pairing.G1Point(c[0], c[1]);
        proof.c_p = Pairing.G1Point(c_p[0], c_p[1]);
        proof.h = Pairing.G1Point(h[0], h[1]);
        proof.k = Pairing.G1Point(k[0], k[1]);
        uint[] memory inputValues = new uint[](input.length);
        for(uint i = 0; i < input.length; i++){
            inputValues[i] = input[i];
        }
        if (verify(inputValues, proof) == 0) {
            emit Verified("Transaction successfully verified.");
            return true;
        } else {
            return false;
        }
    }
}
"#;

/// The proving scheme.
#[derive(Clone, Copy, Debug)]
pub struct PGHR13 {}

/// What it takes to verify a proof.
#[derive(Debug)]
pub struct VerificationKey {
    pub a: G2Affine,
    pub b: G1Affine,
    pub c: G2Affine,
    pub gamma: G2Affine,
    pub gamma_beta_1: G1Affine,
    pub gamma_beta_2: G2Affine,
    pub z: G2Affine,
    /// One commitment for the constant one and one for each public input.
    pub ic: Vec<G1Affine>,
    /// The key as the backend reads it, in hexadecimal notation.
    pub raw: String,
}

/// The points that make a proof.
#[derive(Debug)]
pub struct ProofPoints {
    pub a: G1Affine,
    pub a_p: G1Affine,
    pub b: G2Affine,
    pub b_p: G1Affine,
    pub c: G1Affine,
    pub c_p: G1Affine,
    pub h: G1Affine,
    pub k: G1Affine,
}

/// The Solidity libraries that a verifier contract is written against.
#[derive(Debug)]
pub struct SolidityLibraries {
    /// Addition in the second group.
    pub g2_addition: String,
    /// Pairings, for contracts that take each point as an argument.
    pub pairing: String,
    /// Pairings, for contracts that take the proof as one argument.
    pub pairing_v2: String,
}

/// Why no verifier contract could be written.
#[derive(Clone, Copy, Debug, PartialEq, Eq, Structural)]
pub enum ExportError {
    /// The key has no input commitment, not even that of the constant.
    NoInputCommitment,
    /// A pattern of the template is no regular expression.
    InvalidPattern,
}

/// The contract template for a version of the interface.
pub open spec fn template(abi: SolidityAbi) -> Seq<char> {
    match abi {
        SolidityAbi::V1 => CONTRACT_TEMPLATE@,
        SolidityAbi::V2 => CONTRACT_TEMPLATE_V2@,
    }
}

/// The pairing library for a version of the interface.
pub open spec fn pairing_library(libraries: SolidityLibraries, abi: SolidityAbi) -> Seq<char> {
    match abi {
        SolidityAbi::V1 => libraries.pairing@,
        SolidityAbi::V2 => libraries.pairing_v2@,
    }
}

/// The text with the first match of the pattern replaced, where there is
/// a text.
pub open spec fn replaced(pattern: Seq<char>, text: Option<Seq<char>>, replacement: Seq<char>) -> Option<
    Seq<char>,
> {
    match text {
        Some(t) => regex_replaced(pattern, t, replacement),
        None => None,
    }
}

/// The line that sets the `i`-th input commitment.
pub open spec fn ic_line(i: int, point: G1Affine) -> Seq<char> {
    "vk.ic["@ + decimal(i as nat) + "] = Pairing.G1Point("@ + g1_text(point) + ");"@
}

/// The lines that set the first `k` input commitments, each but the
/// last of all followed by the separator.
pub open spec fn ic_lines(ic: Seq<G1Affine>, k: int) -> Seq<char>
    decreases k,
{
    if k <= 0 {
        Seq::<char>::empty()
    } else {
        ic_lines(ic, k - 1) + ic_line(k - 1, ic[k - 1]) + (if k < ic.len() {
            IC_SEPARATOR@
        } else {
            Seq::<char>::empty()
        })
    }
}

/// The contract: the template with the points of the key, the number
/// of input commitments, the number of public inputs and the input
/// commitments put in their places, in this order.
pub open spec fn contract(vk: VerificationKey, abi: SolidityAbi) -> Option<Seq<char>> {
    let t = Some(template(abi));
    let t = replaced(VK_PATTERN@, t, g2_text(vk.a));
    let t = replaced(VK_PATTERN@, t, g1_text(vk.b));
    let t = replaced(VK_PATTERN@, t, g2_text(vk.c));
    let t = replaced(VK_PATTERN@, t, g2_text(vk.gamma));
    let t = replaced(VK_PATTERN@, t, g1_text(vk.gamma_beta_1));
    let t = replaced(VK_PATTERN@, t, g2_text(vk.gamma_beta_2));
    let t = replaced(VK_PATTERN@, t, g2_text(vk.z));
    let t = replaced(VK_IC_LENGTH_PATTERN@, t, decimal(vk.ic@.len()));
    let t = replaced(VK_INPUT_LENGTH_PATTERN@, t, decimal((vk.ic@.len() - 1) as nat));
    replaced(VK_IC_POINTS_PATTERN@, t, ic_lines(vk.ic@, vk.ic@.len() as int))
}

/// The verifier: the two libraries, then the contract with every number
/// of 64 hexadecimal digits marked as a word.
pub open spec fn verifier_text(vk: VerificationKey, abi: SolidityAbi, libraries: SolidityLibraries) -> Option<
    Seq<char>,
> {
    match contract(vk, abi) {
        Some(t) => match regex_replaced_all(WORD_PATTERN@, t, WORD_REPLACEMENT@) {
            Some(marked) => Some(libraries.g2_addition@ + pairing_library(libraries, abi) + marked),
            None => None,
        },
        None => None,
    }
}

/// Replaces the first match of the pattern in the text.
fn put(pattern: &str, text: String, replacement: &str) -> (r: Result<String, ExportError>)
    ensures
        match r {
            Ok(t) => regex_replaced(pattern@, text@, replacement@) == Some(t@),
            Err(e) => regex_replaced(pattern@, text@, replacement@) is None && e
                == ExportError::InvalidPattern,
        },
{
    match replace(pattern, text.as_str(), replacement) {
        Some(t) => Ok(t),
        None => Err(ExportError::InvalidPattern),
    }
}

/// The lines that set the input commitments; see [`ic_lines`].
fn input_commitments(ic: &Vec<G1Affine>) -> (r: String)
    ensures
        r@ == ic_lines(ic@, ic@.len() as int),
{
    let mut out = String::new();
    let mut i: usize = 0;
    while i < ic.len()
        invariant
            i <= ic.len(),
            out@ == ic_lines(ic@, i as int),
        decreases ic.len() - i,
    {
        let ghost before = out@;
        out.append("vk.ic[");
        let digits = decimal_text(i as u64);
        out.append(digits.as_str());
        out.append("] = Pairing.G1Point(");
        let point = ic[i].to_text();
        out.append(point.as_str());
        out.append(");");
        assert(out@ =~= before + ic_line(i as int, ic@[i as int]));
        if i + 1 < ic.len() {
            out.append(IC_SEPARATOR);
        } else {
            assert(out@ + Seq::<char>::empty() =~= out@);
        }
        i += 1;
    }
    out
}

impl PGHR13 {
    /// Writes the Solidity contract that verifies proofs against `vk`:
    /// the libraries, then the template with the key put in; see
    /// [`verifier_text`]. A key without input commitments is refused.
    pub fn export_solidity_verifier(
        vk: &VerificationKey,
        abi: SolidityAbi,
        libraries: &SolidityLibraries,
    ) -> (r: Result<String, ExportError>)
        ensures
            match r {
                Ok(text) => vk.ic@.len() > 0 && verifier_text(*vk, abi, *libraries) == Some(text@),
                Err(ExportError::NoInputCommitment) => vk.ic@.len() == 0,
                Err(ExportError::InvalidPattern) => vk.ic@.len() > 0 && verifier_text(
                    *vk,
                    abi,
                    *libraries,
                ) is None,
            },
    {
        let ic_count = vk.ic.len();
        if ic_count == 0 {
            return Err(ExportError::NoInputCommitment);
        }
        let template_text = match abi {
            SolidityAbi::V1 => String::from_str(CONTRACT_TEMPLATE),
            SolidityAbi::V2 => String::from_str(CONTRACT_TEMPLATE_V2),
        };
        let a = vk.a.to_text();
        let template_text = match put(VK_PATTERN, template_text, a.as_str()) {
            Ok(t) => t,
            Err(e) => {
                return Err(e);
            },
        };
        let b = vk.b.to_text();
        let template_text = match put(VK_PATTERN, template_text, b.as_str()) {
            Ok(t) => t,
            Err(e) => {
                return Err(e);
            },
        };
        let c = vk.c.to_text();
        let template_text = match put(VK_PATTERN, template_text, c.as_str()) {
            Ok(t) => t,
            Err(e) => {
                return Err(e);
            },
        };
        let gamma = vk.gamma.to_text();
        let template_text = match put(VK_PATTERN, template_text, gamma.as_str()) {
            Ok(t) => t,
            Err(e) => {
                return Err(e);
            },
        };
        let gamma_beta_1 = vk.gamma_beta_1.to_text();
        let template_text = match put(VK_PATTERN, template_text, gamma_beta_1.as_str()) {
            Ok(t) => t,
            Err(e) => {
                return Err(e);
            },
        };
        let gamma_beta_2 = vk.gamma_beta_2.to_text();
        let template_text = match put(VK_PATTERN, template_text, gamma_beta_2.as_str()) {
            Ok(t) => t,
            Err(e) => {
                return Err(e);
            },
        };
        let z = vk.z.to_text();
        let template_text = match put(VK_PATTERN, template_text, z.as_str()) {
            Ok(t) => t,
            Err(e) => {
                return Err(e);
            },
        };
        let count = decimal_text(ic_count as u64);
        let template_text = match put(VK_IC_LENGTH_PATTERN, template_text, count.as_str()) {
            Ok(t) => t,
            Err(e) => {
                return Err(e);
            },
        };
        let input_count = decimal_text((ic_count - 1) as u64);
        let template_text = match put(VK_INPUT_LENGTH_PATTERN, template_text, input_count.as_str()) {
            Ok(t) => t,
            Err(e) => {
                return Err(e);
            },
        };
        let ic_repeat_text = input_commitments(&vk.ic);
        let template_text = match put(VK_IC_POINTS_PATTERN, template_text, ic_repeat_text.as_str()) {
            Ok(t) => t,
            Err(e) => {
                return Err(e);
            },
        };
        let marked = match replace_all(WORD_PATTERN, template_text.as_str(), WORD_REPLACEMENT) {
            Some(t) => t,
            None => {
                return Err(ExportError::InvalidPattern);
            },
        };
        let mut out = libraries.g2_addition.clone();
        match abi {
            SolidityAbi::V1 => {
                out.append(libraries.pairing.as_str());
            },
            SolidityAbi::V2 => {
                out.append(libraries.pairing_v2.as_str());
            },
        }
        out.append(marked.as_str());
        Ok(out)
    }

    /// Decodes a key and a proof for the backend that verifies; see
    /// [`prepare_verification`].
    pub fn prepare_verify(vk: &VerificationKey, proof: &Proof<ProofPoints>, field: &Field) -> (r:
        Result<VerificationRequest, VerifyError>)
        requires
            field.wf(),
        ensures
            prepared(vk.raw@, proof.raw@, proof.inputs@, field.modulus as int, r),
    {
        prepare_verification(vk.raw.as_str(), proof.raw.as_str(), &proof.inputs, field)
    }
}

} // verus!
