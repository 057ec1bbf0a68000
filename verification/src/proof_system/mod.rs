//! What the proving backends need from the compiler, and what is made of
//! what they return.

pub mod pghr13;

use crate::field::Field;
use crate::parse::{is_numeral, numeral_value, strip_hex_prefix, without_prefix};
use vstd::prelude::*;
use vstd::string::{StrSliceExecFns, StringExecFns};

verus! {

/// A point of the first group, by its two coordinates in hexadecimal
/// notation.
#[derive(Debug)]
pub struct G1Affine {
    pub x: String,
    pub y: String,
}

/// A point of the second group: each coordinate has two parts.
#[derive(Debug)]
pub struct G2Affine {
    pub x: (String, String),
    pub y: (String, String),
}

/// The notation of a point of the first group: its coordinates,
/// separated by a comma.
pub open spec fn g1_text(point: G1Affine) -> Seq<char> {
    point.x@ + ", "@ + point.y@
}

/// The notation of a point of the second group: each coordinate in
/// square brackets.
pub open spec fn g2_text(point: G2Affine) -> Seq<char> {
    "["@ + point.x.0@ + ", "@ + point.x.1@ + "], ["@ + point.y.0@ + ", "@ + point.y.1@ + "]"@
}

impl G1Affine {
    /// The notation of the point; see [`g1_text`].
    pub fn to_text(&self) -> (r: String)
        ensures
            r@ == g1_text(*self),
    {
        let mut out = self.x.clone();
        out.append(", ");
        out.append(self.y.as_str());
        out
    }
}

impl G2Affine {
    /// The notation of the point; see [`g2_text`].
    pub fn to_text(&self) -> (r: String)
        ensures
            r@ == g2_text(*self),
    {
        let mut out = String::from_str("[");
        out.append(self.x.0.as_str());
        out.append(", ");
        out.append(self.x.1.as_str());
        out.append("], [");
        out.append(self.y.0.as_str());
        out.append(", ");
        out.append(self.y.1.as_str());
        out.append("]");
        out
    }
}

/// Whether two texts are the same.
pub fn same_text(a: &str, b: &str) -> (r: bool)
    ensures
        r == (a@ == b@),
{
    let n = a.unicode_len();
    if n != b.unicode_len() {
        return false;
    }
    let mut i: usize = 0;
    while i < n
        invariant
            i <= n,
            n == a@.len(),
            n == b@.len(),
            forall|j: int| 0 <= j < i ==> a@[j] == b@[j],
        decreases n - i,
    {
        if a.get_char(i) != b.get_char(i) {
            return false;
        }
        i += 1;
    }
    assert(a@ =~= b@);
    true
}

/// How the verifier contract takes a proof.
#[derive(Clone, Copy, Debug, PartialEq, Eq, Structural)]
pub enum SolidityAbi {
    /// Each point of the proof is an argument of its own.
    V1,
    /// The proof is one argument.
    V2,
}

impl SolidityAbi {
    /// The version that `v` names: `v1` or `v2`.
    pub fn from(v: &str) -> (r: Result<SolidityAbi, String>)
        ensures
            v@ == "v1"@ ==> r == Ok::<SolidityAbi, String>(SolidityAbi::V1),
            v@ == "v2"@ ==> r == Ok::<SolidityAbi, String>(SolidityAbi::V2),
            v@ != "v1"@ && v@ != "v2"@ ==> r is Err && r->Err_0@ == "Invalid ABI version"@,
    {
        proof {
            reveal_strlit("v1");
            reveal_strlit("v2");
            assert("v1"@[1] != "v2"@[1]);
        }
        if same_text(v, "v1") {
            Ok(SolidityAbi::V1)
        } else if same_text(v, "v2") {
            Ok(SolidityAbi::V2)
        } else {
            Err(String::from_str("Invalid ABI version"))
        }
    }
}

/// A proof as a backend returns it: its points, the public inputs in
/// hexadecimal notation, and the proof as the backend reads it, in
/// hexadecimal notation.
#[derive(Debug)]
pub struct Proof<T> {
    pub proof: T,
    pub inputs: Vec<String>,
    pub raw: String,
}

/// The value of one hexadecimal digit.
pub open spec fn nibble(c: char) -> Option<int> {
    let n = c as int;
    if 48 <= n <= 57 {
        Some(n - 48)
    } else if 97 <= n <= 102 {
        Some(n - 87)
    } else if 65 <= n <= 70 {
        Some(n - 55)
    } else {
        None
    }
}

/// The bytes that a text writes in hexadecimal notation, two digits to
/// the byte, in either case. There are none for a text of odd length or
/// with a character that is no hexadecimal digit.
pub open spec fn hex_bytes(s: Seq<char>) -> Option<Seq<u8>>
    decreases s.len(),
{
    if s.len() == 0 {
        Some(Seq::<u8>::empty())
    } else if s.len() == 1 {
        None
    } else {
        match (nibble(s[0]), nibble(s[1]), hex_bytes(s.skip(2))) {
            (Some(high), Some(low), Some(rest)) => Some(seq![(high * 16 + low) as u8] + rest),
            _ => None,
        }
    }
}

/// Why a text is no hexadecimal notation of bytes.
#[verifier::external_type_specification]
#[verifier::external_body]
pub struct ExFromHexError(hex::FromHexError);

/// `hex::decode`: the bytes that the text writes, two hexadecimal digits
/// to the byte with the high one first; an error for a text of odd
/// length or with any other character.
#[verifier::external_body]
fn decode_hex(text: &str) -> (r: Result<Vec<u8>, hex::FromHexError>)
    ensures
        r is Ok == hex_bytes(text@) is Some,
        r is Ok ==> r->Ok_0@ == hex_bytes(text@).unwrap(),
{
    hex::decode(text)
}

/// What a backend is handed to verify a proof.
#[derive(Debug)]
pub struct VerificationRequest {
    /// The verification key as the backend reads it.
    pub vk: Vec<u8>,
    /// The proof as the backend reads it.
    pub proof: Vec<u8>,
    /// The public inputs.
    pub inputs: Vec<u64>,
}

/// Why a proof cannot be handed to a backend.
#[derive(Clone, Copy, Debug, PartialEq, Eq, Structural)]
pub enum VerifyError {
    /// The verification key is no hexadecimal notation of bytes.
    InvalidKey,
    /// The proof is no hexadecimal notation of bytes.
    InvalidProof,
    /// The public input at the given position is no hexadecimal number.
    InvalidInput(usize),
}

/// The field element that a public input writes: a hexadecimal number,
/// reduced, after any `0x`.
pub open spec fn public_input(s: Seq<char>, p: int) -> Option<u64> {
    let digits = without_prefix(s);
    if digits.len() > 0 && is_numeral(digits, 16) {
        Some((numeral_value(digits, 16) % p) as u64)
    } else {
        None
    }
}

/// Every public input before the `k`-th is a hexadecimal number.
pub open spec fn inputs_parse(inputs: Seq<String>, k: int, p: int) -> bool {
    forall|i: int| 0 <= i < k ==> public_input((#[trigger] inputs[i])@, p) is Some
}

/// What decoding makes of a key, a proof and its public inputs: the
/// bytes of the key and of the proof and the field elements of the
/// inputs, or the first of them that cannot be read.
pub open spec fn prepared(
    vk_raw: Seq<char>,
    proof_raw: Seq<char>,
    inputs: Seq<String>,
    p: int,
    r: Result<VerificationRequest, VerifyError>,
) -> bool {
    match r {
        Ok(request) => hex_bytes(vk_raw) == Some(request.vk@) && hex_bytes(proof_raw) == Some(
            request.proof@,
        ) && request.inputs@.len() == inputs.len() && forall|i: int|
            0 <= i < inputs.len() ==> public_input((#[trigger] inputs[i])@, p) == Some(
                request.inputs@[i],
            ),
        Err(VerifyError::InvalidKey) => hex_bytes(vk_raw) is None,
        Err(VerifyError::InvalidProof) => hex_bytes(vk_raw) is Some && hex_bytes(proof_raw) is None,
        Err(VerifyError::InvalidInput(k)) => hex_bytes(vk_raw) is Some && hex_bytes(proof_raw)
            is Some && k < inputs.len() && inputs_parse(inputs, k as int, p) && public_input(
            inputs[k as int]@,
            p,
        ) is None,
    }
}

/// Decodes a verification key, a proof and its public inputs for a
/// backend. The first of them that cannot be read is the error.
pub fn prepare_verification(vk_raw: &str, proof_raw: &str, inputs: &Vec<String>, field: &Field) -> (r:
    Result<VerificationRequest, VerifyError>)
    requires
        field.wf(),
    ensures
        prepared(vk_raw@, proof_raw@, inputs@, field.modulus as int, r),
{
    let vk = match decode_hex(vk_raw) {
        Ok(bytes) => bytes,
        Err(_) => {
            return Err(VerifyError::InvalidKey);
        },
    };
    let proof = match decode_hex(proof_raw) {
        Ok(bytes) => bytes,
        Err(_) => {
            return Err(VerifyError::InvalidProof);
        },
    };
    let ghost p = field.modulus as int;
    let mut values: Vec<u64> = Vec::new();
    let mut k: usize = 0;
    while k < inputs.len()
        invariant
            k <= inputs.len(),
            field.wf(),
            p == field.modulus as int,
            values.len() == k,
            hex_bytes(vk_raw@) == Some(vk@),
            hex_bytes(proof_raw@) == Some(proof@),
            forall|i: int|
                0 <= i < k ==> public_input((#[trigger] inputs@[i])@, p) == Some(values@[i]),
        decreases inputs.len() - k,
    {
        let digits = strip_hex_prefix(inputs[k].as_str());
        match field.try_from_str(digits, 16) {
            Some(x) => {
                proof {
                    vstd::arithmetic::div_mod::lemma_mod_bound(numeral_value(digits@, 16), p);
                }
                values.push(x);
            },
            None => {
                return Err(VerifyError::InvalidInput(k));
            },
        }
        k += 1;
    }
    Ok(VerificationRequest { vk, proof, inputs: values })
}

} // verus!
