//! The pure logic of the proof-authentication flow: structural validation
//! of proofs, witness field hashing, and the accept/reject decision of an
//! authentication request. Circuit compilation, proof generation and chain
//! submission are outside work and stay outside this crate.

use vstd::prelude::*;
use vstd::string::StringSliceAdditionalSpecFns;
use crate::digits::dec_str;
use crate::digits::u64_to_decimal;
use crate::order::str_eq;

verus! {

/// One generated proof: the proof bytes, the public inputs as decimal
/// field strings, and the verification key.
#[derive(Debug)]
pub struct NoirProof {
    /// The proof bytes.
    pub proof_data: Vec<u8>,
    /// The public inputs, as decimal field strings.
    pub public_inputs: Vec<String>,
    /// The verification key bytes.
    pub verification_key: Vec<u8>,
}

impl NoirProof {
    /// Structural validity: proof data between 32 bytes and one mebibyte,
    /// and a nonempty verification key and public-input list. This is the
    /// local check made before a proof is submitted anywhere.
    pub open spec fn spec_valid_structure(&self) -> bool {
        &&& 32 <= self.proof_data@.len() <= 1048576
        &&& self.verification_key@.len() > 0
        &&& self.public_inputs@.len() > 0
    }

    /// Decide [`Self::spec_valid_structure`].
    pub fn validate_structure(&self) -> (r: bool)
        ensures
            r == self.spec_valid_structure(),
    {
        if self.proof_data.len() < 32 {
            return false;
        }
        if self.proof_data.len() > 1048576 {
            return false;
        }
        if self.verification_key.len() == 0 {
            return false;
        }
        if self.public_inputs.len() == 0 {
            return false;
        }
        true
    }
}

/// The witness hash of a byte sequence under a domain separator: starting
/// from the domain, each byte folds in as `h * 31 + byte`, reduced to 64
/// bits.
pub open spec fn field_hash(bytes: Seq<u8>, domain: u64) -> u64
    decreases bytes.len(),
{
    if bytes.len() == 0 {
        domain
    } else {
        (((field_hash(bytes.drop_last(), domain) as int) * 31 + bytes.last())
            % 0x10000000000000000) as u64
    }
}

/// A proof generator bound to one compiled circuit. The subprocess and
/// file-system work of actually proving happens outside this crate; here
/// live the paths and the witness-field computation.
#[derive(Debug)]
pub struct NoirProver {
    circuit_path: String,
    working_directory: String,
}

impl NoirProver {
    /// The path of the compiled circuit.
    pub closed spec fn spec_circuit_path(&self) -> Seq<char> {
        self.circuit_path@
    }

    /// The directory the proving toolchain runs in.
    pub closed spec fn spec_working_directory(&self) -> Seq<char> {
        self.working_directory@
    }

    /// A prover for the circuit at `circuit_path`, working in the fixed
    /// circuit project directory.
    pub fn new(circuit_path: String) -> (r: Self)
        ensures
            r.spec_circuit_path() == circuit_path@,
            r.spec_working_directory() == "../noir-contracts/zkpassport_identity"@,
    {
        NoirProver { circuit_path, working_directory: "../noir-contracts/zkpassport_identity".to_owned() }
    }

    /// The path of the compiled circuit.
    pub fn circuit_path(&self) -> (r: &String)
        ensures
            r@ == self.spec_circuit_path(),
    {
        &self.circuit_path
    }

    /// The directory the proving toolchain runs in.
    pub fn working_directory(&self) -> (r: &String)
        ensures
            r@ == self.spec_working_directory(),
    {
        &self.working_directory
    }

    /// The decimal field value a string input contributes to the witness,
    /// under a domain separator.
    pub fn hash_to_field(&self, input: &str, domain: u32) -> (r: String)
        ensures
            r@ == dec_str(field_hash(input.spec_bytes(), domain as u64) as int),
    {
        let bytes = input.as_bytes();
        let mut h: u64 = domain as u64;
        let n = bytes.len();
        let mut i: usize = 0;
        while i < n
            invariant
                n == bytes@.len(),
                i <= n,
                h == field_hash(bytes@.take(i as int), domain as u64),
            decreases n - i,
        {
            proof {
                assert(bytes@.take(i as int + 1).drop_last() =~= bytes@.take(i as int));
                assert(bytes@.take(i as int + 1).last() == bytes@[i as int]);
            }
            let wide: u128 = (h as u128) * 31 + (bytes[i] as u128);
            h = (wide % 0x10000000000000000) as u64;
            i = i + 1;
        }
        proof {
            assert(bytes@.take(n as int) =~= bytes@);
        }
        u64_to_decimal(h)
    }

    /// The two public inputs of a password proof: the password hash first,
    /// then the username hash, each under its own domain separator.
    pub fn extract_public_inputs(&self, username: &str, password: &str) -> (r: Vec<String>)
        ensures
            r@.len() == 2,
            r@[0]@ == dec_str(field_hash(password.spec_bytes(), 1) as int),
            r@[1]@ == dec_str(field_hash(username.spec_bytes(), 0) as int),
    {
        let password_hash = self.hash_to_field(password, 1);
        let user_hash = self.hash_to_field(username, 0);
        let mut r: Vec<String> = Vec::new();
        r.push(password_hash);
        r.push(user_hash);
        r
    }
}

/// One authentication request, as decoded from the outside.
#[derive(Debug)]
pub struct NoirAuthRequest {
    /// The claimed username.
    pub username: String,
    /// The witness field derived from the username.
    pub user_field: String,
    /// The witness field derived from the password.
    pub password_field: String,
    /// The kind of proof the caller intends to supply.
    pub proof_type: String,
}

/// The answer sent back for one authentication request.
#[derive(Debug)]
pub struct NoirAuthResponse {
    /// Whether authentication succeeded.
    pub success: bool,
    /// A short human-readable outcome description.
    pub message: String,
    /// The digest of the generated proof, on success.
    pub proof_hash: Option<String>,
    /// The hash of the submitted transaction, on success.
    pub tx_hash: Option<String>,
}

/// The decision taken on one authentication request.
#[derive(Debug, Clone, Copy, PartialEq, Eq, Structural)]
pub enum AuthDecision {
    /// The request did not name the supported proof type.
    InvalidProofType,
    /// The credentials failed validation.
    InvalidCredentials,
    /// The request may proceed to proof generation.
    Accepted,
}

/// Decide one authentication request: the proof type must be
/// `noir_circuit`, the username must be the known demo user, and both
/// witness fields must be nonzero.
pub fn evaluate_auth_request(req: &NoirAuthRequest) -> (r: AuthDecision)
    ensures
        r == (if req.proof_type@ != "noir_circuit"@ {
            AuthDecision::InvalidProofType
        } else if req.username@ != "bob"@ || req.user_field@ == "0"@ || req.password_field@
            == "0"@ {
            AuthDecision::InvalidCredentials
        } else {
            AuthDecision::Accepted
        }),
{
    if !str_eq(req.proof_type.as_str(), "noir_circuit") {
        return AuthDecision::InvalidProofType;
    }
    let valid_user = str_eq(req.username.as_str(), "bob");
    let user_field_ok = !str_eq(req.user_field.as_str(), "0");
    let password_field_ok = !str_eq(req.password_field.as_str(), "0");
    if !valid_user || !user_field_ok || !password_field_ok {
        return AuthDecision::InvalidCredentials;
    }
    AuthDecision::Accepted
}

} // verus!
