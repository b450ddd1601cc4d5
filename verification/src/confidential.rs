//! Confidential-transaction data models: output and withdraw proof
//! statements and the encrypted-data envelope. The cryptographic material
//! (commitments, nonces, signatures, range proofs) is carried as plain
//! byte strings; verifying it is the business of an external collaborator,
//! while the structural rules — which statements may be absent, when a
//! proof moves only revealed funds, how the envelope is laid out — are
//! checked here.

use vstd::prelude::*;
use vstd::slice::slice_subrange;

use crate::types::clone_plain_vec;

verus! {

/// A quantity of revealed funds. Negative amounts never appear in valid
/// statements but the type, like the ledger's balances, is signed.
#[derive(Debug, Clone, Copy, PartialEq, Eq, Structural, Hash)]
pub struct Amount(pub i64);

impl Amount {
    pub fn zero() -> (r: Amount)
        ensures
            r.0 == 0,
    {
        Amount(0)
    }

    pub fn value(&self) -> (r: i64)
        ensures
            r == self.0,
    {
        self.0
    }

    pub fn is_positive(&self) -> (r: bool)
        ensures
            r == (self.0 > 0),
    {
        self.0 > 0
    }
}

/// A Pedersen commitment, as its 32 bytes.
#[derive(Debug, Clone, PartialEq, Eq)]
pub struct PedersonCommitmentBytes {
    bytes: Vec<u8>,
}

impl PedersonCommitmentBytes {
    pub open spec fn wf(&self) -> bool {
        self.bytes_spec().len() == 32
    }

    pub closed spec fn bytes_spec(&self) -> Seq<u8> {
        self.bytes@
    }

    pub fn from_bytes(bytes: Vec<u8>) -> (r: PedersonCommitmentBytes)
        requires
            bytes@.len() == 32,
        ensures
            r.wf(),
            r.bytes_spec() == bytes@,
    {
        PedersonCommitmentBytes { bytes }
    }

    pub fn as_bytes(&self) -> (r: &Vec<u8>)
        ensures
            r@ == self.bytes_spec(),
    {
        &self.bytes
    }
}

/// A Ristretto public key, as its 32 bytes.
#[derive(Debug, Clone, PartialEq, Eq)]
pub struct RistrettoPublicKeyBytes {
    bytes: Vec<u8>,
}

impl RistrettoPublicKeyBytes {
    pub open spec fn wf(&self) -> bool {
        self.bytes_spec().len() == 32
    }

    pub closed spec fn bytes_spec(&self) -> Seq<u8> {
        self.bytes@
    }

    pub fn from_bytes(bytes: Vec<u8>) -> (r: RistrettoPublicKeyBytes)
        requires
            bytes@.len() == 32,
        ensures
            r.wf(),
            r.bytes_spec() == bytes@,
    {
        RistrettoPublicKeyBytes { bytes }
    }

    pub fn as_bytes(&self) -> (r: &Vec<u8>)
        ensures
            r@ == self.bytes_spec(),
    {
        &self.bytes
    }
}

/// A Schnorr signature, as its 64 bytes of public nonce and scalar.
#[derive(Debug, Clone, PartialEq, Eq)]
pub struct SchnorrSignatureBytes {
    bytes: Vec<u8>,
}

impl SchnorrSignatureBytes {
    pub open spec fn wf(&self) -> bool {
        self.bytes_spec().len() == 64
    }

    pub closed spec fn bytes_spec(&self) -> Seq<u8> {
        self.bytes@
    }

    pub fn from_bytes(bytes: Vec<u8>) -> (r: SchnorrSignatureBytes)
        requires
            bytes@.len() == 64,
        ensures
            r.wf(),
            r.bytes_spec() == bytes@,
    {
        SchnorrSignatureBytes { bytes }
    }

    pub fn as_bytes(&self) -> (r: &Vec<u8>)
        ensures
            r@ == self.bytes_spec(),
    {
        &self.bytes
    }
}

/// A balance proof: the signature over the excess. The all-zero signature
/// is the valid balance proof for a transfer with no confidential inputs
/// or outputs.
#[derive(Debug, Clone, PartialEq, Eq)]
pub struct BalanceProofSignature {
    bytes: Vec<u8>,
}

impl BalanceProofSignature {
    pub open spec fn wf(&self) -> bool {
        self.bytes_spec().len() == 64
    }

    pub closed spec fn bytes_spec(&self) -> Seq<u8> {
        self.bytes@
    }

    /// All bytes are zero: the proof of a transfer with zero excess.
    pub open spec fn is_zero_spec(&self) -> bool {
        forall|i: int| 0 <= i < self.bytes_spec().len() ==> self.bytes_spec()[i] == 0
    }

    pub fn from_bytes(bytes: Vec<u8>) -> (r: BalanceProofSignature)
        requires
            bytes@.len() == 64,
        ensures
            r.wf(),
            r.bytes_spec() == bytes@,
    {
        BalanceProofSignature { bytes }
    }

    /// The zero signature: s = 0 + e·x with a zero excess x.
    pub fn zero() -> (r: BalanceProofSignature)
        ensures
            r.wf(),
            r.is_zero_spec(),
    {
        let mut bytes: Vec<u8> = Vec::new();
        let mut i: usize = 0;
        while i < 64
            invariant
                i <= 64,
                bytes@.len() == i,
                forall|j: int| 0 <= j < i ==> bytes@[j] == 0,
            decreases 64 - i,
        {
            bytes.push(0);
            i = i + 1;
        }
        BalanceProofSignature { bytes }
    }

    pub fn is_zero(&self) -> (r: bool)
        ensures
            r == self.is_zero_spec(),
    {
        let mut i: usize = 0;
        while i < self.bytes.len()
            invariant
                i <= self.bytes@.len(),
                forall|j: int| 0 <= j < i ==> self.bytes@[j] == 0,
            decreases self.bytes@.len() - i,
        {
            if self.bytes[i] != 0 {
                proof {
                    assert(self.bytes_spec()[i as int] != 0);
                }
                return false;
            }
            i = i + 1;
        }
        true
    }

    pub fn as_bytes(&self) -> (r: &Vec<u8>)
        ensures
            r@ == self.bytes_spec(),
    {
        &self.bytes
    }
}

/// Encrypted mask and value for the recipient of a confidential output:
/// a tag, a nonce, and a payload, in that byte order.
#[derive(Debug, Clone, PartialEq, Eq, Hash)]
pub struct EncryptedData {
    bytes: Vec<u8>,
}

impl EncryptedData {
    pub const SIZE_TAG: usize = 16;

    pub const SIZE_NONCE: usize = 24;

    pub const SIZE_VALUE: usize = 8;

    pub const SIZE_MASK: usize = 32;

    pub const ENCRYPTED_DATA_SIZE_TOTAL: usize = 24 + 8 + 32 + 16;

    pub open spec fn wf(&self) -> bool {
        80 <= self.bytes_spec().len() <= 336
    }

    pub closed spec fn bytes_spec(&self) -> Seq<u8> {
        self.bytes@
    }

    /// The smallest accepted envelope: tag, nonce, value and mask with no
    /// extra payload.
    pub fn min_size() -> (r: usize)
        ensures
            r == 80,
    {
        Self::ENCRYPTED_DATA_SIZE_TOTAL
    }

    /// The largest accepted envelope.
    pub fn max_size() -> (r: usize)
        ensures
            r == 336,
    {
        Self::min_size() + 256
    }

    /// Accepts exactly the byte strings whose length lies between the
    /// smallest and largest envelope size; the rejected length is handed
    /// back.
    pub fn try_from_bytes(value: Vec<u8>) -> (r: Result<EncryptedData, usize>)
        ensures
            match r {
                Ok(d) => d.wf() && d.bytes_spec() == value@ && 80 <= value@.len() <= 336,
                Err(len) => len == value@.len() && !(80 <= value@.len() <= 336),
            },
    {
        if value.len() < Self::min_size() {
            let len = value.len();
            return Err(len);
        }
        if value.len() > Self::max_size() {
            let len = value.len();
            return Err(len);
        }
        Ok(EncryptedData { bytes: value })
    }

    pub fn len(&self) -> (r: usize)
        ensures
            r == self.bytes_spec().len(),
    {
        self.bytes.len()
    }

    pub fn is_empty(&self) -> (r: bool)
        ensures
            r == (self.bytes_spec().len() == 0),
    {
        self.len() == 0
    }

    pub fn as_bytes(&self) -> (r: &[u8])
        ensures
            r@ == self.bytes_spec(),
    {
        self.bytes.as_slice()
    }

    /// The authentication tag: the leading bytes.
    pub fn tag_slice(&self) -> (r: &[u8])
        requires
            self.wf(),
        ensures
            r@ == self.bytes_spec().subrange(0, 16),
    {
        slice_subrange(self.bytes.as_slice(), 0, Self::SIZE_TAG)
    }

    /// The encryption nonce: the bytes after the tag.
    pub fn nonce_slice(&self) -> (r: &[u8])
        requires
            self.wf(),
        ensures
            r@ == self.bytes_spec().subrange(16, 40),
    {
        slice_subrange(self.bytes.as_slice(), Self::SIZE_TAG, Self::SIZE_NONCE + Self::SIZE_TAG)
    }

    /// The encrypted payload: everything after the tag and nonce.
    pub fn payload_slice(&self) -> (r: &[u8])
        requires
            self.wf(),
        ensures
            r@ == self.bytes_spec().subrange(40, self.bytes_spec().len() as int),
    {
        let len = self.bytes.len();
        slice_subrange(self.bytes.as_slice(), Self::payload_offset(), len)
    }

    /// Where the payload begins: after the tag and nonce.
    pub fn payload_offset() -> (r: usize)
        ensures
            r == 40,
    {
        Self::SIZE_TAG + Self::SIZE_NONCE
    }
}

/// A zero-knowledge proof that a confidential resource amount is valid.
#[derive(Debug, Clone, PartialEq, Eq)]
pub struct ConfidentialStatement {
    pub commitment: PedersonCommitmentBytes,
    /// Public nonce (R) that was used to generate the commitment mask.
    pub sender_public_nonce: RistrettoPublicKeyBytes,
    /// Encrypted mask and value for the recipient.
    pub encrypted_data: EncryptedData,
    pub minimum_value_promise: u64,
    /// If the view key is enabled for a given resource, this proof MUST be
    /// provided, otherwise it MUST NOT.
    pub viewable_balance_proof: Option<ViewableBalanceProof>,
}

/// A verifiable ElGamal encryption proving that the value bound to a
/// Pedersen commitment matches the value encrypted to a given view key,
/// so the key holder can decrypt balances without the commitment opening.
#[derive(Debug, Clone, PartialEq, Eq)]
pub struct ViewableBalanceProof {
    /// The encrypted value E = v·G + r·P.
    pub elgamal_encrypted: RistrettoPublicKeyBytes,
    /// The public nonce R = r·G used in the encryption.
    pub elgamal_public_nonce: RistrettoPublicKeyBytes,
    /// Commitment part of the proof: C' = x_v·H + x_m·G.
    pub c_prime: RistrettoPublicKeyBytes,
    /// Encryption part of the proof: E' = x_v·G + x_r·P.
    pub e_prime: RistrettoPublicKeyBytes,
    /// Nonce part of the proof: R' = x_r·G.
    pub r_prime: RistrettoPublicKeyBytes,
    /// Response s_v = x_v + e·v.
    pub s_v: SchnorrSignatureBytes,
    /// Response s_m = x_m + e·m.
    pub s_m: SchnorrSignatureBytes,
    /// Response s_r = x_r + e·r.
    pub s_r: SchnorrSignatureBytes,
}

/// The statement parts of a viewable-balance proof that are bound into
/// the verifier's challenge.
#[derive(Clone, Copy)]
pub struct ViewableBalanceProofChallengeFields<'a> {
    pub elgamal_encrypted: &'a RistrettoPublicKeyBytes,
    pub elgamal_public_nonce: &'a RistrettoPublicKeyBytes,
    pub c_prime: &'a RistrettoPublicKeyBytes,
    pub e_prime: &'a RistrettoPublicKeyBytes,
    pub r_prime: &'a RistrettoPublicKeyBytes,
}

impl ViewableBalanceProof {
    /// The fields of this proof that enter the challenge, in order.
    pub fn as_challenge_fields(&self) -> (r: ViewableBalanceProofChallengeFields<'_>)
        ensures
            r.elgamal_encrypted == &self.elgamal_encrypted,
            r.elgamal_public_nonce == &self.elgamal_public_nonce,
            r.c_prime == &self.c_prime,
            r.e_prime == &self.e_prime,
            r.r_prime == &self.r_prime,
    {
        ViewableBalanceProofChallengeFields {
            elgamal_encrypted: &self.elgamal_encrypted,
            elgamal_public_nonce: &self.elgamal_public_nonce,
            c_prime: &self.c_prime,
            e_prime: &self.e_prime,
            r_prime: &self.r_prime,
        }
    }
}

/// A statement for confidential and revealed outputs. A statement must
/// contain either confidential outputs or non-zero revealed funds or
/// both.
#[derive(Debug, Clone, PartialEq, Eq)]
pub struct ConfidentialOutputStatement {
    /// Proof of the confidential resources transferred to the receiver.
    pub output_statement: Option<ConfidentialStatement>,
    /// Proof of the transaction change, back to the sender's vault.
    pub change_statement: Option<ConfidentialStatement>,
    /// Bulletproof range proof for the output and change commitments.
    pub range_proof: Vec<u8>,
    /// The amount of revealed funds to output.
    pub output_revealed_amount: Amount,
    /// The amount of revealed funds to return to the sender.
    pub change_revealed_amount: Amount,
}

impl ConfidentialOutputStatement {
    /// Creates an output proof for minting which only mints a revealed
    /// amount.
    pub fn mint_revealed(amount: Amount) -> (r: ConfidentialOutputStatement)
        ensures
            r.output_statement is None,
            r.change_statement is None,
            r.range_proof@.len() == 0,
            r.output_revealed_amount == amount,
            r.change_revealed_amount.0 == 0,
    {
        ConfidentialOutputStatement {
            output_statement: None,
            change_statement: None,
            range_proof: Vec::new(),
            output_revealed_amount: amount,
            change_revealed_amount: Amount::zero(),
        }
    }
}

/// A zero-knowledge proof that a transfer of confidential resources is
/// valid.
#[derive(Debug, Clone, PartialEq, Eq)]
pub struct ConfidentialWithdrawProof {
    pub inputs: Vec<PedersonCommitmentBytes>,
    /// The amount to withdraw from revealed funds, i.e. the revealed
    /// funds as inputs.
    pub input_revealed_amount: Amount,
    pub output_proof: ConfidentialOutputStatement,
    /// Balance proof.
    pub balance_proof: BalanceProofSignature,
}

/// The strict revealed-only condition: no confidential inputs or outputs,
/// no range proof, a zero balance proof, and positive revealed funds on
/// both sides.
pub open spec fn revealed_only_spec(p: ConfidentialWithdrawProof) -> bool {
    &&& p.output_proof.range_proof@.len() == 0
    &&& p.inputs@.len() == 0
    &&& p.output_proof.output_statement is None
    &&& p.output_proof.change_statement is None
    &&& p.balance_proof.is_zero_spec()
    &&& p.input_revealed_amount.0 > 0
    &&& p.output_proof.output_revealed_amount.0 + p.output_proof.change_revealed_amount.0 > 0
}

impl ConfidentialWithdrawProof {
    /// Creates a withdrawal proof for revealed funds of a specific amount:
    /// there are no confidential inputs or outputs, so the zero signature
    /// is a valid balance proof.
    pub fn revealed_withdraw(amount: Amount) -> (r: ConfidentialWithdrawProof)
        ensures
            r.inputs@.len() == 0,
            r.input_revealed_amount == amount,
            r.output_proof.output_revealed_amount == amount,
            r.output_proof.change_revealed_amount.0 == 0,
            r.output_proof.output_statement is None,
            r.output_proof.change_statement is None,
            r.output_proof.range_proof@.len() == 0,
            r.balance_proof.is_zero_spec(),
            amount.0 > 0 ==> revealed_only_spec(r),
    {
        let balance_proof = BalanceProofSignature::zero();
        ConfidentialWithdrawProof {
            inputs: Vec::new(),
            input_revealed_amount: amount,
            output_proof: ConfidentialOutputStatement::mint_revealed(amount),
            balance_proof,
        }
    }

    /// Wraps revealed funds into a confidential output statement.
    pub fn revealed_to_confidential(
        input_revealed_amount: Amount,
        output_proof: ConfidentialOutputStatement,
        balance_proof: BalanceProofSignature,
    ) -> (r: ConfidentialWithdrawProof)
        ensures
            r.inputs@.len() == 0,
            r.input_revealed_amount == input_revealed_amount,
            r.output_proof == output_proof,
            r.balance_proof == balance_proof,
    {
        ConfidentialWithdrawProof {
            inputs: Vec::new(),
            input_revealed_amount,
            output_proof,
            balance_proof,
        }
    }

    /// Returns true if the withdraw proof is only transferring revealed
    /// funds, otherwise false. The condition is strict, since it is used
    /// to decide whether the balance proof check may safely be skipped.
    pub fn is_revealed_only(&self) -> (r: bool)
        ensures
            r == revealed_only_spec(*self),
    {
        let output_total: i128 = (self.output_proof.output_revealed_amount.0 as i128)
            + (self.output_proof.change_revealed_amount.0 as i128);
        self.output_proof.range_proof.len() == 0 && self.inputs.len() == 0
            && self.output_proof.output_statement.is_none()
            && self.output_proof.change_statement.is_none() && self.balance_proof.is_zero()
            && self.input_revealed_amount.0 > 0 && output_total > 0
    }

    pub fn revealed_input_amount(&self) -> (r: Amount)
        ensures
            r == self.input_revealed_amount,
    {
        self.input_revealed_amount
    }

    pub fn revealed_output_amount(&self) -> (r: Amount)
        ensures
            r == self.output_proof.output_revealed_amount,
    {
        self.output_proof.output_revealed_amount
    }

    pub fn revealed_change_amount(&self) -> (r: Amount)
        ensures
            r == self.output_proof.change_revealed_amount,
    {
        self.output_proof.change_revealed_amount
    }
}

} // verus!
