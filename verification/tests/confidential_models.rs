//! The confidential proof statements and the encrypted-data envelope.

use dan_consensus::confidential::{
    Amount, BalanceProofSignature, ConfidentialOutputStatement, ConfidentialStatement,
    ConfidentialWithdrawProof, EncryptedData, PedersonCommitmentBytes, RistrettoPublicKeyBytes,
    SchnorrSignatureBytes, ViewableBalanceProof,
};

#[test]
fn encrypted_data_sizes() {
    assert_eq!(EncryptedData::min_size(), 80);
    assert_eq!(EncryptedData::max_size(), 336);
    assert_eq!(EncryptedData::payload_offset(), 40);

    assert_eq!(EncryptedData::try_from_bytes(vec![0; 79]), Err(79));
    assert_eq!(EncryptedData::try_from_bytes(vec![0; 337]), Err(337));
    assert!(EncryptedData::try_from_bytes(vec![0; 80]).is_ok());
    assert!(EncryptedData::try_from_bytes(vec![0; 336]).is_ok());
}

#[test]
fn encrypted_data_slices() {
    let mut bytes = Vec::new();
    for i in 0..100u8 {
        bytes.push(i);
    }
    let data = EncryptedData::try_from_bytes(bytes.clone()).unwrap();
    assert_eq!(data.len(), 100);
    assert!(!data.is_empty());
    assert_eq!(data.as_bytes(), &bytes[..]);
    assert_eq!(data.tag_slice(), &bytes[..16]);
    assert_eq!(data.nonce_slice(), &bytes[16..40]);
    assert_eq!(data.payload_slice(), &bytes[40..]);
}

#[test]
fn revealed_withdraw_is_revealed_only() {
    let proof = ConfidentialWithdrawProof::revealed_withdraw(Amount(1000));
    assert!(proof.is_revealed_only());
    assert_eq!(proof.revealed_input_amount(), Amount(1000));
    assert_eq!(proof.revealed_output_amount(), Amount(1000));
    assert_eq!(proof.revealed_change_amount(), Amount(0));

    // A zero amount moves no revealed funds, so the strict check fails.
    let zero = ConfidentialWithdrawProof::revealed_withdraw(Amount(0));
    assert!(!zero.is_revealed_only());
}

#[test]
fn confidential_output_breaks_revealed_only() {
    let statement = ConfidentialStatement {
        commitment: PedersonCommitmentBytes::from_bytes(vec![1; 32]),
        sender_public_nonce: RistrettoPublicKeyBytes::from_bytes(vec![2; 32]),
        encrypted_data: EncryptedData::try_from_bytes(vec![0; 80]).unwrap(),
        minimum_value_promise: 0,
        viewable_balance_proof: None,
    };
    let mut output_proof = ConfidentialOutputStatement::mint_revealed(Amount(5));
    output_proof.output_statement = Some(statement);
    let proof = ConfidentialWithdrawProof::revealed_to_confidential(
        Amount(5),
        output_proof,
        BalanceProofSignature::zero(),
    );
    assert!(!proof.is_revealed_only());

    // A non-zero balance proof also breaks the strict check.
    let mut signed = ConfidentialWithdrawProof::revealed_withdraw(Amount(5));
    signed.balance_proof = BalanceProofSignature::from_bytes(vec![7; 64]);
    assert!(!signed.is_revealed_only());
}

#[test]
fn mint_revealed_shape() {
    let statement = ConfidentialOutputStatement::mint_revealed(Amount(42));
    assert!(statement.output_statement.is_none());
    assert!(statement.change_statement.is_none());
    assert!(statement.range_proof.is_empty());
    assert_eq!(statement.output_revealed_amount, Amount(42));
    assert_eq!(statement.change_revealed_amount, Amount(0));
}

#[test]
fn challenge_fields_borrow_the_proof() {
    let proof = ViewableBalanceProof {
        elgamal_encrypted: RistrettoPublicKeyBytes::from_bytes(vec![1; 32]),
        elgamal_public_nonce: RistrettoPublicKeyBytes::from_bytes(vec![2; 32]),
        c_prime: RistrettoPublicKeyBytes::from_bytes(vec![3; 32]),
        e_prime: RistrettoPublicKeyBytes::from_bytes(vec![4; 32]),
        r_prime: RistrettoPublicKeyBytes::from_bytes(vec![5; 32]),
        s_v: SchnorrSignatureBytes::from_bytes(vec![6; 64]),
        s_m: SchnorrSignatureBytes::from_bytes(vec![7; 64]),
        s_r: SchnorrSignatureBytes::from_bytes(vec![8; 64]),
    };
    let fields = proof.as_challenge_fields();
    assert_eq!(fields.elgamal_encrypted, &proof.elgamal_encrypted);
    assert_eq!(fields.elgamal_public_nonce, &proof.elgamal_public_nonce);
    assert_eq!(fields.c_prime, &proof.c_prime);
    assert_eq!(fields.e_prime, &proof.e_prime);
    assert_eq!(fields.r_prime, &proof.r_prime);
}

#[test]
fn amount_helpers() {
    assert_eq!(Amount::zero().value(), 0);
    assert!(Amount(3).is_positive());
    assert!(!Amount(0).is_positive());
    assert!(!Amount(-3).is_positive());
}

#[test]
fn balance_proof_zero_detection() {
    assert!(BalanceProofSignature::zero().is_zero());
    assert!(!BalanceProofSignature::from_bytes(vec![1; 64]).is_zero());
}
