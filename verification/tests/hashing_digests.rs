//! The domain-separated hasher against the outside cryptography crate
//! computing the same digest directly.

use dan_consensus::hashing::{
    encrypted_value_hasher, output_mask_hasher, ownership_proof_hasher, TariBaseLayerHasher,
};
use tari_crypto::hash::blake2::Blake256;
use tari_crypto::hashing::DomainSeparation;

struct ConfidentialOutputDomain;

impl DomainSeparation for ConfidentialOutputDomain {
    fn version() -> u8 {
        1
    }

    fn domain() -> &'static str {
        "com.tari.layer_two.confidential_output"
    }
}

fn reference_digest(label: &str, data: &[u8]) -> Vec<u8> {
    let mut hasher = Blake256::default();
    ConfidentialOutputDomain::add_domain_separation_tag(&mut hasher, label);
    digest::Update::update(&mut hasher, data);
    digest::Digest::finalize(hasher).to_vec()
}

/// The library's tag construction and wrapped digest match the outside
/// crate's own domain-separated hashing, byte for byte.
#[test]
fn matches_reference_hashing() {
    for label in ["encryption_key", "spend_key", "commitment_signature"] {
        let mut lib = match label {
            "encryption_key" => encrypted_value_hasher(),
            "spend_key" => output_mask_hasher(),
            _ => ownership_proof_hasher(),
        };
        lib.update(b"hello world");
        let got = lib.result();
        assert_eq!(got, reference_digest(label, b"hello world"));
        assert_eq!(got.len(), 32);
    }
}

#[test]
fn labels_give_distinct_digests() {
    let a = encrypted_value_hasher().digest(b"same input");
    let b = output_mask_hasher().digest(b"same input");
    let c = ownership_proof_hasher().digest(b"same input");
    assert_ne!(a, b);
    assert_ne!(a, c);
    assert_ne!(b, c);
}

#[test]
fn chaining_equals_single_update() {
    let mut one = encrypted_value_hasher();
    one.update(b"abcdef");
    let direct = one.result();
    let chained = encrypted_value_hasher().chain(b"abc").chain(b"def").result();
    assert_eq!(direct, chained);
}

#[test]
fn finalize_into_writes_the_digest() {
    let mut h = TariBaseLayerHasher::new_with_label("com.example.domain", 2, "label");
    h.update(b"payload");
    let expected = {
        let mut h2 = TariBaseLayerHasher::new_with_label("com.example.domain", 2, "label");
        h2.update(b"payload");
        h2.result()
    };
    let mut out = Vec::new();
    h.finalize_into(&mut out);
    assert_eq!(out, expected);
}
