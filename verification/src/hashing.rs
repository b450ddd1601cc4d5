//! Domain-separated hashing for base-layer compatible outputs. The
//! Blake2b-256 digest itself comes from an outside cryptography crate and
//! is trusted; the domain-separation framing written before the data is
//! computed and verified here, byte for byte.

use vstd::prelude::*;
use vstd::string::StringSliceAdditionalSpecFns;

use tari_crypto::hash::blake2::Blake256;

use crate::codec::{enc_u64, push_u64};

verus! {

#[verifier::external_type_specification]
#[verifier::external_body]
pub struct ExBlake256(Blake256);

/// The 32-byte Blake2b-256 digest of a byte stream. The digest depends on
/// the absorbed bytes alone; its value is the outside crate's business.
pub uninterp spec fn blake256_digest(input: Seq<u8>) -> Seq<u8>;

/// A hasher for base-layer compatible values: a running Blake2b-256
/// context together with the bytes absorbed so far.
pub struct TariBaseLayerHasher {
    hasher: Blake256,
    absorbed: Ghost<Seq<u8>>,
}

/// The decimal digits of `v` in ASCII, without leading zeros.
pub open spec fn decimal_digits(v: u8) -> Seq<u8> {
    if v < 10 {
        seq![(48 + v) as u8]
    } else if v < 100 {
        seq![(48 + v / 10) as u8, (48 + v % 10) as u8]
    } else {
        seq![(48 + v / 100) as u8, (48 + (v / 10) % 10) as u8, (48 + v % 10) as u8]
    }
}

/// The domain separation tag written before any data: the tag's length as
/// an eight-byte integer, then `{domain}.v{version}` and, when a label is
/// given, `.{label}`.
pub open spec fn domain_tag_bytes(domain: Seq<u8>, version: u8, label: Seq<u8>) -> Seq<u8> {
    let digits = decimal_digits(version);
    let len: int = if label.len() == 0 {
        domain.len() + digits.len() + 2int
    } else {
        domain.len() + digits.len() + label.len() + 3int
    };
    enc_u64(len as u64) + domain + seq![46u8, 118u8] + digits + (if label.len() == 0 {
        Seq::<u8>::empty()
    } else {
        seq![46u8] + label
    })
}

/// Builds the domain separation tag for `{domain}.v{version}.{label}`.
fn domain_separation_tag(domain: &str, version: u8, label: &str) -> (r: Vec<u8>)
    requires
        domain.spec_bytes().len() < 0x1000_0000,
        label.spec_bytes().len() < 0x1000_0000,
    ensures
        r@ == domain_tag_bytes(domain.spec_bytes(), version, label.spec_bytes()),
{
    let dbytes = domain.as_bytes();
    let lbytes = label.as_bytes();
    let mut digits: Vec<u8> = Vec::new();
    if version < 10 {
        digits.push(48 + version);
    } else if version < 100 {
        digits.push(48 + version / 10);
        digits.push(48 + version % 10);
    } else {
        digits.push(48 + version / 100);
        digits.push(48 + (version / 10) % 10);
        digits.push(48 + version % 10);
    }
    proof {
        assert(digits@ =~= decimal_digits(version));
    }
    let tag_len: u64 = if lbytes.len() == 0 {
        (dbytes.len() as u64) + (digits.len() as u64) + 2
    } else {
        (dbytes.len() as u64) + (digits.len() as u64) + (lbytes.len() as u64) + 3
    };
    let mut out: Vec<u8> = Vec::new();
    push_u64(&mut out, tag_len);
    let ghost after_len = out@;
    let mut i: usize = 0;
    while i < dbytes.len()
        invariant
            i <= dbytes@.len(),
            out@ == after_len + dbytes@.take(i as int),
        decreases dbytes@.len() - i,
    {
        proof {
            assert((after_len + dbytes@.take(i as int)).push(dbytes@[i as int]) =~= after_len
                + dbytes@.take(i as int + 1));
        }
        out.push(dbytes[i]);
        i = i + 1;
    }
    proof {
        assert(dbytes@.take(dbytes@.len() as int) =~= dbytes@);
    }
    out.push(46);
    out.push(118);
    let ghost after_v = out@;
    let mut d: usize = 0;
    while d < digits.len()
        invariant
            d <= digits@.len(),
            out@ == after_v + digits@.take(d as int),
        decreases digits@.len() - d,
    {
        proof {
            assert((after_v + digits@.take(d as int)).push(digits@[d as int]) =~= after_v
                + digits@.take(d as int + 1));
        }
        out.push(digits[d]);
        d = d + 1;
    }
    proof {
        assert(digits@.take(digits@.len() as int) =~= digits@);
    }
    if lbytes.len() > 0 {
        out.push(46);
        let ghost after_dot = out@;
        let mut k: usize = 0;
        while k < lbytes.len()
            invariant
                k <= lbytes@.len(),
                out@ == after_dot + lbytes@.take(k as int),
            decreases lbytes@.len() - k,
        {
            proof {
                assert((after_dot + lbytes@.take(k as int)).push(lbytes@[k as int]) =~= after_dot
                    + lbytes@.take(k as int + 1));
            }
            out.push(lbytes[k]);
            k = k + 1;
        }
        proof {
            assert(lbytes@.take(lbytes@.len() as int) =~= lbytes@);
        }
    }
    proof {
        assert(out@ =~= domain_tag_bytes(domain.spec_bytes(), version, label.spec_bytes()));
    }
    out
}

impl TariBaseLayerHasher {
    /// The bytes this hasher has absorbed so far.
    pub closed spec fn absorbed_spec(&self) -> Seq<u8> {
        self.absorbed@
    }

    /// A fresh hasher that has absorbed nothing.
    fn empty() -> (r: TariBaseLayerHasher)
        ensures
            r.absorbed_spec() == Seq::<u8>::empty(),
    {
        TariBaseLayerHasher { hasher: blake256_new(), absorbed: Ghost(Seq::empty()) }
    }

    /// Relies on digest::Update::update for Blake256: absorbs exactly the
    /// given bytes into the running context.
    #[verifier::external_body]
    pub fn update(&mut self, data: &[u8])
        ensures
            final(self).absorbed_spec() == old(self).absorbed_spec() + data@,
    {
        digest::Update::update(&mut self.hasher, data);
    }

    /// Relies on digest::Digest::finalize for Blake256: the 32-byte digest
    /// of the absorbed bytes, a function of those bytes alone.
    #[verifier::external_body]
    pub fn result(self) -> (r: Vec<u8>)
        ensures
            r@ == blake256_digest(self.absorbed_spec()),
            r@.len() == 32,
    {
        digest::Digest::finalize(self.hasher).to_vec()
    }

    /// A hasher primed with the domain separation tag
    /// `{domain}.v{version}.{label}`.
    pub fn new_with_label(domain: &str, version: u8, label: &str) -> (r: TariBaseLayerHasher)
        requires
            domain.spec_bytes().len() < 0x1000_0000,
            label.spec_bytes().len() < 0x1000_0000,
        ensures
            r.absorbed_spec() == domain_tag_bytes(
                domain.spec_bytes(),
                version,
                label.spec_bytes(),
            ),
    {
        let tag = domain_separation_tag(domain, version, label);
        let mut h = TariBaseLayerHasher::empty();
        h.update(tag.as_slice());
        proof {
            assert(Seq::<u8>::empty() + tag@ =~= tag@);
        }
        h
    }

    /// Absorbs the data and hands the hasher back, for fluent chaining.
    pub fn chain(self, data: &[u8]) -> (r: TariBaseLayerHasher)
        ensures
            r.absorbed_spec() == self.absorbed_spec() + data@,
    {
        let mut h = self;
        h.update(data);
        h
    }

    /// The digest after absorbing one final piece of data.
    pub fn digest(self, data: &[u8]) -> (r: Vec<u8>)
        ensures
            r@ == blake256_digest(self.absorbed_spec() + data@),
            r@.len() == 32,
    {
        self.chain(data).result()
    }

    /// Writes the digest of the absorbed bytes into the given buffer.
    pub fn finalize_into(self, output: &mut Vec<u8>)
        ensures
            final(output)@ == blake256_digest(self.absorbed_spec()),
    {
        let digest = self.result();
        *output = digest;
    }
}

/// Relies on Blake256::default of the outside cryptography crate: a
/// fresh 256-bit Blake2b context that has absorbed nothing; the contracts
/// of `update` and `result` speak of the bytes absorbed since this call.
#[verifier::external_body]
fn blake256_new() -> (r: Blake256) {
    Blake256::default()
}

/// A hasher under the confidential-output domain with the given label.
fn confidential_hasher(label: &str) -> (r: TariBaseLayerHasher)
    requires
        label.spec_bytes().len() < 0x1000_0000,
    ensures
        r.absorbed_spec() == domain_tag_bytes(
            "com.tari.layer_two.confidential_output".spec_bytes(),
            1,
            label.spec_bytes(),
        ),
{
    proof {
        reveal_strlit("com.tari.layer_two.confidential_output");
        lemma_short_literal_bytes("com.tari.layer_two.confidential_output");
    }
    TariBaseLayerHasher::new_with_label("com.tari.layer_two.confidential_output", 1, label)
}

/// A short ASCII literal's encoded bytes are one per character.
proof fn lemma_short_literal_bytes(s: &str)
    requires
        vstd::string::is_ascii(s),
        s@.len() < 0x1000_0000,
    ensures
        s.spec_bytes().len() == s@.len(),
{
    vstd::string::is_ascii_spec_bytes(s);
}

/// The hasher deriving encryption keys for confidential outputs.
pub fn encrypted_value_hasher() -> (r: TariBaseLayerHasher)
    ensures
        r.absorbed_spec() == domain_tag_bytes(
            "com.tari.layer_two.confidential_output".spec_bytes(),
            1,
            "encryption_key".spec_bytes(),
        ),
{
    proof {
        reveal_strlit("encryption_key");
        lemma_short_literal_bytes("encryption_key");
    }
    confidential_hasher("encryption_key")
}

/// The hasher deriving output masks (spend keys).
pub fn output_mask_hasher() -> (r: TariBaseLayerHasher)
    ensures
        r.absorbed_spec() == domain_tag_bytes(
            "com.tari.layer_two.confidential_output".spec_bytes(),
            1,
            "spend_key".spec_bytes(),
        ),
{
    proof {
        reveal_strlit("spend_key");
        lemma_short_literal_bytes("spend_key");
    }
    confidential_hasher("spend_key")
}

/// The hasher for commitment ownership proofs.
pub fn ownership_proof_hasher() -> (r: TariBaseLayerHasher)
    ensures
        r.absorbed_spec() == domain_tag_bytes(
            "com.tari.layer_two.confidential_output".spec_bytes(),
            1,
            "commitment_signature".spec_bytes(),
        ),
{
    proof {
        reveal_strlit("commitment_signature");
        lemma_short_literal_bytes("commitment_signature");
    }
    confidential_hasher("commitment_signature")
}

} // verus!
