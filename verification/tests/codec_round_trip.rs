//! Round trips through the canonical byte encoding: serializing and
//! deserializing a block, transaction, or evidence record gives the value
//! back, and re-serializing reproduces the bytes bit for bit.

use dan_consensus::block::{Block, QuorumCertificate, TransactionAtom};
use dan_consensus::codec::{
    decode_block, decode_evidence, decode_transaction, encode_block, encode_evidence,
    encode_transaction,
};
use dan_consensus::evidence::Evidence;
use dan_consensus::transaction::{Arg, Instruction, Transaction};
use dan_consensus::types::{
    BlockId, Decision, Epoch, NodeHeight, Shard, TransactionId, ValidatorId,
};

fn sample_evidence() -> Evidence {
    let mut e = Evidence::from_shards(&vec![Shard(1), Shard(7), Shard(300)]);
    e.add_proof(Shard(7), 11);
    e.add_proof(Shard(7), 12);
    e.add_proof(Shard(300), 13);
    e
}

fn sample_transaction() -> Transaction {
    Transaction::new(
        TransactionId(0xdead),
        vec![Instruction::CallMethod {
            component_address: 9,
            method: b"pay_fee".to_vec(),
            args: vec![Arg::Literal(vec![1, 2, 3])],
        }],
        vec![
            Instruction::CallFunction {
                template_address: 7,
                function: b"mint".to_vec(),
                args: vec![Arg::Variable(b"bucket".to_vec()), Arg::Literal(vec![])],
            },
            Instruction::PutLastInstructionOutputOnWorkspace {
                key: b"bucket".to_vec(),
            },
            Instruction::ClaimBurn {
                commitment_address: vec![9; 32],
                range_proof: vec![1; 8],
                proof_of_knowledge: vec![2; 16],
            },
        ],
        vec![5; 64],
        vec![6; 32],
        vec![Shard(1), Shard(2)],
        vec![Shard(3)],
        vec![Shard(4), Shard(5)],
    )
}

fn sample_block() -> Block {
    Block {
        id: BlockId(5),
        parent_id: BlockId(4),
        height: NodeHeight(5),
        epoch: Epoch(1),
        proposer: ValidatorId(1),
        justify: QuorumCertificate {
            block_id: BlockId(4),
            height: NodeHeight(4),
            epoch: Epoch(1),
            signers: vec![ValidatorId(0), ValidatorId(1), ValidatorId(2)],
        },
        commands: vec![
            TransactionAtom {
                id: TransactionId(0xdead),
                decision: Decision::Commit,
                evidence: sample_evidence(),
            },
            TransactionAtom {
                id: TransactionId(0xbeef),
                decision: Decision::Abort,
                evidence: Evidence::empty(),
            },
        ],
        timestamp: 1_700_000_000,
    }
}

#[test]
fn evidence_round_trip() {
    let e = sample_evidence();
    let bytes = encode_evidence(&e);
    let decoded = decode_evidence(&bytes).expect("canonical bytes decode");
    assert_eq!(decoded, e);
    assert_eq!(encode_evidence(&decoded), bytes);
}

#[test]
fn empty_evidence_round_trip() {
    let e = Evidence::empty();
    let bytes = encode_evidence(&e);
    assert_eq!(decode_evidence(&bytes).unwrap(), e);
}

#[test]
fn transaction_round_trip() {
    let t = sample_transaction();
    let bytes = encode_transaction(&t);
    let decoded = decode_transaction(&bytes).expect("canonical bytes decode");
    assert_eq!(decoded, t);
    assert_eq!(encode_transaction(&decoded), bytes);
}

#[test]
fn block_round_trip() {
    let b = sample_block();
    let bytes = encode_block(&b);
    let decoded = decode_block(&bytes).expect("canonical bytes decode");
    assert_eq!(decoded, b);
    assert_eq!(encode_block(&decoded), bytes);
}

#[test]
fn truncated_bytes_are_refused() {
    let e = sample_evidence();
    let mut bytes = encode_evidence(&e);
    bytes.pop();
    assert!(decode_evidence(&bytes).is_none());

    let t = sample_transaction();
    let mut tbytes = encode_transaction(&t);
    tbytes.pop();
    assert!(decode_transaction(&tbytes).is_none());

    let b = sample_block();
    let mut bbytes = encode_block(&b);
    bbytes.pop();
    assert!(decode_block(&bbytes).is_none());
}

#[test]
fn trailing_bytes_are_refused() {
    let e = sample_evidence();
    let mut bytes = encode_evidence(&e);
    bytes.push(0);
    assert!(decode_evidence(&bytes).is_none());
}

/// A buffer whose shard lists overlap decodes to no transaction: only
/// well-formed transactions have canonical bytes.
#[test]
fn overlapping_shard_sets_are_refused() {
    let t = sample_transaction();
    let bytes = encode_transaction(&t);
    // The last shard (outputs' Shard(5), the final 8 bytes) is rewritten
    // to collide with inputs' Shard(1).
    let mut bad = bytes.clone();
    let n = bad.len();
    bad[n - 8] = 1;
    assert!(decode_transaction(&bad).is_none());
}
