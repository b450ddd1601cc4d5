//! The state store's record operations and the wallet decision logic.

use dan_consensus::confidential::Amount;
use dan_consensus::counters::ForeignReceiveCounters;
use dan_consensus::store::{optional, StateStore, StorageError};
use dan_consensus::transaction::{ExecuteResult, ExecutedTransaction, Instruction, Transaction};
use dan_consensus::types::{LastProposed, NodeHeight, BlockId, Shard, ShardGroup, TransactionId};
use dan_consensus::wallet::{
    build_claim_burn_instructions, build_submit_instructions, collect_detected_inputs,
    key_manager_active_index, referenced_component_addresses, referenced_substates,
    wait_result_step, wait_result_timeout, SubstateRequirement, WaitResultStep, WalletEvent,
};

fn executed(hash: u64, inputs: Vec<Shard>, accepted: bool) -> ExecutedTransaction {
    let t = Transaction::new(
        TransactionId(hash),
        Vec::new(),
        Vec::new(),
        vec![0; 64],
        vec![0; 32],
        inputs,
        Vec::new(),
        Vec::new(),
    );
    ExecutedTransaction::new(
        t,
        ExecuteResult {
            finalize_accepted: accepted,
            transaction_failure: None,
        },
    )
}

#[test]
fn transactions_insert_get_and_optional() {
    let mut store = StateStore::new();
    let rec = executed(1, vec![Shard(1)], true);
    store.transactions_insert(rec).unwrap();

    let found = store.transactions_get(&TransactionId(1)).unwrap();
    assert_eq!(*found.transaction().hash(), TransactionId(1));
    assert_eq!(
        store.transactions_get(&TransactionId(2)),
        Err(StorageError::NotFound)
    );
    assert_eq!(
        optional(store.transactions_get(&TransactionId(2)).map(|t| t.clone_record())),
        Ok(None)
    );

    // A second insert under the same id is refused.
    let dup = executed(1, vec![Shard(9)], false);
    assert_eq!(
        store.transactions_insert(dup),
        Err(StorageError::AlreadyExists)
    );
}

#[test]
fn involved_shards_lookup_skips_absent_ids() {
    let mut store = StateStore::new();
    store
        .transactions_insert(executed(1, vec![Shard(1), Shard(2)], true))
        .unwrap();
    store
        .transactions_insert(executed(2, vec![Shard(7)], true))
        .unwrap();

    let got = store.transactions_involved_shards(&vec![
        TransactionId(2),
        TransactionId(999),
        TransactionId(1),
    ]);
    assert_eq!(got.len(), 2);
    assert_eq!(got[0].0, TransactionId(2));
    assert_eq!(got[0].1, vec![Shard(7)]);
    assert_eq!(got[1].0, TransactionId(1));
    assert_eq!(got[1].1, vec![Shard(1), Shard(2)]);
}

#[test]
fn decisions_follow_the_result() {
    let ok = executed(1, Vec::new(), true);
    assert!(ok.as_decision().is_commit());
    assert!(ok.transaction_decision().is_commit());

    let failed = ExecutedTransaction::new(
        Transaction::new(
            TransactionId(3),
            Vec::new(),
            Vec::new(),
            Vec::new(),
            Vec::new(),
            Vec::new(),
            Vec::new(),
            Vec::new(),
        ),
        ExecuteResult {
            finalize_accepted: false,
            transaction_failure: Some(7),
        },
    );
    assert!(failed.as_decision().is_abort());
    assert!(failed.transaction_decision().is_abort());
}

#[test]
fn initial_evidence_covers_involved_shards() {
    let rec = executed(5, vec![Shard(3), Shard(4)], true);
    let e = rec.to_initial_evidence();
    assert_eq!(e.shards(), vec![Shard(3), Shard(4)]);
    assert!(e.entries.iter().all(|(_, proofs)| proofs.is_empty()));
}

#[test]
fn last_proposed_and_counters_records() {
    let mut store = StateStore::new();
    assert_eq!(LastProposed::get(&store), Err(StorageError::NotFound));
    let lp = LastProposed {
        height: NodeHeight(5),
        block_id: BlockId(5),
    };
    lp.set(&mut store).unwrap();
    assert_eq!(LastProposed::get(&store).unwrap(), lp);

    // Missing counters load as the all-zero default.
    let c = ForeignReceiveCounters::get_or_default(&store);
    assert_eq!(c.get_count(&Shard(0)), 0);

    let mut c2 = ForeignReceiveCounters::new();
    c2.increment_group(ShardGroup::new(Shard(0), Shard(1)));
    c2.save(&mut store).unwrap();
    let loaded = ForeignReceiveCounters::get_or_default(&store);
    assert_eq!(loaded.get_count(&Shard(1)), 1);
}

#[test]
fn wait_result_steps() {
    let waiting_for = TransactionId(9);
    assert_eq!(
        wait_result_step(waiting_for, &WalletEvent::Other),
        WaitResultStep::Continue
    );
    assert_eq!(
        wait_result_step(
            waiting_for,
            &WalletEvent::TransactionFinalized {
                transaction_id: TransactionId(8),
                final_fee: Amount(1),
            }
        ),
        WaitResultStep::Continue
    );
    match wait_result_step(
        waiting_for,
        &WalletEvent::TransactionFinalized {
            transaction_id: waiting_for,
            final_fee: Amount(25),
        },
    ) {
        WaitResultStep::Finish(resp) => {
            assert!(resp.finalized);
            assert_eq!(resp.final_fee, Amount(25));
            assert!(!resp.timed_out);
        }
        other => panic!("expected finish, got {:?}", other),
    }
    match wait_result_step(
        waiting_for,
        &WalletEvent::TransactionInvalid {
            transaction_id: waiting_for,
            final_fee: Amount(0),
        },
    ) {
        WaitResultStep::Finish(resp) => assert!(!resp.finalized),
        other => panic!("expected finish, got {:?}", other),
    }
    let timed = wait_result_timeout(waiting_for);
    assert!(timed.timed_out);
    assert_eq!(timed.final_fee, Amount(0));
}

#[test]
fn referenced_addresses_deduplicated() {
    let instructions = vec![
        Instruction::CallMethod {
            component_address: 7,
            method: b"a".to_vec(),
            args: Vec::new(),
        },
        Instruction::PutLastInstructionOutputOnWorkspace { key: b"k".to_vec() },
        Instruction::CallMethod {
            component_address: 7,
            method: b"b".to_vec(),
            args: Vec::new(),
        },
        Instruction::CallMethod {
            component_address: 9,
            method: b"c".to_vec(),
            args: Vec::new(),
        },
    ];
    assert_eq!(referenced_component_addresses(&instructions), vec![7, 9]);
}

#[test]
fn referenced_substates_union_indexer_findings() {
    let instructions = vec![
        Instruction::CallMethod {
            component_address: 7,
            method: b"a".to_vec(),
            args: Vec::new(),
        },
        Instruction::CallMethod {
            component_address: 9,
            method: b"b".to_vec(),
            args: Vec::new(),
        },
    ];
    // The indexer found substate 7 again, plus 21 and 33, inside literals.
    let indexed = vec![Some(vec![21, 7]), Some(vec![33, 21])];
    let union = referenced_substates(&instructions, &indexed).unwrap();
    assert_eq!(union, vec![7, 9, 21, 33]);

    // No literals handed to the indexer: the direct addresses alone.
    let direct_only = referenced_substates(&instructions, &Vec::new()).unwrap();
    assert_eq!(direct_only, vec![7, 9]);
}

#[test]
fn referenced_substates_fails_when_a_literal_fails() {
    let instructions = vec![Instruction::CallMethod {
        component_address: 7,
        method: b"a".to_vec(),
        args: Vec::new(),
    }];
    let indexed = vec![Some(vec![21]), None];
    assert_eq!(referenced_substates(&instructions, &indexed), None);
}

#[test]
fn detected_inputs_chain_and_unversion() {
    let located = vec![
        SubstateRequirement {
            substate_id: 1,
            version: Some(4),
        },
        SubstateRequirement {
            substate_id: 2,
            version: None,
        },
    ];
    let referenced = vec![5, 6];

    let keep = collect_detected_inputs(&located, &referenced, false);
    assert_eq!(keep.len(), 4);
    assert_eq!(keep[0].version, Some(4));
    assert_eq!(keep[2], SubstateRequirement::unversioned(5));

    let dropped = collect_detected_inputs(&located, &referenced, true);
    assert!(dropped.iter().all(|r| r.version.is_none()));
}

#[test]
fn active_key_index_selection() {
    assert_eq!(key_manager_active_index(&vec![]), None);
    assert_eq!(
        key_manager_active_index(&vec![(3, false), (4, false)]),
        None
    );
    assert_eq!(
        key_manager_active_index(&vec![(3, false), (4, true), (5, true)]),
        Some(4)
    );
}

#[test]
fn submit_instructions_build() {
    let body = vec![Instruction::CallFunction {
        template_address: 1,
        function: b"create".to_vec(),
        args: Vec::new(),
    }];
    let (fee, with_dump) = build_submit_instructions(body.clone(), Some(42), 7, Amount(100));
    assert_eq!(fee.len(), 1);
    match &fee[0] {
        Instruction::CallMethod {
            component_address,
            method,
            ..
        } => {
            assert_eq!(*component_address, 7);
            assert_eq!(method, b"pay_fee");
        }
        other => panic!("expected a fee call, got {:?}", other),
    }
    assert_eq!(with_dump.len(), 3);
    assert_eq!(with_dump[0], body[0]);
    match &with_dump[2] {
        Instruction::CallMethod {
            component_address,
            method,
            ..
        } => {
            assert_eq!(*component_address, 42);
            assert_eq!(method, b"deposit");
        }
        other => panic!("expected a deposit call, got {:?}", other),
    }

    let (_, without_dump) = build_submit_instructions(body.clone(), None, 7, Amount(100));
    assert_eq!(without_dump, body);
}

#[test]
fn claim_burn_instructions_build() {
    let instructions =
        build_claim_burn_instructions(vec![1; 32], vec![2; 64], vec![3; 96], 42);
    assert_eq!(instructions.len(), 3);
    match &instructions[0] {
        Instruction::ClaimBurn {
            commitment_address,
            range_proof,
            proof_of_knowledge,
        } => {
            assert_eq!(commitment_address, &vec![1; 32]);
            assert_eq!(range_proof, &vec![2; 64]);
            assert_eq!(proof_of_knowledge, &vec![3; 96]);
        }
        other => panic!("expected a claim, got {:?}", other),
    }
    match &instructions[1] {
        Instruction::PutLastInstructionOutputOnWorkspace { key } => assert_eq!(key, b"burn"),
        other => panic!("expected a workspace put, got {:?}", other),
    }
    match &instructions[2] {
        Instruction::CallMethod {
            component_address,
            method,
            ..
        } => {
            assert_eq!(*component_address, 42);
            assert_eq!(method, b"deposit_confidential");
        }
        other => panic!("expected a deposit, got {:?}", other),
    }
}
