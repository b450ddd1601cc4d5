//! The pacemaker's view-change selection and the shard-group range.

use dan_consensus::block::{check_qc, CommitteeView, QuorumCertificate};
use dan_consensus::messaging::HotstuffMessage;
use dan_consensus::pipeline::{build_command_set, select_high_qc, Pacemaker};
use dan_consensus::transaction::{ExecuteResult, ExecutedTransaction, Transaction};
use dan_consensus::types::{
    BlockId, Decision, Epoch, NodeHeight, Shard, ShardGroup, TransactionId, ValidatorId,
};

fn qc(block: u64, height: u64, signers: &[u64]) -> QuorumCertificate {
    QuorumCertificate {
        block_id: BlockId(block),
        height: NodeHeight(height),
        epoch: Epoch(1),
        signers: signers.iter().map(|v| ValidatorId(*v)).collect(),
    }
}

/// The next leader extends from the highest quorum certificate among the
/// received new-view messages.
#[test]
fn high_qc_selection() {
    assert!(select_high_qc(&Vec::new()).is_none());
    let new_views = vec![qc(3, 3, &[0, 1, 2]), qc(5, 5, &[1, 2, 3]), qc(4, 4, &[0, 2, 3])];
    let best = select_high_qc(&new_views).unwrap();
    assert_eq!(best.height, NodeHeight(5));
    assert_eq!(best.block_id, BlockId(5));
}

#[test]
fn qc_validity_checks() {
    let committee = CommitteeView::new(
        Epoch(1),
        vec![ValidatorId(0), ValidatorId(1), ValidatorId(2), ValidatorId(3)],
        1,
    );
    assert!(check_qc(&qc(5, 5, &[0, 1, 2]), &committee));
    // Below quorum.
    assert!(!check_qc(&qc(5, 5, &[0, 1]), &committee));
    // A duplicated signer does not reach the quorum honestly.
    assert!(!check_qc(&qc(5, 5, &[0, 1, 1]), &committee));
    // A non-member signer invalidates the certificate.
    assert!(!check_qc(&qc(5, 5, &[0, 1, 9]), &committee));
    // The wrong epoch invalidates the certificate.
    let mut wrong = qc(5, 5, &[0, 1, 2]);
    wrong.epoch = Epoch(2);
    assert!(!check_qc(&wrong, &committee));
}

#[test]
fn leader_rotates_through_members() {
    let committee = CommitteeView::new(
        Epoch(1),
        vec![ValidatorId(10), ValidatorId(11), ValidatorId(12), ValidatorId(13)],
        1,
    );
    assert_eq!(committee.leader_for(NodeHeight(0)), ValidatorId(10));
    assert_eq!(committee.leader_for(NodeHeight(5)), ValidatorId(11));
    assert_eq!(committee.leader_for(NodeHeight(7)), ValidatorId(13));
    assert_eq!(committee.quorum_threshold(), 3);
    assert!(committee.is_member(&ValidatorId(12)));
    assert!(!committee.is_member(&ValidatorId(9)));
}

#[test]
fn shard_group_range() {
    let group = ShardGroup::new(Shard(4), Shard(7));
    assert!(group.contains(&Shard(4)));
    assert!(group.contains(&Shard(7)));
    assert!(!group.contains(&Shard(3)));
    assert!(!group.contains(&Shard(8)));
    assert_eq!(
        group.shard_iter(),
        vec![Shard(4), Shard(5), Shard(6), Shard(7)]
    );
    let single = ShardGroup::new(Shard(9), Shard(9));
    assert_eq!(single.shard_iter(), vec![Shard(9)]);
}

#[test]
fn pacemaker_advances_monotonically() {
    let mut pm = Pacemaker::new(Epoch(1), NodeHeight(4));
    pm.advance_to(NodeHeight(6));
    assert_eq!(pm.current_height, NodeHeight(6));
    pm.advance_to(NodeHeight(5));
    assert_eq!(pm.current_height, NodeHeight(6));

    let high = qc(6, 6, &[0, 1, 2]);
    match pm.on_timeout(high.clone()) {
        HotstuffMessage::NewView(carried) => assert_eq!(carried, high),
        other => panic!("expected a new-view, got {:?}", other),
    }
}

#[test]
fn command_set_filters_by_shard_group() {
    let group = ShardGroup::new(Shard(0), Shard(3));
    let inside = ExecutedTransaction::new(
        Transaction::new(
            TransactionId(1),
            Vec::new(),
            Vec::new(),
            Vec::new(),
            Vec::new(),
            vec![Shard(2)],
            Vec::new(),
            vec![Shard(9)],
        ),
        ExecuteResult {
            finalize_accepted: true,
            transaction_failure: None,
        },
    );
    let outside = ExecutedTransaction::new(
        Transaction::new(
            TransactionId(2),
            Vec::new(),
            Vec::new(),
            Vec::new(),
            Vec::new(),
            vec![Shard(8)],
            Vec::new(),
            Vec::new(),
        ),
        ExecuteResult {
            finalize_accepted: false,
            transaction_failure: Some(1),
        },
    );
    let rejected_inside = ExecutedTransaction::new(
        Transaction::new(
            TransactionId(3),
            Vec::new(),
            Vec::new(),
            Vec::new(),
            Vec::new(),
            Vec::new(),
            vec![Shard(0)],
            Vec::new(),
        ),
        ExecuteResult {
            finalize_accepted: false,
            transaction_failure: None,
        },
    );
    let commands = build_command_set(&vec![inside, outside, rejected_inside], group);
    assert_eq!(commands.len(), 2);
    assert_eq!(commands[0].id, TransactionId(1));
    assert_eq!(commands[0].decision, Decision::Commit);
    assert_eq!(commands[0].evidence.shards(), vec![Shard(2), Shard(9)]);
    assert_eq!(commands[1].id, TransactionId(3));
    assert_eq!(commands[1].decision, Decision::Abort);
}
