//! End-to-end scenarios over the block pipeline, the store's commit rule,
//! and the cross-shard evidence engine.

use dan_consensus::block::{Block, CommitteeView, QuorumCertificate, TransactionAtom, Vote};
use dan_consensus::evidence::{Evidence, GlobalDecision, GroupVerdicts};
use dan_consensus::pipeline::{
    propose_block, ProposalAction, ProposalRejectReason, ValidatorState, VoteCollector,
};
use dan_consensus::store::{StateStore, StorageError};
use dan_consensus::types::{
    BlockId, Decision, Epoch, NodeHeight, Shard, ShardGroup, TransactionId, ValidatorId,
};

fn committee4() -> CommitteeView {
    CommitteeView::new(
        Epoch(1),
        vec![ValidatorId(0), ValidatorId(1), ValidatorId(2), ValidatorId(3)],
        1,
    )
}

fn qc(block: BlockId, height: u64, signers: &[u64]) -> QuorumCertificate {
    QuorumCertificate {
        block_id: block,
        height: NodeHeight(height),
        epoch: Epoch(1),
        signers: signers.iter().map(|v| ValidatorId(*v)).collect(),
    }
}

fn block(id: u64, parent: u64, height: u64, proposer: u64, justify: QuorumCertificate) -> Block {
    Block {
        id: BlockId(id),
        parent_id: BlockId(parent),
        height: NodeHeight(height),
        epoch: Epoch(1),
        proposer: ValidatorId(proposer),
        justify,
        commands: Vec::new(),
        timestamp: 0,
    }
}

/// Leader at height 5 proposes B5 on B4's quorum certificate; three of the
/// four members vote; the certificate for B5, with the stored certificates
/// for B3 and B4, commits B3 while B4 and B5 stay pending.
#[test]
fn two_chain_commits_grandparent() {
    let committee = committee4();
    let mut store = StateStore::new();

    // B3 at height 3 is the root here; B4 extends and justifies it.
    let b3 = block(3, 99, 3, 3 % 4, qc(BlockId(99), 2, &[0, 1, 2]));
    let b4 = block(4, 3, 4, 4 % 4, qc(BlockId(3), 3, &[0, 1, 2]));
    store.blocks_insert(b3).unwrap();
    store.blocks_insert(b4.clone()).unwrap();
    store
        .last_proposed_set(&dan_consensus::types::LastProposed {
            height: NodeHeight(4),
            block_id: BlockId(4),
        });

    // The leader for height 5 in a 4-member committee is member 5 % 4 = 1.
    let leader = ValidatorState::new(ValidatorId(1), committee.clone());
    let b5 = propose_block(
        &leader,
        &mut store,
        NodeHeight(5),
        BlockId(4),
        qc(BlockId(4), 4, &[0, 1, 2]),
        Vec::new(),
        BlockId(5),
        1234,
    )
    .expect("leader proposes B5");
    assert_eq!(b5.id, BlockId(5));
    assert_eq!(b5.parent_id, BlockId(4));

    // The equivocation guard records the proposal.
    let lp = store.last_proposed_get().unwrap();
    assert_eq!(lp.height, NodeHeight(5));
    assert_eq!(lp.block_id, BlockId(5));

    // Proposing again at height 5 is refused and changes nothing.
    let again = propose_block(
        &leader,
        &mut store,
        NodeHeight(5),
        BlockId(4),
        qc(BlockId(4), 4, &[0, 1, 2]),
        Vec::new(),
        BlockId(50),
        1235,
    );
    assert!(again.is_err());

    // Three of four members vote for B5 and the certificate forms.
    let mut collector = VoteCollector::new(Epoch(1), NodeHeight(5));
    for voter in [0u64, 1, 2] {
        collector
            .add_vote(
                Vote {
                    block_id: BlockId(5),
                    height: NodeHeight(5),
                    epoch: Epoch(1),
                    voter: ValidatorId(voter),
                },
                &committee,
            )
            .unwrap();
    }
    let qc5 = collector
        .try_form_qc(BlockId(5), &committee)
        .expect("three of four is a quorum");
    assert_eq!(qc5.block_id, BlockId(5));
    assert_eq!(qc5.signers.len(), 3);

    // Two votes are not enough.
    let mut short = VoteCollector::new(Epoch(1), NodeHeight(5));
    for voter in [0u64, 1] {
        short
            .add_vote(
                Vote {
                    block_id: BlockId(5),
                    height: NodeHeight(5),
                    epoch: Epoch(1),
                    voter: ValidatorId(voter),
                },
                &committee,
            )
            .unwrap();
    }
    assert!(short.try_form_qc(BlockId(5), &committee).is_none());

    // B4 and B5 both carry certificates extending B3: B3 commits.
    store.blocks_commit_two_chain(BlockId(3)).unwrap();
    assert!(store.blocks_is_committed(&BlockId(3)).unwrap());
    assert!(!store.blocks_is_committed(&BlockId(4)).unwrap());
    assert!(!store.blocks_is_committed(&BlockId(5)).unwrap());

    // B4 has only one certified extension so far: the rule refuses it.
    assert_eq!(
        store.blocks_commit_two_chain(BlockId(4)),
        Err(StorageError::ChainViolation)
    );
}

/// A validator votes for a valid proposal once and refuses a second
/// proposal at the same height.
#[test]
fn validator_votes_once_per_height() {
    let committee = committee4();
    let mut store = StateStore::new();
    let b4 = block(4, 99, 4, 0, qc(BlockId(99), 3, &[0, 1, 2]));
    store.blocks_insert(b4).unwrap();

    let mut validator = ValidatorState::new(ValidatorId(2), committee.clone());
    let proposal = block(5, 4, 5, 1, qc(BlockId(4), 4, &[0, 1, 2]));
    match validator.on_proposal(&proposal, &store) {
        ProposalAction::CastVote(v) => {
            assert_eq!(v.block_id, BlockId(5));
            assert_eq!(v.height, NodeHeight(5));
            assert_eq!(v.voter, ValidatorId(2));
        }
        other => panic!("expected a vote, got {:?}", other),
    }

    // A second, different proposal at height 5 is rejected outright.
    let rival = block(55, 4, 5, 1, qc(BlockId(4), 4, &[0, 1, 2]));
    match validator.on_proposal(&rival, &store) {
        ProposalAction::Reject(reason) => {
            assert_eq!(reason, ProposalRejectReason::AlreadyVotedAtHeight);
        }
        other => panic!("expected a rejection, got {:?}", other),
    }
}

/// Proposals from the wrong epoch, the wrong leader, or with a bad
/// justification never draw a vote.
#[test]
fn invalid_proposals_rejected() {
    let committee = committee4();
    let store = StateStore::new();
    let mut validator = ValidatorState::new(ValidatorId(0), committee.clone());

    let mut wrong_epoch = block(5, 4, 5, 1, qc(BlockId(4), 4, &[0, 1, 2]));
    wrong_epoch.epoch = Epoch(2);
    assert_eq!(
        validator.on_proposal(&wrong_epoch, &store),
        ProposalAction::Reject(ProposalRejectReason::EpochMismatch)
    );

    let wrong_leader = block(5, 4, 5, 2, qc(BlockId(4), 4, &[0, 1, 2]));
    assert_eq!(
        validator.on_proposal(&wrong_leader, &store),
        ProposalAction::Reject(ProposalRejectReason::NotLeader)
    );

    // Two signers are below the quorum of three.
    let weak_justify = block(5, 4, 5, 1, qc(BlockId(4), 4, &[0, 1]));
    assert_eq!(
        validator.on_proposal(&weak_justify, &store),
        ProposalAction::Reject(ProposalRejectReason::InvalidJustify)
    );

    // A valid certificate for the wrong parent is also refused.
    let wrong_parent = block(5, 4, 5, 1, qc(BlockId(7), 4, &[0, 1, 2]));
    assert_eq!(
        validator.on_proposal(&wrong_parent, &store),
        ProposalAction::Reject(ProposalRejectReason::InvalidJustify)
    );
}

/// A proposal referencing transactions the store does not hold asks for
/// them instead of voting.
#[test]
fn missing_transactions_requested() {
    let committee = committee4();
    let store = StateStore::new();
    let mut validator = ValidatorState::new(ValidatorId(0), committee.clone());

    let mut proposal = block(5, 4, 5, 1, qc(BlockId(4), 4, &[0, 1, 2]));
    proposal.commands.push(TransactionAtom {
        id: TransactionId(77),
        decision: Decision::Commit,
        evidence: Evidence::empty(),
    });
    match validator.on_proposal(&proposal, &store) {
        ProposalAction::RequestMissing(ids) => assert_eq!(ids, vec![TransactionId(77)]),
        other => panic!("expected a request, got {:?}", other),
    }
}

/// Transaction T involves groups G1 and G2. After G1 reports commit the
/// global decision is pending; after G2 reports abort it is abort.
#[test]
fn cross_shard_pending_then_abort() {
    let g1 = ShardGroup::new(Shard(0), Shard(3));
    let g2 = ShardGroup::new(Shard(4), Shard(7));
    let mut verdicts = GroupVerdicts::new(vec![g1, g2]);
    assert_eq!(verdicts.global_decision(), GlobalDecision::Pending);

    verdicts.record(g1, Decision::Commit).unwrap();
    assert_eq!(verdicts.global_decision(), GlobalDecision::Pending);

    verdicts.record(g2, Decision::Abort).unwrap();
    assert_eq!(
        verdicts.global_decision(),
        GlobalDecision::Decided(Decision::Abort)
    );
}
