//! The block-proposal pipeline: leader proposal with the equivocation
//! guard, proposal validation, the vote-once-per-height discipline, vote
//! aggregation into quorum certificates, and the pacemaker's new-view
//! selection.

use vstd::prelude::*;

use crate::block::{qc_valid_spec, Block, CommitteeView, QuorumCertificate, TransactionAtom, Vote};
use crate::messaging::HotstuffMessage;
use crate::store::{StateStore, StorageError};
use crate::transaction::ExecutedTransaction;
use crate::types::{BlockId, Epoch, LastProposed, NodeHeight, ShardGroup, ValidatorId};

verus! {

/// Why a proposal was not voted for.
#[derive(Debug, Clone, Copy, PartialEq, Eq, Structural)]
pub enum ProposalRejectReason {
    /// The proposal's epoch is not this node's current epoch.
    EpochMismatch,
    /// The proposer is not the leader for the proposal's height.
    NotLeader,
    /// The justifying quorum certificate is invalid or does not certify
    /// the parent.
    InvalidJustify,
    /// This validator already voted at this height or above.
    AlreadyVotedAtHeight,
}

/// What a validator does with an incoming proposal.
#[derive(Debug, Clone, PartialEq, Eq)]
pub enum ProposalAction {
    /// The proposal is valid and new: vote for it.
    CastVote(Vote),
    /// Referenced transactions are unknown: request them before voting.
    RequestMissing(Vec<crate::types::TransactionId>),
    /// The proposal is rejected outright.
    Reject(ProposalRejectReason),
}

/// One validator's consensus state for one shard group: its identity, the
/// committee it belongs to, and the highest height it has voted at.
#[derive(Debug, Clone, PartialEq, Eq)]
pub struct ValidatorState {
    pub id: ValidatorId,
    pub epoch: Epoch,
    pub committee: CommitteeView,
    pub last_voted_height: Option<NodeHeight>,
}

/// The height a validator has voted up to, as an integer with -1 for
/// "never voted".
pub open spec fn voted_watermark(s: ValidatorState) -> int {
    match s.last_voted_height {
        Some(h) => h.0 as int,
        None => -1,
    }
}

/// One observable step of the voting discipline: either a vote above the
/// old watermark was cast and the watermark rose to its height, or no
/// vote was cast and the watermark is unchanged.
pub open spec fn vote_step(pre: ValidatorState, post: ValidatorState, emitted: Option<Vote>) -> bool {
    match emitted {
        Some(v) => v.height.0 > voted_watermark(pre) && post.last_voted_height == Some(v.height)
            && v.voter == pre.id,
        None => post.last_voted_height == pre.last_voted_height,
    }
}

impl ValidatorState {
    pub open spec fn wf(&self) -> bool {
        &&& self.committee.wf()
        &&& self.committee.epoch == self.epoch
    }

    pub fn new(id: ValidatorId, committee: CommitteeView) -> (r: ValidatorState)
        requires
            committee.wf(),
        ensures
            r.wf(),
            r.id == id,
            r.epoch == committee.epoch,
            r.committee == committee,
            r.last_voted_height is None,
    {
        let epoch = committee.epoch;
        ValidatorState { id, epoch, committee, last_voted_height: None }
    }

    /// Handles an incoming proposal: reject messages from another epoch or
    /// a wrong leader, reject an invalid justification, request any
    /// referenced transactions the store does not hold, and otherwise vote
    /// exactly when the height is above the voting watermark — never
    /// voting twice at one height.
    pub fn on_proposal(&mut self, block: &Block, store: &StateStore) -> (r: ProposalAction)
        requires
            old(self).wf(),
            store.wf(),
        ensures
            final(self).wf(),
            final(self).id == old(self).id,
            final(self).epoch == old(self).epoch,
            final(self).committee == old(self).committee,
            r == ProposalAction::Reject(ProposalRejectReason::EpochMismatch) <==> block.epoch
                != old(self).epoch,
            block.epoch == old(self).epoch ==> (r == ProposalAction::Reject(
                ProposalRejectReason::NotLeader,
            ) <==> block.proposer != old(self).committee.leader_spec(block.height)),
            (block.epoch == old(self).epoch && block.proposer == old(self).committee.leader_spec(
                block.height,
            )) ==> (r == ProposalAction::Reject(ProposalRejectReason::InvalidJustify) <==> !(
            qc_valid_spec(block.justify, old(self).committee) && block.justify.block_id
                == block.parent_id)),
            (match r {
                ProposalAction::RequestMissing(missing) => missing@.len() > 0 && (forall|k: int|
                    0 <= k < missing@.len() ==> block.commands@.map_values(
                        |a: TransactionAtom| a.id,
                    ).contains(#[trigger] missing@[k]) && !store.has_transaction_spec(
                        missing@[k],
                    )) && (forall|k: int|
                    0 <= k < block.commands@.len() && !store.has_transaction_spec(
                        (#[trigger] block.commands@[k]).id,
                    ) ==> missing@.contains(block.commands@[k].id)),
                _ => true,
            }),
            (match r {
                ProposalAction::CastVote(v) => v.block_id == block.id && v.height == block.height
                    && v.epoch == block.epoch && v.voter == old(self).id && (block.epoch == old(
                    self,
                ).epoch && block.proposer == old(self).committee.leader_spec(block.height)
                    && qc_valid_spec(block.justify, old(self).committee) && block.justify.block_id
                    == block.parent_id && block.height.0 > voted_watermark(*old(self)) && forall|
                    k: int,
                |
                    0 <= k < block.commands@.len() ==> store.has_transaction_spec(
                        (#[trigger] block.commands@[k]).id,
                    )),
                _ => true,
            }),
            r == ProposalAction::Reject(ProposalRejectReason::AlreadyVotedAtHeight)
                ==> block.height.0 <= voted_watermark(*old(self)),
            (block.epoch == old(self).epoch && block.proposer == old(self).committee.leader_spec(
                block.height,
            ) && qc_valid_spec(block.justify, old(self).committee) && block.justify.block_id
                == block.parent_id) ==> (r is RequestMissing <==> exists|k: int|
                0 <= k < block.commands@.len() && !store.has_transaction_spec(
                    (#[trigger] block.commands@[k]).id,
                )),
            (block.epoch == old(self).epoch && block.proposer == old(self).committee.leader_spec(
                block.height,
            ) && qc_valid_spec(block.justify, old(self).committee) && block.justify.block_id
                == block.parent_id && (forall|k: int|
                0 <= k < block.commands@.len() ==> store.has_transaction_spec(
                    (#[trigger] block.commands@[k]).id,
                ))) ==> (r is CastVote <==> block.height.0 > voted_watermark(*old(self))),
            vote_step(*old(self), *final(self), (match r {
                ProposalAction::CastVote(v) => Some(v),
                _ => None,
            })),
    {
        if block.epoch.0 != self.epoch.0 {
            return ProposalAction::Reject(ProposalRejectReason::EpochMismatch);
        }
        let leader = self.committee.leader_for(block.height);
        if block.proposer.0 != leader.0 {
            proof {
                assert(block.proposer != self.committee.leader_spec(block.height));
            }
            return ProposalAction::Reject(ProposalRejectReason::NotLeader);
        }
        if !crate::block::check_qc(&block.justify, &self.committee)
            || block.justify.block_id.0 != block.parent_id.0 {
            return ProposalAction::Reject(ProposalRejectReason::InvalidJustify);
        }
        let mut missing: Vec<crate::types::TransactionId> = Vec::new();
        let mut k: usize = 0;
        while k < block.commands.len()
            invariant
                store.wf(),
                k <= block.commands@.len(),
                forall|a: int|
                    0 <= a < missing@.len() ==> block.commands@.map_values(
                        |a2: TransactionAtom| a2.id,
                    ).contains(#[trigger] missing@[a]) && !store.has_transaction_spec(
                        missing@[a],
                    ),
                forall|a: int|
                    0 <= a < k && !store.has_transaction_spec(
                        (#[trigger] block.commands@[a]).id,
                    ) ==> missing@.contains(block.commands@[a].id),
            decreases block.commands@.len() - k,
        {
            let id = block.commands[k].id;
            let ghost pre_missing = missing@;
            if store.transactions_get(&id).is_err() {
                missing.push(id);
                proof {
                    let n = missing@.len() as int;
                    assert(block.commands@.map_values(|a2: TransactionAtom| a2.id)[k as int]
                        == block.commands@[k as int].id);
                    assert(block.commands@.map_values(|a2: TransactionAtom| a2.id).contains(
                        missing@[n - 1],
                    ));
                    assert(missing@[n - 1] == block.commands@[k as int].id);
                    assert forall|a: int|
                        0 <= a < k + 1 && !store.has_transaction_spec(
                            (#[trigger] block.commands@[a]).id,
                        ) implies missing@.contains(block.commands@[a].id) by {
                        if a < k {
                            let t = choose|t: int|
                                0 <= t < pre_missing.len() && pre_missing[t]
                                    == block.commands@[a].id;
                            assert(missing@[t] == block.commands@[a].id);
                        } else {
                            assert(missing@[n - 1] == block.commands@[a].id);
                        }
                    }
                }
            }
            k = k + 1;
        }
        if missing.len() > 0 {
            proof {
                let id0 = missing@[0];
                let mapped = block.commands@.map_values(|a2: TransactionAtom| a2.id);
                assert(mapped.contains(id0));
                let w = choose|w: int| 0 <= w < mapped.len() && mapped[w] == id0;
                assert(block.commands@[w].id == id0);
                assert(!store.has_transaction_spec(block.commands@[w].id));
            }
            return ProposalAction::RequestMissing(missing);
        }
        let above = match &self.last_voted_height {
            Some(h) => block.height.0 > h.0,
            None => true,
        };
        if !above {
            return ProposalAction::Reject(ProposalRejectReason::AlreadyVotedAtHeight);
        }
        self.last_voted_height = Some(block.height);
        ProposalAction::CastVote(
            Vote { block_id: block.id, height: block.height, epoch: block.epoch, voter: self.id },
        )
    }
}

/// No double-vote, over any run. If every step of a validator's history
/// obeys `vote_step` — which `on_proposal` guarantees — then no two votes
/// it ever cast share a height: the heights of its votes are strictly
/// increasing in the order they were cast.
///
/// `states` is the trace of validator states and `emitted[k]` the vote (if
/// any) cast in step `k`, taking `states[k]` to `states[k + 1]`.
pub proof fn theorem_no_double_vote(states: Seq<ValidatorState>, emitted: Seq<Option<Vote>>)
    requires
        states.len() == emitted.len() + 1,
        forall|k: int|
            0 <= k < emitted.len() ==> vote_step(states[k], #[trigger] states[k + 1], emitted[k]),
    ensures
        forall|k: int, l: int|
            0 <= k < l < emitted.len() && emitted[k] is Some && emitted[l] is Some
                ==> (#[trigger] emitted[k]).unwrap().height.0 < (
                #[trigger] emitted[l]).unwrap().height.0,
        forall|k: int, l: int|
            0 <= k < emitted.len() && 0 <= l < emitted.len() && k != l && emitted[k] is Some
                && emitted[l] is Some ==> (#[trigger] emitted[k]).unwrap().height != (
                #[trigger] emitted[l]).unwrap().height,
{
    assert forall|k: int|
        0 <= k < emitted.len() && emitted[k] is Some
        implies (#[trigger] emitted[k]).unwrap().height.0 == voted_watermark(states[k + 1]) by {
        assert(vote_step(states[k], states[k + 1], emitted[k]));
    }
    assert forall|i: int, j: int|
        0 <= i <= j < states.len() implies voted_watermark(#[trigger] states[i])
        <= voted_watermark(#[trigger] states[j]) by {
        lemma_watermark_monotonic(states, emitted, i, j);
    }
    assert forall|k: int, l: int|
        0 <= k < l < emitted.len() && emitted[k] is Some && emitted[l] is Some
        implies (#[trigger] emitted[k]).unwrap().height.0 < (
        #[trigger] emitted[l]).unwrap().height.0 by {
        assert(vote_step(states[l], states[l + 1], emitted[l]));
        assert(emitted[l].unwrap().height.0 > voted_watermark(states[l]));
        assert(voted_watermark(states[k + 1]) <= voted_watermark(states[l]));
    }
}

proof fn lemma_watermark_monotonic(
    states: Seq<ValidatorState>,
    emitted: Seq<Option<Vote>>,
    i: int,
    j: int,
)
    requires
        states.len() == emitted.len() + 1,
        forall|k: int|
            0 <= k < emitted.len() ==> vote_step(states[k], #[trigger] states[k + 1], emitted[k]),
        0 <= i <= j < states.len(),
    ensures
        voted_watermark(states[i]) <= voted_watermark(states[j]),
    decreases j - i,
{
    if i < j {
        lemma_watermark_monotonic(states, emitted, i, j - 1);
        let k = j - 1;
        assert(vote_step(states[k], states[k + 1], emitted[k]));
    }
}

/// Why a vote was not accepted by the collector.
#[derive(Debug, Clone, Copy, PartialEq, Eq, Structural)]
pub enum VoteError {
    /// The vote is for another height than this collector aggregates.
    WrongHeight,
    /// The vote is for another epoch than this collector aggregates.
    WrongEpoch,
    /// The voter is not a member of the committee.
    NotCommitteeMember,
    /// The voter already voted for a different block at this height.
    EquivocatingVote,
}

/// Aggregates the votes of one height into a quorum certificate. Owned
/// exclusively by the block pipeline task for its shard group; it is
/// in-memory bookkeeping, never the system of record.
#[derive(Debug, Clone, PartialEq, Eq)]
pub struct VoteCollector {
    pub epoch: Epoch,
    pub height: NodeHeight,
    pub votes: Vec<Vote>,
}

impl VoteCollector {
    pub open spec fn wf(&self) -> bool {
        &&& forall|i: int|
            0 <= i < self.votes@.len() ==> (#[trigger] self.votes@[i]).height == self.height
                && self.votes@[i].epoch == self.epoch
        &&& forall|i: int, j: int|
            0 <= i < j < self.votes@.len() ==> self.votes@[i].voter != self.votes@[j].voter
    }

    pub open spec fn has_vote_from(&self, v: ValidatorId) -> bool {
        exists|i: int| 0 <= i < self.votes@.len() && self.votes@[i].voter == v
    }

    /// The voter already voted here for a different block.
    pub open spec fn equivocates_spec(&self, vote: Vote) -> bool {
        exists|i: int|
            0 <= i < self.votes@.len() && (#[trigger] self.votes@[i]).voter == vote.voter
                && self.votes@[i].block_id != vote.block_id
    }

    /// The votes cast for one block id.
    pub open spec fn votes_for_spec(&self, block_id: BlockId) -> Set<ValidatorId> {
        self.votes@.filter(|v: Vote| v.block_id == block_id).map_values(
            |v: Vote| v.voter,
        ).to_set()
    }

    /// `v` cast a recorded vote for `block_id`.
    pub open spec fn voted_for(&self, v: ValidatorId, block_id: BlockId) -> bool {
        exists|i: int|
            0 <= i < self.votes@.len() && (#[trigger] self.votes@[i]).voter == v
                && self.votes@[i].block_id == block_id
    }

    pub fn new(epoch: Epoch, height: NodeHeight) -> (r: VoteCollector)
        ensures
            r.wf(),
            r.epoch == epoch,
            r.height == height,
            r.votes@.len() == 0,
    {
        VoteCollector { epoch, height, votes: Vec::new() }
    }

    /// Records one vote. A vote for the wrong height or epoch, from a
    /// non-member, or conflicting with the voter's earlier vote for a
    /// different block is refused; re-delivery of an identical vote is
    /// accepted and changes nothing.
    pub fn add_vote(&mut self, vote: Vote, committee: &CommitteeView) -> (r: Result<
        (),
        VoteError,
    >)
        requires
            old(self).wf(),
            committee.wf(),
            committee.epoch == old(self).epoch,
        ensures
            final(self).wf(),
            final(self).epoch == old(self).epoch,
            final(self).height == old(self).height,
            r == Err::<(), VoteError>(VoteError::WrongHeight) <==> vote.height != old(self).height,
            vote.height == old(self).height ==> (r == Err::<(), VoteError>(VoteError::WrongEpoch)
                <==> vote.epoch != old(self).epoch),
            (vote.height == old(self).height && vote.epoch == old(self).epoch) ==> (r == Err::<
                (),
                VoteError,
            >(VoteError::NotCommitteeMember) <==> !committee.is_member_spec(vote.voter)),
            (vote.height == old(self).height && vote.epoch == old(self).epoch
                && committee.is_member_spec(vote.voter)) ==> (r == Err::<(), VoteError>(
                VoteError::EquivocatingVote,
            ) <==> old(self).equivocates_spec(vote)),
            r is Ok ==> (final(self).votes@ == old(self).votes@ || final(self).votes@ == old(
                self,
            ).votes@.push(vote)),
            r is Ok ==> exists|i: int|
                0 <= i < final(self).votes@.len() && final(self).votes@[i] == vote,
            r is Err ==> final(self).votes@ == old(self).votes@,
    {
        if vote.height.0 != self.height.0 {
            return Err(VoteError::WrongHeight);
        }
        if vote.epoch.0 != self.epoch.0 {
            return Err(VoteError::WrongEpoch);
        }
        if !committee.is_member(&vote.voter) {
            return Err(VoteError::NotCommitteeMember);
        }
        let ghost pre = self.votes@;
        let mut i: usize = 0;
        while i < self.votes.len()
            invariant
                self.votes@ == pre,
                self.wf(),
                vote.height == self.height,
                vote.epoch == self.epoch,
                committee.is_member_spec(vote.voter),
                i <= pre.len(),
                forall|j: int| 0 <= j < i ==> pre[j].voter != vote.voter,
            decreases pre.len() - i,
        {
            if self.votes[i].voter.0 == vote.voter.0 {
                if self.votes[i].block_id.0 == vote.block_id.0 {
                    proof {
                        assert(self.votes@[i as int].height == self.height);
                        assert(self.votes@[i as int].epoch == self.epoch);
                        assert(self.votes@[i as int] == vote);
                        assert forall|t: int|
                            0 <= t < self.votes@.len() && (#[trigger] self.votes@[t]).voter
                                == vote.voter implies self.votes@[t].block_id == vote.block_id by {
                            if t != i {
                                assert(self.votes@[t].voter != self.votes@[i as int].voter);
                            }
                        }
                        assert(!self.equivocates_spec(vote));
                    }
                    return Ok(());
                } else {
                    proof {
                        assert(self.votes@[i as int].voter == vote.voter
                            && self.votes@[i as int].block_id != vote.block_id);
                    }
                    return Err(VoteError::EquivocatingVote);
                }
            }
            i = i + 1;
        }
        proof {
            assert(!self.equivocates_spec(vote));
        }
        self.votes.push(vote);
        proof {
            let n = self.votes@.len() as int;
            assert(self.votes@[n - 1] == vote);
            assert forall|a: int, b: int|
                0 <= a < b < n implies self.votes@[a].voter != self.votes@[b].voter by {
                if b < n - 1 {
                    assert(self.votes@[a] == pre[a]);
                    assert(self.votes@[b] == pre[b]);
                } else {
                    assert(self.votes@[a] == pre[a]);
                }
            }
        }
        Ok(())
    }

    /// Forms a quorum certificate for `block_id` when at least a quorum of
    /// committee members voted for it. The certificate returned is valid
    /// against the committee; `None` exactly when the votes for that block
    /// fall short of the quorum.
    pub fn try_form_qc(&self, block_id: BlockId, committee: &CommitteeView) -> (r: Option<
        QuorumCertificate,
    >)
        requires
            self.wf(),
            committee.wf(),
            committee.epoch == self.epoch,
            forall|i: int|
                0 <= i < self.votes@.len() ==> committee.is_member_spec(
                    (#[trigger] self.votes@[i]).voter,
                ),
        ensures
            match r {
                Some(qc) => qc_valid_spec(qc, *committee) && qc.block_id == block_id && qc.height
                    == self.height && qc.epoch == self.epoch && forall|k: int|
                    0 <= k < qc.signers@.len() ==> self.voted_for(
                        #[trigger] qc.signers@[k],
                        block_id,
                    ),
                None => self.votes@.filter(|v: Vote| v.block_id == block_id).len()
                    < committee.quorum_spec(),
            },
    {
        let mut signers: Vec<ValidatorId> = Vec::new();
        let ghost mut picked: Seq<int> = Seq::empty();
        let mut i: usize = 0;
        proof {
            assert(self.votes@.take(0) =~= Seq::<Vote>::empty());
            assert(self.votes@.take(0).filter(|v: Vote| v.block_id == block_id) =~= Seq::<
                Vote,
            >::empty()) by {
                reveal_with_fuel(Seq::filter, 1);
            }
        }
        while i < self.votes.len()
            invariant
                self.wf(),
                i <= self.votes@.len(),
                forall|a: int|
                    0 <= a < self.votes@.len() ==> committee.is_member_spec(
                        (#[trigger] self.votes@[a]).voter,
                    ),
                signers@ == self.votes@.take(i as int).filter(
                    |v: Vote| v.block_id == block_id,
                ).map_values(|v: Vote| v.voter),
                picked.len() == signers@.len(),
                forall|k: int|
                    0 <= k < picked.len() ==> 0 <= #[trigger] picked[k] < i
                        && self.votes@[picked[k]].voter == signers@[k]
                        && self.votes@[picked[k]].block_id == block_id,
                forall|k: int, l: int| 0 <= k < l < picked.len() ==> picked[k] < picked[l],
            decreases self.votes@.len() - i,
        {
            proof {
                assert(self.votes@.take(i as int + 1).drop_last() =~= self.votes@.take(i as int));
                assert(self.votes@.take(i as int + 1).last() == self.votes@[i as int]);
                reveal_with_fuel(Seq::filter, 2);
            }
            if self.votes[i].block_id.0 == block_id.0 {
                signers.push(self.votes[i].voter);
                proof {
                    picked = picked.push(i as int);
                    let n = signers@.len() as int;
                    assert(self.votes@[i as int].voter == signers@[n - 1]
                        && self.votes@[i as int].block_id == block_id);
                }
            }
            i = i + 1;
        }
        proof {
            assert(self.votes@.take(self.votes@.len() as int) =~= self.votes@);
        }
        if signers.len() >= committee.quorum_threshold() {
            proof {
                assert forall|a: int, b: int|
                    0 <= a < b < signers@.len() implies signers@[a] != signers@[b] by {
                    assert(picked[a] < picked[b]);
                    assert(self.votes@[picked[a]].voter != self.votes@[picked[b]].voter);
                }
                assert(signers@.no_duplicates());
                assert forall|k: int|
                    0 <= k < signers@.len() implies self.voted_for(
                    #[trigger] signers@[k],
                    block_id,
                ) by {
                    assert(self.votes@[picked[k]].voter == signers@[k]
                        && self.votes@[picked[k]].block_id == block_id);
                }
            }
            Some(
                QuorumCertificate {
                    block_id,
                    height: self.height,
                    epoch: self.epoch,
                    signers,
                },
            )
        } else {
            None
        }
    }
}

/// The leader's proposal step. Builds a block at the given height on the
/// highest known quorum-certified parent, unless this node has already
/// proposed at that height or above: the equivocation guard. The call
/// succeeds exactly when the guard passes and the store accepts the
/// block — its id fresh, its parent distinct, any stored parent strictly
/// below it and any stored child strictly above it and uncommitted — and
/// then the block is stored and the last-proposed marker advanced.
pub fn propose_block(
    state: &ValidatorState,
    store: &mut StateStore,
    height: NodeHeight,
    parent_id: BlockId,
    justify: QuorumCertificate,
    commands: Vec<TransactionAtom>,
    new_block_id: BlockId,
    timestamp: u64,
) -> (r: Result<Block, StorageError>)
    requires
        state.wf(),
        old(store).wf(),
    ensures
        final(store).wf(),
        match old(store).last_proposed {
            Some(lp) => lp.height.0 >= height.0 ==> (r is Err && *final(store) == *old(store)),
            None => true,
        },
        r is Ok <==> ((match old(store).last_proposed {
            Some(lp) => lp.height.0 < height.0,
            None => true,
        }) && !old(store).has_block_spec(new_block_id) && parent_id != new_block_id && (forall|
            j: int,
        |
            0 <= j < old(store).blocks@.len() && (#[trigger] old(store).blocks@[j]).block.id
                == parent_id ==> old(store).blocks@[j].block.height.0 < height.0) && (forall|
            j: int,
        |
            0 <= j < old(store).blocks@.len() && (#[trigger] old(store).blocks@[j]).block.parent_id
                == new_block_id ==> (old(store).blocks@[j].block.height.0 > height.0 && !old(
                store,
            ).blocks@[j].committed))),
        r is Ok ==> final(store).last_proposed == Some(
            LastProposed { height, block_id: new_block_id },
        ),
        r is Ok ==> {
            let b = r.unwrap();
            b.id == new_block_id && b.parent_id == parent_id && b.height == height && b.epoch
                == state.epoch && b.proposer == state.id && b.justify == justify
                && final(store).has_block_spec(new_block_id)
        },
        r is Err ==> final(store).blocks@ == old(store).blocks@ && final(store).transactions@
            == old(store).transactions@ && final(store).last_proposed == old(
            store,
        ).last_proposed && final(store).counters == old(store).counters,
{
    match &store.last_proposed {
        Some(lp) => {
            if lp.height.0 >= height.0 {
                return Err(StorageError::AlreadyExists);
            }
        },
        None => {},
    }
    let block = Block {
        id: new_block_id,
        parent_id,
        height,
        epoch: state.epoch,
        proposer: state.id,
        justify,
        commands,
        timestamp,
    };
    let block_for_store = Block {
        id: block.id,
        parent_id: block.parent_id,
        height: block.height,
        epoch: block.epoch,
        proposer: block.proposer,
        justify: block.justify.clone_qc(),
        commands: crate::block::clone_atoms(&block.commands),
        timestamp: block.timestamp,
    };
    match store.blocks_insert(block_for_store) {
        Ok(()) => {
            proof {
                let n = store.blocks@.len() as int;
                assert(store.blocks@[n - 1].block.id == new_block_id);
            }
            let lp = LastProposed { height, block_id: new_block_id };
            match lp.set(store) {
                Ok(()) => {
                    proof {
                        let n = store.blocks@.len() as int;
                        assert(store.blocks@[n - 1].block.id == new_block_id);
                    }
                    Ok(block)
                },
                Err(e) => Err(e),
            }
        },
        Err(e) => Err(e),
    }
}

/// The pacemaker's view-change selection: among the quorum certificates
/// carried by new-view messages, the one for the greatest height. The
/// next leader extends the chain from it. `None` exactly when no new-view
/// was received.
pub fn select_high_qc(new_views: &Vec<QuorumCertificate>) -> (r: Option<&QuorumCertificate>)
    ensures
        match r {
            Some(qc) => exists|i: int|
                0 <= i < new_views@.len() && *qc == new_views@[i] && forall|j: int|
                    0 <= j < new_views@.len() ==> (#[trigger] new_views@[j]).height.0
                        <= qc.height.0,
            None => new_views@.len() == 0,
        },
{
    if new_views.len() == 0 {
        return None;
    }
    let mut best: usize = 0;
    let mut i: usize = 1;
    while i < new_views.len()
        invariant
            new_views@.len() > 0,
            best < i,
            i <= new_views@.len(),
            forall|j: int|
                0 <= j < i ==> (#[trigger] new_views@[j]).height.0
                    <= new_views@[best as int].height.0,
        decreases new_views@.len() - i,
    {
        if new_views[i].height.0 > new_views[best].height.0 {
            best = i;
        }
        i = i + 1;
    }
    Some(&new_views[best])
}

/// The transaction touches at least one shard of the group.
pub open spec fn overlaps_group(t: crate::transaction::Transaction, group: ShardGroup) -> bool {
    exists|i: int|
        0 <= i < t.involved_shards_spec().len() && group.contains_spec(
            (#[trigger] t.involved_shards_spec()[i]).0,
        )
}

/// `atom` is the command the leader derives from `rec`: the transaction's
/// id, the provisional decision from its execution result, and evidence
/// seeding every involved shard with an empty proof list.
pub open spec fn command_for(rec: ExecutedTransaction, atom: TransactionAtom) -> bool {
    &&& atom.id == rec.transaction_spec().hash_spec()
    &&& (atom.decision == crate::types::Decision::Commit <==> rec.result_spec().finalize_accepted)
    &&& atom.evidence.wf()
    &&& atom.evidence.entries@.len() == rec.transaction_spec().involved_shards_spec().len()
    &&& forall|i: int|
        0 <= i < atom.evidence.entries@.len() ==> (#[trigger] atom.evidence.entries@[i]).0
            == rec.transaction_spec().involved_shards_spec()[i]
            && atom.evidence.entries@[i].1@.len() == 0
}

/// The atom is derived from some pool transaction that touches the group.
pub open spec fn command_from_pool(
    executed: Seq<ExecutedTransaction>,
    group: ShardGroup,
    atom: TransactionAtom,
) -> bool {
    exists|i: int|
        0 <= i < executed.len() && overlaps_group(
            (#[trigger] executed[i]).transaction_spec(),
            group,
        ) && command_for(executed[i], atom)
}

/// The atoms are exactly the commands of the pool entries touching the
/// group, one atom per entry, in pool order: `picked` lists the selected
/// pool indices, strictly increasing, covering every touching entry, and
/// `atoms[k]` is the command derived from entry `picked[k]`.
pub open spec fn command_selection(
    executed: Seq<ExecutedTransaction>,
    group: ShardGroup,
    picked: Seq<int>,
    atoms: Seq<TransactionAtom>,
) -> bool {
    &&& picked.len() == atoms.len()
    &&& forall|k: int|
        0 <= k < picked.len() ==> 0 <= #[trigger] picked[k] < executed.len() && overlaps_group(
            executed[picked[k]].transaction_spec(),
            group,
        ) && command_for(executed[picked[k]], atoms[k])
    &&& forall|k: int, l: int| 0 <= k < l < picked.len() ==> picked[k] < picked[l]
    &&& forall|a: int|
        0 <= a < executed.len() && overlaps_group(
            (#[trigger] executed[a]).transaction_spec(),
            group,
        ) ==> picked.contains(a)
}

/// The leader's command set: from the executed transactions the pool
/// supplied, exactly those touching this shard group, each paired with its
/// provisional decision and seeded evidence, in pool order.
pub fn build_command_set(executed: &Vec<ExecutedTransaction>, group: ShardGroup) -> (r: Vec<
    TransactionAtom,
>)
    requires
        forall|i: int| 0 <= i < executed@.len() ==> (#[trigger] executed@[i]).wf(),
    ensures
        exists|picked: Seq<int>| command_selection(executed@, group, picked, r@),
        forall|k: int|
            0 <= k < r@.len() ==> command_from_pool(executed@, group, #[trigger] r@[k]),
        forall|i: int|
            0 <= i < executed@.len() && overlaps_group(
                (#[trigger] executed@[i]).transaction_spec(),
                group,
            ) ==> exists|k: int|
                0 <= k < r@.len() && r@[k].id == executed@[i].transaction_spec().hash_spec(),
{
    let mut out: Vec<TransactionAtom> = Vec::new();
    let ghost mut picked: Seq<int> = Seq::empty();
    let mut i: usize = 0;
    while i < executed.len()
        invariant
            i <= executed@.len(),
            forall|a: int| 0 <= a < executed@.len() ==> (#[trigger] executed@[a]).wf(),
            picked.len() == out@.len(),
            forall|k: int|
                0 <= k < out@.len() ==> 0 <= #[trigger] picked[k] < i && overlaps_group(
                    executed@[picked[k]].transaction_spec(),
                    group,
                ) && command_for(executed@[picked[k]], out@[k]),
            forall|k: int, l: int| 0 <= k < l < picked.len() ==> picked[k] < picked[l],
            forall|a: int|
                0 <= a < i && overlaps_group(
                    (#[trigger] executed@[a]).transaction_spec(),
                    group,
                ) ==> picked.contains(a),
            forall|a: int|
                0 <= a < i && overlaps_group(
                    (#[trigger] executed@[a]).transaction_spec(),
                    group,
                ) ==> exists|k: int|
                    0 <= k < out@.len() && out@[k].id
                        == executed@[a].transaction_spec().hash_spec(),
        decreases executed@.len() - i,
    {
        let rec = &executed[i];
        let shards = rec.transaction().involved_shards_iter();
        let mut touches = false;
        let mut t: usize = 0;
        while !touches && t < shards.len()
            invariant
                shards@ == executed@[i as int].transaction_spec().involved_shards_spec(),
                i < executed@.len(),
                t <= shards@.len(),
                touches ==> overlaps_group(executed@[i as int].transaction_spec(), group),
                !touches ==> forall|u: int|
                    0 <= u < t ==> !group.contains_spec((#[trigger] shards@[u]).0),
            decreases shards@.len() - t, (if touches {
                0int
            } else {
                1int
            }),
        {
            if group.contains(&shards[t]) {
                touches = true;
            } else {
                t = t + 1;
            }
        }
        let ghost old_out = out@;
        if touches {
            let atom = TransactionAtom {
                id: *rec.transaction().hash(),
                decision: rec.as_decision(),
                evidence: rec.to_initial_evidence(),
            };
            proof {
                let rec_g = executed@[i as int];
                assert(atom.id == rec_g.transaction_spec().hash_spec());
                assert(atom.evidence.wf());
                assert(atom.evidence.entries@.len()
                    == rec_g.transaction_spec().involved_shards_spec().len());
                assert forall|t2: int|
                    0 <= t2 < atom.evidence.entries@.len() implies (
                #[trigger] atom.evidence.entries@[t2]).0
                    == rec_g.transaction_spec().involved_shards_spec()[t2]
                    && atom.evidence.entries@[t2].1@.len() == 0 by {
                    assert(atom.evidence.entries@[t2].0
                        == rec_g.transaction_spec().involved_shards_spec()[t2]);
                }
                assert(command_for(rec_g, atom));
            }
            out.push(atom);
            proof {
                let old_picked = picked;
                picked = picked.push(i as int);
                let n = out@.len() as int;
                assert(picked[n - 1] == i as int);
                assert forall|a: int|
                    0 <= a < i + 1 && overlaps_group(
                        (#[trigger] executed@[a]).transaction_spec(),
                        group,
                    ) implies picked.contains(a) by {
                    if a < i {
                        let t = choose|t: int| 0 <= t < old_picked.len() && old_picked[t] == a;
                        assert(picked[t] == a);
                    } else {
                        assert(picked[n - 1] == a);
                    }
                }
                assert(out@[n - 1].id == executed@[i as int].transaction_spec().hash_spec());
                assert forall|a: int|
                    0 <= a < i + 1 && overlaps_group(
                        (#[trigger] executed@[a]).transaction_spec(),
                        group,
                    ) implies exists|k: int|
                        0 <= k < out@.len() && out@[k].id
                            == executed@[a].transaction_spec().hash_spec() by {
                    if a < i {
                        let k = choose|k: int|
                            0 <= k < old_out.len() && old_out[k].id
                                == executed@[a].transaction_spec().hash_spec();
                        assert(out@[k] == old_out[k]);
                    } else {
                        assert(out@[n - 1].id == executed@[a].transaction_spec().hash_spec());
                    }
                }
            }
        } else {
            proof {
                assert(!overlaps_group(executed@[i as int].transaction_spec(), group));
            }
        }
        i = i + 1;
    }
    proof {
        assert forall|k: int|
            0 <= k < out@.len() implies command_from_pool(
            executed@,
            group,
            #[trigger] out@[k],
        ) by {
            assert(overlaps_group(executed@[picked[k]].transaction_spec(), group)
                && command_for(executed@[picked[k]], out@[k]));
        }
        assert(command_selection(executed@, group, picked, out@));
    }
    out
}

/// The per-height liveness clock. On a timeout without a quorum
/// certificate the node broadcasts a new-view message carrying its highest
/// known certificate; the height only ever advances.
pub struct Pacemaker {
    pub epoch: Epoch,
    pub current_height: NodeHeight,
}

impl Pacemaker {
    pub fn new(epoch: Epoch, start: NodeHeight) -> (r: Pacemaker)
        ensures
            r.epoch == epoch,
            r.current_height == start,
    {
        Pacemaker { epoch, current_height: start }
    }

    /// Moves to a later height after progress or a view change; a stale
    /// height never moves the clock back.
    pub fn advance_to(&mut self, height: NodeHeight)
        ensures
            final(self).epoch == old(self).epoch,
            final(self).current_height.0 == (if height.0 > old(self).current_height.0 {
                height.0
            } else {
                old(self).current_height.0
            }),
    {
        if height.0 > self.current_height.0 {
            self.current_height = height;
        }
    }

    /// The new-view message broadcast when the current height times out
    /// without a certificate: it carries this node's highest known one.
    pub fn on_timeout(&self, high_qc: QuorumCertificate) -> (r: HotstuffMessage)
        ensures
            r == HotstuffMessage::NewView(high_qc),
    {
        HotstuffMessage::NewView(high_qc)
    }
}

} // verus!
