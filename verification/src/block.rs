//! Blocks, quorum certificates, votes, and committee views: the data the
//! block-proposal pipeline agrees on, with the validity notions that the
//! safety argument rests on.

use vstd::prelude::*;

use crate::evidence::{Evidence, EvidenceModel};
use crate::types::{clone_plain_vec, BlockId, Decision, Epoch, NodeHeight, TransactionId, ValidatorId};

verus! {

/// One transaction inside a block's command set: its id, the proposing
/// shard group's provisional decision, and the evidence seeded for it.
#[derive(Debug, Clone, PartialEq, Eq)]
pub struct TransactionAtom {
    pub id: TransactionId,
    pub decision: Decision,
    pub evidence: Evidence,
}

/// The mathematical value of a `TransactionAtom`.
#[verifier::ext_equal]
pub struct AtomModel {
    pub id: TransactionId,
    pub decision: Decision,
    pub evidence: EvidenceModel,
}

impl TransactionAtom {
    /// The abstract value of this atom.
    pub open spec fn model(&self) -> AtomModel {
        AtomModel { id: self.id, decision: self.decision, evidence: self.evidence.model() }
    }

    /// An explicit copy with the same fields.
    pub fn clone_atom(&self) -> (r: TransactionAtom)
        ensures
            r.model() =~~= self.model(),
            r.id == self.id,
            r.decision == self.decision,
    {
        TransactionAtom {
            id: self.id,
            decision: self.decision,
            evidence: self.evidence.clone_evidence(),
        }
    }
}

/// The abstract values of a command list.
pub open spec fn atoms_model(atoms: Seq<TransactionAtom>) -> Seq<AtomModel> {
    atoms.map_values(|a: TransactionAtom| a.model())
}

/// An explicit elementwise copy of a command list.
pub fn clone_atoms(atoms: &Vec<TransactionAtom>) -> (r: Vec<TransactionAtom>)
    ensures
        atoms_model(r@) =~~= atoms_model(atoms@),
        r@.len() == atoms@.len(),
        forall|i: int| 0 <= i < r@.len() ==> (#[trigger] r@[i]).id == atoms@[i].id,
{
    let mut out: Vec<TransactionAtom> = Vec::new();
    let mut i: usize = 0;
    while i < atoms.len()
        invariant
            i <= atoms@.len(),
            out@.len() == i,
            forall|j: int|
                0 <= j < i ==> (#[trigger] out@[j]).model() =~~= atoms@[j].model()
                    && out@[j].id == atoms@[j].id,
        decreases atoms@.len() - i,
    {
        out.push(atoms[i].clone_atom());
        i = i + 1;
    }
    out
}

/// Aggregated signatures from a supermajority of committee members over a
/// block id: proof that the block was seen valid by a quorum. The signers
/// stand in for the aggregated signatures; the protocol logic reads only
/// who signed.
#[derive(Debug, Clone, PartialEq, Eq)]
pub struct QuorumCertificate {
    pub block_id: BlockId,
    pub height: NodeHeight,
    pub epoch: Epoch,
    pub signers: Vec<ValidatorId>,
}

/// The mathematical value of a `QuorumCertificate`.
#[verifier::ext_equal]
pub struct QcModel {
    pub block_id: BlockId,
    pub height: NodeHeight,
    pub epoch: Epoch,
    pub signers: Seq<ValidatorId>,
}

impl QuorumCertificate {
    /// The abstract value of this certificate.
    pub open spec fn model(&self) -> QcModel {
        QcModel {
            block_id: self.block_id,
            height: self.height,
            epoch: self.epoch,
            signers: self.signers@,
        }
    }

    /// An explicit copy with the same fields.
    pub fn clone_qc(&self) -> (r: QuorumCertificate)
        ensures
            r.model() == self.model(),
            r.block_id == self.block_id,
            r.height == self.height,
            r.epoch == self.epoch,
            r.signers@ == self.signers@,
    {
        QuorumCertificate {
            block_id: self.block_id,
            height: self.height,
            epoch: self.epoch,
            signers: clone_plain_vec(&self.signers),
        }
    }
}

/// A single validator's vote for a block at a height.
#[derive(Debug, Clone, Copy, PartialEq, Eq, Structural)]
pub struct Vote {
    pub block_id: BlockId,
    pub height: NodeHeight,
    pub epoch: Epoch,
    pub voter: ValidatorId,
}

/// A block of the chain: immutable once hashed, linked to its parent, and
/// justified by a quorum certificate for that parent.
#[derive(Debug, Clone, PartialEq, Eq)]
pub struct Block {
    pub id: BlockId,
    pub parent_id: BlockId,
    pub height: NodeHeight,
    pub epoch: Epoch,
    pub proposer: ValidatorId,
    /// Quorum certificate of the parent block.
    pub justify: QuorumCertificate,
    pub commands: Vec<TransactionAtom>,
    pub timestamp: u64,
}

/// The mathematical value of a `Block`.
#[verifier::ext_equal]
pub struct BlockModel {
    pub id: BlockId,
    pub parent_id: BlockId,
    pub height: NodeHeight,
    pub epoch: Epoch,
    pub proposer: ValidatorId,
    pub justify: QcModel,
    pub commands: Seq<AtomModel>,
    pub timestamp: u64,
}

impl Block {
    /// The abstract value of this block.
    pub open spec fn model(&self) -> BlockModel {
        BlockModel {
            id: self.id,
            parent_id: self.parent_id,
            height: self.height,
            epoch: self.epoch,
            proposer: self.proposer,
            justify: self.justify.model(),
            commands: atoms_model(self.commands@),
            timestamp: self.timestamp,
        }
    }

    /// An explicit copy with the same fields.
    pub fn clone_block(&self) -> (r: Block)
        ensures
            r.model() =~~= self.model(),
            r.id == self.id,
            r.parent_id == self.parent_id,
            r.height == self.height,
            r.epoch == self.epoch,
            r.proposer == self.proposer,
    {
        Block {
            id: self.id,
            parent_id: self.parent_id,
            height: self.height,
            epoch: self.epoch,
            proposer: self.proposer,
            justify: self.justify.clone_qc(),
            commands: clone_atoms(&self.commands),
            timestamp: self.timestamp,
        }
    }
}

/// The committee of one shard group in one epoch: an explicit value passed
/// where membership is needed, never ambient state. `max_failures` is the
/// protocol parameter f: the number of byzantine members tolerated.
#[derive(Debug, Clone, PartialEq, Eq)]
pub struct CommitteeView {
    pub epoch: Epoch,
    pub members: Vec<ValidatorId>,
    pub max_failures: u64,
}

impl CommitteeView {
    /// Members are distinct and number more than three times the tolerated
    /// failures, so that two quorums always share an honest member.
    pub open spec fn wf(&self) -> bool {
        &&& self.members@.no_duplicates()
        &&& self.members@.len() > 3 * self.max_failures
    }

    /// Votes needed for a quorum: all members except the tolerated
    /// failures. With n = 3f + 1 this is the classical 2f + 1.
    pub open spec fn quorum_spec(&self) -> int {
        self.members@.len() - self.max_failures
    }

    pub open spec fn is_member_spec(&self, v: ValidatorId) -> bool {
        self.members@.contains(v)
    }

    /// The leader for a height, rotating deterministically through the
    /// membership.
    pub open spec fn leader_spec(&self, height: NodeHeight) -> ValidatorId
        recommends
            self.members@.len() > 0,
    {
        self.members@[(height.0 as int) % (self.members@.len() as int)]
    }

    pub fn new(epoch: Epoch, members: Vec<ValidatorId>, max_failures: u64) -> (r: CommitteeView)
        requires
            members@.no_duplicates(),
            members@.len() > 3 * max_failures,
        ensures
            r.wf(),
            r.epoch == epoch,
            r.members@ == members@,
            r.max_failures == max_failures,
    {
        CommitteeView { epoch, members, max_failures }
    }

    pub fn quorum_threshold(&self) -> (r: usize)
        requires
            self.wf(),
        ensures
            r == self.quorum_spec(),
    {
        self.members.len() - (self.max_failures as usize)
    }

    pub fn is_member(&self, v: &ValidatorId) -> (r: bool)
        ensures
            r == self.is_member_spec(*v),
    {
        let mut i: usize = 0;
        while i < self.members.len()
            invariant
                i <= self.members@.len(),
                forall|j: int| 0 <= j < i ==> self.members@[j] != *v,
            decreases self.members@.len() - i,
        {
            if self.members[i] == *v {
                return true;
            }
            i = i + 1;
        }
        proof {
            assert(!self.members@.contains(*v));
        }
        false
    }

    /// Selects the leader for (epoch, height) deterministically from the
    /// committee membership and the height.
    pub fn leader_for(&self, height: NodeHeight) -> (r: ValidatorId)
        requires
            self.wf(),
        ensures
            r == self.leader_spec(height),
    {
        let n: u64 = self.members.len() as u64;
        let idx: u64 = height.0 % n;
        self.members[idx as usize]
    }
}

/// Validity of a quorum certificate against a committee: right epoch,
/// distinct signers who are all members, and at least a quorum of them.
pub open spec fn qc_valid_spec(qc: QuorumCertificate, c: CommitteeView) -> bool {
    &&& qc.epoch == c.epoch
    &&& qc.signers@.no_duplicates()
    &&& forall|i: int|
        0 <= i < qc.signers@.len() ==> c.is_member_spec(#[trigger] qc.signers@[i])
    &&& qc.signers@.len() >= c.quorum_spec()
}

/// Checks a quorum certificate against a committee, exactly deciding
/// `qc_valid_spec`.
pub fn check_qc(qc: &QuorumCertificate, c: &CommitteeView) -> (r: bool)
    requires
        c.wf(),
    ensures
        r == qc_valid_spec(*qc, *c),
{
    if qc.epoch.0 != c.epoch.0 {
        return false;
    }
    let n = qc.signers.len();
    let mut i: usize = 0;
    while i < n
        invariant
            n == qc.signers@.len(),
            i <= n,
            forall|a: int, b: int| 0 <= a < b < i ==> qc.signers@[a] != qc.signers@[b],
            forall|a: int| 0 <= a < i ==> c.is_member_spec(#[trigger] qc.signers@[a]),
        decreases n - i,
    {
        if !c.is_member(&qc.signers[i]) {
            return false;
        }
        let mut j: usize = 0;
        while j < i
            invariant
                i < n,
                n == qc.signers@.len(),
                j <= i,
                forall|b: int| 0 <= b < j ==> qc.signers@[b] != qc.signers@[i as int],
            decreases i - j,
        {
            if qc.signers[j] == qc.signers[i] {
                return false;
            }
            j = j + 1;
        }
        proof {
            assert forall|a: int, b: int|
                0 <= a < b < i + 1 implies qc.signers@[a] != qc.signers@[b] by {
                if b == i {
                    assert(qc.signers@[a] != qc.signers@[i as int]);
                }
            }
        }
        i = i + 1;
    }
    if qc.signers.len() < c.quorum_threshold() {
        return false;
    }
    proof {
        assert(qc.signers@.no_duplicates());
    }
    true
}

} // verus!
