//! The safety argument of the voting protocol: two valid quorum
//! certificates at one height certify the same block, because two quorums
//! of a committee always intersect in an honest member, and an honest
//! member votes for at most one block per height.

use vstd::prelude::*;
use vstd::set_lib::lemma_len_subset;

use crate::block::{qc_valid_spec, CommitteeView, QuorumCertificate};
use crate::types::{BlockId, ValidatorId};

verus! {

/// Exact inclusion-exclusion for finite sets: the sizes of two sets sum to
/// the size of their union plus the size of their intersection.
pub proof fn lemma_inclusion_exclusion<A>(a: Set<A>, b: Set<A>)
    requires
        a.finite(),
        b.finite(),
    ensures
        a.len() + b.len() == a.union(b).len() + a.intersect(b).len(),
    decreases a.len(),
{
    if a.len() == 0 {
        assert(a.union(b) =~= b);
        assert(a.intersect(b) =~= Set::<A>::empty());
    } else {
        let x = a.choose();
        let a1 = a.remove(x);
        lemma_inclusion_exclusion(a1, b);
        if b.contains(x) {
            assert(a.union(b) =~= a1.union(b));
            assert(a.intersect(b) =~= a1.intersect(b).insert(x));
            assert(!a1.intersect(b).contains(x));
        } else {
            assert(a.union(b) =~= a1.union(b).insert(x));
            assert(!a1.union(b).contains(x));
            assert(a.intersect(b) =~= a1.intersect(b));
        }
    }
}

/// Two quorums of one well-formed committee share more members than the
/// committee's tolerated failures.
pub proof fn lemma_quorum_intersection(
    c: CommitteeView,
    s1: Set<ValidatorId>,
    s2: Set<ValidatorId>,
)
    requires
        c.wf(),
        s1.subset_of(c.members@.to_set()),
        s2.subset_of(c.members@.to_set()),
        s1.finite(),
        s2.finite(),
        s1.len() >= c.quorum_spec(),
        s2.len() >= c.quorum_spec(),
    ensures
        s1.intersect(s2).len() > c.max_failures,
{
    let m = c.members@.to_set();
    c.members@.unique_seq_to_set();
    assert(m.len() == c.members@.len());
    lemma_inclusion_exclusion(s1, s2);
    assert(s1.union(s2).subset_of(m));
    lemma_len_subset(s1.union(s2), m);
}

/// Safety of quorum certification. If two quorum certificates at the same
/// height are both valid against one well-formed committee, at most
/// `max_failures` committee members are byzantine, and every honest signer
/// signs only the one block it voted for at that height, then the two
/// certificates certify the same block: no two conflicting blocks can both
/// gather a valid quorum certificate at one height.
///
/// `voted` gives, for each honest validator, the block it voted for at the
/// height in question (if it voted at all); the no-double-vote discipline
/// of `ValidatorState` guarantees such a single block exists.
pub proof fn theorem_one_qc_per_height(
    c: CommitteeView,
    qc1: QuorumCertificate,
    qc2: QuorumCertificate,
    byzantine: Set<ValidatorId>,
    voted: spec_fn(ValidatorId) -> Option<BlockId>,
)
    requires
        c.wf(),
        qc_valid_spec(qc1, c),
        qc_valid_spec(qc2, c),
        qc1.height == qc2.height,
        byzantine.finite(),
        byzantine.len() <= c.max_failures,
        forall|v: ValidatorId|
            qc1.signers@.contains(v) && !byzantine.contains(v) ==> voted(v) == Some(qc1.block_id),
        forall|v: ValidatorId|
            qc2.signers@.contains(v) && !byzantine.contains(v) ==> voted(v) == Some(qc2.block_id),
    ensures
        qc1.block_id == qc2.block_id,
{
    let s1 = qc1.signers@.to_set();
    let s2 = qc2.signers@.to_set();
    qc1.signers@.unique_seq_to_set();
    qc2.signers@.unique_seq_to_set();
    assert forall|v: ValidatorId| s1.contains(v) implies c.members@.to_set().contains(v) by {
        let i = choose|i: int| 0 <= i < qc1.signers@.len() && qc1.signers@[i] == v;
        assert(c.is_member_spec(qc1.signers@[i]));
    }
    assert forall|v: ValidatorId| s2.contains(v) implies c.members@.to_set().contains(v) by {
        let i = choose|i: int| 0 <= i < qc2.signers@.len() && qc2.signers@[i] == v;
        assert(c.is_member_spec(qc2.signers@[i]));
    }
    lemma_quorum_intersection(c, s1, s2);
    let both = s1.intersect(s2);
    if both.subset_of(byzantine) {
        lemma_len_subset(both, byzantine);
        assert(false);
    }
    let honest = choose|v: ValidatorId| both.contains(v) && !byzantine.contains(v);
    assert(qc1.signers@.contains(honest));
    assert(qc2.signers@.contains(honest));
    assert(voted(honest) == Some(qc1.block_id));
    assert(voted(honest) == Some(qc2.block_id));
}

} // verus!
