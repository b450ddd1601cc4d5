//! Core identifiers and domain values of the sharded consensus protocol:
//! epochs, heights, shards and shard groups, block and transaction ids,
//! and the binary commit/abort decision.

use vstd::prelude::*;

verus! {

/// Monotonic era counter. Shard-group membership and committee composition
/// are fixed within an epoch.
#[derive(Debug, Clone, Copy, PartialEq, Eq, Structural, Hash)]
pub struct Epoch(pub u64);

/// Monotonically increasing block height within a chain, used for leader
/// rotation and liveness timeouts.
#[derive(Debug, Clone, Copy, PartialEq, Eq, Structural, Hash)]
pub struct NodeHeight(pub u64);

/// The address-space partition unit; every piece of ledger state maps to
/// exactly one shard.
#[derive(Debug, Clone, Copy, PartialEq, Eq, Structural, Hash)]
pub struct Shard(pub u32);

/// Identifies a committee member. Stands in for the member's public key:
/// the protocol logic reads nothing of a key but its identity.
#[derive(Debug, Clone, Copy, PartialEq, Eq, Structural, Hash)]
pub struct ValidatorId(pub u64);

/// Identifies a block. Stands in for the 32-byte content hash of the block:
/// the protocol logic reads nothing of the hash but its identity.
#[derive(Debug, Clone, Copy, PartialEq, Eq, Structural, Hash)]
pub struct BlockId(pub u64);

/// Identifies a transaction, standing in for its content hash in the same
/// way as `BlockId`.
#[derive(Debug, Clone, Copy, PartialEq, Eq, Structural, Hash)]
pub struct TransactionId(pub u64);

/// A contiguous range of shards forming one BFT committee for an epoch.
#[derive(Debug, Clone, Copy, PartialEq, Eq, Structural, Hash)]
pub struct ShardGroup {
    pub start: Shard,
    pub end_inclusive: Shard,
}

impl ShardGroup {
    /// A shard group is a non-empty contiguous range.
    pub open spec fn wf(self) -> bool {
        self.start.0 <= self.end_inclusive.0
    }

    /// Whether the given shard falls in this group's range.
    pub open spec fn contains_spec(self, shard: u32) -> bool {
        self.start.0 <= shard <= self.end_inclusive.0
    }

    /// Number of shards in the group.
    pub open spec fn len_spec(self) -> int {
        self.end_inclusive.0 - self.start.0 + 1
    }

    pub fn new(start: Shard, end_inclusive: Shard) -> (r: ShardGroup)
        requires
            start.0 <= end_inclusive.0,
        ensures
            r.wf(),
            r.start == start,
            r.end_inclusive == end_inclusive,
    {
        ShardGroup { start, end_inclusive }
    }

    pub fn contains(&self, shard: &Shard) -> (r: bool)
        ensures
            r == self.contains_spec(shard.0),
    {
        self.start.0 <= shard.0 && shard.0 <= self.end_inclusive.0
    }

    /// The member shards of the group, in ascending order.
    pub fn shard_iter(&self) -> (r: Vec<Shard>)
        requires
            self.wf(),
        ensures
            r@.len() == self.len_spec(),
            forall|i: int| 0 <= i < r@.len() ==> r@[i].0 == self.start.0 + i,
            forall|i: int| 0 <= i < r@.len() ==> self.contains_spec(r@[i].0),
            forall|s: u32| self.contains_spec(s) ==> r@.contains(Shard(s)),
    {
        let mut shards: Vec<Shard> = Vec::new();
        let n: u64 = (self.end_inclusive.0 - self.start.0) as u64 + 1;
        let mut i: u64 = 0;
        while i < n
            invariant
                n == self.len_spec(),
                n <= u32::MAX as u64 + 1,
                i <= n,
                shards@.len() == i,
                forall|j: int| 0 <= j < shards@.len() ==> shards@[j].0 == self.start.0 + j,
            decreases n - i,
        {
            shards.push(Shard(self.start.0 + (i as u32)));
            i = i + 1;
        }
        proof {
            assert forall|t: u32| self.contains_spec(t) implies shards@.contains(Shard(t)) by {
                let j = t - self.start.0;
                assert(shards@[j] == Shard(t));
            }
        }
        shards
    }
}

/// An explicit elementwise copy of a vector of plain values.
pub fn clone_plain_vec<T: Copy>(v: &Vec<T>) -> (r: Vec<T>)
    ensures
        r@ == v@,
{
    let mut out: Vec<T> = Vec::new();
    let mut i: usize = 0;
    while i < v.len()
        invariant
            i <= v@.len(),
            out@ == v@.take(i as int),
        decreases v@.len() - i,
    {
        out.push(v[i]);
        i = i + 1;
    }
    proof {
        assert(v@.take(v@.len() as int) =~= v@);
    }
    out
}

/// The binary outcome assigned to a transaction. `Commit` is the optimistic
/// leaning but must be unanimous across all involved shard groups.
#[derive(Debug, Clone, Copy, PartialEq, Eq, Structural, Hash)]
pub enum Decision {
    Commit,
    Abort,
}

impl Decision {
    pub fn is_commit(&self) -> (r: bool)
        ensures
            r == (*self == Decision::Commit),
    {
        match self {
            Decision::Commit => true,
            Decision::Abort => false,
        }
    }

    pub fn is_abort(&self) -> (r: bool)
        ensures
            r == (*self == Decision::Abort),
    {
        match self {
            Decision::Commit => false,
            Decision::Abort => true,
        }
    }

}

/// Record of the highest block this node has proposed; prevents a leader
/// from proposing twice at the same height.
#[derive(Debug, Clone, Copy, PartialEq, Eq, Structural)]
pub struct LastProposed {
    pub height: NodeHeight,
    pub block_id: BlockId,
}

} // verus!
