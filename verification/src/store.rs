//! The state store: the single system of record for blocks, transactions,
//! the last-proposed marker and the foreign-receive counters. Reads
//! distinguish a missing record from other conditions so callers can apply
//! optional semantics. Every mutating operation validates before it
//! writes, so a failed call leaves the store unchanged: each call is
//! atomic, all of its changes persist or none do.

use vstd::prelude::*;

use crate::block::Block;
use crate::counters::ForeignReceiveCounters;
use crate::transaction::ExecutedTransaction;
use crate::types::{BlockId, LastProposed, Shard, TransactionId};

verus! {

/// A storage failure. A lookup that finds no record reports `NotFound`,
/// distinguished from the other conditions so callers can treat a missing
/// record as an absent value.
#[derive(Debug, Clone, Copy, PartialEq, Eq, Structural)]
pub enum StorageError {
    /// The requested record does not exist.
    NotFound,
    /// An insert would overwrite an existing record.
    AlreadyExists,
    /// A write would break the chain discipline: parent links, the height
    /// order, or the commit rule.
    ChainViolation,
}

/// Maps `NotFound` to an absent value, so a missing record is not an
/// error for lookups with optional semantics.
pub fn optional<T>(r: Result<T, StorageError>) -> (out: Result<Option<T>, StorageError>)
    ensures
        match r {
            Ok(t) => out == Ok::<Option<T>, StorageError>(Some(t)),
            Err(e) => if e == StorageError::NotFound {
                out == Ok::<Option<T>, StorageError>(None::<T>)
            } else {
                out == Err::<Option<T>, StorageError>(e)
            },
        },
{
    match r {
        Ok(t) => Ok(Some(t)),
        Err(e) => match e {
            StorageError::NotFound => Ok(None),
            _ => Err(e),
        },
    }
}

/// A stored block together with its commit status.
#[derive(Debug, Clone, PartialEq, Eq)]
pub struct BlockRecord {
    pub block: Block,
    pub committed: bool,
}

/// The durable state of one shard group's consensus.
#[derive(Debug, Clone)]
pub struct StateStore {
    pub blocks: Vec<BlockRecord>,
    pub transactions: Vec<ExecutedTransaction>,
    pub last_proposed: Option<LastProposed>,
    pub counters: Option<ForeignReceiveCounters>,
}

impl StateStore {
    /// Block ids are unique.
    pub open spec fn block_ids_unique(&self) -> bool {
        forall|i: int, j: int|
            0 <= i < j < self.blocks@.len() ==> self.blocks@[i].block.id
                != self.blocks@[j].block.id
    }

    /// Heights strictly decrease from child to parent, so parent links are
    /// acyclic.
    pub open spec fn heights_decrease(&self) -> bool {
        forall|i: int, j: int|
            0 <= i < self.blocks@.len() && 0 <= j < self.blocks@.len()
                && #[trigger] self.blocks@[j].block.id == #[trigger] self.blocks@[i].block.parent_id
                ==> self.blocks@[j].block.height.0 < self.blocks@[i].block.height.0
    }

    /// The committed set is closed under ancestry: a committed block's
    /// stored parent is committed.
    pub open spec fn committed_closed(&self) -> bool {
        forall|i: int, j: int|
            0 <= i < self.blocks@.len() && 0 <= j < self.blocks@.len()
                && (#[trigger] self.blocks@[i]).committed
                && (#[trigger] self.blocks@[j]).block.id == self.blocks@[i].block.parent_id
                ==> self.blocks@[j].committed
    }

    pub open spec fn transaction_ids_unique(&self) -> bool {
        forall|i: int, j: int|
            0 <= i < j < self.transactions@.len()
                ==> self.transactions@[i].transaction_spec().hash_spec()
                != self.transactions@[j].transaction_spec().hash_spec()
    }

    pub open spec fn wf(&self) -> bool {
        &&& self.block_ids_unique()
        &&& self.heights_decrease()
        &&& self.committed_closed()
        &&& self.transaction_ids_unique()
        &&& match self.counters {
            Some(c) => c.wf(),
            None => true,
        }
    }

    pub open spec fn has_block_spec(&self, id: BlockId) -> bool {
        exists|i: int| 0 <= i < self.blocks@.len() && self.blocks@[i].block.id == id
    }

    pub open spec fn block_index_spec(&self, id: BlockId) -> int {
        choose|i: int| 0 <= i < self.blocks@.len() && self.blocks@[i].block.id == id
    }

    /// The store holds exactly this record value.
    pub open spec fn stores_record(&self, t: ExecutedTransaction) -> bool {
        exists|i: int| 0 <= i < self.transactions@.len() && self.transactions@[i] == t
    }

    /// The pair gives a stored transaction's id and its involved shards.
    pub open spec fn names_involved_shards(&self, e: (TransactionId, Seq<Shard>)) -> bool {
        exists|i: int|
            0 <= i < self.transactions@.len()
                && (#[trigger] self.transactions@[i]).transaction_spec().hash_spec() == e.0
                && e.1 == self.transactions@[i].transaction_spec().involved_shards_spec()
    }

    pub open spec fn has_transaction_spec(&self, id: TransactionId) -> bool {
        exists|i: int|
            0 <= i < self.transactions@.len()
                && self.transactions@[i].transaction_spec().hash_spec() == id
    }

    /// `anc` is reachable from `desc` by following at most `k` parent
    /// links through stored blocks (a block is its own ancestor).
    pub open spec fn ancestor_within(&self, anc: BlockId, desc: BlockId, k: nat) -> bool
        decreases k,
    {
        anc == desc || (k > 0 && exists|i: int|
            0 <= i < self.blocks@.len() && (#[trigger] self.blocks@[i].block).id == desc
                && self.ancestor_within(anc, self.blocks@[i].block.parent_id, (k - 1) as nat))
    }

    pub open spec fn is_ancestor_spec(&self, anc: BlockId, desc: BlockId) -> bool {
        exists|k: nat| self.ancestor_within(anc, desc, k)
    }

    /// The two-chain commit rule holds for stored block `b`: some stored
    /// child of `b` carries a quorum certificate for `b`, and some stored
    /// child of that child carries a quorum certificate for it, each one
    /// height up.
    pub open spec fn two_chain_spec(&self, b: Block) -> bool {
        exists|i: int|
            0 <= i < self.blocks@.len() && #[trigger] child_extends(self.blocks@[i].block, b)
                && exists|j: int|
                0 <= j < self.blocks@.len() && #[trigger] child_extends(
                    self.blocks@[j].block,
                    self.blocks@[i].block,
                )
    }

    pub fn new() -> (r: StateStore)
        ensures
            r.wf(),
            r.blocks@.len() == 0,
            r.transactions@.len() == 0,
            r.last_proposed is None,
            r.counters is None,
    {
        StateStore {
            blocks: Vec::new(),
            transactions: Vec::new(),
            last_proposed: None,
            counters: None,
        }
    }

    fn find_block_index(&self, id: &BlockId) -> (r: Option<usize>)
        ensures
            match r {
                Some(i) => i < self.blocks@.len() && self.blocks@[i as int].block.id == *id,
                None => !self.has_block_spec(*id),
            },
    {
        let mut i: usize = 0;
        while i < self.blocks.len()
            invariant
                i <= self.blocks@.len(),
                forall|j: int| 0 <= j < i ==> self.blocks@[j].block.id != *id,
            decreases self.blocks@.len() - i,
        {
            if self.blocks[i].block.id.0 == id.0 {
                return Some(i);
            }
            i = i + 1;
        }
        None
    }

    fn find_transaction_index(&self, id: &TransactionId) -> (r: Option<usize>)
        ensures
            match r {
                Some(i) => i < self.transactions@.len()
                    && self.transactions@[i as int].transaction_spec().hash_spec() == *id,
                None => !self.has_transaction_spec(*id),
            },
    {
        let mut i: usize = 0;
        while i < self.transactions.len()
            invariant
                i <= self.transactions@.len(),
                forall|j: int|
                    0 <= j < i ==> self.transactions@[j].transaction_spec().hash_spec() != *id,
            decreases self.transactions@.len() - i,
        {
            if self.transactions[i].transaction().hash().0 == id.0 {
                return Some(i);
            }
            i = i + 1;
        }
        None
    }

    /// Persists an executed transaction; refuses to overwrite one with the
    /// same id.
    pub fn transactions_insert(&mut self, t: ExecutedTransaction) -> (r: Result<
        (),
        StorageError,
    >)
        requires
            old(self).wf(),
        ensures
            final(self).wf(),
            r == Ok::<(), StorageError>(()) <==> !old(self).has_transaction_spec(
                t.transaction_spec().hash_spec(),
            ),
            r == Err::<(), StorageError>(StorageError::AlreadyExists) <==> old(
                self,
            ).has_transaction_spec(t.transaction_spec().hash_spec()),
            r is Ok ==> final(self).transactions@ == old(self).transactions@.push(t),
            r is Err ==> final(self).transactions@ == old(self).transactions@,
            final(self).blocks@ == old(self).blocks@,
            final(self).last_proposed == old(self).last_proposed,
            final(self).counters == old(self).counters,
    {
        let id = *t.transaction().hash();
        match self.find_transaction_index(&id) {
            Some(_) => {
                proof {
                    assert(old(self).has_transaction_spec(t.transaction_spec().hash_spec()));
                }
                Err(StorageError::AlreadyExists)
            },
            None => {
                let ghost pre = self.transactions@;
                self.transactions.push(t);
                proof {
                    assert forall|i: int, j: int|
                        0 <= i < j < self.transactions@.len()
                            implies self.transactions@[i].transaction_spec().hash_spec()
                            != self.transactions@[j].transaction_spec().hash_spec() by {
                        if j < pre.len() {
                            assert(self.transactions@[i] == pre[i]);
                            assert(self.transactions@[j] == pre[j]);
                        } else {
                            assert(self.transactions@[i] == pre[i]);
                        }
                    }
                }
                Ok(())
            },
        }
    }

    /// Looks up an executed transaction; `NotFound` exactly when no record
    /// with that id exists.
    pub fn transactions_get(&self, id: &TransactionId) -> (r: Result<
        &ExecutedTransaction,
        StorageError,
    >)
        requires
            self.wf(),
        ensures
            match r {
                Ok(t) => self.has_transaction_spec(*id) && t.transaction_spec().hash_spec() == *id
                    && exists|i: int|
                    0 <= i < self.transactions@.len() && self.transactions@[i] == *t,
                Err(e) => e == StorageError::NotFound && !self.has_transaction_spec(*id),
            },
    {
        match self.find_transaction_index(id) {
            Some(i) => Ok(&self.transactions[i]),
            None => Err(StorageError::NotFound),
        }
    }

    /// Looks up many transactions at once, returning the records of those
    /// ids that exist, in request order; absent ids are skipped.
    pub fn transactions_get_many<'a>(&'a self, ids: &Vec<TransactionId>) -> (r: Vec<
        &'a ExecutedTransaction,
    >)
        requires
            self.wf(),
        ensures
            r@.len() <= ids@.len(),
            forall|k: int|
                0 <= k < r@.len() ==> ids@.contains(
                    #[trigger] r@[k].transaction_spec().hash_spec(),
                ),
            forall|k: int| 0 <= k < r@.len() ==> self.stores_record(*(#[trigger] r@[k])),
            forall|k: int|
                0 <= k < ids@.len() && self.has_transaction_spec(#[trigger] ids@[k]) ==> exists|
                    t: int,
                |
                    0 <= t < r@.len() && r@[t].transaction_spec().hash_spec() == ids@[k],
    {
        let mut out: Vec<&ExecutedTransaction> = Vec::new();
        let ghost mut idxs: Seq<int> = Seq::empty();
        let mut k: usize = 0;
        while k < ids.len()
            invariant
                self.wf(),
                k <= ids@.len(),
                out@.len() <= k,
                idxs.len() == out@.len(),
                forall|a: int|
                    0 <= a < out@.len() ==> 0 <= #[trigger] idxs[a] < self.transactions@.len()
                        && self.transactions@[idxs[a]] == *out@[a],
                forall|a: int|
                    0 <= a < out@.len() ==> ids@.contains(
                        #[trigger] out@[a].transaction_spec().hash_spec(),
                    ),
                forall|a: int|
                    0 <= a < k && self.has_transaction_spec(#[trigger] ids@[a]) ==> exists|t: int|
                        0 <= t < out@.len() && out@[t].transaction_spec().hash_spec() == ids@[a],
            decreases ids@.len() - k,
        {
            let ghost old_out = out@;
            match self.find_transaction_index(&ids[k]) {
                Some(i) => {
                    out.push(&self.transactions[i]);
                    proof {
                        idxs = idxs.push(i as int);
                        let n = out@.len() as int;
                        assert(out@[n - 1] == &self.transactions@[i as int]);
                        assert(out@[n - 1].transaction_spec().hash_spec() == ids@[k as int]);
                        assert(ids@.contains(out@[n - 1].transaction_spec().hash_spec()));
                        assert forall|a: int|
                            0 <= a < k + 1 && self.has_transaction_spec(#[trigger] ids@[a])
                            implies exists|t: int|
                                0 <= t < out@.len() && out@[t].transaction_spec().hash_spec()
                                    == ids@[a] by {
                            if a < k {
                                let t = choose|t: int|
                                    0 <= t < old_out.len()
                                        && old_out[t].transaction_spec().hash_spec() == ids@[a];
                                assert(out@[t] == old_out[t]);
                                assert(out@[t].transaction_spec().hash_spec() == ids@[a]);
                            } else {
                                assert(out@[n - 1].transaction_spec().hash_spec() == ids@[a]);
                            }
                        }
                    }
                },
                None => {},
            }
            k = k + 1;
        }
        proof {
            assert forall|k2: int| 0 <= k2 < out@.len() implies self.stores_record(
                *(#[trigger] out@[k2]),
            ) by {
                assert(self.transactions@[idxs[k2]] == *out@[k2]);
            }
        }
        out
    }

    /// The involved shards of each of the given transactions that exist in
    /// the store, keyed by transaction id; absent ids are skipped.
    pub fn transactions_involved_shards(&self, ids: &Vec<TransactionId>) -> (r: Vec<
        (TransactionId, Vec<Shard>),
    >)
        requires
            self.wf(),
        ensures
            forall|k: int|
                0 <= k < r@.len() ==> ids@.contains(#[trigger] r@[k].0)
                    && self.has_transaction_spec(r@[k].0),
            forall|k: int|
                0 <= k < ids@.len() && self.has_transaction_spec(#[trigger] ids@[k]) ==> exists|
                    t: int,
                |
                    0 <= t < r@.len() && r@[t].0 == ids@[k],
            forall|k: int|
                0 <= k < r@.len() ==> self.names_involved_shards(
                    ((#[trigger] r@[k]).0, r@[k].1@),
                ),
    {
        let mut out: Vec<(TransactionId, Vec<Shard>)> = Vec::new();
        let ghost mut idxs: Seq<int> = Seq::empty();
        let mut k: usize = 0;
        while k < ids.len()
            invariant
                self.wf(),
                k <= ids@.len(),
                out@.len() <= k,
                idxs.len() == out@.len(),
                forall|a: int|
                    0 <= a < out@.len() ==> 0 <= #[trigger] idxs[a] < self.transactions@.len()
                        && self.transactions@[idxs[a]].transaction_spec().hash_spec() == out@[a].0
                        && out@[a].1@
                        == self.transactions@[idxs[a]].transaction_spec().involved_shards_spec(),
                forall|a: int|
                    0 <= a < out@.len() ==> ids@.contains(#[trigger] out@[a].0),
                forall|a: int|
                    0 <= a < k && self.has_transaction_spec(#[trigger] ids@[a]) ==> exists|t: int|
                        0 <= t < out@.len() && out@[t].0 == ids@[a],
            decreases ids@.len() - k,
        {
            let ghost old_out = out@;
            match self.find_transaction_index(&ids[k]) {
                Some(i) => {
                    let shards = self.transactions[i].transaction().involved_shards_iter();
                    out.push((ids[k], shards));
                    proof {
                        idxs = idxs.push(i as int);
                        let n = out@.len() as int;
                        assert(out@[n - 1].0 == ids@[k as int]);
                        assert(ids@.contains(out@[n - 1].0));
                        assert forall|a: int|
                            0 <= a < k + 1 && self.has_transaction_spec(#[trigger] ids@[a])
                            implies exists|t: int|
                                0 <= t < out@.len() && out@[t].0 == ids@[a] by {
                            if a < k {
                                let t = choose|t: int|
                                    0 <= t < old_out.len() && old_out[t].0 == ids@[a];
                                assert(out@[t] == old_out[t]);
                            } else {
                                assert(out@[n - 1].0 == ids@[a]);
                            }
                        }
                    }
                },
                None => {},
            }
            k = k + 1;
        }
        proof {
            assert forall|k2: int|
                0 <= k2 < out@.len() implies ids@.contains(#[trigger] out@[k2].0)
                && self.has_transaction_spec(out@[k2].0) by {
                assert(self.transactions@[idxs[k2]].transaction_spec().hash_spec()
                    == out@[k2].0);
            }
            assert forall|k2: int| 0 <= k2 < out@.len() implies self.names_involved_shards(
                ((#[trigger] out@[k2]).0, out@[k2].1@),
            ) by {
                assert(0 <= idxs[k2] < self.transactions@.len()
                    && self.transactions@[idxs[k2]].transaction_spec().hash_spec() == out@[k2].0
                    && out@[k2].1@
                    == self.transactions@[idxs[k2]].transaction_spec().involved_shards_spec());
            }
        }
        out
    }

    /// The highest block this node has proposed; `NotFound` exactly when
    /// none was recorded yet.
    pub fn last_proposed_get(&self) -> (r: Result<LastProposed, StorageError>)
        ensures
            match r {
                Ok(lp) => self.last_proposed == Some(lp),
                Err(e) => e == StorageError::NotFound && self.last_proposed is None,
            },
    {
        match &self.last_proposed {
            Some(lp) => Ok(*lp),
            None => Err(StorageError::NotFound),
        }
    }

    pub fn last_proposed_set(&mut self, lp: &LastProposed)
        requires
            old(self).wf(),
        ensures
            final(self).wf(),
            final(self).last_proposed == Some(*lp),
            final(self).blocks@ == old(self).blocks@,
            final(self).transactions@ == old(self).transactions@,
            final(self).counters == old(self).counters,
    {
        self.last_proposed = Some(*lp);
    }

    /// The stored foreign-receive counters; `NotFound` exactly when none
    /// were persisted yet.
    pub fn foreign_receive_counters_get(&self) -> (r: Result<
        ForeignReceiveCounters,
        StorageError,
    >)
        requires
            self.wf(),
        ensures
            match r {
                Ok(c) => self.counters is Some && c.wf() && c.model()
                    == self.counters.unwrap().model(),
                Err(e) => e == StorageError::NotFound && self.counters is None,
            },
    {
        match &self.counters {
            Some(c) => Ok(c.clone_counters()),
            None => Err(StorageError::NotFound),
        }
    }

    pub fn foreign_receive_counters_set(&mut self, c: ForeignReceiveCounters)
        requires
            old(self).wf(),
            c.wf(),
        ensures
            final(self).wf(),
            final(self).counters == Some(c),
            final(self).blocks@ == old(self).blocks@,
            final(self).transactions@ == old(self).transactions@,
            final(self).last_proposed == old(self).last_proposed,
    {
        self.counters = Some(c);
    }
}

impl StateStore {
    /// Stores a new block, uncommitted. Refused when the id is already
    /// taken, when a stored parent does not sit strictly below it, or when
    /// a stored child does not sit strictly above it or is already
    /// committed.
    pub fn blocks_insert(&mut self, block: Block) -> (r: Result<(), StorageError>)
        requires
            old(self).wf(),
        ensures
            final(self).wf(),
            r is Ok <==> (!old(self).has_block_spec(block.id)
                && block.parent_id != block.id && (forall|
                j: int,
            |
                0 <= j < old(self).blocks@.len() && (#[trigger] old(self).blocks@[j]).block.id
                    == block.parent_id ==> old(self).blocks@[j].block.height.0 < block.height.0)
                && (forall|j: int|
                0 <= j < old(self).blocks@.len() && (#[trigger] old(self).blocks@[j]).block.parent_id
                    == block.id ==> (old(self).blocks@[j].block.height.0 > block.height.0 && !old(
                    self,
                ).blocks@[j].committed))),
            r is Ok ==> final(self).blocks@ == old(self).blocks@.push(
                BlockRecord { block, committed: false },
            ),
            r is Err ==> final(self).blocks@ == old(self).blocks@,
            final(self).transactions@ == old(self).transactions@,
            final(self).last_proposed == old(self).last_proposed,
            final(self).counters == old(self).counters,
    {
        let ghost pre = self.blocks@;
        if self.find_block_index(&block.id).is_some() {
            return Err(StorageError::AlreadyExists);
        }
        if block.parent_id.0 == block.id.0 {
            return Err(StorageError::ChainViolation);
        }
        let mut j: usize = 0;
        while j < self.blocks.len()
            invariant
                *self == *old(self),
                old(self).wf(),
                self.blocks@ == pre,
                block.parent_id != block.id,
                j <= pre.len(),
                forall|t: int|
                    0 <= t < j && (#[trigger] pre[t]).block.id == block.parent_id ==> pre[t].block.height.0
                        < block.height.0,
                forall|t: int|
                    0 <= t < j && (#[trigger] pre[t]).block.parent_id == block.id ==> (
                    pre[t].block.height.0 > block.height.0 && !pre[t].committed),
            decreases pre.len() - j,
        {
            let rec = &self.blocks[j];
            if rec.block.id.0 == block.parent_id.0 && rec.block.height.0 >= block.height.0 {
                return Err(StorageError::ChainViolation);
            }
            if rec.block.parent_id.0 == block.id.0 && (rec.block.height.0 <= block.height.0
                || rec.committed) {
                return Err(StorageError::ChainViolation);
            }
            j = j + 1;
        }
        self.blocks.push(BlockRecord { block, committed: false });
        proof {
            let n = self.blocks@.len() as int;
            assert(self.blocks@[n - 1] == BlockRecord { block, committed: false });
            assert forall|a: int, b: int|
                0 <= a < b < n implies self.blocks@[a].block.id != self.blocks@[b].block.id by {
                if b < n - 1 {
                    assert(self.blocks@[a] == pre[a]);
                    assert(self.blocks@[b] == pre[b]);
                } else {
                    assert(self.blocks@[a] == pre[a]);
                    assert(!old(self).has_block_spec(block.id));
                }
            }
            assert forall|a: int, b: int|
                0 <= a < n && 0 <= b < n && #[trigger] self.blocks@[b].block.id
                    == #[trigger] self.blocks@[a].block.parent_id
                implies self.blocks@[b].block.height.0 < self.blocks@[a].block.height.0 by {
                if a < n - 1 && b < n - 1 {
                    assert(self.blocks@[a] == pre[a]);
                    assert(self.blocks@[b] == pre[b]);
                } else if a == n - 1 && b < n - 1 {
                    assert(self.blocks@[b] == pre[b]);
                    assert(pre[b].block.id == block.parent_id);
                } else if a < n - 1 && b == n - 1 {
                    assert(self.blocks@[a] == pre[a]);
                    assert(pre[a].block.parent_id == block.id);
                } else {
                    assert(block.parent_id != block.id);
                }
            }
            assert forall|a: int, b: int|
                0 <= a < n && 0 <= b < n && (#[trigger] self.blocks@[a]).committed
                    && (#[trigger] self.blocks@[b]).block.id == self.blocks@[a].block.parent_id
                implies self.blocks@[b].committed by {
                assert(a != n - 1);
                assert(self.blocks@[a] == pre[a]);
                if b < n - 1 {
                    assert(self.blocks@[b] == pre[b]);
                } else {
                    assert(pre[a].block.parent_id == block.id);
                    assert(!pre[a].committed);
                }
            }
        }
        Ok(())
    }

    /// Looks up a block; `NotFound` exactly when no block with that id is
    /// stored.
    pub fn blocks_get(&self, id: &BlockId) -> (r: Result<&Block, StorageError>)
        ensures
            match r {
                Ok(b) => self.has_block_spec(*id) && b.id == *id && exists|i: int|
                    0 <= i < self.blocks@.len() && (#[trigger] self.blocks@[i]).block == *b,
                Err(e) => e == StorageError::NotFound && !self.has_block_spec(*id),
            },
    {
        match self.find_block_index(id) {
            Some(i) => {
                proof {
                    assert(self.blocks@[i as int].block == self.blocks@[i as int].block);
                }
                Ok(&self.blocks[i].block)
            },
            None => Err(StorageError::NotFound),
        }
    }

    /// Whether a stored block is committed; `NotFound` exactly when the
    /// block is absent.
    pub fn blocks_is_committed(&self, id: &BlockId) -> (r: Result<bool, StorageError>)
        requires
            self.wf(),
        ensures
            match r {
                Ok(c) => exists|i: int|
                    0 <= i < self.blocks@.len() && (#[trigger] self.blocks@[i]).block.id == *id
                        && self.blocks@[i].committed == c,
                Err(e) => e == StorageError::NotFound && !self.has_block_spec(*id),
            },
    {
        match self.find_block_index(id) {
            Some(i) => Ok(self.blocks[i].committed),
            None => Err(StorageError::NotFound),
        }
    }
}

/// A stored child extending a parent under the commit rule: it links to
/// the parent, sits one height above it, and justifies it with its quorum
/// certificate.
pub open spec fn child_extends(child: Block, parent: Block) -> bool {
    &&& child.parent_id == parent.id
    &&& child.height.0 == parent.height.0 + 1
    &&& child.justify.block_id == parent.id
}

impl StateStore {
    /// Decides `child_extends` for two blocks.
    fn extends_check(child: &Block, parent: &Block) -> (r: bool)
        ensures
            r == child_extends(*child, *parent),
    {
        child.parent_id.0 == parent.id.0 && child.height.0 > 0 && child.height.0 - 1
            == parent.height.0 && child.justify.block_id.0 == parent.id.0
    }

    /// Decides the two-chain rule for the stored block at `idx`.
    fn has_two_chain_at(&self, idx: usize) -> (r: bool)
        requires
            self.wf(),
            idx < self.blocks@.len(),
        ensures
            r == self.two_chain_spec(self.blocks@[idx as int].block),
    {
        let ghost b = self.blocks@[idx as int].block;
        let mut i: usize = 0;
        while i < self.blocks.len()
            invariant
                idx < self.blocks@.len(),
                b == self.blocks@[idx as int].block,
                i <= self.blocks@.len(),
                forall|t: int|
                    0 <= t < i && #[trigger] child_extends(self.blocks@[t].block, b) ==> forall|
                        u: int,
                    |
                        0 <= u < self.blocks@.len() ==> !child_extends(
                            (#[trigger] self.blocks@[u]).block,
                            self.blocks@[t].block,
                        ),
            decreases self.blocks@.len() - i,
        {
            if Self::extends_check(&self.blocks[i].block, &self.blocks[idx].block) {
                let mut j: usize = 0;
                while j < self.blocks.len()
                    invariant
                        i < self.blocks@.len(),
                        idx < self.blocks@.len(),
                        b == self.blocks@[idx as int].block,
                        child_extends(self.blocks@[i as int].block, b),
                        j <= self.blocks@.len(),
                        forall|u: int|
                            0 <= u < j ==> !child_extends(
                                (#[trigger] self.blocks@[u]).block,
                                self.blocks@[i as int].block,
                            ),
                    decreases self.blocks@.len() - j,
                {
                    if Self::extends_check(&self.blocks[j].block, &self.blocks[i].block) {
                        proof {
                            assert(child_extends(self.blocks@[i as int].block, b) && child_extends(
                                self.blocks@[j as int].block,
                                self.blocks@[i as int].block,
                            ));
                        }
                        return true;
                    }
                    j = j + 1;
                }
            }
            i = i + 1;
        }
        false
    }

    /// Applies the two-chain commit rule to the stored block `block_id`:
    /// when a stored child justifies it and a stored grandchild justifies
    /// that child, the block and all its stored uncommitted ancestors
    /// become committed, oldest first, and nothing else changes. The
    /// stored block values themselves, and with them every transaction's
    /// local decision, are never altered.
    #[verifier::rlimit(100)]
    #[verifier::spinoff_prover]
    pub fn blocks_commit_two_chain(&mut self, block_id: BlockId) -> (r: Result<
        (),
        StorageError,
    >)
        requires
            old(self).wf(),
        ensures
            final(self).wf(),
            r == Err::<(), StorageError>(StorageError::NotFound) <==> !old(self).has_block_spec(
                block_id,
            ),
            old(self).has_block_spec(block_id) ==> (r == Ok::<(), StorageError>(()) <==> old(
                self,
            ).two_chain_spec(old(self).blocks@[old(self).block_index_spec(block_id)].block)),
            final(self).blocks@.len() == old(self).blocks@.len(),
            forall|i: int|
                0 <= i < old(self).blocks@.len() ==> (#[trigger] final(self).blocks@[i]).block
                    == old(self).blocks@[i].block,
            forall|i: int|
                0 <= i < old(self).blocks@.len() && (#[trigger] old(self).blocks@[i]).committed
                    ==> final(self).blocks@[i].committed,
            r is Ok ==> exists|i: int|
                0 <= i < final(self).blocks@.len() && (#[trigger] final(self).blocks@[i]).block.id
                    == block_id && final(self).blocks@[i].committed,
            forall|i: int|
                0 <= i < old(self).blocks@.len() && (#[trigger] final(self).blocks@[i]).committed
                    && !old(self).blocks@[i].committed ==> old(self).is_ancestor_spec(
                    old(self).blocks@[i].block.id,
                    block_id,
                ),
            r is Err ==> final(self).blocks@ == old(self).blocks@,
            final(self).transactions@ == old(self).transactions@,
            final(self).last_proposed == old(self).last_proposed,
            final(self).counters == old(self).counters,
    {
        let idx: usize = match self.find_block_index(&block_id) {
            Some(i) => i,
            None => {
                return Err(StorageError::NotFound);
            },
        };
        proof {
            assert(old(self).has_block_spec(block_id));
            let bi = old(self).block_index_spec(block_id);
            assert(old(self).blocks@[bi].block.id == block_id);
            assert(bi == idx as int);
        }
        if !self.has_two_chain_at(idx) {
            return Err(StorageError::ChainViolation);
        }
        let ghost orig = self.blocks@;
        let mut chain: Vec<usize> = Vec::new();
        chain.push(idx);
        proof {
            assert(old(self).ancestor_within(orig[idx as int].block.id, block_id, 0));
        }
        let mut cur: usize = idx;
        let mut done = false;
        while !done
            invariant
                *self == *old(self),
                old(self).wf(),
                orig == self.blocks@,
                cur < orig.len(),
                orig[idx as int].block.id == block_id,
                chain@.len() >= 1,
                chain@[0] == idx,
                chain@[chain@.len() - 1] == cur,
                forall|t: int| 0 <= t < chain@.len() ==> (#[trigger] chain@[t]) < orig.len(),
                forall|t: int|
                    0 <= t < chain@.len() - 1 ==> orig[chain@[t + 1] as int].block.id == orig[(
                    #[trigger] chain@[t]) as int].block.parent_id && !orig[chain@[t
                        + 1] as int].committed,
                forall|t: int, u: int|
                    0 <= t < u < chain@.len() ==> orig[(#[trigger] chain@[u]) as int].block.height.0
                        < orig[(#[trigger] chain@[t]) as int].block.height.0,
                forall|t: int|
                    0 <= t < chain@.len() ==> old(self).ancestor_within(
                        orig[(#[trigger] chain@[t]) as int].block.id,
                        block_id,
                        t as nat,
                    ),
                done ==> forall|p: int|
                    0 <= p < orig.len() && (#[trigger] orig[p]).block.id == orig[cur as int].block.parent_id
                        ==> orig[p].committed,
            decreases orig[cur as int].block.height.0, (if done {
                0int
            } else {
                1int
            }),
        {
            let pid = self.blocks[cur].block.parent_id;
            match self.find_block_index(&pid) {
                Some(p) => {
                    if self.blocks[p].committed {
                        done = true;
                        proof {
                            assert forall|q: int|
                                0 <= q < orig.len() && (#[trigger] orig[q]).block.id
                                    == orig[cur as int].block.parent_id implies orig[q].committed by {
                                assert(orig[q].block.id == orig[p as int].block.id);
                                assert(q == p as int);
                            }
                        }
                    } else {
                        proof {
                            let k = chain@.len() - 1;
                            assert(old(self).ancestor_within(
                                orig[cur as int].block.id,
                                block_id,
                                k as nat,
                            ));
                            assert((cur as int) < old(self).blocks@.len());
                            assert(old(self).blocks@[cur as int].block.id
                                == orig[cur as int].block.id);
                            assert(old(self).ancestor_within(
                                orig[p as int].block.id,
                                old(self).blocks@[cur as int].block.parent_id,
                                0,
                            ));
                            assert(old(self).ancestor_within(
                                orig[p as int].block.id,
                                orig[cur as int].block.id,
                                1,
                            ));
                            lemma_ancestor_trans(
                                *old(self),
                                orig[p as int].block.id,
                                orig[cur as int].block.id,
                                block_id,
                                1,
                                k as nat,
                            );
                            assert forall|t: int, u: int|
                                0 <= t < u < chain@.len() + 1 implies orig[(#[trigger] chain@.push(
                                p,
                            )[u]) as int].block.height.0 < orig[(#[trigger] chain@.push(
                                p,
                            )[t]) as int].block.height.0 by {
                                if u < chain@.len() {
                                    assert(chain@.push(p)[u] == chain@[u]);
                                    assert(chain@.push(p)[t] == chain@[t]);
                                } else {
                                    assert(chain@.push(p)[t] == chain@[t]);
                                    assert(orig[p as int].block.id
                                        == orig[cur as int].block.parent_id);
                                    assert(orig[p as int].block.height.0
                                        < orig[cur as int].block.height.0);
                                    if t < chain@.len() - 1 {
                                        assert(orig[cur as int].block.height.0
                                            <= orig[chain@[t] as int].block.height.0);
                                    }
                                }
                            }
                        }
                        chain.push(p);
                        cur = p;
                    }
                },
                None => {
                    done = true;
                },
            }
        }
        let ghost chain_snapshot = chain@;
        let mut t: usize = chain.len();
        while t > 0
            invariant
                old(self).wf(),
                chain@ == chain_snapshot,
                orig == old(self).blocks@,
                t <= chain@.len(),
                chain@.len() >= 1,
                chain@[0] == idx,
                idx < orig.len(),
                orig[idx as int].block.id == block_id,
                forall|q: int| 0 <= q < chain@.len() ==> (#[trigger] chain@[q]) < orig.len(),
                forall|q: int|
                    0 <= q < chain@.len() - 1 ==> orig[chain@[q + 1] as int].block.id == orig[(
                    #[trigger] chain@[q]) as int].block.parent_id,
                forall|q: int, u: int|
                    0 <= q < u < chain@.len() ==> orig[(#[trigger] chain@[u]) as int].block.height.0
                        < orig[(#[trigger] chain@[q]) as int].block.height.0,
                forall|q: int|
                    0 <= q < chain@.len() ==> old(self).ancestor_within(
                        orig[(#[trigger] chain@[q]) as int].block.id,
                        block_id,
                        q as nat,
                    ),
                forall|p: int|
                    0 <= p < orig.len() && (#[trigger] orig[p]).block.id == orig[chain@[chain@.len()
                        - 1] as int].block.parent_id ==> orig[p].committed,
                self.blocks@.len() == orig.len(),
                forall|i: int|
                    0 <= i < orig.len() ==> (#[trigger] self.blocks@[i]).block == orig[i].block,
                forall|i: int|
                    0 <= i < orig.len() ==> ((#[trigger] self.blocks@[i]).committed <==> (
                    orig[i].committed || exists|u: int|
                        t <= u < chain@.len() && chain@[u] == i)),
                self.committed_closed(),
                self.transactions@ == old(self).transactions@,
                self.last_proposed == old(self).last_proposed,
                self.counters == old(self).counters,
            decreases t,
        {
            t = t - 1;
            let i = chain[t];
            let ghost before = self.blocks@;
            let rec = self.blocks.remove(i);
            let rec2 = BlockRecord { block: rec.block, committed: true };
            self.blocks.insert(i, rec2);
            proof {
                assert(self.blocks@ =~= before.update(
                    i as int,
                    BlockRecord { block: before[i as int].block, committed: true },
                ));
                assert forall|a: int|
                    0 <= a < orig.len() implies ((#[trigger] self.blocks@[a]).committed <==> (
                    orig[a].committed || exists|u: int|
                        t <= u < chain@.len() && chain@[u] == a)) by {
                    if a == i as int {
                        assert(chain@[t as int] == a);
                    } else {
                        assert(self.blocks@[a] == before[a]);
                        assert forall|u: int|
                            t <= u < chain@.len() && (#[trigger] chain@[u]) == a implies t + 1 <= u by {
                            if u == t {
                                assert(chain@[u] == i);
                            }
                        }
                    }
                }
                assert forall|a: int, b: int|
                    0 <= a < self.blocks@.len() && 0 <= b < self.blocks@.len()
                        && (#[trigger] self.blocks@[a]).committed
                        && (#[trigger] self.blocks@[b]).block.id == self.blocks@[a].block.parent_id
                    implies self.blocks@[b].committed by {
                    if a == i as int {
                        if (t as int) < chain@.len() - 1 {
                            assert(orig[chain@[t + 1] as int].block.id
                                == orig[chain@[t as int] as int].block.parent_id);
                            assert(self.blocks@[b].block.id == orig[b].block.id);
                            assert(orig[b].block.id == orig[chain@[t + 1] as int].block.id);
                            assert(b == chain@[t + 1] as int);
                            assert(exists|u: int|
                                t <= u < chain@.len() && (#[trigger] chain@[u]) == b);
                        } else {
                            assert(chain@[chain@.len() - 1] == i);
                            assert(orig[b].block.id == orig[i as int].block.parent_id);
                            assert(orig[b].committed);
                        }
                    } else {
                        assert(before[a].committed);
                        assert(before[b].committed || b == i as int);
                    }
                }
            }
        }
        proof {
            assert(self.blocks@[idx as int].committed) by {
                assert(chain@[0] == idx);
                assert(exists|u: int| 0 <= u < chain@.len() && (#[trigger] chain@[u]) == idx as int);
            }
            assert(self.blocks@[idx as int].block.id == block_id);
            assert forall|i: int|
                0 <= i < orig.len() && (#[trigger] self.blocks@[i]).committed
                    && !orig[i].committed implies old(self).is_ancestor_spec(
                orig[i].block.id,
                block_id,
            ) by {
                let u = choose|u: int| 0 <= u < chain@.len() && (#[trigger] chain@[u]) == i;
                assert(old(self).ancestor_within(orig[chain@[u] as int].block.id, block_id, u as nat));
            }
            assert forall|a: int, b: int|
                0 <= a < self.blocks@.len() && 0 <= b < self.blocks@.len()
                    && #[trigger] self.blocks@[b].block.id
                    == #[trigger] self.blocks@[a].block.parent_id
                implies self.blocks@[b].block.height.0 < self.blocks@[a].block.height.0 by {
                assert(self.blocks@[a].block == orig[a].block);
                assert(self.blocks@[b].block == orig[b].block);
            }
            assert forall|a: int, b: int|
                0 <= a < b < self.blocks@.len() implies self.blocks@[a].block.id
                != self.blocks@[b].block.id by {
                assert(self.blocks@[a].block == orig[a].block);
                assert(self.blocks@[b].block == orig[b].block);
            }
        }
        Ok(())
    }
}

/// Extending a reachability witness on the descendant side: one stored
/// parent step composes with any number of further steps.
proof fn lemma_ancestor_trans(s: StateStore, a: BlockId, m: BlockId, d: BlockId, k1: nat, k2: nat)
    requires
        s.ancestor_within(a, m, k1),
        s.ancestor_within(m, d, k2),
    ensures
        s.ancestor_within(a, d, (k1 + k2) as nat),
    decreases k2,
{
    if m == d {
        lemma_ancestor_mono(s, a, m, k1, (k1 + k2) as nat);
    } else {
        let i = choose|i: int|
            0 <= i < s.blocks@.len() && (#[trigger] s.blocks@[i].block).id == d
                && s.ancestor_within(m, s.blocks@[i].block.parent_id, (k2 - 1) as nat);
        lemma_ancestor_trans(s, a, m, s.blocks@[i].block.parent_id, k1, (k2 - 1) as nat);
        assert(s.ancestor_within(a, s.blocks@[i].block.parent_id, (k1 + k2 - 1) as nat));
    }
}

/// A reachability witness still holds with more steps allowed.
proof fn lemma_ancestor_mono(s: StateStore, a: BlockId, d: BlockId, k1: nat, k2: nat)
    requires
        s.ancestor_within(a, d, k1),
        k1 <= k2,
    ensures
        s.ancestor_within(a, d, k2),
    decreases k1,
{
    if a != d {
        let i = choose|i: int|
            0 <= i < s.blocks@.len() && (#[trigger] s.blocks@[i].block).id == d
                && s.ancestor_within(a, s.blocks@[i].block.parent_id, (k1 - 1) as nat);
        lemma_ancestor_mono(s, a, s.blocks@[i].block.parent_id, (k1 - 1) as nat, (k2 - 1) as nat);
    }
}

/// Commit monotonicity: in a well-formed store, every stored ancestor of a
/// committed block is itself committed. Stored block values, including the
/// command decisions they carry, are never rewritten by the store's
/// operations, so a committed block's transactions keep their local
/// decisions.
pub proof fn theorem_commit_monotonic(s: StateStore, anc: BlockId, desc: BlockId, k: nat)
    requires
        s.wf(),
        s.ancestor_within(anc, desc, k),
        exists|i: int|
            0 <= i < s.blocks@.len() && (#[trigger] s.blocks@[i]).block.id == desc
                && s.blocks@[i].committed,
        exists|i: int| 0 <= i < s.blocks@.len() && (#[trigger] s.blocks@[i]).block.id == anc,
    ensures
        exists|i: int|
            0 <= i < s.blocks@.len() && (#[trigger] s.blocks@[i]).block.id == anc
                && s.blocks@[i].committed,
    decreases k,
{
    if anc == desc {
    } else {
        let i = choose|i: int|
            0 <= i < s.blocks@.len() && (#[trigger] s.blocks@[i].block).id == desc
                && s.ancestor_within(anc, s.blocks@[i].block.parent_id, (k - 1) as nat);
        let di = choose|di: int|
            0 <= di < s.blocks@.len() && (#[trigger] s.blocks@[di]).block.id == desc
                && s.blocks@[di].committed;
        assert(di == i);
        let pid = s.blocks@[i].block.parent_id;
        if s.ancestor_within(anc, pid, 0) {
            let ai = choose|ai: int|
                0 <= ai < s.blocks@.len() && (#[trigger] s.blocks@[ai]).block.id == anc;
            assert(s.blocks@[ai].block.id == pid);
            assert(s.blocks@[ai].committed);
        } else {
            let pi = choose|pi: int|
                0 <= pi < s.blocks@.len() && (#[trigger] s.blocks@[pi].block).id == pid
                    && s.ancestor_within(anc, s.blocks@[pi].block.parent_id, (k - 2) as nat);
            assert(s.blocks@[pi].committed);
            theorem_commit_monotonic(s, anc, pid, (k - 1) as nat);
        }
    }
}

impl ExecutedTransaction {
    /// Persists this record; refuses to overwrite one with the same id.
    pub fn insert(self, tx: &mut StateStore) -> (r: Result<(), StorageError>)
        requires
            old(tx).wf(),
        ensures
            final(tx).wf(),
            r == Ok::<(), StorageError>(()) <==> !old(tx).has_transaction_spec(
                self.transaction_spec().hash_spec(),
            ),
            r is Ok ==> final(tx).transactions@ == old(tx).transactions@.push(self),
            r is Err ==> final(tx).transactions@ == old(tx).transactions@,
            final(tx).blocks@ == old(tx).blocks@,
            final(tx).last_proposed == old(tx).last_proposed,
            final(tx).counters == old(tx).counters,
    {
        tx.transactions_insert(self)
    }

    /// Looks a record up by id; `NotFound` exactly when it is absent.
    pub fn get<'a>(tx: &'a StateStore, tx_id: &TransactionId) -> (r: Result<
        &'a ExecutedTransaction,
        StorageError,
    >)
        requires
            tx.wf(),
        ensures
            match r {
                Ok(t) => tx.has_transaction_spec(*tx_id) && t.transaction_spec().hash_spec()
                    == *tx_id && tx.stores_record(*t),
                Err(e) => e == StorageError::NotFound && !tx.has_transaction_spec(*tx_id),
            },
    {
        tx.transactions_get(tx_id)
    }

    /// Looks many records up at once; absent ids are skipped.
    pub fn get_many<'a>(tx: &'a StateStore, tx_ids: &Vec<TransactionId>) -> (r: Vec<
        &'a ExecutedTransaction,
    >)
        requires
            tx.wf(),
        ensures
            r@.len() <= tx_ids@.len(),
            forall|k: int| 0 <= k < r@.len() ==> tx.stores_record(*(#[trigger] r@[k])),
            forall|k: int|
                0 <= k < tx_ids@.len() && tx.has_transaction_spec(#[trigger] tx_ids@[k])
                    ==> exists|t: int|
                    0 <= t < r@.len() && r@[t].transaction_spec().hash_spec() == tx_ids@[k],
    {
        tx.transactions_get_many(tx_ids)
    }

    /// The involved shards of each stored transaction among the given ids.
    pub fn get_involved_shards(tx: &StateStore, transactions: &Vec<TransactionId>) -> (r: Vec<
        (TransactionId, Vec<Shard>),
    >)
        requires
            tx.wf(),
        ensures
            forall|k: int|
                0 <= k < r@.len() ==> transactions@.contains((#[trigger] r@[k]).0)
                    && tx.has_transaction_spec(r@[k].0),
            forall|k: int|
                0 <= k < r@.len() ==> tx.names_involved_shards(
                    ((#[trigger] r@[k]).0, r@[k].1@),
                ),
            forall|k: int|
                0 <= k < transactions@.len() && tx.has_transaction_spec(
                    #[trigger] transactions@[k],
                ) ==> exists|t: int| 0 <= t < r@.len() && r@[t].0 == transactions@[k],
    {
        tx.transactions_involved_shards(transactions)
    }
}

impl ForeignReceiveCounters {
    /// Persists these counters as the store's counter record.
    pub fn save(&self, tx: &mut StateStore) -> (r: Result<(), StorageError>)
        requires
            old(tx).wf(),
            self.wf(),
        ensures
            final(tx).wf(),
            r is Ok,
            final(tx).counters is Some,
            final(tx).counters.unwrap().model() == self.model(),
            final(tx).blocks@ == old(tx).blocks@,
            final(tx).transactions@ == old(tx).transactions@,
            final(tx).last_proposed == old(tx).last_proposed,
    {
        tx.foreign_receive_counters_set(self.clone_counters());
        Ok(())
    }

    /// Loads the stored counters, or a fresh all-zero record when none
    /// were persisted yet.
    pub fn get_or_default(tx: &StateStore) -> (r: ForeignReceiveCounters)
        requires
            tx.wf(),
        ensures
            r.wf(),
            match tx.counters {
                Some(c) => r.model() == c.model(),
                None => forall|s: u32| r.count_spec(s) == 0,
            },
    {
        match optional(tx.foreign_receive_counters_get()) {
            Ok(Some(c)) => c,
            _ => ForeignReceiveCounters::new(),
        }
    }
}

impl LastProposed {
    /// Reads the last-proposed marker; `NotFound` exactly when this node
    /// has never proposed.
    pub fn get(tx: &StateStore) -> (r: Result<LastProposed, StorageError>)
        ensures
            match r {
                Ok(lp) => tx.last_proposed == Some(lp),
                Err(e) => e == StorageError::NotFound && tx.last_proposed is None,
            },
    {
        tx.last_proposed_get()
    }

    /// Persists this marker as the node's highest proposal.
    pub fn set(&self, tx: &mut StateStore) -> (r: Result<(), StorageError>)
        requires
            old(tx).wf(),
        ensures
            final(tx).wf(),
            r is Ok,
            final(tx).last_proposed == Some(*self),
            final(tx).blocks@ == old(tx).blocks@,
            final(tx).transactions@ == old(tx).transactions@,
            final(tx).counters == old(tx).counters,
    {
        tx.last_proposed_set(self);
        Ok(())
    }
}

} // verus!
