//! The messaging abstraction: the consensus wire envelope, the outbound
//! and inbound capability contracts that transports implement, and an
//! in-memory implementation for loopback and tests. Every message carries
//! its originating epoch so stale or cross-epoch messages can be
//! rejected.

use vstd::prelude::*;

use crate::block::{Block, QuorumCertificate, Vote};
use crate::transaction::Transaction;
use crate::types::{BlockId, Epoch, TransactionId, ValidatorId};

verus! {

/// Answer to a missing-transactions request: the transactions a block
/// referenced that the requester did not hold.
#[derive(Debug, Clone, PartialEq, Eq)]
pub struct MissingTransactionsResponse {
    pub request_id: u32,
    pub epoch: Epoch,
    pub block_id: BlockId,
    pub transactions: Vec<Transaction>,
}

/// The consensus wire envelope exchanged between committee members and
/// across shard groups.
#[derive(Debug, Clone, PartialEq, Eq)]
pub enum HotstuffMessage {
    Proposal(Block),
    Vote(Vote),
    NewView(QuorumCertificate),
    MissingTransactionsRequest {
        request_id: u32,
        epoch: Epoch,
        block_id: BlockId,
        transaction_ids: Vec<TransactionId>,
    },
    MissingTransactionsResponse(MissingTransactionsResponse),
}

impl HotstuffMessage {
    /// The epoch the message originated in.
    pub open spec fn epoch_spec(&self) -> Epoch {
        match *self {
            HotstuffMessage::Proposal(b) => b.epoch,
            HotstuffMessage::Vote(v) => v.epoch,
            HotstuffMessage::NewView(qc) => qc.epoch,
            HotstuffMessage::MissingTransactionsRequest { epoch, .. } => epoch,
            HotstuffMessage::MissingTransactionsResponse(r) => r.epoch,
        }
    }

    pub fn epoch(&self) -> (r: Epoch)
        ensures
            r == self.epoch_spec(),
    {
        match self {
            HotstuffMessage::Proposal(b) => b.epoch,
            HotstuffMessage::Vote(v) => v.epoch,
            HotstuffMessage::NewView(qc) => qc.epoch,
            HotstuffMessage::MissingTransactionsRequest { epoch, .. } => *epoch,
            HotstuffMessage::MissingTransactionsResponse(r) => r.epoch,
        }
    }

    /// Whether a node at `current` accepts this message: messages for any
    /// other epoch are discarded.
    pub fn is_for_epoch(&self, current: Epoch) -> (r: bool)
        ensures
            r == (self.epoch_spec() == current),
    {
        self.epoch().0 == current.0
    }
}

/// Failure to hand a message to the transport. Both variants are
/// non-fatal: the caller may retry.
#[derive(Debug, Clone, PartialEq, Eq)]
pub enum OutboundMessagingError {
    /// The local queue refused the message.
    FailedToEnqueueMessage { reason: String },
    /// The transport below reported an error, carried as text.
    UpstreamError(String),
}

impl OutboundMessagingError {
    /// Wraps an underlying transport error, carried as its text.
    pub fn from_error(err: String) -> (r: OutboundMessagingError)
        ensures
            r == OutboundMessagingError::UpstreamError(err),
    {
        OutboundMessagingError::UpstreamError(err)
    }
}

/// Failure on the receiving side: a message that could not be validated
/// surfaces as an error rather than corrupting the stream.
#[derive(Debug, Clone, PartialEq, Eq)]
pub enum InboundMessagingError {
    InvalidMessage { reason: String },
}

/// Outbound capability: send to self, to one peer, or to a whole shard
/// group's committee. Transport-bound implementations are injected at
/// construction; failures are non-fatal and retryable.
pub trait OutboundMessaging {
    fn send_self(&mut self, message: HotstuffMessage) -> Result<(), OutboundMessagingError>;

    fn send(&mut self, to: ValidatorId, message: HotstuffMessage) -> Result<
        (),
        OutboundMessagingError,
    >;

    fn multicast(&mut self, shard_group: crate::types::ShardGroup, message: HotstuffMessage)
        -> Result<(), OutboundMessagingError>;
}

/// Inbound capability: the next validated (sender, message) pair, or
/// `None` at end of stream.
pub trait InboundMessaging {
    fn next_message(&mut self) -> Option<Result<(ValidatorId, HotstuffMessage), InboundMessagingError>>;
}

/// An in-memory message queue: the loopback transport used so a leader
/// processes its own proposal identically to followers, and the test
/// double for the capability contracts. Messages come out in the order
/// they went in.
pub struct InMemoryMessaging {
    pub own_id: ValidatorId,
    pub queue: Vec<(ValidatorId, HotstuffMessage)>,
    pub next: usize,
}

impl InMemoryMessaging {
    pub open spec fn wf(&self) -> bool {
        self.next <= self.queue@.len()
    }

    /// The messages not yet delivered, in delivery order.
    pub open spec fn pending_spec(&self) -> Seq<(ValidatorId, HotstuffMessage)> {
        self.queue@.skip(self.next as int)
    }

    pub fn new(own_id: ValidatorId) -> (r: InMemoryMessaging)
        ensures
            r.wf(),
            r.own_id == own_id,
            r.pending_spec().len() == 0,
    {
        InMemoryMessaging { own_id, queue: Vec::new(), next: 0 }
    }

    /// Appends a message to the back of the queue.
    pub fn enqueue(&mut self, from: ValidatorId, message: HotstuffMessage)
        requires
            old(self).wf(),
        ensures
            final(self).wf(),
            final(self).own_id == old(self).own_id,
            final(self).pending_spec() == old(self).pending_spec().push((from, message)),
    {
        self.queue.push((from, message));
        proof {
            assert(self.queue@.skip(self.next as int) =~= old(self).queue@.skip(
                self.next as int,
            ).push((from, message)));
        }
    }

    /// Takes the next undelivered message, oldest first; `None` exactly
    /// when the queue is drained.
    pub fn dequeue(&mut self) -> (r: Option<&(ValidatorId, HotstuffMessage)>)
        requires
            old(self).wf(),
        ensures
            final(self).wf(),
            final(self).own_id == old(self).own_id,
            match r {
                Some(m) => old(self).pending_spec().len() > 0 && *m == old(self).pending_spec()[0]
                    && final(self).pending_spec() == old(self).pending_spec().skip(1),
                None => old(self).pending_spec().len() == 0 && *final(self) == *old(self),
            },
    {
        if self.next < self.queue.len() {
            let i = self.next;
            self.next = i + 1;
            proof {
                assert(old(self).pending_spec()[0] == self.queue@[i as int]);
                assert(self.queue@.skip(i as int + 1) =~= old(self).pending_spec().skip(1));
            }
            Some(&self.queue[i])
        } else {
            None
        }
    }
}

} // verus!
