//! Sharded BFT consensus core: block proposal and voting state machine,
//! quorum certificates, cross-shard transaction evidence, foreign-receive
//! counters, and the messaging abstraction that ties shard groups together.

pub mod block;
pub mod cli;
pub mod codec;
pub mod confidential;
pub mod counters;
pub mod evidence;
pub mod hashing;
pub mod messaging;
pub mod pipeline;
pub mod safety;
pub mod store;
pub mod substate;
pub mod template;
pub mod transaction;
pub mod types;
pub mod wallet;

