//! Decision engine for a content-addressed block exchange protocol.
//!
//! Peers announce interest in blocks; the engine keeps a wantlist per peer,
//! consults the local block store, prioritises outgoing work across peers,
//! batches responses into bounded-size messages and hands them to an outbox.

pub mod block;
pub mod keyed;
pub mod message;
pub mod wantlist;
pub mod ledger;
pub mod peer_ledger;
pub mod score_ledger;
pub mod task_merger;
pub mod peer_task_queue;
pub mod store;
pub mod decision;
pub mod laws;
pub mod cf;
pub mod rpc;
pub mod cli;
pub mod paths;
pub mod unixfs;
