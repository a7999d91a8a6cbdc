//! Sharded storage engine for graph-structured records.
//!
//! Each logical node, identified by a graph name plus a node id, owns a
//! fragment: a bag of timestamped attribute keys and typed values. A shard
//! worker owns an append-only fragment store and a placement index and
//! serves batched writes and point reads over them. Every shard is an
//! independent value: nothing here is shared between shards, so running two
//! workers side by side cannot let one shard's writes touch the other.

pub mod codec;
pub mod index;
pub mod store;
pub mod types;
pub mod worker;
