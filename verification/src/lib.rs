//! A distributed vector database: storage, placement and routing logic.
#![allow(unused_imports)]

pub mod args;
pub mod beam;
pub mod builds;
pub mod calls;
pub mod codec;
pub mod config;
pub mod distance;
pub mod durability;
pub mod frame;
pub mod graph;
pub mod guarantees;
pub mod hints;
pub mod hits;
pub mod hlc;
pub mod hnsw;
pub mod index;
pub mod manager;
pub mod meta;
pub mod names;
pub mod placement;
pub mod promises;
pub mod queue;
pub mod raft;
pub mod rebalance;
pub mod router;
pub mod service;
pub mod shard;
pub mod shards;
pub mod snapshot;
pub mod sort;
pub mod storage_calls;
pub mod store;
pub mod text;
pub mod transfer;
pub mod wal;
