//! Shard snapshots: a point-in-time image of a shard's index plus the WAL offset
//! that it covers.
//!
//! On restart the shard starts from its snapshot and replays only the WAL records
//! written after the snapshot's offset.

use std::collections::HashMap;

use vstd::prelude::*;

use crate::hlc::Hlc;
use crate::hnsw::HnswIndex;

verus! {

/// Per-point version stored in the snapshot.
#[derive(Debug, Clone, Copy, PartialEq, Eq, Structural)]
pub struct VersionEntry {
    pub hlc: Hlc,
    pub tombstone: bool,
}

/// The index image, the per-point last-writer-wins versions, and the WAL offset that
/// the image already includes.
#[derive(Debug)]
pub struct Snapshot<D> {
    /// WAL byte offset up to and including which this image reflects all writes.
    pub wal_offset: u64,
    pub index: HnswIndex<D>,
    /// Per-id winning version.
    pub versions: HashMap<u64, VersionEntry>,
}

} // verus!
