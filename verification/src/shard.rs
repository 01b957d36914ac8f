//! A durable shard: an HNSW index backed by a WAL and periodic snapshots, with
//! crash recovery on open.
//!
//! Write path (the ordering that makes recovery sound): every mutation is first
//! staged, which decides it and frames its WAL record; the caller appends the frame
//! to the file; then the write is committed to the in-memory index. A write is only
//! acknowledged after its WAL append returned durable, so a crash either has the
//! record on disk (it will replay) or never acknowledged it.
//!
//! Recovery on open: start from the newest snapshot (if any), recover the WAL (which
//! says where to truncate a torn tail), then replay the WAL records that lie beyond
//! the snapshot's offset.

use std::collections::{HashMap, HashSet};

use vstd::prelude::*;

use crate::distance::Metric;
use crate::hlc::Hlc;
use crate::hnsw::HnswIndex;
use crate::index::{IndexError, VectorIndex};
use crate::snapshot::{Snapshot, VersionEntry};
use crate::text::{dims_message, join};
use crate::wal::{Wal, WalOp, WalRecord};

verus! {

use vstd::std_specs::iter::IteratorSpec;
use crate::builds::{
    index_rebuilt, is_fresh, rebuild_one_more, record_indexed, replay_step, same_index, skipped,
};
use crate::codec::de32;
use crate::distance::is_kernel;
use crate::frame::{crc32, framed};
use crate::hlc::{order_is_total, order_is_transitive};
use crate::hnsw::{added_at, searched};
use crate::index::answers;
use crate::text::dims_text;
use crate::wal::{
    append_extends_log, append_moves_offset, record_frame, record_views, recovered,
    recovered_is_bounded, recovery_is_idempotent, recovery_returns_appended, wal_bytes, RecordView,
};

broadcast use vstd::std_specs::hash::group_hash_axioms;

/// The per-point version a shard tracks for last-writer-wins.
///
/// Every id the shard has ever seen carries its winning [`Hlc`] and whether the
/// winner was a delete (tombstone). A tombstone keeps its timestamp so that a later
/// write with an equal one cannot silently win.
#[derive(Debug, Clone, Copy, PartialEq, Eq, Structural)]
pub struct PointVersion {
    pub hlc: Hlc,
    pub tombstone: bool,
}

/// The outcome of applying a versioned write to a shard.
#[derive(Debug, Clone, Copy, PartialEq, Eq, Structural)]
pub enum WriteOutcome {
    /// The write won last-writer-wins and was applied (durable).
    Applied,
    /// The write lost (the stored timestamp was not older) and was ignored.
    Stale,
}

/// Errors from a shard.
#[derive(Debug, Clone, Copy, PartialEq, Eq, Structural)]
pub enum ShardError {
    Index(IndexError),
    DimMismatch { expected: usize, got: usize },
}

impl ShardError {
    /// What the error says.
    pub open spec fn text(self) -> Seq<char> {
        match self {
            ShardError::Index(e) => "index: "@ + e.text(),
            ShardError::DimMismatch { expected, got } => dims_text(
                "dimension mismatch: shard is "@,
                expected as nat,
                got as nat,
            ),
        }
    }

    /// The error in words.
    pub fn message(self) -> (r: String)
        ensures
            r@ == self.text(),
    {
        match self {
            ShardError::Index(e) => join("index: ", e.message().as_str()),
            ShardError::DimMismatch { expected, got } => {
                dims_message("dimension mismatch: shard is ", expected, got)
            },
        }
    }
}

/// What a shard holds: the live points and the version of every id ever seen.
#[verifier::ext_equal]
pub struct ShardView {
    pub points: Map<u64, Seq<u32>>,
    pub versions: Map<u64, PointVersion>,
}

/// A shard that has seen no write.
pub open spec fn empty_shard() -> ShardView {
    ShardView { points: Map::empty(), versions: Map::empty() }
}

/// `hlc` for `id` loses against the stored version: it is not newer. A first write
/// for an id never loses.
pub open spec fn stale(s: ShardView, id: u64, hlc: Hlc) -> bool {
    s.versions.contains_key(id) && !s.versions[id].hlc.older(hlc)
}

/// The shard after record `r` took effect.
pub open spec fn written(s: ShardView, r: RecordView) -> ShardView {
    match r.op {
        WalOp::Upsert => ShardView {
            points: s.points.insert(r.id, r.vector),
            versions: s.versions.insert(r.id, PointVersion { hlc: r.hlc, tombstone: false }),
        },
        WalOp::Delete => ShardView {
            points: s.points.remove(r.id),
            versions: s.versions.insert(r.id, PointVersion { hlc: r.hlc, tombstone: true }),
        },
    }
}

/// The shard after a versioned write: the newest timestamp wins.
pub open spec fn lww(s: ShardView, r: RecordView) -> ShardView {
    if stale(s, r.id, r.hlc) {
        s
    } else {
        written(s, r)
    }
}

/// The shard after versioned writes in order.
pub open spec fn lww_all(s: ShardView, rs: Seq<RecordView>) -> ShardView
    decreases rs.len(),
{
    if rs.len() == 0 {
        s
    } else {
        lww(lww_all(s, rs.drop_last()), rs.last())
    }
}

/// The shard after the recovered record `r` is replayed: it is skipped if a strictly
/// newer version is there.
pub open spec fn replayed(s: ShardView, r: RecordView) -> ShardView {
    if s.versions.contains_key(r.id) && r.hlc.older(s.versions[r.id].hlc) {
        s
    } else {
        written(s, r)
    }
}

/// The shard after recovered records are replayed in order.
pub open spec fn replayed_all(s: ShardView, rs: Seq<RecordView>) -> ShardView
    decreases rs.len(),
{
    if rs.len() == 0 {
        s
    } else {
        replayed(replayed_all(s, rs.drop_last()), rs.last())
    }
}

/// The bytes that the frames of `rs` take.
pub open spec fn frames_len(rs: Seq<RecordView>) -> nat
    decreases rs.len(),
{
    if rs.len() == 0 {
        0
    } else {
        frames_len(rs.drop_last()) + rs.last().body_len() + 8
    }
}

/// Those of `rs` whose frames end beyond the offset `covered`.
pub open spec fn beyond(rs: Seq<RecordView>, covered: nat) -> Seq<RecordView>
    decreases rs.len(),
{
    if rs.len() == 0 {
        Seq::empty()
    } else if frames_len(rs) > covered {
        beyond(rs.drop_last(), covered).push(rs.last())
    } else {
        beyond(rs.drop_last(), covered)
    }
}

/// Replaying `r` into `s` stores a vector whose length is not `dim`.
pub open spec fn misfit(s: ShardView, r: RecordView, dim: nat) -> bool {
    &&& !(s.versions.contains_key(r.id) && r.hlc.older(s.versions[r.id].hlc))
    &&& r.op == WalOp::Upsert
    &&& r.vector.len() != dim
}

/// No record of `rs`, replayed in order into `s`, is a misfit.
pub open spec fn fits(s: ShardView, rs: Seq<RecordView>, dim: nat) -> bool {
    forall|i: int| 0 <= i < rs.len() ==> !#[trigger] misfit(replayed_all(s, rs.take(i)), rs[i], dim)
}

/// The record at place `i` of `rs`, replayed in order into `s`, is the first misfit.
pub open spec fn first_misfit(s: ShardView, rs: Seq<RecordView>, dim: nat, i: int) -> bool {
    &&& 0 <= i < rs.len()
    &&& fits(s, rs.take(i), dim)
    &&& misfit(replayed_all(s, rs.take(i)), rs[i], dim)
}

/// The error names the vector length of the first misfit.
pub open spec fn names_misfit(s: ShardView, rs: Seq<RecordView>, dim: nat, e: ShardError) -> bool {
    exists|i: int|
        #[trigger] first_misfit(s, rs, dim, i) && (e matches ShardError::Index(
            IndexError::DimMismatch { expected, got },
        ) && expected == dim && got == rs[i].vector.len())
}

/// Apply a recovered WAL record to the in-memory index and the version map.
///
/// Replaying in WAL order reproduces the winners. A record with a strictly newer
/// version present is skipped, so that an out-of-order log still converges to the
/// newest timestamp.
pub fn apply_record<D: Fn(Metric, &[u32], &[u32]) -> u32>(
    index: &mut HnswIndex<D>,
    versions: &mut HashMap<u64, PointVersion>,
    rec: &WalRecord,
) -> (r: Result<(), IndexError>)
    requires
        old(index).inv(),
        rec.op == WalOp::Upsert ==> old(index).accepts(rec.id),
    ensures
        final(index).inv(),
        final(index).dimension() == old(index).dimension(),
        final(index).measure() == old(index).measure(),
        final(index).kernel == old(index).kernel,
        ({
            let before = ShardView { points: old(index).points(), versions: old(versions)@ };
            let after = ShardView { points: final(index).points(), versions: final(versions)@ };
            match r {
                Ok(()) => !misfit(before, rec@, old(index).dimension()) && after == replayed(
                    before,
                    rec@,
                ) && replay_step(*old(index), before, rec@, *final(index)),
                Err(IndexError::DimMismatch { expected, got }) => misfit(
                    before,
                    rec@,
                    old(index).dimension(),
                ) && expected == old(index).dimension() && got == rec@.vector.len() && after
                    == before,
            }
        }),
{
    let ghost before = ShardView { points: index.points(), versions: versions@ };
    if let Some(v) = versions.get(&rec.id) {
        if rec.hlc.precedes(&v.hlc) {
            return Ok(());
        }
    }
    match rec.op {
        WalOp::Upsert => {
            match index.insert(rec.id, rec.vector.as_slice()) {
                Err(e) => Err(e),
                Ok(()) => {
                    let _old = versions.insert(
                        rec.id,
                        PointVersion { hlc: rec.hlc, tombstone: false },
                    );
                    proof {
                        assert(ShardView { points: index.points(), versions: versions@ } =~= replayed(
                            before,
                            rec@,
                        ));
                    }
                    Ok(())
                },
            }
        },
        WalOp::Delete => {
            let _removed: bool = index.delete(rec.id);
            let _old = versions.insert(rec.id, PointVersion { hlc: rec.hlc, tombstone: true });
            assert(ShardView { points: index.points(), versions: versions@ } =~= replayed(
                before,
                rec@,
            ));
            Ok(())
        },
    }
}

/// The total framed byte length a record occupies on disk: the 4-byte frame
/// length prefix + 4-byte checksum + body.
pub fn framed_len(rec: &WalRecord) -> (r: u64)
    requires
        rec@.body_len() + 8 <= u64::MAX,
    ensures
        r == rec@.body_len() + 8,
{
    let vector: u64 = 4 * rec.vector.len() as u64;
    33 + vector + rec.payload.len() as u64
}

/// A write that was decided and framed. It is to be committed once its frame is in
/// the log.
#[derive(Debug)]
pub struct PendingWrite {
    pub record: WalRecord,
    pub frame: Vec<u8>,
}

impl PendingWrite {
    /// The frame is that of the record, and the record fits a frame.
    pub open spec fn wf(self) -> bool {
        &&& self.record@.body_len() + 4 < 0x1_0000_0000
        &&& self.frame@ == record_frame(self.record@)
    }

    fn new(record: WalRecord) -> (r: Self)
        requires
            record@.body_len() + 4 < 0x1_0000_0000,
            record@.body_len() + 8 <= usize::MAX,
        ensures
            r.wf(),
            r.record@ == record@,
    {
        let frame: Vec<u8> = record.encode_frame();
        PendingWrite { record, frame }
    }
}

/// What became of a versioned write when it was staged.
#[derive(Debug)]
pub enum Staged {
    /// It lost last-writer-wins: there is nothing to write.
    Stale,
    /// It wins: append its frame to the log, then commit it.
    Append(PendingWrite),
}

/// What a committed write did.
#[derive(Debug, Clone, Copy, PartialEq, Eq, Structural)]
pub struct Committed {
    /// For a delete, whether a live point was removed.
    pub removed: bool,
    /// The log has grown past the threshold since the last snapshot: take one now.
    pub snapshot_due: bool,
}

/// A single durable shard.
pub struct Shard<D> {
    pub dim: usize,
    pub metric: Metric,
    pub index: HnswIndex<D>,
    /// Per-id winning version for last-writer-wins.
    pub versions: HashMap<u64, PointVersion>,
    pub wal: Wal,
    /// Snapshot when the WAL since the last snapshot exceeds this many bytes.
    pub snapshot_threshold_bytes: u64,
    /// WAL offset covered by the last snapshot taken (or recovered).
    pub last_snapshot_offset: u64,
}

impl<D: Fn(Metric, &[u32], &[u32]) -> u32> View for Shard<D> {
    type V = ShardView;

    open spec fn view(&self) -> ShardView {
        ShardView { points: self.index.points(), versions: self.versions@ }
    }
}

/// What a snapshot holds.
pub open spec fn snapshot_view<D: Fn(Metric, &[u32], &[u32]) -> u32>(s: Snapshot<D>) -> ShardView {
    ShardView {
        points: s.index.points(),
        versions: s.versions@.map_values(
            |v: VersionEntry| PointVersion { hlc: v.hlc, tombstone: v.tombstone },
        ),
    }
}

/// What a shard starts from, before the log is replayed, and the offset up to which
/// that covers the log.
pub open spec fn start_of<D: Fn(Metric, &[u32], &[u32]) -> u32>(s: Option<Snapshot<D>>) -> (
    ShardView,
    nat,
) {
    match s {
        Some(snap) => (snapshot_view(snap), snap.wal_offset as nat),
        None => (empty_shard(), 0),
    }
}

/// The index dimensionality of a shard that starts from `s`.
pub open spec fn start_dim<D: Fn(Metric, &[u32], &[u32]) -> u32>(s: Option<Snapshot<D>>, dim: usize) -> nat {
    match s {
        Some(snap) => snap.index.dimension(),
        None => dim as nat,
    }
}

/// `first` is the index that a shard starts from: the snapshot's, or a fresh one.
pub open spec fn starts_from<D: Fn(Metric, &[u32], &[u32]) -> u32>(
    s: Option<Snapshot<D>>,
    dim: usize,
    metric: Metric,
    kernel: D,
    first: HnswIndex<D>,
) -> bool {
    match s {
        Some(snap) => first == snap.index,
        None => is_fresh(first, dim, metric, kernel),
    }
}

/// The ids that `rs` upserts.
pub open spec fn upsert_ids(rs: Seq<RecordView>) -> Set<u64>
    decreases rs.len(),
{
    if rs.len() == 0 {
        Set::empty()
    } else if rs.last().op == WalOp::Upsert {
        upsert_ids(rs.drop_last()).insert(rs.last().id)
    } else {
        upsert_ids(rs.drop_last())
    }
}

/// The ids that the index of a shard that starts from `s` knows.
pub open spec fn start_ids<D: Fn(Metric, &[u32], &[u32]) -> u32>(s: Option<Snapshot<D>>) -> Set<u64> {
    match s {
        Some(snap) => snap.index.id_to_node@.dom(),
        None => Set::empty(),
    }
}

/// An index can number the points of a shard that starts from `s` and replays `rs`: there
/// are no more distinct ids than node numbers.
pub open spec fn room<D: Fn(Metric, &[u32], &[u32]) -> u32>(
    s: Option<Snapshot<D>>,
    rs: Seq<RecordView>,
) -> bool {
    start_ids(s).union(upsert_ids(rs)).len() <= u32::MAX
}

/// The records of the log file `log` that a shard that starts from `s` replays.
pub open spec fn replay_tail<D: Fn(Metric, &[u32], &[u32]) -> u32>(
    s: Option<Snapshot<D>>,
    log: Seq<u8>,
) -> Seq<RecordView> {
    beyond(recovered(log).0, start_of(s).1)
}

impl<D: Fn(Metric, &[u32], &[u32]) -> u32> Shard<D> {
    /// The index is well-formed.
    pub open spec fn wf(self) -> bool {
        self.index.inv()
    }

    /// `r` is what opening a shard gives: the snapshot, if there is one, and then the
    /// records of the log that it does not cover, in order. It fails with the first of
    /// them that stores a vector of another length than the index takes.
    pub open spec fn opened(
        dim: usize,
        metric: Metric,
        kernel: D,
        snapshot_wal_mb: u64,
        batch_ms: u64,
        snapshot: Option<Snapshot<D>>,
        log: Seq<u8>,
        r: Result<(Self, u64), ShardError>,
    ) -> bool {
        let (start, covered) = start_of(snapshot);
        let tail = replay_tail(snapshot, log);
        match r {
            Ok((shard, end)) => {
                &&& shard.wf()
                &&& fits(start, tail, start_dim(snapshot, dim))
                &&& shard@ == replayed_all(start, tail)
                &&& exists|first: HnswIndex<D>| #[trigger]
                    starts_from(snapshot, dim, metric, kernel, first) && index_rebuilt(
                        first,
                        start,
                        tail,
                        shard.index,
                    )
                &&& shard.index.dimension() == start_dim(snapshot, dim)
                &&& shard.dim == dim
                &&& shard.metric == metric
                &&& end == recovered(log).1
                &&& shard.wal == (Wal { len: end, batch_ms, dirty: false })
                &&& shard.snapshot_threshold_bytes == threshold(snapshot_wal_mb)
                &&& shard.last_snapshot_offset == covered
            },
            Err(e) => {
                &&& !fits(start, tail, start_dim(snapshot, dim))
                &&& names_misfit(start, tail, start_dim(snapshot, dim), e)
            },
        }
    }

    /// The versions of a snapshot, as a shard keeps them.
    fn versions_from(entries: &HashMap<u64, VersionEntry>) -> (r: HashMap<u64, PointVersion>)
        ensures
            r@ == entries@.map_values(
                |v: VersionEntry| PointVersion { hlc: v.hlc, tombstone: v.tombstone },
            ),
    {
        let mut out: HashMap<u64, PointVersion> = HashMap::new();
        let ghost all = vstd::std_specs::hash::spec_hash_map_iter(entries).remaining();
        for (id, v) in iter: entries.iter()
            invariant
                iter.seq() == all,
                forall|x: u64| #[trigger]
                    out@.contains_key(x) ==> entries@.contains_key(x) && out@[x] == (PointVersion {
                        hlc: entries@[x].hlc,
                        tombstone: entries@[x].tombstone,
                    }),
                forall|j: int| 0 <= j < iter.index() ==> out@.contains_key(*(#[trigger] all[j]).0),
        {
            let _old = out.insert(*id, PointVersion { hlc: v.hlc, tombstone: v.tombstone });
        }
        proof {
            assert forall|x: u64| out@.contains_key(x) <==> entries@.contains_key(x) by {
                if entries@.contains_key(x) {
                    assert(all.contains((&x, &entries@[x])));
                    let j = all.index_of((&x, &entries@[x]));
                    assert(all[j] == (&x, &entries@[x]));
                    assert(*all[j].0 == x);
                }
            }
            assert(out@ =~= entries@.map_values(
                |v: VersionEntry| PointVersion { hlc: v.hlc, tombstone: v.tombstone },
            ));
        }
        out
    }
}

impl<D: Fn(Metric, &[u32], &[u32]) -> u32> Shard<D> {
    /// Open a shard from its snapshot, if there is one, and the bytes of its log,
    /// recovering any prior state. Returns the shard and the length to which the log
    /// is to be truncated.
    ///
    /// `snapshot_wal_mb` mirrors the node config; `batch_ms` is the WAL sync
    /// batching window (0 = sync per record).
    ///
    /// The index numbers its points with 32 bits, so there may be no more distinct ids
    /// than that; [`Shard::open_checked`] tests it.
    pub fn open(
        dim: usize,
        metric: Metric,
        kernel: D,
        snapshot_wal_mb: u64,
        batch_ms: u64,
        snapshot: Option<Snapshot<D>>,
        log: &[u8],
    ) -> (r: Result<(Self, u64), ShardError>)
        requires
            dim > 0,
            is_kernel(kernel),
            snapshot matches Some(s) ==> s.index.inv(),
            room(snapshot, replay_tail(snapshot, log@)),
        ensures
            Self::opened(dim, metric, kernel, snapshot_wal_mb, batch_ms, snapshot, log@, r),
    {
        let ghost (start, covered) = start_of(snapshot);
        let ghost dims = start_dim(snapshot, dim);
        let ghost ids = start_ids(snapshot).union(upsert_ids(replay_tail(snapshot, log@)));
        // 1. The snapshot gives the index, the versions and the covered offset.
        let (mut index, mut versions, snap_offset) = match snapshot {
            Some(s) => {
                let versions = Self::versions_from(&s.versions);
                (s.index, versions, s.wal_offset)
            },
            None => (HnswIndex::new(dim, metric, kernel), HashMap::new(), 0u64),
        };
        let ghost state = ShardView { points: index.points(), versions: versions@ };
        let ghost first = index;
        assert(state =~= start);
        assert(starts_from(snapshot, dim, metric, kernel, first));
        proof {
            first.a_node_per_id();
            upsert_ids_are_finite(replay_tail(snapshot, log@));
            assert(first.id_to_node@.dom().subset_of(ids)) by {
                assert forall|x: u64| first.id_to_node@.dom().contains(x) implies ids.contains(x) by {
                    if snapshot is None {
                        assert(first.id_to_node@[x] < first.nodes@.len());
                    }
                }
            }
        }
        // 2. WAL recovery: the surviving records and where they end.
        let (records, end) = Wal::recover(log);
        let ghost all = recovered(log@).0;
        proof {
            recovery_is_idempotent(log@);
            frames_len_is_bytes(all);
            assert(all == record_views(records@));
        }
        // 3. Replay only records beyond the snapshot offset: the snapshot already
        //    reflects all writes up to it.
        let mut pos: u64 = 0;
        let mut i: usize = 0;
        assert(all.take(0) =~= Seq::empty());
        assert(fits(start, beyond(all.take(0), covered), dims));
        assert(index_rebuilt(first, start, beyond(all.take(0), covered), index));
        while i < records.len()
            invariant
                index_rebuilt(first, start, beyond(all.take(i as int), covered), index),
                all == record_views(records@),
                frames_len(all) <= u64::MAX,
                forall|j: int| 0 <= j < all.len() ==> (#[trigger] all[j]).storable(),
                i <= all.len(),
                pos == frames_len(all.take(i as int)),
                covered == snap_offset,
                index.inv(),
                index.dimension() == dims,
                ids == start_ids(snapshot).union(upsert_ids(beyond(all, covered))),
                ids.finite(),
                ids.len() <= u32::MAX,
                index.id_to_node@.dom().subset_of(ids),
                fits(start, beyond(all.take(i as int), covered), dims),
                (ShardView { points: index.points(), versions: versions@ }) == replayed_all(
                    start,
                    beyond(all.take(i as int), covered),
                ),
                (start, covered) == start_of(snapshot),
                dims == start_dim(snapshot, dim),
                all == recovered(log@).0,
            decreases all.len() - i,
        {
            let rec: &WalRecord = &records[i];
            proof {
                let t = all.take(i + 1);
                assert(t.drop_last() =~= all.take(i as int));
                assert(t.last() == rec@);
                assert(all[i as int].storable());
                frames_len_grows(all, i + 1);
                assert(rec@.storable());
            }
            let rec_end: u64 = pos + framed_len(rec);
            let ghost done = beyond(all.take(i as int), covered);
            let ghost mid = index;
            if rec_end > snap_offset {
                proof {
                    if rec.op == WalOp::Upsert {
                        beyond_keeps(all, covered, i as int);
                        room_for_one(index, ids, rec.id);
                    }
                }
                match apply_record(&mut index, &mut versions, rec) {
                    Ok(()) => {
                        proof {
                            let more = done.push(rec@);
                            assert(more.drop_last() =~= done);
                            fits_push(start, done, rec@, dims);
                            rebuild_one_more(first, start, done, mid, rec@, index);
                            replay_step_ids(mid, replayed_all(start, done), rec@, index);
                        }
                    },
                    Err(e) => {
                        proof {
                            misfit_stays(start, all, covered, i as int, dims);
                            let n = done.len() as int;
                            let tail = replay_tail(snapshot, log@);
                            assert(tail == beyond(all, covered));
                            assert(tail[n] == rec@);
                            assert(first_misfit(start, tail, start_dim(snapshot, dim), n));
                            assert(names_misfit(
                                start,
                                tail,
                                start_dim(snapshot, dim),
                                ShardError::Index(e),
                            ));
                        }
                        return Err(ShardError::Index(e));
                    },
                }
            }
            pos = rec_end;
            i = i + 1;
        }
        assert(all.take(i as int) =~= all);
        // 4. The log goes on at the recovered (possibly truncated) end.
        let shard = Self {
            dim,
            metric,
            index,
            versions,
            wal: Wal::open(end, batch_ms),
            snapshot_threshold_bytes: match snapshot_wal_mb.checked_mul(1048576) {
                Some(bytes) => bytes,
                None => u64::MAX,
            },
            last_snapshot_offset: snap_offset,
        };
        Ok((shard, end))
    }

    /// Open a shard as [`Shard::open`] does, where its index can number the points; `None`
    /// where there are too many.
    pub fn open_checked(
        dim: usize,
        metric: Metric,
        kernel: D,
        snapshot_wal_mb: u64,
        batch_ms: u64,
        snapshot: Option<Snapshot<D>>,
        log: &[u8],
    ) -> (r: Option<Result<(Self, u64), ShardError>>)
        requires
            dim > 0,
            is_kernel(kernel),
            snapshot matches Some(s) ==> s.index.inv(),
        ensures
            match r {
                Some(res) => room(snapshot, replay_tail(snapshot, log@)) && Self::opened(
                    dim,
                    metric,
                    kernel,
                    snapshot_wal_mb,
                    batch_ms,
                    snapshot,
                    log@,
                    res,
                ),
                None => !room(snapshot, replay_tail(snapshot, log@)),
            },
    {
        if Self::has_room(&snapshot, log) {
            Some(Self::open(dim, metric, kernel, snapshot_wal_mb, batch_ms, snapshot, log))
        } else {
            None
        }
    }

    /// Whether the index can number the points. A log that is short enough settles it;
    /// otherwise the distinct ids are counted.
    fn has_room(snapshot: &Option<Snapshot<D>>, log: &[u8]) -> (r: bool)
        requires
            snapshot matches Some(s) ==> s.index.inv(),
        ensures
            r == room(*snapshot, replay_tail(*snapshot, log@)),
    {
        let ghost covered = start_of(*snapshot).1;
        let ghost all = recovered(log@).0;
        let ghost tail = beyond(all, covered);
        let (size, snap_offset): (u64, u64) = match snapshot {
            Some(s) => {
                proof {
                    s.index.a_node_per_id();
                    assert(s.index.graph().len() == s.index.nodes@.len());
                }
                (s.index.nodes.len() as u64, s.wal_offset)
            },
            None => (0, 0),
        };
        assert(start_ids(*snapshot).finite() && start_ids(*snapshot).len() == size);
        let most: u64 = log.len() as u64 / 33;
        if size + most <= u32::MAX as u64 {
            proof {
                recovered_is_bounded(log@);
                beyond_is_shorter(all, covered);
                upsert_ids_are_finite(tail);
                vstd::set_lib::lemma_len_union(start_ids(*snapshot), upsert_ids(tail));
            }
            return true;
        }
        let mut ids: HashSet<u64> = HashSet::new();
        if let Some(s) = snapshot {
            let mut n: usize = 0;
            while n < s.index.nodes.len()
                invariant
                    n <= s.index.nodes@.len(),
                    forall|x: u64|
                        ids@.contains(x) <==> exists|j: int|
                            0 <= j < n && (#[trigger] s.index.nodes@[j]).id == x,
                decreases s.index.nodes@.len() - n,
            {
                let ghost before = ids@;
                let id: u64 = s.index.nodes[n].id;
                let _new: bool = ids.insert(id);
                proof {
                    assert forall|x: u64|
                        ids@.contains(x) <==> exists|j: int|
                            0 <= j < n + 1 && (#[trigger] s.index.nodes@[j]).id == x by {
                        if before.contains(x) {
                            let j = choose|j: int| 0 <= j < n && (#[trigger] s.index.nodes@[j]).id == x;
                            assert(0 <= j < n + 1 && s.index.nodes@[j].id == x);
                        }
                        assert(s.index.nodes@[n as int].id == id);
                    }
                }
                n = n + 1;
            }
            proof {
                assert forall|x: u64| ids@.contains(x) <==> s.index.id_to_node@.dom().contains(x) by {
                    if s.index.id_to_node@.contains_key(x) {
                        let j = s.index.id_to_node@[x] as int;
                        assert(0 <= j < n && s.index.nodes@[j].id == x);
                    }
                }
            }
        }
        assert(ids@ =~= start_ids(*snapshot));
        let (records, _): (Vec<WalRecord>, u64) = Wal::recover(log);
        proof {
            recovery_is_idempotent(log@);
            frames_len_is_bytes(all);
            assert(all.take(0) =~= Seq::empty());
            assert(start_ids(*snapshot).union(upsert_ids(beyond(all.take(0), covered))) =~= ids@);
        }
        let mut pos: u64 = 0;
        let mut i: usize = 0;
        while i < records.len()
            invariant
                all == record_views(records@),
                frames_len(all) <= u64::MAX,
                forall|j: int| 0 <= j < all.len() ==> (#[trigger] all[j]).storable(),
                i <= all.len(),
                pos == frames_len(all.take(i as int)),
                covered == snap_offset,
                ids@ == start_ids(*snapshot).union(
                    upsert_ids(beyond(all.take(i as int), covered)),
                ),
            decreases all.len() - i,
        {
            let rec: &WalRecord = &records[i];
            let ghost done = beyond(all.take(i as int), covered);
            proof {
                let t = all.take(i + 1);
                assert(t.drop_last() =~= all.take(i as int));
                assert(t.last() == rec@);
                assert(all[i as int].storable());
                frames_len_grows(all, i + 1);
                assert(done.push(rec@).drop_last() =~= done);
                assert(done.push(rec@).last() == rec@);
            }
            pos = pos + framed_len(rec);
            if pos > snap_offset {
                if let WalOp::Upsert = rec.op {
                    let _new: bool = ids.insert(rec.id);
                }
            }
            i = i + 1;
            assert(ids@ =~= start_ids(*snapshot).union(
                upsert_ids(beyond(all.take(i as int), covered)),
            ));
        }
        assert(all.take(i as int) =~= all);
        ids.len() as u64 <= u32::MAX as u64
    }

    pub fn dim(&self) -> (r: usize)
        ensures
            r == self.dim,
    {
        self.dim
    }

    pub fn metric(&self) -> (r: Metric)
        ensures
            r == self.metric,
    {
        self.metric
    }

    pub fn len(&self) -> (r: usize)
        requires
            self.wf(),
        ensures
            r == self@.points.len(),
    {
        self.index.len()
    }

    pub fn is_empty(&self) -> (r: bool)
        requires
            self.wf(),
        ensures
            r == (self@.points.len() == 0),
    {
        self.index.len() == 0
    }

    pub fn wal_offset(&self) -> (r: u64)
        ensures
            r == self.wal.len,
    {
        self.wal.offset()
    }

    /// Whether an incoming `hlc` for `id` loses last-writer-wins against the stored
    /// version. A first write for an id is never stale.
    pub fn is_stale(&self, id: u64, hlc: Hlc) -> (r: bool)
        ensures
            r == stale(self@, id, hlc),
    {
        match self.versions.get(&id) {
            Some(v) => !v.hlc.precedes(&hlc),
            None => false,
        }
    }

    /// Stage an upsert under last-writer-wins: if the stored timestamp for `id` is
    /// not older, the write is stale and there is nothing to append. Otherwise it
    /// wins.
    pub fn upsert_versioned(&self, hlc: Hlc, id: u64, vector: &[u32], payload: Vec<u8>) -> (r: Result<
        Staged,
        ShardError,
    >)
        requires
            25 + 4 * vector@.len() + payload@.len() + 8 < 0x1_0000_0000,
        ensures
            match r {
                Err(e) => vector@.len() != self.dim && e == (ShardError::DimMismatch {
                    expected: self.dim,
                    got: vector@.len() as usize,
                }),
                Ok(Staged::Stale) => vector@.len() == self.dim && stale(self@, id, hlc),
                Ok(Staged::Append(w)) => vector@.len() == self.dim && !stale(self@, id, hlc) && w.wf()
                    && w.record@ == RecordView::upsert(hlc, id, vector@, payload@),
            },
    {
        if vector.len() != self.dim {
            return Err(ShardError::DimMismatch { expected: self.dim, got: vector.len() });
        }
        if self.is_stale(id, hlc) {
            return Ok(Staged::Stale);
        }
        match self.upsert(hlc, id, vector, payload) {
            Ok(w) => Ok(Staged::Append(w)),
            Err(e) => Err(e),
        }
    }

    /// Stage a delete (tombstone) under last-writer-wins: a stale delete is ignored.
    /// A winning delete tombstones the id.
    pub fn delete_versioned(&self, hlc: Hlc, id: u64) -> (r: Staged)
        ensures
            match r {
                Staged::Stale => stale(self@, id, hlc),
                Staged::Append(w) => !stale(self@, id, hlc) && w.wf() && w.record@
                    == RecordView::delete(hlc, id),
            },
    {
        if self.is_stale(id, hlc) {
            return Staged::Stale;
        }
        Staged::Append(self.delete(hlc, id))
    }

    /// Stage an unconditional upsert. It stamps the version with `hlc` but does not
    /// enforce last-writer-wins.
    pub fn upsert(&self, hlc: Hlc, id: u64, vector: &[u32], payload: Vec<u8>) -> (r: Result<
        PendingWrite,
        ShardError,
    >)
        requires
            25 + 4 * vector@.len() + payload@.len() + 8 < 0x1_0000_0000,
        ensures
            match r {
                Err(e) => vector@.len() != self.dim && e == (ShardError::DimMismatch {
                    expected: self.dim,
                    got: vector@.len() as usize,
                }),
                Ok(w) => vector@.len() == self.dim && w.wf() && w.record@ == RecordView::upsert(
                    hlc,
                    id,
                    vector@,
                    payload@,
                ),
            },
    {
        if vector.len() != self.dim {
            return Err(ShardError::DimMismatch { expected: self.dim, got: vector.len() });
        }
        let mut copy: Vec<u32> = Vec::new();
        copy.extend_from_slice(vector);
        assert(copy@ =~= vector@);
        Ok(PendingWrite::new(WalRecord::upsert(hlc, id, copy, payload)))
    }

    /// Stage an unconditional delete.
    pub fn delete(&self, hlc: Hlc, id: u64) -> (r: PendingWrite)
        ensures
            r.wf(),
            r.record@ == RecordView::delete(hlc, id),
    {
        PendingWrite::new(WalRecord::delete(hlc, id))
    }

    /// Commit a write whose frame was appended to the log.
    ///
    /// Where the index has another dimensionality than the shard was opened with, an
    /// upsert is refused by the index and only the log has grown.
    pub fn commit(&mut self, w: PendingWrite) -> (r: Result<Committed, ShardError>)
        requires
            old(self).wf(),
            w.wf(),
            w.record.op == WalOp::Upsert ==> old(self).index.accepts(w.record.id),
            old(self).wal.len + w.frame@.len() <= u64::MAX,
        ensures
            final(self).wf(),
            final(self).dim == old(self).dim,
            final(self).metric == old(self).metric,
            final(self).snapshot_threshold_bytes == old(self).snapshot_threshold_bytes,
            final(self).last_snapshot_offset == old(self).last_snapshot_offset,
            final(self).index.dimension() == old(self).index.dimension(),
            final(self).wal == (Wal {
                len: (old(self).wal.len + w.frame@.len()) as u64,
                dirty: true,
                ..old(self).wal
            }),
            match r {
                Ok(c) => {
                    &&& w.record@.op == WalOp::Upsert ==> w.record@.vector.len() == old(
                        self,
                    ).index.dimension()
                    &&& final(self)@ == written(old(self)@, w.record@)
                    &&& record_indexed(old(self).index, w.record@, final(self).index)
                    &&& c.removed == (w.record@.op == WalOp::Delete && old(
                        self,
                    )@.points.contains_key(w.record@.id))
                    &&& c.snapshot_due == due(
                        final(self).wal.len,
                        old(self).last_snapshot_offset,
                        old(self).snapshot_threshold_bytes,
                    )
                },
                Err(e) => {
                    &&& w.record@.op == WalOp::Upsert
                    &&& w.record@.vector.len() != old(self).index.dimension()
                    &&& e == ShardError::Index(
                        IndexError::DimMismatch {
                            expected: old(self).index.dimension() as usize,
                            got: w.record@.vector.len() as usize,
                        },
                    )
                    &&& final(self)@ == old(self)@
                    &&& final(self).index == old(self).index
                },
            },
    {
        proof {
            frame_moves_offset(w.record@);
        }
        let _end: u64 = self.wal.append(w.frame.as_slice());
        let mut removed: bool = false;
        let tombstone: bool = match w.record.op {
            WalOp::Upsert => {
                if let Err(e) = self.index.insert(w.record.id, w.record.vector.as_slice()) {
                    return Err(ShardError::Index(e));
                }
                false
            },
            WalOp::Delete => {
                removed = self.index.delete(w.record.id);
                true
            },
        };
        let _old = self.versions.insert(
            w.record.id,
            PointVersion { hlc: w.record.hlc, tombstone },
        );
        assert(self@ =~= written(old(self)@, w.record@));
        Ok(Committed { removed, snapshot_due: self.snapshot_due() })
    }

    /// The stored version (timestamp + tombstone) for an id, if the shard has seen it.
    pub fn version(&self, id: u64) -> (r: Option<PointVersion>)
        ensures
            match r {
                Some(v) => self@.versions.contains_key(id) && v == self@.versions[id],
                None => !self@.versions.contains_key(id),
            },
    {
        match self.versions.get(&id) {
            Some(v) => Some(*v),
            None => None,
        }
    }

    /// k-NN search over the live index.
    pub fn search(&self, query: &[u32], k: usize, ef_search: usize) -> (r: Result<
        Vec<(u64, u32)>,
        ShardError,
    >)
        requires
            self.wf(),
        ensures
            match r {
                Ok(found) => query@.len() == self.index.dimension() && searched(
                    self.index,
                    query@,
                    k as nat,
                    ef_search as nat,
                    found@,
                ) && answers(self@.points, self.index.score_of(query@), k as nat, found@),
                Err(e) => query@.len() != self.index.dimension() && e == ShardError::Index(
                    IndexError::DimMismatch {
                        expected: self.index.dimension() as usize,
                        got: query@.len() as usize,
                    },
                ),
            },
    {
        match self.index.search(query, k, ef_search) {
            Ok(found) => Ok(found),
            Err(e) => Err(ShardError::Index(e)),
        }
    }

    /// Stored vector for an id, if live.
    pub fn get(&self, id: u64) -> (r: Option<Vec<u32>>)
        requires
            self.wf(),
        ensures
            match r {
                Some(v) => self@.points.contains_key(id) && v@ == self@.points[id],
                None => !self@.points.contains_key(id),
            },
    {
        self.index.get_vector(id)
    }

    /// Account for a sync of the log.
    pub fn flush(&mut self)
        ensures
            *final(self) == (Shard { wal: Wal { dirty: false, ..old(self).wal }, ..*old(self) }),
    {
        self.wal.flush();
    }

    /// What a snapshot taken now stores beside the index: the covered offset and the
    /// versions. The log is to be synced first.
    pub fn snapshot_now(&self) -> (r: (u64, HashMap<u64, VersionEntry>))
        ensures
            r.0 == self.wal.len,
            r.1@ == self.versions@.map_values(
                |v: PointVersion| VersionEntry { hlc: v.hlc, tombstone: v.tombstone },
            ),
    {
        let mut out: HashMap<u64, VersionEntry> = HashMap::new();
        let ghost all = vstd::std_specs::hash::spec_hash_map_iter(&self.versions).remaining();
        for (id, v) in iter: self.versions.iter()
            invariant
                iter.seq() == all,
                forall|x: u64| #[trigger]
                    out@.contains_key(x) ==> self.versions@.contains_key(x) && out@[x] == (VersionEntry {
                        hlc: self.versions@[x].hlc,
                        tombstone: self.versions@[x].tombstone,
                    }),
                forall|j: int| 0 <= j < iter.index() ==> out@.contains_key(*(#[trigger] all[j]).0),
        {
            let _old = out.insert(*id, VersionEntry { hlc: v.hlc, tombstone: v.tombstone });
        }
        proof {
            let m = self.versions@;
            assert forall|x: u64| out@.contains_key(x) <==> m.contains_key(x) by {
                if m.contains_key(x) {
                    assert(all.contains((&x, &m[x])));
                    let j = all.index_of((&x, &m[x]));
                    assert(all[j] == (&x, &m[x]));
                    assert(*all[j].0 == x);
                }
            }
            assert(out@ =~= m.map_values(
                |v: PointVersion| VersionEntry { hlc: v.hlc, tombstone: v.tombstone },
            ));
        }
        (self.wal.offset(), out)
    }

    /// Account for a snapshot that was stored and covers the log up to `offset`.
    pub fn snapshot_taken(&mut self, offset: u64)
        ensures
            *final(self) == (Shard { last_snapshot_offset: offset, ..*old(self) }),
    {
        self.last_snapshot_offset = offset;
    }

    /// Whether the WAL has grown past the threshold since the last snapshot.
    pub fn snapshot_due(&self) -> (r: bool)
        ensures
            r == due(self.wal.len, self.last_snapshot_offset, self.snapshot_threshold_bytes),
    {
        if self.snapshot_threshold_bytes == 0 {
            return false;
        }
        let grown: u64 = self.wal.offset().saturating_sub(self.last_snapshot_offset);
        grown >= self.snapshot_threshold_bytes
    }
}

/// The snapshot threshold in bytes for a setting in MiB; the largest number where it
/// does not fit.
pub open spec fn threshold(mb: u64) -> u64 {
    if mb * 1048576 <= u64::MAX {
        (mb * 1048576) as u64
    } else {
        u64::MAX
    }
}

/// A snapshot is due: the log of `len` bytes has grown by `threshold` bytes or more
/// since the snapshot that covers `covered`. A threshold of 0 turns snapshots off.
pub open spec fn due(len: u64, covered: u64, threshold: u64) -> bool {
    threshold > 0 && len - covered >= threshold
}

proof fn frame_moves_offset(r: RecordView)
    requires
        r.body_len() + 4 < 0x1_0000_0000,
    ensures
        record_frame(r).len() == r.body_len() + 8,
        4 + de32(record_frame(r).subrange(0, 4)) == record_frame(r).len(),
{
    crate::wal::body_has_len(r);
    crate::codec::le32_len(crate::codec::low32(4 + r.body().len()));
    crate::codec::le32_len(crc32(r.body()));
    crate::codec::le32_roundtrip(crate::codec::low32(4 + r.body().len()));
    assert(record_frame(r).subrange(0, 4) =~= crate::codec::le32(
        crate::codec::low32(4 + r.body().len()),
    ));
}

proof fn frames_len_grows(rs: Seq<RecordView>, n: int)
    requires
        0 <= n <= rs.len(),
    ensures
        frames_len(rs.take(n)) <= frames_len(rs),
    decreases rs.len(),
{
    if n < rs.len() {
        frames_len_grows(rs.drop_last(), n);
        assert(rs.drop_last().take(n) =~= rs.take(n));
    } else {
        assert(rs.take(n) =~= rs);
    }
}

/// The frames of records take as many bytes as their log.
pub proof fn frames_len_is_bytes(rs: Seq<RecordView>)
    requires
        forall|j: int| 0 <= j < rs.len() ==> (#[trigger] rs[j]).storable(),
    ensures
        frames_len(rs) == wal_bytes(rs).len(),
    decreases rs.len(),
{
    if rs.len() > 0 {
        let d = rs.drop_last();
        assert forall|j: int| 0 <= j < d.len() implies (#[trigger] d[j]).storable() by {
            assert(d[j] == rs[j]);
        }
        frames_len_is_bytes(d);
        append_extends_log(d, rs.last());
        assert(d.push(rs.last()) =~= rs);
        assert(rs[rs.len() - 1].storable());
        append_moves_offset(rs.last());
    }
}

/// The ids that records upsert are no more than the records.
pub proof fn upsert_ids_are_finite(rs: Seq<RecordView>)
    ensures
        upsert_ids(rs).finite(),
        upsert_ids(rs).len() <= rs.len(),
    decreases rs.len(),
{
    if rs.len() > 0 {
        upsert_ids_are_finite(rs.drop_last());
    }
}

/// The ids that two runs of records upsert are those of both.
pub proof fn upsert_ids_in_two(a: Seq<RecordView>, b: Seq<RecordView>)
    ensures
        upsert_ids(a + b) == upsert_ids(a).union(upsert_ids(b)),
    decreases b.len(),
{
    if b.len() == 0 {
        assert(a + b =~= a);
        assert(upsert_ids(a).union(Set::empty()) =~= upsert_ids(a));
    } else {
        upsert_ids_in_two(a, b.drop_last());
        assert((a + b).drop_last() =~= a + b.drop_last());
        assert((a + b).last() == b.last());
        assert(upsert_ids(a + b) =~= upsert_ids(a).union(upsert_ids(b)));
    }
}

proof fn beyond_is_shorter(rs: Seq<RecordView>, covered: nat)
    ensures
        beyond(rs, covered).len() <= rs.len(),
    decreases rs.len(),
{
    if rs.len() > 0 {
        beyond_is_shorter(rs.drop_last(), covered);
    }
}

/// An upsert whose frame ends beyond the offset is among those that are replayed.
proof fn beyond_keeps(rs: Seq<RecordView>, covered: nat, i: int)
    requires
        0 <= i < rs.len(),
        frames_len(rs.take(i + 1)) > covered,
        rs[i].op == WalOp::Upsert,
    ensures
        upsert_ids(beyond(rs, covered)).contains(rs[i].id),
    decreases rs.len(),
{
    let d = rs.drop_last();
    if i == rs.len() - 1 {
        assert(rs.take(i + 1) =~= rs);
    } else {
        assert(d.take(i + 1) =~= rs.take(i + 1));
        beyond_keeps(d, covered, i);
    }
    let kept = beyond(d, covered);
    assert(kept.push(rs.last()).drop_last() =~= kept);
}

/// An index that knows only ids of `ids`, of which there are no more than node numbers,
/// accepts each of them.
proof fn room_for_one<D: Fn(Metric, &[u32], &[u32]) -> u32>(
    index: HnswIndex<D>,
    ids: Set<u64>,
    id: u64,
)
    requires
        index.inv(),
        index.id_to_node@.dom().subset_of(ids),
        ids.finite(),
        ids.len() <= u32::MAX,
        ids.contains(id),
    ensures
        index.accepts(id),
{
    let known = index.id_to_node@.dom();
    index.a_node_per_id();
    if !known.contains(id) {
        vstd::set_lib::lemma_len_subset(known.insert(id), ids);
    }
}

/// Replaying a record makes an index know at most that record's id in addition.
proof fn replay_step_ids<D: Fn(Metric, &[u32], &[u32]) -> u32>(
    a: HnswIndex<D>,
    s: ShardView,
    r: RecordView,
    b: HnswIndex<D>,
)
    requires
        replay_step(a, s, r, b),
    ensures
        b.id_to_node@.dom().subset_of(a.id_to_node@.dom().insert(r.id)),
        r.op == WalOp::Delete ==> b.id_to_node@ == a.id_to_node@,
{
    if !skipped(s, r) && r.op == WalOp::Upsert && !a.id_to_node@.contains_key(r.id) {
        let level = choose|level: nat| added_at(a, r.id, r.vector, level, b);
        assert(added_at(a, r.id, r.vector, level, b));
    }
}

proof fn fits_push(s: ShardView, rs: Seq<RecordView>, r: RecordView, dim: nat)
    requires
        fits(s, rs, dim),
        !misfit(replayed_all(s, rs), r, dim),
    ensures
        fits(s, rs.push(r), dim),
{
    let more = rs.push(r);
    assert forall|i: int| 0 <= i < more.len() implies !#[trigger] misfit(
        replayed_all(s, more.take(i)),
        more[i],
        dim,
    ) by {
        if i < rs.len() {
            assert(more.take(i) =~= rs.take(i));
            assert(!misfit(replayed_all(s, rs.take(i)), rs[i], dim));
        } else {
            assert(more.take(i) =~= rs);
        }
    }
}

/// A record that does not fit keeps the whole log from fitting.
proof fn misfit_stays(s: ShardView, rs: Seq<RecordView>, covered: nat, i: int, dim: nat)
    requires
        0 <= i < rs.len(),
        frames_len(rs.take(i + 1)) > covered,
        misfit(replayed_all(s, beyond(rs.take(i), covered)), rs[i], dim),
    ensures
        !fits(s, beyond(rs, covered), dim),
        beyond(rs.take(i), covered).len() < beyond(rs, covered).len(),
        beyond(rs, covered).take(beyond(rs.take(i), covered).len() as int) == beyond(
            rs.take(i),
            covered,
        ),
        beyond(rs, covered)[beyond(rs.take(i), covered).len() as int] == rs[i],
    decreases rs.len(),
{
    let all = beyond(rs, covered);
    if i == rs.len() - 1 {
        assert(rs.take(i + 1) =~= rs);
        assert(rs.drop_last() =~= rs.take(i));
        let done = beyond(rs.take(i), covered);
        assert(all == done.push(rs[i]));
        let j = done.len() as int;
        assert(all.take(j) =~= done);
        assert(misfit(replayed_all(s, all.take(j)), all[j], dim));
    } else {
        let d = rs.drop_last();
        assert(d.take(i) =~= rs.take(i));
        assert(d.take(i + 1) =~= rs.take(i + 1));
        misfit_stays(s, d, covered, i, dim);
        let done = beyond(d, covered);
        let n = beyond(rs.take(i), covered).len() as int;
        assert(all.take(n) =~= done.take(n));
        let j = choose|j: int|
            0 <= j < done.len() && #[trigger] misfit(replayed_all(s, done.take(j)), done[j], dim);
        assert(all.take(j) =~= done.take(j));
        assert(all[j] == done[j]);
        assert(misfit(replayed_all(s, all.take(j)), all[j], dim));
    }
}

/// A write that is applied twice changes nothing the second time.
pub proof fn rewrite_changes_nothing(s: ShardView, r: RecordView)
    ensures
        stale(lww(s, r), r.id, r.hlc),
        lww(lww(s, r), r) == lww(s, r),
{
    order_is_total(r.hlc, r.hlc);
}

/// Versions never go back: after a write the id has a version no older than the write
/// and no older than the one before, and other ids are as they were.
pub proof fn versions_advance(s: ShardView, r: RecordView, other: u64)
    requires
        other != r.id,
    ensures
        lww(s, r).versions.contains_key(r.id),
        !lww(s, r).versions[r.id].hlc.older(r.hlc),
        s.versions.contains_key(r.id) ==> !lww(s, r).versions[r.id].hlc.older(s.versions[r.id].hlc),
        lww(s, r).versions.contains_key(other) == s.versions.contains_key(other),
        s.versions.contains_key(other) ==> lww(s, r).versions[other] == s.versions[other],
        lww(s, r).points.contains_key(other) == s.points.contains_key(other),
        s.points.contains_key(other) ==> lww(s, r).points[other] == s.points[other],
{
    order_is_total(r.hlc, r.hlc);
    if s.versions.contains_key(r.id) {
        order_is_total(s.versions[r.id].hlc, r.hlc);
        order_is_total(s.versions[r.id].hlc, s.versions[r.id].hlc);
    }
}

/// A deleted point stays deleted under every write that is not newer than its
/// tombstone.
pub proof fn tombstone_holds(s: ShardView, r: RecordView)
    requires
        s.versions.contains_key(r.id),
        s.versions[r.id].tombstone,
        !s.points.contains_key(r.id),
        !s.versions[r.id].hlc.older(r.hlc),
    ensures
        !lww(s, r).points.contains_key(r.id),
        lww(s, r).versions[r.id].tombstone,
{
}

/// Replaying the writes that a shard accepted, in order, gives what accepting them
/// gave.
pub proof fn replay_of_accepted(s: ShardView, rs: Seq<RecordView>)
    requires
        forall|i: int|
            0 <= i < rs.len() ==> !stale(
                lww_all(s, rs.take(i)),
                (#[trigger] rs[i]).id,
                rs[i].hlc,
            ),
    ensures
        replayed_all(s, rs) == lww_all(s, rs),
    decreases rs.len(),
{
    if rs.len() > 0 {
        let d = rs.drop_last();
        let n = rs.len() - 1;
        assert forall|i: int| 0 <= i < d.len() implies !stale(
            lww_all(s, d.take(i)),
            (#[trigger] d[i]).id,
            d[i].hlc,
        ) by {
            assert(d.take(i) =~= rs.take(i));
            assert(d[i] == rs[i]);
        }
        replay_of_accepted(s, d);
        assert(rs.take(n) =~= d);
        assert(!stale(lww_all(s, rs.take(n)), rs[n].id, rs[n].hlc));
        let t = lww_all(s, d);
        if t.versions.contains_key(rs[n].id) {
            order_is_total(t.versions[rs[n].id].hlc, rs[n].hlc);
        }
    }
}

/// Replaying two runs of records is replaying them as one.
pub proof fn replay_in_two(s: ShardView, a: Seq<RecordView>, b: Seq<RecordView>)
    ensures
        replayed_all(s, a + b) == replayed_all(replayed_all(s, a), b),
    decreases b.len(),
{
    if b.len() == 0 {
        assert(a + b =~= a);
    } else {
        replay_in_two(s, a, b.drop_last());
        assert((a + b).drop_last() =~= a + b.drop_last());
        assert((a + b).last() == b.last());
    }
}

/// The records beyond the first `n` are those whose frames end beyond the frames of these.
pub proof fn beyond_is_tail(rs: Seq<RecordView>, n: int)
    requires
        0 <= n <= rs.len(),
    ensures
        beyond(rs, frames_len(rs.take(n))) == rs.skip(n),
    decreases rs.len(),
{
    let covered = frames_len(rs.take(n));
    if rs.len() == 0 {
        assert(rs.skip(n) =~= Seq::empty());
    } else if n == rs.len() {
        assert(rs.take(n) =~= rs);
        let d = rs.drop_last();
        beyond_is_empty(d, covered);
        assert(rs.skip(n) =~= Seq::empty());
    } else {
        let d = rs.drop_last();
        assert(d.take(n) =~= rs.take(n));
        beyond_is_tail(d, n);
        frames_len_grows(d, n);
        assert(rs.skip(n) =~= d.skip(n).push(rs.last()));
    }
}

proof fn beyond_is_empty(rs: Seq<RecordView>, covered: nat)
    requires
        frames_len(rs) <= covered,
    ensures
        beyond(rs, covered) == Seq::<RecordView>::empty(),
    decreases rs.len(),
{
    if rs.len() > 0 {
        beyond_is_empty(rs.drop_last(), covered);
    }
}

/// Recovering from a snapshot that was taken after the first `n` writes, and the tail
/// of the log, gives what replaying the whole log gives.
pub proof fn snapshot_and_tail_are_whole(s: ShardView, rs: Seq<RecordView>, n: int)
    requires
        0 <= n <= rs.len(),
    ensures
        replayed_all(
            replayed_all(s, rs.take(n)),
            beyond(rs, frames_len(rs.take(n))),
        ) == replayed_all(s, rs),
{
    beyond_is_tail(rs, n);
    replay_in_two(s, rs.take(n), rs.skip(n));
    assert(rs.take(n) + rs.skip(n) =~= rs);
}

/// A shard that is opened again after a crash, without a snapshot, holds what it held
/// after the accepted writes whose frames are in the log. A partly written frame
/// behind them is dropped.
pub proof fn recovery_restores_accepted(rs: Seq<RecordView>, torn: Seq<u8>)
    requires
        forall|i: int| 0 <= i < rs.len() ==> (#[trigger] rs[i]).storable(),
        forall|i: int|
            0 <= i < rs.len() ==> !stale(
                lww_all(empty_shard(), rs.take(i)),
                (#[trigger] rs[i]).id,
                rs[i].hlc,
            ),
        crate::frame::intact_body(torn) is None,
    ensures
        replayed_all(empty_shard(), beyond(recovered(wal_bytes(rs) + torn).0, 0)) == lww_all(
            empty_shard(),
            rs,
        ),
        recovered(wal_bytes(rs) + torn).1 == wal_bytes(rs).len(),
{
    recovery_returns_appended(rs, torn);
    assert(rs.take(0) =~= Seq::empty());
    beyond_is_tail(rs, 0);
    assert(rs.skip(0) =~= rs);
    replay_of_accepted(empty_shard(), rs);
}

/// A shard that is opened again from a snapshot, taken after the first `n` accepted
/// writes, holds what it held after all those whose frames are in the log.
pub proof fn recovery_from_snapshot_restores_accepted(rs: Seq<RecordView>, torn: Seq<u8>, n: int)
    requires
        0 <= n <= rs.len(),
        forall|i: int| 0 <= i < rs.len() ==> (#[trigger] rs[i]).storable(),
        forall|i: int|
            0 <= i < rs.len() ==> !stale(
                lww_all(empty_shard(), rs.take(i)),
                (#[trigger] rs[i]).id,
                rs[i].hlc,
            ),
        crate::frame::intact_body(torn) is None,
    ensures
        replayed_all(
            lww_all(empty_shard(), rs.take(n)),
            beyond(recovered(wal_bytes(rs) + torn).0, wal_bytes(rs.take(n)).len()),
        ) == lww_all(empty_shard(), rs),
{
    let head = rs.take(n);
    recovery_returns_appended(rs, torn);
    assert forall|i: int| 0 <= i < head.len() implies !stale(
        lww_all(empty_shard(), head.take(i)),
        (#[trigger] head[i]).id,
        head[i].hlc,
    ) && head[i].storable() by {
        assert(head.take(i) =~= rs.take(i));
        assert(head[i] == rs[i]);
    }
    replay_of_accepted(empty_shard(), head);
    replay_of_accepted(empty_shard(), rs);
    frames_len_is_bytes(head);
    snapshot_and_tail_are_whole(empty_shard(), rs, n);
}

/// The write to `id` that wins among `rs`: the newest, and of equally new ones the
/// first.
pub open spec fn winner(rs: Seq<RecordView>, id: u64) -> Option<RecordView>
    decreases rs.len(),
{
    if rs.len() == 0 {
        None
    } else {
        let w = winner(rs.drop_last(), id);
        let r = rs.last();
        if r.id != id {
            w
        } else {
            match w {
                Some(b) => if b.hlc.older(r.hlc) {
                    Some(r)
                } else {
                    w
                },
                None => Some(r),
            }
        }
    }
}

/// The winner is one of the writes, and none is newer.
pub proof fn winner_is_newest(rs: Seq<RecordView>, id: u64)
    ensures
        match winner(rs, id) {
            Some(w) => rs.contains(w) && w.id == id && forall|i: int|
                0 <= i < rs.len() && (#[trigger] rs[i]).id == id ==> !w.hlc.older(rs[i].hlc),
            None => forall|i: int| 0 <= i < rs.len() ==> (#[trigger] rs[i]).id != id,
        },
    decreases rs.len(),
{
    if rs.len() > 0 {
        let d = rs.drop_last();
        let n = rs.len() - 1;
        winner_is_newest(d, id);
        assert forall|i: int| 0 <= i < d.len() implies d[i] == rs[i] by {}
        let w = winner(rs, id);
        if winner(d, id) is Some {
            let b = winner(d, id).unwrap();
            let j = d.index_of(b);
            assert(rs[j] == b);
            assert(rs.contains(b));
        }
        assert(rs.contains(rs[n]));
        if w is Some {
            let x = w.unwrap();
            assert forall|i: int| 0 <= i < rs.len() && (#[trigger] rs[i]).id == id implies !x.hlc.older(
                rs[i].hlc,
            ) by {
                order_is_total(x.hlc, x.hlc);
                if i < n {
                    assert(d[i] == rs[i]);
                    if winner(d, id) is Some {
                        let b = winner(d, id).unwrap();
                        if b.hlc.older(x.hlc) && x.hlc.older(rs[i].hlc) {
                            order_is_transitive(b.hlc, x.hlc, rs[i].hlc);
                        }
                    }
                }
            }
        } else {
            assert forall|i: int| 0 <= i < rs.len() implies (#[trigger] rs[i]).id != id by {
                if i < n {
                    assert(d[i] == rs[i]);
                }
            }
        }
    }
}

/// What a shard holds for an id is what the winning write to it says.
pub proof fn state_is_winner(rs: Seq<RecordView>, id: u64)
    ensures
        ({
            let s = lww_all(empty_shard(), rs);
            match winner(rs, id) {
                Some(w) => {
                    &&& s.versions.contains_key(id)
                    &&& s.versions[id] == (PointVersion {
                        hlc: w.hlc,
                        tombstone: w.op == WalOp::Delete,
                    })
                    &&& s.points.contains_key(id) <==> w.op == WalOp::Upsert
                    &&& w.op == WalOp::Upsert ==> s.points[id] == w.vector
                },
                None => !s.versions.contains_key(id) && !s.points.contains_key(id),
            }
        }),
    decreases rs.len(),
{
    if rs.len() > 0 {
        state_is_winner(rs.drop_last(), id);
    }
}

/// Replicas converge: two shards that saw the same writes, in whatever order and
/// however often, hold the same, where no two different writes to one id have the
/// same timestamp. The newest write to each id has won.
pub proof fn replicas_converge(a: Seq<RecordView>, b: Seq<RecordView>)
    requires
        forall|r: RecordView| a.contains(r) <==> b.contains(r),
        forall|r: RecordView, q: RecordView| #[trigger]
            a.contains(r) && #[trigger] a.contains(q) && r.id == q.id && r.hlc == q.hlc ==> r == q,
    ensures
        lww_all(empty_shard(), a) == lww_all(empty_shard(), b),
{
    let s = lww_all(empty_shard(), a);
    let t = lww_all(empty_shard(), b);
    assert forall|id: u64| winner(a, id) == winner(b, id) by {
        winner_is_newest(a, id);
        winner_is_newest(b, id);
        match (winner(a, id), winner(b, id)) {
            (Some(v), Some(w)) => {
                let i = b.index_of(v);
                assert(a.contains(v) && b.contains(v));
                assert(b[i] == v);
                let j = a.index_of(w);
                assert(b.contains(w) && a.contains(w));
                assert(a[j] == w);
                order_is_total(v.hlc, w.hlc);
            },
            (Some(v), None) => {
                assert(b.contains(v));
                let i = b.index_of(v);
                assert(b[i] == v);
            },
            (None, Some(w)) => {
                assert(a.contains(w));
                let j = a.index_of(w);
                assert(a[j] == w);
            },
            (None, None) => {},
        }
    }
    assert forall|id: u64|
        #![trigger s.versions.contains_key(id)]
        #![trigger t.versions.contains_key(id)]
        s.versions.contains_key(id) == t.versions.contains_key(id) && (s.versions.contains_key(id)
            ==> s.versions[id] == t.versions[id]) by {
        assert(winner(a, id) == winner(b, id));
        state_is_winner(a, id);
        state_is_winner(b, id);
    }
    assert forall|id: u64|
        #![trigger s.points.contains_key(id)]
        #![trigger t.points.contains_key(id)]
        s.points.contains_key(id) == t.points.contains_key(id) && (s.points.contains_key(id)
            ==> s.points[id] == t.points[id]) by {
        assert(winner(a, id) == winner(b, id));
        state_is_winner(a, id);
        state_is_winner(b, id);
    }
    assert(s.points =~= t.points);
    assert(s.versions =~= t.versions);
}

/// A replica that takes in the records of another under last-writer-wins catches up
/// with it, and loses nothing newer that it held: afterwards its version of each id is
/// no older than the one taken in and no older than its own before.
pub proof fn transfer_catches_up(t: ShardView, rs: Seq<RecordView>, id: u64)
    ensures
        forall|i: int|
            0 <= i < rs.len() && (#[trigger] rs[i]).id == id ==> lww_all(t, rs).versions.contains_key(id)
                && !lww_all(t, rs).versions[id].hlc.older(rs[i].hlc),
        t.versions.contains_key(id) ==> lww_all(t, rs).versions.contains_key(id) && !lww_all(
            t,
            rs,
        ).versions[id].hlc.older(t.versions[id].hlc),
    decreases rs.len(),
{
    if rs.len() == 0 {
        if t.versions.contains_key(id) {
            order_is_total(t.versions[id].hlc, t.versions[id].hlc);
        }
    } else {
        let d = rs.drop_last();
        let n = rs.len() - 1;
        let s = lww_all(t, d);
        let r = rs[n];
        transfer_catches_up(t, d, id);
        order_is_total(r.hlc, r.hlc);
        let after = lww_all(t, rs);
        if r.id == id && s.versions.contains_key(id) && !stale(s, id, r.hlc) {
            let old_hlc = s.versions[id].hlc;
            assert forall|h: Hlc| !old_hlc.older(h) implies !r.hlc.older(h) by {
                if r.hlc.older(h) {
                    order_is_transitive(old_hlc, r.hlc, h);
                }
            }
        }
        assert forall|i: int| 0 <= i < rs.len() && (#[trigger] rs[i]).id == id implies after.versions.contains_key(
            id,
        ) && !after.versions[id].hlc.older(rs[i].hlc) by {
            if i < n {
                assert(d[i] == rs[i]);
            }
        }
    }
}

} // verus!
