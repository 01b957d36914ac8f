//! What the calls that keep data promise of their results: stores, shards, logs, and the
//! settings and requests that they are made with.

use std::collections::{BTreeSet, HashMap};

use vstd::prelude::*;

use crate::args::{parse_args, ArgsError, LaunchArgs};
use crate::config::{ConfigError, NodeConfig};
use crate::distance::Metric;
use crate::frame::next_frame;
use crate::hints::{decode_hint, encode_hint, Hint, HintLog};
use crate::hlc::{Hlc, HlcClock};
use crate::hnsw::{HnswIndex, Violation};
use crate::index::{BruteForceIndex, IndexError, VectorIndex};
use crate::manager::{
    bootstrap, join_next, join_node, join_peer, leave_node, schema_with_defaults, write_error, JoinNext, JoinPeer,
    ManagerError,
};
use crate::meta::{CollectionSchema, MetaRequest, MetaResponse, MetaState, ShardAssignment, ShardState};
use crate::placement::{shard_for_id, Ring};
use crate::raft::{EntryPayload, LastApplied, LogStore, Snapshots, StateMachine};
use crate::router::RouterError;
use crate::service::{
    cluster_info, create_collection, create_outcome, drop_outcome, manager_err_to_status, parse_join_target,
    router_err_to_status,
    search_limits, shard_state_to_proto, ClusterInfo, Code, CreateError, WireMetric, WireShardState,
};
use crate::shard::{Committed, PendingWrite, PointVersion, Shard, ShardError, Staged, WriteOutcome};
use crate::shards::{shard_dir_name, ShardStore, ShardStoreError, StoredPoint};
use crate::snapshot::{Snapshot, VersionEntry};
use crate::store::{Store, StoreError};
use crate::text::{parse_u64, to_decimal};
use crate::transfer::{apply_replica_get, apply_stream_shard, from_wire, pull_record, pull_shard, to_wire, WirePoint};
use crate::wal::{decode_body, Wal, WalOp, WalRecord};

verus! {

use crate::args::{
    arguments_come_to_an_end, bad_argument_is_refused, bootstrap_stands_alone, flag_sets_what_it_names, no_args,
    opt_texts,
};
use crate::distance::{score, signed};
use crate::durability::{
    appended_entry_is_read_back, entries_take_effect_in_order, is_news, replica_answers_with_its_versions,
    stream_holds_every_version, upsert_leaves_other_points,
};
use crate::frame::{crc32, framed};
use crate::graph::{links, reachable};
use crate::hints::HintView;
use crate::index::exact_search_returns_the_nearest;
use crate::meta::{applied, assignment_views, map_rows, note_of, AssignmentView};
use crate::placement::xxh64_of;
use crate::raft::is_last;
use crate::shard::{beyond, empty_shard, lww_all, upsert_ids};
use crate::store::{looked_up, point_list, upsert_is_read_back, with_points};
use crate::text::{comma_parts, decimal, parsed_u64, texts};
use crate::transfer::wire_views;
use crate::wal::{record_frame, record_views, recovered, wal_bytes, RecordView};

proof fn lookup_holds(points: Map<u64, Seq<u32>>, ids: Seq<u64>, id: u64, v: Seq<u32>)
    ensures
        looked_up(points, ids).contains((id, v)) <==> ids.contains(id) && points.contains_key(id) && points[id] == v,
    decreases ids.len(),
{
    if ids.len() > 0 {
        let d = ids.drop_last();
        let last = ids[ids.len() - 1];
        lookup_holds(points, d, id, v);
        let head = looked_up(points, d);
        let all = looked_up(points, ids);
        assert(ids.contains(id) <==> d.contains(id) || id == last) by {
            if d.contains(id) {
                assert(ids[d.index_of(id)] == id);
            }
            if ids.contains(id) && id != last {
                assert(d[ids.index_of(id)] == id);
            }
        }
        if points.contains_key(last) {
            let own = (last, points[last]);
            assert(all == head.push(own));
            if head.contains((id, v)) {
                assert(all[head.index_of((id, v))] == (id, v));
            }
            if (id, v) == own {
                assert(all[head.len() as int] == (id, v));
            }
            if all.contains((id, v)) && (id, v) != own {
                assert(head[all.index_of((id, v))] == (id, v));
            }
        }
    }
}

/// What was upserted is got back: each point under its id as the last of the batch with
/// that id had it, and points that the batch does not name as they were.
pub proof fn upserted_points_are_got<D: Copy + Fn(Metric, &[u32], &[u32]) -> u32>(
    store: &mut Store<D>,
    after: &Store<D>,
    name: &str,
    points: &[(u64, Vec<u32>)],
    count: u64,
    ids: &[u64],
    found: Vec<(u64, Vec<u32>)>,
    i: int,
    other: u64,
)
    requires
        call_ensures(Store::<D>::upsert, (store, name, points), Ok::<u64, StoreError>(count)),
        *after == *final(store),
        call_ensures(
            Store::<D>::get,
            (after, name, ids),
            Ok::<Vec<(u64, Vec<u32>)>, StoreError>(found),
        ),
        0 <= i < points@.len(),
        forall|j: int| i < j < points@.len() ==> (#[trigger] points@[j]).0 != points@[i].0,
        forall|j: int| 0 <= j < points@.len() ==> (#[trigger] points@[j]).0 != other,
    ensures
        count == points@.len(),
        old(store).held().contains_key(name@),
        ids@.contains(points@[i].0) ==> point_list(found@).contains((points@[i].0, points@[i].1@)),
        ids@.contains(other) ==> (point_list(found@).contains((other, old(store).held()[name@].points[other]))
            <==> old(store).held()[name@].points.contains_key(other)),
        forall|k: int| 0 <= k < points@.len() ==> (#[trigger] points@[k]).1@.len()
            == old(store).held()[name@].schema.dim,
{
    let c = old(store).held()[name@];
    let n = points@.len();
    let now = with_points(c.points, points@, n);
    upsert_is_read_back(c.points, points@, i, n);
    upsert_leaves_other_points(c.points, points@, n, other);
    lookup_holds(now, ids@, points@[i].0, points@[i].1@);
    lookup_holds(now, ids@, other, c.points[other]);
}

/// What was deleted is not got back, and what was not is.
pub proof fn deleted_points_are_gone<D: Copy + Fn(Metric, &[u32], &[u32]) -> u32>(
    store: &mut Store<D>,
    after: &Store<D>,
    name: &str,
    gone: &[u64],
    count: u64,
    ids: &[u64],
    found: Vec<(u64, Vec<u32>)>,
    id: u64,
    v: Seq<u32>,
)
    requires
        call_ensures(Store::<D>::delete, (store, name, gone), Ok::<u64, StoreError>(count)),
        *after == *final(store),
        call_ensures(
            Store::<D>::get,
            (after, name, ids),
            Ok::<Vec<(u64, Vec<u32>)>, StoreError>(found),
        ),
    ensures
        count + final(store).held()[name@].points.len() == old(store).held()[name@].points.len(),
        point_list(found@).contains((id, v)) <==> ids@.contains(id) && !gone@.contains(id) && old(store).held()[name@].points.contains_key(id) && old(store).held()[name@].points[id] == v,
{
    let c = old(store).held()[name@];
    let left = c.points.remove_keys(gone@.to_set());
    lookup_holds(left, ids@, id, v);
}

/// A collection that was created is there under its name, empty, with 8 shards and 3
/// replicas where none were asked for; creating it again fails and changes nothing.
pub proof fn created_collection_is_there<D: Copy + Fn(Metric, &[u32], &[u32]) -> u32>(
    store: &mut Store<D>,
    name: &str,
    dim: u32,
    metric: Metric,
    shard_count: u32,
    replication_n: u32,
    r: Result<(), StoreError>,
)
    requires
        call_ensures(
            Store::<D>::create_collection,
            (store, name, dim, metric, shard_count, replication_n),
            r,
        ),
    ensures
        r is Ok <==> name@.len() > 0 && dim > 0 && !old(store).held().contains_key(name@),
        r is Err ==> final(store).held() == old(store).held(),
        (name@.len() == 0 || dim == 0) <==> r matches Err(StoreError::Invalid(why)),
        name@.len() > 0 && dim > 0 && old(store).held().contains_key(name@) ==> (r matches Err(
            StoreError::AlreadyExists(n),
        ) && n@ == name@),
        r is Ok ==> {
            let c = final(store).held()[name@];
            &&& final(store).held().contains_key(name@)
            &&& c.points.dom() == Set::<u64>::empty()
            &&& c.schema.dim == dim
            &&& c.schema.metric == metric
            &&& (shard_count > 0 ==> c.schema.shard_count == shard_count)
            &&& (shard_count == 0 ==> c.schema.shard_count == 8)
            &&& (replication_n > 0 ==> c.schema.replication_n == replication_n)
            &&& (replication_n == 0 ==> c.schema.replication_n == 3)
        },
        forall|other: Seq<char>| #[trigger]
            old(store).held().contains_key(other) ==> final(store).held().contains_key(other) && final(store).held()[other] == old(store).held()[other],
{
}

/// A collection that was dropped is gone, and the others stay.
pub proof fn dropped_collection_is_gone<D: Copy + Fn(Metric, &[u32], &[u32]) -> u32>(
    store: &mut Store<D>,
    name: &str,
    r: Result<(), StoreError>,
    other: Seq<char>,
)
    requires
        call_ensures(Store::<D>::drop_collection, (store, name), r),
    ensures
        r is Ok <==> old(store).held().contains_key(name@),
        !final(store).held().contains_key(name@),
        other != name@ ==> (final(store).held().contains_key(other) <==> old(store).held().contains_key(other)),
        other != name@ && old(store).held().contains_key(other) ==> final(store).held()[other]
            == old(store).held()[other],
{
}

/// An exact search returns as many points as were asked for, or all, in order of score
/// and then id, and leaves out none that would come before one of them.
pub proof fn exact_search_call_returns_the_nearest<D: Fn(Metric, &[u32], &[u32]) -> u32>(
    index: &BruteForceIndex<D>,
    query: &[u32],
    k: usize,
    ef_search: usize,
    r: Result<Vec<(u64, u32)>, IndexError>,
)
    requires
        call_ensures(<BruteForceIndex<D> as VectorIndex>::search, (index, query, k, ef_search), r),
        index.points().dom().finite(),
        forall|id: u64| #[trigger]
            index.points().contains_key(id) ==> index.score_of(query@)(id) % 0x8000_0000 <= 0x7F80_0000,
    ensures
        r is Ok <==> query@.len() == index.dimension(),
        r matches Ok(found) ==> {
            &&& found@.len() == if k < index.points().len() { k as nat } else { index.points().len() }
            &&& forall|i: int, j: int|
                0 <= i < j < found@.len() ==> {
                    let (a, b) = (#[trigger] found@[i], #[trigger] found@[j]);
                    signed(a.1) < signed(b.1) || (signed(a.1) == signed(b.1) && a.0 < b.0)
                }
            &&& forall|id: u64, i: int|
                #![trigger index.points().contains_key(id), found@[i]]
                index.points().contains_key(id) && 0 <= i < found@.len() && (forall|j: int|
                    0 <= j < found@.len() ==> (#[trigger] found@[j]).0 != id) ==> signed(found@[i].1) < signed(
                    index.score_of(query@)(id),
                ) || (signed(found@[i].1) == signed(index.score_of(query@)(id)) && found@[i].0 < id)
        },
{
    if r is Ok {
        exact_search_returns_the_nearest(index.points(), index.score_of(query@), k as nat, r->Ok_0@);
    }
}

/// A versioned upsert is staged exactly where the vector fits and the shard has no
/// version as new; what is staged is the write.
pub proof fn upsert_call_stages_news<D: Fn(Metric, &[u32], &[u32]) -> u32>(
    shard: &Shard<D>,
    hlc: Hlc,
    id: u64,
    vector: &[u32],
    payload: Vec<u8>,
    r: Result<Staged, ShardError>,
)
    requires
        call_ensures(Shard::<D>::upsert_versioned, (shard, hlc, id, vector, payload), r),
    ensures
        r is Err <==> vector@.len() != shard.dim,
        vector@.len() == shard.dim && is_news(shard@, id, hlc) ==> (r matches Ok(Staged::Append(w)) && w.record.hlc
            == hlc && w.record.id == id && w.record.op == WalOp::Upsert && w.record.vector@ == vector@
            && w.record.payload@ == payload@),
        vector@.len() == shard.dim && !is_news(shard@, id, hlc) ==> (r matches Ok(Staged::Stale)),
{
    if r is Ok && r->Ok_0 is Append {
        let w = r->Ok_0->Append_0;
        assert(w.record@.vector == w.record.vector@);
    }
}

/// A versioned delete is staged exactly where the shard has no version as new; what is
/// staged is the tombstone.
pub proof fn delete_call_stages_news<D: Fn(Metric, &[u32], &[u32]) -> u32>(
    shard: &Shard<D>,
    hlc: Hlc,
    id: u64,
    r: Staged,
)
    requires
        call_ensures(Shard::<D>::delete_versioned, (shard, hlc, id), r),
    ensures
        is_news(shard@, id, hlc) ==> (r matches Staged::Append(w) && w.record.hlc == hlc && w.record.id == id
            && w.record.op == WalOp::Delete && w.record.vector@.len() == 0),
        !is_news(shard@, id, hlc) ==> r is Stale,
{
    if r is Append {
        let w = r->Append_0;
        assert(w.record@.vector == w.record.vector@);
    }
}

/// A write from another node is staged exactly where it is news, and refused where its
/// vector does not fit.
pub proof fn stage_call_stages_news<D: Fn(Metric, &[u32], &[u32]) -> u32>(
    shard: &Shard<D>,
    dim: usize,
    rec: WalRecord,
    r: Result<Staged, ShardStoreError>,
)
    requires
        call_ensures(Shard::<D>::stage, (shard, dim, rec), r),
    ensures
        r is Err <==> rec.op == WalOp::Upsert && (rec.vector@.len() != dim || dim != shard.dim),
        r matches Ok(staged) ==> (staged is Append <==> is_news(shard@, rec.id, rec.hlc)),
        (r matches Ok(Staged::Append(w))) ==> r->Ok_0->Append_0.record@ == rec@,
{
}

/// A write counts as applied exactly where it was staged.
pub proof fn outcome_call_tells_staged(s: &Staged, r: WriteOutcome)
    requires
        call_ensures(Staged::outcome, (s,), r),
    ensures
        r == WriteOutcome::Applied <==> s is Append,
        r == WriteOutcome::Stale <==> s is Stale,
{
}

/// A committed write is got back, with its version, and other ids stay as they were; the
/// log grows by the frame, and a snapshot falls due once it grew by the threshold.
pub proof fn committed_write_is_got<D: Fn(Metric, &[u32], &[u32]) -> u32>(
    shard: &mut Shard<D>,
    after: &Shard<D>,
    w: PendingWrite,
    c: Committed,
    got: Option<Vec<u32>>,
    version: Option<PointVersion>,
    other: u64,
)
    requires
        call_ensures(Shard::<D>::commit, (shard, w), Ok::<Committed, ShardError>(c)),
        *after == *final(shard),
        call_ensures(Shard::<D>::get, (after, w.record.id), got),
        call_ensures(Shard::<D>::version, (after, w.record.id), version),
        other != w.record.id,
    ensures
        w.record.op == WalOp::Upsert ==> (got matches Some(v) && v@ == w.record.vector@),
        w.record.op == WalOp::Delete ==> got is None,
        version matches Some(v) && v.hlc == w.record.hlc && v.tombstone == (w.record.op == WalOp::Delete),
        final(shard)@.points.contains_key(other) <==> old(shard)@.points.contains_key(other),
        old(shard)@.points.contains_key(other) ==> final(shard)@.points[other] == old(shard)@.points[other],
        final(shard)@.versions.contains_key(other) <==> old(shard)@.versions.contains_key(other),
        old(shard)@.versions.contains_key(other) ==> final(shard)@.versions[other] == old(shard)@.versions[other],
        c.removed <==> w.record.op == WalOp::Delete && old(shard)@.points.contains_key(w.record.id),
        final(shard).wal.len == (old(shard).wal.len + w.frame@.len()) as u64,
        c.snapshot_due <==> old(shard).snapshot_threshold_bytes > 0 && final(shard).wal.len
            >= old(shard).last_snapshot_offset + old(shard).snapshot_threshold_bytes,
{
}

/// A snapshot is due exactly where the log grew by a positive threshold since the last.
pub proof fn due_call_counts_from_the_last_snapshot<D: Fn(Metric, &[u32], &[u32]) -> u32>(shard: &Shard<D>, r: bool)
    requires
        call_ensures(Shard::<D>::snapshot_due, (shard,), r),
    ensures
        r <==> shard.snapshot_threshold_bytes > 0 && shard.wal.len >= shard.last_snapshot_offset
            + shard.snapshot_threshold_bytes,
{
}

/// A shard that is opened is there; one that is open already stays as it is.
pub proof fn open_call_keeps_the_first<T>(
    store: &mut ShardStore<T>,
    collection: &str,
    shard_idx: u32,
    shard: T,
    r: bool,
    k: (Seq<char>, u32),
)
    requires
        call_ensures(ShardStore::<T>::open, (store, collection, shard_idx, shard), r),
    ensures
        r <==> !old(store)@.contains_key((collection@, shard_idx)),
        final(store)@.contains_key((collection@, shard_idx)),
        r ==> final(store)@[(collection@, shard_idx)] == shard,
        old(store)@.contains_key(k) ==> final(store)@.contains_key(k) && final(store)@[k] == old(store)@[k],
        k != (collection@, shard_idx) ==> (final(store)@.contains_key(k) <==> old(store)@.contains_key(k)),
{
}

/// A shard that is dropped is gone, and no other.
pub proof fn drop_call_takes_one_shard<T>(
    store: &mut ShardStore<T>,
    collection: &str,
    shard_idx: u32,
    r: (),
    k: (Seq<char>, u32),
)
    requires
        call_ensures(ShardStore::<T>::drop_shard, (store, collection, shard_idx), r),
    ensures
        final(store)@.contains_key(k) <==> old(store)@.contains_key(k) && k != (collection@, shard_idx),
        final(store)@.contains_key(k) ==> final(store)@[k] == old(store)@[k],
{
}

/// The shards of a collection that is dropped are gone, and no others.
pub proof fn drop_call_takes_one_collection<T>(
    store: &mut ShardStore<T>,
    collection: &str,
    r: (),
    k: (Seq<char>, u32),
)
    requires
        call_ensures(ShardStore::<T>::drop_collection, (store, collection), r),
    ensures
        final(store)@.contains_key(k) <==> old(store)@.contains_key(k) && k.0 != collection@,
        final(store)@.contains_key(k) ==> final(store)@[k] == old(store)@[k],
{
}

/// A record that was framed is recovered as it was, with the whole frame taken.
pub proof fn framed_record_is_recovered(rec: &WalRecord, frame: Vec<u8>, buf: &[u8], r: (Vec<WalRecord>, u64))
    requires
        rec@.storable(),
        call_ensures(WalRecord::encode_frame, (rec,), frame),
        buf@ == frame@,
        call_ensures(Wal::recover, (buf,), r),
    ensures
        r.0@.len() == 1,
        r.0@[0]@ == rec@,
        r.1 == frame@.len(),
{
    let one = seq![rec@];
    assert(Seq::<RecordView>::empty().push(rec@) =~= one);
    crate::wal::append_extends_log(Seq::empty(), rec@);
    crate::wal::recovery_returns_appended(one, Seq::empty());
    assert(wal_bytes(Seq::empty()) + record_frame(rec@) =~= record_frame(rec@));
    assert(wal_bytes(one) + Seq::<u8>::empty() =~= buf@);
    assert(record_views(r.0@) == one);
    assert(record_views(r.0@)[0] == r.0@[0]@);
}

/// Hints that were written out are read back, all of them and in order.
pub proof fn rewritten_hints_are_read(hints: &Vec<Hint>, bytes: Vec<u8>, buf: &[u8], r: Vec<Hint>)
    requires
        forall|i: int| 0 <= i < hints@.len() ==> (#[trigger] hints@[i])@.storable(),
        call_ensures(HintLog::rewrite, (hints,), bytes),
        buf@ == bytes@,
        call_ensures(HintLog::read_all, (buf,), r),
    ensures
        r@.len() == hints@.len(),
        forall|i: int| 0 <= i < hints@.len() ==> (#[trigger] r@[i])@ == hints@[i]@,
{
    let views = crate::hints::hint_views(hints@);
    assert forall|i: int| 0 <= i < views.len() implies (#[trigger] views[i]).storable() by {
        assert(views[i] == hints@[i]@);
    }
    crate::hints::reading_returns_appended(views, Seq::empty());
    assert(crate::hints::hint_bytes(views) + Seq::<u8>::empty() =~= buf@);
    let back = crate::hints::hint_views(r@);
    assert(back == views);
    assert(back.len() == r@.len());
    assert forall|i: int| 0 <= i < hints@.len() implies (#[trigger] r@[i])@ == hints@[i]@ by {
        assert(back[i] == r@[i]@);
        assert(views[i] == hints@[i]@);
    }
}

/// A version that is sent and taken is the version that it was.
pub proof fn sent_version_is_taken(p: StoredPoint, w: WirePoint, back: StoredPoint)
    requires
        p.hlc.wall_ms < 0x1_0000_0000_0000,
        call_ensures(to_wire, (p,), w),
        call_ensures(from_wire, (w,), back),
    ensures
        w.hlc == p.hlc.wall_ms * 65536 + p.hlc.counter,
        w.tombstone == p.tombstone,
        back.id == p.id,
        back.hlc == p.hlc,
        back.tombstone == p.tombstone,
        back.vector@ == p.vector@,
        back.payload@ == p.payload@,
{
    crate::transfer::sending_keeps_the_point(p@);
    assert(back@ == p@);
    assert(w@.tombstone == p@.tombstone);
}

/// A replica answers for the ids that it has a version of, live or tombstone, and for no
/// other.
pub proof fn replica_get_call_answers<D: Fn(Metric, &[u32], &[u32]) -> u32>(
    shard: &Shard<D>,
    ids: &[u64],
    r: Vec<WirePoint>,
    id: u64,
)
    requires
        call_ensures(apply_replica_get, (shard, ids), r),
        ids@.contains(id),
    ensures
        shard@.versions.contains_key(id) <==> exists|i: int| 0 <= i < r@.len() && (#[trigger] r@[i]).id == id,
        forall|i: int|
            0 <= i < r@.len() && (#[trigger] r@[i]).id == id ==> r@[i].hlc == shard@.versions[id].hlc.value()
                && r@[i].tombstone == shard@.versions[id].tombstone && (shard@.points.contains_key(id)
                ==> r@[i].vector@ == shard@.points[id]),
{
    let views = wire_views(r@);
    assert(views.len() == r@.len());
    if shard@.versions.contains_key(id) {
        let w = crate::transfer::sent(crate::shards::stored_in(shard@, id).unwrap());
        replica_answers_with_its_versions(shard@, ids@, w);
        let i = views.index_of(w);
        assert(views[i] == r@[i]@);
        assert(r@[i].id == id);
    }
    assert forall|i: int| 0 <= i < r@.len() && (#[trigger] r@[i]).id == id implies shard@.versions.contains_key(id)
        && r@[i].hlc == shard@.versions[id].hlc.value() && r@[i].tombstone == shard@.versions[id].tombstone && (
    shard@.points.contains_key(id) ==> r@[i].vector@ == shard@.points[id]) by {
        assert(views[i] == r@[i]@);
        assert(views.contains(views[i]));
        replica_answers_with_its_versions(shard@, ids@, views[i]);
    }
}

/// A streamed record is written under its own stamp, as a delete where it is a tombstone,
/// and the clock moves past it.
pub proof fn pull_call_writes_the_record(clock: &mut HlcClock, wall_ms: u64, p: WirePoint, r: WalRecord)
    requires
        call_ensures(pull_record, (clock, wall_ms, p), r),
    ensures
        r.id == p.id,
        r.hlc.wall_ms * 65536 + r.hlc.counter == p.hlc,
        r.op == (if p.tombstone { WalOp::Delete } else { WalOp::Upsert }),
        !p.tombstone ==> r.vector@ == p.vector@ && r.payload@ == p.payload@,
        p.tombstone ==> r.vector@.len() == 0,
        p.hlc < u64::MAX && old(clock).last() < u64::MAX ==> final(clock).last() > p.hlc && final(clock).last()
            > old(clock).last(),
{
    assert(r@ == crate::transfer::pulled(p@));
    assert(r@.vector == r.vector@);
}

/// Metadata changes by requests as stated of them, and answers with the note stated.
pub proof fn apply_call_applies(meta: &mut MetaState, req: &MetaRequest, r: MetaResponse)
    requires
        call_ensures(MetaState::apply, (meta, req), r),
    ensures
        final(meta)@ == applied(old(meta)@, *req),
        r.note@ == note_of(old(meta)@, *req),
{
}

/// The state of a replica is the one on record, and Active where none is.
pub proof fn state_call_reads_the_record(
    meta: &MetaState,
    collection: &str,
    shard_idx: u32,
    node_id: u64,
    r: ShardState,
)
    requires
        call_ensures(MetaState::shard_state, (meta, collection, shard_idx, node_id), r),
    ensures
        meta@.shard_states.contains_key((collection@, shard_idx, node_id)) ==> r == meta@.shard_states[(
            collection@,
            shard_idx,
            node_id,
        )],
        !meta@.shard_states.contains_key((collection@, shard_idx, node_id)) ==> r == ShardState::Active,
{
}

/// The replicas of a shard are the nodes that it is placed on, in that order; a
/// collection that does not exist has none.
pub proof fn replicas_call_follows_the_placement(
    meta: &MetaState,
    collection: &str,
    shard_idx: u32,
    r: Vec<u64>,
    ids: Seq<u64>,
)
    requires
        call_ensures(MetaState::replicas_for_shard, (meta, collection, shard_idx), r),
    ensures
        crate::promises::placed_at(meta@, collection@, shard_idx, ids) ==> r@ == ids,
        !meta@.collections.contains_key(collection@) ==> r@.len() == 0,
{
    if crate::promises::placed_at(meta@, collection@, shard_idx, ids) {
        crate::promises::placement_is_of_members(meta@, collection@, shard_idx, ids);
    }
}

/// Entries that were appended are in the log under their indexes; the rest of the log,
/// and what was voted, committed and purged, stays.
pub proof fn append_call_keeps_the_log<L: Copy, E, V: Copy>(
    log: &mut LogStore<L, E, V>,
    entries: Vec<(u64, L, E)>,
    r: (),
    i: int,
    other: u64,
)
    requires
        call_ensures(LogStore::<L, E, V>::append, (log, entries), r),
        0 <= i < entries@.len(),
        forall|j: int| i < j < entries@.len() ==> (#[trigger] entries@[j]).0 != entries@[i].0,
        forall|j: int| 0 <= j < entries@.len() ==> (#[trigger] entries@[j]).0 != other,
    ensures
        final(log).log@.contains_key(entries@[i].0),
        final(log).log@[entries@[i].0] == (entries@[i].1, entries@[i].2),
        final(log).log@.contains_key(other) <==> old(log).log@.contains_key(other),
        old(log).log@.contains_key(other) ==> final(log).log@[other] == old(log).log@[other],
        final(log).vote == old(log).vote,
        final(log).committed == old(log).committed,
        final(log).last_purged_log_id == old(log).last_purged_log_id,
{
    appended_entry_is_read_back(old(log).log@, entries@, i, other);
}

/// Truncating takes out the entries from the index on and purging those up to it; each
/// leaves the others as they were, and purging remembers the last that it took out.
pub proof fn cut_calls_keep_the_rest<L: Copy, E, V: Copy>(
    a: &mut LogStore<L, E, V>,
    b: &mut LogStore<L, E, V>,
    index: u64,
    log_id: L,
    r: (),
    i: u64,
)
    requires
        call_ensures(LogStore::<L, E, V>::truncate, (a, index), r),
        call_ensures(LogStore::<L, E, V>::purge, (b, index, log_id), r),
    ensures
        final(a).log@.contains_key(i) <==> old(a).log@.contains_key(i) && i < index,
        final(a).log@.contains_key(i) ==> final(a).log@[i] == old(a).log@[i],
        final(a).last_purged_log_id == old(a).last_purged_log_id,
        final(a).vote == old(a).vote,
        final(b).log@.contains_key(i) <==> old(b).log@.contains_key(i) && i > index,
        final(b).log@.contains_key(i) ==> final(b).log@[i] == old(b).log@[i],
        final(b).last_purged_log_id == Some(log_id),
        final(b).vote == old(b).vote,
{
}

/// The log's state is what was purged last and the entry with the largest index; where
/// there is no entry, the purged one stands in for it.
pub proof fn log_state_call_names_the_last<L: Copy, E, V: Copy>(
    log: &LogStore<L, E, V>,
    r: (Option<L>, Option<L>),
    i: u64,
)
    requires
        call_ensures(LogStore::<L, E, V>::get_log_state, (log,), r),
    ensures
        r.0 == log.last_purged_log_id,
        log.log@.contains_key(i) && (forall|j: u64| #[trigger] log.log@.contains_key(j) ==> j <= i) ==> r.1 == Some(
            log.log@[i].0,
        ),
        (forall|j: u64| !#[trigger] log.log@.contains_key(j)) ==> r.1 == log.last_purged_log_id,
{
    if forall|j: u64| !#[trigger] log.log@.contains_key(j) {
        assert(log.log@ =~= Map::<u64, (L, E)>::empty());
    }
    if log.log@.contains_key(i) {
        assert(log.log@ != Map::<u64, (L, E)>::empty());
        let last = choose|last: u64| #[trigger] is_last(log.log@, last) && r.1 == Some(log.log@[last].0);
        assert(is_last(log.log@, last));
        if forall|j: u64| #[trigger] log.log@.contains_key(j) ==> j <= i {
            assert(log.log@.contains_key(last));
            assert(last <= i);
            assert(i <= last);
        }
    }
}

/// A vote that was saved is read back, and so is what was committed.
pub proof fn saved_vote_is_read<L: Copy, E, V: Copy>(
    log: &mut LogStore<L, E, V>,
    after: &LogStore<L, E, V>,
    vote: V,
    r: (),
    read: Option<V>,
    committed: Option<L>,
)
    requires
        call_ensures(LogStore::<L, E, V>::save_vote, (log, vote), r),
        *after == *final(log),
        call_ensures(LogStore::<L, E, V>::read_vote, (after,), read),
        call_ensures(LogStore::<L, E, V>::read_committed, (after,), committed),
    ensures
        read == Some(vote),
        committed == old(log).committed,
        final(log).log@ == old(log).log@,
{
}

/// A collection that was asked for without counts has 8 shards and 3 replicas of each.
pub proof fn defaults_call_fills_in(dim: u32, metric: crate::meta::Metric, shards: u32, n: u32, r: CollectionSchema)
    requires
        call_ensures(schema_with_defaults, (dim, metric, shards, n), r),
    ensures
        r.dim == dim,
        r.metric == metric,
        shards == 0 ==> r.shard_count == 8,
        shards > 0 ==> r.shard_count == shards,
        n == 0 ==> r.replication_n == 3,
        n > 0 ==> r.replication_n == n,
{
}

/// A cluster is bootstrapped once, with this node's own address.
pub proof fn bootstrap_call_registers_once(already: bool, id: u64, addr: &str, r: Option<MetaRequest>)
    requires
        call_ensures(bootstrap, (already, id, addr), r),
    ensures
        r is None <==> already,
        r matches Some(req) ==> (req matches MetaRequest::RegisterNode { node_id, advertise_addr } && node_id == id
            && advertise_addr@ == addr@),
{
}

/// A node that joins is a voter beside the others; one that leaves is none, and has to be
/// a voter and not the last.
pub proof fn membership_calls_change_one_voter(
    voters: BTreeSet<u64>,
    id: u64,
    joined: BTreeSet<u64>,
    left: Result<BTreeSet<u64>, ManagerError>,
    other: u64,
)
    requires
        call_ensures(join_node, (voters, id), joined),
        call_ensures(leave_node, (voters, id), left),
    ensures
        joined@.contains(other) <==> voters@.contains(other) || other == id,
        left is Ok <==> voters@.contains(id) && exists|v: u64| v != id && #[trigger] voters@.contains(v),
        left matches Ok(rest) ==> (rest@.contains(other) <==> voters@.contains(other) && other != id),
        left matches Err(e) ==> e is Invalid,
{
    let rest = voters@.remove(id);
    if left is Ok {
        assert(exists|v: u64| rest.contains(v)) by {
            if forall|v: u64| !rest.contains(v) {
                assert(rest =~= Set::<u64>::empty());
            }
        }
        let v = choose|v: u64| rest.contains(v);
        assert(voters@.contains(v));
    } else if voters@.contains(id) {
        assert forall|v: u64| v != id implies !#[trigger] voters@.contains(v) by {
            assert(!rest.contains(v));
        }
    }
}

/// A peer to join is what stands before and after the first `@`.
pub proof fn join_peer_call_reads_its_target(id: Seq<char>, addr: Seq<char>, target: &str, r: JoinPeer)
    requires
        call_ensures(join_peer, (target,), r),
        !id.contains('@'),
    ensures
        target@ == id.push('@') + addr && parsed_u64(id) is Some ==> (r matches JoinPeer::Peer(n, a)
            && Some(n) == parsed_u64(id) && a@ == addr),
        target@ == id.push('@') + addr && parsed_u64(id) is None ==> r is BadId,
        target@ == id ==> r is Nobody,
{
    crate::text::split_undoes_joining(id, '@', addr);
}

/// A write that failed because the node does not lead is told apart from any other.
pub proof fn write_error_call_tells_forwards(error: &str, r: ManagerError)
    requires
        call_ensures(write_error, (error,), r),
    ensures
        r is NotLeader <==> crate::text::holds(error@, "ForwardToLeader"@) || crate::text::holds(
            error@,
            "not the leader"@,
        ),
        !(r is NotLeader) ==> r is Raft,
{
}

/// A collection is created only under a name, with a dimension and with a metric.
pub proof fn create_call_checks_the_request(
    name: &str,
    dim: u32,
    metric: WireMetric,
    shards: u32,
    n: u32,
    r: Result<CollectionSchema, CreateError>,
)
    requires
        call_ensures(create_collection, (name, dim, metric, shards, n), r),
    ensures
        r is Ok <==> name@.len() > 0 && dim > 0 && metric != WireMetric::Unspecified,
        name@.len() == 0 ==> r == Err::<CollectionSchema, CreateError>(CreateError::EmptyName),
        name@.len() > 0 && dim == 0 ==> r == Err::<CollectionSchema, CreateError>(CreateError::ZeroDim),
        name@.len() > 0 && dim > 0 && metric == WireMetric::Unspecified ==> r == Err::<CollectionSchema, CreateError>(
            CreateError::NoMetric,
        ),
        r matches Ok(s) ==> {
            &&& s.dim == dim
            &&& (s.metric == crate::meta::Metric::L2 <==> metric == WireMetric::L2)
            &&& (s.metric == crate::meta::Metric::Cosine <==> metric == WireMetric::Cosine)
            &&& (shards == 0 ==> s.shard_count == 8)
            &&& (shards > 0 ==> s.shard_count == shards)
            &&& (n == 0 ==> s.replication_n == 3)
            &&& (n > 0 ==> s.replication_n == n)
        },
{
}

/// A creation that found the name taken, and a drop that found nothing, are told to the
/// client as failures, and nothing else is.
pub proof fn outcome_calls_tell_the_client(
    meta: &mut MetaState,
    req: &MetaRequest,
    applied_as: MetaResponse,
    note: &str,
    created: Result<(), Code>,
    dropped: Result<(), Code>,
)
    requires
        call_ensures(MetaState::apply, (meta, req), applied_as),
        note@ == applied_as.note@,
        call_ensures(create_outcome, (note,), created),
        call_ensures(drop_outcome, (note,), dropped),
    ensures
        req matches MetaRequest::CreateCollection { name, schema } ==> (created is Err <==> old(meta)@.collections.contains_key(name@)),
        req matches MetaRequest::DropCollection { name } ==> (dropped is Err <==> !old(meta)@.collections.contains_key(name@)),
        created matches Err(c) ==> c == Code::AlreadyExists,
        dropped matches Err(c) ==> c == Code::NotFound,
{
    reveal_strlit("exists");
    reveal_strlit("created");
    reveal_strlit("absent");
    reveal_strlit("dropped");
    assert("created"@.len() == 7);
    assert("exists"@.len() == 6);
    assert("absent"@[0] == 'a');
    assert("dropped"@[0] == 'd');
}

/// A search that names no number of results or no breadth gets 10 and 64; what it names
/// is kept.
pub proof fn limits_call_fills_in(k: u32, ef: u32, r: (u32, u32))
    requires
        call_ensures(search_limits, (k, ef), r),
    ensures
        k == 0 ==> r.0 == 10,
        k > 0 ==> r.0 == k,
        ef == 0 ==> r.1 == 64,
        ef > 0 ==> r.1 == ef,
{
}

/// What a node says of the cluster lists every node once, by id, with its address, and
/// the leader's id or 0.
pub proof fn info_call_lists_the_cluster(meta: &MetaState, leader: Option<u64>, r: ClusterInfo, id: u64)
    requires
        call_ensures(cluster_info, (meta, leader), r),
    ensures
        meta@.nodes.contains_key(id) <==> exists|i: int| 0 <= i < r.nodes@.len() && (#[trigger] r.nodes@[i]).0 == id,
        forall|i: int| 0 <= i < r.nodes@.len() ==> (#[trigger] r.nodes@[i]).1@ == meta@.nodes[r.nodes@[i].0],
        forall|i: int, j: int| 0 <= i < j < r.nodes@.len() ==> (#[trigger] r.nodes@[i]).0 < (#[trigger] r.nodes@[j]).0,
        leader matches Some(l) ==> r.raft_leader == l,
        leader is None ==> r.raft_leader == 0,
        assignment_views(r.shard_map@) == map_rows(meta@, meta.collections.names()),
{
}

/// A config is valid exactly where neither number that has to be positive is 0.
pub proof fn validate_call_refuses_zeros(c: &NodeConfig, r: Result<(), ConfigError>)
    requires
        call_ensures(NodeConfig::validate, (c,), r),
    ensures
        r is Ok <==> c.vnodes > 0 && c.snapshot_wal_mb > 0,
        c.vnodes == 0 ==> r == Err::<(), ConfigError>(ConfigError::ZeroVnodes),
        c.vnodes > 0 && c.snapshot_wal_mb == 0 ==> r == Err::<(), ConfigError>(ConfigError::ZeroSnapshotWalMb),
{
}

/// A node is reached at its advertise address, or at its listen address where it has
/// none.
pub proof fn advertise_call_falls_back(c: &NodeConfig, r: &str)
    requires
        call_ensures(NodeConfig::advertise, (c,), r),
    ensures
        c.advertise_addr matches Some(a) ==> r@ == a@,
        c.advertise_addr is None ==> r@ == c.listen_addr@,
{
}

/// A search of a store is exact and measures with the collection's metric: it returns the
/// `k` nearest points, or all, in order of score and then id.
pub proof fn store_search_call_returns_the_nearest<D: Copy + Fn(Metric, &[u32], &[u32]) -> u32>(
    store: &Store<D>,
    name: &str,
    query: &[u32],
    k: usize,
    ef_search: usize,
    r: Result<Vec<(u64, u32)>, StoreError>,
)
    requires
        call_ensures(Store::<D>::search, (store, name, query, k, ef_search), r),
        store.held()[name@].points.dom().finite(),
        forall|id: u64| #[trigger]
            store.held()[name@].points.contains_key(id) ==> score(
                store.kernel(),
                store.held()[name@].schema.metric,
                query@,
                store.held()[name@].points[id],
            ) % 0x8000_0000 <= 0x7F80_0000,
    ensures
        !store.held().contains_key(name@) <==> r matches Err(StoreError::NotFound(n)),
        r is Ok <==> store.held().contains_key(name@) && query@.len() == store.held()[name@].schema.dim,
        r matches Ok(found) ==> {
            let c = store.held()[name@];
            &&& found@.len() == if k < c.points.len() { k as nat } else { c.points.len() }
            &&& forall|i: int|
                0 <= i < found@.len() ==> c.points.contains_key((#[trigger] found@[i]).0) && found@[i].1 == score(
                    store.kernel(),
                    c.schema.metric,
                    query@,
                    c.points[found@[i].0],
                )
            &&& forall|i: int, j: int|
                0 <= i < j < found@.len() ==> {
                    let (a, b) = (#[trigger] found@[i], #[trigger] found@[j]);
                    signed(a.1) < signed(b.1) || (signed(a.1) == signed(b.1) && a.0 < b.0)
                }
        },
{
    if r is Ok {
        let c = store.held()[name@];
        exact_search_returns_the_nearest(
            c.points,
            crate::store::scores(store.kernel(), c, query@),
            k as nat,
            r->Ok_0@,
        );
    }
}

/// A shard that is opened from its log alone holds what the writes that it accepted made
/// of it; a frame that was cut short is left behind, and writing goes on in front of it.
pub proof fn opened_shard_holds_what_was_accepted<D: Fn(Metric, &[u32], &[u32]) -> u32>(
    dim: usize,
    metric: Metric,
    kernel: D,
    snapshot_wal_mb: u64,
    batch_ms: u64,
    log: &[u8],
    rs: Seq<RecordView>,
    torn: Seq<u8>,
    shard: Shard<D>,
    end: u64,
)
    requires
        call_ensures(
            Shard::<D>::open,
            (dim, metric, kernel, snapshot_wal_mb, batch_ms, None::<Snapshot<D>>, log),
            Ok::<(Shard<D>, u64), ShardError>((shard, end)),
        ),
        log@ == wal_bytes(rs) + torn,
        forall|i: int| 0 <= i < rs.len() ==> (#[trigger] rs[i]).storable(),
        forall|i: int|
            0 <= i < rs.len() ==> is_news(lww_all(empty_shard(), rs.take(i)), (#[trigger] rs[i]).id, rs[i].hlc),
        crate::frame::intact_body(torn) is None,
    ensures
        shard@ == lww_all(empty_shard(), rs),
        end == wal_bytes(rs).len(),
        shard.wal.len == wal_bytes(rs).len(),
        shard.last_snapshot_offset == 0,
        shard.dim == dim,
        snapshot_wal_mb < 0x1000_0000_0000 ==> shard.snapshot_threshold_bytes == snapshot_wal_mb * 1048576,
{
    crate::shard::recovery_restores_accepted(rs, torn);
}

/// An index after an insert of a vector that fits holds it under its id and everything
/// else as before; after a delete it does not hold that id.
pub proof fn index_calls_change_one_point<D: Fn(Metric, &[u32], &[u32]) -> u32>(
    a: &mut HnswIndex<D>,
    b: &mut HnswIndex<D>,
    id: u64,
    vector: &[u32],
    inserted: Result<(), IndexError>,
    deleted: bool,
    other: u64,
)
    requires
        call_ensures(<HnswIndex<D> as VectorIndex>::insert, (a, id, vector), inserted),
        call_ensures(<HnswIndex<D> as VectorIndex>::delete, (b, id), deleted),
        other != id,
    ensures
        inserted is Ok <==> vector@.len() == old(a).dimension(),
        inserted is Ok ==> final(a).points().contains_key(id) && final(a).points()[id] == vector@,
        inserted is Ok ==> (final(a).points().contains_key(other) <==> old(a).points().contains_key(other)),
        inserted is Ok && old(a).points().contains_key(other) ==> final(a).points()[other] == old(a).points()[other],
        inserted is Err ==> final(a).points() == old(a).points(),
        deleted <==> old(b).points().contains_key(id),
        !final(b).points().contains_key(id),
        final(b).points().contains_key(other) <==> old(b).points().contains_key(other),
        old(b).points().contains_key(other) ==> final(b).points()[other] == old(b).points()[other],
        final(b).graph() == old(b).graph(),
{
}

/// An index that passes its check has no edge that leads nowhere or back to its node, no
/// list that is too long, and as many live points as nodes without a tombstone.
pub proof fn check_call_finds_what_is_wrong<D: Fn(Metric, &[u32], &[u32]) -> u32>(
    index: &HnswIndex<D>,
    r: Result<(), Violation>,
    i: int,
    l: int,
    x: u32,
)
    requires
        call_ensures(HnswIndex::<D>::validate_invariants, (index,), r),
        r is Ok,
        0 <= i < index.nodes@.len(),
    ensures
        links(index.graph(), i, l).contains(x) ==> x < index.nodes@.len() && x != i,
        links(index.graph(), i, 0).len() <= index.params.m0,
        l > 0 ==> links(index.graph(), i, l).len() <= index.params.m,
        index.id_to_node@.contains_key(index.nodes@[i].id),
        index.id_to_node@[index.nodes@[i].id] == i,
        index.entry_point matches Some(e) && e < index.nodes@.len(),
{
    assert(index.consistent());
    assert(links(index.graph(), i, 0).len() <= index.params.max_links(0));
    assert(links(index.graph(), i, l).len() <= index.params.max_links(l));
}

/// The placement that a ring gives is the walk from the shard's home.
pub proof fn ring_call_places_by_the_walk(
    ring: &Ring,
    collection: &str,
    shard_idx: u32,
    n: u32,
    r: Vec<u64>,
    i: int,
) -> (at: u64)
    requires
        call_ensures(Ring::replicas_for_shard, (ring, collection, shard_idx, n), r),
        0 <= i < r@.len(),
    ensures
        r@.len() <= n,
        r@.no_duplicates(),
        ring.points().contains((at, r@[i])),
        forall|pos: u64, node: u64| #[trigger]
            ring.points().contains((pos, node)) && !r@.take(i).contains(node) ==> {
                let home = xxh64_of(crate::text::utf8(collection@) + crate::codec::le32(shard_idx), 0);
                let d = (at - home) % 0x1_0000_0000_0000_0000;
                let e = (pos - home) % 0x1_0000_0000_0000_0000;
                d < e || (d == e && r@[i] <= node)
            },
{
    let home = crate::placement::home_of(collection@, shard_idx);
    crate::placement::hashes_are_of_names_and_numbers(collection@, shard_idx, 0);
    assert forall|a: int, b: int| 0 <= a < r@.len() && 0 <= b < r@.len() && a != b implies r@[a] != r@[b] by {
        if a < b {
            assert(crate::placement::ahead(ring.points(), home, r@[a], r@[b]));
        } else {
            assert(crate::placement::ahead(ring.points(), home, r@[b], r@[a]));
        }
    }
    crate::placement::replica_owns_the_next_point(ring.points(), home, n as nat, r@, i)
}

/// A ring of members has 64 virtual nodes, or as many as asked for, of each and of nobody
/// else.
pub proof fn ring_call_holds_the_members(nodes: &BTreeSet<u64>, vnodes: u32, r: Ring, pos: u64, node: u64)
    requires
        call_ensures(Ring::new, (nodes, vnodes), r),
    ensures
        r.points().contains((pos, node)) <==> nodes@.contains(node) && exists|vi: u32|
            vi < vnodes && pos == #[trigger] xxh64_of(crate::codec::le64(node) + crate::codec::le32(vi), 0),
        r.nodes() == nodes@,
{
    crate::placement::ring_holds_each_virtual_node(nodes@, vnodes, pos, node);
}

/// The ring of the metadata is that of all registered nodes, with 64 virtual nodes each.
pub proof fn meta_ring_call_holds_every_node(meta: &MetaState, r: Ring, pos: u64, node: u64)
    requires
        call_ensures(MetaState::ring, (meta,), r),
    ensures
        r.points().contains((pos, node)) <==> meta@.nodes.contains_key(node) && exists|vi: u32|
            vi < 64 && pos == #[trigger] xxh64_of(crate::codec::le64(node) + crate::codec::le32(vi), 0),
{
    crate::placement::ring_holds_each_virtual_node(meta@.nodes.dom(), 64, pos, node);
}

/// A point's shard is one of the collection's, and goes by the hash of its id.
pub proof fn shard_call_stays_in_range(id: u64, shards: u32, r: u32)
    requires
        shards > 0,
        call_ensures(shard_for_id, (id, shards), r),
    ensures
        r < shards,
        exists|q: int| xxh64_of(crate::codec::le64(id), 0) == #[trigger] (q * shards as int) + r,
{
    crate::placement::hashes_are_of_names_and_numbers(Seq::empty(), 0, id);
    let h = xxh64_of(crate::codec::le64(id), 0) as int;
    let n = shards as int;
    vstd::arithmetic::div_mod::lemma_fundamental_div_mod(h, n);
    let q = h / n;
    assert(q * n == n * q) by (nonlinear_arith);
    assert(h == (q * shards as int) + r);
}

/// The shard map lists every replica of every shard of every collection with its state.
pub proof fn map_call_lists_every_replica(
    meta: &MetaState,
    r: Vec<ShardAssignment>,
    row: AssignmentView,
    ids: Seq<u64>,
)
    requires
        call_ensures(MetaState::shard_map, (meta,), r),
        meta@.nodes.dom().finite(),
        crate::promises::placed_at(meta@, row.collection, row.shard_idx, ids),
    ensures
        assignment_views(r@).contains(row) <==> row.shard_idx < meta@.collections[row.collection].shard_count
            && ids.contains(row.node_id) && row == crate::promises::row_of(
            meta@,
            row.collection,
            row.shard_idx,
            row.node_id,
        ),
{
    let names = meta.collections.names();
    assert forall|i: int| 0 <= i < names.len() implies meta@.collections.contains_key(#[trigger] names[i]) by {
        assert(names.contains(names[i]));
        assert(meta.collections@.contains_key(names[i]));
    }
    assert(meta.collections@.contains_key(row.collection));
    crate::promises::shard_map_lists_every_replica(meta@, names, row, ids);
}

/// An entry that is applied is the last applied one; only a request changes the metadata
/// and only a change of membership the membership.
pub proof fn entry_call_applies_by_kind<L: Copy, M>(
    machine: &mut StateMachine<L, M>,
    log_id: L,
    payload: EntryPayload<M>,
    r: MetaResponse,
)
    requires
        call_ensures(StateMachine::<L, M>::apply_entry, (machine, log_id, payload), r),
    ensures
        final(machine).last_applied == Some(log_id),
        !(payload is Normal) ==> final(machine).state@ == old(machine).state@,
        payload matches EntryPayload::Normal(req) ==> final(machine).state@ == applied(old(machine).state@, req)
            && r.note@ == note_of(old(machine).state@, req),
        payload matches EntryPayload::Membership(m) ==> final(machine).last_membership == m,
        !(payload is Membership) ==> final(machine).last_membership == old(machine).last_membership,
{
}

/// A batch of entries is applied in order: the last one is the last applied, there is one
/// answer for each, and an empty batch changes nothing.
pub proof fn apply_call_goes_in_order<L: Copy, M>(
    machine: &mut StateMachine<L, M>,
    entries: Vec<(L, EntryPayload<M>)>,
    r: Vec<MetaResponse>,
)
    requires
        call_ensures(StateMachine::<L, M>::apply, (machine, entries), r),
    ensures
        r@.len() == entries@.len(),
        entries@.len() == 0 ==> final(machine).state@ == old(machine).state@ && final(machine).last_applied
            == old(machine).last_applied && final(machine).last_membership == old(machine).last_membership,
        entries@.len() > 0 ==> final(machine).last_applied == Some(entries@[entries@.len() - 1].0),
        entries@.len() == 1 ==> (entries@[0].1 matches EntryPayload::Normal(req) ==> final(machine).state@ == applied(
            old(machine).state@,
            req,
        )),
        entries@.len() == 2 ==> (entries@[0].1 matches EntryPayload::Normal(p) ==> (
        entries@[1].1 matches EntryPayload::Normal(q) ==> final(machine).state@ == applied(
            applied(old(machine).state@, p),
            q,
        ))),
{
    let es = entries@;
    let s = old(machine).state@;
    if es.len() == 1 {
        assert(es =~= Seq::empty().push(es[0]));
        entries_take_effect_in_order(s, Seq::empty(), es[0]);
    }
    if es.len() == 2 {
        let one = Seq::empty().push(es[0]);
        assert(es =~= one.push(es[1]));
        entries_take_effect_in_order(s, Seq::empty(), es[0]);
        entries_take_effect_in_order(s, one, es[1]);
    }
}

/// A snapshot that was built holds the image, the membership and the last applied entry
/// that it was built from.
pub proof fn built_snapshot_is_kept<L: Copy, M>(
    snapshots: &mut Snapshots<L, M>,
    last: Option<LastApplied<L>>,
    membership: M,
    data: Vec<u8>,
    r: (),
)
    requires
        call_ensures(Snapshots::<L, M>::build, (snapshots, last, membership, data), r),
    ensures
        final(snapshots).built == old(snapshots).built + 1,
        final(snapshots).current is Some,
        final(snapshots).current.unwrap().data == data,
        final(snapshots).current.unwrap().meta.last_membership == membership,
        last matches Some(l) ==> final(snapshots).current.unwrap().meta.last_log_id == Some(l.log_id),
        last is None ==> final(snapshots).current.unwrap().meta.last_log_id is None,
        last matches Some(l) ==> final(snapshots).current.unwrap().meta.snapshot_id@ == l.leader@ + "-"@ + decimal(
            l.index as nat,
        ) + "-"@ + decimal((old(snapshots).built + 1) as nat),
{
}

/// A machine that installs a snapshot is where the snapshot was taken.
pub proof fn installed_snapshot_is_the_state<L: Copy, M>(
    machine: &mut StateMachine<L, M>,
    state: MetaState,
    last: Option<L>,
    membership: M,
    r: (),
)
    requires
        call_ensures(StateMachine::<L, M>::install_snapshot, (machine, state, last, membership), r),
    ensures
        final(machine).state@ == state@,
        final(machine).last_applied == last,
        final(machine).last_membership == membership,
{
}

/// A number that is written is read back.
pub proof fn written_number_is_read(n: u64, s: String, t: &str, r: Option<u64>)
    requires
        call_ensures(to_decimal, (n,), s),
        t@ == s@,
        call_ensures(parse_u64, (t,), r),
    ensures
        r == Some(n),
{
    crate::text::decimal_roundtrip(n);
}

/// A body that is encoded is decoded as it was, and one with another operation byte than
/// 0 or 1 is not decoded.
pub proof fn encoded_record_is_decoded(rec: &WalRecord, bytes: Vec<u8>, body: &[u8], r: Option<WalRecord>)
    requires
        call_ensures(WalRecord::encode_body, (rec,), bytes),
        call_ensures(decode_body, (body,), r),
    ensures
        rec@.wf() && body@ == bytes@ ==> (r matches Some(back) && back@ == rec@),
        body@.len() > 0 && body@[0] > 1 ==> r is None,
        body@.len() < 25 ==> r is None,
{
    if rec@.wf() && body@ == bytes@ {
        crate::wal::body_roundtrip(rec@);
    }
    if r is Some {
        let back = r.unwrap();
        crate::durability::record_layout(back@);
    }
}

/// A hint that is encoded is decoded as it was.
pub proof fn encoded_hint_is_decoded(h: &Hint, bytes: Vec<u8>, body: &[u8], r: Option<Hint>)
    requires
        h@.wf(),
        call_ensures(encode_hint, (h,), bytes),
        body@ == bytes@,
        call_ensures(decode_hint, (body,), r),
    ensures
        r matches Some(back) && back@ == h@,
{
    crate::hints::hint_roundtrip(h@);
}

/// The log grows by the frame that is appended and has to be synced; a flush leaves
/// nothing to sync.
pub proof fn appended_frame_counts(wal: &mut Wal, frame: &[u8], r: u64, rec: RecordView)
    requires
        rec.storable(),
        frame@ == record_frame(rec),
        call_ensures(Wal::append, (wal, frame), r),
    ensures
        r == old(wal).len + frame@.len(),
        final(wal).len == r,
        final(wal).dirty,
        final(wal).batch_ms == old(wal).batch_ms,
{
    crate::wal::append_moves_offset(rec);
}

/// A frame is found where it is complete and its checksum is right.
pub proof fn frame_call_checks_the_body(body: Seq<u8>, crc: u32, tail: Seq<u8>, buf: &[u8], r: Option<usize>)
    requires
        body.len() + 4 < 0x1_0000_0000,
        buf@ == framed(body, crc) + tail,
        call_ensures(next_frame, (buf, 0usize), r),
    ensures
        crc == crc32(body) ==> (r matches Some(end) && end == 8 + body.len()),
        crc != crc32(body) ==> r is None,
{
    crate::durability::wrong_checksum_is_refused(body, crc, tail);
    crate::durability::frame_layout(body, crc);
    assert(buf@.skip(0) =~= buf@);
    if r is Some {
        let end = r.unwrap();
        assert(buf@.subrange(8, end as int).len() == end - 8);
    }
}

/// How a failed request is answered: a missing collection as not found, a vector that
/// does not fit as a bad argument, too few replicas as unavailable, the rest as internal.
pub proof fn router_status_call_tells_the_kind(e: &RouterError, r: Code)
    requires
        call_ensures(router_err_to_status, (e,), r),
    ensures
        r == Code::NotFound <==> e is NotFound,
        r == Code::InvalidArgument <==> e is DimMismatch,
        r == Code::Unavailable <==> e is NoReplica || e is WriteQuorum || e is ReadQuorum,
        r == Code::Internal <==> e is Shard || e is ShardFiles || e is Hint,
{
}

/// How a failed change of the metadata is answered: on a node that does not lead as a
/// failed precondition, a bad request as a bad argument, the rest as internal.
pub proof fn manager_status_call_tells_the_kind(e: &ManagerError, r: Code)
    requires
        call_ensures(manager_err_to_status, (e,), r),
    ensures
        r == Code::FailedPrecondition <==> e is NotLeader,
        r == Code::InvalidArgument <==> e is Invalid,
        r == Code::Internal <==> e is Serde || e is Raft,
{
}

/// A replica's state keeps its name on the wire.
pub proof fn state_keeps_its_name(s: ShardState, r: WireShardState)
    requires
        call_ensures(shard_state_to_proto, (s,), r),
    ensures
        s == ShardState::Active <==> r == WireShardState::Active,
        s == ShardState::Syncing <==> r == WireShardState::Syncing,
        s == ShardState::Dead <==> r == WireShardState::Dead,
{
}

/// The words of a router's errors name the collection, the shard and the counts.
pub proof fn router_errors_name_what_failed(e: &RouterError, r: String)
    requires
        call_ensures(RouterError::message, (e,), r),
    ensures
        e matches RouterError::NotFound(n) ==> r@ == "collection '"@ + n@ + "' not found"@,
        e matches RouterError::NoReplica { collection, shard_idx } ==> r@ == "no replica available for "@ + collection@
            + " shard "@ + decimal(*shard_idx as nat),
        e matches RouterError::DimMismatch { expected, got } ==> r@ == "dimension mismatch: collection is "@ + decimal(
            *expected as nat,
        ) + "-d, got "@ + decimal(*got as nat) + "-d"@,
        e matches RouterError::WriteQuorum { collection, shard_idx, needed, got } ==> r@
            == "write quorum not met for "@ + collection@ + " shard "@ + decimal(*shard_idx as nat) + ": needed "@
            + decimal(*needed as nat) + ", got "@ + decimal(*got as nat),
        e matches RouterError::ReadQuorum { collection, shard_idx, needed, got } ==> r@ == "read quorum not met for "@
            + collection@ + " shard "@ + decimal(*shard_idx as nat) + ": needed "@ + decimal(*needed as nat) + ", got "@
            + decimal(*got as nat),
{
}

/// A shard that is opened from a snapshot holds what all the accepted writes made of it:
/// those that the snapshot covers and those in the log behind it.
pub proof fn opened_snapshot_goes_on<D: Fn(Metric, &[u32], &[u32]) -> u32>(
    dim: usize,
    metric: Metric,
    kernel: D,
    snapshot_wal_mb: u64,
    batch_ms: u64,
    snapshot: Snapshot<D>,
    log: &[u8],
    rs: Seq<RecordView>,
    n: int,
    torn: Seq<u8>,
    shard: Shard<D>,
    end: u64,
)
    requires
        call_ensures(
            Shard::<D>::open,
            (dim, metric, kernel, snapshot_wal_mb, batch_ms, Some(snapshot), log),
            Ok::<(Shard<D>, u64), ShardError>((shard, end)),
        ),
        0 <= n <= rs.len(),
        log@ == wal_bytes(rs) + torn,
        snapshot.wal_offset == wal_bytes(rs.take(n)).len(),
        crate::shard::snapshot_view(snapshot) == lww_all(empty_shard(), rs.take(n)),
        forall|i: int| 0 <= i < rs.len() ==> (#[trigger] rs[i]).storable(),
        forall|i: int|
            0 <= i < rs.len() ==> is_news(lww_all(empty_shard(), rs.take(i)), (#[trigger] rs[i]).id, rs[i].hlc),
        crate::frame::intact_body(torn) is None,
    ensures
        shard@ == lww_all(empty_shard(), rs),
        shard.last_snapshot_offset == snapshot.wal_offset,
        end == wal_bytes(rs).len(),
{
    crate::shard::recovery_from_snapshot_restores_accepted(rs, torn, n);
    crate::wal::recovery_returns_appended(rs, torn);
}

/// What a config file leaves out is defaulted: no peers, a sync for every record, a
/// snapshot every 128 MiB and 64 virtual nodes.
pub proof fn settings_call_fills_in(
    id: u64,
    listen: String,
    advertise: Option<String>,
    dir: String,
    peers: Option<Vec<String>>,
    batch: Option<u64>,
    mb: Option<u64>,
    vnodes: Option<u32>,
    r: NodeConfig,
)
    requires
        call_ensures(NodeConfig::from_settings, (id, listen, advertise, dir, peers, batch, mb, vnodes), r),
    ensures
        r.node_id == id,
        r.listen_addr@ == listen@,
        r.advertise_addr == advertise,
        r.data_dir@ == dir@,
        peers matches Some(p) ==> r.raft.peers == p,
        peers is None ==> r.raft.peers@.len() == 0,
        r.wal_batch_ms == (if batch is Some { batch.unwrap() } else { 0u64 }),
        r.snapshot_wal_mb == (if mb is Some { mb.unwrap() } else { 128u64 }),
        r.vnodes == (if vnodes is Some { vnodes.unwrap() } else { 64u32 }),
{
}

/// A shard's directory is named by its number.
pub proof fn shard_directory_is_numbered(shard_idx: u32, r: String)
    requires
        call_ensures(shard_dir_name, (shard_idx,), r),
    ensures
        r@ == "shard_"@ + decimal(shard_idx as nat),
{
}

/// The words of a manager's errors begin with their kind and go on with the reason.
pub proof fn manager_errors_give_the_reason(e: &ManagerError, r: String)
    requires
        call_ensures(ManagerError::message, (e,), r),
    ensures
        e matches ManagerError::Raft(s) ==> r@ == "raft: "@ + s@,
        e matches ManagerError::NotLeader(s) ==> r@ == "not the leader"@ + s@,
        e matches ManagerError::Serde(s) ==> r@ == "serialization: "@ + s@,
        e matches ManagerError::Invalid(s) ==> r@ == "invalid request: "@ + s@,
{
}

/// The words of a store's errors name the collection or give the reason.
pub proof fn store_errors_name_what_failed(e: &StoreError, r: String)
    requires
        call_ensures(StoreError::message, (e,), r),
    ensures
        e matches StoreError::AlreadyExists(n) ==> r@ == "collection '"@ + n@ + "' already exists"@,
        e matches StoreError::NotFound(n) ==> r@ == "collection '"@ + n@ + "' not found"@,
        e matches StoreError::Invalid(why) ==> r@ == "invalid argument: "@ + why@,
{
}

/// The words of the errors about a vector's length name both lengths.
pub proof fn dimension_errors_name_both(expected: usize, got: usize, index: String, shard: String, store: String)
    requires
        call_ensures(IndexError::message, (IndexError::DimMismatch { expected, got },), index),
        call_ensures(ShardError::message, (ShardError::DimMismatch { expected, got },), shard),
        call_ensures(ShardStoreError::message, (ShardStoreError::DimMismatch { expected, got },), store),
    ensures
        index@ == "dimension mismatch: index is "@ + decimal(expected as nat) + "-d, got "@ + decimal(got as nat)
            + "-d"@,
        shard@ == "dimension mismatch: shard is "@ + decimal(expected as nat) + "-d, got "@ + decimal(got as nat)
            + "-d"@,
        store@ == "dimension mismatch: collection is "@ + decimal(expected as nat) + "-d, got "@ + decimal(got as nat)
            + "-d"@,
{
}

/// A point of another length than the collection's is refused, by its id and both
/// lengths; the points before it in the batch are kept and it and the rest are not.
pub proof fn misfit_in_a_batch_is_refused<D: Copy + Fn(Metric, &[u32], &[u32]) -> u32>(
    store: &mut Store<D>,
    name: &str,
    points: &[(u64, Vec<u32>)],
    r: Result<u64, StoreError>,
    i: int,
)
    requires
        call_ensures(Store::<D>::upsert, (store, name, points), r),
        old(store).held().contains_key(name@),
        0 <= i < points@.len(),
        points@[i].1@.len() != old(store).held()[name@].schema.dim,
        forall|j: int| 0 <= j < i ==> (#[trigger] points@[j]).1@.len() == old(store).held()[name@].schema.dim,
    ensures
        r matches Err(StoreError::Invalid(why)) && why@ == "point "@ + decimal(points@[i].0 as nat) + ": expected dim "@
            + decimal(old(store).held()[name@].schema.dim as nat) + ", got "@ + decimal(points@[i].1@.len()),
        final(store).held()[name@].schema == old(store).held()[name@].schema,
        final(store).held()[name@].points == with_points(old(store).held()[name@].points, points@, i as nat),
{
    let dim = old(store).held()[name@].schema.dim as nat;
    assert(!crate::store::all_fit(points@, dim));
    let k = choose|k: int|
        {
            &&& #[trigger] crate::store::first_misfit(points@, dim, k)
            &&& r->Err_0->Invalid_0@ == crate::store::bad_point(points@[k].0, dim, points@[k].1@.len())
            &&& final(store).held() == old(store).held().insert(
                name@,
                (crate::store::CollectionView {
                    schema: old(store).held()[name@].schema,
                    points: with_points(old(store).held()[name@].points, points@, k as nat),
                }),
            )
        };
    assert(crate::store::first_misfit(points@, dim, k));
    if k < i {
        assert(points@[k].1@.len() == dim);
    }
    if i < k {
        assert(points@[i].1@.len() == dim);
    }
}

/// A write without a check of its age is framed as it is, and refused where its vector
/// does not fit.
pub proof fn plain_write_calls_frame_the_write<D: Fn(Metric, &[u32], &[u32]) -> u32>(
    shard: &Shard<D>,
    hlc: Hlc,
    id: u64,
    vector: &[u32],
    payload: Vec<u8>,
    up: Result<PendingWrite, ShardError>,
    del: PendingWrite,
)
    requires
        call_ensures(Shard::<D>::upsert, (shard, hlc, id, vector, payload), up),
        call_ensures(Shard::<D>::delete, (shard, hlc, id), del),
    ensures
        up is Ok <==> vector@.len() == shard.dim,
        up matches Ok(w) ==> w.record.op == WalOp::Upsert && w.record.hlc == hlc && w.record.id == id
            && w.record.vector@ == vector@ && w.record.payload@ == payload@ && w.frame@ == record_frame(w.record@),
        del.record.op == WalOp::Delete,
        del.record.hlc == hlc,
        del.record.id == id,
        del.record.vector@.len() == 0,
        del.frame@ == record_frame(del.record@),
{
    assert(del.record@.vector == del.record.vector@);
    if up is Ok {
        let w = up->Ok_0;
        assert(w.record@.vector == w.record.vector@);
    }
}

/// What a snapshot is taken of is the whole log so far and every version.
pub proof fn snapshot_call_covers_the_log<D: Fn(Metric, &[u32], &[u32]) -> u32>(
    shard: &Shard<D>,
    r: (u64, HashMap<u64, VersionEntry>),
    id: u64,
)
    requires
        call_ensures(Shard::<D>::snapshot_now, (shard,), r),
    ensures
        r.0 == shard.wal.len,
        r.1@.contains_key(id) <==> shard@.versions.contains_key(id),
        shard@.versions.contains_key(id) ==> r.1@[id].hlc == shard@.versions[id].hlc && r.1@[id].tombstone
            == shard@.versions[id].tombstone,
{
}

/// A shard that is held is streamed whole, tombstones with it; one that is not gives
/// nothing.
pub proof fn stream_call_holds_every_version<D: Fn(Metric, &[u32], &[u32]) -> u32>(
    shard: &Shard<D>,
    r: Vec<WirePoint>,
    none: Vec<WirePoint>,
    id: u64,
)
    requires
        call_ensures(apply_stream_shard, (Some(shard),), r),
        call_ensures(apply_stream_shard, (None::<&Shard<D>>,), none),
    ensures
        none@.len() == 0,
        shard@.versions.contains_key(id) <==> exists|i: int| 0 <= i < r@.len() && (#[trigger] r@[i]).id == id,
        forall|i: int|
            0 <= i < r@.len() && (#[trigger] r@[i]).id == id ==> r@[i].hlc == shard@.versions[id].hlc.value()
                && r@[i].tombstone == shard@.versions[id].tombstone && (shard@.points.contains_key(id)
                ==> r@[i].vector@ == shard@.points[id]),
{
    let views = wire_views(r@);
    assert(views.len() == r@.len());
    assert(forall|i: int| 0 <= i < r@.len() ==> views[i] == (#[trigger] r@[i])@);
    stream_holds_every_version(shard@, views, id);
    if shard@.versions.contains_key(id) {
        let i = choose|i: int| 0 <= i < views.len() && (#[trigger] views[i]).id == id;
        assert(r@[i].id == id);
    }
    if exists|i: int| 0 <= i < r@.len() && (#[trigger] r@[i]).id == id {
        let i = choose|i: int| 0 <= i < r@.len() && (#[trigger] r@[i]).id == id;
        assert(views[i].id == id);
    }
    assert forall|i: int| 0 <= i < r@.len() && (#[trigger] r@[i]).id == id implies r@[i].hlc
        == shard@.versions[id].hlc.value() && r@[i].tombstone == shard@.versions[id].tombstone && (
    shard@.points.contains_key(id) ==> r@[i].vector@ == shard@.points[id]) by {
        assert(views[i].id == id);
    }
}

/// A transfer counts the records that won: all where all did, none where none did, and one
/// more for each further one that does.
pub proof fn pull_call_counts_the_wins(
    outcomes: &Vec<WriteOutcome>,
    more: &Vec<WriteOutcome>,
    o: WriteOutcome,
    r: usize,
    s: usize,
)
    requires
        call_ensures(pull_shard, (outcomes,), r),
        more@ == outcomes@.push(o),
        call_ensures(pull_shard, (more,), s),
    ensures
        outcomes@.len() == 0 ==> r == 0,
        o == WriteOutcome::Applied ==> s == r + 1,
        o != WriteOutcome::Applied ==> s == r,
{
    crate::durability::each_win_counts_once(outcomes@, o);
    if outcomes@.len() == 0 {
        assert(outcomes@ =~= Seq::empty());
    }
}

/// The entries that a range asks for are those whose indexes lie in it, in order.
pub proof fn range_call_returns_the_indexes<L: Copy, E, V: Copy>(
    log: &LogStore<L, E, V>,
    from: u64,
    to: Option<u64>,
    r: Vec<u64>,
    i: u64,
)
    requires
        call_ensures(LogStore::<L, E, V>::try_get_log_entries, (log, from, to), r),
    ensures
        r@.contains(i) <==> log.log@.contains_key(i) && i >= from && (to is None || i < to.unwrap()),
        forall|a: int, b: int| 0 <= a < b < r@.len() ==> r@[a] < r@[b],
{
}

/// A hint that is appended is framed with its checksum.
pub proof fn appended_hint_is_framed(log: &mut HintLog, h: &Hint, r: Vec<u8>)
    requires
        call_ensures(HintLog::append, (log, h), r),
    ensures
        r@ == framed(h@.body(), crc32(h@.body())),
{
}

/// What a hint file is cut to when it is opened is what it held of complete hints.
pub proof fn opened_hints_end_where_they_are_complete(
    hints: Seq<HintView>,
    torn: Seq<u8>,
    buf: &[u8],
    r: (HintLog, u64),
    all: Vec<Hint>,
)
    requires
        forall|i: int| 0 <= i < hints.len() ==> (#[trigger] hints[i]).storable(),
        crate::frame::intact_body(torn) is None,
        buf@ == crate::hints::hint_bytes(hints) + torn,
        call_ensures(HintLog::open, (buf,), r),
        call_ensures(HintLog::read_all, (buf,), all),
    ensures
        r.1 == crate::hints::hint_bytes(hints).len(),
        all@.len() == hints.len(),
        forall|i: int| 0 <= i < hints.len() ==> (#[trigger] all@[i])@ == hints[i],
{
    crate::hints::reading_returns_appended(hints, torn);
    let back = crate::hints::hint_views(all@);
    assert(back.len() == all@.len());
    assert forall|i: int| 0 <= i < hints.len() implies (#[trigger] all@[i])@ == hints[i] by {
        assert(back[i] == all@[i]@);
    }
}

/// A command line says what its arguments say, one after the other.
pub proof fn parse_call_follows_the_arguments(
    args: &Vec<String>,
    addrs: &Vec<Option<String>>,
    r: Result<LaunchArgs, ArgsError>,
)
    requires
        call_ensures(parse_args, (args, addrs), r),
        addrs@.len() == args@.len(),
    ensures
        args@.len() == 0 ==> (r matches Ok(a) && a@ == no_args()),
        args@.len() == 1 && args@[0]@ == "--bootstrap"@ ==> (r matches Ok(a) && a.bootstrap && a.node_id is None),
        args@.len() == 1 && (args@[0]@ == "--help"@ || args@[0]@ == "-h"@) ==> (r matches Err(e) && e is Help),
        args@.len() == 2 && args@[0]@ == "--node-id"@ ==> match parsed_u64(args@[1]@) {
            Some(n) => r matches Ok(a) && a.node_id == Some(n) && !a.bootstrap,
            None => r matches Err(e) && (e matches ArgsError::BadNodeId(s) && s@ == args@[1]@),
        },
        args@.len() == 2 && args@[0]@ == "--data-dir"@ ==> (r matches Ok(a) && (a.data_dir matches Some(d) && d@
            == args@[1]@)),
        args@.len() == 2 && args@[0]@ == "--config"@ ==> (r matches Ok(a) && (a.config_path matches Some(c) && c@
            == args@[1]@)),
        args@.len() == 2 && args@[0]@ == "--advertise"@ ==> (r matches Ok(a) && (a.advertise matches Some(d) && d@
            == args@[1]@)),
        args@.len() == 2 && args@[0]@ == "--join"@ ==> (r matches Ok(a) && texts(a.join_targets@) == comma_parts(
            args@[1]@,
        )),
{
    let ts = texts(args@);
    let os = opt_texts(addrs@);
    arguments_come_to_an_end(no_args(), ts, os);
    assert(ts.len() == args@.len());
    if args@.len() == 1 {
        assert(ts[0] == args@[0]@);
        bad_argument_is_refused(no_args(), ts, os, 0);
        if args@[0]@ == "--bootstrap"@ {
            bootstrap_stands_alone(no_args(), ts, os);
        }
    }
    if args@.len() == 2 {
        assert(ts[0] == args@[0]@ && ts[1] == args@[1]@);
        flag_sets_what_it_names(no_args(), ts, os, 0);
        bad_argument_is_refused(no_args(), ts, os, 0);
        assert(no_args().join_targets + comma_parts(ts[1]) =~= comma_parts(ts[1]));
    }
}

/// A join target that is written with its number and address is parsed as these.
pub proof fn target_call_is_read_back(id: u64, addr: Seq<char>, s: &str, r: Option<(u64, String)>)
    requires
        call_ensures(parse_join_target, (s,), r),
    ensures
        s@ == decimal(id as nat).push('@') + addr && addr.len() > 0 ==> (r matches Some(t) && t.0 == id && t.1@ == addr),
        s@ == decimal(id as nat).push('@') ==> r is None,
        !s@.contains('@') ==> r is None,
{
    crate::service::join_target_is_read_back(id, addr, s@);
}

/// An attempt to join is followed by another one until it succeeds, 120 at most, with half
/// a second in between.
pub proof fn join_call_tries_again(attempt: u32, ok: bool, r: JoinNext)
    requires
        call_ensures(join_next, (attempt, ok), r),
    ensures
        r.again <==> !ok && attempt < 119,
        !ok ==> r.wait_ms == 500,
        r.warn <==> !ok && attempt as int % 10 == 0,
{
}

/// Opening a shard from its log is refused for want of room exactly where the records
/// upsert more ids than an index can number.
pub proof fn checked_open_call_counts_the_ids<D: Fn(Metric, &[u32], &[u32]) -> u32>(
    dim: usize,
    metric: Metric,
    kernel: D,
    snapshot_wal_mb: u64,
    batch_ms: u64,
    log: &[u8],
    r: Option<Result<(Shard<D>, u64), ShardError>>,
)
    requires
        call_ensures(
            Shard::<D>::open_checked,
            (dim, metric, kernel, snapshot_wal_mb, batch_ms, None::<Snapshot<D>>, log),
            r,
        ),
    ensures
        r is None <==> upsert_ids(beyond(recovered(log@).0, 0)).len() > 0xFFFF_FFFF,
{
    let ids = upsert_ids(beyond(recovered(log@).0, 0));
    assert(Set::<u64>::empty().union(ids) =~= ids);
}

/// A search of a shard without tombstones whose index is connected returns as many points
/// as were asked for, or all, and refuses a query of another length.
pub proof fn shard_search_call_returns_k<D: Fn(Metric, &[u32], &[u32]) -> u32>(
    shard: &Shard<D>,
    query: &[u32],
    k: usize,
    ef_search: usize,
    r: Result<Vec<(u64, u32)>, ShardError>,
)
    requires
        shard.wf(),
        call_ensures(Shard::<D>::search, (shard, query, k, ef_search), r),
        forall|i: int| 0 <= i < shard.index.deleted@.len() ==> !#[trigger] shard.index.deleted@[i],
        forall|a: u32, b: u32|
            a < shard.index.nodes@.len() && b < shard.index.nodes@.len() ==> #[trigger] reachable(
                shard.index.graph(),
                0,
                a,
                b,
            ),
    ensures
        r is Ok <==> query@.len() == shard.index.dimension(),
        r matches Ok(found) ==> found@.len() == if k <= shard@.points.len() {
            k as nat
        } else {
            shard@.points.len()
        },
        r matches Ok(found) ==> forall|i: int|
            0 <= i < found@.len() ==> shard@.points.contains_key((#[trigger] found@[i]).0),
{
    if r is Ok {
        crate::hnsw::search_returns_k(shard.index, query@, k as nat, ef_search as nat, r->Ok_0@);
    }
}

/// Opening a shard from the log of the writes that it accepted succeeds exactly where
/// every vector in it has the shard's length.
pub proof fn open_call_refuses_a_misfit<D: Fn(Metric, &[u32], &[u32]) -> u32>(
    dim: usize,
    metric: Metric,
    kernel: D,
    snapshot_wal_mb: u64,
    batch_ms: u64,
    log: &[u8],
    rs: Seq<RecordView>,
    torn: Seq<u8>,
    r: Result<(Shard<D>, u64), ShardError>,
)
    requires
        call_ensures(
            Shard::<D>::open,
            (dim, metric, kernel, snapshot_wal_mb, batch_ms, None::<Snapshot<D>>, log),
            r,
        ),
        log@ == wal_bytes(rs) + torn,
        forall|i: int| 0 <= i < rs.len() ==> (#[trigger] rs[i]).storable(),
        forall|i: int|
            0 <= i < rs.len() ==> is_news(lww_all(empty_shard(), rs.take(i)), (#[trigger] rs[i]).id, rs[i].hlc),
        crate::frame::intact_body(torn) is None,
    ensures
        r is Ok <==> forall|i: int|
            0 <= i < rs.len() && (#[trigger] rs[i]).op == WalOp::Upsert ==> rs[i].vector.len() == dim,
{
    let none = empty_shard();
    crate::wal::recovery_returns_appended(rs, torn);
    assert(rs.take(0) =~= Seq::empty());
    crate::shard::beyond_is_tail(rs, 0);
    assert(rs.skip(0) =~= rs);
    assert forall|i: int| 0 <= i < rs.len() implies (#[trigger] crate::shard::misfit(
        crate::shard::replayed_all(none, rs.take(i)),
        rs[i],
        dim as nat,
    ) <==> rs[i].op == WalOp::Upsert && rs[i].vector.len() != dim) by {
        let head = rs.take(i);
        assert forall|j: int| 0 <= j < head.len() implies !crate::shard::stale(
            lww_all(none, head.take(j)),
            (#[trigger] head[j]).id,
            head[j].hlc,
        ) by {
            assert(head.take(j) =~= rs.take(j));
            assert(head[j] == rs[j]);
        }
        crate::shard::replay_of_accepted(none, head);
        assert(is_news(lww_all(none, rs.take(i)), rs[i].id, rs[i].hlc));
    }
    if r is Ok {
        assert forall|i: int| 0 <= i < rs.len() && (#[trigger] rs[i]).op == WalOp::Upsert implies rs[i].vector.len()
            == dim by {
            assert(!crate::shard::misfit(crate::shard::replayed_all(none, rs.take(i)), rs[i], dim as nat));
        }
    } else if forall|i: int|
        0 <= i < rs.len() && (#[trigger] rs[i]).op == WalOp::Upsert ==> rs[i].vector.len() == dim {
        assert(crate::shard::fits(none, rs, dim as nat));
    }
}

} // verus!
