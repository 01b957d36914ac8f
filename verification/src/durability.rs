//! What storage promises, each said of what goes in and what comes out: how a write
//! changes a shard, where the bytes of a log lie, and what a transfer carries.

use vstd::prelude::*;

use crate::distance::Metric;
use crate::hlc::Hlc;
use crate::index::VectorIndex;
use crate::raft::EntryPayload;
use crate::shard::WriteOutcome;
use crate::snapshot::Snapshot;
use crate::wal::WalOp;

verus! {

use crate::codec::{le32, le32s, le64, low32};
use crate::frame::{crc32, frame_roundtrip, framed, intact_body};
use crate::hints::HintView;
use crate::hlc::next_stamp;
use crate::meta::{applied, note_of, MetaView};
use crate::promises::stamped_before;
use crate::raft::{all_applied, appended, entry_applied, entry_note, last_member};
use crate::shard::{
    beyond, due, frames_len, lww, misfit, replayed, snapshot_view, stale, start_of, threshold, upsert_ids, ShardView,
};
use crate::shards::{stored_in, StoredView};
use crate::store::{looked_up, with_points};
use crate::text::utf8;
use crate::transfer::{pulled, sent, streams, taken, versions_of, wins, WireView};
use crate::wal::{record_frame, recovered, wal_bytes, RecordView};

broadcast use crate::codec::group_le_len;

/// The shard has no version of `id` that is as new as `hlc`.
pub open spec fn is_news(s: ShardView, id: u64, hlc: Hlc) -> bool {
    !s.versions.contains_key(id) || stamped_before(s.versions[id].hlc, hlc)
}

/// A write that is newer than what the shard has takes effect: an upsert stores the
/// vector and a delete removes the point, and the id's version is the write's.
pub proof fn newer_write_takes_effect(s: ShardView, r: RecordView)
    requires
        is_news(s, r.id, r.hlc),
    ensures
        lww(s, r).versions.contains_key(r.id),
        lww(s, r).versions[r.id].hlc == r.hlc,
        lww(s, r).versions[r.id].tombstone <==> r.op == WalOp::Delete,
        r.op == WalOp::Upsert ==> lww(s, r).points.contains_key(r.id) && lww(s, r).points[r.id] == r.vector,
        r.op == WalOp::Delete ==> !lww(s, r).points.contains_key(r.id),
        !stale(s, r.id, r.hlc),
{
}

/// A write that is not newer than what the shard has changes nothing, be it as new.
pub proof fn other_write_changes_nothing(s: ShardView, r: RecordView)
    requires
        !is_news(s, r.id, r.hlc),
    ensures
        lww(s, r) == s,
        stale(s, r.id, r.hlc),
{
}

/// A write concerns one id: what the shard has of any other stays.
pub proof fn write_leaves_other_ids(s: ShardView, r: RecordView, other: u64)
    requires
        other != r.id,
    ensures
        stored_in(lww(s, r), other) == stored_in(s, other),
        stored_in(replayed(s, r), other) == stored_in(s, other),
        lww(s, r).points.contains_key(other) <==> s.points.contains_key(other),
        replayed(s, r).points.contains_key(other) <==> s.points.contains_key(other),
{
}

/// Two writes of one id end alike in either order unless they carry the same stamp: the
/// newer one decides.
pub proof fn newer_of_two_decides(s: ShardView, a: RecordView, b: RecordView)
    requires
        a.id == b.id,
        stamped_before(a.hlc, b.hlc),
        is_news(s, b.id, b.hlc),
    ensures
        stored_in(lww(lww(s, a), b), b.id) == stored_in(lww(lww(s, b), a), b.id),
        lww(lww(s, a), b).versions[b.id].hlc == b.hlc,
        lww(lww(s, b), a).versions[b.id].hlc == b.hlc,
{
}

/// Replaying a record takes effect unless the shard has a strictly newer version; one
/// with the same stamp is stored again.
pub proof fn replay_skips_only_older(s: ShardView, r: RecordView)
    ensures
        s.versions.contains_key(r.id) && stamped_before(r.hlc, s.versions[r.id].hlc) ==> replayed(s, r) == s,
        !(s.versions.contains_key(r.id) && stamped_before(r.hlc, s.versions[r.id].hlc)) ==> {
            &&& replayed(s, r).versions.contains_key(r.id)
            &&& replayed(s, r).versions[r.id].hlc == r.hlc
            &&& (replayed(s, r).versions[r.id].tombstone <==> r.op == WalOp::Delete)
            &&& (r.op == WalOp::Upsert ==> replayed(s, r).points.contains_key(r.id) && replayed(s, r).points[r.id]
                == r.vector)
            &&& (r.op == WalOp::Delete ==> !replayed(s, r).points.contains_key(r.id))
        },
{
}

/// A record is a misfit exactly where replaying it would leave a vector of another
/// length than the others in the shard.
pub proof fn misfit_spoils_the_shard(s: ShardView, r: RecordView, dim: nat)
    requires
        forall|id: u64| #[trigger] s.points.contains_key(id) ==> s.points[id].len() == dim,
    ensures
        misfit(s, r, dim) <==> exists|id: u64| #[trigger]
            replayed(s, r).points.contains_key(id) && replayed(s, r).points[id].len() != dim,
{
    if misfit(s, r, dim) {
        assert(replayed(s, r).points.contains_key(r.id));
    } else {
        assert forall|id: u64| #[trigger] replayed(s, r).points.contains_key(id) implies replayed(s, r).points[id].len()
            == dim by {
            if id != r.id {
                assert(s.points.contains_key(id));
            } else if replayed(s, r) == s {
                assert(s.points.contains_key(id));
            }
        }
    }
}

/// What a shard stores of an id is read back from the write that decided it.
pub proof fn write_is_stored(s: ShardView, r: RecordView)
    requires
        is_news(s, r.id, r.hlc),
    ensures
        stored_in(lww(s, r), r.id) is Some,
        ({
            let p = stored_in(lww(s, r), r.id).unwrap();
            &&& p.id == r.id
            &&& p.hlc == r.hlc
            &&& (p.tombstone <==> r.op == WalOp::Delete)
            &&& (r.op == WalOp::Upsert ==> p.vector == r.vector)
            &&& (r.op == WalOp::Delete ==> p.vector.len() == 0)
        }),
{
}

/// An id that no write named is not stored, neither live nor as a tombstone.
pub proof fn unseen_id_is_not_stored(s: ShardView, id: u64)
    ensures
        stored_in(s, id) is Some <==> s.versions.contains_key(id),
{
}

/// A snapshot falls due exactly when the log has grown by a positive threshold since the
/// last one; with a threshold of 0 it never does.
pub proof fn snapshot_falls_due(len: u64, covered: u64, bytes: u64)
    ensures
        due(len, covered, 0) == false,
        bytes > 0 ==> (due(len, covered, bytes) <==> len >= covered + bytes),
{
}

/// The threshold is the setting in units of 1024 times 1024 bytes as far as that can be
/// counted, and 0 only for a setting of 0.
pub proof fn threshold_is_in_mebibytes(mb: u64)
    ensures
        mb * (1024 * 1024) <= u64::MAX ==> threshold(mb) == mb * (1024 * 1024),
        mb * (1024 * 1024) > u64::MAX ==> threshold(mb) == u64::MAX,
        threshold(mb) == 0 <==> mb == 0,
{
}

/// The number whose bytes, least significant first, are `b`.
pub open spec fn little_endian(b: Seq<u8>) -> int
    decreases b.len(),
{
    if b.len() == 0 {
        0
    } else {
        b[0] + 256 * little_endian(b.skip(1))
    }
}

/// Numbers are written with the least significant byte first.
pub proof fn numbers_are_little_endian(v: u32, w: u64)
    ensures
        le32(v).len() == 4,
        le64(w).len() == 8,
        little_endian(le32(v)) == v,
        little_endian(le64(w)) == w,
{
    four_are_little_endian(v);
    let lo = (w % 0x1_0000_0000) as u32;
    let hi = (w / 0x1_0000_0000) as u32;
    eight_bytes(le64(w));
    four_are_little_endian(lo);
    four_are_little_endian(hi);
    reveal(le64);
    assert(le64(w).subrange(0, 4) =~= le32(lo));
    assert(le64(w).subrange(4, 8) =~= le32(hi));
}

proof fn four_bytes(b: Seq<u8>)
    requires
        b.len() == 4,
    ensures
        little_endian(b) == b[0] + 256 * b[1] + 65536 * b[2] + 16777216 * b[3],
{
    reveal_with_fuel(little_endian, 6);
    assert(b.skip(1).skip(1) =~= b.skip(2));
    assert(b.skip(2).skip(1) =~= b.skip(3));
    assert(b.skip(3).skip(1) =~= b.skip(4));
    assert(b.skip(1)[0] == b[1] && b.skip(2)[0] == b[2] && b.skip(3)[0] == b[3]);
    assert(little_endian(b.skip(4)) == 0);
    assert(little_endian(b.skip(3)) == b[3]);
    assert(little_endian(b.skip(2)) == b[2] + 256 * b[3]);
    assert(little_endian(b.skip(1)) == b[1] + 256 * (b[2] + 256 * b[3]));
}

proof fn eight_bytes(b: Seq<u8>)
    requires
        b.len() == 8,
    ensures
        little_endian(b) == little_endian(b.subrange(0, 4)) + 0x1_0000_0000 * little_endian(b.subrange(4, 8)),
{
    four_bytes(b.subrange(0, 4));
    let h = b.skip(4);
    assert(h =~= b.subrange(4, 8));
    assert(b.skip(1).skip(1) =~= b.skip(2));
    assert(b.skip(2).skip(1) =~= b.skip(3));
    assert(b.skip(3).skip(1) =~= h);
    assert(b.skip(1)[0] == b[1] && b.skip(2)[0] == b[2] && b.skip(3)[0] == b[3]);
    assert(little_endian(b.skip(3)) == b[3] + 256 * little_endian(h));
    assert(little_endian(b.skip(2)) == b[2] + 256 * little_endian(b.skip(3)));
    assert(little_endian(b.skip(1)) == b[1] + 256 * little_endian(b.skip(2)));
}

proof fn four_are_little_endian(v: u32)
    ensures
        little_endian(le32(v)) == v,
{
    four_bytes(le32(v));
    reveal(le32);
}

/// The components of a vector lie one after the other, four bytes each.
pub proof fn components_lie_in_order(v: Seq<u32>, i: int)
    requires
        0 <= i < v.len(),
    ensures
        le32s(v).len() == 4 * v.len(),
        little_endian(le32s(v).subrange(4 * i, 4 * i + 4)) == v[i],
    decreases v.len(),
{
    let d = v.drop_last();
    crate::codec::le32s_len(v);
    crate::codec::le32s_len(d);
    if i < d.len() {
        components_lie_in_order(d, i);
        assert(le32s(v).subrange(4 * i, 4 * i + 4) =~= le32s(d).subrange(4 * i, 4 * i + 4));
    } else {
        assert(le32s(v).subrange(4 * i, 4 * i + 4) =~= le32(v[i]));
        four_are_little_endian(v[i]);
    }
}

/// Where the parts of a record's body lie: the operation in one byte, 0 for an upsert and
/// 1 for a delete; then, least significant byte first, the stamp with the wall clock
/// above the counter, the id, the number of components, the components, the length of the
/// payload; then the payload.
pub proof fn record_layout(r: RecordView)
    requires
        r.wf(),
    ensures
        ({
            let b = r.body();
            let d = r.vector.len() as int;
            &&& b.len() == 25 + 4 * d + r.payload.len()
            &&& b[0] == (if r.op == WalOp::Delete { 1u8 } else { 0u8 })
            &&& little_endian(b.subrange(1, 9)) == r.hlc.wall_ms * 65536 + r.hlc.counter
            &&& little_endian(b.subrange(9, 17)) == r.id
            &&& little_endian(b.subrange(17, 21)) == d
            &&& forall|i: int|
                0 <= i < d ==> little_endian(b.subrange(21 + 4 * i, 25 + 4 * i)) == #[trigger] r.vector[i]
            &&& little_endian(b.subrange(21 + 4 * d, 25 + 4 * d)) == r.payload.len()
            &&& b.subrange(25 + 4 * d, b.len() as int) == r.payload
        }),
{
    let b = r.body();
    let d = r.vector.len() as int;
    crate::codec::le32s_len(r.vector);
    numbers_are_little_endian(0, r.hlc.value());
    numbers_are_little_endian(0, r.id);
    four_are_little_endian(low32(r.vector.len()));
    four_are_little_endian(low32(r.payload.len()));
    assert(b.subrange(1, 9) =~= le64(r.hlc.value()));
    assert(b.subrange(9, 17) =~= le64(r.id));
    assert(b.subrange(17, 21) =~= le32(low32(r.vector.len())));
    assert(b.subrange(21, 21 + 4 * d) =~= le32s(r.vector));
    assert forall|i: int| 0 <= i < d implies little_endian(b.subrange(21 + 4 * i, 25 + 4 * i))
        == #[trigger] r.vector[i] by {
        components_lie_in_order(r.vector, i);
        assert(b.subrange(21 + 4 * i, 25 + 4 * i) =~= le32s(r.vector).subrange(4 * i, 4 * i + 4));
    }
    assert(b.subrange(21 + 4 * d, 25 + 4 * d) =~= le32(low32(r.payload.len())));
    assert(b.subrange(25 + 4 * d, b.len() as int) =~= r.payload);
}

/// Where the parts of a hint's body lie: the target, the length of the collection's name
/// in bytes, the name in UTF-8, the shard, and the record's body, numbers with the least
/// significant byte first.
pub proof fn hint_layout(h: HintView)
    requires
        h.wf(),
    ensures
        ({
            let b = h.body();
            let c = utf8(h.collection).len() as int;
            &&& b.len() == 16 + c + h.record.body().len()
            &&& little_endian(b.subrange(0, 8)) == h.target_node
            &&& little_endian(b.subrange(8, 12)) == c
            &&& b.subrange(12, 12 + c) == utf8(h.collection)
            &&& little_endian(b.subrange(12 + c, 16 + c)) == h.shard_idx
            &&& b.subrange(16 + c, b.len() as int) == h.record.body()
        }),
{
    let b = h.body();
    let c = utf8(h.collection).len() as int;
    numbers_are_little_endian(h.shard_idx, h.target_node);
    four_are_little_endian(low32(utf8(h.collection).len()));
    assert(b.subrange(0, 8) =~= le64(h.target_node));
    assert(b.subrange(8, 12) =~= le32(low32(utf8(h.collection).len())));
    assert(b.subrange(12, 12 + c) =~= utf8(h.collection));
    assert(b.subrange(12 + c, 16 + c) =~= le32(h.shard_idx));
    assert(b.subrange(16 + c, b.len() as int) =~= h.record.body());
}

/// Where the parts of a frame lie: the number of bytes that follow, the checksum of the
/// body, and the body.
pub proof fn frame_layout(body: Seq<u8>, crc: u32)
    requires
        body.len() + 4 < 0x1_0000_0000,
    ensures
        framed(body, crc).len() == 8 + body.len(),
        little_endian(framed(body, crc).subrange(0, 4)) == 4 + body.len(),
        little_endian(framed(body, crc).subrange(4, 8)) == crc,
        framed(body, crc).subrange(8, 8 + body.len() as int) == body,
{
    four_are_little_endian(low32(4 + body.len()));
    four_are_little_endian(crc);
    assert(framed(body, crc).subrange(0, 4) =~= le32(low32(4 + body.len())));
    assert(framed(body, crc).subrange(4, 8) =~= le32(crc));
    assert(framed(body, crc).subrange(8, 8 + body.len() as int) =~= body);
}

/// A frame is read where the checksum that it stores is that of its body, and is not
/// where it is another, whatever follows it.
pub proof fn wrong_checksum_is_refused(body: Seq<u8>, crc: u32, tail: Seq<u8>)
    requires
        body.len() + 4 < 0x1_0000_0000,
    ensures
        crc == crc32(body) ==> intact_body(framed(body, crc) + tail) == Some(body),
        crc != crc32(body) ==> intact_body(framed(body, crc) + tail) is None,
{
    frame_roundtrip(body, crc, tail);
}

/// Recovery ends in front of a frame whose checksum is wrong: the records before it are
/// all recovered, and neither it nor what follows is.
pub proof fn recovery_ends_at_corruption(records: Seq<RecordView>, body: Seq<u8>, crc: u32, tail: Seq<u8>)
    requires
        forall|i: int| 0 <= i < records.len() ==> (#[trigger] records[i]).storable(),
        body.len() + 4 < 0x1_0000_0000,
        crc != crc32(body),
    ensures
        recovered(wal_bytes(records) + (framed(body, crc) + tail)) == (records, wal_bytes(records).len()),
{
    wrong_checksum_is_refused(body, crc, tail);
    crate::wal::recovery_returns_appended(records, framed(body, crc) + tail);
}

/// The log is made of one frame after the other, each around a record's body with the
/// body's checksum.
pub proof fn log_is_made_of_frames(records: Seq<RecordView>, r: RecordView)
    ensures
        wal_bytes(Seq::<RecordView>::empty()).len() == 0,
        wal_bytes(records.push(r)) == wal_bytes(records) + framed(r.body(), crc32(r.body())),
        record_frame(r) == framed(r.body(), crc32(r.body())),
{
    crate::wal::append_extends_log(records, r);
}

/// What is sent of a stored version: all of it, with the stamp as one number, the wall
/// clock above the counter.
pub proof fn version_is_sent_whole(p: StoredView)
    requires
        p.hlc.wf(),
    ensures
        sent(p).id == p.id,
        sent(p).hlc == p.hlc.wall_ms * 65536 + p.hlc.counter,
        sent(p).tombstone == p.tombstone,
        sent(p).vector == p.vector,
        sent(p).payload == p.payload,
{
}

/// What is taken from a message is all that it says, with the stamp in its two parts.
pub proof fn version_is_taken_whole(p: WireView)
    ensures
        taken(p).id == p.id,
        taken(p).hlc.wall_ms * 65536 + taken(p).hlc.counter == p.hlc,
        taken(p).tombstone == p.tombstone,
        taken(p).vector == p.vector,
        taken(p).payload == p.payload,
{
}

/// A streamed record is written as what it is, under its own stamp: a tombstone as a
/// delete, a value as an upsert of its vector.
pub proof fn streamed_record_is_written_as_it_is(p: WireView)
    ensures
        pulled(p).id == p.id,
        pulled(p).hlc.wall_ms * 65536 + pulled(p).hlc.counter == p.hlc,
        p.tombstone <==> pulled(p).op == WalOp::Delete,
        !p.tombstone ==> pulled(p).vector == p.vector && pulled(p).payload == p.payload,
{
}

/// A replica answers for exactly those of the ids that it has a version of, live or
/// tombstone, with that version.
pub proof fn replica_answers_with_its_versions(s: ShardView, ids: Seq<u64>, w: WireView)
    ensures
        versions_of(s, ids).contains(w) <==> ids.contains(w.id) && s.versions.contains_key(w.id) && w.hlc
            == s.versions[w.id].hlc.value() && w.tombstone == s.versions[w.id].tombstone && w.vector == (
        if s.points.contains_key(w.id) {
            s.points[w.id]
        } else {
            Seq::empty()
        }) && w.payload == Seq::<u8>::empty(),
    decreases ids.len(),
{
    if ids.len() > 0 {
        let d = ids.drop_last();
        let last = ids[ids.len() - 1];
        replica_answers_with_its_versions(s, d, w);
        let head = versions_of(s, d);
        let all = versions_of(s, ids);
        assert(ids.contains(w.id) <==> d.contains(w.id) || w.id == last) by {
            if d.contains(w.id) {
                assert(ids[d.index_of(w.id)] == w.id);
            }
            if ids.contains(w.id) && w.id != last {
                assert(d[ids.index_of(w.id)] == w.id);
            }
        }
        if s.versions.contains_key(last) {
            let own = sent(stored_in(s, last).unwrap());
            assert(all == head.push(own));
            if head.contains(w) {
                assert(all[head.index_of(w)] == w);
            }
            if w == own {
                assert(all[head.len() as int] == w);
            }
            if all.contains(w) && w != own {
                assert(head[all.index_of(w)] == w);
            }
        }
    }
}

/// A stream of a shard holds a record for each id that the shard has a version of, live
/// or tombstone, and for no other, with that version's stamp.
pub proof fn stream_holds_every_version(s: ShardView, r: Seq<WireView>, id: u64)
    requires
        streams(s, r),
    ensures
        s.versions.contains_key(id) <==> exists|i: int| 0 <= i < r.len() && (#[trigger] r[i]).id == id,
        forall|i: int|
            0 <= i < r.len() && (#[trigger] r[i]).id == id ==> r[i].hlc == s.versions[id].hlc.value()
                && r[i].tombstone == s.versions[id].tombstone && (s.points.contains_key(id) ==> r[i].vector
                == s.points[id]),
{
    if exists|i: int| 0 <= i < r.len() && (#[trigger] r[i]).id == id {
        let i = choose|i: int| 0 <= i < r.len() && (#[trigger] r[i]).id == id;
        assert(stored_in(s, r[i].id) is Some);
    }
}

/// The records that a transfer stored are counted one each, those that were already
/// superseded not at all.
pub proof fn each_win_counts_once(outcomes: Seq<WriteOutcome>, o: WriteOutcome)
    ensures
        wins(Seq::<WriteOutcome>::empty()) == 0,
        o == WriteOutcome::Applied ==> wins(outcomes.push(o)) == wins(outcomes) + 1,
        o != WriteOutcome::Applied ==> wins(outcomes.push(o)) == wins(outcomes),
{
    assert(outcomes.push(o).drop_last() =~= outcomes);
}

/// What a lookup returns: those of the ids that are held, each as often as it was asked
/// for, in that order, with what is held.
pub proof fn lookup_returns_what_is_held(points: Map<u64, Seq<u32>>, ids: Seq<u64>)
    ensures
        looked_up(points, ids) == ids.filter(|id: u64| points.contains_key(id)).map_values(
            |id: u64| (id, points[id]),
        ),
    decreases ids.len(),
{
    let held = |id: u64| points.contains_key(id);
    let entry = |id: u64| (id, points[id]);
    reveal(Seq::filter);
    if ids.len() == 0 {
        assert(looked_up(points, ids) =~= ids.filter(held).map_values(entry));
    } else {
        lookup_returns_what_is_held(points, ids.drop_last());
        assert(looked_up(points, ids) =~= ids.filter(held).map_values(entry));
    }
}

/// An upsert of a batch leaves every other point as it was.
pub proof fn upsert_leaves_other_points(points: Map<u64, Seq<u32>>, pts: Seq<(u64, Vec<u32>)>, n: nat, id: u64)
    requires
        n <= pts.len(),
        forall|j: int| 0 <= j < n ==> (#[trigger] pts[j]).0 != id,
    ensures
        with_points(points, pts, n).contains_key(id) <==> points.contains_key(id),
        points.contains_key(id) ==> with_points(points, pts, n)[id] == points[id],
    decreases n,
{
    if n > 0 {
        upsert_leaves_other_points(points, pts, (n - 1) as nat, id);
        assert(pts[n - 1].0 != id);
    }
}

/// Only a request changes the metadata: a blank entry or a change of membership leaves it
/// as it was, and is answered with a note of its own.
pub proof fn only_requests_change_metadata<M>(s: MetaView, p: EntryPayload<M>)
    ensures
        p is Blank ==> entry_applied(s, p) == s && entry_note(s, p) == "blank"@,
        p is Membership ==> entry_applied(s, p) == s && entry_note(s, p) == "membership"@,
        p matches EntryPayload::Normal(req) ==> entry_applied(s, p) == applied(s, req) && entry_note(s, p)
            == note_of(s, req),
{
}

/// Entries take effect one after the other: an entry more is applied to what the others
/// left.
pub proof fn entries_take_effect_in_order<L, M>(s: MetaView, entries: Seq<(L, EntryPayload<M>)>, e: (L, EntryPayload<M>))
    ensures
        all_applied(s, Seq::<(L, EntryPayload<M>)>::empty()) == s,
        e.1 matches EntryPayload::Normal(req) ==> all_applied(s, entries.push(e)) == applied(
            all_applied(s, entries),
            req,
        ),
        !(e.1 is Normal) ==> all_applied(s, entries.push(e)) == all_applied(s, entries),
{
    assert(entries.push(e).drop_last() =~= entries);
}

/// The membership is that of the last entry that set one, and stays where none did.
pub proof fn last_membership_holds<L, M>(m: M, entries: Seq<(L, EntryPayload<M>)>, i: int)
    requires
        -1 <= i < entries.len(),
        i >= 0 ==> entries[i].1 is Membership,
        forall|j: int| i < j < entries.len() ==> !((#[trigger] entries[j]).1 is Membership),
    ensures
        i >= 0 ==> last_member(m, entries) == entries[i].1->Membership_0,
        i < 0 ==> last_member(m, entries) == m,
    decreases entries.len(),
{
    if entries.len() > 0 {
        let d = entries.drop_last();
        let n = entries.len() - 1;
        assert(entries.last() == entries[n]);
        if i < n {
            assert(forall|j: int| 0 <= j < n ==> d[j] == entries[j]);
            last_membership_holds(m, d, i);
        }
    }
}

/// An entry that was appended is in the log under its index, unless a later one of the
/// batch has the same; what the batch does not name stays.
pub proof fn appended_entry_is_read_back<L, E>(log: Map<u64, (L, E)>, entries: Seq<(u64, L, E)>, i: int, other: u64)
    requires
        0 <= i < entries.len(),
        forall|j: int| i < j < entries.len() ==> (#[trigger] entries[j]).0 != entries[i].0,
        forall|j: int| 0 <= j < entries.len() ==> (#[trigger] entries[j]).0 != other,
    ensures
        appended(log, entries).contains_key(entries[i].0),
        appended(log, entries)[entries[i].0] == (entries[i].1, entries[i].2),
        appended(log, entries).contains_key(other) <==> log.contains_key(other),
        log.contains_key(other) ==> appended(log, entries)[other] == log[other],
    decreases entries.len(),
{
    let d = entries.drop_last();
    let n = entries.len() - 1;
    assert(forall|j: int| 0 <= j < n ==> d[j] == entries[j]);
    assert(entries[n].0 != other);
    if i < n {
        appended_entry_is_read_back(log, d, i, other);
        assert(entries[n].0 != entries[i].0);
    } else if n > 0 {
        others_stay(log, d, other);
    }
}

proof fn others_stay<L, E>(log: Map<u64, (L, E)>, entries: Seq<(u64, L, E)>, other: u64)
    requires
        forall|j: int| 0 <= j < entries.len() ==> (#[trigger] entries[j]).0 != other,
    ensures
        appended(log, entries).contains_key(other) <==> log.contains_key(other),
        log.contains_key(other) ==> appended(log, entries)[other] == log[other],
    decreases entries.len(),
{
    if entries.len() > 0 {
        let d = entries.drop_last();
        assert(forall|j: int| 0 <= j < d.len() ==> d[j] == entries[j]);
        others_stay(log, d, other);
        assert(entries[entries.len() - 1].0 != other);
    }
}

/// A stamp is the least number above the last one that is no less than the wall clock
/// with a counter of 0, as long as there is one.
pub proof fn stamp_is_the_least_next(last: u64, wall_ms: u64, v: u64)
    requires
        last < u64::MAX,
    ensures
        next_stamp(last, wall_ms) > last,
        next_stamp(last, wall_ms) >= (wall_ms as int % 0x1_0000_0000_0000) * 65536,
        v > last && v >= (wall_ms as int % 0x1_0000_0000_0000) * 65536 ==> v >= next_stamp(last, wall_ms),
{
}

/// Timestamps are ordered by wall clock first and by counter within it, and a packed one
/// is the wall clock above sixteen bits of counter.
pub proof fn stamps_are_ordered_by_wall_clock(a: Hlc, b: Hlc)
    ensures
        a.older(b) <==> a.wall_ms < b.wall_ms || (a.wall_ms == b.wall_ms && a.counter < b.counter),
        a.wf() <==> a.wall_ms < 0x1_0000_0000_0000,
        a.wf() ==> a.value() == a.wall_ms * 65536 + a.counter,
{
}

/// The ids that a run of records upserts are those of its upserts.
pub proof fn upserted_ids_are_those_of_upserts(rs: Seq<RecordView>, id: u64)
    ensures
        upsert_ids(rs).contains(id) <==> exists|i: int|
            0 <= i < rs.len() && (#[trigger] rs[i]).op == WalOp::Upsert && rs[i].id == id,
    decreases rs.len(),
{
    if rs.len() > 0 {
        let d = rs.drop_last();
        let n = rs.len() - 1;
        upserted_ids_are_those_of_upserts(d, id);
        assert(forall|i: int| 0 <= i < n ==> d[i] == rs[i]);
        if upsert_ids(d).contains(id) {
            let i = choose|i: int| 0 <= i < d.len() && (#[trigger] d[i]).op == WalOp::Upsert && d[i].id == id;
            assert(rs[i].op == WalOp::Upsert && rs[i].id == id);
        }
        if rs[n].op == WalOp::Upsert && rs[n].id == id {
            assert(upsert_ids(rs).contains(id));
        }
        if exists|i: int| 0 <= i < rs.len() && (#[trigger] rs[i]).op == WalOp::Upsert && rs[i].id == id {
            let i = choose|i: int| 0 <= i < rs.len() && (#[trigger] rs[i]).op == WalOp::Upsert && rs[i].id == id;
            if i < n {
                assert(d[i].op == WalOp::Upsert && d[i].id == id);
            }
        }
    }
}

/// The records that a log holds beyond an offset are those whose frames end after it.
pub proof fn record_is_beyond_by_its_end(rs: Seq<RecordView>, r: RecordView, covered: nat)
    ensures
        frames_len(Seq::empty()) == 0,
        frames_len(rs.push(r)) == frames_len(rs) + 33 + 4 * r.vector.len() + r.payload.len(),
        frames_len(rs.push(r)) > covered ==> beyond(rs.push(r), covered) == beyond(rs, covered).push(r),
        frames_len(rs.push(r)) <= covered ==> beyond(rs.push(r), covered) == beyond(rs, covered),
        beyond(Seq::empty(), covered).len() == 0,
{
    assert(rs.push(r).drop_last() =~= rs);
}

/// A snapshot stands for its points and for the versions that it lists.
pub proof fn snapshot_holds_its_versions<D: Fn(Metric, &[u32], &[u32]) -> u32>(s: Snapshot<D>, id: u64)
    ensures
        snapshot_view(s).points == s.index.points(),
        snapshot_view(s).versions.contains_key(id) <==> s.versions@.contains_key(id),
        s.versions@.contains_key(id) ==> snapshot_view(s).versions[id].hlc == s.versions@[id].hlc && snapshot_view(
            s,
        ).versions[id].tombstone == s.versions@[id].tombstone,
        start_of(Some(s)).1 == s.wal_offset,
{
}

} // verus!
