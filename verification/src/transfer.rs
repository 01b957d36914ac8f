//! Points on their way between nodes: what a replica answers a read with, and the
//! records that a shard is rebuilt from.
//!
//! A record that arrives is staged under last-writer-wins. That is what makes a
//! transfer safe beside live writes: a live write that landed on the target in the
//! meantime is never clobbered by an older copy, and a streamed tombstone suppresses
//! a stale resurrection.

use vstd::prelude::*;

use crate::distance::Metric;
use crate::hlc::{Hlc, HlcClock};
use crate::shard::{Shard, WriteOutcome};
use crate::shards::StoredPoint;
use crate::wal::WalRecord;

verus! {

use crate::hlc::{next_stamp, pack_roundtrip};
use crate::shard::{empty_shard, lww, lww_all, stale, written, ShardView};
use crate::shards::{stored_in, StoredView};
use crate::wal::RecordView;

/// A versioned point in a message, with its timestamp packed.
#[derive(Debug, PartialEq, Eq)]
pub struct WirePoint {
    pub id: u64,
    pub hlc: u64,
    pub tombstone: bool,
    pub vector: Vec<u32>,
    pub payload: Vec<u8>,
}

/// What a point in a message says.
#[verifier::ext_equal]
pub struct WireView {
    pub id: u64,
    pub hlc: u64,
    pub tombstone: bool,
    pub vector: Seq<u32>,
    pub payload: Seq<u8>,
}

impl View for WirePoint {
    type V = WireView;

    open spec fn view(&self) -> WireView {
        WireView {
            id: self.id,
            hlc: self.hlc,
            tombstone: self.tombstone,
            vector: self.vector@,
            payload: self.payload@,
        }
    }
}

/// A stored point as it is sent.
pub open spec fn sent(p: StoredView) -> WireView {
    WireView {
        id: p.id,
        hlc: p.hlc.value(),
        tombstone: p.tombstone,
        vector: p.vector,
        payload: p.payload,
    }
}

/// A point as it is taken from a message.
pub open spec fn taken(p: WireView) -> StoredView {
    StoredView {
        id: p.id,
        hlc: Hlc::of(p.hlc),
        tombstone: p.tombstone,
        vector: p.vector,
        payload: p.payload,
    }
}

/// What a run of points in messages says.
pub open spec fn wire_views(points: Seq<WirePoint>) -> Seq<WireView> {
    points.map_values(|p: WirePoint| p@)
}

/// The message form of a stored point.
pub fn to_wire(p: StoredPoint) -> (r: WirePoint)
    ensures
        r@ == sent(p@),
{
    WirePoint {
        id: p.id,
        hlc: p.hlc.pack(),
        tombstone: p.tombstone,
        vector: p.vector,
        payload: p.payload,
    }
}

/// The stored form of a point in a message.
pub fn from_wire(p: WirePoint) -> (r: StoredPoint)
    ensures
        r@ == taken(p@),
{
    StoredPoint {
        id: p.id,
        hlc: Hlc::unpack(p.hlc),
        tombstone: p.tombstone,
        vector: p.vector,
        payload: p.payload,
    }
}

/// A point that is sent and taken is the point that was sent.
pub proof fn sending_keeps_the_point(p: StoredView)
    requires
        p.hlc.wf(),
    ensures
        taken(sent(p)) == p,
{
    pack_roundtrip(p.hlc, 0);
}

/// The versions that shard `s` has of `ids`, in order. Ids that it has not seen are
/// left out.
pub open spec fn versions_of(s: ShardView, ids: Seq<u64>) -> Seq<WireView>
    decreases ids.len(),
{
    if ids.len() == 0 {
        Seq::empty()
    } else {
        let head = versions_of(s, ids.drop_last());
        match stored_in(s, ids.last()) {
            Some(p) => head.push(sent(p)),
            None => head,
        }
    }
}

/// Read points locally for a replica read: the version and tombstone flag per id.
pub fn apply_replica_get<D: Fn(Metric, &[u32], &[u32]) -> u32>(shard: &Shard<D>, ids: &[u64]) -> (r:
    Vec<WirePoint>)
    requires
        shard.wf(),
    ensures
        wire_views(r@) == versions_of(shard@, ids@),
{
    let n: usize = ids.len();
    let mut out: Vec<WirePoint> = Vec::new();
    let mut i: usize = 0;
    assert(wire_views(out@) =~= versions_of(shard@, ids@.take(0)));
    while i < n
        invariant
            shard.wf(),
            n == ids@.len(),
            i <= n,
            wire_views(out@) == versions_of(shard@, ids@.take(i as int)),
        decreases n - i,
    {
        assert(ids@.take(i + 1).drop_last() =~= ids@.take(i as int));
        if let Some(p) = shard.get_versioned(ids[i]) {
            let ghost before = out@;
            let w: WirePoint = to_wire(p);
            out.push(w);
            assert(wire_views(out@) =~= wire_views(before).push(w@));
        }
        i = i + 1;
    }
    assert(ids@.take(n as int) =~= ids@);
    out
}

/// `r` holds the message form of every version that shard `s` has, each once.
pub open spec fn streams(s: ShardView, r: Seq<WireView>) -> bool {
    &&& forall|i: int|
        0 <= i < r.len() ==> (stored_in(s, (#[trigger] r[i]).id) matches Some(p) && r[i] == sent(p))
    &&& forall|id: u64| #[trigger]
        s.versions.contains_key(id) ==> exists|i: int| 0 <= i < r.len() && (#[trigger] r[i]).id == id
    &&& forall|i: int, j: int| 0 <= i < j < r.len() ==> (#[trigger] r[i]).id != (#[trigger] r[j]).id
}

/// Every record, live and tombstone, of a shard that this node holds, so that a
/// pulling target can rebuild it. Empty where this node does not hold the shard: the
/// target then picks another source.
pub fn apply_stream_shard<D: Fn(Metric, &[u32], &[u32]) -> u32>(shard: Option<&Shard<D>>) -> (r: Vec<
    WirePoint,
>)
    requires
        shard matches Some(s) ==> s.wf(),
    ensures
        match shard {
            Some(s) => streams(s@, wire_views(r@)),
            None => r@.len() == 0,
        },
{
    let shard: &Shard<D> = match shard {
        Some(s) => s,
        None => return Vec::new(),
    };
    let records: Vec<StoredPoint> = shard.records();
    let n: usize = records.len();
    let mut out: Vec<WirePoint> = Vec::new();
    let mut i: usize = 0;
    while i < n
        invariant
            n == records@.len(),
            i <= n,
            out@.len() == i,
            forall|j: int| 0 <= j < i ==> (#[trigger] out@[j])@ == sent(records@[j]@),
        decreases n - i,
    {
        out.push(to_wire(records[i].clone()));
        i = i + 1;
    }
    proof {
        let r = wire_views(out@);
        assert forall|j: int| 0 <= j < r.len() implies #[trigger] r[j] == sent(records@[j]@)
            && r[j].id == records@[j].id && stored_in(shard@, r[j].id) == Some(records@[j]@) by {
            assert(r[j] == out@[j]@);
        }
        assert forall|id: u64| #[trigger] shard@.versions.contains_key(id) implies exists|k: int|
            0 <= k < r.len() && (#[trigger] r[k]).id == id by {
            let k = choose|k: int| 0 <= k < records@.len() && (#[trigger] records@[k]).id == id;
            assert(r[k].id == id);
        }
        assert forall|a: int, b: int| 0 <= a < b < r.len() implies (#[trigger] r[a]).id != (
        #[trigger] r[b]).id by {
            assert(records@[a].id != records@[b].id);
        }
    }
    out
}

/// The write that a streamed record stands for.
pub open spec fn pulled(p: WireView) -> RecordView {
    if p.tombstone {
        RecordView::delete(Hlc::of(p.hlc), p.id)
    } else {
        RecordView::upsert(Hlc::of(p.hlc), p.id, p.vector, p.payload)
    }
}

/// Take in a streamed record: the clock moves past its timestamp, and the write that
/// it stands for is to be staged under last-writer-wins.
pub fn pull_record(clock: &mut HlcClock, wall_ms: u64, p: WirePoint) -> (r: WalRecord)
    ensures
        r@ == pulled(p@),
        final(clock).last() == next_stamp(
            if old(clock).last() < p.hlc {
                p.hlc
            } else {
                old(clock).last()
            },
            wall_ms,
        ),
{
    let hlc: Hlc = Hlc::unpack(p.hlc);
    proof {
        pack_roundtrip(hlc, p.hlc);
    }
    let _seen: Hlc = clock.update(hlc, wall_ms);
    if p.tombstone {
        WalRecord::delete(hlc, p.id)
    } else {
        WalRecord::upsert(hlc, p.id, p.vector, p.payload)
    }
}

/// How many of the writes won.
pub open spec fn wins(outcomes: Seq<WriteOutcome>) -> nat
    decreases outcomes.len(),
{
    if outcomes.len() == 0 {
        0
    } else {
        wins(outcomes.drop_last()) + if outcomes.last() == WriteOutcome::Applied {
            1nat
        } else {
            0nat
        }
    }
}

/// The number of records that the target of a transfer accepted.
pub fn pull_shard(outcomes: &Vec<WriteOutcome>) -> (r: usize)
    ensures
        r == wins(outcomes@),
{
    let n: usize = outcomes.len();
    let mut applied: usize = 0;
    let mut i: usize = 0;
    assert(outcomes@.take(0) =~= Seq::empty());
    while i < n
        invariant
            n == outcomes@.len(),
            i <= n,
            applied <= i,
            applied == wins(outcomes@.take(i as int)),
        decreases n - i,
    {
        assert(outcomes@.take(i + 1).drop_last() =~= outcomes@.take(i as int));
        if outcomes[i] == WriteOutcome::Applied {
            applied = applied + 1;
        }
        i = i + 1;
    }
    assert(outcomes@.take(n as int) =~= outcomes@);
    applied
}

/// The live points of a shard are those whose version is no tombstone, and the
/// timestamps can be packed.
pub open spec fn coherent(s: ShardView) -> bool {
    &&& forall|id: u64| #[trigger]
        s.points.contains_key(id) ==> s.versions.contains_key(id) && !s.versions[id].tombstone
    &&& forall|id: u64| #[trigger]
        s.versions.contains_key(id) ==> s.versions[id].hlc.wf() && (s.versions[id].tombstone
            || s.points.contains_key(id))
}

/// A write keeps a shard coherent.
pub proof fn writes_keep_coherence(s: ShardView, r: RecordView)
    requires
        coherent(s),
        r.hlc.wf(),
    ensures
        coherent(written(s, r)),
        coherent(lww(s, r)),
        coherent(empty_shard()),
{
}

/// The writes that streamed records stand for.
pub open spec fn pulled_all(r: Seq<WireView>) -> Seq<RecordView> {
    r.map_values(|p: WireView| pulled(p))
}

/// `id` is among the first `k` records.
pub open spec fn among(r: Seq<WireView>, k: int, id: u64) -> bool {
    exists|i: int| 0 <= i < k && (#[trigger] r[i]).id == id
}

proof fn rebuilt_so_far(s: ShardView, r: Seq<WireView>, k: int)
    requires
        streams(s, r),
        coherent(s),
        0 <= k <= r.len(),
    ensures
        ({
            let t = lww_all(empty_shard(), pulled_all(r).take(k));
            &&& forall|id: u64| #[trigger] t.versions.contains_key(id) <==> among(r, k, id)
            &&& forall|id: u64| #[trigger]
                t.versions.contains_key(id) ==> s.versions.contains_key(id) && t.versions[id]
                    == s.versions[id] && t.points.contains_key(id) == s.points.contains_key(id) && (
                s.points.contains_key(id) ==> t.points[id] == s.points[id])
            &&& forall|id: u64| #[trigger] t.points.contains_key(id) ==> t.versions.contains_key(id)
        }),
    decreases k,
{
    let all = pulled_all(r);
    if k > 0 {
        rebuilt_so_far(s, r, k - 1);
        let before = lww_all(empty_shard(), all.take(k - 1));
        let p = r[k - 1];
        let rec = pulled(p);
        assert(all.take(k).drop_last() =~= all.take(k - 1));
        assert(all.take(k).last() == rec);
        let stored = stored_in(s, p.id).unwrap();
        sending_keeps_the_point(stored);
        assert(rec.id == p.id);
        if before.versions.contains_key(p.id) {
            let i = choose|i: int| 0 <= i < k - 1 && (#[trigger] r[i]).id == p.id;
            assert(r[i].id != r[k - 1].id);
        }
        assert(!stale(before, p.id, rec.hlc));
        let after = written(before, rec);
        assert(lww_all(empty_shard(), all.take(k)) == after);
        assert forall|id: u64| #[trigger] after.versions.contains_key(id) <==> among(r, k, id) by {
            if among(r, k - 1, id) {
                let i = choose|i: int| 0 <= i < k - 1 && (#[trigger] r[i]).id == id;
                assert(r[i].id == id);
            }
            if id == p.id {
                assert(r[k - 1].id == id);
            }
            if among(r, k, id) && id != p.id {
                let i = choose|i: int| 0 <= i < k && (#[trigger] r[i]).id == id;
                assert(i < k - 1);
            }
        }
    } else {
        assert(all.take(0) =~= Seq::empty());
    }
}

/// A transfer into an empty shard rebuilds the source: its points, versions and
/// tombstones, in whatever order the records come.
pub proof fn transfer_rebuilds(s: ShardView, r: Seq<WireView>)
    requires
        streams(s, r),
        coherent(s),
    ensures
        lww_all(empty_shard(), pulled_all(r)) == s,
{
    rebuilt_so_far(s, r, r.len() as int);
    assert(pulled_all(r).take(r.len() as int) =~= pulled_all(r));
    let t = lww_all(empty_shard(), pulled_all(r));
    assert forall|id: u64| #[trigger] s.versions.contains_key(id) implies t.versions.contains_key(id) by {
        let i = choose|i: int| 0 <= i < r.len() && (#[trigger] r[i]).id == id;
        assert(among(r, r.len() as int, id));
    }
    assert(t.versions =~= s.versions);
    assert(t.points =~= s.points);
}

} // verus!
