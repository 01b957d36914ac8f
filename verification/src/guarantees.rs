//! What the data plane guarantees as a whole: reads see quorum writes, repairs and
//! replayed hints bring replicas up to date, and a search needs one healthy replica per
//! shard.

use vstd::prelude::*;

use crate::router::{Consistency, ReplicaWrite};
use crate::wal::WalOp;

verus! {

use crate::hints::HintView;
use crate::hlc::{order_is_total, order_is_transitive, pack_roundtrip};
use crate::meta::MetaView;
use crate::router::{
    newest, op_code, quorum_read_sees_quorum_write, read_view, received, repair_of,
    replayed_hint_is_the_write, winner_is_newest, AnswerView,
};
use crate::shard::{lww, lww_all, transfer_catches_up, versions_advance, ShardView};
use crate::shards::{stored_in, StoredView};
use crate::wal::RecordView;

/// What node `node` holds after the write `r`, if it acknowledged it, and then `later`.
pub open spec fn held_after(
    before: spec_fn(u64) -> ShardView,
    acked: Set<u64>,
    r: RecordView,
    later: spec_fn(u64) -> Seq<RecordView>,
    node: u64,
) -> ShardView {
    let start = if acked.contains(node) {
        lww(before(node), r)
    } else {
        before(node)
    };
    lww_all(start, later(node))
}

/// The answers are what distinct replicas hold for the id of `r`.
pub open spec fn answered_from(
    replicas: Set<u64>,
    held: spec_fn(u64) -> ShardView,
    id: u64,
    answers: Seq<AnswerView>,
) -> bool {
    &&& forall|i: int|
        0 <= i < answers.len() ==> replicas.contains((#[trigger] answers[i]).node_id)
            && answers[i].point == stored_in(held(answers[i].node_id), id)
    &&& forall|i: int, j: int|
        0 <= i < j < answers.len() ==> (#[trigger] answers[i]).node_id != (
        #[trigger] answers[j]).node_id
}

/// A write that a quorum acknowledged is seen by every later read at QUORUM, whatever
/// was written in between and whichever replicas answer: the version that the read
/// returns is no older than the write.
pub proof fn quorum_write_is_read_back(
    replicas: Set<u64>,
    acked: Set<u64>,
    before: spec_fn(u64) -> ShardView,
    r: RecordView,
    later: spec_fn(u64) -> Seq<RecordView>,
    answers: Seq<AnswerView>,
)
    requires
        replicas.finite(),
        replicas.len() > 0,
        acked.subset_of(replicas),
        acked.len() >= Consistency::Quorum.needed(replicas.len()),
        answers.len() >= Consistency::Quorum.needed(replicas.len()),
        answered_from(replicas, |n: u64| held_after(before, acked, r, later, n), r.id, answers),
    ensures
        newest(answers) is Some,
        !newest(answers).unwrap().hlc.older(r.hlc),
{
    let held = |n: u64| held_after(before, acked, r, later, n);
    assert forall|i: int| 0 <= i < answers.len() && acked.contains(
        (#[trigger] answers[i]).node_id,
    ) implies answers[i].point is Some && !answers[i].point.unwrap().hlc.older(r.hlc) by {
        let n = answers[i].node_id;
        let t = lww(before(n), r);
        versions_advance(before(n), r, if r.id == 0 { 1 } else { 0 });
        transfer_catches_up(t, later(n), r.id);
        assert(answers[i].point == stored_in(held(n), r.id));
        let h = held(n).versions[r.id].hlc;
        if h.older(r.hlc) {
            order_is_total(t.versions[r.id].hlc, r.hlc);
            if t.versions[r.id].hlc != r.hlc {
                order_is_transitive(h, r.hlc, t.versions[r.id].hlc);
            }
        }
    }
    quorum_read_sees_quorum_write(replicas, acked, answers, r.hlc);
}

/// What a replica stores of the write `r`.
pub open spec fn stored_write(r: RecordView) -> StoredView {
    StoredView {
        id: r.id,
        hlc: r.hlc,
        tombstone: r.op == WalOp::Delete,
        vector: match r.op {
            WalOp::Upsert => r.vector,
            WalOp::Delete => Seq::empty(),
        },
        payload: Seq::empty(),
    }
}

/// What `s` has for the id of `r` is older than `r` or is `r`.
pub open spec fn up_to(s: ShardView, r: RecordView) -> bool {
    match stored_in(s, r.id) {
        Some(p) => p.hlc.older(r.hlc) || p == stored_write(r),
        None => true,
    }
}

/// No write of `rs` supersedes `r`: one to the same id is older, or is `r` itself.
pub open spec fn superseded_by_none(rs: Seq<RecordView>, r: RecordView) -> bool {
    forall|i: int|
        0 <= i < rs.len() ==> (#[trigger] rs[i]).id != r.id || rs[i] == r || rs[i].hlc.older(r.hlc)
}

proof fn stays_up_to(s: ShardView, r: RecordView, q: RecordView)
    requires
        up_to(s, r),
        q.id != r.id || q == r || q.hlc.older(r.hlc),
    ensures
        up_to(lww(s, q), r),
{
    order_is_total(q.hlc, r.hlc);
    order_is_total(r.hlc, r.hlc);
    if s.versions.contains_key(r.id) {
        order_is_total(s.versions[r.id].hlc, r.hlc);
        order_is_total(s.versions[r.id].hlc, q.hlc);
    }
    if q.id != r.id {
        assert(stored_in(lww(s, q), r.id) == stored_in(s, r.id));
    } else if q == r {
        if lww(s, q) != s {
            assert(stored_in(lww(s, q), r.id).unwrap() =~= stored_write(r));
        }
    } else {
        assert(stored_in(lww(s, q), r.id) is Some ==> stored_in(s, r.id) == stored_in(lww(s, q), r.id)
            || stored_in(lww(s, q), r.id).unwrap().hlc == q.hlc);
    }
}

proof fn stays_up_to_all(s: ShardView, r: RecordView, qs: Seq<RecordView>)
    requires
        up_to(s, r),
        superseded_by_none(qs, r),
    ensures
        up_to(lww_all(s, qs), r),
    decreases qs.len(),
{
    if qs.len() > 0 {
        let d = qs.drop_last();
        assert forall|i: int| 0 <= i < d.len() implies (#[trigger] d[i]).id != r.id || d[i] == r
            || d[i].hlc.older(r.hlc) by {
            assert(d[i] == qs[i]);
        }
        stays_up_to_all(s, r, d);
        assert(qs[qs.len() - 1] == qs.last());
        stays_up_to(lww_all(s, d), r, qs.last());
    }
}

/// A read at QUORUM returns the latest write that a quorum acknowledged: the value or
/// the tombstone that was written, where no newer write to the id went to any replica.
pub proof fn latest_quorum_write_is_returned(
    replicas: Set<u64>,
    acked: Set<u64>,
    before: spec_fn(u64) -> ShardView,
    r: RecordView,
    later: spec_fn(u64) -> Seq<RecordView>,
    answers: Seq<AnswerView>,
)
    requires
        replicas.finite(),
        replicas.len() > 0,
        acked.subset_of(replicas),
        acked.len() >= Consistency::Quorum.needed(replicas.len()),
        answers.len() >= Consistency::Quorum.needed(replicas.len()),
        answered_from(replicas, |n: u64| held_after(before, acked, r, later, n), r.id, answers),
        forall|n: u64| replicas.contains(n) ==> #[trigger] up_to(before(n), r),
        forall|n: u64| replicas.contains(n) ==> superseded_by_none(#[trigger] later(n), r),
    ensures
        newest(answers) == Some(stored_write(r)),
{
    let held = |n: u64| held_after(before, acked, r, later, n);
    quorum_write_is_read_back(replicas, acked, before, r, later, answers);
    winner_is_newest(answers);
    let w = newest(answers).unwrap();
    let i = choose|i: int| 0 <= i < answers.len() && (#[trigger] answers[i]).point == Some(w);
    let n = answers[i].node_id;
    assert(answers[i].point == stored_in(held(n), r.id));
    assert(up_to(before(n), r));
    stays_up_to(before(n), r, r);
    let start = if acked.contains(n) {
        lww(before(n), r)
    } else {
        before(n)
    };
    assert(superseded_by_none(later(n), r));
    stays_up_to_all(start, r, later(n));
    assert(up_to(held(n), r));
}

/// Read repair brings a replica that is behind to the winner: once the write that
/// carries the winner is received and applied, the replica holds the winner.
pub proof fn repair_restores_the_winner(s: ShardView, winner: StoredView, w: ReplicaWrite)
    requires
        winner.hlc.wf(),
        winner.payload.len() == 0,
        winner.tombstone ==> winner.vector.len() == 0,
        s.versions.contains_key(winner.id) ==> s.versions[winner.id].hlc.older(winner.hlc),
        w.op == op_code(winner.tombstone),
        w.id == winner.id,
        w.hlc == winner.hlc.value(),
        w.vector@ == winner.vector,
        w.payload@ == winner.payload,
    ensures
        stored_in(lww(s, received(w)), winner.id) == Some(winner),
{
    pack_roundtrip(winner.hlc, 0);
    assert(stored_in(lww(s, received(w)), winner.id).unwrap() =~= winner);
}

/// Local read repair brings this node's own replica, where it is behind, to the winner.
pub proof fn local_repair_restores_the_winner(s: ShardView, winner: StoredView)
    requires
        winner.payload.len() == 0,
        winner.tombstone ==> winner.vector.len() == 0,
        s.versions.contains_key(winner.id) ==> s.versions[winner.id].hlc.older(winner.hlc),
    ensures
        stored_in(lww(s, repair_of(winner)), winner.id) == Some(winner),
{
    assert(stored_in(lww(s, repair_of(winner)), winner.id).unwrap() =~= winner);
}

/// A hint that is replayed to its target brings it at least as far as the write that
/// the target missed.
pub proof fn replayed_hint_reaches_the_target(s: ShardView, h: HintView, w: ReplicaWrite)
    requires
        h.wf(),
        h.record.op == WalOp::Delete ==> h.record.vector.len() == 0 && h.record.payload.len() == 0,
        w.op == op_code(h.record.op == WalOp::Delete),
        w.id == h.record.id,
        w.hlc == h.record.hlc.value(),
        w.vector@ == h.record.vector,
        w.payload@ == h.record.payload,
    ensures
        lww(s, received(w)).versions.contains_key(h.record.id),
        !lww(s, received(w)).versions[h.record.id].hlc.older(h.record.hlc),
{
    replayed_hint_is_the_write(h, w);
    versions_advance(s, h.record, if h.record.id == 0 { 1 } else { 0 });
}

/// How a search ends.
pub enum SearchEnd {
    /// Every shard answered, with these hits together.
    Hits(Seq<(u64, u32)>),
    /// No replica of this shard could be asked.
    NoReplica(int),
}

/// The first answer among `replicas` from place `from` on, where `reply` says what a
/// node answers if it can be reached.
pub open spec fn first_answer(
    replicas: Seq<(u64, Seq<char>)>,
    reply: spec_fn(u64) -> Option<Seq<(u64, u32)>>,
    from: int,
) -> Option<Seq<(u64, u32)>>
    decreases replicas.len() - from,
{
    if from < 0 || from >= replicas.len() {
        None
    } else if reply(replicas[from].0) is Some {
        reply(replicas[from].0)
    } else {
        first_answer(replicas, reply, from + 1)
    }
}

/// What node `n` answers for a shard.
pub open spec fn reply_of(
    replies: spec_fn(int, u64) -> Option<Seq<(u64, u32)>>,
    shard: int,
) -> spec_fn(u64) -> Option<Seq<(u64, u32)>> {
    |n: u64| replies(shard, n)
}

/// How a search ends that has `hits` so far and asks the replicas of `shard` from place
/// `next` on.
pub open spec fn search_from(
    s: MetaView,
    collection: Seq<char>,
    shard_count: int,
    replies: spec_fn(int, u64) -> Option<Seq<(u64, u32)>>,
    shard: int,
    next: int,
    hits: Seq<(u64, u32)>,
) -> SearchEnd
    decreases shard_count - shard,
{
    if shard < 0 || shard >= shard_count {
        SearchEnd::Hits(hits)
    } else {
        match first_answer(
            read_view(s, collection, shard as u32),
            reply_of(replies, shard),
            next,
        ) {
            None => SearchEnd::NoReplica(shard),
            Some(h) => search_from(s, collection, shard_count, replies, shard + 1, 0, hits + h),
        }
    }
}

/// A search whose next replica cannot be reached goes on as it would from the one after
/// it, and fails where there is none.
pub proof fn search_falls_forward(
    s: MetaView,
    collection: Seq<char>,
    shard_count: int,
    replies: spec_fn(int, u64) -> Option<Seq<(u64, u32)>>,
    shard: int,
    next: int,
    hits: Seq<(u64, u32)>,
)
    requires
        0 <= shard < shard_count,
        0 <= next < read_view(s, collection, shard as u32).len(),
        replies(shard, read_view(s, collection, shard as u32)[next].0) is None,
    ensures
        search_from(s, collection, shard_count, replies, shard, next, hits) == if next + 1
            < read_view(s, collection, shard as u32).len() {
            search_from(s, collection, shard_count, replies, shard, next + 1, hits)
        } else {
            SearchEnd::NoReplica(shard)
        },
{
    let view = read_view(s, collection, shard as u32);
    assert(first_answer(view, reply_of(replies, shard), next) == first_answer(
        view,
        reply_of(replies, shard),
        next + 1,
    ));
}

/// A search whose next replica answers keeps its hits and goes on with the next shard.
pub proof fn search_goes_on(
    s: MetaView,
    collection: Seq<char>,
    shard_count: int,
    replies: spec_fn(int, u64) -> Option<Seq<(u64, u32)>>,
    shard: int,
    next: int,
    hits: Seq<(u64, u32)>,
)
    requires
        0 <= shard < shard_count,
        0 <= next < read_view(s, collection, shard as u32).len(),
        replies(shard, read_view(s, collection, shard as u32)[next].0) is Some,
    ensures
        search_from(s, collection, shard_count, replies, shard, next, hits) == search_from(
            s,
            collection,
            shard_count,
            replies,
            shard + 1,
            0,
            hits + replies(shard, read_view(s, collection, shard as u32)[next].0).unwrap(),
        ),
{
}

proof fn some_answer(
    replicas: Seq<(u64, Seq<char>)>,
    reply: spec_fn(u64) -> Option<Seq<(u64, u32)>>,
    from: int,
    healthy: int,
)
    requires
        0 <= from <= healthy < replicas.len(),
        reply(replicas[healthy].0) is Some,
    ensures
        first_answer(replicas, reply, from) is Some,
    decreases healthy - from,
{
    if from < healthy {
        some_answer(replicas, reply, from + 1, healthy);
    }
}

/// Some replica of the shard that reads go to answers.
pub open spec fn has_healthy_replica(
    s: MetaView,
    collection: Seq<char>,
    replies: spec_fn(int, u64) -> Option<Seq<(u64, u32)>>,
    shard: int,
) -> bool {
    exists|i: int|
        0 <= i < read_view(s, collection, shard as u32).len() && replies(
            shard,
            (#[trigger] read_view(s, collection, shard as u32)[i]).0,
        ) is Some
}

/// A search succeeds where every shard has one healthy replica, whichever others are
/// down; and where a shard has none it fails.
pub proof fn search_needs_one_healthy_replica(
    s: MetaView,
    collection: Seq<char>,
    shard_count: int,
    replies: spec_fn(int, u64) -> Option<Seq<(u64, u32)>>,
    shard: int,
    hits: Seq<(u64, u32)>,
)
    requires
        0 <= shard <= shard_count,
    ensures
        search_from(s, collection, shard_count, replies, shard, 0, hits) is Hits <==> forall|k: int|
            shard <= k < shard_count ==> #[trigger] has_healthy_replica(s, collection, replies, k),
    decreases shard_count - shard,
{
    if shard < shard_count {
        let view = read_view(s, collection, shard as u32);
        let reply = reply_of(replies, shard);
        if has_healthy_replica(s, collection, replies, shard) {
            let i = choose|i: int|
                0 <= i < view.len() && replies(shard, (#[trigger] view[i]).0) is Some;
            some_answer(view, reply, 0, i);
            let h = first_answer(view, reply, 0).unwrap();
            search_needs_one_healthy_replica(
                s,
                collection,
                shard_count,
                replies,
                shard + 1,
                hits + h,
            );
        } else {
            no_answer(view, reply, 0);
        }
    }
}

proof fn no_answer(
    replicas: Seq<(u64, Seq<char>)>,
    reply: spec_fn(u64) -> Option<Seq<(u64, u32)>>,
    from: int,
)
    requires
        from >= 0,
        forall|i: int| 0 <= i < replicas.len() ==> reply((#[trigger] replicas[i]).0) is None,
    ensures
        first_answer(replicas, reply, from) is None,
    decreases replicas.len() - from,
{
    if from < replicas.len() {
        no_answer(replicas, reply, from + 1);
    }
}

} // verus!
