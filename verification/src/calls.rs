//! What the calls of the library promise of their results, each said of the arguments
//! that go in and the values that come out.

use vstd::prelude::*;

use crate::distance::Metric;
use crate::hints::Hint;
use crate::hlc::{Hlc, HlcClock};
use crate::hnsw::HnswIndex;
use crate::index::{IndexError, VectorIndex};
use crate::meta::{CollectionSchema, MetaRequest, MetaResponse, MetaState, ShardState};
use crate::rebalance::{
    acquire_sources, desired_all_active, reconcile_once, Acquire, DirectWrite, SetState, ShardAction,
};
use crate::router::{
    active_replicas_with_addrs, coordinate_delete, coordinate_get, coordinate_upsert, endpoint_of, hint_write, hints_for, live_value, local_repair, merge_answers,
    merge_hits, plan_delete, plan_get, plan_read_repair, plan_replicas, plan_upsert, receive_write, repair_write, replay_hints,
    replay_targets, replicas_with_addrs, replicate_write, schema_of, start_search, Answer, Consistency, GetRun, PointWrite,
    ReadPlan, Repair, ReplicaWrite, RouterError, SearchRun, SearchStep, WritePlan,
};
use crate::shards::StoredPoint;
use crate::wal::{WalOp, WalRecord};

verus! {

use crate::distance::signed;
use crate::graph::reachable;
use crate::hints::{hint_views, HintView};
use crate::hits::first_hits_are_the_best;
use crate::hnsw::search_returns_k;
use crate::meta::state_of;
use crate::placement::id_hash;
use crate::promises::{
    create_never_overwrites, delete_plan_covers_the_shard, each_ack_counts_once, endpoint_names_a_scheme, hints_of_one_target, meets,
    only_stale_replicas_are_repaired, only_unacked_replicas_are_hinted, only_unpushed_hints_are_kept, placed_at,
    placed_node_acquires_until_done, read_goes_to_active_placed_nodes, shard_is_pulled_from_active_peers,
    shard_states_do_not_move_writes,
    stale_replica_is_repaired, stamped_before, stands_active, unplaced_node_drops_when_safe,
    upsert_plan_covers_the_shard, write_goes_to_every_placed_node,
};
use crate::router::{addressed, answer_views, hints_due, live, newest, received, repair_of, value_views};
use crate::text::texts;

/// A search of an index without tombstones whose layer 0 is connected returns as many
/// points as were asked for, or all that there are, whatever the breadth.
pub proof fn search_call_returns_k<D: Fn(Metric, &[u32], &[u32]) -> u32>(
    index: &HnswIndex<D>,
    query: &[u32],
    k: usize,
    ef_search: usize,
    r: Result<Vec<(u64, u32)>, IndexError>,
)
    requires
        index.inv(),
        call_ensures(<HnswIndex<D> as VectorIndex>::search, (index, query, k, ef_search), r),
        query@.len() == index.dimension(),
        forall|i: int| 0 <= i < index.deleted@.len() ==> !#[trigger] index.deleted@[i],
        forall|a: u32, b: u32|
            a < index.nodes@.len() && b < index.nodes@.len() ==> #[trigger] reachable(index.graph(), 0, a, b),
    ensures
        r matches Ok(found) && found@.len() == if k <= index.points().len() {
            k as nat
        } else {
            index.points().len()
        },
{
    let found = r->Ok_0;
    search_returns_k(*index, query@, k as nat, ef_search as nat, found@);
}

/// What `plan_upsert` plans goes to every node that the point's shard is placed on, be
/// the replica Active, Syncing or Dead, and to nobody else.
pub proof fn upsert_call_reaches_every_replica(
    meta: &MetaState,
    clock: &mut HlcClock,
    wall_ms: u64,
    collection: &str,
    id: u64,
    vector: Vec<u32>,
    payload: Vec<u8>,
    consistency: Consistency,
    w: PointWrite,
    plan: WritePlan,
    ids: Seq<u64>,
)
    requires
        call_ensures(
            plan_upsert,
            (meta, clock, wall_ms, collection, id, vector, payload, consistency),
            Ok::<(PointWrite, WritePlan), RouterError>((w, plan)),
        ),
        meta@.collections[collection@].shard_count > 0,
        placed_at(meta@, collection@, w.shard_idx, ids),
    ensures
        plan.replicas@.len() == ids.len(),
        forall|i: int|
            0 <= i < ids.len() ==> (#[trigger] plan.replicas@[i]).0 == ids[i] && plan.replicas@[i].1@
                == meta@.nodes[ids[i]],
        consistency == Consistency::One ==> plan.needed == 1,
        consistency == Consistency::Quorum ==> 2 * plan.needed > ids.len() && 2 * (plan.needed - 1) <= ids.len(),
        consistency == Consistency::All ==> plan.needed == ids.len(),
        w.record@.id == id,
        w.record@.vector == vector@,
        w.record@.payload == payload@,
{
    upsert_plan_covers_the_shard(
        meta@,
        (old(clock).last(), final(clock).last()),
        wall_ms,
        collection@,
        (id, vector@, payload@),
        consistency,
        w,
        plan,
        ids,
    );
}

/// What `plan_delete` plans goes to every node that the point's shard is placed on, be
/// the replica Active, Syncing or Dead, and to nobody else.
pub proof fn delete_call_reaches_every_replica(
    meta: &MetaState,
    clock: &mut HlcClock,
    wall_ms: u64,
    collection: &str,
    id: u64,
    consistency: Consistency,
    w: PointWrite,
    plan: WritePlan,
    ids: Seq<u64>,
)
    requires
        call_ensures(
            plan_delete,
            (meta, clock, wall_ms, collection, id, consistency),
            Ok::<(PointWrite, WritePlan), RouterError>((w, plan)),
        ),
        meta@.collections[collection@].shard_count > 0,
        placed_at(meta@, collection@, w.shard_idx, ids),
    ensures
        plan.replicas@.len() == ids.len(),
        forall|i: int|
            0 <= i < ids.len() ==> (#[trigger] plan.replicas@[i]).0 == ids[i] && plan.replicas@[i].1@
                == meta@.nodes[ids[i]],
        consistency == Consistency::One ==> plan.needed == 1,
        consistency == Consistency::Quorum ==> 2 * plan.needed > ids.len() && 2 * (plan.needed - 1) <= ids.len(),
        consistency == Consistency::All ==> plan.needed == ids.len(),
        w.record@.id == id,
        w.record@.vector.len() == 0,
{
    delete_plan_covers_the_shard(
        meta@,
        (old(clock).last(), final(clock).last()),
        wall_ms,
        collection@,
        id,
        consistency,
        w,
        plan,
        ids,
    );
}

/// The write view of a shard is the same in two states of the metadata that differ in
/// shard states alone, and lists every node that the shard is placed on.
pub proof fn write_view_call_ignores_states(
    a: &MetaState,
    b: &MetaState,
    collection: &str,
    shard_idx: u32,
    ra: Vec<(u64, String)>,
    rb: Vec<(u64, String)>,
    ids: Seq<u64>,
)
    requires
        call_ensures(replicas_with_addrs, (a, collection, shard_idx), ra),
        call_ensures(replicas_with_addrs, (b, collection, shard_idx), rb),
        a@.nodes == b@.nodes,
        a@.collections == b@.collections,
        placed_at(a@, collection@, shard_idx, ids),
    ensures
        ra@.len() == ids.len(),
        rb@.len() == ids.len(),
        forall|i: int|
            0 <= i < ids.len() ==> (#[trigger] ra@[i]).0 == ids[i] && ra@[i].1@ == a@.nodes[ids[i]],
        forall|i: int|
            0 <= i < ids.len() ==> (#[trigger] rb@[i]).0 == ids[i] && rb@[i].1@ == a@.nodes[ids[i]],
{
    write_goes_to_every_placed_node(a@, collection@, shard_idx, ids);
    write_goes_to_every_placed_node(b@, collection@, shard_idx, ids);
    assert(addressed(ra@).len() == ra@.len());
    assert(addressed(rb@).len() == rb@.len());
    assert forall|i: int| 0 <= i < ids.len() implies (#[trigger] ra@[i]).0 == ids[i] && ra@[i].1@
        == a@.nodes[ids[i]] by {
        assert(addressed(ra@)[i] == (ids[i], a@.nodes[ids[i]]));
    }
    assert forall|i: int| 0 <= i < ids.len() implies (#[trigger] rb@[i]).0 == ids[i] && rb@[i].1@
        == a@.nodes[ids[i]] by {
        assert(addressed(rb@)[i] == (ids[i], a@.nodes[ids[i]]));
    }
}

/// The answer is missing or was stamped before the winner.
pub open spec fn lags(a: Answer, winner: StoredPoint) -> bool {
    a.point is None || stamped_before(a.point.unwrap().hlc, winner.hlc)
}

/// `plan_read_repair` sends the winner, be it a value or a tombstone, to every replica
/// whose answer is missing or older and to no other: to this node locally, to the others
/// remotely, as a delete where the winner is a tombstone and as an upsert otherwise.
pub proof fn repair_call_reaches_the_stale(me: u64, answers: &Vec<Answer>, winner: &StoredPoint, r: Repair)
    requires
        call_ensures(plan_read_repair, (me, answers, winner), r),
    ensures
        r.op == (if winner.tombstone { 1u32 } else { 0u32 }),
        forall|i: int|
            0 <= i < answers@.len() && lags(#[trigger] answers@[i], *winner) ==> {
                let target = (answers@[i].node_id, answers@[i].addr@);
                if answers@[i].node_id == me {
                    addressed(r.local@).contains(target)
                } else {
                    addressed(r.remote@).contains(target)
                }
            },
        forall|target: (u64, Seq<char>)| #[trigger]
            addressed(r.local@).contains(target) ==> target.0 == me && exists|i: int|
                0 <= i < answers@.len() && lags(#[trigger] answers@[i], *winner) && answers@[i].node_id == target.0
                    && answers@[i].addr@ == target.1,
        forall|target: (u64, Seq<char>)| #[trigger]
            addressed(r.remote@).contains(target) ==> target.0 != me && exists|i: int|
                0 <= i < answers@.len() && lags(#[trigger] answers@[i], *winner) && answers@[i].node_id == target.0
                    && answers@[i].addr@ == target.1,
{
    let views = answer_views(answers@);
    assert(forall|i: int| 0 <= i < answers@.len() ==> views[i] == (#[trigger] answers@[i])@);
    assert forall|i: int| 0 <= i < answers@.len() && lags(#[trigger] answers@[i], *winner) implies {
        let target = (answers@[i].node_id, answers@[i].addr@);
        if answers@[i].node_id == me {
            addressed(r.local@).contains(target)
        } else {
            addressed(r.remote@).contains(target)
        }
    } by {
        stale_replica_is_repaired(views, winner@, me, i);
    }
    assert forall|target: (u64, Seq<char>)| #[trigger] addressed(r.local@).contains(target) implies target.0 == me
        && exists|i: int|
        0 <= i < answers@.len() && lags(#[trigger] answers@[i], *winner) && answers@[i].node_id == target.0
            && answers@[i].addr@ == target.1 by {
        let i = only_stale_replicas_are_repaired(views, winner@, me, true, target);
        assert(lags(answers@[i], *winner));
    }
    assert forall|target: (u64, Seq<char>)| #[trigger] addressed(r.remote@).contains(target) implies target.0 != me
        && exists|i: int|
        0 <= i < answers@.len() && lags(#[trigger] answers@[i], *winner) && answers@[i].node_id == target.0
            && answers@[i].addr@ == target.1 by {
        let i = only_stale_replicas_are_repaired(views, winner@, me, false, target);
        assert(lags(answers@[i], *winner));
    }
}

/// What a pass decides: a node that the shard is placed on acquires it until it is Active
/// there and holds points, and then keeps it; any other node drops its copy once every
/// node that the shard is placed on is Active.
pub proof fn reconcile_call_decides(
    meta: &MetaState,
    me: u64,
    collection: &str,
    shard_idx: u32,
    hold: bool,
    nonempty: bool,
    r: ShardAction,
    ids: Seq<u64>,
)
    requires
        call_ensures(reconcile_once, (meta, me, collection, shard_idx, hold, nonempty), r),
        placed_at(meta@, collection@, shard_idx, ids),
    ensures
        ids.contains(me) && (!stands_active(meta@, collection@, shard_idx, me) || !hold || !nonempty) ==> r
            == ShardAction::Acquire,
        ids.contains(me) && stands_active(meta@, collection@, shard_idx, me) && hold && nonempty ==> r
            == ShardAction::Keep,
        !ids.contains(me) && hold && ids.len() > 0 && (forall|i: int|
            0 <= i < ids.len() ==> stands_active(meta@, collection@, shard_idx, #[trigger] ids[i])) ==> r
            == ShardAction::Drop,
        !ids.contains(me) && (!hold || ids.len() == 0 || exists|i: int|
            0 <= i < ids.len() && !stands_active(meta@, collection@, shard_idx, #[trigger] ids[i])) ==> r
            == ShardAction::Keep,
{
    if ids.contains(me) {
        placed_node_acquires_until_done(meta@, me, collection@, shard_idx, hold, nonempty, ids);
    } else {
        unplaced_node_drops_when_safe(meta@, me, collection@, shard_idx, hold, nonempty, ids);
    }
}

/// Applying the creation of a collection that exists, with whatever schema, leaves the
/// metadata as it was and says so.
pub proof fn create_call_never_overwrites(meta: &mut MetaState, name: String, schema: CollectionSchema, r: MetaResponse)
    requires
        call_ensures(MetaState::apply, (meta, &MetaRequest::CreateCollection { name, schema }), r),
        old(meta)@.collections.contains_key(name@),
    ensures
        final(meta)@ == old(meta)@,
        r.note@ == "exists"@,
{
    create_never_overwrites(old(meta)@, name, schema);
}

/// A stamp is newer than the clock's last one and no older than the wall clock, and the
/// clock remembers it.
pub proof fn stamp_call_advances(clock: &mut HlcClock, wall_ms: u64, r: Hlc)
    requires
        call_ensures(HlcClock::now, (clock, wall_ms), r),
    ensures
        r.wall_ms * 65536 + r.counter == final(clock).last(),
        old(clock).last() < u64::MAX ==> final(clock).last() > old(clock).last(),
        final(clock).last() >= old(clock).last(),
        r.wall_ms >= wall_ms % 0x1_0000_0000_0000,
        wall_ms % 0x1_0000_0000_0000 > old(clock).last() / 65536 ==> r.wall_ms == wall_ms % 0x1_0000_0000_0000
            && r.counter == 0,
{
    crate::hlc::stamps_advance(old(clock).last(), wall_ms);
}

/// A clock that took note of a stamp made elsewhere is ahead of it and of its own last
/// one.
pub proof fn seen_stamp_is_passed(clock: &mut HlcClock, remote: Hlc, wall_ms: u64, r: Hlc)
    requires
        call_ensures(HlcClock::update, (clock, remote, wall_ms), r),
        remote.wall_ms < 0x1_0000_0000_0000,
    ensures
        r.wall_ms * 65536 + r.counter == final(clock).last(),
        final(clock).last() >= remote.wall_ms * 65536 + remote.counter,
        final(clock).last() >= old(clock).last(),
        remote.wall_ms * 65536 + remote.counter < u64::MAX && old(clock).last() < u64::MAX ==> stamped_before(remote, r)
            && final(clock).last() > old(clock).last(),
        r.wall_ms >= wall_ms % 0x1_0000_0000_0000,
{
}

/// Packing keeps both parts, the wall clock above the counter; unpacking gives them back.
pub proof fn packing_call_is_undone(h: Hlc, v: u64, back: Hlc)
    requires
        h.wall_ms < 0x1_0000_0000_0000,
        call_ensures(Hlc::pack, (h,), v),
        call_ensures(Hlc::unpack, (v,), back),
    ensures
        v == h.wall_ms * 65536 + h.counter,
        back == h,
{
}

/// One stamp precedes another by wall clock, and by counter at the same wall clock.
pub proof fn precedence_call_is_by_wall_clock(a: &Hlc, b: &Hlc, r: bool)
    requires
        call_ensures(Hlc::precedes, (a, b), r),
    ensures
        r <==> a.wall_ms < b.wall_ms || (a.wall_ms == b.wall_ms && a.counter < b.counter),
{
}

/// The count that a level asks of `n` replicas is one, the fewest that are more than
/// half, or all.
pub proof fn count_call_follows_the_level(c: Consistency, n: usize, r: usize)
    requires
        call_ensures(Consistency::count, (c, n), r),
    ensures
        c == Consistency::One ==> r == 1,
        c == Consistency::Quorum && n > 0 ==> 2 * r > n && 2 * (r - 1) <= n,
        c == Consistency::All && n > 0 ==> r == n,
        n == 0 ==> r == 1,
{
}

/// A read goes to exactly the nodes that the shard is placed on and that are Active.
pub proof fn read_view_call_is_exact(
    meta: &MetaState,
    collection: &str,
    shard_idx: u32,
    r: Vec<(u64, String)>,
    ids: Seq<u64>,
    node: u64,
    addr: Seq<char>,
)
    requires
        call_ensures(active_replicas_with_addrs, (meta, collection, shard_idx), r),
        placed_at(meta@, collection@, shard_idx, ids),
    ensures
        addressed(r@).contains((node, addr)) <==> ids.contains(node) && stands_active(
            meta@,
            collection@,
            shard_idx,
            node,
        ) && addr == meta@.nodes[node],
{
    read_goes_to_active_placed_nodes(meta@, collection@, shard_idx, ids);
}

/// A read is planned for the shard of the point, goes to exactly the Active ones of the
/// nodes that it is placed on, and waits for one, for more than half or for all of them;
/// it is refused where none is Active.
pub proof fn get_call_asks_the_active(
    meta: &MetaState,
    collection: &str,
    schema: &CollectionSchema,
    id: u64,
    consistency: Consistency,
    r: Result<ReadPlan, RouterError>,
    ids: Seq<u64>,
)
    requires
        call_ensures(plan_get, (meta, collection, schema, id, consistency), r),
        schema.shard_count > 0,
        placed_at(meta@, collection@, (id_hash(id) % schema.shard_count as u64) as u32, ids),
    ensures
        ({
            let shard = (id_hash(id) % schema.shard_count as u64) as u32;
            let n = ids.filter(|node: u64| stands_active(meta@, collection@, shard, node)).len();
            &&& r is Ok <==> n > 0
            &&& r matches Ok(plan) ==> {
                &&& plan.shard_idx == shard
                &&& plan.replicas@.len() == n
                &&& meets(consistency, n, plan.needed as nat)
                &&& forall|node: u64, addr: Seq<char>| #[trigger]
                    addressed(plan.replicas@).contains((node, addr)) <==> ids.contains(node) && stands_active(
                        meta@,
                        collection@,
                        shard,
                        node,
                    ) && addr == meta@.nodes[node]
            }
            &&& r matches Err(e) ==> (e matches RouterError::NoReplica { collection: c, shard_idx } && c@
                == collection@ && shard_idx == shard)
        }),
{
    let shard = (id_hash(id) % schema.shard_count as u64) as u32;
    read_goes_to_active_placed_nodes(meta@, collection@, shard, ids);
    if r is Ok {
        assert(addressed(r->Ok_0.replicas@).len() == r->Ok_0.replicas@.len());
    }
}

/// A batch of reads plans the next id like a read of its own, is over after the last, and
/// is refused where the collection does not exist.
pub proof fn batch_call_reads_the_next(
    meta: &MetaState,
    collection: &str,
    ids: &Vec<u64>,
    run: &GetRun,
    consistency: Consistency,
    r: Result<Option<ReadPlan>, RouterError>,
    placed: Seq<u64>,
)
    requires
        call_ensures(coordinate_get, (meta, collection, ids, run, consistency), r),
        run.done <= ids@.len(),
        run.done < ids@.len() && meta@.collections.contains_key(collection@) ==> placed_at(
            meta@,
            collection@,
            (id_hash(ids@[run.done as int]) % meta@.collections[collection@].shard_count as u64) as u32,
            placed,
        ),
    ensures
        !meta@.collections.contains_key(collection@) ==> (r matches Err(RouterError::NotFound(n)) && n@
            == collection@),
        meta@.collections.contains_key(collection@) && run.done == ids@.len() ==> (r matches Ok(None)),
        meta@.collections.contains_key(collection@) && run.done < ids@.len() ==> {
            let shard = (id_hash(ids@[run.done as int]) % meta@.collections[collection@].shard_count as u64) as u32;
            let n = placed.filter(|node: u64| stands_active(meta@, collection@, shard, node)).len();
            &&& !(r matches Ok(None))
            &&& r is Ok <==> n > 0
            &&& r matches Ok(Some(plan)) ==> plan.shard_idx == shard && plan.replicas@.len() == n && meets(
                consistency,
                n,
                plan.needed as nat,
            )
        },
{
    if meta@.collections.contains_key(collection@) && run.done < ids@.len() {
        let shard = (id_hash(ids@[run.done as int]) % meta@.collections[collection@].shard_count as u64) as u32;
        read_goes_to_active_placed_nodes(meta@, collection@, shard, placed);
        if r is Ok && r->Ok_0 is Some {
            let plan = r->Ok_0->Some_0;
            assert(addressed(plan.replicas@).len() == plan.replicas@.len());
        }
    }
}

/// The merged answer is the newest version that any replica gave, and there is none only
/// where no replica has one.
pub proof fn merge_call_returns_the_newest(answers: &Vec<Answer>, r: Option<StoredPoint>)
    requires
        call_ensures(merge_answers, (answers,), r),
    ensures
        r is None <==> forall|i: int| 0 <= i < answers@.len() ==> (#[trigger] answers@[i]).point is None,
        r matches Some(p) ==> forall|i: int|
            0 <= i < answers@.len() && (#[trigger] answers@[i]).point is Some ==> !stamped_before(
                p.hlc,
                answers@[i].point.unwrap().hlc,
            ),
        r matches Some(p) ==> exists|i: int|
            0 <= i < answers@.len() && (#[trigger] answers@[i]).point is Some && answers@[i].point.unwrap()@ == p@,
{
    let views = answer_views(answers@);
    assert(forall|i: int| 0 <= i < answers@.len() ==> views[i] == (#[trigger] answers@[i])@);
    crate::router::winner_is_newest(views);
    if r is Some {
        let p = r.unwrap();
        let i = choose|i: int| 0 <= i < views.len() && (#[trigger] views[i]).point == Some(p@);
        assert(answers@[i].point.unwrap()@ == p@);
        assert forall|i: int| 0 <= i < answers@.len() && (#[trigger] answers@[i]).point is Some implies !stamped_before(
            p.hlc,
            answers@[i].point.unwrap().hlc,
        ) by {
            assert(views[i].point is Some);
        }
    } else {
        assert forall|i: int| 0 <= i < answers@.len() implies (#[trigger] answers@[i]).point is None by {
            assert(views[i].point is None);
        }
    }
}

/// A read returns the winner's vector, and nothing for a tombstone.
pub proof fn value_call_hides_tombstones(winner: StoredPoint, r: Option<(u64, Vec<u32>)>)
    requires
        call_ensures(live_value, (winner,), r),
    ensures
        r is None <==> winner.tombstone,
        r matches Some(v) ==> v.0 == winner.id && v.1@ == winner.vector@,
{
}

/// A read of a point that enough replicas answered moves its batch on by one and adds the
/// winner's value unless it is a tombstone; one that too few answered changes nothing.
pub proof fn answered_call_adds_the_winner(
    run: &mut GetRun,
    collection: &str,
    plan: &ReadPlan,
    answers: &Vec<Answer>,
    r: Result<Option<StoredPoint>, RouterError>,
)
    requires
        call_ensures(GetRun::answered, (run, collection, plan, answers), r),
    ensures
        r is Ok <==> answers@.len() >= plan.needed,
        r is Ok ==> final(run).done == old(run).done + 1,
        (r matches Ok(Some(p)) && !p.tombstone) ==> value_views(final(run).found@) == value_views(
            old(run).found@,
        ).push((r->Ok_0->Some_0.id, r->Ok_0->Some_0.vector@)),
        (r matches Ok(Some(p)) && p.tombstone) || (r matches Ok(None)) ==> value_views(final(run).found@)
            == value_views(old(run).found@),
        r is Err ==> *final(run) == *old(run),
        r matches Err(e) ==> (e matches RouterError::ReadQuorum { collection: c, shard_idx, needed, got } && c@
            == collection@ && shard_idx == plan.shard_idx && needed == plan.needed && got == answers@.len()),
{
    if r is Ok {
        let views = answer_views(answers@);
        let before = value_views(old(run).found@);
        if r->Ok_0 is Some {
            let p = r->Ok_0->Some_0;
            if p.tombstone {
                assert(before + live(newest(views)) =~= before);
            } else {
                assert(before + live(newest(views)) =~= before.push((p.id, p.vector@)));
            }
        } else {
            assert(before + live(newest(views)) =~= before);
        }
    }
}

/// A write leaves one hint for each replica that did not acknowledge it, and none for the
/// others; it succeeds exactly where the replicas without a hint are as many as the plan
/// waits for.
pub proof fn write_call_hints_or_counts(
    collection: &str,
    write: &PointWrite,
    plan: &WritePlan,
    replies: &Vec<bool>,
    r: (Vec<Hint>, Result<(), RouterError>),
)
    requires
        call_ensures(replicate_write, (collection, write, plan, replies), r),
        replies@.len() == plan.replicas@.len(),
    ensures
        r.1 is Ok <==> replies@.len() - r.0@.len() >= plan.needed,
        r.1 matches Err(e) ==> (e matches RouterError::WriteQuorum { collection: c, shard_idx, needed, got } && c@
            == collection@ && shard_idx == write.shard_idx && needed == plan.needed && got == replies@.len()
            - r.0@.len()),
        forall|i: int|
            0 <= i < replies@.len() && !#[trigger] replies@[i] ==> exists|j: int|
                0 <= j < r.0@.len() && (#[trigger] r.0@[j]).target_node == plan.replicas@[i].0,
        forall|j: int|
            0 <= j < r.0@.len() ==> {
                let h = #[trigger] r.0@[j];
                &&& h.collection@ == collection@
                &&& h.shard_idx == write.shard_idx
                &&& h.op == write.record.op
                &&& h.hlc == write.record.hlc
                &&& h.id == write.record.id
                &&& h.vector@ == write.record.vector@
                &&& h.payload@ == write.record.payload@
                &&& exists|i: int|
                    0 <= i < replies@.len() && !#[trigger] replies@[i] && plan.replicas@[i].0 == h.target_node
            },
        (forall|i: int| 0 <= i < replies@.len() ==> #[trigger] replies@[i]) ==> r.0@.len() == 0,
{
    let to = addressed(plan.replicas@);
    let due = hints_due(collection@, write.shard_idx, write.record@, to, replies@);
    let views = hint_views(r.0@);
    assert(views.len() == r.0@.len());
    crate::router::hints_and_acks(collection@, write.shard_idx, write.record@, to, replies@);
    if replies@.len() > 0 {
        each_ack_counts_once(replies@, 0);
    }
    assert forall|i: int| 0 <= i < replies@.len() && !#[trigger] replies@[i] implies exists|j: int|
        0 <= j < r.0@.len() && (#[trigger] r.0@[j]).target_node == plan.replicas@[i].0 by {
        crate::router::unacked_replica_is_hinted(collection@, write.shard_idx, write.record@, to, replies@, i);
        let h = HintView {
            target_node: to[i].0,
            collection: collection@,
            shard_idx: write.shard_idx,
            record: write.record@,
        };
        let j = due.index_of(h);
        assert(views[j] == r.0@[j]@);
    }
    assert forall|j: int| 0 <= j < r.0@.len() implies {
        let h = #[trigger] r.0@[j];
        &&& h.collection@ == collection@
        &&& h.shard_idx == write.shard_idx
        &&& h.op == write.record.op
        &&& h.hlc == write.record.hlc
        &&& h.id == write.record.id
        &&& h.vector@ == write.record.vector@
        &&& h.payload@ == write.record.payload@
        &&& exists|i: int| 0 <= i < replies@.len() && !#[trigger] replies@[i] && plan.replicas@[i].0 == h.target_node
    } by {
        assert(views[j] == r.0@[j]@);
        assert(due.contains(views[j]));
        let i = only_unacked_replicas_are_hinted(
            collection@,
            write.shard_idx,
            write.record@,
            to,
            replies@,
            views[j],
        );
        assert(to[i].0 == plan.replicas@[i].0);
        assert(!replies@[i]);
    }
    if forall|i: int| 0 <= i < replies@.len() ==> #[trigger] replies@[i] {
        if replies@.len() == 0 {
            assert(due.len() == 0);
        }
    }
}

/// The merged hits are the best of all shards' hits: as many as asked for or all, each
/// from its own place among the hits, in order of score and then id, and none that was
/// left out comes before one of them.
pub proof fn merge_hits_call_keeps_the_best(hits: &Vec<(u64, u32)>, k: usize, r: Vec<(u64, u32)>) -> (p: Seq<int>)
    requires
        call_ensures(merge_hits, (hits, k), r),
        forall|i: int| 0 <= i < hits@.len() ==> (#[trigger] hits@[i]).1 % 0x8000_0000 <= 0x7F80_0000,
    ensures
        r@.len() == if k < hits@.len() { k as nat } else { hits@.len() },
        p.len() == hits@.len(),
        p.no_duplicates(),
        forall|i: int| 0 <= i < p.len() ==> 0 <= #[trigger] p[i] < hits@.len(),
        forall|i: int| 0 <= i < r@.len() ==> #[trigger] r@[i] == hits@[p[i]],
        forall|i: int, j: int|
            0 <= i < j < hits@.len() ==> {
                let (a, b) = (hits@[#[trigger] p[i]], hits@[#[trigger] p[j]]);
                signed(a.1) < signed(b.1) || (signed(a.1) == signed(b.1) && a.0 <= b.0)
            },
{
    first_hits_are_the_best(hits@, k as nat, r@)
}

/// A search starts at the first shard with the first of its Active replicas and no hits;
/// it is over at once where there is no shard, and is refused where the collection does
/// not exist, the query does not fit or no replica of the first shard is Active.
pub proof fn search_call_starts_at_the_first_shard(
    meta: &MetaState,
    collection: &str,
    query_len: usize,
    r: Result<(SearchRun, SearchStep), RouterError>,
    ids: Seq<u64>,
)
    requires
        call_ensures(start_search, (meta, collection, query_len), r),
        meta@.collections.contains_key(collection@) ==> placed_at(meta@, collection@, 0, ids),
    ensures
        !meta@.collections.contains_key(collection@) ==> (r matches Err(RouterError::NotFound(n)) && n@
            == collection@),
        meta@.collections.contains_key(collection@) && query_len != meta@.collections[collection@].dim ==> (r matches Err(
            RouterError::DimMismatch { expected, got },
        ) && expected == meta@.collections[collection@].dim as usize && got == query_len),
        meta@.collections.contains_key(collection@) && query_len == meta@.collections[collection@].dim ==> {
            let n = ids.filter(|node: u64| stands_active(meta@, collection@, 0, node)).len();
            let shards = meta@.collections[collection@].shard_count;
            &&& r is Ok <==> shards == 0 || n > 0
            &&& r matches Ok((run, step)) ==> {
                &&& run.shard_idx == 0
                &&& run.hits@.len() == 0
                &&& run.next == 0
                &&& (step is Done <==> shards == 0)
                &&& step is Ask ==> run.replicas@.len() == n && n > 0
            }
        },
{
    if meta@.collections.contains_key(collection@) {
        read_goes_to_active_placed_nodes(meta@, collection@, 0, ids);
        if r is Ok {
            let run = r->Ok_0.0;
            assert(addressed(run.replicas@).len() == run.replicas@.len());
        }
    }
}

/// A search whose replica cannot be reached asks the next one of the same shard, keeping
/// its hits, and fails only after the last.
pub proof fn unreachable_call_falls_forward(run: &mut SearchRun, collection: &str, r: Result<SearchStep, RouterError>)
    requires
        call_ensures(SearchRun::unreachable, (run, collection), r),
        old(run).next < old(run).replicas@.len(),
    ensures
        r is Ok <==> old(run).next + 1 < old(run).replicas@.len(),
        r matches Ok(step) ==> step is Ask,
        r matches Err(e) ==> (e matches RouterError::NoReplica { collection: c, shard_idx } && c@ == collection@
            && shard_idx == old(run).shard_idx),
        final(run).next == old(run).next + 1,
        final(run).shard_idx == old(run).shard_idx,
        final(run).replicas@ == old(run).replicas@,
        final(run).hits@ == old(run).hits@,
{
}

/// A search whose shard answered keeps all hits so far and the new ones, and goes on to
/// the next shard and its Active replicas; it is over after the last shard.
pub proof fn answered_call_goes_on(
    run: &mut SearchRun,
    meta: &MetaState,
    collection: &str,
    shard_count: u32,
    hits: &Vec<(u64, u32)>,
    r: Result<SearchStep, RouterError>,
    ids: Seq<u64>,
)
    requires
        call_ensures(SearchRun::answered, (run, meta, collection, shard_count, hits), r),
        old(run).shard_idx < shard_count,
        placed_at(meta@, collection@, (old(run).shard_idx + 1) as u32, ids),
    ensures
        final(run).hits@.len() == old(run).hits@.len() + hits@.len(),
        forall|i: int| 0 <= i < old(run).hits@.len() ==> #[trigger] final(run).hits@[i] == old(run).hits@[i],
        forall|i: int|
            0 <= i < hits@.len() ==> final(run).hits@[old(run).hits@.len() + i] == #[trigger] hits@[i],
        final(run).shard_idx == old(run).shard_idx + 1,
        ({
            let shard = (old(run).shard_idx + 1) as u32;
            let n = ids.filter(|node: u64| stands_active(meta@, collection@, shard, node)).len();
            &&& (r matches Ok(step) && step is Done) <==> shard == shard_count
            &&& (r matches Ok(step) && step is Ask) <==> shard < shard_count && n > 0
            &&& (r matches Ok(step) && step is Ask) ==> final(run).next == 0 && final(run).replicas@.len() == n
        }),
{
    let shard = (old(run).shard_idx + 1) as u32;
    read_goes_to_active_placed_nodes(meta@, collection@, shard, ids);
    assert(addressed(final(run).replicas@).len() == final(run).replicas@.len());
}

/// What goes out to repair a replica is the winner: its id, vector, payload and packed
/// stamp, as a delete where it is a tombstone and as an upsert otherwise; and the write
/// that the replica takes in from it is what a local repair writes.
pub proof fn repair_call_carries_the_winner(collection: &str, shard_idx: u32, winner: &StoredPoint, w: ReplicaWrite)
    requires
        call_ensures(repair_write, (collection, shard_idx, winner), w),
        winner.hlc.wall_ms < 0x1_0000_0000_0000,
    ensures
        w.collection@ == collection@,
        w.shard_idx == shard_idx,
        w.id == winner.id,
        w.hlc == winner.hlc.wall_ms * 65536 + winner.hlc.counter,
        w.vector@ == winner.vector@,
        w.payload@ == winner.payload@,
        w.op == (if winner.tombstone { 1u32 } else { 0u32 }),
{
}

/// A repair of this node's own replica writes the winner under its own stamp.
pub proof fn local_repair_call_writes_the_winner(winner: &StoredPoint, r: WalRecord)
    requires
        call_ensures(local_repair, (winner,), r),
    ensures
        r.id == winner.id,
        r.hlc == winner.hlc,
        r.op == (if winner.tombstone { WalOp::Delete } else { WalOp::Upsert }),
        !winner.tombstone ==> r.vector@ == winner.vector@ && r.payload@ == winner.payload@,
        winner.tombstone ==> r.vector@.len() == 0,
{
    assert(r@.vector == repair_of(winner@).vector);
}

/// What replays a hint is the write that the hint holds.
pub proof fn hint_call_carries_the_write(h: &Hint, w: ReplicaWrite)
    requires
        call_ensures(hint_write, (h,), w),
        h.hlc.wall_ms < 0x1_0000_0000_0000,
    ensures
        w.collection@ == h.collection@,
        w.shard_idx == h.shard_idx,
        w.id == h.id,
        w.hlc == h.hlc.wall_ms * 65536 + h.hlc.counter,
        w.vector@ == h.vector@,
        w.payload@ == h.payload@,
        w.op == (if h.op == WalOp::Delete { 1u32 } else { 0u32 }),
{
}

/// A replica takes in what was sent under the stamp that it was sent with, and its clock
/// moves past that stamp and its own last one.
pub proof fn receive_call_takes_the_write(clock: &mut HlcClock, wall_ms: u64, w: ReplicaWrite, r: WalRecord)
    requires
        call_ensures(receive_write, (clock, wall_ms, w), r),
    ensures
        r.id == w.id,
        r.hlc.wall_ms * 65536 + r.hlc.counter == w.hlc,
        r.op == (if w.op == 1 { WalOp::Delete } else { WalOp::Upsert }),
        w.op != 1 ==> r.vector@ == w.vector@ && r.payload@ == w.payload@,
        w.op == 1 ==> r.vector@.len() == 0,
        final(clock).last() >= old(clock).last(),
        w.hlc < u64::MAX && old(clock).last() < u64::MAX ==> final(clock).last() > w.hlc && final(clock).last()
            > old(clock).last(),
{
    assert(r@ == received(w));
    assert(r@.vector == r.vector@);
}

/// A hint goes to its target's address, where the target is known.
pub proof fn replay_call_finds_targets(meta: &MetaState, hints: &Vec<Hint>, r: Vec<Option<String>>, i: int)
    requires
        call_ensures(replay_targets, (meta, hints), r),
        0 <= i < hints@.len(),
    ensures
        r@.len() == hints@.len(),
        r@[i] is Some <==> meta@.nodes.contains_key(hints@[i].target_node),
        r@[i] matches Some(addr) ==> addr@ == meta@.nodes[hints@[i].target_node],
{
}

/// After a replay a hint is kept exactly where it was not pushed, and the others are
/// counted.
pub proof fn replay_call_keeps_the_unpushed(hints: &Vec<Hint>, pushed: &Vec<bool>, r: (Vec<Hint>, usize), h: HintView)
    requires
        call_ensures(replay_hints, (hints, pushed), r),
        pushed@.len() == hints@.len(),
    ensures
        hint_views(r.0@).contains(h) <==> exists|i: int|
            0 <= i < hints@.len() && !#[trigger] pushed@[i] && hints@[i]@ == h,
        r.0@.len() + r.1 == hints@.len(),
{
    let views = hint_views(hints@);
    assert(forall|i: int| 0 <= i < hints@.len() ==> views[i] == (#[trigger] hints@[i])@);
    if hint_views(r.0@).contains(h) {
        let i = only_unpushed_hints_are_kept(views, pushed@, h);
        assert(!pushed@[i] && hints@[i]@ == h);
    }
    if exists|i: int| 0 <= i < hints@.len() && !#[trigger] pushed@[i] && hints@[i]@ == h {
        let i = choose|i: int| 0 <= i < hints@.len() && !#[trigger] pushed@[i] && hints@[i]@ == h;
        crate::router::unpushed_hint_is_kept(views, pushed@, i);
    }
}

/// The hints of one target are those that name it.
pub proof fn hints_call_finds_the_target(hints: &Vec<Hint>, target: u64, r: Vec<Hint>, h: HintView)
    requires
        call_ensures(hints_for, (hints, target), r),
    ensures
        hint_views(r@).contains(h) <==> hint_views(hints@).contains(h) && h.target_node == target,
{
    hints_of_one_target(hint_views(hints@), target, h);
}

/// A shard is pulled from the Active peers that it is placed on, and from nobody else.
pub proof fn sources_call_names_active_peers(
    meta: &MetaState,
    me: u64,
    collection: &str,
    shard_idx: u32,
    r: Vec<String>,
    ids: Seq<u64>,
    addr: Seq<char>,
)
    requires
        call_ensures(acquire_sources, (meta, me, collection, shard_idx), r),
        placed_at(meta@, collection@, shard_idx, ids),
    ensures
        texts(r@).contains(addr) <==> exists|node: u64|
            ids.contains(node) && node != me && #[trigger] stands_active(meta@, collection@, shard_idx, node) && addr
                == meta@.nodes[node],
{
    shard_is_pulled_from_active_peers(meta@, me, collection@, shard_idx, ids);
}

/// An acquisition with a peer to pull from begins as Syncing and one without opens the
/// shard as it is. A failed pull is followed by one from the next source while there is
/// one; a successful one by the cutover.
pub proof fn acquire_calls_try_the_sources(sources: usize, start: Acquire, source: usize, ok: bool, next: Acquire)
    requires
        call_ensures(Acquire::start, (sources,), start),
        call_ensures(Acquire::next, (Acquire::Pull { source }, ok, sources), next),
    ensures
        sources == 0 <==> start == Acquire::OpenEmpty,
        sources > 0 <==> start == Acquire::MarkSyncing,
        ok ==> next == (Acquire::MarkActive { pulled: true }),
        !ok && source + 1 < sources ==> next == (Acquire::Pull { source: (source + 1) as usize }),
        !ok && source + 1 >= sources ==> next == (Acquire::Done { pulled: false }),
{
}

/// All replicas of a shard are Active exactly where there is one and no other state is
/// on record for any.
pub proof fn all_active_call_is_exact(
    meta: &MetaState,
    collection: &str,
    shard_idx: u32,
    desired: &[u64],
    r: bool,
)
    requires
        call_ensures(desired_all_active, (meta, collection, shard_idx, desired), r),
    ensures
        r <==> desired@.len() > 0 && forall|i: int|
            0 <= i < desired@.len() ==> stands_active(meta@, collection@, shard_idx, #[trigger] desired@[i]),
{
    if r {
        assert forall|i: int| 0 <= i < desired@.len() implies stands_active(
            meta@,
            collection@,
            shard_idx,
            #[trigger] desired@[i],
        ) by {
            assert(state_of(meta@, collection@, shard_idx, desired@[i]) == ShardState::Active);
        }
    } else if desired@.len() > 0 && forall|i: int|
        0 <= i < desired@.len() ==> stands_active(meta@, collection@, shard_idx, #[trigger] desired@[i]) {
        let i = choose|i: int|
            0 <= i < desired@.len() && state_of(meta@, collection@, shard_idx, #[trigger] desired@[i])
                != ShardState::Active;
        assert(stands_active(meta@, collection@, shard_idx, desired@[i]));
    }
}

/// A change of state counts as committed exactly where the direct write committed it or,
/// on a node that does not lead, the leader answered that it did.
pub proof fn state_calls_commit_once(
    outcome: DirectWrite,
    direct: SetState,
    known: bool,
    found: SetState,
    reply: Option<bool>,
    forwarded: SetState,
)
    requires
        call_ensures(SetState::after_direct, (outcome,), direct),
        call_ensures(SetState::after_find, (known,), found),
        call_ensures(SetState::after_forward, (reply,), forwarded),
    ensures
        direct == (SetState::Done { committed: true }) <==> outcome == DirectWrite::Committed,
        direct == (SetState::Done { committed: false }) <==> outcome == DirectWrite::Failed,
        direct == SetState::FindLeader <==> outcome == DirectWrite::NotLeader,
        found == SetState::Forward <==> known,
        found == (SetState::Done { committed: false }) <==> !known,
        forwarded == (SetState::Done { committed: true }) <==> reply == Some(true),
        forwarded == (SetState::Done { committed: false }) <==> reply != Some(true),
{
}

/// The consistency level on the wire: 1 for one replica, 3 for all, and anything else for
/// more than half.
pub proof fn level_call_reads_the_wire(v: i32, r: Consistency)
    requires
        call_ensures(Consistency::from_proto, (v,), r),
    ensures
        r == Consistency::One <==> v == 1,
        r == Consistency::All <==> v == 3,
        r == Consistency::Quorum <==> v != 1 && v != 3,
{
}

/// A collection's schema is the one on record, and there is none for a name that is not.
pub proof fn schema_call_reads_the_record(
    meta: &MetaState,
    collection: &str,
    r: Result<CollectionSchema, RouterError>,
)
    requires
        call_ensures(schema_of, (meta, collection), r),
    ensures
        r is Ok <==> meta@.collections.contains_key(collection@),
        r matches Ok(s) ==> s == meta@.collections[collection@],
        r matches Err(e) ==> (e matches RouterError::NotFound(n) && n@ == collection@),
{
}

/// A write is planned for every node that the shard is placed on, whatever their states,
/// and refused where there is none.
pub proof fn plan_call_covers_the_shard(
    meta: &MetaState,
    collection: &str,
    shard_idx: u32,
    consistency: Consistency,
    r: Result<WritePlan, RouterError>,
    ids: Seq<u64>,
)
    requires
        call_ensures(plan_replicas, (meta, collection, shard_idx, consistency), r),
        placed_at(meta@, collection@, shard_idx, ids),
    ensures
        r is Ok <==> ids.len() > 0,
        r matches Ok(plan) ==> {
            &&& plan.replicas@.len() == ids.len()
            &&& meets(consistency, ids.len(), plan.needed as nat)
            &&& forall|i: int|
                0 <= i < ids.len() ==> (#[trigger] plan.replicas@[i]).0 == ids[i] && plan.replicas@[i].1@
                    == meta@.nodes[ids[i]]
        },
        r matches Err(e) ==> (e matches RouterError::NoReplica { collection: c, shard_idx: s } && c@ == collection@ && s
            == shard_idx),
{
    write_goes_to_every_placed_node(meta@, collection@, shard_idx, ids);
    if r is Ok {
        let plan = r->Ok_0;
        assert(addressed(plan.replicas@).len() == plan.replicas@.len());
        assert forall|i: int| 0 <= i < ids.len() implies (#[trigger] plan.replicas@[i]).0 == ids[i]
            && plan.replicas@[i].1@ == meta@.nodes[ids[i]] by {
            assert(addressed(plan.replicas@)[i] == (ids[i], meta@.nodes[ids[i]]));
        }
    }
}

/// A batch of upserts writes the next point that was not written, is over after the last
/// without moving the clock, and is refused where the collection does not exist.
pub proof fn upsert_batch_call_writes_the_next(
    meta: &MetaState,
    clock: &mut HlcClock,
    wall_ms: u64,
    collection: &str,
    points: &Vec<(u64, Vec<u32>, Vec<u8>)>,
    accepted: usize,
    consistency: Consistency,
    r: Result<Option<(PointWrite, WritePlan)>, RouterError>,
)
    requires
        call_ensures(coordinate_upsert, (meta, clock, wall_ms, collection, points, accepted, consistency), r),
        accepted <= points@.len(),
    ensures
        !meta@.collections.contains_key(collection@) ==> (r matches Err(RouterError::NotFound(n)) && n@
            == collection@) && final(clock).last() == old(clock).last(),
        meta@.collections.contains_key(collection@) && accepted == points@.len() ==> (r matches Ok(None))
            && final(clock).last() == old(clock).last(),
        accepted < points@.len() ==> !(r matches Ok(None)),
        accepted < points@.len() && meta@.collections.contains_key(collection@) && points@[accepted as int].1@.len()
            != meta@.collections[collection@].dim ==> (r matches Err(RouterError::DimMismatch { expected, got })
            && expected == meta@.collections[collection@].dim as usize && got
            == points@[accepted as int].1@.len() as usize),
        r matches Ok(Some(w)) ==> accepted < points@.len() && w.0.record@.op == WalOp::Upsert && w.0.record@.id
            == points@[accepted as int].0 && w.0.record@.vector == points@[accepted as int].1@ && w.0.record@.payload
            == points@[accepted as int].2@ && w.0.record@.hlc.wall_ms * 65536 + w.0.record@.hlc.counter == final(clock).last() && (old(clock).last() < u64::MAX ==> final(clock).last() > old(clock).last()),
{
}

/// A batch of deletes writes a tombstone for the next id that was not written, is over
/// after the last without moving the clock, and is refused where the collection does not
/// exist.
pub proof fn delete_batch_call_writes_the_next(
    meta: &MetaState,
    clock: &mut HlcClock,
    wall_ms: u64,
    collection: &str,
    ids: &Vec<u64>,
    accepted: usize,
    consistency: Consistency,
    r: Result<Option<(PointWrite, WritePlan)>, RouterError>,
)
    requires
        call_ensures(coordinate_delete, (meta, clock, wall_ms, collection, ids, accepted, consistency), r),
        accepted <= ids@.len(),
    ensures
        !meta@.collections.contains_key(collection@) ==> (r matches Err(RouterError::NotFound(n)) && n@
            == collection@) && final(clock).last() == old(clock).last(),
        meta@.collections.contains_key(collection@) && accepted == ids@.len() ==> (r matches Ok(None))
            && final(clock).last() == old(clock).last(),
        accepted < ids@.len() ==> !(r matches Ok(None)),
        r matches Ok(Some(w)) ==> accepted < ids@.len() && w.0.record@.op == WalOp::Delete && w.0.record@.id
            == ids@[accepted as int] && w.0.record@.vector.len() == 0 && w.0.record@.hlc.wall_ms * 65536
            + w.0.record@.hlc.counter == final(clock).last() && (old(clock).last() < u64::MAX ==> final(clock).last()
            > old(clock).last()),
{
}

/// An address that names its scheme is called as it stands, any other by `http`.
pub proof fn endpoint_call_names_a_scheme(addr: &str, r: String)
    requires
        call_ensures(endpoint_of, (addr,), r),
    ensures
        "http://"@.is_prefix_of(addr@) || "https://"@.is_prefix_of(addr@) ==> r@ == addr@,
        !"http://"@.is_prefix_of(addr@) && !"https://"@.is_prefix_of(addr@) ==> r@ == "http://"@ + addr@,
{
    endpoint_names_a_scheme(addr@);
}

/// What follows each step of an acquisition but a pull: a commit as Syncing is followed
/// by the first pull and its failure ends it; the cutover ends it, with a transfer
/// completed only where data was pulled and the commit succeeded.
pub proof fn acquire_call_follows_the_steps(
    ok: bool,
    sources: usize,
    pulled: bool,
    opened: Acquire,
    syncing: Acquire,
    active: Acquire,
    over: Acquire,
)
    requires
        call_ensures(Acquire::next, (Acquire::OpenEmpty, ok, sources), opened),
        call_ensures(Acquire::next, (Acquire::MarkSyncing, ok, sources), syncing),
        call_ensures(Acquire::next, (Acquire::MarkActive { pulled }, ok, sources), active),
        call_ensures(Acquire::next, (Acquire::Done { pulled }, ok, sources), over),
    ensures
        opened == (Acquire::MarkActive { pulled: false }),
        ok ==> syncing == (Acquire::Pull { source: 0 }),
        !ok ==> syncing == (Acquire::Done { pulled: false }),
        active == (Acquire::Done { pulled: true }) <==> pulled && ok,
        active == (Acquire::Done { pulled: false }) <==> !(pulled && ok),
        over == (Acquire::Done { pulled }),
{
}

/// A stamp that is made of a wall clock keeps its low 48 bits and the counter.
pub proof fn new_stamp_keeps_its_parts(wall_ms: u64, counter: u16, r: Hlc)
    requires
        call_ensures(Hlc::new, (wall_ms, counter), r),
    ensures
        r.counter == counter,
        wall_ms < 0x1_0000_0000_0000 ==> r.wall_ms == wall_ms,
        r.wall_ms as int == wall_ms as int % 0x1_0000_0000_0000,
{
}

/// Two states of the metadata that differ in shard states alone get the same plan for a
/// write: the same replicas at the same addresses, and as many to wait for.
pub proof fn plan_call_ignores_states(
    a: &MetaState,
    b: &MetaState,
    collection: &str,
    shard_idx: u32,
    consistency: Consistency,
    ra: Result<WritePlan, RouterError>,
    rb: Result<WritePlan, RouterError>,
)
    requires
        call_ensures(plan_replicas, (a, collection, shard_idx, consistency), ra),
        call_ensures(plan_replicas, (b, collection, shard_idx, consistency), rb),
        a@.nodes == b@.nodes,
        a@.collections == b@.collections,
    ensures
        ra is Ok <==> rb is Ok,
        ra is Ok ==> addressed(ra->Ok_0.replicas@) == addressed(rb->Ok_0.replicas@),
        ra is Ok ==> ra->Ok_0.needed == rb->Ok_0.needed,
{
    shard_states_do_not_move_writes(a@, b@, collection@, shard_idx);
}

} // verus!
