//! What routing, reconciling and the replicated metadata promise, each said of what
//! goes in and what comes out.

use vstd::prelude::*;

use crate::hlc::Hlc;
use crate::meta::{CollectionSchema, MetaRequest, ShardState};
use crate::rebalance::{Acquire, ShardAction};
use crate::router::{Consistency, PointWrite, ReplicaWrite, RouterError, WritePlan};
use crate::wal::WalOp;

verus! {

use crate::hints::HintView;
use crate::meta::{
    applied, collection_rows, map_rows, note_of, replicas_of, shard_rows, state_of, AssignmentView, MetaView, ReplicaKey,
};
use crate::placement::{
    home_of, members_are_on_ring, on_ring, placed, placed_is_placement, placement_exists, replicas_are_distinct,
    ring_points,
};
use crate::rebalance::{acquire_after, acquire_next, action_for, addresses, others, sources_for};
use crate::router::{
    acks_in, active_of, addressed, delete_planned, endpoint, get_stops, hints_due, live, live_winners, meant_for,
    newest, op_code, read_shard, read_view, received, repair_of, repairs, unpushed, upsert_planned, with_addresses,
    write_view, AnswerView, GetEnd,
};
use crate::shards::{index_metric, StoredView};
use crate::wal::RecordView;

/// The nodes `ids` are where a shard of a collection is placed: the first nodes
/// clockwise from the shard's home, as many as the collection keeps replicas.
pub open spec fn placed_at(s: MetaView, collection: Seq<char>, shard_idx: u32, ids: Seq<u64>) -> bool {
    &&& s.collections.contains_key(collection)
    &&& placed(
        ring_points(s.nodes.dom(), 64),
        home_of(collection, shard_idx),
        s.collections[collection].replication_n as nat,
        ids,
    )
}

pub(crate) proof fn placement_is_of_members(s: MetaView, collection: Seq<char>, shard_idx: u32, ids: Seq<u64>)
    requires
        placed_at(s, collection, shard_idx, ids),
    ensures
        replicas_of(s, collection, shard_idx) == ids,
        forall|i: int| 0 <= i < ids.len() ==> s.nodes.contains_key(#[trigger] ids[i]),
        ids.no_duplicates(),
{
    let points = ring_points(s.nodes.dom(), 64);
    let home = home_of(collection, shard_idx);
    placed_is_placement(points, home, s.collections[collection].replication_n as nat, ids);
    members_are_on_ring(s.nodes.dom(), 64);
    assert forall|i: int| 0 <= i < ids.len() implies s.nodes.contains_key(#[trigger] ids[i]) by {
        assert(on_ring(points, ids[i]));
        assert(s.nodes.dom().contains(ids[i]));
    }
    assert forall|i: int, j: int| 0 <= i < ids.len() && 0 <= j < ids.len() && i != j implies ids[i] != ids[j] by {
        if i < j {
            assert(crate::placement::ahead(points, home, ids[i], ids[j]));
        } else {
            assert(crate::placement::ahead(points, home, ids[j], ids[i]));
        }
    }
}

/// A shard is placed on as many nodes as the collection keeps replicas, or on all
/// nodes where there are fewer, each of them once and each of them known.
pub proof fn shard_has_its_replicas(s: MetaView, collection: Seq<char>, shard_idx: u32)
    requires
        s.collections.contains_key(collection),
        s.nodes.dom().finite(),
    ensures
        placed_at(s, collection, shard_idx, replicas_of(s, collection, shard_idx)),
        replicas_of(s, collection, shard_idx).no_duplicates(),
        replicas_of(s, collection, shard_idx).len() == if s.collections[collection].replication_n
            <= s.nodes.len() {
            s.collections[collection].replication_n as nat
        } else {
            s.nodes.len()
        },
        forall|i: int|
            0 <= i < replicas_of(s, collection, shard_idx).len() ==> s.nodes.contains_key(
                #[trigger] replicas_of(s, collection, shard_idx)[i],
            ),
{
    let ids = replicas_of(s, collection, shard_idx);
    let n = s.collections[collection].replication_n as nat;
    placement_exists(s.nodes.dom(), 64, home_of(collection, shard_idx), n);
    placement_is_of_members(s, collection, shard_idx, ids);
    members_are_on_ring(s.nodes.dom(), 64);
    replicas_are_distinct(
        ring_points(s.nodes.dom(), 64),
        home_of(collection, shard_idx),
        n,
        ids,
        s.nodes.dom(),
    );
}

proof fn known_addresses(s: MetaView, ids: Seq<u64>)
    requires
        forall|i: int| 0 <= i < ids.len() ==> s.nodes.contains_key(#[trigger] ids[i]),
    ensures
        with_addresses(s, ids).len() == ids.len(),
        forall|i: int| 0 <= i < ids.len() ==> #[trigger] with_addresses(s, ids)[i] == (ids[i], s.nodes[ids[i]]),
    decreases ids.len(),
{
    if ids.len() > 0 {
        let rest = ids.drop_last();
        assert forall|i: int| 0 <= i < rest.len() implies s.nodes.contains_key(#[trigger] rest[i]) by {
            assert(rest[i] == ids[i]);
        }
        known_addresses(s, rest);
        assert(s.nodes.contains_key(ids[ids.len() - 1]));
        assert forall|i: int| 0 <= i < ids.len() implies #[trigger] with_addresses(s, ids)[i] == (
            ids[i],
            s.nodes[ids[i]],
        ) by {
            if i < rest.len() {
                assert(with_addresses(s, rest)[i] == (rest[i], s.nodes[rest[i]]));
            }
        }
    }
}

/// A write goes to every node that its shard is placed on, in the order of the
/// placement, with its address, and to nobody else. The replicas' states play no part.
pub proof fn write_goes_to_every_placed_node(s: MetaView, collection: Seq<char>, shard_idx: u32, ids: Seq<u64>)
    requires
        placed_at(s, collection, shard_idx, ids),
    ensures
        write_view(s, collection, shard_idx).len() == ids.len(),
        forall|i: int|
            0 <= i < ids.len() ==> #[trigger] write_view(s, collection, shard_idx)[i] == (
                ids[i],
                s.nodes[ids[i]],
            ),
{
    placement_is_of_members(s, collection, shard_idx, ids);
    known_addresses(s, ids);
}

/// Writes go to the same replicas in any two states of the metadata that differ in
/// shard states alone.
pub proof fn shard_states_do_not_move_writes(s: MetaView, t: MetaView, collection: Seq<char>, shard_idx: u32)
    requires
        s.nodes == t.nodes,
        s.collections == t.collections,
    ensures
        write_view(s, collection, shard_idx) == write_view(t, collection, shard_idx),
{
    same_nodes_same_addresses(s, t, replicas_of(s, collection, shard_idx));
}

proof fn same_nodes_same_addresses(s: MetaView, t: MetaView, ids: Seq<u64>)
    requires
        s.nodes == t.nodes,
    ensures
        with_addresses(s, ids) == with_addresses(t, ids),
    decreases ids.len(),
{
    if ids.len() > 0 {
        same_nodes_same_addresses(s, t, ids.drop_last());
    }
}

/// `needed` is what a consistency level asks of `n` replicas: one of them, the fewest
/// that are more than half of them, or all of them.
pub open spec fn meets(consistency: Consistency, n: nat, needed: nat) -> bool {
    match consistency {
        Consistency::One => needed == 1,
        Consistency::Quorum => 2 * needed > n && 2 * (needed - 1) <= n,
        Consistency::All => needed == n,
    }
}

/// `plan` sends a write to all of `ids`, at their addresses, and waits for as many of
/// them as the consistency level says.
pub open spec fn plan_covers(s: MetaView, ids: Seq<u64>, consistency: Consistency, plan: WritePlan) -> bool {
    &&& plan.replicas@.len() == ids.len()
    &&& forall|i: int|
        0 <= i < ids.len() ==> (#[trigger] plan.replicas@[i]).0 == ids[i] && plan.replicas@[i].1@
            == s.nodes[ids[i]]
    &&& meets(consistency, ids.len(), plan.needed as nat)
}

proof fn plan_of_view(
    s: MetaView,
    collection: Seq<char>,
    shard_idx: u32,
    ids: Seq<u64>,
    consistency: Consistency,
    plan: WritePlan,
)
    requires
        placed_at(s, collection, shard_idx, ids),
        ids.len() > 0,
        addressed(plan.replicas@) == write_view(s, collection, shard_idx),
        plan.needed == consistency.needed(ids.len()),
    ensures
        plan_covers(s, ids, consistency, plan),
{
    write_goes_to_every_placed_node(s, collection, shard_idx, ids);
    let view = addressed(plan.replicas@);
    assert(view.len() == plan.replicas@.len());
    assert forall|i: int| 0 <= i < ids.len() implies (#[trigger] plan.replicas@[i]).0 == ids[i]
        && plan.replicas@[i].1@ == s.nodes[ids[i]] by {
        assert(view[i] == (ids[i], s.nodes[ids[i]]));
    }
}

/// What a planned upsert holds: the record carries the point under a stamp newer than
/// any that the clock gave before, for a shard of the collection, and the plan sends it
/// to every node that this shard is placed on, Active or not.
pub proof fn upsert_plan_covers_the_shard(
    s: MetaView,
    clock: (u64, u64),
    wall_ms: u64,
    collection: Seq<char>,
    point: (u64, Seq<u32>, Seq<u8>),
    consistency: Consistency,
    w: PointWrite,
    plan: WritePlan,
    ids: Seq<u64>,
)
    requires
        upsert_planned(s, clock, wall_ms, collection, point, consistency, Ok((w, plan))),
        s.collections[collection].shard_count > 0,
        placed_at(s, collection, w.shard_idx, ids),
    ensures
        plan_covers(s, ids, consistency, plan),
        w.shard_idx < s.collections[collection].shard_count,
        point.1.len() == s.collections[collection].dim,
        w.record@.op == WalOp::Upsert,
        w.record@.id == point.0,
        w.record@.vector == point.1,
        w.record@.payload == point.2,
        w.record@.hlc.wall_ms * 65536 + w.record@.hlc.counter == clock.1,
        clock.0 < u64::MAX ==> clock.0 < clock.1,
{
    write_goes_to_every_placed_node(s, collection, w.shard_idx, ids);
    plan_of_view(s, collection, w.shard_idx, ids, consistency, plan);
}

/// What a planned delete holds: a tombstone under a stamp newer than any that the clock
/// gave before, for a shard of the collection, and the plan sends it to every node that
/// this shard is placed on, Active or not.
pub proof fn delete_plan_covers_the_shard(
    s: MetaView,
    clock: (u64, u64),
    wall_ms: u64,
    collection: Seq<char>,
    id: u64,
    consistency: Consistency,
    w: PointWrite,
    plan: WritePlan,
    ids: Seq<u64>,
)
    requires
        delete_planned(s, clock, wall_ms, collection, id, consistency, Ok((w, plan))),
        s.collections[collection].shard_count > 0,
        placed_at(s, collection, w.shard_idx, ids),
    ensures
        plan_covers(s, ids, consistency, plan),
        w.shard_idx < s.collections[collection].shard_count,
        w.record@.op == WalOp::Delete,
        w.record@.id == id,
        w.record@.vector.len() == 0,
        w.record@.payload.len() == 0,
        w.record@.hlc.wall_ms * 65536 + w.record@.hlc.counter == clock.1,
        clock.0 < u64::MAX ==> clock.0 < clock.1,
{
    write_goes_to_every_placed_node(s, collection, w.shard_idx, ids);
    plan_of_view(s, collection, w.shard_idx, ids, consistency, plan);
}

/// An upsert and a delete of the same point go to the same shard, under any clock and
/// at any time, so the later of the two supersedes the other.
pub proof fn writes_of_a_point_meet(
    s: MetaView,
    c1: (u64, u64),
    c2: (u64, u64),
    wall1: u64,
    wall2: u64,
    collection: Seq<char>,
    point: (u64, Seq<u32>, Seq<u8>),
    l1: Consistency,
    l2: Consistency,
    up: (PointWrite, WritePlan),
    del: (PointWrite, WritePlan),
)
    requires
        upsert_planned(s, c1, wall1, collection, point, l1, Ok(up)),
        delete_planned(s, c2, wall2, collection, point.0, l2, Ok(del)),
    ensures
        up.0.shard_idx == del.0.shard_idx,
        up.0.shard_idx == read_shard(s, collection, point.0),
        addressed(up.1.replicas@) == addressed(del.1.replicas@),
{
}

/// An upsert is planned whenever the collection exists, the vector fits it and there is
/// a node to keep a replica; it is refused for no other reason than these, the first
/// that applies. A refusal for the first two leaves the clock alone.
pub proof fn fitting_upsert_is_planned(
    s: MetaView,
    clock: (u64, u64),
    wall_ms: u64,
    collection: Seq<char>,
    point: (u64, Seq<u32>, Seq<u8>),
    consistency: Consistency,
    r: Result<(PointWrite, WritePlan), RouterError>,
)
    requires
        upsert_planned(s, clock, wall_ms, collection, point, consistency, r),
        s.nodes.dom().finite(),
    ensures
        !s.collections.contains_key(collection) ==> clock.1 == clock.0 && (r matches Err(
            RouterError::NotFound(n),
        ) && n@ == collection),
        s.collections.contains_key(collection) && point.1.len() != s.collections[collection].dim
            ==> clock.1 == clock.0 && (r matches Err(RouterError::DimMismatch { expected, got }) && expected
            == s.collections[collection].dim as usize && got == point.1.len() as usize),
        s.collections.contains_key(collection) && point.1.len() == s.collections[collection].dim && (
        s.nodes.len() == 0 || s.collections[collection].replication_n == 0) ==> (r matches Err(
            RouterError::NoReplica { collection: c, shard_idx },
        ) && c@ == collection && shard_idx == read_shard(s, collection, point.0)),
        s.collections.contains_key(collection) && point.1.len() == s.collections[collection].dim
            && s.nodes.len() > 0 && s.collections[collection].replication_n > 0 ==> r is Ok,
{
    if s.collections.contains_key(collection) {
        let shard = read_shard(s, collection, point.0);
        shard_has_its_replicas(s, collection, shard);
        write_goes_to_every_placed_node(s, collection, shard, replicas_of(s, collection, shard));
    }
}

/// A delete is planned whenever the collection exists and there is a node to keep a
/// replica, whether or not the point does; it is refused for no other reason.
pub proof fn delete_is_planned(
    s: MetaView,
    clock: (u64, u64),
    wall_ms: u64,
    collection: Seq<char>,
    id: u64,
    consistency: Consistency,
    r: Result<(PointWrite, WritePlan), RouterError>,
)
    requires
        delete_planned(s, clock, wall_ms, collection, id, consistency, r),
        s.nodes.dom().finite(),
    ensures
        !s.collections.contains_key(collection) ==> clock.1 == clock.0 && (r matches Err(
            RouterError::NotFound(n),
        ) && n@ == collection),
        s.collections.contains_key(collection) && (s.nodes.len() == 0
            || s.collections[collection].replication_n == 0) ==> (r matches Err(
            RouterError::NoReplica { collection: c, shard_idx },
        ) && c@ == collection && shard_idx == read_shard(s, collection, id)),
        s.collections.contains_key(collection) && s.nodes.len() > 0
            && s.collections[collection].replication_n > 0 ==> r is Ok,
{
    if s.collections.contains_key(collection) {
        let shard = read_shard(s, collection, id);
        shard_has_its_replicas(s, collection, shard);
        write_goes_to_every_placed_node(s, collection, shard, replicas_of(s, collection, shard));
    }
}

/// The plans for the same write in two states of the metadata that differ in shard
/// states alone name the same replicas and wait for as many of them; so a replica that
/// is Syncing or Dead still gets every write.
pub proof fn shard_states_do_not_change_plans(
    s: MetaView,
    t: MetaView,
    clock: (u64, u64),
    wall_ms: u64,
    collection: Seq<char>,
    point: (u64, Seq<u32>, Seq<u8>),
    consistency: Consistency,
    a: Result<(PointWrite, WritePlan), RouterError>,
    b: Result<(PointWrite, WritePlan), RouterError>,
)
    requires
        s.nodes == t.nodes,
        s.collections == t.collections,
        upsert_planned(s, clock, wall_ms, collection, point, consistency, a),
        upsert_planned(t, clock, wall_ms, collection, point, consistency, b),
    ensures
        a is Ok <==> b is Ok,
        (a matches Ok(x) && b matches Ok(y)) ==> addressed(a->Ok_0.1.replicas@) == addressed(
            b->Ok_0.1.replicas@,
        ) && a->Ok_0.1.needed == b->Ok_0.1.needed,
{
    shard_states_do_not_move_writes(s, t, collection, read_shard(s, collection, point.0));
}

/// The node holds the shard as Active: no other state is on record for it.
pub open spec fn stands_active(s: MetaView, collection: Seq<char>, shard_idx: u32, node: u64) -> bool {
    !s.shard_states.contains_key((collection, shard_idx, node)) || s.shard_states[(collection, shard_idx, node)]
        == ShardState::Active
}

proof fn active_ones(s: MetaView, collection: Seq<char>, shard_idx: u32, ids: Seq<u64>)
    requires
        forall|i: int| 0 <= i < ids.len() ==> s.nodes.contains_key(#[trigger] ids[i]),
    ensures
        ({
            let view = with_addresses(s, active_of(s, collection, shard_idx, ids));
            &&& view == ids.filter(|id: u64| stands_active(s, collection, shard_idx, id)).map_values(
                |id: u64| (id, s.nodes[id]),
            )
        }),
    decreases ids.len(),
{
    let keep = |id: u64| stands_active(s, collection, shard_idx, id);
    let addr = |id: u64| (id, s.nodes[id]);
    reveal(Seq::filter);
    if ids.len() == 0 {
        assert(with_addresses(s, active_of(s, collection, shard_idx, ids)) =~= ids.filter(keep).map_values(addr));
    } else {
        let rest = ids.drop_last();
        assert forall|i: int| 0 <= i < rest.len() implies s.nodes.contains_key(#[trigger] rest[i]) by {
            assert(rest[i] == ids[i]);
        }
        active_ones(s, collection, shard_idx, rest);
        let last = ids[ids.len() - 1];
        assert(s.nodes.contains_key(last));
        let before = active_of(s, collection, shard_idx, rest);
        if keep(last) {
            assert(before.push(last).drop_last() =~= before);
            assert(ids.filter(keep).map_values(addr) =~= rest.filter(keep).map_values(addr).push(addr(last)));
        }
    }
}

/// A read goes to exactly those nodes that the shard is placed on and that hold it as
/// Active, in the order of the placement, at their addresses.
pub proof fn read_goes_to_active_placed_nodes(s: MetaView, collection: Seq<char>, shard_idx: u32, ids: Seq<u64>)
    requires
        placed_at(s, collection, shard_idx, ids),
    ensures
        read_view(s, collection, shard_idx) == ids.filter(
            |id: u64| stands_active(s, collection, shard_idx, id),
        ).map_values(|id: u64| (id, s.nodes[id])),
        forall|node: u64, addr: Seq<char>| #[trigger]
            read_view(s, collection, shard_idx).contains((node, addr)) <==> ids.contains(node)
                && stands_active(s, collection, shard_idx, node) && addr == s.nodes[node],
{
    placement_is_of_members(s, collection, shard_idx, ids);
    active_ones(s, collection, shard_idx, ids);
    let keep = |id: u64| stands_active(s, collection, shard_idx, id);
    let kept = ids.filter(keep);
    let view = read_view(s, collection, shard_idx);
    assert forall|node: u64, addr: Seq<char>| #[trigger]
        view.contains((node, addr)) <==> ids.contains(node) && stands_active(s, collection, shard_idx, node)
            && addr == s.nodes[node] by {
        filter_is_exact(ids, keep, node);
        if view.contains((node, addr)) {
            let i = view.index_of((node, addr));
            assert(view[i] == (kept[i], s.nodes[kept[i]]));
            assert(kept.contains(node));
        }
        if ids.contains(node) && keep(node) && addr == s.nodes[node] {
            let i = kept.index_of(node);
            assert(kept[i] == node);
            assert(view[i] == (kept[i], s.nodes[kept[i]]));
        }
    }
}

proof fn filter_is_exact(ids: Seq<u64>, keep: spec_fn(u64) -> bool, x: u64)
    ensures
        ids.filter(keep).contains(x) <==> ids.contains(x) && keep(x),
    decreases ids.len(),
{
    reveal(Seq::filter);
    if ids.len() > 0 {
        let rest = ids.drop_last();
        filter_is_exact(rest, keep, x);
        let last = ids[ids.len() - 1];
        assert(ids =~= rest.push(last));
        assert(ids.contains(x) <==> rest.contains(x) || x == last) by {
            if rest.contains(x) {
                assert(ids[rest.index_of(x)] == x);
            }
            if ids.contains(x) && x != last {
                assert(rest[ids.index_of(x)] == x);
            }
        }
        if keep(last) {
            let f = rest.filter(keep);
            assert(f.push(last).contains(x) <==> f.contains(x) || x == last) by {
                if f.contains(x) {
                    assert(f.push(last)[f.index_of(x)] == x);
                }
                if x == last {
                    assert(f.push(last)[f.len() as int] == x);
                }
                if f.push(last).contains(x) && x != last {
                    assert(f[f.push(last).index_of(x)] == x);
                }
            }
        }
    }
}

/// Every replica whose answer to a read is missing or older than the winner, by wall
/// clock and then by counter, is sent the winner, be it a value or a tombstone: this
/// node in the local list, any other in the remote one.
pub proof fn stale_replica_is_repaired(answers: Seq<AnswerView>, winner: StoredView, me: u64, i: int)
    requires
        0 <= i < answers.len(),
        answers[i].point is None || answers[i].point.unwrap().hlc.wall_ms < winner.hlc.wall_ms || (
        answers[i].point.unwrap().hlc.wall_ms == winner.hlc.wall_ms && answers[i].point.unwrap().hlc.counter
            < winner.hlc.counter),
    ensures
        answers[i].node_id == me ==> repairs(answers, winner, me, true).contains((me, answers[i].addr)),
        answers[i].node_id != me ==> repairs(answers, winner, me, false).contains(
            (answers[i].node_id, answers[i].addr),
        ),
{
    crate::router::replica_is_repaired(answers, winner, me, i);
}

/// Nobody else is repaired: whoever is in a list answered with nothing or with an older
/// version than the winner, and is in the list that is meant for it.
pub proof fn only_stale_replicas_are_repaired(
    answers: Seq<AnswerView>,
    winner: StoredView,
    me: u64,
    own: bool,
    target: (u64, Seq<char>),
) -> (i: int)
    requires
        repairs(answers, winner, me, own).contains(target),
    ensures
        0 <= i < answers.len(),
        answers[i].node_id == target.0,
        answers[i].addr == target.1,
        own <==> target.0 == me,
        answers[i].point is None || answers[i].point.unwrap().hlc.wall_ms < winner.hlc.wall_ms || (
        answers[i].point.unwrap().hlc.wall_ms == winner.hlc.wall_ms && answers[i].point.unwrap().hlc.counter
            < winner.hlc.counter),
    decreases answers.len(),
{
    let n = answers.len() - 1;
    let all = repairs(answers, winner, me, own);
    let rest = repairs(answers.drop_last(), winner, me, own);
    if rest.contains(target) {
        let i = only_stale_replicas_are_repaired(answers.drop_last(), winner, me, own, target);
        assert(answers.drop_last()[i] == answers[i]);
        i
    } else {
        let j = all.index_of(target);
        assert(all[j] == target);
        if j < rest.len() {
            assert(rest[j] == target);
        }
        n
    }
}

/// A read of distinct replicas repairs none of them twice.
pub proof fn replica_is_repaired_once(answers: Seq<AnswerView>, winner: StoredView, me: u64, own: bool)
    requires
        forall|i: int, j: int|
            0 <= i < j < answers.len() ==> (#[trigger] answers[i]).node_id != (#[trigger] answers[j]).node_id,
    ensures
        forall|i: int, j: int|
            0 <= i < j < repairs(answers, winner, me, own).len() ==> (#[trigger] repairs(
                answers,
                winner,
                me,
                own,
            )[i]).0 != (#[trigger] repairs(answers, winner, me, own)[j]).0,
    decreases answers.len(),
{
    if answers.len() > 0 {
        let d = answers.drop_last();
        let n = answers.len() - 1;
        assert forall|i: int, j: int| 0 <= i < j < d.len() implies (#[trigger] d[i]).node_id != (
        #[trigger] d[j]).node_id by {
            assert(d[i] == answers[i] && d[j] == answers[j]);
        }
        replica_is_repaired_once(d, winner, me, own);
        let rest = repairs(d, winner, me, own);
        let all = repairs(answers, winner, me, own);
        assert forall|i: int, j: int| 0 <= i < j < all.len() implies (#[trigger] all[i]).0 != (
        #[trigger] all[j]).0 by {
            if j < rest.len() {
                assert(all[i] == rest[i] && all[j] == rest[j]);
            } else {
                assert(all[i] == rest[i]);
                assert(rest.contains(rest[i]));
                let k = only_stale_replicas_are_repaired(d, winner, me, own, rest[i]);
                assert(d[k] == answers[k]);
                assert(answers[k].node_id != answers[n].node_id);
            }
        }
    }
}

/// A consistency level asks for one reply, for the fewest that are more than half, or
/// for all; for one where there is no replica.
pub proof fn level_asks_for(consistency: Consistency, n: nat)
    ensures
        n > 0 ==> meets(consistency, n, consistency.needed(n)),
        n == 0 ==> consistency.needed(n) == 1,
{
}

/// The count of acknowledgements starts at none and rises by one for each replica that
/// acknowledges, whichever it is.
pub proof fn each_ack_counts_once(replies: Seq<bool>, i: int)
    requires
        0 <= i < replies.len(),
    ensures
        acks_in(replies.update(i, true)) == acks_in(replies.update(i, false)) + 1,
        (forall|j: int| 0 <= j < replies.len() ==> !#[trigger] replies[j]) ==> acks_in(replies) == 0,
        (forall|j: int| 0 <= j < replies.len() ==> #[trigger] replies[j]) ==> acks_in(replies) == replies.len(),
    decreases replies.len(),
{
    let d = replies.drop_last();
    if i == replies.len() - 1 {
        assert(replies.update(i, true).drop_last() =~= d);
        assert(replies.update(i, false).drop_last() =~= d);
    } else {
        assert(replies.update(i, true).drop_last() =~= d.update(i, true));
        assert(replies.update(i, false).drop_last() =~= d.update(i, false));
    }
    if d.len() > 0 {
        each_ack_counts_once(d, if i < d.len() { i } else { 0 });
        assert(forall|j: int| 0 <= j < d.len() ==> d[j] == replies[j]);
    } else {
        assert(acks_in(d) == 0);
    }
    assert(replies[replies.len() - 1] == replies.last());
}

/// Only a replica that did not acknowledge is owed a hint, and the hint is for this
/// write; there are as many hints as replicas without an acknowledgement.
pub proof fn only_unacked_replicas_are_hinted(
    collection: Seq<char>,
    shard_idx: u32,
    record: RecordView,
    replicas: Seq<(u64, Seq<char>)>,
    replies: Seq<bool>,
    h: HintView,
) -> (i: int)
    requires
        hints_due(collection, shard_idx, record, replicas, replies).contains(h),
    ensures
        0 <= i < replies.len(),
        !replies[i],
        h.target_node == replicas[i].0,
        h.collection == collection,
        h.shard_idx == shard_idx,
        h.record == record,
        hints_due(collection, shard_idx, record, replicas, replies).len() == replies.len() - acks_in(replies),
    decreases replies.len(),
{
    let n = replies.len() - 1;
    let all = hints_due(collection, shard_idx, record, replicas, replies);
    let rest = hints_due(collection, shard_idx, record, replicas, replies.drop_last());
    crate::router::hints_and_acks(collection, shard_idx, record, replicas, replies);
    if rest.contains(h) {
        let i = only_unacked_replicas_are_hinted(
            collection,
            shard_idx,
            record,
            replicas,
            replies.drop_last(),
            h,
        );
        assert(replies.drop_last()[i] == replies[i]);
        i
    } else {
        let j = all.index_of(h);
        assert(all[j] == h);
        if j < rest.len() {
            assert(rest[j] == h);
        }
        n
    }
}

/// `a` was stamped before `b`: at an earlier wall-clock time, or at the same with a lower
/// counter.
pub open spec fn stamped_before(a: Hlc, b: Hlc) -> bool {
    a.wall_ms < b.wall_ms || (a.wall_ms == b.wall_ms && a.counter < b.counter)
}

/// The winner of a read is the last of the answers that carry the newest stamp: no answer
/// is newer, and each that comes after it is older.
pub proof fn last_of_the_newest_wins(answers: Seq<AnswerView>) -> (i: int)
    requires
        exists|j: int| 0 <= j < answers.len() && (#[trigger] answers[j]).point is Some,
    ensures
        0 <= i < answers.len(),
        answers[i].point is Some,
        newest(answers) == answers[i].point,
        forall|j: int|
            0 <= j < answers.len() && (#[trigger] answers[j]).point is Some ==> !stamped_before(
                answers[i].point.unwrap().hlc,
                answers[j].point.unwrap().hlc,
            ),
        forall|j: int|
            i < j < answers.len() && (#[trigger] answers[j]).point is Some ==> stamped_before(
                answers[j].point.unwrap().hlc,
                answers[i].point.unwrap().hlc,
            ),
    decreases answers.len(),
{
    let d = answers.drop_last();
    let n = answers.len() - 1;
    assert(forall|j: int| 0 <= j < n ==> d[j] == answers[j]);
    if exists|j: int| 0 <= j < d.len() && (#[trigger] d[j]).point is Some {
        let i = last_of_the_newest_wins(d);
        if answers[n].point is Some && !stamped_before(answers[n].point.unwrap().hlc, d[i].point.unwrap().hlc) {
            assert forall|j: int| 0 <= j < answers.len() && (#[trigger] answers[j]).point is Some implies !stamped_before(
                answers[n].point.unwrap().hlc,
                answers[j].point.unwrap().hlc,
            ) by {
                if j < n {
                    assert(d[j].point is Some);
                }
            }
            n
        } else {
            assert forall|j: int| 0 <= j < answers.len() && (#[trigger] answers[j]).point is Some implies !stamped_before(
                answers[i].point.unwrap().hlc,
                answers[j].point.unwrap().hlc,
            ) by {
                if j < n {
                    assert(d[j].point is Some);
                }
            }
            assert forall|j: int| i < j < answers.len() && (#[trigger] answers[j]).point is Some implies stamped_before(
                answers[j].point.unwrap().hlc,
                answers[i].point.unwrap().hlc,
            ) by {
                if j < n {
                    assert(d[j].point is Some);
                }
            }
            i
        }
    } else {
        assert(newest(d) is None) by {
            crate::router::winner_is_newest(d);
        }
        let j = choose|j: int| 0 <= j < answers.len() && (#[trigger] answers[j]).point is Some;
        assert(j == n) by {
            if j < n {
                assert(d[j].point is Some);
            }
        }
        assert forall|j: int| 0 <= j < answers.len() && (#[trigger] answers[j]).point is Some implies j == n by {
            if j < n {
                assert(d[j].point is Some);
            }
        }
        n
    }
}

/// A read has no winner only where no replica holds the point.
pub proof fn no_winner_without_a_version(answers: Seq<AnswerView>)
    ensures
        newest(answers) is None <==> forall|j: int|
            0 <= j < answers.len() ==> (#[trigger] answers[j]).point is None,
{
    crate::router::winner_is_newest(answers);
}

/// What a batch of reads finds are the winners that are not tombstones: each value found
/// is such a winner's, and each such winner's value is found.
pub proof fn only_live_winners_are_found(answers: Seq<Seq<AnswerView>>, v: (u64, Seq<u32>))
    ensures
        live_winners(answers).contains(v) <==> exists|i: int|
            0 <= i < answers.len() && (#[trigger] newest(answers[i])) is Some && !newest(
                answers[i],
            ).unwrap().tombstone && newest(answers[i]).unwrap().id == v.0 && newest(
                answers[i],
            ).unwrap().vector == v.1,
    decreases answers.len(),
{
    if answers.len() > 0 {
        let d = answers.drop_last();
        let n = answers.len() - 1;
        only_live_winners_are_found(d, v);
        let rest = live_winners(d);
        let all = live_winners(answers);
        let own = live(newest(answers[n]));
        assert(answers.last() == answers[n]);
        assert(all == rest + own);
        if all.contains(v) {
            let j = all.index_of(v);
            if j < rest.len() {
                assert(rest[j] == v);
                assert(rest.contains(v));
                let i = choose|i: int|
                    0 <= i < d.len() && (#[trigger] newest(d[i])) is Some && !newest(d[i]).unwrap().tombstone
                        && newest(d[i]).unwrap().id == v.0 && newest(d[i]).unwrap().vector == v.1;
                assert(d[i] == answers[i]);
            } else {
                assert(own[j - rest.len()] == v);
            }
        }
        if exists|i: int|
            0 <= i < answers.len() && (#[trigger] newest(answers[i])) is Some && !newest(
                answers[i],
            ).unwrap().tombstone && newest(answers[i]).unwrap().id == v.0 && newest(answers[i]).unwrap().vector
                == v.1 {
            let i = choose|i: int|
                0 <= i < answers.len() && (#[trigger] newest(answers[i])) is Some && !newest(
                    answers[i],
                ).unwrap().tombstone && newest(answers[i]).unwrap().id == v.0 && newest(answers[i]).unwrap().vector
                    == v.1;
            if i < n {
                assert(d[i] == answers[i]);
                assert(rest.contains(v));
                assert(all[rest.index_of(v)] == v);
            } else {
                assert(own[0] == v);
                assert(all[rest.len() as int] == v);
            }
        }
    }
}

/// The read of a point goes through exactly where one of the nodes that its shard is
/// placed on is Active and enough of the Active ones answered: one, more than half, or
/// all of them.
pub proof fn read_needs_enough_active_answers(
    s: MetaView,
    collection: Seq<char>,
    consistency: Consistency,
    id: u64,
    got: nat,
    ids: Seq<u64>,
)
    requires
        placed_at(s, collection, read_shard(s, collection, id), ids),
    ensures
        ({
            let shard = read_shard(s, collection, id);
            let n = ids.filter(|node: u64| stands_active(s, collection, shard, node)).len();
            let enough = match consistency {
                Consistency::One => got >= 1,
                Consistency::Quorum => 2 * got > n,
                Consistency::All => got >= n,
            };
            &&& get_stops(s, collection, consistency, id, got) is None <==> n > 0 && enough
            &&& n == 0 <==> get_stops(s, collection, consistency, id, got) == Some(GetEnd::NoReplica { shard })
            &&& get_stops(s, collection, consistency, id, got) matches Some(
                GetEnd::ReadQuorum { shard: at, needed, got: had },
            ) ==> at == shard && had == got && meets(consistency, n, needed)
        }),
{
    read_goes_to_active_placed_nodes(s, collection, read_shard(s, collection, id), ids);
}

/// Only a hint that was not pushed is kept after a replay, and a replay in which none was
/// pushed keeps all of them, in order.
pub proof fn only_unpushed_hints_are_kept(hints: Seq<HintView>, pushed: Seq<bool>, h: HintView) -> (i: int)
    requires
        unpushed(hints, pushed).contains(h),
        pushed.len() <= hints.len(),
    ensures
        0 <= i < pushed.len(),
        !pushed[i],
        hints[i] == h,
    decreases pushed.len(),
{
    let n = pushed.len() - 1;
    let all = unpushed(hints, pushed);
    let rest = unpushed(hints, pushed.drop_last());
    if rest.contains(h) {
        let i = only_unpushed_hints_are_kept(hints, pushed.drop_last(), h);
        assert(pushed.drop_last()[i] == pushed[i]);
        i
    } else {
        let j = all.index_of(h);
        assert(all[j] == h);
        if j < rest.len() {
            assert(rest[j] == h);
        }
        n
    }
}

/// A replay in which no hint was pushed keeps all of them as they were, and one in which
/// all were pushed keeps none.
pub proof fn replay_keeps_all_or_none(hints: Seq<HintView>, pushed: Seq<bool>)
    requires
        pushed.len() <= hints.len(),
    ensures
        (forall|j: int| 0 <= j < pushed.len() ==> !#[trigger] pushed[j]) ==> unpushed(hints, pushed)
            == hints.take(pushed.len() as int),
        (forall|j: int| 0 <= j < pushed.len() ==> #[trigger] pushed[j]) ==> unpushed(hints, pushed).len() == 0,
        unpushed(hints, pushed).len() + acks_in(pushed) == pushed.len(),
    decreases pushed.len(),
{
    if pushed.len() > 0 {
        let d = pushed.drop_last();
        replay_keeps_all_or_none(hints, d);
        assert(forall|j: int| 0 <= j < d.len() ==> d[j] == pushed[j]);
        assert(pushed[pushed.len() - 1] == pushed.last());
        assert(hints.take(pushed.len() as int) =~= hints.take(d.len() as int).push(hints[d.len() as int]));
    } else {
        assert(hints.take(0) =~= Seq::empty());
    }
}

/// The hints of one target are those, of all, that name it: no other is among them and
/// none of them is missing.
pub proof fn hints_of_one_target(hints: Seq<HintView>, target: u64, h: HintView)
    ensures
        meant_for(hints, target).contains(h) <==> hints.contains(h) && h.target_node == target,
    decreases hints.len(),
{
    reveal(Seq::filter);
    if hints.len() > 0 {
        let rest = hints.drop_last();
        let last = hints[hints.len() - 1];
        hints_of_one_target(rest, target, h);
        let f = meant_for(rest, target);
        let all = meant_for(hints, target);
        assert(hints.contains(h) <==> rest.contains(h) || h == last) by {
            if rest.contains(h) {
                assert(hints[rest.index_of(h)] == h);
            }
            if hints.contains(h) && h != last {
                assert(rest[hints.index_of(h)] == h);
            }
        }
        if last.target_node == target {
            assert(all == f.push(last));
            if f.contains(h) {
                assert(all[f.index_of(h)] == h);
            }
            if h == last {
                assert(all[f.len() as int] == h);
            }
            if all.contains(h) && h != last {
                assert(f[all.index_of(h)] == h);
            }
        } else {
            assert(all == f);
        }
    }
}

/// What a repair stores is the winner: its stamp and id, and its vector and payload
/// unless it is a tombstone, which is stored as one.
pub proof fn repair_stores_the_winner(winner: StoredView)
    ensures
        repair_of(winner).hlc == winner.hlc,
        repair_of(winner).id == winner.id,
        winner.tombstone <==> repair_of(winner).op == WalOp::Delete,
        !winner.tombstone ==> repair_of(winner).vector == winner.vector && repair_of(winner).payload
            == winner.payload,
{
}

/// What a replica takes in is what was sent: a delete where the operation says so and an
/// upsert of the vector otherwise, under the stamp that the number stands for.
pub proof fn write_is_taken_in_as_sent(w: ReplicaWrite)
    ensures
        received(w).id == w.id,
        received(w).hlc.wall_ms * 65536 + received(w).hlc.counter == w.hlc,
        w.op == 1 <==> received(w).op == WalOp::Delete,
        w.op != 1 ==> received(w).vector == w.vector@ && received(w).payload == w.payload@,
{
}

/// Where a shard can be pulled from: exactly the addresses of the nodes that it is placed
/// on, other than this one, that hold it as Active, in the order of the placement.
pub proof fn shard_is_pulled_from_active_peers(
    s: MetaView,
    me: u64,
    collection: Seq<char>,
    shard_idx: u32,
    ids: Seq<u64>,
)
    requires
        placed_at(s, collection, shard_idx, ids),
    ensures
        sources_for(s, me, collection, shard_idx) == ids.filter(
            |id: u64| id != me && stands_active(s, collection, shard_idx, id),
        ).map_values(|id: u64| s.nodes[id]),
        forall|addr: Seq<char>| #[trigger]
            sources_for(s, me, collection, shard_idx).contains(addr) <==> exists|node: u64|
                ids.contains(node) && node != me && #[trigger] stands_active(s, collection, shard_idx, node) && addr
                    == s.nodes[node],
{
    placement_is_of_members(s, collection, shard_idx, ids);
    active_peers(s, me, collection, shard_idx, ids);
    let keep = |id: u64| id != me && stands_active(s, collection, shard_idx, id);
    let kept = ids.filter(keep);
    let all = sources_for(s, me, collection, shard_idx);
    assert forall|addr: Seq<char>| #[trigger] all.contains(addr) <==> exists|node: u64|
        ids.contains(node) && node != me && #[trigger] stands_active(s, collection, shard_idx, node) && addr
            == s.nodes[node] by {
        if all.contains(addr) {
            let i = all.index_of(addr);
            assert(kept.contains(kept[i]));
            filter_is_exact(ids, keep, kept[i]);
            assert(stands_active(s, collection, shard_idx, kept[i]));
        }
        if exists|node: u64|
            ids.contains(node) && node != me && #[trigger] stands_active(s, collection, shard_idx, node) && addr
                == s.nodes[node] {
            let node = choose|node: u64|
                ids.contains(node) && node != me && #[trigger] stands_active(s, collection, shard_idx, node) && addr
                    == s.nodes[node];
            filter_is_exact(ids, keep, node);
            assert(kept[kept.index_of(node)] == node);
            assert(all[kept.index_of(node)] == addr);
        }
    }
}

proof fn active_peers(s: MetaView, me: u64, collection: Seq<char>, shard_idx: u32, ids: Seq<u64>)
    requires
        forall|i: int| 0 <= i < ids.len() ==> s.nodes.contains_key(#[trigger] ids[i]),
    ensures
        addresses(s, active_of(s, collection, shard_idx, others(ids, me))) == ids.filter(
            |id: u64| id != me && stands_active(s, collection, shard_idx, id),
        ).map_values(|id: u64| s.nodes[id]),
    decreases ids.len(),
{
    let keep = |id: u64| id != me && stands_active(s, collection, shard_idx, id);
    let addr = |id: u64| s.nodes[id];
    reveal(Seq::filter);
    if ids.len() == 0 {
        assert(others(ids, me) =~= Seq::empty());
        assert(addresses(s, active_of(s, collection, shard_idx, others(ids, me))) =~= ids.filter(keep).map_values(
            addr,
        ));
    } else {
        let rest = ids.drop_last();
        assert forall|i: int| 0 <= i < rest.len() implies s.nodes.contains_key(#[trigger] rest[i]) by {
            assert(rest[i] == ids[i]);
        }
        active_peers(s, me, collection, shard_idx, rest);
        let last = ids[ids.len() - 1];
        assert(s.nodes.contains_key(last));
        let peers = others(rest, me);
        let before = active_of(s, collection, shard_idx, peers);
        if last != me {
            assert(others(ids, me) =~= peers.push(last));
            assert(peers.push(last).drop_last() =~= peers);
            if keep(last) {
                assert(before.push(last).drop_last() =~= before);
                assert(ids.filter(keep).map_values(addr) =~= rest.filter(keep).map_values(addr).push(addr(last)));
            }
        } else {
            assert(others(ids, me) =~= peers);
        }
    }
}

/// An acquisition tries the sources one after the other: after a commit as Syncing and
/// `n` failed pulls the next source is tried, and there is none after the last one.
pub proof fn sources_are_tried_in_turn(sources: nat, n: nat)
    requires
        0 < sources <= usize::MAX,
        n <= sources,
    ensures
        ({
            let oks = seq![true] + Seq::new(n, |i: int| false);
            let at = acquire_after(Acquire::MarkSyncing, oks, sources);
            &&& n < sources ==> (at matches Acquire::Pull { source } && source == n)
            &&& n == sources ==> at == (Acquire::Done { pulled: false })
        }),
    decreases n,
{
    let oks = seq![true] + Seq::new(n, |i: int| false);
    if n == 0 {
        assert(oks.drop_last() =~= Seq::empty());
        assert(acquire_after(Acquire::MarkSyncing, oks.drop_last(), sources) == Acquire::MarkSyncing);
    } else {
        sources_are_tried_in_turn(sources, (n - 1) as nat);
        assert(oks.drop_last() =~= seq![true] + Seq::new((n - 1) as nat, |i: int| false));
        assert(!oks.last());
    }
}

/// The first source that yields the data ends the pulling: the replica is committed as
/// Active next, and the transfer is complete exactly where that commit succeeds.
pub proof fn first_good_source_ends_the_pull(sources: nat, n: nat, committed: bool)
    requires
        0 < sources <= usize::MAX,
        n < sources,
    ensures
        ({
            let oks = (seq![true] + Seq::new(n, |i: int| false)).push(true);
            &&& acquire_after(Acquire::MarkSyncing, oks, sources) == (Acquire::MarkActive { pulled: true })
            &&& acquire_after(Acquire::MarkSyncing, oks.push(committed), sources) == (Acquire::Done {
                pulled: committed,
            })
        }),
{
    let head = seq![true] + Seq::new(n, |i: int| false);
    let oks = head.push(true);
    sources_are_tried_in_turn(sources, n);
    assert(oks.drop_last() =~= head);
    assert(oks.push(committed).drop_last() =~= oks);
}

/// A replica whose commit as Syncing fails pulls nothing and is not made Active; one
/// without a peer is made Active without a transfer, whatever comes of it.
pub proof fn acquisition_without_a_pull(sources: nat, opened: bool, committed: bool)
    ensures
        acquire_after(Acquire::MarkSyncing, seq![false], sources) == (Acquire::Done { pulled: false }),
        acquire_after(Acquire::OpenEmpty, seq![opened], sources) == (Acquire::MarkActive { pulled: false }),
        acquire_after(Acquire::OpenEmpty, seq![opened, committed], sources) == (Acquire::Done {
            pulled: false,
        }),
{
    assert(seq![false].drop_last() =~= Seq::empty());
    assert(seq![opened].drop_last() =~= Seq::empty());
    assert(seq![opened, committed].drop_last() =~= seq![opened]);
    assert(acquire_after(Acquire::OpenEmpty, Seq::empty(), sources) == Acquire::OpenEmpty);
    assert(acquire_after(Acquire::MarkSyncing, Seq::empty(), sources) == Acquire::MarkSyncing);
}

/// An acquisition that is over stays over, with the outcome it had.
pub proof fn acquisition_stays_over(pulled: bool, ok: bool, sources: nat)
    ensures
        acquire_next(Acquire::Done { pulled }, ok, sources) == (Acquire::Done { pulled }),
{
}

/// An endpoint names a scheme and ends in the address; an address that names one already
/// stays as it is, so making an endpoint twice is making it once.
pub proof fn endpoint_names_a_scheme(addr: Seq<char>)
    ensures
        "http://"@.is_prefix_of(endpoint(addr)) || "https://"@.is_prefix_of(endpoint(addr)),
        endpoint(addr) == addr <==> "http://"@.is_prefix_of(addr) || "https://"@.is_prefix_of(addr),
        endpoint(addr) != addr ==> endpoint(addr) == "http://"@ + addr,
        endpoint(endpoint(addr)) == endpoint(addr),
{
    reveal_strlit("http://");
    reveal_strlit("https://");
    let full = "http://"@ + addr;
    assert(full.take(7) =~= "http://"@);
    assert("http://"@ =~= full.subrange(0, 7));
    assert("http://"@.is_prefix_of(full));
    assert(full.len() == addr.len() + 7);
    if "http://"@.len() <= addr.len() {
        assert(addr.take(7) =~= addr.subrange(0, 7));
    }
    if "https://"@.len() <= addr.len() {
        assert(addr.take(8) =~= addr.subrange(0, 8));
    }
}

/// A tombstone is pushed as a delete and a value as an upsert.
pub proof fn repair_carries_what_won(tombstone: bool)
    ensures
        tombstone ==> op_code(tombstone) == 1,
        !tombstone ==> op_code(tombstone) == 0,
{
}

/// A node that a shard is placed on acquires it exactly where it is not done: where it
/// is not Active, or does not hold the shard, or holds it empty. Otherwise it keeps it.
pub proof fn placed_node_acquires_until_done(
    s: MetaView,
    me: u64,
    collection: Seq<char>,
    shard_idx: u32,
    hold: bool,
    nonempty: bool,
    ids: Seq<u64>,
)
    requires
        placed_at(s, collection, shard_idx, ids),
        ids.contains(me),
    ensures
        !stands_active(s, collection, shard_idx, me) || !hold || !nonempty ==> action_for(
            s,
            me,
            collection,
            shard_idx,
            hold,
            nonempty,
        ) == ShardAction::Acquire,
        stands_active(s, collection, shard_idx, me) && hold && nonempty ==> action_for(
            s,
            me,
            collection,
            shard_idx,
            hold,
            nonempty,
        ) == ShardAction::Keep,
{
    placement_is_of_members(s, collection, shard_idx, ids);
}

/// A node that a shard is not placed on never acquires it. It drops its copy exactly
/// where every node that the shard is placed on is Active, and there is one; else it
/// keeps what it has.
pub proof fn unplaced_node_drops_when_safe(
    s: MetaView,
    me: u64,
    collection: Seq<char>,
    shard_idx: u32,
    hold: bool,
    nonempty: bool,
    ids: Seq<u64>,
)
    requires
        placed_at(s, collection, shard_idx, ids),
        !ids.contains(me),
    ensures
        hold && ids.len() > 0 && (forall|i: int|
            0 <= i < ids.len() ==> stands_active(s, collection, shard_idx, #[trigger] ids[i])) ==> action_for(
            s,
            me,
            collection,
            shard_idx,
            hold,
            nonempty,
        ) == ShardAction::Drop,
        !hold || ids.len() == 0 || (exists|i: int|
            0 <= i < ids.len() && !stands_active(s, collection, shard_idx, #[trigger] ids[i])) ==> action_for(
            s,
            me,
            collection,
            shard_idx,
            hold,
            nonempty,
        ) == ShardAction::Keep,
{
    placement_is_of_members(s, collection, shard_idx, ids);
    if forall|i: int| 0 <= i < ids.len() ==> stands_active(s, collection, shard_idx, #[trigger] ids[i]) {
        assert forall|i: int| 0 <= i < ids.len() implies state_of(s, collection, shard_idx, #[trigger] ids[i])
            == ShardState::Active by {
            assert(stands_active(s, collection, shard_idx, ids[i]));
        }
    }
}

/// No pass keeps or drops a desired replica that is Syncing or Dead, and none drops a
/// desired replica at all.
pub proof fn syncing_replica_is_not_kept(
    s: MetaView,
    me: u64,
    collection: Seq<char>,
    shard_idx: u32,
    hold: bool,
    nonempty: bool,
    ids: Seq<u64>,
)
    requires
        placed_at(s, collection, shard_idx, ids),
        ids.contains(me),
    ensures
        action_for(s, me, collection, shard_idx, hold, nonempty) != ShardAction::Drop,
        s.shard_states.contains_key((collection, shard_idx, me)) && s.shard_states[(
            collection,
            shard_idx,
            me,
        )] != ShardState::Active ==> action_for(s, me, collection, shard_idx, hold, nonempty)
            == ShardAction::Acquire,
{
    placement_is_of_members(s, collection, shard_idx, ids);
}

/// A copy of a shard of a collection that does not exist is kept.
pub proof fn unknown_collection_is_kept(
    s: MetaView,
    me: u64,
    collection: Seq<char>,
    shard_idx: u32,
    hold: bool,
    nonempty: bool,
)
    requires
        !s.collections.contains_key(collection),
    ensures
        action_for(s, me, collection, shard_idx, hold, nonempty) == ShardAction::Keep,
{
}

/// Creating a collection whose name is taken leaves the whole metadata as it was,
/// whatever schema it is asked for with.
pub proof fn create_never_overwrites(s: MetaView, name: String, schema: CollectionSchema)
    requires
        s.collections.contains_key(name@),
    ensures
        applied(s, MetaRequest::CreateCollection { name, schema }) == s,
        note_of(s, MetaRequest::CreateCollection { name, schema }) == "exists"@,
{
}

/// Of two creations of one name the first decides the schema, whatever either asks for.
pub proof fn first_creation_wins(
    s: MetaView,
    name: String,
    first: CollectionSchema,
    second: CollectionSchema,
)
    requires
        !s.collections.contains_key(name@),
    ensures
        ({
            let a = MetaRequest::CreateCollection { name, schema: first };
            let b = MetaRequest::CreateCollection { name, schema: second };
            let t = applied(applied(s, a), b);
            &&& t == applied(s, a)
            &&& t.collections.contains_key(name@)
            &&& t.collections[name@] == first
            &&& note_of(s, a) == "created"@
            &&& note_of(applied(s, a), b) == "exists"@
        }),
{
}

/// Creating a new collection adds it under its schema, and changes nothing else.
pub proof fn create_adds_one_collection(s: MetaView, name: String, schema: CollectionSchema, other: Seq<char>)
    requires
        !s.collections.contains_key(name@),
    ensures
        ({
            let t = applied(s, MetaRequest::CreateCollection { name, schema });
            &&& t.collections.contains_key(name@)
            &&& t.collections[name@] == schema
            &&& t.nodes == s.nodes
            &&& t.shard_states == s.shard_states
            &&& other != name@ ==> (t.collections.contains_key(other) <==> s.collections.contains_key(other))
            &&& other != name@ && s.collections.contains_key(other) ==> t.collections[other]
                == s.collections[other]
        }),
{
}

/// Dropping a collection takes it out with every state on record for its replicas, and
/// leaves nodes, other collections and the states of their replicas alone.
pub proof fn drop_takes_one_collection(s: MetaView, name: String, other: Seq<char>, k: ReplicaKey)
    ensures
        ({
            let t = applied(s, MetaRequest::DropCollection { name });
            &&& !t.collections.contains_key(name@)
            &&& t.nodes == s.nodes
            &&& other != name@ ==> (t.collections.contains_key(other) <==> s.collections.contains_key(other))
            &&& other != name@ && s.collections.contains_key(other) ==> t.collections[other]
                == s.collections[other]
            &&& k.0 == name@ ==> !t.shard_states.contains_key(k)
            &&& k.0 != name@ ==> (t.shard_states.contains_key(k) <==> s.shard_states.contains_key(k))
            &&& k.0 != name@ && s.shard_states.contains_key(k) ==> t.shard_states[k] == s.shard_states[k]
        }),
        s.collections.contains_key(name@) ==> note_of(s, MetaRequest::DropCollection { name }) == "dropped"@,
        !s.collections.contains_key(name@) ==> note_of(s, MetaRequest::DropCollection { name }) == "absent"@,
{
}

/// Registering a node puts it under the address given, in place of an earlier one, and
/// changes nothing else.
pub proof fn register_sets_one_address(s: MetaView, node_id: u64, advertise_addr: String, other: u64)
    ensures
        ({
            let t = applied(s, MetaRequest::RegisterNode { node_id, advertise_addr });
            &&& t.nodes.contains_key(node_id)
            &&& t.nodes[node_id] == advertise_addr@
            &&& t.collections == s.collections
            &&& t.shard_states == s.shard_states
            &&& other != node_id ==> (t.nodes.contains_key(other) <==> s.nodes.contains_key(other))
            &&& other != node_id && s.nodes.contains_key(other) ==> t.nodes[other] == s.nodes[other]
        }),
        note_of(s, MetaRequest::RegisterNode { node_id, advertise_addr }) == "registered"@,
{
}

/// Deregistering a node takes it out with every state on record for its replicas, and
/// leaves collections, other nodes and their replicas' states alone.
pub proof fn deregister_takes_one_node(s: MetaView, node_id: u64, other: u64, k: ReplicaKey)
    ensures
        ({
            let t = applied(s, MetaRequest::DeregisterNode { node_id });
            &&& !t.nodes.contains_key(node_id)
            &&& t.collections == s.collections
            &&& other != node_id ==> (t.nodes.contains_key(other) <==> s.nodes.contains_key(other))
            &&& other != node_id && s.nodes.contains_key(other) ==> t.nodes[other] == s.nodes[other]
            &&& k.2 == node_id ==> !t.shard_states.contains_key(k)
            &&& k.2 != node_id ==> (t.shard_states.contains_key(k) <==> s.shard_states.contains_key(k))
            &&& k.2 != node_id && s.shard_states.contains_key(k) ==> t.shard_states[k] == s.shard_states[k]
        }),
        note_of(s, MetaRequest::DeregisterNode { node_id }) == "deregistered"@,
{
}

/// Setting a replica's state puts it on record, or takes the record out where the state
/// is Active, and leaves nodes, collections and every other replica alone. Neither the
/// collection nor the node need be known.
pub proof fn state_is_set_for_one_replica(
    s: MetaView,
    collection: String,
    shard_idx: u32,
    node_id: u64,
    state: ShardState,
    k: ReplicaKey,
)
    ensures
        ({
            let t = applied(s, MetaRequest::SetShardState { collection, shard_idx, node_id, state });
            let key = (collection@, shard_idx, node_id);
            &&& t.nodes == s.nodes
            &&& t.collections == s.collections
            &&& state == ShardState::Active <==> !t.shard_states.contains_key(key)
            &&& state != ShardState::Active ==> t.shard_states[key] == state
            &&& k != key ==> (t.shard_states.contains_key(k) <==> s.shard_states.contains_key(k))
            &&& k != key && s.shard_states.contains_key(k) ==> t.shard_states[k] == s.shard_states[k]
        }),
        note_of(s, MetaRequest::SetShardState { collection, shard_idx, node_id, state })
            == "shard-state-set"@,
{
}

/// A barrier changes nothing.
pub proof fn noop_changes_nothing(s: MetaView)
    ensures
        applied(s, MetaRequest::Noop) == s,
        note_of(s, MetaRequest::Noop) == "noop"@,
{
}

/// A replica's state is the one on record, and Active where none is.
pub proof fn state_is_what_was_recorded(s: MetaView, collection: Seq<char>, shard_idx: u32, node: u64)
    ensures
        s.shard_states.contains_key((collection, shard_idx, node)) ==> state_of(s, collection, shard_idx, node)
            == s.shard_states[(collection, shard_idx, node)],
        !s.shard_states.contains_key((collection, shard_idx, node)) ==> state_of(
            s,
            collection,
            shard_idx,
            node,
        ) == ShardState::Active,
{
}

/// A row of the shard map: a replica of a shard of the collection and its state on record.
pub open spec fn row_of(s: MetaView, collection: Seq<char>, shard_idx: u32, node_id: u64) -> AssignmentView {
    AssignmentView {
        collection,
        shard_idx,
        node_id,
        state: if s.shard_states.contains_key((collection, shard_idx, node_id)) {
            s.shard_states[(collection, shard_idx, node_id)]
        } else {
            ShardState::Active
        },
    }
}

proof fn collection_lists_every_replica(s: MetaView, name: Seq<char>, n: nat, row: AssignmentView)
    requires
        s.collections.contains_key(name),
        s.nodes.dom().finite(),
        n <= u32::MAX,
    ensures
        collection_rows(s, name, n).contains(row) <==> row.shard_idx < n && replicas_of(
            s,
            name,
            row.shard_idx,
        ).contains(row.node_id) && row == row_of(s, name, row.shard_idx, row.node_id),
    decreases n,
{
    if n > 0 {
        let m = (n - 1) as nat;
        collection_lists_every_replica(s, name, m, row);
        let (a, b) = (collection_rows(s, name, m), shard_rows(s, name, m as u32));
        let all = collection_rows(s, name, n);
        let ids = replicas_of(s, name, m as u32);
        assert(all == a + b);
        if all.contains(row) {
            let j = all.index_of(row);
            if j < a.len() {
                assert(a[j] == row);
                assert(a.contains(row));
            } else {
                assert(b[j - a.len()] == row);
                assert(ids[j - a.len()] == row.node_id);
                assert(ids.contains(row.node_id));
            }
        }
        if row.shard_idx < n && replicas_of(s, name, row.shard_idx).contains(row.node_id) && row == row_of(
            s,
            name,
            row.shard_idx,
            row.node_id,
        ) {
            if row.shard_idx < m {
                assert(all[a.index_of(row)] == row);
            } else {
                let j = ids.index_of(row.node_id);
                assert(b[j] == row);
                assert(all[a.len() + j] == row);
            }
        }
    }
}

/// The shard map lists every replica of every shard of every collection, with its state
/// on record, Active where there is none; and nothing else.
pub proof fn shard_map_lists_every_replica(s: MetaView, names: Seq<Seq<char>>, row: AssignmentView, ids: Seq<u64>)
    requires
        s.nodes.dom().finite(),
        forall|i: int| 0 <= i < names.len() ==> s.collections.contains_key(#[trigger] names[i]),
        s.collections.contains_key(row.collection),
        placed_at(s, row.collection, row.shard_idx, ids),
    ensures
        map_rows(s, names).contains(row) <==> names.contains(row.collection) && row.shard_idx
            < s.collections[row.collection].shard_count && ids.contains(row.node_id) && row == row_of(
            s,
            row.collection,
            row.shard_idx,
            row.node_id,
        ),
    decreases names.len(),
{
    placement_is_of_members(s, row.collection, row.shard_idx, ids);
    if names.len() > 0 {
        let d = names.drop_last();
        let last = names[names.len() - 1];
        assert(forall|i: int| 0 <= i < d.len() ==> d[i] == names[i]);
        shard_map_lists_every_replica(s, d, row, ids);
        let n = s.collections[last].shard_count as nat;
        assert(s.collections.contains_key(last));
        collection_lists_every_replica(s, last, n, row);
        let (a, b) = (map_rows(s, d), collection_rows(s, last, n));
        let all = map_rows(s, names);
        assert(all == a + b);
        assert(names.contains(row.collection) <==> d.contains(row.collection) || row.collection == last) by {
            if d.contains(row.collection) {
                assert(names[d.index_of(row.collection)] == row.collection);
            }
            if names.contains(row.collection) && row.collection != last {
                assert(d[names.index_of(row.collection)] == row.collection);
            }
        }
        if all.contains(row) {
            let j = all.index_of(row);
            if j < a.len() {
                assert(a[j] == row);
                assert(a.contains(row));
            } else {
                assert(b[j - a.len()] == row);
                assert(b.contains(row));
            }
        }
        if a.contains(row) {
            assert(all[a.index_of(row)] == row);
        }
        if b.contains(row) {
            assert(all[a.len() + b.index_of(row)] == row);
        }
    }
}

/// The index of a shard measures with the metric that its collection was created with.
pub proof fn index_measures_as_the_collection(m: crate::meta::Metric)
    ensures
        m == crate::meta::Metric::L2 <==> index_metric(m) == crate::distance::Metric::L2,
        m == crate::meta::Metric::Cosine <==> index_metric(m) == crate::distance::Metric::Cosine,
{
}

} // verus!
