//! Builds are deterministic: what an index is after the same operations, and what a
//! search returns, is determined, bit for bit.

use vstd::prelude::*;

use crate::distance::Metric;
use crate::hnsw::{HnswIndex, DEFAULT_SEED};
use crate::shard::{Shard, ShardError};
use crate::snapshot::Snapshot;
use crate::wal::WalOp;

verus! {

use crate::beam::layer_search_is_determined;
use crate::frame::intact_body;
use crate::graph::{layer_found, links, nearness, same_nodes, settled, NodeView};
use crate::hlc::order_is_total;
use crate::hnsw::{
    added_at, bare, breadth_of, count_live, descended, entry_at, first_k, inserted, joined,
    level_is_unique, live_results, mixed, next_state, same_settings, searched, tombstoned, unit_of,
    upserted, HnswParams,
};
use crate::index::VectorIndex;
use crate::shard::{
    beyond_is_tail, empty_shard, frames_len, frames_len_is_bytes, lww_all, misfit, replay_in_two,
    replay_of_accepted, replay_tail, replayed_all, room, snapshot_view, stale, start_dim, start_ids,
    start_of, starts_from, upsert_ids, upsert_ids_in_two, ShardView,
};
use crate::wal::{recovery_returns_appended, wal_bytes, RecordView};

/// The two indexes are the same: settings, graph, tombstones, ids, entry point and the
/// state of the level generator.
pub open spec fn same_index<D: Fn(Metric, &[u32], &[u32]) -> u32>(a: HnswIndex<D>, b: HnswIndex<D>) -> bool {
    &&& same_settings(a, b)
    &&& a.graph() == b.graph()
    &&& a.deleted@ == b.deleted@
    &&& a.id_to_node@ == b.id_to_node@
    &&& a.rng.state == b.rng.state
    &&& a.entry_point == b.entry_point
}

/// A greedy descent ends at one node.
pub proof fn descent_is_determined(
    g: Seq<NodeView>,
    near: spec_fn(u32) -> u32,
    e: u32,
    top: int,
    stop: int,
    r: u32,
    s: u32,
)
    requires
        descended(g, near, e, top, stop, r),
        descended(g, near, e, top, stop, s),
    ensures
        r == s,
    decreases top - stop,
{
    if stop < top {
        let next = stop + 1;
        let m = choose|m: u32|
            descended(g, near, e, top, next, m) && #[trigger] settled(g, next, near, m, r);
        let n = choose|n: u32|
            descended(g, near, e, top, next, n) && #[trigger] settled(g, next, near, n, s);
        assert(descended(g, near, e, top, next, m) && settled(g, next, near, m, r));
        assert(descended(g, near, e, top, next, n) && settled(g, next, near, n, s));
        descent_is_determined(g, near, e, top, next, m, n);
    }
}

proof fn live_results_agree<D: Fn(Metric, &[u32], &[u32]) -> u32>(
    a: HnswIndex<D>,
    b: HnswIndex<D>,
    q: Seq<u32>,
    found: Seq<(u32, u32)>,
)
    requires
        same_index(a, b),
        forall|i: int| 0 <= i < found.len() ==> (#[trigger] found[i]).1 < a.nodes@.len(),
    ensures
        live_results(a, q, found) == live_results(b, q, found),
    decreases found.len(),
{
    if found.len() > 0 {
        let d = found.drop_last();
        assert forall|i: int| 0 <= i < d.len() implies (#[trigger] d[i]).1 < a.nodes@.len() by {
            assert(d[i] == found[i]);
        }
        live_results_agree(a, b, q, d);
        let v = found[found.len() - 1].1 as int;
        assert(a.graph()[v] == a.nodes@[v]@);
        assert(a.graph().len() == b.graph().len());
        assert(b.graph()[v] == b.nodes@[v]@);
    }
}

/// The same index returns the same results, ids and score bits, for the same query.
pub proof fn search_is_determined<D: Fn(Metric, &[u32], &[u32]) -> u32>(
    a: HnswIndex<D>,
    b: HnswIndex<D>,
    q: Seq<u32>,
    k: nat,
    ef: nat,
    r: Seq<(u64, u32)>,
    s: Seq<(u64, u32)>,
)
    requires
        a.inv(),
        b.inv(),
        same_index(a, b),
        searched(a, q, k, ef, r),
        searched(b, q, k, ef, s),
    ensures
        r == s,
{
    assert(a.live == count_live(a.deleted@) && b.live == count_live(b.deleted@));
    if k == 0 || a.live == 0 {
        assert(r =~= s);
    } else {
        let g = a.graph();
        let near = nearness(a.kernel, a.metric, g, q);
        let e = a.entry_point.unwrap();
        let top = g[e as int].links.len() - 1;
        let (c, f) = choose|c: u32, f: Seq<(u32, u32)>|
            {
                &&& descended(g, near, e, g[e as int].links.len() - 1, 0, c)
                &&& #[trigger] layer_found(g, 0, near, c, breadth_of(k, ef), f)
                &&& r == first_k(live_results(a, q, f), k)
            };
        let (d, h) = choose|d: u32, h: Seq<(u32, u32)>|
            {
                &&& descended(g, near, e, g[e as int].links.len() - 1, 0, d)
                &&& #[trigger] layer_found(g, 0, near, d, breadth_of(k, ef), h)
                &&& s == first_k(live_results(b, q, h), k)
            };
        descent_is_determined(g, near, e, top, 0, c, d);
        layer_search_is_determined(g, 0, near, c, breadth_of(k, ef), f, h);
        live_results_agree(a, b, q, f);
    }
}

proof fn founds_agree<D: Fn(Metric, &[u32], &[u32]) -> u32>(
    d: D,
    m: Metric,
    params: HnswParams,
    base: Seq<NodeView>,
    h: Seq<NodeView>,
    k: Seq<NodeView>,
    curr: u32,
    f: Seq<Seq<(u32, u32)>>,
    e: Seq<Seq<(u32, u32)>>,
    l: int,
)
    requires
        joined(d, m, params, base, h, curr, f),
        joined(d, m, params, base, k, curr, e),
        f.len() == e.len(),
        0 <= l < f.len(),
    ensures
        f[l] == e[l],
    decreases f.len() - l,
{
    let near = nearness(d, m, base, base.last().vector);
    if l < f.len() - 1 {
        founds_agree(d, m, params, base, h, k, curr, f, e, l + 1);
    }
    assert(entry_at(curr, f, l) == entry_at(curr, e, l));
    layer_search_is_determined(
        base,
        l,
        near,
        entry_at(curr, f, l),
        params.ef_construction as nat,
        f[l],
        e[l],
    );
}

proof fn same_links_same_graph(base: Seq<NodeView>, h: Seq<NodeView>, k: Seq<NodeView>)
    requires
        same_nodes(base, h),
        same_nodes(base, k),
        forall|i: int, l: int| 0 <= i < base.len() ==> #[trigger] links(h, i, l) == links(k, i, l),
    ensures
        h == k,
{
    assert forall|i: int| 0 <= i < h.len() implies h[i] == k[i] by {
        assert(h[i].id == base[i].id && k[i].id == base[i].id);
        assert(h[i].links.len() == k[i].links.len());
        assert forall|l: int| 0 <= l < h[i].links.len() implies h[i].links[l] == k[i].links[l] by {
            assert(links(h, i, l) == links(k, i, l));
        }
        assert(h[i] =~= k[i]);
    }
    assert(h =~= k);
}

proof fn insert_is_determined<D: Fn(Metric, &[u32], &[u32]) -> u32>(
    d: D,
    m: Metric,
    params: HnswParams,
    g: Seq<NodeView>,
    entry: Option<u32>,
    node: NodeView,
    h: Seq<NodeView>,
    k: Seq<NodeView>,
)
    requires
        inserted(d, m, params, g, entry, node, h),
        inserted(d, m, params, g, entry, node, k),
    ensures
        h == k,
{
    if let Some(e) = entry {
        let base = g.push(node);
        let level = node.links.len() - 1;
        let near = nearness(d, m, base, node.vector);
        let top = g[e as int].links.len() - 1;
        let start = if level < top {
            level
        } else {
            top
        };
        let (c1, f1) = choose|curr: u32, founds: Seq<Seq<(u32, u32)>>|
            {
                &&& descended(base, near, e, top, level, curr)
                &&& founds.len() == start + 1
                &&& #[trigger] joined(d, m, params, base, h, curr, founds)
            };
        let (c2, f2) = choose|curr: u32, founds: Seq<Seq<(u32, u32)>>|
            {
                &&& descended(base, near, e, top, level, curr)
                &&& founds.len() == start + 1
                &&& #[trigger] joined(d, m, params, base, k, curr, founds)
            };
        descent_is_determined(base, near, e, top, level, c1, c2);
        assert forall|l: int| 0 <= l < f1.len() implies f1[l] == f2[l] by {
            founds_agree(d, m, params, base, h, k, c1, f1, f2, l);
        }
        assert(f1 =~= f2);
        same_links_same_graph(base, h, k);
    }
}

/// Inserting or replacing the same vector in the same index gives the same index.
pub proof fn upsert_is_determined<D: Fn(Metric, &[u32], &[u32]) -> u32>(
    a: HnswIndex<D>,
    b: HnswIndex<D>,
    id: u64,
    vector: Seq<u32>,
    c: HnswIndex<D>,
    d: HnswIndex<D>,
)
    requires
        a.inv(),
        b.inv(),
        same_index(a, b),
        upserted(a, id, vector, c),
        upserted(b, id, vector, d),
    ensures
        same_index(c, d),
{
    assert(a.graph().len() == a.nodes@.len() && b.graph().len() == b.nodes@.len());
    if !a.id_to_node@.contains_key(id) {
        let l1 = choose|level: nat| added_at(a, id, vector, level, c);
        let l2 = choose|level: nat| added_at(b, id, vector, level, d);
        assert(added_at(a, id, vector, l1, c));
        assert(added_at(b, id, vector, l2, d));
        let u = unit_of(mixed(next_state(a.rng.state)));
        assert(u >= 1) by {
            let z = mixed(next_state(a.rng.state));
            assert(z >> 11 < 0x20_0000_0000_0000) by (bit_vector);
        }
        level_is_unique(u, a.params.m, l1, l2);
        insert_is_determined(
            a.kernel,
            a.metric,
            a.params,
            a.graph(),
            a.entry_point,
            bare(id, vector, l1),
            c.graph(),
            d.graph(),
        );
    }
}

/// Deleting the same id from the same index gives the same index.
pub proof fn delete_is_determined<D: Fn(Metric, &[u32], &[u32]) -> u32>(
    a: HnswIndex<D>,
    b: HnswIndex<D>,
    id: u64,
    c: HnswIndex<D>,
    d: HnswIndex<D>,
)
    requires
        same_index(a, b),
        tombstoned(a, id, c),
        tombstoned(b, id, d),
    ensures
        same_index(c, d),
{
}

/// An index with no nodes, default parameters and the fixed seed.
pub open spec fn is_fresh<D: Fn(Metric, &[u32], &[u32]) -> u32>(
    i: HnswIndex<D>,
    dim: usize,
    metric: Metric,
    kernel: D,
) -> bool {
    &&& i.dim == dim && i.metric == metric && i.kernel == kernel
    &&& i.params == HnswParams::standard()
    &&& i.nodes@.len() == 0
    &&& i.rng.state == DEFAULT_SEED
    &&& i.inv()
}

/// There is one such index.
pub proof fn fresh_is_unique<D: Fn(Metric, &[u32], &[u32]) -> u32>(
    a: HnswIndex<D>,
    b: HnswIndex<D>,
    dim: usize,
    metric: Metric,
    kernel: D,
)
    requires
        is_fresh(a, dim, metric, kernel),
        is_fresh(b, dim, metric, kernel),
    ensures
        same_index(a, b),
{
    assert(a.graph() =~= b.graph());
    assert(a.deleted@ =~= b.deleted@);
    assert(a.id_to_node@ =~= b.id_to_node@) by {
        assert forall|id: u64| !a.id_to_node@.contains_key(id) && !b.id_to_node@.contains_key(id) by {
            if a.id_to_node@.contains_key(id) {
                assert(a.id_to_node@[id] < a.nodes@.len());
            }
            if b.id_to_node@.contains_key(id) {
                assert(b.id_to_node@[id] < b.nodes@.len());
            }
        }
    }
}

/// `b` is the index `a` after record `r` took effect.
pub open spec fn record_indexed<D: Fn(Metric, &[u32], &[u32]) -> u32>(
    a: HnswIndex<D>,
    r: RecordView,
    b: HnswIndex<D>,
) -> bool {
    match r.op {
        WalOp::Upsert => upserted(a, r.id, r.vector, b),
        WalOp::Delete => tombstoned(a, r.id, b),
    }
}

/// A recovered record is skipped where the shard has a strictly newer version.
pub open spec fn skipped(s: ShardView, r: RecordView) -> bool {
    s.versions.contains_key(r.id) && r.hlc.older(s.versions[r.id].hlc)
}

/// `b` is the index `a` of a shard that holds `s`, after the recovered record `r` was
/// replayed.
pub open spec fn replay_step<D: Fn(Metric, &[u32], &[u32]) -> u32>(
    a: HnswIndex<D>,
    s: ShardView,
    r: RecordView,
    b: HnswIndex<D>,
) -> bool {
    if skipped(s, r) {
        same_index(a, b)
    } else {
        record_indexed(a, r, b)
    }
}

/// `b` is the index `a` of a shard that holds `s`, after recovered records were replayed
/// in order.
pub open spec fn index_rebuilt<D: Fn(Metric, &[u32], &[u32]) -> u32>(
    a: HnswIndex<D>,
    s: ShardView,
    rs: Seq<RecordView>,
    b: HnswIndex<D>,
) -> bool
    decreases rs.len(),
{
    if rs.len() == 0 {
        same_index(a, b)
    } else {
        exists|mid: HnswIndex<D>|
            index_rebuilt(a, s, rs.drop_last(), mid) && mid.inv() && #[trigger] replay_step(
                mid,
                replayed_all(s, rs.drop_last()),
                rs.last(),
                b,
            )
    }
}

/// One more record is replayed.
pub proof fn rebuild_one_more<D: Fn(Metric, &[u32], &[u32]) -> u32>(
    a: HnswIndex<D>,
    s: ShardView,
    rs: Seq<RecordView>,
    mid: HnswIndex<D>,
    r: RecordView,
    b: HnswIndex<D>,
)
    requires
        index_rebuilt(a, s, rs, mid),
        mid.inv(),
        replay_step(mid, replayed_all(s, rs), r, b),
    ensures
        index_rebuilt(a, s, rs.push(r), b),
{
    let more = rs.push(r);
    assert(more.drop_last() =~= rs);
    assert(index_rebuilt(a, s, more.drop_last(), mid) && mid.inv() && replay_step(
        mid,
        replayed_all(s, more.drop_last()),
        more.last(),
        b,
    ));
}

/// Replaying the same records into the same index gives the same index.
pub proof fn rebuild_is_determined<D: Fn(Metric, &[u32], &[u32]) -> u32>(
    a: HnswIndex<D>,
    b: HnswIndex<D>,
    s: ShardView,
    rs: Seq<RecordView>,
    c: HnswIndex<D>,
    d: HnswIndex<D>,
)
    requires
        same_index(a, b),
        index_rebuilt(a, s, rs, c),
        index_rebuilt(b, s, rs, d),
    ensures
        same_index(c, d),
    decreases rs.len(),
{
    if rs.len() > 0 {
        let t = rs.drop_last();
        let at = replayed_all(s, t);
        let r = rs.last();
        let m = choose|m: HnswIndex<D>|
            index_rebuilt(a, s, t, m) && m.inv() && #[trigger] replay_step(m, at, r, c);
        let n = choose|n: HnswIndex<D>|
            index_rebuilt(b, s, t, n) && n.inv() && #[trigger] replay_step(n, at, r, d);
        assert(index_rebuilt(a, s, t, m) && m.inv() && replay_step(m, at, r, c));
        assert(index_rebuilt(b, s, t, n) && n.inv() && replay_step(n, at, r, d));
        rebuild_is_determined(a, b, s, t, m, n);
        if !skipped(at, r) {
            match r.op {
                WalOp::Upsert => {
                    upsert_is_determined(m, n, r.id, r.vector, c, d);
                },
                WalOp::Delete => {
                    delete_is_determined(m, n, r.id, c, d);
                },
            }
        }
    }
}

proof fn rebuild_in_two<D: Fn(Metric, &[u32], &[u32]) -> u32>(
    a: HnswIndex<D>,
    s: ShardView,
    x: Seq<RecordView>,
    y: Seq<RecordView>,
    b: HnswIndex<D>,
) -> (mid: HnswIndex<D>)
    requires
        b.inv(),
        index_rebuilt(a, s, x + y, b),
    ensures
        mid.inv(),
        index_rebuilt(a, s, x, mid),
        index_rebuilt(mid, replayed_all(s, x), y, b),
    decreases y.len(),
{
    let all = x + y;
    if y.len() == 0 {
        assert(all =~= x);
        b
    } else {
        let t = all.drop_last();
        assert(t =~= x + y.drop_last());
        assert(all.last() == y.last());
        let m = choose|m: HnswIndex<D>|
            index_rebuilt(a, s, t, m) && m.inv() && #[trigger] replay_step(
                m,
                replayed_all(s, t),
                all.last(),
                b,
            );
        assert(index_rebuilt(a, s, t, m) && m.inv() && replay_step(m, replayed_all(s, t), all.last(), b));
        let mid = rebuild_in_two(a, s, x, y.drop_last(), m);
        crate::shard::replay_in_two(s, x, y.drop_last());
        rebuild_one_more(mid, replayed_all(s, x), y.drop_last(), m, y.last(), b);
        assert(y.drop_last().push(y.last()) =~= y);
        mid
    }
}

/// Recovering from a snapshot and the tail of the log gives the very index that replaying
/// the whole log gives: a snapshot holds the index as it was after the first records.
pub proof fn recovery_matches_replay<D: Fn(Metric, &[u32], &[u32]) -> u32>(
    first: HnswIndex<D>,
    s: ShardView,
    head: Seq<RecordView>,
    tail: Seq<RecordView>,
    snapshot: HnswIndex<D>,
    recovered: HnswIndex<D>,
    whole: HnswIndex<D>,
)
    requires
        whole.inv(),
        index_rebuilt(first, s, head, snapshot),
        index_rebuilt(snapshot, replayed_all(s, head), tail, recovered),
        index_rebuilt(first, s, head + tail, whole),
    ensures
        same_index(recovered, whole),
{
    let mid = rebuild_in_two(first, s, head, tail, whole);
    rebuild_is_determined(first, first, s, head, snapshot, mid);
    rebuild_is_determined(snapshot, mid, replayed_all(s, head), tail, recovered, whole);
}

/// `b` is the index `a` after the writes `rs` were committed in order.
pub open spec fn index_built<D: Fn(Metric, &[u32], &[u32]) -> u32>(
    a: HnswIndex<D>,
    rs: Seq<RecordView>,
    b: HnswIndex<D>,
) -> bool
    decreases rs.len(),
{
    if rs.len() == 0 {
        same_index(a, b)
    } else {
        exists|mid: HnswIndex<D>|
            index_built(a, rs.drop_last(), mid) && mid.inv() && #[trigger] record_indexed(
                mid,
                rs.last(),
                b,
            )
    }
}

/// The index of a shard that accepted the writes `rs` is the one that replaying them
/// gives: recovery brings back the graph, not only the points.
pub proof fn live_build_is_a_replay<D: Fn(Metric, &[u32], &[u32]) -> u32>(
    a: HnswIndex<D>,
    s: ShardView,
    rs: Seq<RecordView>,
    b: HnswIndex<D>,
)
    requires
        index_built(a, rs, b),
        forall|i: int|
            0 <= i < rs.len() ==> !stale(
                lww_all(s, rs.take(i)),
                (#[trigger] rs[i]).id,
                rs[i].hlc,
            ),
    ensures
        index_rebuilt(a, s, rs, b),
    decreases rs.len(),
{
    if rs.len() > 0 {
        let d = rs.drop_last();
        let n = rs.len() - 1;
        let mid = choose|mid: HnswIndex<D>|
            index_built(a, d, mid) && mid.inv() && #[trigger] record_indexed(mid, rs.last(), b);
        assert(index_built(a, d, mid) && mid.inv() && record_indexed(mid, rs.last(), b));
        assert forall|i: int| 0 <= i < d.len() implies !stale(
            lww_all(s, d.take(i)),
            (#[trigger] d[i]).id,
            d[i].hlc,
        ) by {
            assert(d.take(i) =~= rs.take(i));
            assert(d[i] == rs[i]);
        }
        live_build_is_a_replay(a, s, d, mid);
        replay_of_accepted(s, d);
        assert(rs.take(n) =~= d);
        assert(!stale(lww_all(s, rs.take(n)), rs[n].id, rs[n].hlc));
        let at = lww_all(s, d);
        if at.versions.contains_key(rs[n].id) {
            order_is_total(at.versions[rs[n].id].hlc, rs[n].hlc);
        }
        assert(!skipped(at, rs[n]));
        assert(replay_step(mid, replayed_all(s, d), rs.last(), b));
    }
}

proof fn built_ids<D: Fn(Metric, &[u32], &[u32]) -> u32>(
    a: HnswIndex<D>,
    rs: Seq<RecordView>,
    b: HnswIndex<D>,
)
    requires
        index_built(a, rs, b),
    ensures
        b.id_to_node@.dom() == a.id_to_node@.dom().union(upsert_ids(rs)),
        b.dim == a.dim,
    decreases rs.len(),
{
    if rs.len() == 0 {
        assert(a.id_to_node@.dom().union(Set::empty()) =~= a.id_to_node@.dom());
    } else {
        let d = rs.drop_last();
        let r = rs.last();
        let mid = choose|mid: HnswIndex<D>|
            index_built(a, d, mid) && mid.inv() && #[trigger] record_indexed(mid, r, b);
        assert(index_built(a, d, mid) && mid.inv() && record_indexed(mid, r, b));
        built_ids(a, d, mid);
        if r.op == WalOp::Upsert {
            if !mid.id_to_node@.contains_key(r.id) {
                let level = choose|level: nat| added_at(mid, r.id, r.vector, level, b);
                assert(added_at(mid, r.id, r.vector, level, b));
            }
            assert(b.id_to_node@.dom() =~= mid.id_to_node@.dom().insert(r.id));
        }
        assert(b.id_to_node@.dom() =~= a.id_to_node@.dom().union(upsert_ids(rs)));
    }
}

/// A shard that accepted the writes `rs` and is opened again, after a crash that may have
/// left a partly written frame, is the shard that it was: opening succeeds, and the points,
/// the versions, the index down to its graph and the end of the log are the same. A
/// snapshot, if there is one, was taken after the first `n` writes.
pub proof fn reopened_shard_is_the_live_one<D: Fn(Metric, &[u32], &[u32]) -> u32>(
    dim: usize,
    metric: Metric,
    kernel: D,
    snapshot_wal_mb: u64,
    batch_ms: u64,
    first: HnswIndex<D>,
    rs: Seq<RecordView>,
    live: HnswIndex<D>,
    snapshot: Option<Snapshot<D>>,
    n: int,
    torn: Seq<u8>,
    r: Result<(Shard<D>, u64), ShardError>,
)
    requires
        forall|i: int| 0 <= i < rs.len() ==> (#[trigger] rs[i]).storable(),
        forall|i: int|
            0 <= i < rs.len() ==> !stale(
                lww_all(empty_shard(), rs.take(i)),
                (#[trigger] rs[i]).id,
                rs[i].hlc,
            ),
        forall|i: int|
            0 <= i < rs.len() && (#[trigger] rs[i]).op == WalOp::Upsert ==> rs[i].vector.len() == dim,
        is_fresh(first, dim, metric, kernel),
        index_built(first, rs, live),
        live.inv(),
        0 <= n <= rs.len(),
        match snapshot {
            Some(s) => {
                &&& s.index.inv()
                &&& index_built(first, rs.take(n), s.index)
                &&& snapshot_view(s) == lww_all(empty_shard(), rs.take(n))
                &&& s.wal_offset == wal_bytes(rs.take(n)).len()
            },
            None => n == 0,
        },
        intact_body(torn) is None,
    ensures
        room(snapshot, replay_tail(snapshot, wal_bytes(rs) + torn)),
        Shard::opened(
            dim,
            metric,
            kernel,
            snapshot_wal_mb,
            batch_ms,
            snapshot,
            wal_bytes(rs) + torn,
            r,
        ) ==> match r {
            Ok((shard, end)) => {
                &&& shard@ == lww_all(empty_shard(), rs)
                &&& same_index(shard.index, live)
                &&& end == wal_bytes(rs).len()
                &&& shard.wal.len == end
            },
            Err(_) => false,
        },
{
    let log = wal_bytes(rs) + torn;
    let head = rs.take(n);
    let tail = rs.skip(n);
    let start = start_of(snapshot).0;
    assert(head + tail =~= rs);
    recovery_returns_appended(rs, torn);
    frames_len_is_bytes(head);
    beyond_is_tail(rs, n);
    assert forall|i: int| 0 <= i < head.len() implies !stale(
        lww_all(empty_shard(), head.take(i)),
        (#[trigger] head[i]).id,
        head[i].hlc,
    ) by {
        assert(head.take(i) =~= rs.take(i));
        assert(head[i] == rs[i]);
    }
    replay_of_accepted(empty_shard(), head);
    replay_of_accepted(empty_shard(), rs);
    replay_in_two(empty_shard(), head, tail);
    assert(rs.take(0) =~= Seq::empty());
    assert(start == replayed_all(empty_shard(), head));
    assert(start_of(snapshot).1 == frames_len(head));
    assert(replay_tail(snapshot, log) == tail);
    // The index knows the ids that were upserted, each by one of its nodes.
    built_ids(first, rs, live);
    upsert_ids_in_two(head, tail);
    assert(first.id_to_node@.dom() =~= Set::empty()) by {
        first.a_node_per_id();
    }
    live.a_node_per_id();
    assert(live.graph().len() == live.nodes@.len());
    if snapshot is Some {
        built_ids(first, head, snapshot.unwrap().index);
    }
    assert(start_ids(snapshot).union(upsert_ids(tail)) =~= live.id_to_node@.dom());
    assert forall|i: int| 0 <= i < tail.len() implies !#[trigger] misfit(
        replayed_all(start, tail.take(i)),
        tail[i],
        start_dim(snapshot, dim),
    ) by {
        assert(tail[i] == rs[n + i]);
    }
    // Replaying the tail gives the graph.
    live_build_is_a_replay(first, empty_shard(), rs, live);
    if Shard::opened(dim, metric, kernel, snapshot_wal_mb, batch_ms, snapshot, log, r) {
        let shard = r.unwrap().0;
        let from = choose|from: HnswIndex<D>| #[trigger]
            starts_from(snapshot, dim, metric, kernel, from) && index_rebuilt(
                from,
                start,
                tail,
                shard.index,
            );
        if snapshot is Some {
            live_build_is_a_replay(first, empty_shard(), head, from);
            recovery_matches_replay(first, empty_shard(), head, tail, from, shard.index, live);
        } else {
            fresh_is_unique(from, first, dim, metric, kernel);
            assert(tail =~= rs);
            rebuild_is_determined(from, first, empty_shard(), rs, shard.index, live);
        }
    }
}

} // verus!
