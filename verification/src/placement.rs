//! Two-layer placement.
//!
//! **Layer 1: point to shard.** A point's shard within a collection is
//! `XXH64(id) % shard_count`. `shard_count` is fixed when the collection is
//! created, so a point's shard never moves.
//!
//! **Layer 2: shard to nodes.** Physical nodes are placed on a consistent-hash
//! ring, each at `vnodes` positions. A shard's home position is
//! `XXH64(collection ‖ shard_idx)`; its replicas are the first distinct physical
//! nodes met when the ring is walked clockwise from there.

use std::collections::BTreeSet;

use vstd::prelude::*;

use crate::codec::{put_u32, put_u64};
use crate::sort::sort;

verus! {

use vstd::std_specs::iter::IteratorSpec;
use crate::codec::{le32, le64};
use crate::sort::{same_multiset_same_elements, sorted};
use crate::text::utf8;

broadcast use vstd::std_specs::btree::group_btree_axioms;

/// Default virtual nodes per physical node on the ring.
pub const DEFAULT_VNODES: u32 = 64;

/// Seed for the placement hashes. Fixed so that every node computes the identical
/// map from the same membership set.
pub const RING_SEED: u64 = 0;

/// The XXH64 hash of `bytes` under `seed`, as `xxhash_rust::xxh64::xxh64` computes it.
pub uninterp spec fn xxh64_of(bytes: Seq<u8>, seed: u64) -> u64;

/// Wraps `xxhash_rust::xxh64::xxh64`. Its result is named, not spelled out: the
/// hash is a function of the bytes and the seed alone.
#[verifier::external_body]
fn xxh64(bytes: &[u8], seed: u64) -> (r: u64)
    ensures
        r == xxh64_of(bytes@, seed),
{
    xxhash_rust::xxh64::xxh64(bytes, seed)
}

/// The hash that decides the shard of point `id`.
pub open spec fn id_hash(id: u64) -> u64 {
    xxh64_of(le64(id), RING_SEED)
}

/// The shard, out of `shard_count`, of a point whose id hashes to `hash`.
pub fn shard_for_hash(hash: u64, shard_count: u32) -> (r: u32)
    requires
        shard_count > 0,
    ensures
        r == hash % (shard_count as u64),
        r < shard_count,
{
    (hash % shard_count as u64) as u32
}

/// Layer 1: the shard index a point id lands in for a collection of
/// `shard_count` shards.
pub fn shard_for_id(id: u64, shard_count: u32) -> (r: u32)
    requires
        shard_count > 0,
    ensures
        r == id_hash(id) % (shard_count as u64),
        r < shard_count,
{
    let mut key: Vec<u8> = Vec::new();
    put_u64(&mut key, id);
    assert(key@ =~= le64(id));
    shard_for_hash(xxh64(key.as_slice(), RING_SEED), shard_count)
}

/// The ring position of virtual node `vi` of `node`.
pub open spec fn vnode_position(node: u64, vi: u32) -> u64 {
    xxh64_of(le64(node) + le32(vi), RING_SEED)
}

/// The home position of a shard.
pub open spec fn home_of(collection: Seq<char>, shard_idx: u32) -> u64 {
    xxh64_of(utf8(collection) + le32(shard_idx), RING_SEED)
}

/// The point `p` (position, node) is one of the node's first `vnodes` virtual nodes.
pub open spec fn is_vnode(p: (u64, u64), vnodes: u32) -> bool {
    exists|vi: u32| vi < vnodes && p.0 == #[trigger] vnode_position(p.1, vi)
}

/// The points (position, node) of a ring of `nodes` with `vnodes` virtual nodes each.
pub open spec fn ring_points(nodes: Set<u64>, vnodes: u32) -> Set<(u64, u64)> {
    Set::new(
        |p: (u64, u64)|
            nodes.contains(p.1) && is_vnode(p, vnodes),
    )
}

/// How far clockwise `pos` lies from `home`.
pub open spec fn clockwise(home: u64, pos: u64) -> int {
    if pos >= home {
        pos - home
    } else {
        pos - home + 0x1_0000_0000_0000_0000
    }
}

/// `node` has a point on the ring.
pub open spec fn on_ring(points: Set<(u64, u64)>, node: u64) -> bool {
    exists|pos: u64| points.contains((pos, node))
}

/// The nearest point of `node` lies `d` clockwise from `home`.
pub open spec fn is_reach(points: Set<(u64, u64)>, home: u64, node: u64, d: int) -> bool {
    &&& exists|pos: u64| #[trigger] points.contains((pos, node)) && d == clockwise(home, pos)
    &&& forall|pos: u64| #[trigger] points.contains((pos, node)) ==> d <= clockwise(home, pos)
}

/// How far clockwise from `home` the nearest point of `node` lies.
pub open spec fn reach(points: Set<(u64, u64)>, home: u64, node: u64) -> int {
    choose|d: int| is_reach(points, home, node, d)
}

/// A walk clockwise from `home` meets `a` before `b`: `a` is nearer, or as near
/// with the lower id.
pub open spec fn ahead(points: Set<(u64, u64)>, home: u64, a: u64, b: u64) -> bool {
    reach(points, home, a) < reach(points, home, b) || (reach(points, home, a) == reach(
        points,
        home,
        b,
    ) && a < b)
}

/// `r` holds the first `n` distinct nodes that a walk clockwise from `home` meets,
/// in the order in which it meets them; all of them where there are no more than `n`.
pub open spec fn placed(points: Set<(u64, u64)>, home: u64, n: nat, r: Seq<u64>) -> bool {
    &&& r.len() <= n
    &&& forall|i: int| 0 <= i < r.len() ==> on_ring(points, #[trigger] r[i])
    &&& forall|i: int, j: int|
        0 <= i < j < r.len() ==> ahead(points, home, #[trigger] r[i], #[trigger] r[j])
    &&& forall|node: u64|
        on_ring(points, node) && !r.contains(node) ==> r.len() == n && forall|i: int|
            0 <= i < r.len() ==> #[trigger] ahead(points, home, r[i], node)
}

/// The nodes that a walk clockwise from `home` meets first.
pub open spec fn placement(points: Set<(u64, u64)>, home: u64, n: nat) -> Seq<u64> {
    choose|r: Seq<u64>| placed(points, home, n, r)
}

/// Placement is determined: it depends on the ring's points, the home position and
/// the replica count alone.
pub proof fn placement_is_unique(
    points: Set<(u64, u64)>,
    home: u64,
    n: nat,
    a: Seq<u64>,
    b: Seq<u64>,
)
    requires
        placed(points, home, n, a),
        placed(points, home, n, b),
    ensures
        a == b,
{
    placement_agrees(points, home, n, a, b, a.len());
    placement_agrees(points, home, n, b, a, b.len());
    assert(a =~= b);
}

proof fn placement_agrees(
    points: Set<(u64, u64)>,
    home: u64,
    n: nat,
    a: Seq<u64>,
    b: Seq<u64>,
    k: nat,
)
    requires
        placed(points, home, n, a),
        placed(points, home, n, b),
        k <= a.len(),
    ensures
        k <= b.len(),
        forall|i: int| 0 <= i < k ==> a[i] == b[i],
    decreases k,
{
    if k > 0 {
        let i = k - 1;
        placement_agrees(points, home, n, a, b, i as nat);
        assert(on_ring(points, a[i]));
        if b.len() == i {
            assert(!b.contains(a[i])) by {
                if b.contains(a[i]) {
                    let j = b.index_of(a[i]);
                    assert(a[j] == b[j]);
                    assert(ahead(points, home, a[j], a[i]));
                }
            }
            assert(false);
        }
        if a[i] != b[i] {
            assert(on_ring(points, b[i]));
            assert(ahead(points, home, b[i], a[i])) by {
                if b.contains(a[i]) {
                    let j = b.index_of(a[i]);
                    if j < i {
                        assert(a[j] == b[j]);
                        assert(ahead(points, home, a[j], a[i]));
                    }
                    assert(i < j);
                }
            }
            assert(ahead(points, home, a[i], b[i])) by {
                if a.contains(b[i]) {
                    let j = a.index_of(b[i]);
                    if j < i {
                        assert(a[j] == b[j]);
                        assert(ahead(points, home, b[j], b[i]));
                    }
                    assert(i < j);
                }
            }
            assert(false);
        }
    }
}

/// Whatever satisfies the description of a placement is the placement.
pub proof fn placed_is_placement(points: Set<(u64, u64)>, home: u64, n: nat, r: Seq<u64>)
    requires
        placed(points, home, n, r),
    ensures
        r == placement(points, home, n),
{
    placement_is_unique(points, home, n, r, placement(points, home, n));
}

/// Replicas are distinct, and there are as many as asked for or as many as nodes
/// are on the ring, whichever is fewer.
pub proof fn replicas_are_distinct(points: Set<(u64, u64)>, home: u64, n: nat, r: Seq<u64>, nodes: Set<u64>)
    requires
        placed(points, home, n, r),
        nodes.finite(),
        forall|node: u64| nodes.contains(node) <==> on_ring(points, node),
    ensures
        r.no_duplicates(),
        r.len() == if n <= nodes.len() { n } else { nodes.len() },
        forall|i: int| 0 <= i < r.len() ==> nodes.contains(#[trigger] r[i]),
{
    assert(r.no_duplicates()) by {
        assert forall|i: int, j: int| 0 <= i < r.len() && 0 <= j < r.len() && i != j implies r[i] != r[j] by {
            if i < j {
                assert(ahead(points, home, r[i], r[j]));
            } else {
                assert(ahead(points, home, r[j], r[i]));
            }
        }
    }
    r.unique_seq_to_set();
    assert(r.to_set().subset_of(nodes)) by {
        assert forall|x: u64| r.to_set().contains(x) implies nodes.contains(x) by {
            assert(on_ring(points, r[r.index_of(x)]));
        }
    }
    vstd::set_lib::lemma_len_subset(r.to_set(), nodes);
    if r.len() < n {
        assert(nodes.subset_of(r.to_set())) by {
            assert forall|x: u64| nodes.contains(x) implies r.to_set().contains(x) by {
                assert(on_ring(points, x));
                assert(r.contains(x));
            }
        }
        vstd::set_lib::lemma_len_subset(nodes, r.to_set());
    }
}

proof fn reach_is(points: Set<(u64, u64)>, home: u64, node: u64, d: int)
    requires
        is_reach(points, home, node, d),
    ensures
        reach(points, home, node) == d,
{
    let e = reach(points, home, node);
    assert(is_reach(points, home, node, e));
    let p = choose|pos: u64| #[trigger] points.contains((pos, node)) && d == clockwise(home, pos);
    let q = choose|pos: u64| #[trigger] points.contains((pos, node)) && e == clockwise(home, pos);
    assert(points.contains((p, node)) && points.contains((q, node)));
}

/// Points in the order in which a walk clockwise from `home` meets them.
spec fn is_walk(w: Seq<(u64, u64)>, home: u64) -> bool {
    forall|s: int, t: int|
        0 <= s <= t < w.len() ==> {
            let c = clockwise(home, (#[trigger] w[s]).0);
            let d = clockwise(home, (#[trigger] w[t]).0);
            c < d || (c == d && w[s].1 <= w[t].1)
        }
}

proof fn first_step(w: Seq<(u64, u64)>, node: u64, k: int) -> (t: int)
    requires
        0 <= k < w.len(),
        w[k].1 == node,
    ensures
        0 <= t <= k,
        w[t].1 == node,
        forall|s: int| 0 <= s < t ==> (#[trigger] w[s]).1 != node,
    decreases k,
{
    if exists|s: int| 0 <= s < k && (#[trigger] w[s]).1 == node {
        let s = choose|s: int| 0 <= s < k && (#[trigger] w[s]).1 == node;
        first_step(w, node, s)
    } else {
        k
    }
}

proof fn reach_of_first(w: Seq<(u64, u64)>, home: u64, points: Set<(u64, u64)>, t: int)
    requires
        is_walk(w, home),
        points == w.to_set(),
        0 <= t < w.len(),
        forall|s: int| 0 <= s < t ==> (#[trigger] w[s]).1 != w[t].1,
    ensures
        reach(points, home, w[t].1) == clockwise(home, w[t].0),
        on_ring(points, w[t].1),
{
    let node = w[t].1;
    let d = clockwise(home, w[t].0);
    assert(w.contains(w[t]));
    assert(points.contains((w[t].0, node)));
    assert forall|pos: u64| #[trigger] points.contains((pos, node)) implies d <= clockwise(home, pos) by {
        let s = w.index_of((pos, node));
        assert(w.contains((pos, node)));
        assert(w[s] == (pos, node));
        assert(t <= s);
    }
    assert(is_reach(points, home, node, d));
    reach_is(points, home, node, d);
}

/// One number per point, in the order of the ring.
spec fn key_of(p: (u64, u64)) -> u128 {
    (p.0 * 0x1_0000_0000_0000_0000 + p.1) as u128
}

proof fn key_is_injective(a: (u64, u64), b: (u64, u64))
    requires
        key_of(a) == key_of(b),
    ensures
        a == b,
{
}

/// The members of a set of nodes, each once.
pub(crate) fn list_nodes(nodes: &BTreeSet<u64>) -> (r: Vec<u64>)
    ensures
        r@.no_duplicates(),
        r@.to_set() == nodes@,
{
    let mut out: Vec<u64> = Vec::new();
    let ghost all = vstd::std_specs::btree::spec_btree_keys_iter(nodes).remaining();
    for node in iter: nodes.iter()
        invariant
            iter.seq() == all,
            out@.len() == iter.index(),
            forall|j: int| 0 <= j < iter.index() ==> out@[j] == *#[trigger] all[j],
    {
        out.push(*node);
    }
    proof {
        assert(out@ =~= all.unref());
    }
    out
}

/// A consistent-hash ring of physical nodes.
///
/// Built from the current membership set; recomputed whenever membership changes.
#[derive(Debug, Clone)]
pub struct Ring {
    /// (ring position, physical node id), sorted by position, then node.
    vnodes: Vec<(u64, u64)>,
    /// The distinct physical nodes.
    members: Vec<u64>,
}

impl Ring {
    /// The points (position, node) of the ring.
    pub closed spec fn points(self) -> Set<(u64, u64)> {
        self.vnodes@.to_set()
    }

    /// The physical nodes of the ring.
    pub closed spec fn nodes(self) -> Set<u64> {
        self.members@.to_set()
    }

    /// The points are sorted, and each belongs to a member.
    pub closed spec fn wf(self) -> bool {
        &&& forall|i: int, j: int|
            0 <= i <= j < self.vnodes@.len() ==> {
                let a = #[trigger] self.vnodes@[i];
                let b = #[trigger] self.vnodes@[j];
                a.0 < b.0 || (a.0 == b.0 && a.1 <= b.1)
            }
        &&& self.members@.no_duplicates()
        &&& forall|i: int|
            0 <= i < self.vnodes@.len() ==> self.members@.contains((#[trigger] self.vnodes@[i]).1)
    }

    /// The ring with the given points (position, node) of `members`.
    pub fn from_points(points: &Vec<(u64, u64)>, members: Vec<u64>) -> (r: Self)
        requires
            members@.no_duplicates(),
            forall|i: int| 0 <= i < points@.len() ==> members@.contains((#[trigger] points@[i]).1),
        ensures
            r.wf(),
            r.points() == points@.to_set(),
            r.nodes() == members@.to_set(),
    {
        let mut keys: Vec<u128> = Vec::new();
        let mut i: usize = 0;
        while i < points.len()
            invariant
                i <= points@.len(),
                keys@.len() == i,
                forall|j: int| 0 <= j < i ==> keys@[j] == key_of(#[trigger] points@[j]),
            decreases points@.len() - i,
        {
            let (pos, node) = points[i];
            keys.push(pos as u128 * 0x1_0000_0000_0000_0000 + node as u128);
            i = i + 1;
        }
        let ordered: Vec<u128> = sort(keys.as_slice());
        proof {
            same_multiset_same_elements(keys@, ordered@);
        }
        let mut vnodes: Vec<(u64, u64)> = Vec::new();
        let mut i: usize = 0;
        while i < ordered.len()
            invariant
                i <= ordered@.len(),
                vnodes@.len() == i,
                forall|j: int| 0 <= j < i ==> ordered@[j] == key_of(#[trigger] vnodes@[j]),
            decreases ordered@.len() - i,
        {
            let key: u128 = ordered[i];
            vnodes.push(
                (
                    (key / 0x1_0000_0000_0000_0000) as u64,
                    (key % 0x1_0000_0000_0000_0000) as u64,
                ),
            );
            i = i + 1;
        }
        let r = Ring { vnodes, members };
        proof {
            assert forall|p: (u64, u64)| points@.contains(p) implies r.vnodes@.contains(p) by {
                let j = points@.index_of(p);
                assert(points@[j] == p);
                assert(keys@[j] == key_of(p));
                assert(keys@.contains(key_of(p)));
                let k = ordered@.index_of(key_of(p));
                assert(ordered@.contains(key_of(p)));
                assert(ordered@[k] == key_of(r.vnodes@[k]));
                key_is_injective(p, r.vnodes@[k]);
            }
            assert forall|p: (u64, u64)| r.vnodes@.contains(p) implies points@.contains(p) by {
                let j = r.vnodes@.index_of(p);
                assert(r.vnodes@[j] == p);
                assert(ordered@[j] == key_of(p));
                assert(ordered@.contains(key_of(p)));
                let k = keys@.index_of(key_of(p));
                assert(keys@.contains(key_of(p)));
                assert(keys@[k] == key_of(points@[k]));
                key_is_injective(p, points@[k]);
            }
            assert(r.points() =~= points@.to_set());
            assert forall|i: int, j: int| 0 <= i <= j < r.vnodes@.len() implies {
                let a = #[trigger] r.vnodes@[i];
                let b = #[trigger] r.vnodes@[j];
                a.0 < b.0 || (a.0 == b.0 && a.1 <= b.1)
            } by {
                assert(ordered@[i] <= ordered@[j]);
                assert(ordered@[i] == key_of(r.vnodes@[i]));
                assert(ordered@[j] == key_of(r.vnodes@[j]));
            }
            assert forall|i: int| 0 <= i < r.vnodes@.len() implies r.members@.contains(
                (#[trigger] r.vnodes@[i]).1,
            ) by {
                assert(r.vnodes@.contains(r.vnodes@[i]));
                let j = points@.index_of(r.vnodes@[i]);
                assert(points@.contains(r.vnodes@[i]));
                assert(points@[j] == r.vnodes@[i]);
            }
        }
        r
    }

    /// Build a ring from a set of physical node ids with `vnodes` virtual nodes
    /// each. An empty membership yields an empty ring (no placements possible).
    pub fn new(nodes: &BTreeSet<u64>, vnodes: u32) -> (r: Self)
        ensures
            r.wf(),
            r.nodes() == nodes@,
            r.points() == ring_points(nodes@, vnodes),
    {
        let members: Vec<u64> = list_nodes(nodes);
        let mut points: Vec<(u64, u64)> = Vec::new();
        let mut k: usize = 0;
        while k < members.len()
            invariant
                k <= members@.len(),
                members@.no_duplicates(),
                forall|i: int|
                    0 <= i < points@.len() ==> members@.contains((#[trigger] points@[i]).1)
                        && is_vnode(points@[i], vnodes),
                forall|j: int, vi: u32|
                    0 <= j < k && vi < vnodes ==> points@.contains(
                        (#[trigger] vnode_position(members@[j], vi), members@[j]),
                    ),
            decreases members@.len() - k,
        {
            let node: u64 = members[k];
            let mut vi: u32 = 0;
            while vi < vnodes
                invariant
                    vi <= vnodes,
                    k < members@.len(),
                    node == members@[k as int],
                    forall|i: int|
                        0 <= i < points@.len() ==> members@.contains((#[trigger] points@[i]).1)
                            && is_vnode(points@[i], vnodes),
                    forall|j: int, v: u32|
                        0 <= j < k && v < vnodes ==> points@.contains(
                            (#[trigger] vnode_position(members@[j], v), members@[j]),
                        ),
                    forall|v: u32|
                        v < vi ==> points@.contains((#[trigger] vnode_position(node, v), node)),
                decreases vnodes - vi,
            {
                let mut key: Vec<u8> = Vec::new();
                put_u64(&mut key, node);
                put_u32(&mut key, vi);
                assert(key@ =~= le64(node) + le32(vi));
                let pos: u64 = xxh64(key.as_slice(), RING_SEED);
                let ghost before = points@;
                points.push((pos, node));
                proof {
                    assert(pos == vnode_position(node, vi));
                    assert(points@[before.len() as int] == (pos, node));
                    assert forall|p: (u64, u64)| before.contains(p) implies points@.contains(p) by {
                        let j = before.index_of(p);
                        assert(points@[j] == p);
                    }
                    assert forall|i: int| 0 <= i < points@.len() implies members@.contains(
                        (#[trigger] points@[i]).1,
                    ) && is_vnode(points@[i], vnodes) by {
                        if i < before.len() {
                            assert(points@[i] == before[i]);
                        } else {
                            assert(points@[i].0 == vnode_position(points@[i].1, vi));
                        }
                    }
                }
                vi = vi + 1;
            }
            k = k + 1;
        }
        proof {
            let all = nodes@;
            assert(points@.to_set() =~= ring_points(all, vnodes)) by {
                assert forall|p: (u64, u64)| points@.to_set().contains(p) <==> ring_points(
                    all,
                    vnodes,
                ).contains(p) by {
                    if points@.contains(p) {
                        let i = points@.index_of(p);
                        assert(points@[i] == p);
                        assert(members@.to_set().contains(p.1));
                    }
                    if ring_points(all, vnodes).contains(p) {
                        assert(members@.to_set().contains(p.1));
                        let j = members@.index_of(p.1);
                        assert(members@[j] == p.1);
                        let vi = choose|vi: u32|
                            vi < vnodes && p.0 == #[trigger] vnode_position(p.1, vi);
                        assert(points@.contains((vnode_position(members@[j], vi), members@[j])));
                    }
                }
            }
        }
        Self::from_points(&points, members)
    }

    /// True when the ring has no points.
    pub fn is_empty(&self) -> (r: bool)
        ensures
            r == (self.points() == Set::<(u64, u64)>::empty()),
    {
        let r: bool = self.vnodes.len() == 0;
        proof {
            if r {
                assert(self.points() =~= Set::<(u64, u64)>::empty());
            } else {
                assert(self.vnodes@.contains(self.vnodes@[0]));
                assert(self.points().contains(self.vnodes@[0]));
            }
        }
        r
    }

    /// Distinct physical node count.
    pub fn node_count(&self) -> (r: usize)
        requires
            self.wf(),
        ensures
            r == self.nodes().len(),
    {
        proof {
            self.members@.unique_seq_to_set();
        }
        self.members.len()
    }

    /// The place of the first point at or after `home`; past the end where there is
    /// none.
    fn successor(&self, home: u64) -> (r: usize)
        requires
            self.wf(),
        ensures
            r <= self.vnodes@.len(),
            forall|i: int| 0 <= i < r ==> (#[trigger] self.vnodes@[i]).0 < home,
            forall|i: int| r <= i < self.vnodes@.len() ==> (#[trigger] self.vnodes@[i]).0 >= home,
    {
        let mut lo: usize = 0;
        let mut hi: usize = self.vnodes.len();
        while lo < hi
            invariant
                self.wf(),
                lo <= hi <= self.vnodes@.len(),
                forall|i: int| 0 <= i < lo ==> (#[trigger] self.vnodes@[i]).0 < home,
                forall|i: int| hi <= i < self.vnodes@.len() ==> (#[trigger] self.vnodes@[i]).0 >= home,
            decreases hi - lo,
        {
            let mid: usize = lo + (hi - lo) / 2;
            if self.vnodes[mid].0 < home {
                assert forall|i: int| 0 <= i <= mid implies (#[trigger] self.vnodes@[i]).0 < home by {
                    assert(self.vnodes@[i].0 <= self.vnodes@[mid as int].0);
                }
                lo = mid + 1;
            } else {
                assert forall|i: int| mid <= i < self.vnodes@.len() implies (#[trigger] self.vnodes@[i]).0
                    >= home by {
                    assert(self.vnodes@[mid as int].0 <= self.vnodes@[i].0);
                }
                hi = mid;
            }
        }
        lo
    }

    /// The first `replication_n` distinct nodes met when the ring is walked clockwise
    /// from `home`, in that order. Where the ring has fewer nodes, all of them.
    pub fn replicas_at(&self, home: u64, replication_n: u32) -> (r: Vec<u64>)
        requires
            self.wf(),
        ensures
            placed(self.points(), home, replication_n as nat, r@),
    {
        let n: usize = self.vnodes.len();
        let want: usize = if (replication_n as u64) < self.members.len() as u64 {
            replication_n as usize
        } else {
            self.members.len()
        };
        let start: usize = self.successor(home);
        let ghost w = self.vnodes@.skip(start as int) + self.vnodes@.take(start as int);
        let ghost points = self.points();
        proof {
            assert(is_walk(w, home)) by {
                assert forall|s: int, t: int| 0 <= s <= t < w.len() implies {
                    let c = clockwise(home, (#[trigger] w[s]).0);
                    let d = clockwise(home, (#[trigger] w[t]).0);
                    c < d || (c == d && w[s].1 <= w[t].1)
                } by {
                    let a = if s < n - start { start + s } else { s - (n - start) };
                    let b = if t < n - start { start + t } else { t - (n - start) };
                    assert(w[s] == self.vnodes@[a]);
                    assert(w[t] == self.vnodes@[b]);
                }
            }
            assert(w.to_set() =~= points) by {
                assert forall|p: (u64, u64)| w.contains(p) <==> self.vnodes@.contains(p) by {
                    if w.contains(p) {
                        let s = w.index_of(p);
                        let a = if s < n - start { start + s } else { s - (n - start) };
                        assert(self.vnodes@[a] == p);
                    }
                    if self.vnodes@.contains(p) {
                        let a = self.vnodes@.index_of(p);
                        let s = if a >= start { a - start } else { a + (n - start) };
                        assert(w[s] == p);
                    }
                }
            }
        }
        let mut replicas: Vec<u64> = Vec::new();
        let mut step: usize = 0;
        let ghost mut met: Seq<int> = Seq::empty();
        while step < n && replicas.len() < want
            invariant
                self.wf(),
                n == self.vnodes@.len(),
                start <= n,
                want <= self.members@.len(),
                w == self.vnodes@.skip(start as int) + self.vnodes@.take(start as int),
                step <= n,
                replicas@.len() <= want,
                met.len() == replicas@.len(),
                forall|i: int| 0 <= i < met.len() ==> first_met(w, step as int, #[trigger] met[i], replicas@[i]),
                forall|i: int, j: int| 0 <= i < j < met.len() ==> #[trigger] met[i] < #[trigger] met[j],
                forall|s: int| 0 <= s < step ==> replicas@.contains((#[trigger] w[s]).1),
            decreases n - step,
        {
            let at: usize = if step < n - start {
                start + step
            } else {
                step - (n - start)
            };
            let node: u64 = self.vnodes[at].1;
            assert(w[step as int] == self.vnodes@[at as int]);
            let known: bool = contains_node(&replicas, node);
            let ghost before = replicas@;
            if !known {
                replicas.push(node);
                proof {
                    met = met.push(step as int);
                    assert(replicas@[before.len() as int] == node);
                    assert forall|s: int| 0 <= s < step implies (#[trigger] w[s]).1 != node by {
                        assert(before.contains(w[s].1));
                    }
                }
            }
            proof {
                assert forall|s: int| 0 <= s < step + 1 implies replicas@.contains((#[trigger] w[s]).1) by {
                    if s < step {
                        let i = before.index_of(w[s].1);
                        assert(before.contains(w[s].1));
                        assert(replicas@[i] == w[s].1);
                    } else if known {
                        assert(replicas@.contains(node));
                    } else {
                        assert(replicas@[before.len() as int] == node);
                    }
                }
            }
            step = step + 1;
        }
        proof {
            walk_is_placed(w, home, points, step as int, met, replicas@);
            if replicas@.len() < replication_n && replicas@.len() == want {
                // Every member has been met.
                assert(want == self.members@.len());
                replicas@.unique_seq_to_set();
                self.members@.unique_seq_to_set();
                assert(replicas@.to_set().subset_of(self.members@.to_set())) by {
                    assert forall|x: u64| replicas@.contains(x) implies self.members@.contains(x) by {
                        let i = replicas@.index_of(x);
                        assert(first_met(w, step as int, met[i], replicas@[i]));
                        let s = met[i];
                        let a = if s < n - start { start + s } else { s - (n - start) };
                        assert(w[s] == self.vnodes@[a]);
                    }
                }
                vstd::set_lib::lemma_subset_equality(replicas@.to_set(), self.members@.to_set());
                assert forall|node: u64| on_ring(points, node) implies replicas@.contains(node) by {
                    let pos = choose|pos: u64| points.contains((pos, node));
                    let a = self.vnodes@.index_of((pos, node));
                    assert(self.vnodes@.contains((pos, node)));
                    assert(self.vnodes@[a].1 == node);
                    assert(self.members@.to_set().contains(node));
                }
            }
        }
        replicas
    }

    /// The home ring position for a shard: `XXH64(collection ‖ shard_idx)`.
    pub fn home_position(collection: &str, shard_idx: u32) -> (r: u64)
        ensures
            r == home_of(collection@, shard_idx),
    {
        let mut key: Vec<u8> = Vec::new();
        key.extend_from_slice(collection.as_bytes());
        put_u32(&mut key, shard_idx);
        assert(key@ =~= utf8(collection@) + le32(shard_idx));
        xxh64(key.as_slice(), RING_SEED)
    }

    /// The replica node set for `collection`/`shard_idx`: the home node (ring
    /// successor of the shard's home position) plus the next distinct physical
    /// nodes clockwise, up to `replication_n` total. If the cluster has fewer
    /// than `replication_n` physical nodes, every node is a replica.
    ///
    /// Returns replicas in clockwise order starting at the home; the first entry
    /// is the home/primary used for single-replica routing.
    pub fn replicas_for_shard(&self, collection: &str, shard_idx: u32, replication_n: u32) -> (r: Vec<
        u64,
    >)
        requires
            self.wf(),
        ensures
            placed(self.points(), home_of(collection@, shard_idx), replication_n as nat, r@),
            r@ == placement(self.points(), home_of(collection@, shard_idx), replication_n as nat),
    {
        let home: u64 = Self::home_position(collection, shard_idx);
        let r: Vec<u64> = self.replicas_at(home, replication_n);
        proof {
            placed_is_placement(self.points(), home, replication_n as nat, r@);
        }
        r
    }
}

/// Whether `node` is among `nodes`.
pub(crate) fn contains_node(nodes: &Vec<u64>, node: u64) -> (r: bool)
    ensures
        r == nodes@.contains(node),
{
    let mut i: usize = 0;
    while i < nodes.len()
        invariant
            i <= nodes@.len(),
            forall|j: int| 0 <= j < i ==> nodes@[j] != node,
        decreases nodes@.len() - i,
    {
        if nodes[i] == node {
            assert(nodes@[i as int] == node);
            return true;
        }
        i = i + 1;
    }
    false
}

/// Of the first `step` points of the walk, the one at `s` is the first of `node`.
spec fn first_met(w: Seq<(u64, u64)>, step: int, s: int, node: u64) -> bool {
    &&& 0 <= s < step <= w.len()
    &&& w[s].1 == node
    &&& forall|t: int| 0 <= t < s ==> (#[trigger] w[t]).1 != node
}

/// What `step` steps of a walk have met is the placement of as many nodes.
proof fn walk_is_placed(
    w: Seq<(u64, u64)>,
    home: u64,
    points: Set<(u64, u64)>,
    step: int,
    met: Seq<int>,
    r: Seq<u64>,
)
    requires
        is_walk(w, home),
        points == w.to_set(),
        0 <= step <= w.len(),
        met.len() == r.len(),
        forall|i: int| 0 <= i < met.len() ==> first_met(w, step, #[trigger] met[i], r[i]),
        forall|i: int, j: int| 0 <= i < j < met.len() ==> #[trigger] met[i] < #[trigger] met[j],
        forall|s: int| 0 <= s < step ==> r.contains((#[trigger] w[s]).1),
    ensures
        r.no_duplicates(),
        placed(points, home, r.len(), r),
        step == w.len() ==> forall|node: u64| on_ring(points, node) ==> r.contains(node),
{
    assert forall|i: int| 0 <= i < r.len() implies on_ring(points, #[trigger] r[i]) && reach(
        points,
        home,
        r[i],
    ) == clockwise(home, w[met[i]].0) by {
        assert(first_met(w, step, met[i], r[i]));
        reach_of_first(w, home, points, met[i]);
    }
    assert forall|i: int, j: int| 0 <= i < j < r.len() implies ahead(
        points,
        home,
        #[trigger] r[i],
        #[trigger] r[j],
    ) && r[i] != r[j] by {
        assert(first_met(w, step, met[i], r[i]));
        assert(first_met(w, step, met[j], r[j]));
        assert(met[i] < met[j]);
        assert(w[met[i]].1 != r[j]);
    }
    assert forall|node: u64| on_ring(points, node) && !r.contains(node) implies step < w.len()
        && forall|i: int| 0 <= i < r.len() ==> #[trigger] ahead(points, home, r[i], node) by {
        let pos = choose|pos: u64| points.contains((pos, node));
        let k = w.index_of((pos, node));
        assert(w.contains((pos, node)));
        assert(w[k].1 == node);
        let t = first_step(w, node, k);
        if t < step {
            assert(r.contains(w[t].1));
        }
        reach_of_first(w, home, points, t);
        assert forall|i: int| 0 <= i < r.len() implies #[trigger] ahead(points, home, r[i], node) by {
            assert(first_met(w, step, met[i], r[i]));
            assert(met[i] < t);
            assert(r.contains(r[i]));
        }
    }
}

/// Asking for fewer replicas gives the first of the replicas.
pub proof fn fewer_replicas_are_a_prefix(
    points: Set<(u64, u64)>,
    home: u64,
    n: nat,
    m: nat,
    r: Seq<u64>,
)
    requires
        placed(points, home, n, r),
        m <= n,
    ensures
        placed(points, home, m, r.take(if m <= r.len() { m as int } else { r.len() as int })),
{
    let k = if m <= r.len() { m as int } else { r.len() as int };
    let q = r.take(k);
    assert forall|i: int| 0 <= i < q.len() implies on_ring(points, #[trigger] q[i]) by {
        assert(q[i] == r[i]);
    }
    assert forall|i: int, j: int| 0 <= i < j < q.len() implies ahead(
        points,
        home,
        #[trigger] q[i],
        #[trigger] q[j],
    ) by {
        assert(q[i] == r[i] && q[j] == r[j]);
    }
    assert forall|node: u64| on_ring(points, node) && !q.contains(node) implies q.len() == m
        && forall|i: int| 0 <= i < q.len() ==> #[trigger] ahead(points, home, q[i], node) by {
        if r.contains(node) {
            let j = r.index_of(node);
            if j < k {
                assert(q[j] == node);
            }
            assert forall|i: int| 0 <= i < q.len() implies #[trigger] ahead(points, home, q[i], node) by {
                assert(ahead(points, home, r[i], r[j]));
            }
        } else {
            assert(r.len() == n);
            assert forall|i: int| 0 <= i < q.len() implies #[trigger] ahead(points, home, q[i], node) by {
                assert(ahead(points, home, r[i], node));
            }
        }
    }
}

proof fn nearest_point(points: Set<(u64, u64)>, home: u64, node: u64, pos: u64)
    requires
        points.contains((pos, node)),
    ensures
        is_reach(points, home, node, reach(points, home, node)),
    decreases clockwise(home, pos),
{
    if exists|q: u64|
        #[trigger] points.contains((q, node)) && clockwise(home, q) < clockwise(home, pos) {
        let q = choose|q: u64|
            #[trigger] points.contains((q, node)) && clockwise(home, q) < clockwise(home, pos);
        nearest_point(points, home, node, q);
    } else {
        let d = clockwise(home, pos);
        assert(is_reach(points, home, node, d));
    }
}

/// How near a node is depends on its own points alone.
proof fn reach_ignores_others(a: Set<(u64, u64)>, b: Set<(u64, u64)>, home: u64, node: u64)
    requires
        forall|pos: u64| a.contains((pos, node)) <==> b.contains((pos, node)),
        on_ring(a, node),
    ensures
        on_ring(b, node),
        reach(a, home, node) == reach(b, home, node),
{
    let pos = choose|pos: u64| a.contains((pos, node));
    assert(b.contains((pos, node)));
    nearest_point(a, home, node, pos);
    let d = reach(a, home, node);
    let near = choose|pos: u64| #[trigger] a.contains((pos, node)) && d == clockwise(home, pos);
    assert(b.contains((near, node)));
    assert(is_reach(b, home, node, d));
    reach_is(b, home, node, d);
}

/// A run of distinct nodes without `node`.
pub open spec fn without(replicas: Seq<u64>, node: u64) -> Seq<u64> {
    if replicas.contains(node) {
        replicas.remove(replicas.index_of(node))
    } else {
        replicas
    }
}

/// When a node joins, a shard's other replicas are those that it had, from the first on
/// and in their order.
pub proof fn join_keeps_the_first_replicas(
    nodes: Set<u64>,
    joiner: u64,
    vnodes: u32,
    home: u64,
    n: nat,
    old_replicas: Seq<u64>,
    new_replicas: Seq<u64>,
)
    requires
        !nodes.contains(joiner),
        placed(ring_points(nodes, vnodes), home, n, old_replicas),
        placed(ring_points(nodes.insert(joiner), vnodes), home, n, new_replicas),
    ensures
        without(new_replicas, joiner).len() <= old_replicas.len(),
        without(new_replicas, joiner) == old_replicas.take(
            without(new_replicas, joiner).len() as int,
        ),
{
    let a = ring_points(nodes, vnodes);
    let b = ring_points(nodes.insert(joiner), vnodes);
    let f = without(new_replicas, joiner);
    let moved = new_replicas.contains(joiner);
    let q = new_replicas.index_of(joiner);
    if moved {
        assert(new_replicas[q] == joiner);
    }
    assert(!on_ring(a, joiner));
    assert forall|i: int| 0 <= i < f.len() implies (#[trigger] f[i]) == new_replicas[if moved && i >= q {
        i + 1
    } else {
        i
    }] by {}
    assert forall|i: int| 0 <= i < f.len() implies on_ring(a, #[trigger] f[i]) && f[i] != joiner && reach(
        a,
        home,
        f[i],
    ) == reach(b, home, f[i]) by {
        let k = if moved && i >= q { i + 1 } else { i };
        assert(f[i] == new_replicas[k]);
        if f[i] == joiner {
            assert(moved);
            if k < q {
                assert(ahead(b, home, new_replicas[k], new_replicas[q]));
            } else {
                assert(ahead(b, home, new_replicas[q], new_replicas[k]));
            }
        }
        reach_ignores_others(b, a, home, f[i]);
    }
    assert forall|i: int, j: int| 0 <= i < j < f.len() implies ahead(
        a,
        home,
        #[trigger] f[i],
        #[trigger] f[j],
    ) by {
        let k = if moved && i >= q { i + 1 } else { i };
        let l = if moved && j >= q { j + 1 } else { j };
        assert(f[i] == new_replicas[k] && f[j] == new_replicas[l]);
        assert(ahead(b, home, new_replicas[k], new_replicas[l]));
    }
    assert forall|node: u64| on_ring(a, node) && !f.contains(node) implies new_replicas.len() == n
        && forall|i: int| 0 <= i < f.len() ==> #[trigger] ahead(a, home, f[i], node) by {
        reach_ignores_others(a, b, home, node);
        assert(!new_replicas.contains(node)) by {
            if new_replicas.contains(node) {
                let k = new_replicas.index_of(node);
                assert(new_replicas[k] == node);
                assert(!moved || k != q);
                let i = if moved && k > q { k - 1 } else { k };
                assert(f[i] == node);
            }
        }
        assert forall|i: int| 0 <= i < f.len() implies #[trigger] ahead(a, home, f[i], node) by {
            let k = if moved && i >= q { i + 1 } else { i };
            assert(f[i] == new_replicas[k]);
            assert(ahead(b, home, new_replicas[k], node));
        }
    }
    if moved {
        let m = (n - 1) as nat;
        assert(placed(a, home, m, f));
        fewer_replicas_are_a_prefix(a, home, n, m, old_replicas);
        let k = if m <= old_replicas.len() { m as int } else { old_replicas.len() as int };
        placement_is_unique(a, home, m, f, old_replicas.take(k));
    } else {
        assert(placed(a, home, n, f));
        placement_is_unique(a, home, n, f, old_replicas);
        assert(old_replicas.take(old_replicas.len() as int) =~= old_replicas);
    }
}

/// When a node joins, shards move to it and nowhere else: each replica of a shard
/// is the new node or was a replica before.
pub proof fn join_moves_shards_only_to_joiner(
    nodes: Set<u64>,
    joiner: u64,
    vnodes: u32,
    home: u64,
    n: nat,
    old_replicas: Seq<u64>,
    new_replicas: Seq<u64>,
)
    requires
        !nodes.contains(joiner),
        placed(ring_points(nodes, vnodes), home, n, old_replicas),
        placed(ring_points(nodes.insert(joiner), vnodes), home, n, new_replicas),
    ensures
        forall|i: int|
            0 <= i < new_replicas.len() ==> (#[trigger] new_replicas[i]) == joiner
                || old_replicas.contains(new_replicas[i]),
{
    let a = ring_points(nodes, vnodes);
    let b = ring_points(nodes.insert(joiner), vnodes);
    assert forall|i: int| 0 <= i < new_replicas.len() implies (#[trigger] new_replicas[i]) == joiner
        || old_replicas.contains(new_replicas[i]) by {
        let x = new_replicas[i];
        if x != joiner && !old_replicas.contains(x) {
            assert(on_ring(b, x));
            reach_ignores_others(b, a, home, x);
            assert(old_replicas.len() == n);
            // All n old replicas are still ahead of x, so x cannot be one of the first n.
            assert forall|j: int| 0 <= j < n implies new_replicas.take(i).contains(
                #[trigger] old_replicas[j],
            ) by {
                let y = old_replicas[j];
                assert(on_ring(a, y));
                reach_ignores_others(a, b, home, y);
                assert(ahead(a, home, y, x));
                assert(ahead(b, home, y, x));
                if !new_replicas.contains(y) {
                    assert(ahead(b, home, new_replicas[i], y));
                }
                let k = new_replicas.index_of(y);
                assert(new_replicas[k] == y);
                if k > i {
                    assert(ahead(b, home, new_replicas[i], new_replicas[k]));
                }
                assert(new_replicas.take(i)[k] == y);
            }
            assert(old_replicas.no_duplicates()) by {
                assert forall|p: int, q: int| 0 <= p < old_replicas.len() && 0 <= q < old_replicas.len() && p
                    != q implies old_replicas[p] != old_replicas[q] by {
                    if p < q {
                        assert(ahead(a, home, old_replicas[p], old_replicas[q]));
                    } else {
                        assert(ahead(a, home, old_replicas[q], old_replicas[p]));
                    }
                }
            }
            old_replicas.unique_seq_to_set();
            let front = new_replicas.take(i);
            vstd::seq_lib::seq_to_set_is_finite(front);
            front.lemma_cardinality_of_set();
            assert(old_replicas.to_set().subset_of(front.to_set())) by {
                assert forall|y: u64| old_replicas.to_set().contains(y) implies front.to_set().contains(y) by {
                    let j = old_replicas.index_of(y);
                    assert(front.contains(old_replicas[j]));
                }
            }
            vstd::set_lib::lemma_len_subset(old_replicas.to_set(), front.to_set());
            assert(false);
        }
    }
}

/// The first of some nodes that a walk meets.
proof fn first_ahead(points: Set<(u64, u64)>, home: u64, s: Set<u64>) -> (m: u64)
    requires
        s.finite(),
        s.len() > 0,
    ensures
        s.contains(m),
        forall|x: u64| #[trigger] s.contains(x) ==> x == m || ahead(points, home, m, x),
    decreases s.len(),
{
    let x = s.choose();
    let t = s.remove(x);
    if t.len() == 0 {
        assert forall|y: u64| #[trigger] s.contains(y) implies y == x by {
            if y != x {
                assert(t.contains(y));
            }
        }
        x
    } else {
        let k = first_ahead(points, home, t);
        let m = if ahead(points, home, x, k) { x } else { k };
        assert forall|y: u64| #[trigger] s.contains(y) implies y == m || ahead(points, home, m, y) by {
            if y != x {
                assert(t.contains(y));
            }
        }
        m
    }
}

proof fn some_placed(points: Set<(u64, u64)>, nodes: Set<u64>, home: u64, n: nat) -> (r: Seq<u64>)
    requires
        nodes.finite(),
        forall|x: u64| on_ring(points, x) ==> nodes.contains(x),
    ensures
        placed(points, home, n, r),
    decreases n,
{
    if n == 0 {
        Seq::empty()
    } else {
        let m = (n - 1) as nat;
        let q = some_placed(points, nodes, home, m);
        let rest = nodes.filter(|x: u64| on_ring(points, x) && !q.contains(x));
        if rest.len() == 0 {
            assert forall|x: u64| on_ring(points, x) && !q.contains(x) implies false by {
                assert(rest.contains(x));
            }
            q
        } else {
            let f = first_ahead(points, home, rest);
            let r = q.push(f);
            assert(rest.contains(f));
            assert(q.len() == m);
            assert forall|i: int, j: int| 0 <= i < j < r.len() implies ahead(
                points,
                home,
                #[trigger] r[i],
                #[trigger] r[j],
            ) by {
                assert(r[i] == q[i]);
                if j < q.len() {
                    assert(r[j] == q[j]);
                } else {
                    assert(ahead(points, home, q[i], f));
                }
            }
            assert forall|i: int| 0 <= i < r.len() implies on_ring(points, #[trigger] r[i]) by {
                if i < q.len() {
                    assert(r[i] == q[i]);
                }
            }
            assert forall|x: u64| on_ring(points, x) && !r.contains(x) implies r.len() == n && forall|i: int|
                0 <= i < r.len() ==> #[trigger] ahead(points, home, r[i], x) by {
                assert(r[q.len() as int] == f);
                assert(r.contains(f));
                assert(!q.contains(x)) by {
                    if q.contains(x) {
                        let i = q.index_of(x);
                        assert(r[i] == x);
                    }
                }
                assert(rest.contains(x));
                assert forall|i: int| 0 <= i < r.len() implies #[trigger] ahead(points, home, r[i], x) by {
                    if i < q.len() {
                        assert(r[i] == q[i]);
                        assert(ahead(points, home, q[i], x));
                    }
                }
            }
            r
        }
    }
}

/// Every shard has a placement on the ring of finitely many nodes.
pub proof fn placement_exists(nodes: Set<u64>, vnodes: u32, home: u64, n: nat)
    requires
        nodes.finite(),
    ensures
        placed(
            ring_points(nodes, vnodes),
            home,
            n,
            placement(ring_points(nodes, vnodes), home, n),
        ),
{
    let points = ring_points(nodes, vnodes);
    assert forall|x: u64| on_ring(points, x) implies nodes.contains(x) by {
        let pos = choose|pos: u64| points.contains((pos, x));
        assert(points.contains((pos, x)));
    }
    let r = some_placed(points, nodes, home, n);
    placed_is_placement(points, home, n, r);
}

/// A ring with virtual nodes has every member on it.
pub proof fn members_are_on_ring(nodes: Set<u64>, vnodes: u32)
    requires
        vnodes > 0,
    ensures
        forall|node: u64| nodes.contains(node) <==> on_ring(ring_points(nodes, vnodes), node),
{
    let points = ring_points(nodes, vnodes);
    assert forall|node: u64| nodes.contains(node) <==> on_ring(points, node) by {
        if nodes.contains(node) {
            let p = (vnode_position(node, 0), node);
            assert(p.0 == vnode_position(p.1, 0u32));
            assert(is_vnode(p, vnodes));
            assert(points.contains(p));
        }
    }
}

/// The distance clockwise wraps round: it is the difference of the positions modulo 2^64.
pub proof fn distance_wraps_round(home: u64, pos: u64)
    ensures
        clockwise(home, pos) == (pos - home) % 0x1_0000_0000_0000_0000,
{
}

/// A ring holds one point for each virtual node of each member, at the hash of the
/// member's id and the virtual node's number, and no other.
pub proof fn ring_holds_each_virtual_node(nodes: Set<u64>, vnodes: u32, pos: u64, node: u64)
    ensures
        ring_points(nodes, vnodes).contains((pos, node)) <==> nodes.contains(node) && exists|vi: u32|
            vi < vnodes && pos == #[trigger] xxh64_of(le64(node) + le32(vi), 0),
{
    if ring_points(nodes, vnodes).contains((pos, node)) {
        let vi = choose|vi: u32| vi < vnodes && pos == #[trigger] vnode_position(node, vi);
        assert(pos == xxh64_of(le64(node) + le32(vi), 0));
    }
    if nodes.contains(node) && exists|vi: u32|
        vi < vnodes && pos == #[trigger] xxh64_of(le64(node) + le32(vi), 0) {
        let vi = choose|vi: u32| vi < vnodes && pos == #[trigger] xxh64_of(le64(node) + le32(vi), 0);
        let p = (pos, node);
        assert(p.0 == vnode_position(p.1, vi));
        assert(is_vnode(p, vnodes));
    }
}

/// A shard's home is the hash of the collection's name and the shard's number, and a
/// point's shard goes by the hash of its id alone.
pub proof fn hashes_are_of_names_and_numbers(collection: Seq<char>, shard_idx: u32, id: u64)
    ensures
        home_of(collection, shard_idx) == xxh64_of(utf8(collection) + le32(shard_idx), 0),
        id_hash(id) == xxh64_of(le64(id), 0),
{
}

/// Each replica of a shard owns the first point that a walk clockwise from the shard's
/// home meets and that belongs to none of the replicas before it; of points at one
/// position the one of the lower node comes first. The primary, in particular, owns the
/// first point of all.
pub proof fn replica_owns_the_next_point(points: Set<(u64, u64)>, home: u64, n: nat, r: Seq<u64>, i: int) -> (at:
    u64)
    requires
        placed(points, home, n, r),
        0 <= i < r.len(),
    ensures
        points.contains((at, r[i])),
        forall|pos: u64, node: u64| #[trigger]
            points.contains((pos, node)) && !r.take(i).contains(node) ==> {
                let d = (at - home) % 0x1_0000_0000_0000_0000;
                let e = (pos - home) % 0x1_0000_0000_0000_0000;
                d < e || (d == e && r[i] <= node)
            },
{
    let me = r[i];
    assert(on_ring(points, me));
    let some = choose|pos: u64| points.contains((pos, me));
    assert(points.contains((some, me)));
    nearest_point(points, home, me, some);
    let d = reach(points, home, me);
    let at = choose|pos: u64| #[trigger] points.contains((pos, me)) && d == clockwise(home, pos);
    assert(points.contains((at, me)));
    distance_wraps_round(home, at);
    assert forall|pos: u64, node: u64| #[trigger]
        points.contains((pos, node)) && !r.take(i).contains(node) implies {
        let d = (at - home) % 0x1_0000_0000_0000_0000;
        let e = (pos - home) % 0x1_0000_0000_0000_0000;
        d < e || (d == e && r[i] <= node)
    } by {
        distance_wraps_round(home, pos);
        nearest_point(points, home, node, pos);
        assert(on_ring(points, node));
        if node != me {
            assert(ahead(points, home, me, node)) by {
                if r.contains(node) {
                    let j = r.index_of(node);
                    if j < i {
                        assert(r.take(i)[j] == node);
                    }
                    assert(i < j);
                }
            }
        }
    }
    at
}

/// A node that is left out of a placement is left out because enough others come first:
/// each of a shard's replicas owns a point that a walk meets no later than any of its own.
pub proof fn left_out_node_comes_later(
    points: Set<(u64, u64)>,
    home: u64,
    n: nat,
    r: Seq<u64>,
    pos: u64,
    node: u64,
    i: int,
) -> (at: u64)
    requires
        placed(points, home, n, r),
        points.contains((pos, node)),
        !r.contains(node),
        0 <= i < r.len(),
    ensures
        r.len() == n,
        points.contains((at, r[i])),
        (at - home) % 0x1_0000_0000_0000_0000 <= (pos - home) % 0x1_0000_0000_0000_0000,
{
    assert(on_ring(points, node));
    assert(!r.take(i).contains(node)) by {
        if r.take(i).contains(node) {
            let j = r.take(i).index_of(node);
            assert(r[j] == node);
        }
    }
    replica_owns_the_next_point(points, home, n, r, i)
}

} // verus!
