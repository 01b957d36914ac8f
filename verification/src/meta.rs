//! The metadata-plane domain: what the replicated log carries and what its state
//! machine holds.
//!
//! [`MetaState`] holds the node-address directory, the collection schemas and the
//! shard states. Join, leave, create, drop and shard-state transitions are all
//! [`MetaRequest`]s applied in log order.
//!
//! The shard map is derived: it is recomputed from the membership set and the
//! schemas via [`crate::placement`], so it is never an independent source of truth
//! that can drift. Shard states (Active/Syncing/Dead) are explicit, since they are
//! operational facts that the ring cannot infer.

use std::collections::{BTreeMap, BTreeSet};

use vstd::prelude::*;

use crate::names::NameMap;
use crate::placement::{Ring, DEFAULT_VNODES};
use crate::text::{comes_before, same};

verus! {

use vstd::std_specs::iter::IteratorSpec;
use crate::placement::{
    ahead, home_of, on_ring, placed, placement, placement_exists, ring_points,
};
use crate::text::{before, before_is_total, before_is_transitive};

broadcast use vstd::std_specs::btree::group_btree_axioms;

/// Distance metric for a collection.
#[derive(Debug, Clone, Copy, PartialEq, Eq, Structural)]
pub enum Metric {
    L2,
    Cosine,
}

/// Operational state of one shard replica.
#[derive(Debug, Clone, Copy, PartialEq, Eq, Structural)]
pub enum ShardState {
    /// Live and serving reads/writes.
    Active,
    /// Receiving a shard transfer; not yet authoritative.
    Syncing,
    /// Known dead; excluded from reads until recovered.
    Dead,
}

/// Schema-level facts about a collection, fixed at creation.
#[derive(Debug, Clone, Copy, PartialEq, Eq, Structural)]
pub struct CollectionSchema {
    pub dim: u32,
    pub metric: Metric,
    pub shard_count: u32,
    pub replication_n: u32,
}

/// One replica assignment in the derived shard map: which node holds a given
/// shard of a given collection, and that replica's operational state.
#[derive(Debug, Clone, PartialEq, Eq)]
pub struct ShardAssignment {
    pub collection: String,
    pub shard_idx: u32,
    pub node_id: u64,
    pub state: ShardState,
}

/// What a replica assignment says.
pub struct AssignmentView {
    pub collection: Seq<char>,
    pub shard_idx: u32,
    pub node_id: u64,
    pub state: ShardState,
}

impl View for ShardAssignment {
    type V = AssignmentView;

    open spec fn view(&self) -> AssignmentView {
        AssignmentView {
            collection: self.collection@,
            shard_idx: self.shard_idx,
            node_id: self.node_id,
            state: self.state,
        }
    }
}

/// A mutation applied through the replicated log. Data-plane point operations are
/// not here: they never go through that log.
#[derive(Debug, Clone, PartialEq, Eq)]
pub enum MetaRequest {
    /// Register a node's advertise address in the directory.
    RegisterNode { node_id: u64, advertise_addr: String },
    /// Remove a node from the directory (paired with a membership change).
    DeregisterNode { node_id: u64 },
    /// Create a collection with a fixed schema.
    CreateCollection { name: String, schema: CollectionSchema },
    /// Drop a collection and all its shard assignments.
    DropCollection { name: String },
    /// Set a single shard replica's operational state.
    SetShardState { collection: String, shard_idx: u32, node_id: u64, state: ShardState },
    /// Changes nothing; commits a barrier through the log.
    Noop,
}

/// The response returned from applying a [`MetaRequest`].
#[derive(Debug, Clone, Default, PartialEq, Eq)]
pub struct MetaResponse {
    /// Human-readable note (e.g. "created", "exists", "dropped").
    pub note: String,
}

impl MetaResponse {
    pub fn new(note: &str) -> (r: Self)
        ensures
            r.note@ == note@,
    {
        Self { note: note.to_owned() }
    }
}

/// Names one replica of one shard: collection, shard, node.
pub type ReplicaKey = (Seq<char>, u32, u64);

/// The order of replicas: by collection, then shard, then node.
pub open spec fn replica_before(a: ReplicaKey, b: ReplicaKey) -> bool {
    ||| before(a.0, b.0)
    ||| a.0 == b.0 && (a.1 < b.1 || (a.1 == b.1 && a.2 < b.2))
}

proof fn replica_order_is_total(a: ReplicaKey, b: ReplicaKey)
    ensures
        replica_before(a, b) || replica_before(b, a) || a == b,
        !(replica_before(a, b) && replica_before(b, a)),
        !replica_before(a, a),
{
    before_is_total(a.0, b.0);
    before_is_total(a.0, a.0);
}

proof fn replica_order_is_transitive(a: ReplicaKey, b: ReplicaKey, c: ReplicaKey)
    requires
        replica_before(a, b),
        replica_before(b, c),
    ensures
        replica_before(a, c),
{
    if before(a.0, b.0) && before(b.0, c.0) {
        before_is_transitive(a.0, b.0, c.0);
    }
}

/// State overrides per shard replica, listed in the order of the replicas, so that two
/// that say the same are equal.
#[derive(Debug, Clone, PartialEq, Eq)]
pub struct ShardStates {
    entries: Vec<(String, u32, u64, ShardState)>,
}

impl ShardStates {
    pub closed spec fn key_at(self, i: int) -> ReplicaKey {
        let e = self.entries@[i];
        (e.0@, e.1, e.2)
    }

    pub closed spec fn size(self) -> nat {
        self.entries@.len()
    }

    spec fn at(self, k: ReplicaKey, i: int) -> bool {
        0 <= i < self.entries@.len() && self.key_at(i) == k
    }

    /// The replicas are in order, each once.
    pub closed spec fn wf(self) -> bool {
        forall|i: int, j: int|
            0 <= i < j < self.entries@.len() ==> replica_before(
                #[trigger] self.key_at(i),
                #[trigger] self.key_at(j),
            )
    }

    spec fn place(self, k: ReplicaKey) -> int {
        choose|i: int| self.at(k, i)
    }
}

impl View for ShardStates {
    type V = Map<ReplicaKey, ShardState>;

    closed spec fn view(&self) -> Map<ReplicaKey, ShardState> {
        Map::new(
            |k: ReplicaKey| exists|i: int| self.at(k, i),
            |k: ReplicaKey| self.entries@[self.place(k)].3,
        )
    }
}

impl ShardStates {
    proof fn lookup(self, k: ReplicaKey, i: int)
        requires
            self.wf(),
            self.at(k, i),
        ensures
            self@.contains_key(k),
            self@[k] == self.entries@[i].3,
    {
        let j = self.place(k);
        assert(self.at(k, j));
        replica_order_is_total(k, k);
        if i < j {
            assert(replica_before(self.key_at(i), self.key_at(j)));
        } else if j < i {
            assert(replica_before(self.key_at(j), self.key_at(i)));
        }
    }

    pub fn new() -> (r: Self)
        ensures
            r.wf(),
            r@ == Map::<ReplicaKey, ShardState>::empty(),
    {
        let r = ShardStates { entries: Vec::new() };
        assert(r@ =~= Map::<ReplicaKey, ShardState>::empty());
        r
    }

    pub fn is_empty(&self) -> (r: bool)
        ensures
            r == (self@ == Map::<ReplicaKey, ShardState>::empty()),
    {
        let r: bool = self.entries.len() == 0;
        proof {
            if r {
                assert(self@ =~= Map::<ReplicaKey, ShardState>::empty());
            } else {
                assert(self.at(self.key_at(0), 0));
                assert(self@.contains_key(self.key_at(0)));
            }
        }
        r
    }

    pub fn len(&self) -> (r: usize)
        ensures
            r == self.size(),
    {
        self.entries.len()
    }

    /// The entry at place `i` of the list.
    pub fn entry_at(&self, i: usize) -> (r: (&str, u32, u64, ShardState))
        requires
            self.wf(),
            i < self.size(),
        ensures
            (r.0@, r.1, r.2) == self.key_at(i as int),
            self@.contains_key((r.0@, r.1, r.2)),
            self@[(r.0@, r.1, r.2)] == r.3,
    {
        proof {
            self.lookup(self.key_at(i as int), i as int);
        }
        let e = &self.entries[i];
        (e.0.as_str(), e.1, e.2, e.3)
    }

    fn find(&self, collection: &str, shard_idx: u32, node_id: u64) -> (r: Option<usize>)
        requires
            self.wf(),
        ensures
            match r {
                Some(i) => self.at((collection@, shard_idx, node_id), i as int),
                None => !self@.contains_key((collection@, shard_idx, node_id)),
            },
    {
        let mut i: usize = 0;
        let ghost key = (collection@, shard_idx, node_id);
        while i < self.entries.len()
            invariant
                key == (collection@, shard_idx, node_id),
                i <= self.entries@.len(),
                forall|j: int| 0 <= j < i ==> !#[trigger] self.at(key, j),
            decreases self.entries@.len() - i,
        {
            let e = &self.entries[i];
            if e.1 == shard_idx && e.2 == node_id && same(e.0.as_str(), collection) {
                return Some(i);
            }
            i = i + 1;
        }
        None
    }

    pub fn get(&self, collection: &str, shard_idx: u32, node_id: u64) -> (r: Option<ShardState>)
        requires
            self.wf(),
        ensures
            match r {
                Some(s) => self@.contains_key((collection@, shard_idx, node_id)) && s == self@[(
                    collection@,
                    shard_idx,
                    node_id,
                )],
                None => !self@.contains_key((collection@, shard_idx, node_id)),
            },
    {
        match self.find(collection, shard_idx, node_id) {
            Some(i) => {
                proof {
                    self.lookup((collection@, shard_idx, node_id), i as int);
                }
                Some(self.entries[i].3)
            },
            None => None,
        }
    }

    pub fn remove(&mut self, collection: &str, shard_idx: u32, node_id: u64)
        requires
            old(self).wf(),
        ensures
            final(self).wf(),
            final(self)@ == old(self)@.remove((collection@, shard_idx, node_id)),
    {
        let ghost key = (collection@, shard_idx, node_id);
        match self.find(collection, shard_idx, node_id) {
            None => {
                assert(self@ =~= old(self)@.remove(key));
            },
            Some(p) => {
                let _gone = self.entries.remove(p);
                proof {
                    let a = *old(self);
                    let b = *self;
                    assert forall|i: int| 0 <= i < b.entries@.len() implies #[trigger] b.key_at(i)
                        == a.key_at(if i < p { i } else { i + 1 }) && b.entries@[i].3 == a.entries@[if i < p {
                        i
                    } else {
                        i + 1
                    }].3 by {}
                    assert forall|i: int, j: int| 0 <= i < j < b.entries@.len() implies replica_before(
                        #[trigger] b.key_at(i),
                        #[trigger] b.key_at(j),
                    ) by {
                        assert(b.key_at(i) == a.key_at(if i < p { i } else { i + 1 }));
                        assert(b.key_at(j) == a.key_at(if j < p { j } else { j + 1 }));
                    }
                    replica_order_is_total(key, key);
                    assert forall|k: ReplicaKey| b@.contains_key(k) <==> a@.contains_key(k) && k != key by {
                        if b@.contains_key(k) {
                            let i = b.place(k);
                            assert(b.at(k, i));
                            let j = if i < p { i } else { i + 1 };
                            assert(b.key_at(i) == a.key_at(j));
                            assert(a.at(k, j));
                            if k == key {
                                assert(a.key_at(p as int) == a.key_at(j));
                                if j < p {
                                    assert(replica_before(a.key_at(j), a.key_at(p as int)));
                                } else {
                                    assert(replica_before(a.key_at(p as int), a.key_at(j)));
                                }
                                assert(false);
                            }
                        }
                        if a@.contains_key(k) && k != key {
                            let i = a.place(k);
                            assert(a.at(k, i));
                            assert(i != p);
                            let j = if i < p { i } else { i - 1 };
                            assert(b.key_at(j) == a.key_at(i));
                            assert(b.at(k, j));
                        }
                    }
                    assert forall|k: ReplicaKey| #[trigger] b@.contains_key(k) implies b@[k] == a@[k] by {
                        let i = b.place(k);
                        assert(b.at(k, i));
                        let j = if i < p { i } else { i + 1 };
                        assert(b.key_at(i) == a.key_at(j));
                        b.lookup(k, i);
                        a.lookup(k, j);
                    }
                    assert(b@ =~= a@.remove(key));
                }
            },
        }
    }

    /// How many of the listed replicas come before one that is not listed.
    fn rank(&self, collection: &str, shard_idx: u32, node_id: u64) -> (r: usize)
        requires
            self.wf(),
            !self@.contains_key((collection@, shard_idx, node_id)),
        ensures
            r <= self.entries@.len(),
            forall|i: int|
                0 <= i < r ==> replica_before(
                    #[trigger] self.key_at(i),
                    (collection@, shard_idx, node_id),
                ),
            forall|i: int|
                r <= i < self.entries@.len() ==> replica_before(
                    (collection@, shard_idx, node_id),
                    #[trigger] self.key_at(i),
                ),
    {
        let ghost key = (collection@, shard_idx, node_id);
        let mut i: usize = 0;
        while i < self.entries.len()
            invariant
                self.wf(),
                key == (collection@, shard_idx, node_id),
                !self@.contains_key(key),
                i <= self.entries@.len(),
                forall|j: int| 0 <= j < i ==> replica_before(#[trigger] self.key_at(j), key),
            decreases self.entries@.len() - i,
        {
            let e = &self.entries[i];
            let first: bool = if same(e.0.as_str(), collection) {
                e.1 < shard_idx || (e.1 == shard_idx && e.2 < node_id)
            } else {
                comes_before(e.0.as_str(), collection)
            };
            proof {
                before_is_total(e.0@, e.0@);
                assert(first == replica_before(self.key_at(i as int), key));
            }
            if !first {
                proof {
                    assert forall|j: int| i <= j < self.entries@.len() implies replica_before(
                        key,
                        #[trigger] self.key_at(j),
                    ) by {
                        replica_order_is_total(key, self.key_at(i as int));
                        if self.key_at(i as int) == key {
                            assert(self.at(key, i as int));
                        }
                        if i < j {
                            replica_order_is_transitive(
                                key,
                                self.key_at(i as int),
                                self.key_at(j),
                            );
                        }
                    }
                }
                return i;
            }
            i = i + 1;
        }
        i
    }

    pub fn insert(&mut self, collection: &str, shard_idx: u32, node_id: u64, state: ShardState)
        requires
            old(self).wf(),
        ensures
            final(self).wf(),
            final(self)@ == old(self)@.insert((collection@, shard_idx, node_id), state),
    {
        let ghost key = (collection@, shard_idx, node_id);
        self.remove(collection, shard_idx, node_id);
        let ghost a = *self;
        let p: usize = self.rank(collection, shard_idx, node_id);
        self.entries.insert(p, (collection.to_owned(), shard_idx, node_id, state));
        proof {
            let b = *self;
            assert(b.key_at(p as int) == key);
            assert forall|i: int| 0 <= i < b.entries@.len() && i != p implies #[trigger] b.key_at(i)
                == a.key_at(if i < p { i } else { i - 1 }) && b.entries@[i].3 == a.entries@[if i < p {
                i
            } else {
                i - 1
            }].3 by {}
            assert forall|i: int, j: int| 0 <= i < j < b.entries@.len() implies replica_before(
                #[trigger] b.key_at(i),
                #[trigger] b.key_at(j),
            ) by {
                if i != p {
                    assert(b.key_at(i) == a.key_at(if i < p { i } else { i - 1 }));
                }
                if j != p {
                    assert(b.key_at(j) == a.key_at(if j < p { j } else { j - 1 }));
                }
            }
            assert forall|k: ReplicaKey| b@.contains_key(k) <==> a@.contains_key(k) || k == key by {
                if b@.contains_key(k) {
                    let i = b.place(k);
                    assert(b.at(k, i));
                    if i != p {
                        let j = if i < p { i } else { i - 1 };
                        assert(b.key_at(i) == a.key_at(j));
                        assert(a.at(k, j));
                    }
                }
                if a@.contains_key(k) {
                    let i = a.place(k);
                    assert(a.at(k, i));
                    let j = if i < p { i } else { i + 1 };
                    assert(b.key_at(j) == a.key_at(i));
                    assert(b.at(k, j));
                }
                if k == key {
                    assert(b.at(k, p as int));
                }
            }
            assert forall|k: ReplicaKey| #[trigger] b@.contains_key(k) implies b@[k] == a@.insert(key, state)[k] by {
                if k == key {
                    assert(b.at(k, p as int));
                    b.lookup(k, p as int);
                } else {
                    let i = a.place(k);
                    assert(a@.contains_key(k));
                    assert(a.at(k, i));
                    let j = if i < p { i } else { i + 1 };
                    assert(b.key_at(j) == a.key_at(i));
                    b.lookup(k, j);
                    a.lookup(k, i);
                }
            }
            assert(b@ =~= a@.insert(key, state));
            assert(b@ =~= old(self)@.insert(key, state));
        }
    }

    /// Drop every override of a replica on `node_id`.
    pub fn drop_node(&mut self, node_id: u64)
        requires
            old(self).wf(),
        ensures
            final(self).wf(),
            final(self)@ == old(self)@.remove_keys(
                old(self)@.dom().filter(|k: ReplicaKey| k.2 == node_id),
            ),
    {
        let mut kept = ShardStates::new();
        let mut i: usize = 0;
        while i < self.entries.len()
            invariant
                *self == *old(self),
                self.wf(),
                kept.wf(),
                i <= self.entries@.len(),
                forall|k: ReplicaKey|
                    kept@.contains_key(k) <==> k.2 != node_id && exists|j: int| 0 <= j < i && self.at(k, j),
                forall|k: ReplicaKey| #[trigger] kept@.contains_key(k) ==> self@.contains_key(k) && kept@[k] == self@[k],
            decreases self.entries@.len() - i,
        {
            let ghost before = kept@;
            let ghost key = self.key_at(i as int);
            let e = &self.entries[i];
            assert(self.at(key, i as int));
            if e.2 != node_id {
                kept.insert(e.0.as_str(), e.1, e.2, e.3);
            }
            proof {
                self.lookup(key, i as int);
                assert forall|k: ReplicaKey|
                    kept@.contains_key(k) <==> k.2 != node_id && exists|j: int| 0 <= j < i + 1 && self.at(k, j) by {
                    if exists|j: int| 0 <= j < i + 1 && self.at(k, j) {
                        let j = choose|j: int| 0 <= j < i + 1 && self.at(k, j);
                        if j == i {
                            assert(k == key);
                        } else {
                            assert(0 <= j < i && self.at(k, j));
                        }
                    }
                    if before.contains_key(k) {
                        let j = choose|j: int| 0 <= j < i && self.at(k, j);
                        assert(0 <= j < i + 1 && self.at(k, j));
                    }
                }
            }
            i = i + 1;
        }
        proof {
            let gone = self@.dom().filter(|k: ReplicaKey| k.2 == node_id);
            assert forall|k: ReplicaKey| kept@.contains_key(k) <==> self@.contains_key(k) && !gone.contains(k) by {
                if self@.contains_key(k) {
                    let j = self.place(k);
                    assert(self.at(k, j));
                    assert(0 <= j < i && self.at(k, j));
                }
            }
            assert(kept@ =~= old(self)@.remove_keys(gone));
        }
        *self = kept;
    }

    /// Drop every override of a replica of `collection`.
    pub fn drop_collection(&mut self, collection: &str)
        requires
            old(self).wf(),
        ensures
            final(self).wf(),
            final(self)@ == old(self)@.remove_keys(
                old(self)@.dom().filter(|k: ReplicaKey| k.0 == collection@),
            ),
    {
        let mut kept = ShardStates::new();
        let mut i: usize = 0;
        while i < self.entries.len()
            invariant
                *self == *old(self),
                self.wf(),
                kept.wf(),
                i <= self.entries@.len(),
                forall|k: ReplicaKey|
                    kept@.contains_key(k) <==> k.0 != collection@ && exists|j: int| 0 <= j < i && self.at(k, j),
                forall|k: ReplicaKey| #[trigger] kept@.contains_key(k) ==> self@.contains_key(k) && kept@[k] == self@[k],
            decreases self.entries@.len() - i,
        {
            let ghost before = kept@;
            let ghost key = self.key_at(i as int);
            let e = &self.entries[i];
            assert(self.at(key, i as int));
            if !same(e.0.as_str(), collection) {
                kept.insert(e.0.as_str(), e.1, e.2, e.3);
            }
            proof {
                self.lookup(key, i as int);
                assert forall|k: ReplicaKey|
                    kept@.contains_key(k) <==> k.0 != collection@ && exists|j: int| 0 <= j < i + 1 && self.at(k, j) by {
                    if exists|j: int| 0 <= j < i + 1 && self.at(k, j) {
                        let j = choose|j: int| 0 <= j < i + 1 && self.at(k, j);
                        if j == i {
                            assert(k == key);
                        } else {
                            assert(0 <= j < i && self.at(k, j));
                        }
                    }
                    if before.contains_key(k) {
                        let j = choose|j: int| 0 <= j < i && self.at(k, j);
                        assert(0 <= j < i + 1 && self.at(k, j));
                    }
                }
            }
            i = i + 1;
        }
        proof {
            let gone = self@.dom().filter(|k: ReplicaKey| k.0 == collection@);
            assert forall|k: ReplicaKey| kept@.contains_key(k) <==> self@.contains_key(k) && !gone.contains(k) by {
                if self@.contains_key(k) {
                    let j = self.place(k);
                    assert(self.at(k, j));
                    assert(0 <= j < i && self.at(k, j));
                }
            }
            assert(kept@ =~= old(self)@.remove_keys(gone));
        }
        *self = kept;
    }
}

/// Replicas in order, each once.
spec fn in_replica_order(keys: Seq<ReplicaKey>) -> bool {
    forall|i: int, j: int|
        0 <= i < j < keys.len() ==> replica_before(#[trigger] keys[i], #[trigger] keys[j])
}

proof fn replica_order_is_unique(a: Seq<ReplicaKey>, b: Seq<ReplicaKey>)
    requires
        in_replica_order(a),
        in_replica_order(b),
        forall|k: ReplicaKey| a.contains(k) <==> b.contains(k),
    ensures
        a == b,
    decreases a.len(),
{
    if a.len() == 0 {
        if b.len() > 0 {
            assert(b.contains(b[0]));
        }
        assert(a =~= b);
    } else {
        let m = a.len() - 1;
        assert(a.contains(a[m]) && b.contains(a[m]));
        let n = b.len() - 1;
        assert(b.contains(b[n]) && a.contains(b[n]));
        let i = a.index_of(b[n]);
        let j = b.index_of(a[m]);
        replica_order_is_total(a[m], b[n]);
        if i < m {
            assert(replica_before(a[i], a[m]));
            if j < n {
                assert(replica_before(b[j], b[n]));
            }
        }
        assert(a[m] == b[n]);
        let x = a.drop_last();
        let y = b.drop_last();
        replica_order_is_total(a[m], a[m]);
        assert forall|k: ReplicaKey| x.contains(k) <==> y.contains(k) by {
            if x.contains(k) {
                let p = x.index_of(k);
                assert(replica_before(a[p], a[m]));
                assert(a.contains(k) && b.contains(k));
                let q = b.index_of(k);
                assert(q != n);
                assert(y[q] == k);
            }
            if y.contains(k) {
                let p = y.index_of(k);
                assert(replica_before(b[p], b[n]));
                assert(b.contains(k) && a.contains(k));
                let q = a.index_of(k);
                assert(q != m);
                assert(x[q] == k);
            }
        }
        assert(in_replica_order(x)) by {
            assert forall|p: int, q: int| 0 <= p < q < x.len() implies replica_before(
                #[trigger] x[p],
                #[trigger] x[q],
            ) by {
                assert(replica_before(a[p], a[q]));
            }
        }
        assert(in_replica_order(y)) by {
            assert forall|p: int, q: int| 0 <= p < q < y.len() implies replica_before(
                #[trigger] y[p],
                #[trigger] y[q],
            ) by {
                assert(replica_before(b[p], b[q]));
            }
        }
        replica_order_is_unique(x, y);
        assert(a =~= x.push(a[m]));
        assert(b =~= y.push(b[n]));
    }
}

/// Overrides that say the same list the same replicas at the same places.
pub proof fn same_states_same_list(a: ShardStates, b: ShardStates)
    requires
        a.wf(),
        b.wf(),
        a@ == b@,
    ensures
        a.size() == b.size(),
        forall|i: int| 0 <= i < a.size() ==> #[trigger] a.key_at(i) == b.key_at(i),
{
    let x = Seq::new(a.size(), |i: int| a.key_at(i));
    let y = Seq::new(b.size(), |i: int| b.key_at(i));
    assert forall|k: ReplicaKey| x.contains(k) <==> y.contains(k) by {
        if x.contains(k) {
            let i = x.index_of(k);
            assert(a.at(k, i));
            assert(a@.contains_key(k) && b@.contains_key(k));
            let j = b.place(k);
            assert(b.at(k, j));
            assert(y[j] == k);
        }
        if y.contains(k) {
            let i = y.index_of(k);
            assert(b.at(k, i));
            assert(b@.contains_key(k) && a@.contains_key(k));
            let j = a.place(k);
            assert(a.at(k, j));
            assert(x[j] == k);
        }
    }
    assert(in_replica_order(x)) by {
        assert forall|p: int, q: int| 0 <= p < q < x.len() implies replica_before(
            #[trigger] x[p],
            #[trigger] x[q],
        ) by {
            assert(replica_before(a.key_at(p), a.key_at(q)));
        }
    }
    assert(in_replica_order(y)) by {
        assert forall|p: int, q: int| 0 <= p < q < y.len() implies replica_before(
            #[trigger] y[p],
            #[trigger] y[q],
        ) by {
            assert(replica_before(b.key_at(p), b.key_at(q)));
        }
    }
    replica_order_is_unique(x, y);
    assert forall|i: int| 0 <= i < a.size() implies #[trigger] a.key_at(i) == b.key_at(i) by {
        assert(x[i] == y[i]);
    }
}

/// The metadata: node addresses, schemas, and state overrides.
#[verifier::ext_equal]
pub struct MetaView {
    pub nodes: Map<u64, Seq<char>>,
    pub collections: Map<Seq<char>, CollectionSchema>,
    pub shard_states: Map<ReplicaKey, ShardState>,
}

/// The metadata that the state machine maintains.
#[derive(Debug, Clone, PartialEq, Eq)]
pub struct MetaState {
    /// node_id -> advertise address. The data-plane routing directory.
    pub nodes: BTreeMap<u64, String>,
    /// collection name -> schema.
    pub collections: NameMap<CollectionSchema>,
    /// Operational state overrides per replica. Absent = Active.
    pub shard_states: ShardStates,
}

impl View for MetaState {
    type V = MetaView;

    open spec fn view(&self) -> MetaView {
        MetaView {
            nodes: self.nodes@.map_values(|a: String| a@),
            collections: self.collections@,
            shard_states: self.shard_states@,
        }
    }
}

/// The metadata of a fresh cluster.
pub open spec fn empty_meta() -> MetaView {
    MetaView { nodes: Map::empty(), collections: Map::empty(), shard_states: Map::empty() }
}

/// The metadata after `req` was applied to `s`.
pub open spec fn applied(s: MetaView, req: MetaRequest) -> MetaView {
    match req {
        MetaRequest::RegisterNode { node_id, advertise_addr } => MetaView {
            nodes: s.nodes.insert(node_id, advertise_addr@),
            ..s
        },
        MetaRequest::DeregisterNode { node_id } => MetaView {
            nodes: s.nodes.remove(node_id),
            shard_states: s.shard_states.remove_keys(
                s.shard_states.dom().filter(|k: ReplicaKey| k.2 == node_id),
            ),
            ..s
        },
        MetaRequest::CreateCollection { name, schema } => if s.collections.contains_key(name@) {
            s
        } else {
            MetaView { collections: s.collections.insert(name@, schema), ..s }
        },
        MetaRequest::DropCollection { name } => MetaView {
            collections: s.collections.remove(name@),
            shard_states: s.shard_states.remove_keys(
                s.shard_states.dom().filter(|k: ReplicaKey| k.0 == name@),
            ),
            ..s
        },
        MetaRequest::SetShardState { collection, shard_idx, node_id, state } => MetaView {
            shard_states: if state == ShardState::Active {
                s.shard_states.remove((collection@, shard_idx, node_id))
            } else {
                s.shard_states.insert((collection@, shard_idx, node_id), state)
            },
            ..s
        },
        MetaRequest::Noop => s,
    }
}

/// The note that applying `req` to `s` returns.
pub open spec fn note_of(s: MetaView, req: MetaRequest) -> Seq<char> {
    match req {
        MetaRequest::RegisterNode { .. } => "registered"@,
        MetaRequest::DeregisterNode { .. } => "deregistered"@,
        MetaRequest::CreateCollection { name, .. } => if s.collections.contains_key(name@) {
            "exists"@
        } else {
            "created"@
        },
        MetaRequest::DropCollection { name } => if s.collections.contains_key(name@) {
            "dropped"@
        } else {
            "absent"@
        },
        MetaRequest::SetShardState { .. } => "shard-state-set"@,
        MetaRequest::Noop => "noop"@,
    }
}

/// The state of a replica: Active unless overridden.
pub open spec fn state_of(s: MetaView, collection: Seq<char>, shard_idx: u32, node: u64) -> ShardState {
    if s.shard_states.contains_key((collection, shard_idx, node)) {
        s.shard_states[(collection, shard_idx, node)]
    } else {
        ShardState::Active
    }
}

/// The replicas of a shard of a collection with replica count `n`, in clockwise
/// order from the shard's home.
pub open spec fn ring_replicas(nodes: Set<u64>, collection: Seq<char>, shard_idx: u32, n: u32) -> Seq<u64> {
    placement(ring_points(nodes, DEFAULT_VNODES), home_of(collection, shard_idx), n as nat)
}

/// The replicas of a shard: none where the collection is unknown.
pub open spec fn replicas_of(s: MetaView, collection: Seq<char>, shard_idx: u32) -> Seq<u64> {
    if s.collections.contains_key(collection) {
        ring_replicas(s.nodes.dom(), collection, shard_idx, s.collections[collection].replication_n)
    } else {
        Seq::empty()
    }
}

/// The assignments of one shard, in the order of its replicas.
pub open spec fn shard_rows(s: MetaView, collection: Seq<char>, shard_idx: u32) -> Seq<AssignmentView> {
    let replicas = replicas_of(s, collection, shard_idx);
    Seq::new(
        replicas.len(),
        |i: int|
            AssignmentView {
                collection,
                shard_idx,
                node_id: replicas[i],
                state: state_of(s, collection, shard_idx, replicas[i]),
            },
    )
}

/// The assignments of the first `n` shards of a collection.
pub open spec fn collection_rows(s: MetaView, collection: Seq<char>, n: nat) -> Seq<AssignmentView>
    decreases n,
{
    if n == 0 {
        Seq::empty()
    } else {
        collection_rows(s, collection, (n - 1) as nat) + shard_rows(s, collection, (n - 1) as u32)
    }
}

/// The assignments of the collections `names`, one after the other.
pub open spec fn map_rows(s: MetaView, names: Seq<Seq<char>>) -> Seq<AssignmentView>
    decreases names.len(),
{
    if names.len() == 0 {
        Seq::empty()
    } else {
        map_rows(s, names.drop_last()) + collection_rows(
            s,
            names.last(),
            s.collections[names.last()].shard_count as nat,
        )
    }
}

/// What a run of assignments says.
pub open spec fn assignment_views(rows: Seq<ShardAssignment>) -> Seq<AssignmentView> {
    rows.map_values(|a: ShardAssignment| a@)
}

impl Default for MetaState {
    fn default() -> (r: Self)
        ensures
            r.wf(),
            r@ == empty_meta(),
    {
        let r = MetaState {
            nodes: BTreeMap::new(),
            collections: NameMap::new(),
            shard_states: ShardStates::new(),
        };
        assert(r@ =~= empty_meta());
        r
    }
}

impl MetaState {
    /// The maps are well-formed, and Active is never stored as an override.
    pub open spec fn wf(self) -> bool {
        &&& self.collections.wf()
        &&& self.shard_states.wf()
        &&& forall|k: ReplicaKey| #[trigger]
            self.shard_states@.contains_key(k) ==> self.shard_states@[k] != ShardState::Active
    }

    /// Apply a committed [`MetaRequest`], mutating the metadata. Returns a short
    /// note describing what happened.
    pub fn apply(&mut self, req: &MetaRequest) -> (r: MetaResponse)
        requires
            old(self).wf(),
        ensures
            final(self).wf(),
            final(self)@ == applied(old(self)@, *req),
            r.note@ == note_of(old(self)@, *req),
    {
        match req {
            MetaRequest::RegisterNode { node_id, advertise_addr } => {
                let _before = self.nodes.insert(*node_id, advertise_addr.clone());
                assert(self@ =~= applied(old(self)@, *req));
                MetaResponse::new("registered")
            },
            MetaRequest::DeregisterNode { node_id } => {
                let _before = self.nodes.remove(node_id);
                self.shard_states.drop_node(*node_id);
                assert(self@ =~= applied(old(self)@, *req));
                MetaResponse::new("deregistered")
            },
            MetaRequest::CreateCollection { name, schema } => {
                if self.collections.contains_key(name.as_str()) {
                    MetaResponse::new("exists")
                } else {
                    self.collections.insert(name.clone(), *schema);
                    assert(self@ =~= applied(old(self)@, *req));
                    MetaResponse::new("created")
                }
            },
            MetaRequest::DropCollection { name } => {
                let existed: bool = self.collections.remove(name.as_str());
                self.shard_states.drop_collection(name.as_str());
                assert(self@ =~= applied(old(self)@, *req));
                if existed {
                    MetaResponse::new("dropped")
                } else {
                    MetaResponse::new("absent")
                }
            },
            MetaRequest::SetShardState { collection, shard_idx, node_id, state } => {
                if *state == ShardState::Active {
                    self.shard_states.remove(collection.as_str(), *shard_idx, *node_id);
                } else {
                    self.shard_states.insert(collection.as_str(), *shard_idx, *node_id, *state);
                }
                assert(self@ =~= applied(old(self)@, *req));
                MetaResponse::new("shard-state-set")
            },
            MetaRequest::Noop => MetaResponse::new("noop"),
        }
    }

    /// The set of physical node ids currently in the directory.
    pub fn node_set(&self) -> (r: BTreeSet<u64>)
        ensures
            r@ == self@.nodes.dom(),
    {
        let mut out: BTreeSet<u64> = BTreeSet::new();
        let ghost all = vstd::std_specs::btree::spec_keys_iter(&self.nodes).remaining();
        for node in iter: self.nodes.keys()
            invariant
                iter.seq() == all,
                forall|x: u64| out@.contains(x) <==> exists|j: int| 0 <= j < iter.index() && *#[trigger] all[j] == x,
        {
            let _new: bool = out.insert(*node);
        }
        proof {
            assert forall|x: u64| out@.contains(x) <==> self.nodes@.contains_key(x) by {
                if self.nodes@.contains_key(x) {
                    assert(all.unref().to_set().contains(x));
                    let j = all.unref().index_of(x);
                    assert(all.unref()[j] == x);
                    assert(*all[j] == x);
                }
                if out@.contains(x) {
                    let j = choose|j: int| 0 <= j < all.len() && *#[trigger] all[j] == x;
                    assert(all.unref()[j] == x);
                    assert(all.unref().to_set().contains(x));
                }
            }
            assert(out@ =~= self@.nodes.dom());
        }
        out
    }

    /// Build the consistent-hash ring from the current membership.
    pub fn ring(&self) -> (r: Ring)
        ensures
            r.wf(),
            r.nodes() == self@.nodes.dom(),
            r.points() == ring_points(self@.nodes.dom(), DEFAULT_VNODES),
    {
        Ring::new(&self.node_set(), DEFAULT_VNODES)
    }

    /// The operational state of a specific replica (Active unless overridden).
    pub fn shard_state(&self, collection: &str, shard_idx: u32, node_id: u64) -> (r: ShardState)
        requires
            self.wf(),
        ensures
            r == state_of(self@, collection@, shard_idx, node_id),
    {
        match self.shard_states.get(collection, shard_idx, node_id) {
            Some(state) => state,
            None => ShardState::Active,
        }
    }

    /// The replica node ids for a shard, in clockwise order from the home
    /// (first = primary used for single-replica routing). Empty if the
    /// collection is unknown or the cluster is empty.
    pub fn replicas_for_shard(&self, collection: &str, shard_idx: u32) -> (r: Vec<u64>)
        requires
            self.wf(),
        ensures
            r@ == replicas_of(self@, collection@, shard_idx),
    {
        match self.collections.get(collection) {
            None => Vec::new(),
            Some(schema) => self.ring().replicas_for_shard(
                collection,
                shard_idx,
                schema.replication_n,
            ),
        }
    }

    /// The full derived shard map: every (collection, shard, replica-node) with
    /// its current operational state, collections in the order of their names.
    pub fn shard_map(&self) -> (r: Vec<ShardAssignment>)
        requires
            self.wf(),
        ensures
            assignment_views(r@) == map_rows(self@, self.collections.names()),
    {
        let mut out: Vec<ShardAssignment> = Vec::new();
        let ring: Ring = self.ring();
        let ghost names = self.collections.names();
        let mut c: usize = 0;
        proof {
            assert(names.take(0) =~= Seq::empty());
            assert(assignment_views(out@) =~= map_rows(self@, names.take(0)));
        }
        while c < self.collections.len()
            invariant
                self.wf(),
                ring.wf(),
                ring.points() == ring_points(self@.nodes.dom(), DEFAULT_VNODES),
                names == self.collections.names(),
                c <= names.len(),
                assignment_views(out@) == map_rows(self@, names.take(c as int)),
            decreases names.len() - c,
        {
            let name: &str = self.collections.name_at(c);
            let schema: &CollectionSchema = self.collections.value_at(c);
            let ghost done = assignment_views(out@);
            proof {
                self.collections.walk();
                assert(self@.collections.contains_key(names[c as int]));
            }
            let mut shard_idx: u32 = 0;
            assert(done + collection_rows(self@, name@, 0) =~= done);
            while shard_idx < schema.shard_count
                invariant
                    self.wf(),
                    ring.wf(),
                    ring.points() == ring_points(self@.nodes.dom(), DEFAULT_VNODES),
                    self@.collections.contains_key(name@),
                    *schema == self@.collections[name@],
                    shard_idx <= schema.shard_count,
                    assignment_views(out@) == done + collection_rows(
                        self@,
                        name@,
                        shard_idx as nat,
                    ),
                decreases schema.shard_count - shard_idx,
            {
                let replicas: Vec<u64> = ring.replicas_for_shard(
                    name,
                    shard_idx,
                    schema.replication_n,
                );
                let ghost rows = shard_rows(self@, name@, shard_idx);
                let ghost prior = assignment_views(out@);
                let mut i: usize = 0;
                assert(prior + rows.take(0) =~= prior);
                while i < replicas.len()
                    invariant
                        self.wf(),
                        i <= replicas@.len(),
                        replicas@ == replicas_of(self@, name@, shard_idx),
                        rows == shard_rows(self@, name@, shard_idx),
                        assignment_views(out@) == prior + rows.take(i as int),
                    decreases replicas@.len() - i,
                {
                    let node_id: u64 = replicas[i];
                    let state: ShardState = self.shard_state(name, shard_idx, node_id);
                    let row = ShardAssignment {
                        collection: name.to_owned(),
                        shard_idx,
                        node_id,
                        state,
                    };
                    proof {
                        assert(row@ == rows[i as int]);
                        assert(assignment_views(out@.push(row)) =~= assignment_views(out@).push(
                            row@,
                        ));
                        assert(rows.take(i + 1) =~= rows.take(i as int).push(rows[i as int]));
                        assert((prior + rows.take(i as int)).push(row@) =~= prior + rows.take(i + 1));
                    }
                    out.push(row);
                    i = i + 1;
                }
                proof {
                    assert(rows.take(i as int) =~= rows);
                    let all = collection_rows(self@, name@, shard_idx as nat);
                    assert((done + all) + rows =~= done + (all + rows));
                }
                shard_idx = shard_idx + 1;
            }
            proof {
                let t = names.take(c + 1);
                assert(t.drop_last() =~= names.take(c as int));
                assert(t.last() == name@);
            }
            c = c + 1;
        }
        assert(names.take(c as int) =~= names);
        out
    }
}

/// Applying a request a second time changes nothing more.
pub proof fn apply_is_idempotent(s: MetaView, req: MetaRequest)
    ensures
        applied(applied(s, req), req) == applied(s, req),
{
    assert(applied(applied(s, req), req) =~= applied(s, req));
}

/// Active is never stored: setting it removes the override.
pub proof fn active_is_default(s: MetaView, collection: String, shard_idx: u32, node_id: u64)
    ensures
        ({
            let req = MetaRequest::SetShardState {
                collection,
                shard_idx,
                node_id,
                state: ShardState::Active,
            };
            &&& !applied(s, req).shard_states.contains_key((collection@, shard_idx, node_id))
            &&& state_of(applied(s, req), collection@, shard_idx, node_id) == ShardState::Active
        }),
{
}

/// Setting a replica's state is read back, and no other replica's state changes.
pub proof fn set_state_is_read_back(
    s: MetaView,
    collection: String,
    shard_idx: u32,
    node_id: u64,
    state: ShardState,
    other: ReplicaKey,
)
    ensures
        ({
            let t = applied(s, MetaRequest::SetShardState { collection, shard_idx, node_id, state });
            &&& state_of(t, collection@, shard_idx, node_id) == state
            &&& other != (collection@, shard_idx, node_id) ==> state_of(t, other.0, other.1, other.2)
                == state_of(s, other.0, other.1, other.2)
        }),
{
}

/// A node that left the directory has no override, and is placed for no shard.
pub proof fn deregistered_node_is_gone(
    s: MetaView,
    node_id: u64,
    collection: Seq<char>,
    shard_idx: u32,
    n: nat,
    replicas: Seq<u64>,
)
    requires
        placed(
            ring_points(
                applied(s, MetaRequest::DeregisterNode { node_id }).nodes.dom(),
                DEFAULT_VNODES,
            ),
            home_of(collection, shard_idx),
            n,
            replicas,
        ),
    ensures
        ({
            let t = applied(s, MetaRequest::DeregisterNode { node_id });
            &&& !t.nodes.contains_key(node_id)
            &&& !t.shard_states.contains_key((collection, shard_idx, node_id))
        }),
        !replicas.contains(node_id),
{
    let t = applied(s, MetaRequest::DeregisterNode { node_id });
    let points = ring_points(t.nodes.dom(), DEFAULT_VNODES);
    if replicas.contains(node_id) {
        let i = replicas.index_of(node_id);
        assert(on_ring(points, replicas[i]));
        let pos = choose|pos: u64| points.contains((pos, node_id));
        assert(points.contains((pos, node_id)));
    }
}

/// No two assignments name the same replica.
pub open spec fn each_replica_once(rows: Seq<AssignmentView>) -> bool {
    forall|i: int, j: int|
        0 <= i < j < rows.len() ==> {
            let (a, b) = (#[trigger] rows[i], #[trigger] rows[j]);
            a.collection != b.collection || a.shard_idx != b.shard_idx || a.node_id != b.node_id
        }
}

proof fn shard_rows_are_distinct(s: MetaView, collection: Seq<char>, shard_idx: u32)
    requires
        s.nodes.dom().finite(),
    ensures
        each_replica_once(shard_rows(s, collection, shard_idx)),
{
    let rows = shard_rows(s, collection, shard_idx);
    if s.collections.contains_key(collection) {
        let home = home_of(collection, shard_idx);
        let n = s.collections[collection].replication_n as nat;
        let points = ring_points(s.nodes.dom(), DEFAULT_VNODES);
        placement_exists(s.nodes.dom(), DEFAULT_VNODES, home, n);
        let replicas = replicas_of(s, collection, shard_idx);
        assert(placed(points, home, n, replicas));
        assert forall|i: int, j: int| 0 <= i < j < rows.len() implies (#[trigger] rows[i]).node_id != (
        #[trigger] rows[j]).node_id by {
            assert(ahead(points, home, replicas[i], replicas[j]));
        }
    }
}

proof fn collection_rows_are_distinct(s: MetaView, collection: Seq<char>, n: nat)
    requires
        s.nodes.dom().finite(),
        n <= u32::MAX,
    ensures
        each_replica_once(collection_rows(s, collection, n)),
        forall|i: int|
            0 <= i < collection_rows(s, collection, n).len() ==> {
                let row = #[trigger] collection_rows(s, collection, n)[i];
                row.collection == collection && row.shard_idx < n
            },
    decreases n,
{
    if n > 0 {
        let m = (n - 1) as nat;
        collection_rows_are_distinct(s, collection, m);
        shard_rows_are_distinct(s, collection, m as u32);
        let (a, b) = (collection_rows(s, collection, m), shard_rows(s, collection, m as u32));
        let rows = collection_rows(s, collection, n);
        assert(rows == a + b);
        assert forall|i: int| 0 <= i < rows.len() implies {
            let row = #[trigger] rows[i];
            row.collection == collection && row.shard_idx < n && (i >= a.len() ==> row.shard_idx == m)
        } by {
            if i < a.len() {
                assert(rows[i] == a[i]);
            } else {
                assert(rows[i] == b[i - a.len()]);
            }
        }
        assert forall|i: int, j: int| 0 <= i < j < rows.len() implies {
            let (x, y) = (#[trigger] rows[i], #[trigger] rows[j]);
            x.collection != y.collection || x.shard_idx != y.shard_idx || x.node_id != y.node_id
        } by {
            if j < a.len() {
                assert(rows[i] == a[i] && rows[j] == a[j]);
            } else if i >= a.len() {
                assert(rows[i] == b[i - a.len()] && rows[j] == b[j - a.len()]);
            } else {
                assert(rows[i] == a[i]);
            }
        }
    }
}

/// The shard map names each replica of each shard once.
pub proof fn shard_map_names_each_replica_once(s: MetaView, names: Seq<Seq<char>>)
    requires
        s.nodes.dom().finite(),
        names.no_duplicates(),
    ensures
        each_replica_once(map_rows(s, names)),
        forall|i: int|
            0 <= i < map_rows(s, names).len() ==> names.contains(
                (#[trigger] map_rows(s, names)[i]).collection,
            ),
    decreases names.len(),
{
    if names.len() > 0 {
        let d = names.drop_last();
        let last = names.last();
        shard_map_names_each_replica_once(s, d);
        let n = s.collections[last].shard_count as nat;
        collection_rows_are_distinct(s, last, n);
        let (a, b) = (map_rows(s, d), collection_rows(s, last, n));
        let rows = map_rows(s, names);
        assert(rows == a + b);
        assert forall|i: int| 0 <= i < a.len() implies (#[trigger] a[i]).collection != last
            && names.contains(a[i].collection) by {
            let k = d.index_of(a[i].collection);
            assert(d[k] == a[i].collection);
            assert(names[k] == d[k]);
            assert(names[names.len() - 1] == last);
        }
        assert(names[names.len() - 1] == last);
        assert forall|i: int| 0 <= i < rows.len() implies names.contains((#[trigger] rows[i]).collection) by {
            if i < a.len() {
                assert(rows[i] == a[i]);
            } else {
                assert(rows[i] == b[i - a.len()]);
            }
        }
        assert forall|i: int, j: int| 0 <= i < j < rows.len() implies {
            let (x, y) = (#[trigger] rows[i], #[trigger] rows[j]);
            x.collection != y.collection || x.shard_idx != y.shard_idx || x.node_id != y.node_id
        } by {
            if j < a.len() {
                assert(rows[i] == a[i] && rows[j] == a[j]);
            } else if i >= a.len() {
                assert(rows[i] == b[i - a.len()] && rows[j] == b[j - a.len()]);
            } else {
                assert(rows[i] == a[i]);
                assert(rows[j] == b[j - a.len()]);
            }
        }
    }
}

/// The metadata after `reqs` were applied to `s` in order.
pub open spec fn applied_all(s: MetaView, reqs: Seq<MetaRequest>) -> MetaView
    decreases reqs.len(),
{
    if reqs.len() == 0 {
        s
    } else {
        applied(applied_all(s, reqs.drop_last()), reqs.last())
    }
}

proof fn states_stay_with_their_collection(s: MetaView, name: Seq<char>, reqs: Seq<MetaRequest>)
    requires
        forall|i: int|
            0 <= i < reqs.len() ==> (#[trigger] reqs[i] matches MetaRequest::SetShardState {
                collection,
                ..
            } && collection@ == name),
    ensures
        applied_all(s, reqs).nodes == s.nodes,
        applied_all(s, reqs).collections == s.collections,
        forall|k: ReplicaKey|
            k.0 != name ==> (#[trigger] applied_all(s, reqs).shard_states.contains_key(k)
                <==> s.shard_states.contains_key(k)),
        forall|k: ReplicaKey|
            k.0 != name && #[trigger] applied_all(s, reqs).shard_states.contains_key(k)
                ==> applied_all(s, reqs).shard_states[k] == s.shard_states[k],
    decreases reqs.len(),
{
    if reqs.len() > 0 {
        let d = reqs.drop_last();
        assert forall|i: int| 0 <= i < d.len() implies (#[trigger] d[i] matches MetaRequest::SetShardState {
            collection,
            ..
        } && collection@ == name) by {
            assert(d[i] == reqs[i]);
        }
        states_stay_with_their_collection(s, name, d);
        assert(reqs[reqs.len() - 1] == reqs.last());
    }
}

/// Dropping a collection undoes its creation, whatever states its replicas went through
/// in between.
pub proof fn drop_undoes_create_and_states(
    s: MetaView,
    name: String,
    schema: CollectionSchema,
    reqs: Seq<MetaRequest>,
)
    requires
        !s.collections.contains_key(name@),
        forall|k: ReplicaKey| #[trigger] s.shard_states.contains_key(k) ==> k.0 != name@,
        forall|i: int|
            0 <= i < reqs.len() ==> (#[trigger] reqs[i] matches MetaRequest::SetShardState {
                collection,
                ..
            } && collection@ == name@),
    ensures
        applied(
            applied_all(applied(s, MetaRequest::CreateCollection { name, schema }), reqs),
            MetaRequest::DropCollection { name },
        ) == s,
{
    let created = applied(s, MetaRequest::CreateCollection { name, schema });
    states_stay_with_their_collection(created, name@, reqs);
    assert(applied(applied_all(created, reqs), MetaRequest::DropCollection { name }) =~= s);
}

/// Dropping a collection undoes its creation.
pub proof fn drop_undoes_create(s: MetaView, name: String, schema: CollectionSchema)
    requires
        !s.collections.contains_key(name@),
        forall|k: ReplicaKey| #[trigger] s.shard_states.contains_key(k) ==> k.0 != name@,
    ensures
        applied(
            applied(s, MetaRequest::CreateCollection { name, schema }),
            MetaRequest::DropCollection { name },
        ) == s,
{
    assert(applied(
        applied(s, MetaRequest::CreateCollection { name, schema }),
        MetaRequest::DropCollection { name },
    ) =~= s);
}

} // verus!
