//! A node's shards: what names one, and what the data plane reads from it.
//!
//! A collection is `shard_count` shards. A node only materializes the shards that it
//! is assigned by placement.

use vstd::prelude::*;

use crate::distance::Metric;
use crate::hlc::Hlc;
use crate::meta;
use crate::shard::{Shard, ShardError, Staged, WriteOutcome};
use crate::text::{dims_message, join, same, to_decimal};
use crate::wal::{WalOp, WalRecord};

verus! {

use vstd::std_specs::iter::IteratorSpec;
use crate::index::VectorIndex;
use crate::shard::{stale, ShardView};
use crate::text::{decimal, dims_text};

broadcast use vstd::std_specs::hash::group_hash_axioms;

/// Key identifying one shard replica on this node.
#[derive(Debug, Clone, PartialEq, Eq, Hash)]
pub struct ShardKey {
    pub collection: String,
    pub shard_idx: u32,
}

/// A fully-qualified reference to one shard on this node: which shard, plus the
/// schema facts (dim/metric) needed to open it.
#[derive(Debug, Clone)]
pub struct ShardRef<'a> {
    pub collection: &'a str,
    pub shard_idx: u32,
    pub dim: usize,
    pub metric: Metric,
}

/// A point as stored/returned by the data plane: id + version + value/tombstone.
#[derive(Debug)]
pub struct StoredPoint {
    pub id: u64,
    pub hlc: Hlc,
    pub tombstone: bool,
    pub vector: Vec<u32>,
    pub payload: Vec<u8>,
}

/// What a stored point says.
#[verifier::ext_equal]
pub struct StoredView {
    pub id: u64,
    pub hlc: Hlc,
    pub tombstone: bool,
    pub vector: Seq<u32>,
    pub payload: Seq<u8>,
}

impl View for StoredPoint {
    type V = StoredView;

    open spec fn view(&self) -> StoredView {
        StoredView {
            id: self.id,
            hlc: self.hlc,
            tombstone: self.tombstone,
            vector: self.vector@,
            payload: self.payload@,
        }
    }
}

impl Clone for StoredPoint {
    fn clone(&self) -> (r: Self)
        ensures
            r@ == self@,
    {
        let r = StoredPoint {
            id: self.id,
            hlc: self.hlc,
            tombstone: self.tombstone,
            vector: self.vector.clone(),
            payload: self.payload.clone(),
        };
        assert(r@ =~= self@);
        r
    }
}

/// Errors from the shard store.
#[derive(Debug, Clone, Copy, PartialEq, Eq, Structural)]
pub enum ShardStoreError {
    Shard(ShardError),
    DimMismatch { expected: usize, got: usize },
}

impl ShardStoreError {
    /// What the error says.
    pub open spec fn text(self) -> Seq<char> {
        match self {
            ShardStoreError::Shard(e) => "shard: "@ + e.text(),
            ShardStoreError::DimMismatch { expected, got } => dims_text(
                "dimension mismatch: collection is "@,
                expected as nat,
                got as nat,
            ),
        }
    }

    /// The error in words.
    pub fn message(self) -> (r: String)
        ensures
            r@ == self.text(),
    {
        match self {
            ShardStoreError::Shard(e) => join("shard: ", e.message().as_str()),
            ShardStoreError::DimMismatch { expected, got } => {
                dims_message("dimension mismatch: collection is ", expected, got)
            },
        }
    }
}

/// The hnsw metric that stands for a cluster-domain metric.
pub open spec fn index_metric(m: meta::Metric) -> Metric {
    match m {
        meta::Metric::L2 => Metric::L2,
        meta::Metric::Cosine => Metric::Cosine,
    }
}

/// Convert a cluster-domain metric to the index metric.
pub fn metric_from_cluster(m: meta::Metric) -> (r: Metric)
    ensures
        r == index_metric(m),
{
    match m {
        meta::Metric::L2 => Metric::L2,
        meta::Metric::Cosine => Metric::Cosine,
    }
}

/// What shard `s` stores for `id`: its version, with the vector where it is live.
/// Indexes keep no payload.
pub open spec fn stored_in(s: ShardView, id: u64) -> Option<StoredView> {
    if s.versions.contains_key(id) {
        Some(
            StoredView {
                id,
                hlc: s.versions[id].hlc,
                tombstone: s.versions[id].tombstone,
                vector: if s.points.contains_key(id) {
                    s.points[id]
                } else {
                    Seq::empty()
                },
                payload: Seq::empty(),
            },
        )
    } else {
        None
    }
}

impl<D: Fn(Metric, &[u32], &[u32]) -> u32> Shard<D> {
    /// The versioned point stored for `id`, live or tombstone, if the shard has seen it.
    pub fn get_versioned(&self, id: u64) -> (r: Option<StoredPoint>)
        requires
            self.wf(),
        ensures
            match r {
                Some(p) => stored_in(self@, id) == Some(p@),
                None => stored_in(self@, id) is None,
            },
    {
        match self.version(id) {
            None => None,
            Some(v) => {
                let vector: Vec<u32> = match self.get(id) {
                    Some(vector) => vector,
                    None => Vec::new(),
                };
                let p = StoredPoint {
                    id,
                    hlc: v.hlc,
                    tombstone: v.tombstone,
                    vector,
                    payload: Vec::new(),
                };
                assert(p@ =~= stored_in(self@, id).unwrap());
                Some(p)
            },
        }
    }

    /// Stage a write of the data plane to a shard of a `dim`-d collection, under
    /// last-writer-wins.
    pub fn stage(&self, dim: usize, rec: WalRecord) -> (r: Result<Staged, ShardStoreError>)
        requires
            rec@.body_len() + 8 < 0x1_0000_0000,
            rec@.op == WalOp::Delete ==> rec@.vector.len() == 0 && rec@.payload.len() == 0,
        ensures
            match r {
                Ok(staged) => {
                    &&& rec@.op == WalOp::Upsert ==> rec@.vector.len() == dim && dim == self.dim
                    &&& match staged {
                        Staged::Stale => stale(self@, rec@.id, rec@.hlc),
                        Staged::Append(w) => !stale(self@, rec@.id, rec@.hlc) && w.wf() && w.record@
                            == rec@,
                    }
                },
                Err(e) => rec@.op == WalOp::Upsert && e == if rec@.vector.len() != dim {
                    ShardStoreError::DimMismatch { expected: dim, got: rec@.vector.len() as usize }
                } else {
                    ShardStoreError::Shard(
                        ShardError::DimMismatch { expected: self.dim, got: dim },
                    )
                } && (rec@.vector.len() != dim || dim != self.dim),
            },
    {
        match rec.op {
            WalOp::Delete => {
                let staged: Staged = self.delete_versioned(rec.hlc, rec.id);
                assert(staged matches Staged::Append(w) ==> w.record@ =~= rec@);
                Ok(staged)
            },
            WalOp::Upsert => {
                let got: usize = rec.vector.len();
                if got != dim {
                    return Err(ShardStoreError::DimMismatch { expected: dim, got });
                }
                let ghost said = rec@;
                match self.upsert_versioned(rec.hlc, rec.id, rec.vector.as_slice(), rec.payload) {
                    Ok(staged) => {
                        assert(staged matches Staged::Append(w) ==> w.record@ =~= said);
                        Ok(staged)
                    },
                    Err(e) => Err(ShardStoreError::Shard(e)),
                }
            },
        }
    }

    /// Every record of the shard, live and tombstone, each once and in no particular
    /// order, so that another node can rebuild it.
    pub fn records(&self) -> (r: Vec<StoredPoint>)
        requires
            self.wf(),
        ensures
            forall|i: int|
                0 <= i < r@.len() ==> stored_in(self@, (#[trigger] r@[i]).id) == Some(r@[i]@),
            forall|id: u64| #[trigger]
                self@.versions.contains_key(id) ==> exists|i: int|
                    0 <= i < r@.len() && (#[trigger] r@[i]).id == id,
            forall|i: int, j: int| 0 <= i < j < r@.len() ==> (#[trigger] r@[i]).id != (#[trigger] r@[j]).id,
    {
        let mut out: Vec<StoredPoint> = Vec::new();
        let ghost all = vstd::std_specs::hash::spec_hash_map_iter(&self.versions).remaining();
        for (id, v) in iter: self.versions.iter()
            invariant
                self.wf(),
                iter.seq() == all,
                all.no_duplicates(),
                forall|j: int|
                    0 <= j < all.len() ==> self.versions@.contains_key(*(#[trigger] all[j]).0)
                        && self.versions@[*all[j].0] == *all[j].1,
                out@.len() == iter.index(),
                forall|j: int|
                    0 <= j < iter.index() ==> (#[trigger] out@[j]).id == *all[j].0 && stored_in(
                        self@,
                        out@[j].id,
                    ) == Some(out@[j]@),
        {
            if let Some(p) = self.get_versioned(*id) {
                assert(p@.id == *id);
                out.push(p);
            }
        }
        proof {
            assert forall|id: u64| #[trigger] self@.versions.contains_key(id) implies exists|i: int|
                0 <= i < out@.len() && (#[trigger] out@[i]).id == id by {
                let m = self.versions@;
                assert(all.contains((&id, &m[id])));
                let j = all.index_of((&id, &m[id]));
                assert(all[j] == (&id, &m[id]));
                assert(out@[j].id == id);
            }
            assert forall|i: int, j: int| 0 <= i < j < out@.len() implies (#[trigger] out@[i]).id
                != (#[trigger] out@[j]).id by {
                assert(all[i] != all[j]);
                assert(self.versions@[*all[i].0] == *all[i].1);
                assert(self.versions@[*all[j].0] == *all[j].1);
            }
        }
        out
    }
}

impl Staged {
    /// Whether the write wins last-writer-wins.
    pub fn outcome(&self) -> (r: WriteOutcome)
        ensures
            r == match *self {
                Staged::Stale => WriteOutcome::Stale,
                Staged::Append(_) => WriteOutcome::Applied,
            },
    {
        match self {
            Staged::Stale => WriteOutcome::Stale,
            Staged::Append(_) => WriteOutcome::Applied,
        }
    }
}

/// The directory of a shard, under its collection's.
pub fn shard_dir_name(shard_idx: u32) -> (r: String)
    ensures
        r@ == "shard_"@ + decimal(shard_idx as nat),
{
    join("shard_", to_decimal(shard_idx as u64).as_str())
}

/// This node's open shards, keyed by (collection, shard_idx).
pub struct ShardStore<T> {
    shards: Vec<(ShardKey, T)>,
}

impl<T> ShardStore<T> {
    /// The key at place `i`.
    pub closed spec fn key_at(self, i: int) -> (Seq<char>, u32) {
        (self.shards@[i].0.collection@, self.shards@[i].0.shard_idx)
    }

    /// `i` is the place of the shard `key`.
    pub closed spec fn is_at(self, key: (Seq<char>, u32), i: int) -> bool {
        0 <= i < self.shards@.len() && self.key_at(i) == key
    }

    /// Each shard occurs once.
    pub closed spec fn inv(self) -> bool {
        forall|i: int, j: int|
            0 <= i < j < self.shards@.len() ==> #[trigger] self.key_at(i) != #[trigger] self.key_at(j)
    }
}

impl<T> View for ShardStore<T> {
    type V = Map<(Seq<char>, u32), T>;

    closed spec fn view(&self) -> Map<(Seq<char>, u32), T> {
        Map::new(
            |k: (Seq<char>, u32)| exists|i: int| self.is_at(k, i),
            |k: (Seq<char>, u32)| self.shards@[choose|i: int| self.is_at(k, i)].1,
        )
    }
}

impl<T> ShardStore<T> {
    proof fn at(self, i: int)
        requires
            self.inv(),
            0 <= i < self.shards@.len(),
        ensures
            self@.contains_key(self.key_at(i)),
            self@[self.key_at(i)] == self.shards@[i].1,
    {
        let k = self.key_at(i);
        assert(self.is_at(k, i));
        let j = choose|j: int| self.is_at(k, j);
        if i < j {
            assert(self.key_at(i) != self.key_at(j));
        } else if j < i {
            assert(self.key_at(j) != self.key_at(i));
        }
    }

    pub fn new() -> (r: Self)
        ensures
            r.inv(),
            r@ == Map::<(Seq<char>, u32), T>::empty(),
    {
        let r = ShardStore { shards: Vec::new() };
        assert(r@ =~= Map::<(Seq<char>, u32), T>::empty());
        r
    }

    /// The shard, if it is open.
    pub fn get(&self, collection: &str, shard_idx: u32) -> (r: Option<&T>)
        requires
            self.inv(),
        ensures
            match r {
                Some(t) => self@.contains_key((collection@, shard_idx)) && *t == self@[(
                    collection@,
                    shard_idx,
                )],
                None => !self@.contains_key((collection@, shard_idx)),
            },
    {
        let n: usize = self.shards.len();
        let mut i: usize = 0;
        while i < n
            invariant
                self.inv(),
                n == self.shards@.len(),
                i <= n,
                forall|j: int| 0 <= j < i ==> !#[trigger] self.is_at((collection@, shard_idx), j),
            decreases n - i,
        {
            let k: &ShardKey = &self.shards[i].0;
            if k.shard_idx == shard_idx && same(k.collection.as_str(), collection) {
                proof {
                    self.at(i as int);
                }
                return Some(&self.shards[i].1);
            }
            i = i + 1;
        }
        None
    }

    /// Whether this node currently holds a materialized shard.
    pub fn has_shard(&self, collection: &str, shard_idx: u32) -> (r: bool)
        requires
            self.inv(),
        ensures
            r == self@.contains_key((collection@, shard_idx)),
    {
        self.get(collection, shard_idx).is_some()
    }

    /// Keep `shard` as the open shard, unless one is open: the one that came first stays.
    /// Returns whether it was kept.
    pub fn open(&mut self, collection: &str, shard_idx: u32, shard: T) -> (r: bool)
        requires
            old(self).inv(),
        ensures
            final(self).inv(),
            r == !old(self)@.contains_key((collection@, shard_idx)),
            final(self)@ == if r {
                old(self)@.insert((collection@, shard_idx), shard)
            } else {
                old(self)@
            },
    {
        if self.has_shard(collection, shard_idx) {
            return false;
        }
        let ghost key = (collection@, shard_idx);
        let ghost was = *self;
        self.shards.push((ShardKey { collection: collection.to_owned(), shard_idx }, shard));
        proof {
            let n = was.shards@.len() as int;
            assert(self.key_at(n) == key);
            assert forall|i: int| 0 <= i < n implies #[trigger] self.key_at(i) == was.key_at(i)
                && self.key_at(i) != key by {
                was.at(i);
            }
            assert(self.inv());
            self.at(n);
            assert forall|k: (Seq<char>, u32)| k != key implies (#[trigger] self@.contains_key(k)
                <==> was@.contains_key(k)) && (self@.contains_key(k) ==> self@[k] == was@[k]) by {
                if self@.contains_key(k) {
                    let i = choose|i: int| self.is_at(k, i);
                    assert(i != n);
                    self.at(i);
                    was.at(i);
                }
                if was@.contains_key(k) {
                    let i = choose|i: int| was.is_at(k, i);
                    was.at(i);
                    self.at(i);
                }
            }
            assert(self@ =~= was@.insert(key, shard));
        }
        true
    }

    fn remove_at(&mut self, i: usize)
        requires
            old(self).inv(),
            i < old(self).shards@.len(),
        ensures
            final(self).inv(),
            final(self).shards@ == old(self).shards@.remove(i as int),
            final(self)@ == old(self)@.remove(old(self).key_at(i as int)),
    {
        let ghost before = *self;
        let _gone: (ShardKey, T) = self.shards.remove(i);
        proof {
            let n = self.shards@.len() as int;
            let gone = before.key_at(i as int);
            assert forall|j: int| 0 <= j < n implies #[trigger] self.key_at(j) == before.key_at(
                if j < i {
                    j
                } else {
                    j + 1
                },
            ) by {}
            assert forall|a: int, b: int| 0 <= a < b < n implies #[trigger] self.key_at(a)
                != #[trigger] self.key_at(b) by {
                let x = if a < i {
                    a
                } else {
                    a + 1
                };
                let y = if b < i {
                    b
                } else {
                    b + 1
                };
                assert(before.key_at(x) != before.key_at(y));
            }
            assert forall|k: (Seq<char>, u32)| #[trigger] self@.contains_key(k) implies k != gone
                && before@.contains_key(k) && self@[k] == before@[k] by {
                let j = choose|j: int| self.is_at(k, j);
                self.at(j);
                let x = if j < i {
                    j
                } else {
                    j + 1
                };
                before.at(x);
                if x < i {
                    assert(before.key_at(x) != before.key_at(i as int));
                } else {
                    assert(before.key_at(i as int) != before.key_at(x));
                }
            }
            assert forall|k: (Seq<char>, u32)| #[trigger]
                before@.contains_key(k) && k != gone implies self@.contains_key(k) by {
                let j = choose|j: int| before.is_at(k, j);
                self.at(
                    if j < i {
                        j
                    } else {
                        j - 1
                    },
                );
            }
            assert(self@ =~= before@.remove(gone));
        }
    }

    /// Drop one materialized shard.
    pub fn drop_shard(&mut self, collection: &str, shard_idx: u32)
        requires
            old(self).inv(),
        ensures
            final(self).inv(),
            final(self)@ == old(self)@.remove((collection@, shard_idx)),
    {
        let ghost key = (collection@, shard_idx);
        let n: usize = self.shards.len();
        let mut i: usize = 0;
        while i < n
            invariant
                *self == *old(self),
                self.inv(),
                n == self.shards@.len(),
                i <= n,
                key == (collection@, shard_idx),
                forall|j: int| 0 <= j < i ==> !#[trigger] self.is_at(key, j),
            decreases n - i,
        {
            if self.shards[i].0.shard_idx == shard_idx && same(
                self.shards[i].0.collection.as_str(),
                collection,
            ) {
                assert(self.key_at(i as int) == key);
                self.remove_at(i);
                return;
            }
            i = i + 1;
        }
        assert(self@ =~= self@.remove(key));
    }

    /// Drop all materialized shards for a collection.
    pub fn drop_collection(&mut self, collection: &str)
        requires
            old(self).inv(),
        ensures
            final(self).inv(),
            forall|k: (Seq<char>, u32)| #[trigger]
                final(self)@.contains_key(k) <==> old(self)@.contains_key(k) && k.0 != collection@,
            forall|k: (Seq<char>, u32)| #[trigger]
                final(self)@.contains_key(k) ==> final(self)@[k] == old(self)@[k],
    {
        let ghost was = *self;
        let mut i: usize = 0;
        while i < self.shards.len()
            invariant
                self.inv(),
                i <= self.shards@.len(),
                forall|j: int| 0 <= j < i ==> (#[trigger] self.key_at(j)).0 != collection@,
                forall|k: (Seq<char>, u32)| #[trigger]
                    self@.contains_key(k) ==> was@.contains_key(k) && self@[k] == was@[k],
                forall|k: (Seq<char>, u32)| #[trigger]
                    was@.contains_key(k) && k.0 != collection@ ==> self@.contains_key(k),
            decreases self.shards@.len() - i,
        {
            if same(self.shards[i].0.collection.as_str(), collection) {
                let ghost before = *self;
                self.remove_at(i);
                proof {
                    assert(before.key_at(i as int).0 == collection@);
                    assert forall|k: (Seq<char>, u32)| #[trigger]
                        was@.contains_key(k) && k.0 != collection@ implies self@.contains_key(k) by {
                        assert(before@.contains_key(k));
                    }
                    assert forall|j: int| 0 <= j < i implies (#[trigger] self.key_at(j)).0
                        != collection@ by {
                        assert(self.key_at(j) == before.key_at(j));
                    }
                }
            } else {
                i = i + 1;
            }
        }
        proof {
            assert forall|k: (Seq<char>, u32)| #[trigger] self@.contains_key(k) implies k.0
                != collection@ by {
                let j = choose|j: int| self.is_at(k, j);
                assert(self.key_at(j).0 != collection@);
            }
        }
    }
}

} // verus!
