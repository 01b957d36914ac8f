//! In-memory collection store of a single node: each collection is one exact index.

use vstd::prelude::*;

use crate::distance::Metric;
use crate::index::{BruteForceIndex, IndexError, VectorIndex};
use crate::names::NameMap;
use crate::text::{join, to_decimal};

verus! {

use crate::distance::{is_kernel, score};
use crate::index::nearest;
use crate::manager::{DEFAULT_REPLICATION_N, DEFAULT_SHARD_COUNT};
use crate::text::decimal;

/// Schema-level facts about a collection, fixed at creation.
#[derive(Debug, Clone, Copy, PartialEq, Eq, Structural)]
pub struct CollectionSchema {
    pub dim: u32,
    pub metric: Metric,
    pub shard_count: u32,
    pub replication_n: u32,
}

/// One collection: its schema plus the live index.
pub struct Collection<D> {
    pub schema: CollectionSchema,
    pub index: BruteForceIndex<D>,
}

/// What a collection holds.
#[verifier::ext_equal]
pub struct CollectionView {
    pub schema: CollectionSchema,
    pub points: Map<u64, Seq<u32>>,
}

impl<D: Fn(Metric, &[u32], &[u32]) -> u32> Collection<D> {
    /// The index is one for the schema's vectors and measures with `kernel`.
    pub open spec fn wf(self, kernel: D) -> bool {
        &&& self.schema.dim > 0
        &&& self.index.inv()
        &&& self.index.dimension() == self.schema.dim
        &&& self.index.measure() == self.schema.metric
        &&& self.index.kernel() == kernel
    }

    /// What the collection holds.
    pub open spec fn held(self) -> CollectionView {
        CollectionView { schema: self.schema, points: self.index.points() }
    }

    fn new(schema: CollectionSchema, kernel: D) -> (r: Self)
        requires
            schema.dim > 0,
            is_kernel(kernel),
        ensures
            r.wf(kernel),
            r.held() == (CollectionView { schema, points: Map::empty() }),
    {
        Collection { schema, index: BruteForceIndex::new(schema.dim as usize, schema.metric, kernel) }
    }
}

/// Errors from store operations.
#[derive(Debug, PartialEq, Eq)]
pub enum StoreError {
    /// The collection of this name already exists.
    AlreadyExists(String),
    /// There is no collection of this name.
    NotFound(String),
    /// The argument is not accepted, for the reason given.
    Invalid(String),
}

impl StoreError {
    /// The error in words.
    pub fn message(&self) -> (r: String)
        ensures
            r@ == match *self {
                StoreError::AlreadyExists(name) => "collection '"@ + name@ + "' already exists"@,
                StoreError::NotFound(name) => "collection '"@ + name@ + "' not found"@,
                StoreError::Invalid(why) => "invalid argument: "@ + why@,
            },
    {
        match self {
            StoreError::AlreadyExists(name) => {
                join(join("collection '", name.as_str()).as_str(), "' already exists")
            },
            StoreError::NotFound(name) => {
                join(join("collection '", name.as_str()).as_str(), "' not found")
            },
            StoreError::Invalid(why) => join("invalid argument: ", why.as_str()),
        }
    }
}

/// What is said of a point of `got` components in a collection for `dim`.
pub open spec fn bad_point(id: u64, dim: nat, got: nat) -> Seq<char> {
    "point "@ + decimal(id as nat) + ": expected dim "@ + decimal(dim) + ", got "@ + decimal(got)
}

/// What is said of a query of `got` components to a collection for `dim`.
pub open spec fn bad_query(dim: nat, got: nat) -> Seq<char> {
    "query dim "@ + decimal(got) + " != collection dim "@ + decimal(dim)
}

/// `points` once the first `n` of `pts` were put in, in turn.
pub open spec fn with_points(
    points: Map<u64, Seq<u32>>,
    pts: Seq<(u64, Vec<u32>)>,
    n: nat,
) -> Map<u64, Seq<u32>>
    decreases n,
{
    if n == 0 {
        points
    } else {
        with_points(points, pts, (n - 1) as nat).insert(pts[n - 1].0, pts[n - 1].1@)
    }
}

/// `i` is the place of the first of `pts` that has not `dim` components.
pub open spec fn first_misfit(pts: Seq<(u64, Vec<u32>)>, dim: nat, i: int) -> bool {
    &&& 0 <= i < pts.len()
    &&& pts[i].1@.len() != dim
    &&& forall|j: int| 0 <= j < i ==> (#[trigger] pts[j]).1@.len() == dim
}

/// Every point has `dim` components.
pub open spec fn all_fit(pts: Seq<(u64, Vec<u32>)>, dim: nat) -> bool {
    forall|j: int| 0 <= j < pts.len() ==> (#[trigger] pts[j]).1@.len() == dim
}

/// What `points` holds under `ids`, in the order of the ids.
pub open spec fn looked_up(points: Map<u64, Seq<u32>>, ids: Seq<u64>) -> Seq<(u64, Seq<u32>)>
    decreases ids.len(),
{
    if ids.len() == 0 {
        Seq::empty()
    } else {
        let head = looked_up(points, ids.drop_last());
        if points.contains_key(ids.last()) {
            head.push((ids.last(), points[ids.last()]))
        } else {
            head
        }
    }
}

/// What a list of points says.
pub open spec fn point_list(v: Seq<(u64, Vec<u32>)>) -> Seq<(u64, Seq<u32>)> {
    v.map_values(|p: (u64, Vec<u32>)| (p.0, p.1@))
}

/// How far the points of a collection are from `q`.
pub open spec fn scores<D: Fn(Metric, &[u32], &[u32]) -> u32>(
    kernel: D,
    c: CollectionView,
    q: Seq<u32>,
) -> spec_fn(u64) -> u32 {
    |id: u64| score(kernel, c.schema.metric, q, c.points[id])
}

/// The node's whole logical dataset: a name -> collection map.
pub struct Store<D> {
    kernel: D,
    collections: NameMap<Collection<D>>,
}

impl<D: Copy + Fn(Metric, &[u32], &[u32]) -> u32> Store<D> {
    /// The kernel that measures distances.
    pub closed spec fn kernel(self) -> D {
        self.kernel
    }

    /// The store is well-formed.
    pub closed spec fn inv(self) -> bool {
        &&& is_kernel(self.kernel)
        &&& self.collections.wf()
        &&& forall|name: Seq<char>| #[trigger]
            self.collections@.contains_key(name) ==> self.collections@[name].wf(self.kernel)
    }

    /// The collections by name.
    pub closed spec fn held(self) -> Map<Seq<char>, CollectionView> {
        self.collections@.map_values(|c: Collection<D>| c.held())
    }

    pub fn new(kernel: D) -> (r: Self)
        requires
            is_kernel(kernel),
        ensures
            r.inv(),
            r.kernel() == kernel,
            r.held() == Map::<Seq<char>, CollectionView>::empty(),
    {
        let r = Store { kernel, collections: NameMap::new() };
        assert(r.held() =~= Map::<Seq<char>, CollectionView>::empty());
        r
    }

    /// Create a collection. Applies server-side defaults for zero-valued
    /// shard_count / replication_n.
    pub fn create_collection(
        &mut self,
        name: &str,
        dim: u32,
        metric: Metric,
        shard_count: u32,
        replication_n: u32,
    ) -> (r: Result<(), StoreError>)
        requires
            old(self).inv(),
        ensures
            final(self).inv(),
            final(self).kernel() == old(self).kernel(),
            match r {
                Ok(()) => {
                    &&& name@.len() > 0 && dim > 0 && !old(self).held().contains_key(name@)
                    &&& final(self).held() == old(self).held().insert(
                        name@,
                        (CollectionView {
                            schema: (CollectionSchema {
                                dim,
                                metric,
                                shard_count: if shard_count == 0 {
                                    DEFAULT_SHARD_COUNT
                                } else {
                                    shard_count
                                },
                                replication_n: if replication_n == 0 {
                                    DEFAULT_REPLICATION_N
                                } else {
                                    replication_n
                                },
                            }),
                            points: Map::empty(),
                        }),
                    )
                },
                Err(StoreError::Invalid(why)) => {
                    &&& *final(self) == *old(self)
                    &&& name@.len() == 0 || dim == 0
                    &&& why@ == if name@.len() == 0 {
                        "collection name is empty"@
                    } else {
                        "dim must be > 0"@
                    }
                },
                Err(StoreError::AlreadyExists(n)) => {
                    &&& *final(self) == *old(self)
                    &&& name@.len() > 0 && dim > 0
                    &&& n@ == name@ && old(self).held().contains_key(name@)
                },
                Err(StoreError::NotFound(_)) => false,
            },
    {
        if name.is_empty() {
            return Err(StoreError::Invalid("collection name is empty".to_owned()));
        }
        if dim == 0 {
            return Err(StoreError::Invalid("dim must be > 0".to_owned()));
        }
        let schema = CollectionSchema {
            dim,
            metric,
            shard_count: if shard_count == 0 {
                DEFAULT_SHARD_COUNT
            } else {
                shard_count
            },
            replication_n: if replication_n == 0 {
                DEFAULT_REPLICATION_N
            } else {
                replication_n
            },
        };
        if self.collections.contains_key(name) {
            return Err(StoreError::AlreadyExists(name.to_owned()));
        }
        self.collections.insert(name.to_owned(), Collection::new(schema, self.kernel));
        assert(self.held() =~= old(self).held().insert(
            name@,
            (CollectionView { schema, points: Map::empty() }),
        ));
        Ok(())
    }

    /// Drop a collection.
    pub fn drop_collection(&mut self, name: &str) -> (r: Result<(), StoreError>)
        requires
            old(self).inv(),
        ensures
            final(self).inv(),
            final(self).kernel() == old(self).kernel(),
            final(self).held() == old(self).held().remove(name@),
            match r {
                Ok(()) => old(self).held().contains_key(name@),
                Err(e) => !old(self).held().contains_key(name@) && (e matches StoreError::NotFound(n)
                    && n@ == name@),
            },
    {
        let found: bool = self.collections.remove(name);
        assert(self.held() =~= old(self).held().remove(name@));
        if found {
            Ok(())
        } else {
            Err(StoreError::NotFound(name.to_owned()))
        }
    }

    /// The schema for a collection, if it exists.
    pub fn schema(&self, name: &str) -> (r: Result<CollectionSchema, StoreError>)
        requires
            self.inv(),
        ensures
            match r {
                Ok(s) => self.held().contains_key(name@) && s == self.held()[name@].schema,
                Err(e) => !self.held().contains_key(name@) && (e matches StoreError::NotFound(n)
                    && n@ == name@),
            },
    {
        match self.collections.get(name) {
            Some(c) => Ok(c.schema),
            None => Err(StoreError::NotFound(name.to_owned())),
        }
    }

    /// Upsert points into a collection. Returns the number accepted. The points before
    /// one of the wrong dimensionality stay in.
    pub fn upsert(&mut self, name: &str, points: &[(u64, Vec<u32>)]) -> (r: Result<u64, StoreError>)
        requires
            old(self).inv(),
        ensures
            final(self).inv(),
            final(self).kernel() == old(self).kernel(),
            match r {
                Ok(count) => {
                    let c = old(self).held()[name@];
                    &&& old(self).held().contains_key(name@)
                    &&& all_fit(points@, c.schema.dim as nat)
                    &&& count == points@.len()
                    &&& final(self).held() == old(self).held().insert(
                        name@,
                        (CollectionView {
                            schema: c.schema,
                            points: with_points(c.points, points@, points@.len()),
                        }),
                    )
                },
                Err(StoreError::Invalid(why)) => {
                    let c = old(self).held()[name@];
                    &&& old(self).held().contains_key(name@)
                    &&& exists|i: int|
                        {
                            &&& #[trigger] first_misfit(points@, c.schema.dim as nat, i)
                            &&& why@ == bad_point(
                                points@[i].0,
                                c.schema.dim as nat,
                                points@[i].1@.len(),
                            )
                            &&& final(self).held() == old(self).held().insert(
                                name@,
                                (CollectionView {
                                    schema: c.schema,
                                    points: with_points(c.points, points@, i as nat),
                                }),
                            )
                        }
                },
                Err(StoreError::NotFound(n)) => !old(self).held().contains_key(name@) && n@ == name@
                    && final(self).held() == old(self).held(),
                Err(StoreError::AlreadyExists(_)) => false,
            },
    {
        let mut coll: Collection<D> = match self.collections.take(name) {
            Some(c) => c,
            None => {
                assert(self.held() =~= old(self).held());
                return Err(StoreError::NotFound(name.to_owned()));
            },
        };
        let ghost was = coll.held();
        let ghost dim = coll.schema.dim as nat;
        let mut bad: Option<String> = None;
        let n: usize = points.len();
        let mut i: usize = 0;
        while i < n && bad.is_none()
            invariant
                n == points@.len(),
                i <= n,
                coll.wf(self.kernel),
                coll.schema == was.schema,
                dim == was.schema.dim,
                coll.index.points() == with_points(was.points, points@, i as nat),
                forall|j: int| 0 <= j < i ==> (#[trigger] points@[j]).1@.len() == dim,
                bad matches Some(why) ==> first_misfit(points@, dim, i as int) && why@ == bad_point(
                    points@[i as int].0,
                    dim,
                    points@[i as int].1@.len(),
                ),
            decreases n - i + (if bad is None { 1int } else { 0 }),
        {
            let id: u64 = points[i].0;
            let vector: &Vec<u32> = &points[i].1;
            let got: usize = vector.len();
            match coll.index.insert(id, vector.as_slice()) {
                Ok(()) => {
                    i = i + 1;
                },
                Err(IndexError::DimMismatch { expected, .. }) => {
                    let mut why: String = join("point ", to_decimal(id).as_str());
                    why.append(": expected dim ");
                    why.append(to_decimal(expected as u64).as_str());
                    why.append(", got ");
                    why.append(to_decimal(got as u64).as_str());
                    assert(why@ =~= bad_point(id, dim, got as nat));
                    assert(first_misfit(points@, dim, i as int));
                    bad = Some(why);
                },
            }
        }
        let ghost now = coll.held();
        self.collections.insert(name.to_owned(), coll);
        assert(self.held() =~= old(self).held().insert(name@, now));
        match bad {
            Some(why) => {
                assert(first_misfit(points@, dim, i as int));
                Err(StoreError::Invalid(why))
            },
            None => Ok(n as u64),
        }
    }

    /// Delete points by id. Returns the number actually removed.
    pub fn delete(&mut self, name: &str, ids: &[u64]) -> (r: Result<u64, StoreError>)
        requires
            old(self).inv(),
        ensures
            final(self).inv(),
            final(self).kernel() == old(self).kernel(),
            match r {
                Ok(count) => {
                    let c = old(self).held()[name@];
                    let left = c.points.remove_keys(ids@.to_set());
                    &&& old(self).held().contains_key(name@)
                    &&& c.points.dom().finite()
                    &&& count == c.points.len() - left.len()
                    &&& final(self).held() == old(self).held().insert(
                        name@,
                        (CollectionView { schema: c.schema, points: left }),
                    )
                },
                Err(e) => !old(self).held().contains_key(name@) && (e matches StoreError::NotFound(n)
                    && n@ == name@) && final(self).held() == old(self).held(),
            },
    {
        let mut coll: Collection<D> = match self.collections.take(name) {
            Some(c) => c,
            None => {
                assert(self.held() =~= old(self).held());
                return Err(StoreError::NotFound(name.to_owned()));
            },
        };
        let ghost was = coll.held();
        proof {
            coll.index.points_are_finite();
        }
        let n: usize = ids.len();
        let mut count: u64 = 0;
        let mut i: usize = 0;
        assert(coll.index.points() =~= was.points.remove_keys(ids@.take(0).to_set()));
        while i < n
            invariant
                n == ids@.len(),
                i <= n,
                count <= i,
                coll.wf(self.kernel),
                coll.schema == was.schema,
                was.points.dom().finite(),
                coll.index.points().dom().finite(),
                coll.index.points() == was.points.remove_keys(ids@.take(i as int).to_set()),
                count == was.points.len() - coll.index.points().len(),
            decreases n - i,
        {
            let ghost before = coll.index.points();
            let gone: bool = coll.index.delete(ids[i]);
            proof {
                let now = ids@.take(i + 1);
                assert(now =~= ids@.take(i as int).push(ids@[i as int]));
                assert(now.to_set() =~= ids@.take(i as int).to_set().insert(ids@[i as int])) by {
                    assert forall|x: u64| now.contains(x) <==> ids@.take(i as int).contains(x) || x
                        == ids@[i as int] by {
                        if ids@.take(i as int).contains(x) {
                            let j = ids@.take(i as int).index_of(x);
                            assert(now[j] == x);
                        }
                        if x == ids@[i as int] {
                            assert(now[i as int] == x);
                        }
                        if now.contains(x) {
                            let j = now.index_of(x);
                            if j < i {
                                assert(ids@.take(i as int)[j] == x);
                            }
                        }
                    }
                }
                assert(coll.index.points() =~= was.points.remove_keys(now.to_set()));
                assert(coll.index.points().dom() =~= before.dom().remove(ids@[i as int]));
            }
            if gone {
                count = count + 1;
            }
            i = i + 1;
        }
        assert(ids@.take(n as int) =~= ids@);
        let ghost now = coll.held();
        self.collections.insert(name.to_owned(), coll);
        assert(self.held() =~= old(self).held().insert(name@, now));
        Ok(count)
    }

    /// k-NN search.
    pub fn search(&self, name: &str, query: &[u32], k: usize, ef_search: usize) -> (r: Result<
        Vec<(u64, u32)>,
        StoreError,
    >)
        requires
            self.inv(),
        ensures
            match r {
                Ok(found) => {
                    let c = self.held()[name@];
                    &&& self.held().contains_key(name@)
                    &&& query@.len() == c.schema.dim
                    &&& nearest(c.points, scores(self.kernel(), c, query@), k as nat, found@)
                },
                Err(StoreError::Invalid(why)) => {
                    let c = self.held()[name@];
                    &&& self.held().contains_key(name@)
                    &&& query@.len() != c.schema.dim
                    &&& why@ == bad_query(c.schema.dim as nat, query@.len())
                },
                Err(StoreError::NotFound(n)) => !self.held().contains_key(name@) && n@ == name@,
                Err(StoreError::AlreadyExists(_)) => false,
            },
    {
        let coll: &Collection<D> = match self.collections.get(name) {
            Some(c) => c,
            None => return Err(StoreError::NotFound(name.to_owned())),
        };
        assert(coll.wf(self.kernel));
        match coll.index.search(query, k, ef_search) {
            Ok(found) => {
                assert(coll.index.score_of(query@) =~= scores(self.kernel, coll.held(), query@));
                Ok(found)
            },
            Err(IndexError::DimMismatch { expected, got }) => {
                let mut why: String = join("query dim ", to_decimal(got as u64).as_str());
                why.append(" != collection dim ");
                why.append(to_decimal(expected as u64).as_str());
                assert(why@ =~= bad_query(coll.schema.dim as nat, query@.len()));
                Err(StoreError::Invalid(why))
            },
        }
    }

    /// Get stored vectors by id. Returns `(id, vector)` for each id that is
    /// live; missing/deleted ids are omitted.
    pub fn get(&self, name: &str, ids: &[u64]) -> (r: Result<Vec<(u64, Vec<u32>)>, StoreError>)
        requires
            self.inv(),
        ensures
            match r {
                Ok(found) => self.held().contains_key(name@) && point_list(found@) == looked_up(
                    self.held()[name@].points,
                    ids@,
                ),
                Err(e) => !self.held().contains_key(name@) && (e matches StoreError::NotFound(n)
                    && n@ == name@),
            },
    {
        let coll: &Collection<D> = match self.collections.get(name) {
            Some(c) => c,
            None => return Err(StoreError::NotFound(name.to_owned())),
        };
        assert(coll.wf(self.kernel));
        let ghost points = coll.index.points();
        let n: usize = ids.len();
        let mut out: Vec<(u64, Vec<u32>)> = Vec::new();
        let mut i: usize = 0;
        assert(point_list(out@) =~= looked_up(points, ids@.take(0)));
        while i < n
            invariant
                n == ids@.len(),
                i <= n,
                coll.wf(self.kernel),
                points == coll.index.points(),
                point_list(out@) == looked_up(points, ids@.take(i as int)),
            decreases n - i,
        {
            let id: u64 = ids[i];
            let ghost before = out@;
            assert(ids@.take(i + 1).drop_last() =~= ids@.take(i as int));
            if let Some(v) = coll.index.get_vector(id) {
                out.push((id, v));
                assert(point_list(out@) =~= point_list(before).push((id, v@)));
            }
            i = i + 1;
        }
        assert(ids@.take(n as int) =~= ids@);
        Ok(out)
    }

    /// Number of collections.
    pub fn collection_count(&self) -> (r: usize)
        requires
            self.inv(),
        ensures
            self.held().dom().finite(),
            r == self.held().len(),
    {
        proof {
            self.collections.walk();
            self.collections.names().unique_seq_to_set();
            assert(self.held().dom() =~= self.collections.names().to_set());
        }
        self.collections.len()
    }
}

/// An upserted point is read back as it was put in unless a later one of the batch has
/// its id.
pub proof fn upsert_is_read_back(points: Map<u64, Seq<u32>>, pts: Seq<(u64, Vec<u32>)>, i: int, n: nat)
    requires
        0 <= i < n <= pts.len(),
        forall|j: int| i < j < n ==> (#[trigger] pts[j]).0 != pts[i].0,
    ensures
        with_points(points, pts, n).contains_key(pts[i].0),
        with_points(points, pts, n)[pts[i].0] == pts[i].1@,
    decreases n,
{
    if i < n - 1 {
        upsert_is_read_back(points, pts, i, (n - 1) as nat);
        assert(pts[n - 1].0 != pts[i].0);
    }
}

} // verus!
