//! The [`VectorIndex`] trait: the single abstraction that the storage and node
//! layers depend on, and the exact [`BruteForceIndex`].

use std::collections::HashMap;

use vstd::prelude::*;

use crate::distance::{distance, Metric};
use crate::hits::first_hits;
use crate::text::dims_message;

verus! {

use crate::distance::{distances_compare_by_value, is_kernel, is_number, less, score, signed};
use crate::hits::{
    comparable, hit_before, hit_order, hits_are_ordered_by_score_then_id, order_lists_all, place_before, top_hits,
};
use crate::text::dims_text;

broadcast use vstd::std_specs::hash::group_hash_axioms;

/// Errors surfaced by index operations.
#[derive(Debug, Clone, Copy, PartialEq, Eq, Structural)]
pub enum IndexError {
    /// A supplied vector did not match the index dimensionality.
    DimMismatch { expected: usize, got: usize },
}

impl IndexError {
    /// What the error says.
    pub open spec fn text(self) -> Seq<char> {
        match self {
            IndexError::DimMismatch { expected, got } => dims_text(
                "dimension mismatch: index is "@,
                expected as nat,
                got as nat,
            ),
        }
    }

    /// The error in words.
    pub fn message(self) -> (r: String)
        ensures
            r@ == self.text(),
    {
        match self {
            IndexError::DimMismatch { expected, got } => {
                dims_message("dimension mismatch: index is ", expected, got)
            },
        }
    }
}

/// Results are live, distinct, at most `k`, and carry their scores; where all scores are
/// numbers they come nearest first.
pub open spec fn answers(
    points: Map<u64, Seq<u32>>,
    score_of: spec_fn(u64) -> u32,
    k: nat,
    r: Seq<(u64, u32)>,
) -> bool {
    &&& r.len() <= k
    &&& forall|i: int|
        0 <= i < r.len() ==> points.contains_key((#[trigger] r[i]).0) && r[i].1 == score_of(r[i].0)
    &&& forall|i: int, j: int| 0 <= i < j < r.len() ==> (#[trigger] r[i]).0 != (#[trigger] r[j]).0
    &&& (forall|id: u64| #[trigger] points.contains_key(id) ==> is_number(score_of(id)))
        ==> forall|i: int, j: int|
        0 <= i < j < r.len() ==> !less((#[trigger] r[j]).1, (#[trigger] r[i]).1)
}

/// A nearest-neighbor index over vectors of one dimensionality keyed by `u64`.
///
/// Smaller score = closer (it is the metric distance, not a similarity).
pub trait VectorIndex: Sized {
    /// The index is well-formed.
    spec fn inv(&self) -> bool;

    /// The live points.
    spec fn points(&self) -> Map<u64, Seq<u32>>;

    /// Vector dimensionality.
    spec fn dimension(&self) -> nat;

    /// The metric.
    spec fn measure(&self) -> Metric;

    /// The index can take a vector for `id`: it holds the id already or has room for it.
    spec fn accepts(&self, id: u64) -> bool;

    /// The score of the live point `id` for the query `q`.
    spec fn score_of(&self, q: Seq<u32>) -> spec_fn(u64) -> u32;

    /// Vector dimensionality this index was built for.
    fn dim(&self) -> (r: usize)
        requires
            self.inv(),
        ensures
            r == self.dimension(),
    ;

    /// Distance metric this index scores with.
    fn metric(&self) -> (r: Metric)
        requires
            self.inv(),
        ensures
            r == self.measure(),
    ;

    /// Number of live (non-deleted) points.
    fn len(&self) -> (r: usize)
        requires
            self.inv(),
        ensures
            r == self.points().len(),
            self.points().dom().finite(),
    ;

    /// True when there are no live points.
    fn is_empty(&self) -> (r: bool)
        requires
            self.inv(),
        ensures
            r == (self.points().len() == 0),
    {
        self.len() == 0
    }

    /// Insert or replace the vector for `id`.
    fn insert(&mut self, id: u64, vector: &[u32]) -> (r: Result<(), IndexError>)
        requires
            old(self).inv(),
            old(self).accepts(id),
        ensures
            final(self).inv(),
            final(self).dimension() == old(self).dimension(),
            final(self).measure() == old(self).measure(),
            match r {
                Ok(()) => vector@.len() == old(self).dimension() && final(self).points() == old(
                    self,
                ).points().insert(id, vector@),
                Err(IndexError::DimMismatch { expected, got }) => expected == old(self).dimension()
                    && got == vector@.len() && expected != got && *final(self) == *old(self),
            },
    ;

    /// Remove `id` if present. Returns whether a live point was removed.
    fn delete(&mut self, id: u64) -> (r: bool)
        requires
            old(self).inv(),
        ensures
            final(self).inv(),
            final(self).dimension() == old(self).dimension(),
            final(self).measure() == old(self).measure(),
            r == old(self).points().contains_key(id),
            final(self).points() == old(self).points().remove(id),
    ;

    /// The stored vector for `id`, if it is live.
    fn get_vector(&self, id: u64) -> (r: Option<Vec<u32>>)
        requires
            self.inv(),
        ensures
            match r {
                Some(v) => self.points().contains_key(id) && v@ == self.points()[id],
                None => !self.points().contains_key(id),
            },
    ;

    /// `k` nearest neighbors of `query`, nearest first, as `(id, score)`.
    ///
    /// `ef_search` tunes the search-time candidate breadth for graph indexes;
    /// exact indexes ignore it. Returns at most `k` results.
    fn search(&self, query: &[u32], k: usize, ef_search: usize) -> (r: Result<
        Vec<(u64, u32)>,
        IndexError,
    >)
        requires
            self.inv(),
        ensures
            match r {
                Ok(found) => query@.len() == self.dimension() && answers(
                    self.points(),
                    self.score_of(query@),
                    k as nat,
                    found@,
                ),
                Err(IndexError::DimMismatch { expected, got }) => expected == self.dimension()
                    && got == query@.len() && expected != got,
            },
    ;
}

/// Point `a` comes before point `b`: it is nearer, or neither is nearer and it has the
/// lower id.
pub open spec fn nearer(score_of: spec_fn(u64) -> u32, a: u64, b: u64) -> bool {
    hit_before((a, score_of(a)), (b, score_of(b)))
}

/// The points can be put in order: coming before carries over. A distance that is not a
/// number is neither less nor more than any other, and may leave them without an order.
pub open spec fn orderable(points: Map<u64, Seq<u32>>, score_of: spec_fn(u64) -> u32) -> bool {
    forall|a: u64, b: u64, c: u64|
        points.contains_key(a) && points.contains_key(b) && points.contains_key(c) && #[trigger] nearer(
            score_of,
            a,
            b,
        ) && #[trigger] nearer(score_of, b, c) ==> nearer(score_of, a, c)
}

/// Points whose scores are numbers can be put in order.
pub proof fn numbers_are_orderable(points: Map<u64, Seq<u32>>, score_of: spec_fn(u64) -> u32)
    requires
        forall|id: u64| #[trigger] points.contains_key(id) ==> is_number(score_of(id)),
    ensures
        orderable(points, score_of),
{
    assert forall|a: u64, b: u64, c: u64|
        points.contains_key(a) && points.contains_key(b) && points.contains_key(c) && #[trigger] nearer(
            score_of,
            a,
            b,
        ) && #[trigger] nearer(score_of, b, c) implies nearer(score_of, a, c) by {
        assert(is_number(score_of(a)) && is_number(score_of(b)) && is_number(score_of(c)));
    }
}

/// `r` holds `k` of `points`, all of them where there are no more than `k`. Where the
/// points can be put in order, it is the `k` nearest, nearest first.
pub open spec fn nearest(
    points: Map<u64, Seq<u32>>,
    score_of: spec_fn(u64) -> u32,
    k: nat,
    r: Seq<(u64, u32)>,
) -> bool {
    &&& answers(points, score_of, k, r)
    &&& forall|id: u64| points.contains_key(id) && !#[trigger] listed(r, id) ==> r.len() == k
    &&& orderable(points, score_of) ==> {
        &&& forall|i: int, j: int|
            0 <= i < j < r.len() ==> nearer(score_of, (#[trigger] r[i]).0, (#[trigger] r[j]).0)
        &&& forall|id: u64, i: int|
            points.contains_key(id) && !#[trigger] listed(r, id) && 0 <= i < r.len() ==> nearer(
                score_of,
                (#[trigger] r[i]).0,
                id,
            )
    }
}

/// `id` is among the results.
pub open spec fn listed(r: Seq<(u64, u32)>, id: u64) -> bool {
    exists|i: int| 0 <= i < r.len() && (#[trigger] r[i]).0 == id
}

/// Where the points can be put in order, the nearest are determined.
pub proof fn nearest_is_unique(
    points: Map<u64, Seq<u32>>,
    score_of: spec_fn(u64) -> u32,
    k: nat,
    a: Seq<(u64, u32)>,
    b: Seq<(u64, u32)>,
)
    requires
        orderable(points, score_of),
        nearest(points, score_of, k, a),
        nearest(points, score_of, k, b),
    ensures
        a == b,
{
    nearest_agrees(points, score_of, k, a, b, a.len());
    nearest_agrees(points, score_of, k, b, a, b.len());
    assert(a =~= b);
}

proof fn nearest_agrees(
    points: Map<u64, Seq<u32>>,
    score_of: spec_fn(u64) -> u32,
    k: nat,
    a: Seq<(u64, u32)>,
    b: Seq<(u64, u32)>,
    n: nat,
)
    requires
        orderable(points, score_of),
        nearest(points, score_of, k, a),
        nearest(points, score_of, k, b),
        n <= a.len(),
    ensures
        n <= b.len(),
        forall|i: int| 0 <= i < n ==> a[i] == b[i],
    decreases n,
{
    if n > 0 {
        let i = n - 1;
        nearest_agrees(points, score_of, k, a, b, i as nat);
        assert(points.contains_key(a[i].0));
        if b.len() == i {
            assert(!listed(b, a[i].0)) by {
                if listed(b, a[i].0) {
                    let j = choose|j: int| 0 <= j < b.len() && (#[trigger] b[j]).0 == a[i].0;
                    assert(a[j] == b[j]);
                    assert(a[j].0 != a[i].0);
                }
            }
            assert(false);
        }
        assert(points.contains_key(b[i].0));
        if a[i].0 != b[i].0 {
            assert(nearer(score_of, b[i].0, a[i].0)) by {
                if listed(b, a[i].0) {
                    let j = choose|j: int| 0 <= j < b.len() && (#[trigger] b[j]).0 == a[i].0;
                    if j < i {
                        assert(a[j] == b[j]);
                        assert(a[j].0 != a[i].0);
                    }
                    assert(i < j);
                    assert(nearer(score_of, b[i].0, b[j].0));
                }
            }
            assert(nearer(score_of, a[i].0, b[i].0)) by {
                if listed(a, b[i].0) {
                    let j = choose|j: int| 0 <= j < a.len() && (#[trigger] a[j]).0 == b[i].0;
                    if j < i {
                        assert(a[j] == b[j]);
                        assert(b[j].0 != b[i].0);
                    }
                    assert(i < j);
                    assert(nearer(score_of, a[i].0, a[j].0));
                }
            }
            assert(false);
        }
        assert(a[i].1 == score_of(a[i].0) && b[i].1 == score_of(b[i].0));
    }
}

/// Exact brute-force index: scans every live vector per query.
///
/// This is the correctness oracle: graph indexes are measured against it.
#[derive(Debug, Clone)]
pub struct BruteForceIndex<D> {
    dim: usize,
    metric: Metric,
    kernel: D,
    /// `ids[slot]` is `None` for a free slot.
    ids: Vec<Option<u64>>,
    rows: Vec<Vec<u32>>,
    id_to_slot: HashMap<u64, usize>,
    free_slots: Vec<usize>,
}

impl<D: Fn(Metric, &[u32], &[u32]) -> u32> BruteForceIndex<D> {
    /// The kernel that measures distances.
    pub closed spec fn kernel(self) -> D {
        self.kernel
    }

    /// New empty index for `dim`-dimensional vectors under `metric`.
    pub fn new(dim: usize, metric: Metric, kernel: D) -> (r: Self)
        requires
            dim > 0,
            is_kernel(kernel),
        ensures
            r.inv(),
            r.dimension() == dim,
            r.measure() == metric,
            r.kernel() == kernel,
            r.points() == Map::<u64, Seq<u32>>::empty(),
    {
        let r = Self {
            dim,
            metric,
            kernel,
            ids: Vec::new(),
            rows: Vec::new(),
            id_to_slot: HashMap::new(),
            free_slots: Vec::new(),
        };
        assert(r.points() =~= Map::<u64, Seq<u32>>::empty());
        r
    }

    /// An index holds finitely many points.
    pub proof fn points_are_finite(self)
        requires
            self.inv(),
        ensures
            self.points().dom().finite(),
    {
        assert(self.points().dom() =~= self.id_to_slot@.dom());
    }

    spec fn slots_ok(self) -> bool {
        &&& self.rows@.len() == self.ids@.len()
        &&& forall|s: int| 0 <= s < self.rows@.len() ==> (#[trigger] self.rows@[s])@.len() == self.dim
        &&& forall|id: u64| #[trigger]
            self.id_to_slot@.contains_key(id) ==> self.id_to_slot@[id] < self.ids@.len()
                && self.ids@[self.id_to_slot@[id] as int] == Some(id)
        &&& forall|s: int|
            0 <= s < self.ids@.len() && (#[trigger] self.ids@[s]) is Some
                ==> self.id_to_slot@.contains_key(self.ids@[s].unwrap())
                && self.id_to_slot@[self.ids@[s].unwrap()] == s
        &&& self.free_slots@.no_duplicates()
        &&& forall|i: int|
            0 <= i < self.free_slots@.len() ==> (#[trigger] self.free_slots@[i]) < self.ids@.len()
                && self.ids@[self.free_slots@[i] as int] is None
    }
}

impl<D: Fn(Metric, &[u32], &[u32]) -> u32> VectorIndex for BruteForceIndex<D> {
    closed spec fn inv(&self) -> bool {
        self.dim > 0 && is_kernel(self.kernel) && self.slots_ok()
    }

    closed spec fn points(&self) -> Map<u64, Seq<u32>> {
        Map::new(
            |id: u64| self.id_to_slot@.contains_key(id),
            |id: u64| self.rows@[self.id_to_slot@[id] as int]@,
        )
    }

    closed spec fn dimension(&self) -> nat {
        self.dim as nat
    }

    closed spec fn measure(&self) -> Metric {
        self.metric
    }

    open spec fn accepts(&self, id: u64) -> bool {
        true
    }

    open spec fn score_of(&self, q: Seq<u32>) -> spec_fn(u64) -> u32 {
        |id: u64| score(self.kernel(), self.measure(), q, self.points()[id])
    }

    fn dim(&self) -> (r: usize) {
        self.dim
    }

    fn metric(&self) -> (r: Metric) {
        self.metric
    }

    fn len(&self) -> (r: usize) {
        assert(self.points().dom() =~= self.id_to_slot@.dom());
        self.id_to_slot.len()
    }

    fn insert(&mut self, id: u64, vector: &[u32]) -> (r: Result<(), IndexError>)
        ensures
            final(self).kernel() == old(self).kernel(),
    {
        if vector.len() != self.dim {
            return Err(IndexError::DimMismatch { expected: self.dim, got: vector.len() });
        }
        let mut row: Vec<u32> = Vec::new();
        row.extend_from_slice(vector);
        assert(row@ =~= vector@);
        if let Some(slot) = self.id_to_slot.get(&id) {
            let slot: usize = *slot;
            self.rows.set(slot, row);
            assert(self.points() =~= old(self).points().insert(id, vector@));
            return Ok(());
        }
        let slot: usize = if self.free_slots.len() > 0 {
            let last: usize = self.free_slots.len() - 1;
            let s: usize = self.free_slots[last];
            self.free_slots.truncate(last);
            self.ids.set(s, Some(id));
            self.rows.set(s, row);
            s
        } else {
            let s: usize = self.ids.len();
            self.ids.push(Some(id));
            self.rows.push(row);
            s
        };
        let _before: Option<usize> = self.id_to_slot.insert(id, slot);
        proof {
            assert(old(self).ids@.len() <= self.ids@.len());
            assert forall|s: int| 0 <= s < old(self).ids@.len() && s != slot implies self.ids@[s] == old(
                self,
            ).ids@[s] && self.rows@[s] == old(self).rows@[s] by {}
            assert(self.slots_ok());
            assert(self.points() =~= old(self).points().insert(id, vector@));
        }
        Ok(())
    }

    fn delete(&mut self, id: u64) -> (r: bool)
        ensures
            final(self).kernel() == old(self).kernel(),
    {
        match self.id_to_slot.remove(&id) {
            Some(slot) => {
                self.ids.set(slot, None);
                self.free_slots.push(slot);
                assert(self.points() =~= old(self).points().remove(id));
                true
            },
            None => {
                assert(self.id_to_slot@ =~= old(self).id_to_slot@);
                assert(self.points() =~= old(self).points().remove(id));
                false
            },
        }
    }

    fn get_vector(&self, id: u64) -> (r: Option<Vec<u32>>) {
        match self.id_to_slot.get(&id) {
            Some(slot) => {
                let v: Vec<u32> = self.rows[*slot].clone();
                assert(v@ =~= self.rows@[*slot as int]@);
                Some(v)
            },
            None => None,
        }
    }

    fn search(&self, query: &[u32], k: usize, ef_search: usize) -> (r: Result<
        Vec<(u64, u32)>,
        IndexError,
    >)
        ensures
            r matches Ok(found) ==> nearest(
                self.points(),
                self.score_of(query@),
                k as nat,
                found@,
            ),
    {
        if query.len() != self.dim {
            return Err(IndexError::DimMismatch { expected: self.dim, got: query.len() });
        }
        let ghost score_of = self.score_of(query@);
        let mut hits: Vec<(u64, u32)> = Vec::new();
        let mut s: usize = 0;
        while s < self.ids.len()
            invariant
                self.inv(),
                query@.len() == self.dim,
                score_of == self.score_of(query@),
                s <= self.ids@.len(),
                forall|i: int|
                    0 <= i < hits@.len() ==> {
                        let h = #[trigger] hits@[i];
                        &&& self.id_to_slot@.contains_key(h.0)
                        &&& self.id_to_slot@[h.0] < s
                        &&& h.1 == score_of(h.0)
                    },
                forall|i: int, j: int|
                    0 <= i < j < hits@.len() ==> (#[trigger] hits@[i]).0 != (#[trigger] hits@[j]).0,
                forall|t: int|
                    0 <= t < s && (#[trigger] self.ids@[t]) is Some ==> listed(
                        hits@,
                        self.ids@[t].unwrap(),
                    ),
            decreases self.ids@.len() - s,
        {
            let ghost before = hits@;
            if let Some(id) = self.ids[s] {
                let d: u32 = distance(&self.kernel, self.metric, query, self.rows[s].as_slice());
                proof {
                    assert(self.ids@[s as int] == Some(id));
                    assert(self.points()[id] == self.rows@[s as int]@);
                    assert(d == score_of(id));
                }
                hits.push((id, d));
                assert(hits@[before.len() as int].0 == id);
            }
            proof {
                assert forall|t: int| 0 <= t < s + 1 && (#[trigger] self.ids@[t]) is Some implies listed(
                    hits@,
                    self.ids@[t].unwrap(),
                ) by {
                    if t < s {
                        let x = self.ids@[t].unwrap();
                        let i = choose|i: int| 0 <= i < before.len() && (#[trigger] before[i]).0 == x;
                        assert(hits@[i].0 == x);
                    }
                }
            }
            s = s + 1;
        }
        let out: Vec<(u64, u32)> = first_hits(&hits, k);
        proof {
            let h = hits@;
            let points = self.points();
            assert forall|id: u64| #[trigger] points.contains_key(id) implies listed(h, id) by {
                let slot = self.id_to_slot@[id] as int;
                assert(self.ids@[slot] == Some(id));
            }
            top_hits_are_nearest(points, score_of, h, k as nat, out@);
        }
        Ok(out)
    }
}

/// The first hits among all points, each with its score, are the nearest.
proof fn top_hits_are_nearest(
    points: Map<u64, Seq<u32>>,
    score_of: spec_fn(u64) -> u32,
    hits: Seq<(u64, u32)>,
    k: nat,
    r: Seq<(u64, u32)>,
)
    requires
        forall|i: int|
            0 <= i < hits.len() ==> points.contains_key((#[trigger] hits[i]).0) && hits[i].1 == score_of(
                hits[i].0,
            ),
        forall|i: int, j: int|
            0 <= i < j < hits.len() ==> (#[trigger] hits[i]).0 != (#[trigger] hits[j]).0,
        forall|id: u64| #[trigger] points.contains_key(id) ==> listed(hits, id),
        top_hits(hits, k, r),
    ensures
        nearest(points, score_of, k, r),
{
    let p = choose|p: Seq<int>|
        {
            &&& #[trigger] hit_order(hits, p)
            &&& r.len() == if k < hits.len() { k } else { hits.len() }
            &&& forall|i: int| 0 <= i < r.len() ==> r[i] == hits[p[i]]
        };
    assert forall|i: int| 0 <= i < r.len() implies points.contains_key((#[trigger] r[i]).0) && r[i].1
        == score_of(r[i].0) by {
        assert(r[i] == hits[p[i]]);
    }
    assert forall|i: int, j: int| 0 <= i < j < r.len() implies (#[trigger] r[i]).0 != (#[trigger] r[j]).0 by {
        assert(r[i] == hits[p[i]] && r[j] == hits[p[j]]);
        assert(p[i] != p[j]);
    }
    assert forall|id: u64| points.contains_key(id) && !#[trigger] listed(r, id) implies r.len() == k by {
        let a = choose|a: int| 0 <= a < hits.len() && (#[trigger] hits[a]).0 == id;
        order_lists_all(hits, p, a);
        let at = p.index_of(a);
        assert(p[at] == a);
        if at < r.len() {
            assert(r[at] == hits[p[at]]);
            assert(listed(r, id));
        }
    }
    if orderable(points, score_of) {
        assert forall|a: int, b: int|
            0 <= a < hits.len() && 0 <= b < hits.len() && #[trigger] place_before(hits, a, b) implies nearer(
            score_of,
            hits[a].0,
            hits[b].0,
        ) by {
            assert(hits[a] == (hits[a].0, score_of(hits[a].0)));
            assert(hits[b] == (hits[b].0, score_of(hits[b].0)));
            if a < b {
                assert(hits[a].0 != hits[b].0);
            }
        }
        assert(comparable(hits)) by {
            reveal(comparable);
            assert forall|a: int, b: int, c: int|
                0 <= a < hits.len() && 0 <= b < hits.len() && 0 <= c < hits.len()
                    && #[trigger] place_before(hits, a, b) && #[trigger] place_before(hits, b, c) implies place_before(
                hits,
                a,
                c,
            ) by {
                assert(hits[a] == (hits[a].0, score_of(hits[a].0)));
                assert(hits[c] == (hits[c].0, score_of(hits[c].0)));
                assert(nearer(score_of, hits[a].0, hits[b].0));
                assert(nearer(score_of, hits[b].0, hits[c].0));
                assert(nearer(score_of, hits[a].0, hits[c].0));
            }
        }
        assert forall|i: int, j: int| 0 <= i < j < r.len() implies nearer(
            score_of,
            (#[trigger] r[i]).0,
            (#[trigger] r[j]).0,
        ) by {
            assert(r[i] == hits[p[i]] && r[j] == hits[p[j]]);
            assert(place_before(hits, p[i], p[j]));
        }
        assert forall|id: u64, i: int|
            points.contains_key(id) && !#[trigger] listed(r, id) && 0 <= i < r.len() implies nearer(
            score_of,
            (#[trigger] r[i]).0,
            id,
        ) by {
            let a = choose|a: int| 0 <= a < hits.len() && (#[trigger] hits[a]).0 == id;
            order_lists_all(hits, p, a);
            let at = p.index_of(a);
            assert(p[at] == a);
            if at < r.len() {
                assert(r[at] == hits[p[at]]);
                assert(listed(r, id));
            }
            assert(r[i] == hits[p[i]]);
            assert(place_before(hits, p[i], p[at]));
        }
    }
    if forall|id: u64| #[trigger] points.contains_key(id) ==> is_number(score_of(id)) {
        numbers_are_orderable(points, score_of);
        assert forall|i: int, j: int| 0 <= i < j < r.len() implies !less(
            (#[trigger] r[j]).1,
            (#[trigger] r[i]).1,
        ) by {
            assert(nearer(score_of, r[i].0, r[j].0));
        }
    }
}

/// An exact search whose scores are numbers returns as many points as were asked for, or
/// all, in order of score and then id; and no point that it leaves out would come before
/// one that it returns.
pub proof fn exact_search_returns_the_nearest(
    points: Map<u64, Seq<u32>>,
    score_of: spec_fn(u64) -> u32,
    k: nat,
    r: Seq<(u64, u32)>,
)
    requires
        nearest(points, score_of, k, r),
        points.dom().finite(),
        forall|id: u64| #[trigger] points.contains_key(id) ==> score_of(id) % 0x8000_0000 <= 0x7F80_0000,
    ensures
        r.len() == if k < points.len() { k } else { points.len() },
        forall|i: int| 0 <= i < r.len() ==> points.contains_key((#[trigger] r[i]).0) && r[i].1 == score_of(r[i].0),
        forall|i: int, j: int|
            0 <= i < j < r.len() ==> {
                let (a, b) = (#[trigger] r[i], #[trigger] r[j]);
                signed(a.1) < signed(b.1) || (signed(a.1) == signed(b.1) && a.0 < b.0)
            },
        forall|id: u64, i: int|
            #![trigger points.contains_key(id), r[i]]
            points.contains_key(id) && 0 <= i < r.len() && (forall|j: int|
                0 <= j < r.len() ==> (#[trigger] r[j]).0 != id) ==> signed(r[i].1) < signed(score_of(id)) || (signed(
                r[i].1,
            ) == signed(score_of(id)) && r[i].0 < id),
{
    assert forall|id: u64| #[trigger] points.contains_key(id) implies is_number(score_of(id)) by {
        distances_compare_by_value(score_of(id), 0);
    }
    numbers_are_orderable(points, score_of);
    assert forall|i: int, j: int| 0 <= i < j < r.len() implies {
        let (a, b) = (#[trigger] r[i], #[trigger] r[j]);
        signed(a.1) < signed(b.1) || (signed(a.1) == signed(b.1) && a.0 < b.0)
    } by {
        assert(points.contains_key(r[i].0) && points.contains_key(r[j].0));
        assert(nearer(score_of, r[i].0, r[j].0));
        hits_are_ordered_by_score_then_id(r[i], r[j]);
    }
    assert forall|id: u64, i: int|
        #![trigger points.contains_key(id), r[i]]
        points.contains_key(id) && 0 <= i < r.len() && (forall|j: int|
            0 <= j < r.len() ==> (#[trigger] r[j]).0 != id) implies signed(r[i].1) < signed(score_of(id)) || (signed(
        r[i].1,
    ) == signed(score_of(id)) && r[i].0 < id) by {
        assert(!listed(r, id));
        assert(points.contains_key(r[i].0));
        assert(nearer(score_of, r[i].0, id));
        hits_are_ordered_by_score_then_id(r[i], (id, score_of(id)));
    }
    let ids = r.map_values(|h: (u64, u32)| h.0);
    let dom = points.dom();
    assert(ids.no_duplicates()) by {
        assert forall|i: int, j: int| 0 <= i < ids.len() && 0 <= j < ids.len() && i != j implies ids[i] != ids[j] by {
            assert(ids[i] == r[i].0 && ids[j] == r[j].0);
        }
    }
    ids.unique_seq_to_set();
    vstd::seq_lib::seq_to_set_is_finite(ids);
    assert(ids.to_set().subset_of(dom)) by {
        assert forall|id: u64| ids.to_set().contains(id) implies dom.contains(id) by {
            let i = ids.index_of(id);
            assert(r[i].0 == id);
        }
    }
    vstd::set_lib::lemma_len_subset(ids.to_set(), dom);
    if r.len() < k {
        assert(dom.subset_of(ids.to_set())) by {
            assert forall|id: u64| dom.contains(id) implies ids.to_set().contains(id) by {
                assert(points.contains_key(id));
                assert(listed(r, id));
                let i = choose|i: int| 0 <= i < r.len() && (#[trigger] r[i]).0 == id;
                assert(ids[i] == id);
            }
        }
        vstd::set_lib::lemma_len_subset(dom, ids.to_set());
    }
}

} // verus!
