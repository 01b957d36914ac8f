//! An HNSW (Hierarchical Navigable Small World) graph implementing [`VectorIndex`].
//!
//! This follows Malkov & Yashunin:
//!   - `M = 16` (max neighbors per node on layers >= 1),
//!   - `M0 = 32` (max neighbors on the base layer 0),
//!   - `ef_construction = 200`,
//!   - level assignment `l = floor(-ln(U(0,1]) / ln(M))`,
//!   - neighbor selection by the pruning heuristic: a candidate is kept only if it
//!     is closer to the new element than to any already-selected neighbor.
//!
//! Deletes are logical: a tombstone marks removed ids; tombstoned nodes are skipped
//! when collecting results but remain in the graph as routing waypoints.

use std::collections::HashMap;

use vstd::prelude::*;

use crate::distance::{distance, Metric};
use crate::graph::{
    greedy_search_layer, link_layer, search_layer, select_neighbors_heuristic, Node,
};
use crate::index::{IndexError, VectorIndex};
use crate::text::{join, to_decimal};

verus! {

use vstd::arithmetic::power::{lemma_pow0, lemma_pow1, lemma_pow_increases, lemma_pow_positive, pow};
use crate::distance::{is_kernel, less, rank, score};
use crate::graph::{
    apartness, found_depends_on_layer, found_is_ordered, found_nodes, graph_of, layer_found,
    layer_stays_up, links, links_after, nearness, pruned, reachable, relinked_bounds, same_nodes,
    selection_bounds, settled, sound, wired, NodeView,
};
use crate::index::answers;
use crate::text::decimal;

broadcast use vstd::std_specs::hash::group_hash_axioms;

/// Default max neighbors per node on layers >= 1.
pub const DEFAULT_M: usize = 16;

/// Default max neighbors on the base layer (layer 0).
pub const DEFAULT_M0: usize = 32;

/// Default construction-time candidate breadth.
pub const DEFAULT_EF_CONSTRUCTION: usize = 200;

/// Level-generator seed of an index with default parameters.
pub const DEFAULT_SEED: u64 = 0x5EED_1234_ABCD_0001;

/// Tunable construction parameters.
#[derive(Debug, Clone, Copy, PartialEq, Eq, Structural)]
pub struct HnswParams {
    /// Max neighbors per node on layers >= 1.
    pub m: usize,
    /// Max neighbors on layer 0.
    pub m0: usize,
    /// Candidate list breadth during insertion.
    pub ef_construction: usize,
}

impl HnswParams {
    /// The default parameters.
    pub open spec fn standard() -> Self {
        HnswParams { m: DEFAULT_M, m0: DEFAULT_M0, ef_construction: DEFAULT_EF_CONSTRUCTION }
    }

    /// The parameters that an index can be built with.
    pub open spec fn usable(self) -> bool {
        2 <= self.m <= self.m0 && self.ef_construction >= 1
    }

    /// Max neighbor count permitted on a given layer.
    pub open spec fn max_links(self, layer: int) -> usize {
        if layer == 0 {
            self.m0
        } else {
            self.m
        }
    }
}

impl Default for HnswParams {
    fn default() -> (r: Self)
        ensures
            r == (HnswParams {
                m: DEFAULT_M,
                m0: DEFAULT_M0,
                ef_construction: DEFAULT_EF_CONSTRUCTION,
            }),
    {
        Self { m: DEFAULT_M, m0: DEFAULT_M0, ef_construction: DEFAULT_EF_CONSTRUCTION }
    }
}

/// The generator's next state.
pub open spec fn next_state(state: u64) -> u64 {
    state.wrapping_add(0x9E37_79B9_7F4A_7C15)
}

/// The number that the generator gives out in `state`.
pub open spec fn mixed(state: u64) -> u64 {
    let a = (state ^ (state >> 30)).wrapping_mul(0xBF58_476D_1CE4_E5B9);
    let b = (a ^ (a >> 27)).wrapping_mul(0x94D0_49BB_1331_11EB);
    b ^ (b >> 31)
}

/// A SplitMix64 generator. The same seed and insert order reproduce the same graph.
#[derive(Debug, Clone, Copy, PartialEq, Eq, Structural)]
pub struct SplitMix64 {
    pub state: u64,
}

impl SplitMix64 {
    pub fn new(seed: u64) -> (r: Self)
        ensures
            r.state == seed,
    {
        Self { state: seed }
    }

    pub fn next_u64(&mut self) -> (r: u64)
        ensures
            final(self).state == next_state(old(self).state),
            r == mixed(final(self).state),
    {
        self.state = self.state.wrapping_add(0x9E37_79B9_7F4A_7C15);
        let mut z: u64 = self.state;
        z = (z ^ (z >> 30)).wrapping_mul(0xBF58_476D_1CE4_E5B9);
        z = (z ^ (z >> 27)).wrapping_mul(0x94D0_49BB_1331_11EB);
        z ^ (z >> 31)
    }

    /// The numerator of a uniform fraction in (0, 1] with denominator 2^53.
    pub fn next_unit(&mut self) -> (r: u64)
        ensures
            final(self).state == next_state(old(self).state),
            r == unit_of(mixed(final(self).state)),
            1 <= r <= UNIT,
    {
        let z: u64 = self.next_u64();
        assert(z >> 11 < 0x20_0000_0000_0000) by (bit_vector);
        UNIT - (z >> 11)
    }
}

/// 2^53, the number of steps in the unit interval.
pub const UNIT: u64 = 0x20_0000_0000_0000;

/// The fraction in (0, 1], in steps of 2^-53, drawn from a random number.
pub open spec fn unit_of(z: u64) -> u64 {
    (UNIT - (z >> 11)) as u64
}

/// `level` is `floor(-ln(u / 2^53) / ln(m))`: the largest power of `m` that `2^53 / u`
/// reaches.
pub open spec fn is_level(u: u64, m: usize, level: nat) -> bool {
    u * pow(m as int, level) <= UNIT < u * pow(m as int, level + 1)
}

/// There is one such level.
pub proof fn level_is_unique(u: u64, m: usize, a: nat, b: nat)
    requires
        m >= 2,
        u >= 1,
        is_level(u, m, a),
        is_level(u, m, b),
    ensures
        a == b,
{
    if a < b {
        lemma_pow_increases(m as nat, a + 1, b);
        assert(u * pow(m as int, a + 1) <= u * pow(m as int, b)) by (nonlinear_arith)
            requires
                pow(m as int, a + 1) <= pow(m as int, b),
                u >= 1,
        ;
    }
    if b < a {
        lemma_pow_increases(m as nat, b + 1, a);
        assert(u * pow(m as int, b + 1) <= u * pow(m as int, a)) by (nonlinear_arith)
            requires
                pow(m as int, b + 1) <= pow(m as int, a),
                u >= 1,
        ;
    }
}

/// The top layer of a node for the fraction `u / 2^53`.
pub fn level_for(u: u64, m: usize) -> (r: usize)
    requires
        m >= 2,
        1 <= u <= UNIT,
    ensures
        is_level(u, m, r as nat),
        r <= 53,
{
    let step: u64 = UNIT / m as u64;
    let mut reached: u64 = u;
    let mut level: usize = 0;
    proof {
        lemma_pow0(m as int);
        vstd::arithmetic::power2::lemma2_to64();
    }
    while reached <= step
        invariant
            m >= 2,
            1 <= u <= UNIT,
            step == UNIT / m as u64,
            1 <= reached <= UNIT,
            reached == u * pow(m as int, level as nat),
            level <= 53,
            reached >= vstd::arithmetic::power2::pow2(level as nat),
        decreases UNIT - reached,
    {
        proof {
            assert(reached * m <= UNIT) by (nonlinear_arith)
                requires
                    reached <= UNIT / m as u64,
                    m >= 2,
            ;
            assert(reached * m >= 2 * reached) by (nonlinear_arith)
                requires
                    m >= 2,
            ;
            vstd::arithmetic::power::lemma_pow_adds(m as int, level as nat, 1);
            lemma_pow1(m as int);
            let p = pow(m as int, level as nat);
            assert((u * p) * m == u * (p * m)) by (nonlinear_arith);
            vstd::arithmetic::power2::lemma_pow2_unfold((level + 1) as nat);
            if level == 53 {
                vstd::arithmetic::power2::lemma2_to64();
                assert(vstd::arithmetic::power2::pow2(53) == 0x20_0000_0000_0000) by {
                    vstd::arithmetic::power2::lemma2_to64_rest();
                }
                assert(false);
            }
        }
        reached = reached * m as u64;
        level = level + 1;
    }
    proof {
        vstd::arithmetic::power::lemma_pow_adds(m as int, level as nat, 1);
        lemma_pow1(m as int);
        let p = pow(m as int, level as nat);
        assert((u * p) * m == u * (p * m)) by (nonlinear_arith);
        assert(reached * m > UNIT) by (nonlinear_arith)
            requires
                reached > UNIT / m as u64,
                m >= 2,
        ;
    }
    level
}

/// How many of the flags are false.
pub open spec fn count_live(deleted: Seq<bool>) -> nat
    decreases deleted.len(),
{
    if deleted.len() == 0 {
        0
    } else {
        count_live(deleted.drop_last()) + if deleted.last() {
            0nat
        } else {
            1nat
        }
    }
}

proof fn count_live_bounds(deleted: Seq<bool>)
    ensures
        count_live(deleted) <= deleted.len(),
    decreases deleted.len(),
{
    if deleted.len() > 0 {
        count_live_bounds(deleted.drop_last());
    }
}

proof fn count_live_push(deleted: Seq<bool>, b: bool)
    ensures
        count_live(deleted.push(b)) == count_live(deleted) + if b {
            0nat
        } else {
            1nat
        },
{
    assert(deleted.push(b).drop_last() =~= deleted);
}

proof fn count_live_update(deleted: Seq<bool>, i: int, b: bool)
    requires
        0 <= i < deleted.len(),
        deleted[i] != b,
    ensures
        count_live(deleted.update(i, b)) == if b {
            count_live(deleted) - 1
        } else {
            count_live(deleted) + 1int
        },
    decreases deleted.len(),
{
    let d = deleted.drop_last();
    if i == deleted.len() - 1 {
        assert(deleted.update(i, b).drop_last() =~= d);
    } else {
        count_live_update(d, i, b);
        assert(deleted.update(i, b).drop_last() =~= d.update(i, b));
    }
}

/// Where a greedy descent from `e` on layer `top` down to the layer above `stop`
/// may end.
pub open spec fn descended(
    g: Seq<NodeView>,
    near: spec_fn(u32) -> u32,
    e: u32,
    top: int,
    stop: int,
    r: u32,
) -> bool
    decreases top - stop,
{
    if stop >= top {
        r == e
    } else {
        let next = stop + 1;
        exists|mid: u32|
            descended(g, near, e, top, next, mid) && #[trigger] settled(g, next, near, mid, r)
    }
}

proof fn descend_one_more(
    g: Seq<NodeView>,
    near: spec_fn(u32) -> u32,
    e: u32,
    top: int,
    layer: int,
    mid: u32,
    r: u32,
)
    requires
        layer <= top,
        descended(g, near, e, top, layer, mid),
        settled(g, layer, near, mid, r),
    ensures
        descended(g, near, e, top, layer - 1, r),
{
    let next = (layer - 1) + 1;
    assert(descended(g, near, e, top, next, mid) && settled(g, next, near, mid, r));
}

/// A node with no neighbors yet.
pub open spec fn bare(id: u64, vector: Seq<u32>, level: nat) -> NodeView {
    NodeView { id, vector, links: Seq::new(level + 1, |l: int| Seq::empty()) }
}

/// No list is longer than its layer allows.
pub open spec fn within(g: Seq<NodeView>, params: HnswParams) -> bool {
    forall|i: int, l: int| (#[trigger] links(g, i, l)).len() <= params.max_links(l)
}

/// Where the search on layer `l` starts: at `curr` on the topmost one, else at the
/// nearest node found one layer up.
pub open spec fn entry_at(curr: u32, founds: Seq<Seq<(u32, u32)>>, l: int) -> u32 {
    if l == founds.len() - 1 {
        curr
    } else {
        founds[l + 1][0].1
    }
}

/// `h` is `base` with its last node linked, on each layer `l` of `founds`, to what
/// the heuristic keeps of `founds[l]`.
pub open spec fn joined<D: Fn(Metric, &[u32], &[u32]) -> u32>(
    d: D,
    m: Metric,
    params: HnswParams,
    base: Seq<NodeView>,
    h: Seq<NodeView>,
    curr: u32,
    founds: Seq<Seq<(u32, u32)>>,
) -> bool {
    let new = (base.len() - 1) as u32;
    let near = nearness(d, m, base, base.last().vector);
    let apart = apartness(d, m, base);
    &&& same_nodes(base, h)
    &&& forall|l: int|
        0 <= l < founds.len() ==> layer_found(
            base,
            l,
            near,
            entry_at(curr, founds, l),
            params.ef_construction as nat,
            #[trigger] founds[l],
        )
    &&& forall|i: int, l: int|
        0 <= i < base.len() ==> #[trigger] links(h, i, l) == if 0 <= l < founds.len() {
            links_after(
                apart,
                i,
                links(base, i, l),
                new,
                pruned(apart, founds[l], params.max_links(l) as nat),
                params.max_links(l) as nat,
            )
        } else {
            links(base, i, l)
        }
}

/// `h` is the graph `g`, entered at `entry`, after a node was inserted with top layer
/// `level`: a greedy descent to the layer above `level`, then on each layer from
/// there down a search of breadth `ef_construction`, whose result the heuristic cuts
/// down to the new node's neighbors.
pub open spec fn inserted<D: Fn(Metric, &[u32], &[u32]) -> u32>(
    d: D,
    m: Metric,
    params: HnswParams,
    g: Seq<NodeView>,
    entry: Option<u32>,
    node: NodeView,
    h: Seq<NodeView>,
) -> bool {
    let base = g.push(node);
    let level = node.links.len() - 1;
    match entry {
        None => h == base,
        Some(e) => {
            let near = nearness(d, m, base, node.vector);
            let top = g[e as int].links.len() - 1;
            let start = if level < top { level } else { top };
            exists|curr: u32, founds: Seq<Seq<(u32, u32)>>|
                {
                    &&& descended(base, near, e, top, level, curr)
                    &&& founds.len() == start + 1
                    &&& #[trigger] joined(d, m, params, base, h, curr, founds)
                }
        },
    }
}

/// The HNSW index.
#[derive(Debug, Clone)]
pub struct HnswIndex<D> {
    pub dim: usize,
    pub metric: Metric,
    pub params: HnswParams,
    pub nodes: Vec<Node>,
    /// id -> node index, for replace/delete/get.
    pub id_to_node: HashMap<u64, u32>,
    /// Tombstoned node indices (logical delete). Skipped in results, kept as
    /// routing waypoints.
    pub deleted: Vec<bool>,
    /// Number of live (non-tombstoned) nodes.
    pub live: usize,
    /// Entry-point node index; `None` until the first insert.
    pub entry_point: Option<u32>,
    pub rng: SplitMix64,
    pub kernel: D,
}

impl<D: Fn(Metric, &[u32], &[u32]) -> u32> HnswIndex<D> {
    /// The graph.
    pub open spec fn graph(self) -> Seq<NodeView> {
        graph_of(self.nodes@)
    }

    /// `id_to_node` is consistent with the stored node ids.
    pub open spec fn ids_ok(self) -> bool {
        forall|i: int|
            0 <= i < self.nodes@.len() ==> self.id_to_node@.contains_key(
                (#[trigger] self.nodes@[i]).id,
            ) && self.id_to_node@[self.nodes@[i].id] == i
    }

    /// The entry point is a valid node index, and is set if there are nodes.
    pub open spec fn entry_ok(self) -> bool {
        match self.entry_point {
            Some(e) => e < self.nodes@.len(),
            None => self.nodes@.len() == 0,
        }
    }

    /// Edges lead to existing nodes other than the one that they start from, and the
    /// degree bounds hold.
    pub open spec fn edges_ok(self) -> bool {
        &&& within(self.graph(), self.params)
        &&& forall|i: int, l: int, x: u32| #[trigger]
            links(self.graph(), i, l).contains(x) ==> x < self.nodes@.len() && x != i
    }

    /// The structural invariants:
    ///   1. every neighbor index references an existing node (no dangling edges),
    ///   2. each layer's adjacency respects its degree bound,
    ///   3. no node lists itself as a neighbor,
    ///   4. `id_to_node` is consistent with stored node ids,
    ///   5. the live count equals the number of non-tombstoned nodes,
    ///   6. the entry point, if set, is a valid node index.
    pub open spec fn consistent(self) -> bool {
        &&& self.edges_ok()
        &&& self.ids_ok()
        &&& self.live == count_live(self.deleted@)
        &&& self.entry_ok()
    }

    /// Every id that `id_to_node` knows is the id of the node that it leads to.
    pub open spec fn ids_exact(self) -> bool {
        forall|id: u64| #[trigger]
            self.id_to_node@.contains_key(id) ==> self.id_to_node@[id] < self.nodes@.len()
                && self.nodes@[self.id_to_node@[id] as int].id == id
    }

    /// `id` is stored and not tombstoned.
    pub open spec fn is_live(self, id: u64) -> bool {
        self.id_to_node@.contains_key(id) && !self.deleted@[self.id_to_node@[id] as int]
    }

    /// New empty index with default parameters and a fixed seed (deterministic
    /// builds).
    pub fn new(dim: usize, metric: Metric, kernel: D) -> (r: Self)
        requires
            dim > 0,
            is_kernel(kernel),
        ensures
            r.inv(),
            r.points() == Map::<u64, Seq<u32>>::empty(),
            r.dim == dim,
            r.metric == metric,
            r.kernel == kernel,
            r.params == HnswParams::standard(),
            r.rng.state == DEFAULT_SEED,
            r.nodes@.len() == 0,
    {
        Self::with_params(dim, metric, HnswParams::default(), DEFAULT_SEED, kernel)
    }

    /// New empty index with explicit parameters and level-generator seed.
    pub fn with_params(dim: usize, metric: Metric, params: HnswParams, seed: u64, kernel: D) -> (r:
        Self)
        requires
            dim > 0,
            params.usable(),
            is_kernel(kernel),
        ensures
            r.inv(),
            r.points() == Map::<u64, Seq<u32>>::empty(),
            r.dim == dim,
            r.metric == metric,
            r.kernel == kernel,
            r.params == params,
            r.rng.state == seed,
            r.nodes@.len() == 0,
    {
        let r = Self {
            dim,
            metric,
            params,
            nodes: Vec::new(),
            id_to_node: HashMap::new(),
            deleted: Vec::new(),
            live: 0,
            entry_point: None,
            rng: SplitMix64::new(seed),
            kernel,
        };
        assert(r.points() =~= Map::<u64, Seq<u32>>::empty());
        r
    }

    /// Max neighbor count permitted on a given layer.
    pub fn m_max(&self, layer: usize) -> (r: usize)
        ensures
            r == self.params.max_links(layer as int),
    {
        if layer == 0 {
            self.params.m0
        } else {
            self.params.m
        }
    }

    /// Draw a random top layer for a new node: `floor(-ln(U(0,1]) / ln(M))`.
    pub fn random_level(&mut self) -> (r: usize)
        requires
            old(self).params.usable(),
        ensures
            is_level(
                unit_of(mixed(next_state(old(self).rng.state))),
                old(self).params.m,
                r as nat,
            ),
            r <= 53,
            *final(self) == (Self {
                rng: SplitMix64 { state: next_state(old(self).rng.state) },
                ..*old(self)
            }),
    {
        let u: u64 = self.rng.next_unit();
        level_for(u, self.params.m)
    }

    /// Live node count (excludes tombstones).
    pub fn live_len(&self) -> (r: usize)
        requires
            self.inv(),
        ensures
            r == count_live(self.deleted@),
            r == self.points().len(),
    {
        proof {
            self.live_points();
        }
        self.live
    }

    /// Total node count including tombstones (for diagnostics/tests).
    pub fn total_nodes(&self) -> (r: usize)
        ensures
            r == self.nodes@.len(),
    {
        self.nodes.len()
    }

    /// Construction parameters.
    pub fn params(&self) -> (r: HnswParams)
        ensures
            r == self.params,
    {
        self.params
    }
}

/// The ids and scores of the live nodes among `found`, in order.
pub open spec fn live_results<D: Fn(Metric, &[u32], &[u32]) -> u32>(
    index: HnswIndex<D>,
    q: Seq<u32>,
    found: Seq<(u32, u32)>,
) -> Seq<(u64, u32)>
    decreases found.len(),
{
    if found.len() == 0 {
        Seq::empty()
    } else {
        let rest = live_results(index, q, found.drop_last());
        let v = found.last().1 as int;
        if index.deleted@[v] {
            rest
        } else {
            rest.push(
                (
                    index.nodes@[v].id,
                    score(index.kernel, index.metric, index.nodes@[v].vector@, q),
                ),
            )
        }
    }
}

/// The breadth of the layer-0 search.
pub open spec fn breadth_of(k: nat, ef: nat) -> nat {
    if ef < k {
        k
    } else {
        ef
    }
}

/// `r` is what a search for the `k` nearest points with breadth `ef` returns: a
/// greedy descent to layer 0, a search there of breadth `ef` or `k`, whichever is
/// larger, and of what it found the first `k` that are live.
pub open spec fn searched<D: Fn(Metric, &[u32], &[u32]) -> u32>(
    index: HnswIndex<D>,
    q: Seq<u32>,
    k: nat,
    ef: nat,
    r: Seq<(u64, u32)>,
) -> bool {
    if k == 0 || index.live == 0 {
        r.len() == 0
    } else {
        let g = index.graph();
        let near = nearness(index.kernel, index.metric, g, q);
        let e = index.entry_point.unwrap();
        exists|curr: u32, found: Seq<(u32, u32)>|
            {
                &&& descended(g, near, e, g[e as int].links.len() - 1, 0, curr)
                &&& #[trigger] layer_found(g, 0, near, curr, breadth_of(k, ef), found)
                &&& r == first_k(live_results(index, q, found), k)
            }
    }
}

/// The first `k` of `s`, or all of it.
pub open spec fn first_k(s: Seq<(u64, u32)>, k: nat) -> Seq<(u64, u32)> {
    if s.len() <= k {
        s
    } else {
        s.take(k as int)
    }
}

proof fn live_results_prefix<D: Fn(Metric, &[u32], &[u32]) -> u32>(
    index: HnswIndex<D>,
    q: Seq<u32>,
    found: Seq<(u32, u32)>,
    n: int,
)
    requires
        0 <= n <= found.len(),
    ensures
        live_results(index, q, found.take(n)).len() <= live_results(index, q, found).len(),
        live_results(index, q, found).take(live_results(index, q, found.take(n)).len() as int)
            == live_results(index, q, found.take(n)),
    decreases found.len(),
{
    let a = live_results(index, q, found.take(n));
    let b = live_results(index, q, found);
    if n == found.len() {
        assert(found.take(n) =~= found);
        assert(b.take(b.len() as int) =~= b);
    } else {
        let d = found.drop_last();
        live_results_prefix(index, q, d, n);
        assert(d.take(n) =~= found.take(n));
        assert(b.take(a.len() as int) =~= live_results(index, q, d).take(a.len() as int));
    }
}

proof fn live_results_are_answers<D: Fn(Metric, &[u32], &[u32]) -> u32>(
    index: HnswIndex<D>,
    q: Seq<u32>,
    found: Seq<(u32, u32)>,
    curr: u32,
    ef: nat,
)
    requires
        index.inv(),
        layer_found(
            index.graph(),
            0,
            nearness(index.kernel, index.metric, index.graph(), q),
            curr,
            ef,
            found,
        ),
    ensures
        answers(
            index.points(),
            index.score_of(q),
            live_results(index, q, found).len(),
            live_results(index, q, found),
        ),
        forall|i: int, j: int|
            0 <= i < j < live_results(index, q, found).len() ==> rank(
                (#[trigger] live_results(index, q, found)[i]).1,
            ) <= rank((#[trigger] live_results(index, q, found)[j]).1),
{
    found_is_ordered(
        index.graph(),
        0,
        nearness(index.kernel, index.metric, index.graph(), q),
        curr,
        ef,
        found,
    );
    live_results_from(index, q, found, found.len() as int);
    assert(found.take(found.len() as int) =~= found);
    let r = live_results(index, q, found);
    assert forall|i: int, j: int| 0 <= i < j < r.len() implies (#[trigger] r[i]).0 != (#[trigger] r[j]).0
        && rank(r[i].1) <= rank(r[j].1) by {
        let a = choose|a: int| result_at(index, q, found, r[i], a, i);
        assert(result_at(index, q, found, r[i], a, i));
        let b = choose|b: int| result_at(index, q, found, r[j], b, j);
        assert(result_at(index, q, found, r[j], b, j));
        assert(found[a].1 == found_nodes(found)[a]);
        assert(found[b].1 == found_nodes(found)[b]);
        live_results_place(index, q, found, a, b);
    }
}

/// Result number `i` comes from `found[a]`.
spec fn result_at<D: Fn(Metric, &[u32], &[u32]) -> u32>(
    index: HnswIndex<D>,
    q: Seq<u32>,
    found: Seq<(u32, u32)>,
    r: (u64, u32),
    a: int,
    i: int,
) -> bool {
    &&& 0 <= a < found.len()
    &&& found[a].1 < index.nodes@.len()
    &&& !index.deleted@[found[a].1 as int]
    &&& r.0 == index.nodes@[found[a].1 as int].id
    &&& r.1 == score(index.kernel, index.metric, index.nodes@[found[a].1 as int].vector@, q)
    &&& i == live_results(index, q, found.take(a)).len()
}

proof fn live_results_place<D: Fn(Metric, &[u32], &[u32]) -> u32>(
    index: HnswIndex<D>,
    q: Seq<u32>,
    found: Seq<(u32, u32)>,
    a: int,
    b: int,
)
    requires
        0 <= a < found.len(),
        0 <= b < found.len(),
        live_results(index, q, found.take(a)).len() < live_results(index, q, found.take(b)).len(),
    ensures
        a < b,
{
    if b <= a {
        live_results_prefix(index, q, found.take(a), b);
        assert(found.take(a).take(b) =~= found.take(b));
    }
}

proof fn live_results_from<D: Fn(Metric, &[u32], &[u32]) -> u32>(
    index: HnswIndex<D>,
    q: Seq<u32>,
    found: Seq<(u32, u32)>,
    n: int,
)
    requires
        index.inv(),
        0 <= n <= found.len(),
        forall|i: int| 0 <= i < found.len() ==> (#[trigger] found[i]).1 < index.nodes@.len(),
    ensures
        forall|i: int|
            0 <= i < live_results(index, q, found.take(n)).len() ==> {
                let r = #[trigger] live_results(index, q, found.take(n))[i];
                &&& index.points().contains_key(r.0)
                &&& r.1 == index.score_of(q)(r.0)
                &&& exists|a: int| a < n && result_at(index, q, found, r, a, i)
            },
    decreases n,
{
    if n > 0 {
        let t = found.take(n);
        live_results_from(index, q, found, n - 1);
        assert(t.drop_last() =~= found.take(n - 1));
        let v = found[n - 1].1 as int;
        assert forall|i: int| 0 <= i < live_results(index, q, t).len() implies {
            let r = #[trigger] live_results(index, q, t)[i];
            &&& index.points().contains_key(r.0)
            &&& r.1 == index.score_of(q)(r.0)
            &&& exists|a: int| a < n && result_at(index, q, found, r, a, i)
        } by {
            let rest = live_results(index, q, found.take(n - 1));
            let r = live_results(index, q, t)[i];
            if i < rest.len() {
                assert(r == rest[i]);
                let a = choose|a: int| a < n - 1 && result_at(index, q, found, rest[i], a, i);
                assert(a < n && result_at(index, q, found, r, a, i));
            } else {
                assert(v < index.nodes@.len());
                assert(result_at(index, q, found, r, n - 1, i));
                assert(index.id_to_node@[index.nodes@[v].id] == v);
            }
        }
    }
}

impl<D: Fn(Metric, &[u32], &[u32]) -> u32> HnswIndex<D> {
    /// As many points are live as nodes are not tombstoned.
    proof fn live_points(self)
        requires
            self.inv(),
        ensures
            self.points().dom().finite(),
            self.points().len() == self.live,
    {
        self.live_points_of(self.nodes@.len() as int);
        let s = self.live_ids(self.nodes@.len() as int);
        assert(self.deleted@.take(self.nodes@.len() as int) =~= self.deleted@);
        assert(self.points().dom() =~= s) by {
            assert forall|id: u64| self.points().contains_key(id) <==> s.contains(id) by {
                if self.points().contains_key(id) {
                    let i = self.id_to_node@[id] as int;
                    assert(self.nodes@[i].id == id);
                    assert(!self.deleted@[i]);
                }
                if s.contains(id) {
                    let i = choose|i: int|
                        0 <= i < self.nodes@.len() && !self.deleted@[i] && (#[trigger] self.nodes@[i]).id == id;
                    assert(self.id_to_node@[id] == i);
                }
            }
        }
    }

    /// The ids of the live ones among the first `n` nodes.
    spec fn live_ids(self, n: int) -> Set<u64> {
        Set::new(
            |id: u64|
                exists|i: int| 0 <= i < n && !self.deleted@[i] && (#[trigger] self.nodes@[i]).id == id,
        )
    }

    proof fn live_points_of(self, n: int)
        requires
            self.inv(),
            0 <= n <= self.nodes@.len(),
        ensures
            self.live_ids(n).finite(),
            self.live_ids(n).len() == count_live(self.deleted@.take(n)),
        decreases n,
    {
        let d = self.deleted@.take(n);
        if n == 0 {
            assert(self.live_ids(0) =~= Set::<u64>::empty());
        } else {
            self.live_points_of(n - 1);
            assert(d.drop_last() =~= self.deleted@.take(n - 1));
            let id = self.nodes@[n - 1].id;
            let before = self.live_ids(n - 1);
            assert(!before.contains(id)) by {
                if before.contains(id) {
                    let i = choose|i: int|
                        0 <= i < n - 1 && !self.deleted@[i] && (#[trigger] self.nodes@[i]).id == id;
                    assert(self.id_to_node@[self.nodes@[i].id] == i);
                    assert(self.id_to_node@[self.nodes@[n - 1].id] == n - 1);
                }
            }
            if self.deleted@[n - 1] {
                assert(self.live_ids(n) =~= before) by {
                    assert forall|x: u64| self.live_ids(n).contains(x) implies before.contains(x) by {
                        let i = choose|i: int|
                            0 <= i < n && !self.deleted@[i] && (#[trigger] self.nodes@[i]).id == x;
                        assert(0 <= i < n - 1 && !self.deleted@[i] && self.nodes@[i].id == x);
                    }
                    assert forall|x: u64| before.contains(x) implies self.live_ids(n).contains(x) by {
                        let i = choose|i: int|
                            0 <= i < n - 1 && !self.deleted@[i] && (#[trigger] self.nodes@[i]).id == x;
                        assert(0 <= i < n && !self.deleted@[i] && self.nodes@[i].id == x);
                    }
                }
            } else {
                assert(self.live_ids(n) =~= before.insert(id)) by {
                    assert forall|x: u64| self.live_ids(n).contains(x) implies before.insert(id).contains(x) by {
                        let i = choose|i: int|
                            0 <= i < n && !self.deleted@[i] && (#[trigger] self.nodes@[i]).id == x;
                        if i < n - 1 {
                            assert(0 <= i < n - 1 && !self.deleted@[i] && self.nodes@[i].id == x);
                        }
                    }
                    assert forall|x: u64| before.insert(id).contains(x) implies self.live_ids(n).contains(x) by {
                        if x == id {
                            assert(0 <= n - 1 < n && !self.deleted@[n - 1] && self.nodes@[n - 1].id == x);
                        } else {
                            let i = choose|i: int|
                                0 <= i < n - 1 && !self.deleted@[i] && (#[trigger] self.nodes@[i]).id == x;
                            assert(0 <= i < n && !self.deleted@[i] && self.nodes@[i].id == x);
                        }
                    }
                }
            }
        }
    }
}

impl<D: Fn(Metric, &[u32], &[u32]) -> u32> VectorIndex for HnswIndex<D> {
    open spec fn inv(&self) -> bool {
        &&& is_kernel(self.kernel)
        &&& self.dim > 0
        &&& self.params.usable()
        &&& self.deleted@.len() == self.nodes@.len()
        &&& sound(self.graph(), self.dim as nat)
        &&& self.consistent()
        &&& self.ids_exact()
    }

    open spec fn points(&self) -> Map<u64, Seq<u32>> {
        Map::new(
            |id: u64| self.is_live(id),
            |id: u64| self.nodes@[self.id_to_node@[id] as int].vector@,
        )
    }

    open spec fn dimension(&self) -> nat {
        self.dim as nat
    }

    open spec fn measure(&self) -> Metric {
        self.metric
    }

    open spec fn accepts(&self, id: u64) -> bool {
        self.id_to_node@.contains_key(id) || self.nodes@.len() < u32::MAX
    }

    open spec fn score_of(&self, q: Seq<u32>) -> spec_fn(u64) -> u32 {
        |id: u64| score(self.kernel, self.metric, self.points()[id], q)
    }

    fn dim(&self) -> (r: usize) {
        self.dim
    }

    fn metric(&self) -> (r: Metric) {
        self.metric
    }

    fn len(&self) -> (r: usize) {
        proof {
            self.live_points();
        }
        self.live
    }

    fn insert(&mut self, id: u64, vector: &[u32]) -> (r: Result<(), IndexError>)
        ensures
            final(self).kernel == old(self).kernel,
            final(self).params == old(self).params,
            vector@.len() == old(self).dim ==> upserted(*old(self), id, vector@, *final(self)),
    {
        if vector.len() != self.dim {
            return Err(IndexError::DimMismatch { expected: self.dim, got: vector.len() });
        }
        // An id that exists, live or tombstoned, keeps its place in the graph: its
        // vector is overwritten and a tombstone is revived.
        if let Some(idx) = self.id_to_node.get(&id) {
            let idx: usize = *idx as usize;
            let mut row: Vec<u32> = Vec::new();
            row.extend_from_slice(vector);
            assert(row@ =~= vector@);
            let ghost g = self.graph();
            let node: &mut Node = &mut self.nodes[idx];
            node.vector = row;
            proof {
                let h = self.graph();
                assert(h =~= g.update(idx as int, NodeView { vector: vector@, ..g[idx as int] }));
                assert forall|i: int, l: int| #[trigger] links(h, i, l) == links(g, i, l) by {}
                assert forall|i: int| 0 <= i < h.len() implies (#[trigger] h[i]).links == g[i].links by {}
                assert(sound(h, self.dim as nat)) by {
                    assert forall|i: int, l: int, x: u32| #[trigger] links(h, i, l).contains(x) implies x
                        < h.len() && x != i && l < h[x as int].links.len() by {
                        assert(links(g, i, l).contains(x));
                    }
                }
                assert forall|i: int| 0 <= i < self.nodes@.len() implies (#[trigger] self.nodes@[i]).id == old(
                    self,
                ).nodes@[i].id by {}
                assert(self.ids_ok()) by {
                    assert forall|i: int| 0 <= i < self.nodes@.len() implies self.id_to_node@.contains_key(
                        (#[trigger] self.nodes@[i]).id,
                    ) && self.id_to_node@[self.nodes@[i].id] == i by {
                        assert(self.nodes@[i].id == old(self).nodes@[i].id);
                    }
                }
                assert(self.edges_ok()) by {
                    assert forall|i: int, l: int, x: u32| #[trigger]
                        links(h, i, l).contains(x) implies x < h.len() && x != i by {
                        assert(links(g, i, l).contains(x));
                    }
                }
            }
            if self.deleted[idx] {
                proof {
                    count_live_update(self.deleted@, idx as int, false);
                    count_live_bounds(self.deleted@.update(idx as int, false));
                }
                self.deleted.set(idx, false);
                self.live = self.live + 1;
            }
            proof {
                assert(self.deleted@ =~= old(self).deleted@.update(idx as int, false));
                assert forall|x: u64| self.is_live(x) <==> old(self).is_live(x) || x == id by {
                    if self.id_to_node@.contains_key(x) && x != id {
                        assert(self.id_to_node@[x] != idx);
                    }
                }
                assert forall|x: u64| self.is_live(x) && x != id implies self.nodes@[self.id_to_node@[x] as int].vector@
                    == old(self).nodes@[self.id_to_node@[x] as int].vector@ by {
                    assert(self.id_to_node@[x] != idx);
                }
                assert(self.points() =~= old(self).points().insert(id, vector@));
            }
            return Ok(());
        }
        self.insert_new(id, vector);
        Ok(())
    }

    fn delete(&mut self, id: u64) -> (r: bool)
        ensures
            tombstoned(*old(self), id, *final(self)),
    {
        if let Some(idx) = self.id_to_node.get(&id) {
            let idx: usize = *idx as usize;
            if !self.deleted[idx] {
                proof {
                    count_live_update(self.deleted@, idx as int, true);
                }
                self.deleted.set(idx, true);
                self.live = self.live - 1;
                proof {
                    assert(self.graph() =~= old(self).graph());
                    assert forall|x: u64| self.is_live(x) <==> old(self).is_live(x) && x != id by {
                        if self.id_to_node@.contains_key(x) && x != id {
                            assert(self.id_to_node@[x] != idx);
                        }
                    }
                    assert(self.points() =~= old(self).points().remove(id));
                }
                return true;
            }
        }
        assert(self.points() =~= old(self).points().remove(id));
        assert(self.id_to_node@.contains_key(id) ==> self.deleted@ =~= self.deleted@.update(
            self.id_to_node@[id] as int,
            true,
        ));
        false
    }

    fn get_vector(&self, id: u64) -> (r: Option<Vec<u32>>) {
        match self.id_to_node.get(&id) {
            Some(idx) => {
                if self.deleted[*idx as usize] {
                    None
                } else {
                    let v: Vec<u32> = self.nodes[*idx as usize].vector.clone();
                    assert(v@ =~= self.nodes@[*idx as int].vector@);
                    Some(v)
                }
            },
            None => None,
        }
    }

    fn search(&self, query: &[u32], k: usize, ef_search: usize) -> (r: Result<
        Vec<(u64, u32)>,
        IndexError,
    >)
        ensures
            r matches Ok(found) ==> searched(*self, query@, k as nat, ef_search as nat, found@),
    {
        if query.len() != self.dim {
            return Err(IndexError::DimMismatch { expected: self.dim, got: query.len() });
        }
        if k == 0 || self.live == 0 {
            return Ok(Vec::new());
        }
        let entry: u32 = match self.entry_point {
            Some(e) => e,
            None => {
                proof {
                    count_live_bounds(self.deleted@);
                }
                return Ok(Vec::new());
            },
        };
        let ghost g = self.graph();
        let ghost near = nearness(self.kernel, self.metric, g, query@);
        assert(g[entry as int] == self.nodes@[entry as int]@);
        assert(g[entry as int].links.len() >= 1);
        // Descend the upper layers greedily to find a good layer-0 entry.
        let top: usize = self.nodes[entry as usize].neighbors.len() - 1;
        let mut curr: u32 = entry;
        let mut layer: usize = top;
        while layer > 0
            invariant
                self.inv(),
                query@.len() == self.dim,
                g == self.graph(),
                near == nearness(self.kernel, self.metric, g, query@),
                layer <= top,
                curr < g.len(),
                descended(g, near, entry, top as int, layer as int, curr),
            decreases layer,
        {
            let next: u32 = greedy_search_layer(
                &self.kernel,
                self.metric,
                &self.nodes,
                query,
                curr,
                layer,
            );
            proof {
                descend_one_more(g, near, entry, top as int, layer as int, curr, next);
            }
            curr = next;
            layer = layer - 1;
        }
        // Layer-0 search with breadth max(ef_search, k).
        let ef: usize = if ef_search < k {
            k
        } else {
            ef_search
        };
        let found: Vec<(u32, u32)> = search_layer(
            &self.kernel,
            self.metric,
            &self.nodes,
            query,
            curr,
            ef,
            0,
        );
        // Filter tombstones, map node -> id, take k.
        let mut out: Vec<(u64, u32)> = Vec::new();
        let mut i: usize = 0;
        assert(found@.take(0) =~= Seq::empty());
        while i < found.len() && out.len() < k
            invariant
                self.inv(),
                query@.len() == self.dim,
                g == self.graph(),
                i <= found@.len(),
                forall|j: int| 0 <= j < found@.len() ==> (#[trigger] found@[j]).1 < g.len(),
                out@ == live_results(*self, query@, found@.take(i as int)),
                out@.len() <= k,
            decreases found@.len() - i,
        {
            let v: usize = found[i].1 as usize;
            proof {
                assert(found@.take(i + 1).drop_last() =~= found@.take(i as int));
                assert(found@.take(i + 1).last() == found@[i as int]);
                assert(g[v as int].vector.len() == self.dim);
            }
            if !self.deleted[v] {
                let d: u32 = distance(
                    &self.kernel,
                    self.metric,
                    self.nodes[v].vector.as_slice(),
                    query,
                );
                out.push((self.nodes[v].id, d));
            }
            i = i + 1;
        }
        proof {
            let all = live_results(*self, query@, found@);
            live_results_prefix(*self, query@, found@, i as int);
            if i == found@.len() {
                assert(found@.take(i as int) =~= found@);
            }
            assert(all.take(all.len() as int) =~= all);
            assert(out@ == first_k(all, k as nat));
            live_results_are_answers(*self, query@, found@, curr, ef as nat);
            assert(layer_found(g, 0, near, curr, breadth_of(k as nat, ef_search as nat), found@));
            assert forall|j: int| 0 <= j < out@.len() implies #[trigger] out@[j] == all[j] by {}
        }
        Ok(out)
    }
}

/// The entry point after a node with top layer `level` was added to `index`: the
/// new node where it rises above the old entry point.
pub open spec fn entry_after<D: Fn(Metric, &[u32], &[u32]) -> u32>(index: HnswIndex<D>, level: nat) -> Option<
    u32,
> {
    match index.entry_point {
        Some(e) if level <= index.graph()[e as int].links.len() - 1 => Some(e),
        _ => Some(index.nodes@.len() as u32),
    }
}

/// `b` is `a` after a node with the new id `id` was added at level `level`.
pub open spec fn added_at<D: Fn(Metric, &[u32], &[u32]) -> u32>(
    a: HnswIndex<D>,
    id: u64,
    vector: Seq<u32>,
    level: nat,
    b: HnswIndex<D>,
) -> bool {
    &&& is_level(unit_of(mixed(next_state(a.rng.state))), a.params.m, level)
    &&& inserted(
        a.kernel,
        a.metric,
        a.params,
        a.graph(),
        a.entry_point,
        bare(id, vector, level),
        b.graph(),
    )
    &&& b.rng.state == next_state(a.rng.state)
    &&& b.entry_point == entry_after(a, level)
    &&& b.deleted@ == a.deleted@.push(false)
    &&& b.id_to_node@ == a.id_to_node@.insert(id, a.nodes@.len() as u32)
}

/// `b` is `a` after a node with the new id `id` was added, at the level that the
/// generator drew.
pub open spec fn added<D: Fn(Metric, &[u32], &[u32]) -> u32>(
    a: HnswIndex<D>,
    id: u64,
    vector: Seq<u32>,
    b: HnswIndex<D>,
) -> bool {
    exists|level: nat| added_at(a, id, vector, level, b)
}

/// `b` has the settings of `a`.
pub open spec fn same_settings<D: Fn(Metric, &[u32], &[u32]) -> u32>(
    a: HnswIndex<D>,
    b: HnswIndex<D>,
) -> bool {
    a.dim == b.dim && a.metric == b.metric && a.params == b.params && a.kernel == b.kernel
}

/// `b` is `a` after the node of the known id `id`, live or tombstoned, got a new vector.
/// Its place in the graph stays.
pub open spec fn replaced<D: Fn(Metric, &[u32], &[u32]) -> u32>(
    a: HnswIndex<D>,
    id: u64,
    vector: Seq<u32>,
    b: HnswIndex<D>,
) -> bool {
    let i = a.id_to_node@[id] as int;
    &&& b.graph() == a.graph().update(i, NodeView { vector, ..a.graph()[i] })
    &&& b.deleted@ == a.deleted@.update(i, false)
    &&& b.id_to_node@ == a.id_to_node@
    &&& b.rng.state == a.rng.state
    &&& b.entry_point == a.entry_point
}

/// `b` is `a` after the vector for `id` was inserted or replaced.
pub open spec fn upserted<D: Fn(Metric, &[u32], &[u32]) -> u32>(
    a: HnswIndex<D>,
    id: u64,
    vector: Seq<u32>,
    b: HnswIndex<D>,
) -> bool {
    &&& same_settings(a, b)
    &&& if a.id_to_node@.contains_key(id) {
        replaced(a, id, vector, b)
    } else {
        added(a, id, vector, b)
    }
}

/// `b` is `a` after `id` was deleted: its node, if there is one, is tombstoned and stays
/// in the graph.
pub open spec fn tombstoned<D: Fn(Metric, &[u32], &[u32]) -> u32>(
    a: HnswIndex<D>,
    id: u64,
    b: HnswIndex<D>,
) -> bool {
    &&& same_settings(a, b)
    &&& b.graph() == a.graph()
    &&& b.deleted@ == if a.id_to_node@.contains_key(id) {
        a.deleted@.update(a.id_to_node@[id] as int, true)
    } else {
        a.deleted@
    }
    &&& b.id_to_node@ == a.id_to_node@
    &&& b.rng.state == a.rng.state
    &&& b.entry_point == a.entry_point
}

proof fn push_is_sound(g: Seq<NodeView>, node: NodeView, level: nat, dim: nat, params: HnswParams)
    requires
        sound(g, dim),
        within(g, params),
        g.len() < u32::MAX,
        node == bare(node.id, node.vector, level),
        node.vector.len() == dim,
    ensures
        sound(g.push(node), dim),
        within(g.push(node), params),
        forall|i: int, l: int| #[trigger] links(g.push(node), i, l) == links(g, i, l),
{
    let h = g.push(node);
    assert forall|i: int, l: int| #[trigger] links(h, i, l) == links(g, i, l) by {
        if i == g.len() {
            assert(links(h, i, l) =~= Seq::empty());
        }
    }
    assert forall|i: int, l: int, x: u32| #[trigger] links(h, i, l).contains(x) implies x < h.len() && x != i && l
        < h[x as int].links.len() by {
        assert(links(g, i, l).contains(x));
    }
    assert forall|i: int, l: int| (#[trigger] links(h, i, l)).len() <= params.max_links(l) by {
        assert(links(g, i, l).len() <= params.max_links(l));
    }
}

proof fn wired_within(
    apart: spec_fn(u32, u32) -> u32,
    g: Seq<NodeView>,
    h: Seq<NodeView>,
    l: int,
    new: u32,
    chosen: Seq<u32>,
    params: HnswParams,
)
    requires
        within(g, params),
        chosen.len() <= params.max_links(l),
        wired(apart, g, h, l, new, chosen, params.max_links(l) as nat),
    ensures
        within(h, params),
{
    assert forall|i: int, k: int| (#[trigger] links(h, i, k)).len() <= params.max_links(k) by {
        if 0 <= i < g.len() {
            assert(links(g, i, k).len() <= params.max_links(k));
            if k == l {
                relinked_bounds(apart, i as u32, links(g, i, k), new, params.max_links(l) as nat);
            }
        }
    }
}

/// How far the linking of a new node has come: the layers from `k` up are done.
spec fn linked_down_to<D: Fn(Metric, &[u32], &[u32]) -> u32>(
    d: D,
    m: Metric,
    params: HnswParams,
    base: Seq<NodeView>,
    h: Seq<NodeView>,
    curr: u32,
    above: Seq<Seq<(u32, u32)>>,
    k: int,
) -> bool {
    let new = (base.len() - 1) as u32;
    let near = nearness(d, m, base, base.last().vector);
    let apart = apartness(d, m, base);
    &&& same_nodes(base, h)
    &&& forall|j: int|
        0 <= j < above.len() ==> layer_found(
            base,
            k + j,
            near,
            entry_at(curr, above, j),
            params.ef_construction as nat,
            #[trigger] above[j],
        )
    &&& forall|i: int, l: int|
        0 <= i < base.len() ==> #[trigger] links(h, i, l) == if k <= l < k + above.len() {
            links_after(
                apart,
                i,
                links(base, i, l),
                new,
                pruned(apart, above[l - k], params.max_links(l) as nat),
                params.max_links(l) as nat,
            )
        } else {
            links(base, i, l)
        }
}

#[verifier::rlimit(40)]
proof fn linked_one_more<D: Fn(Metric, &[u32], &[u32]) -> u32>(
    d: D,
    m: Metric,
    params: HnswParams,
    base: Seq<NodeView>,
    h: Seq<NodeView>,
    h2: Seq<NodeView>,
    curr: u32,
    above: Seq<Seq<(u32, u32)>>,
    k: int,
    found: Seq<(u32, u32)>,
)
    requires
        base.len() > 0,
        k > 0,
        linked_down_to(d, m, params, base, h, curr, above, k),
        layer_found(
            base,
            k - 1,
            nearness(d, m, base, base.last().vector),
            if above.len() == 0 {
                curr
            } else {
                above[0][0].1
            },
            params.ef_construction as nat,
            found,
        ),
        wired(
            apartness(d, m, base),
            h,
            h2,
            k - 1,
            (base.len() - 1) as u32,
            pruned(apartness(d, m, base), found, params.max_links(k - 1) as nat),
            params.max_links(k - 1) as nat,
        ),
    ensures
        linked_down_to(d, m, params, base, h2, curr, seq![found] + above, k - 1),
{
    let more = seq![found] + above;
    let near = nearness(d, m, base, base.last().vector);
    let apart = apartness(d, m, base);
    let new = (base.len() - 1) as u32;
    same_nodes_carries(base, h, h2);
    assert forall|j: int| 0 <= j < more.len() implies layer_found(
        base,
        k - 1 + j,
        near,
        entry_at(curr, more, j),
        params.ef_construction as nat,
        #[trigger] more[j],
    ) by {
        if j > 0 {
            assert(more[j] == above[j - 1]);
            assert(k + (j - 1) == k - 1 + j);
            if j < more.len() - 1 {
                assert(more[j + 1] == above[j]);
            }
            assert(entry_at(curr, more, j) == entry_at(curr, above, j - 1));
        } else if above.len() > 0 {
            assert(more[1] == above[0]);
        }
    }
    assert forall|i: int, l: int| 0 <= i < base.len() implies #[trigger] links(h2, i, l) == if k - 1 <= l < k - 1
        + more.len() {
        links_after(
            apart,
            i,
            links(base, i, l),
            new,
            pruned(apart, more[l - (k - 1)], params.max_links(l) as nat),
            params.max_links(l) as nat,
        )
    } else {
        links(base, i, l)
    } by {
        let before = links(h, i, l);
        if l == k - 1 {
            assert(before == links(base, i, l));
            assert(more[0] == found);
        } else if k <= l < k + above.len() {
            assert(more[l - (k - 1)] == above[l - k]);
        }
    }
}

proof fn same_nodes_carries(a: Seq<NodeView>, b: Seq<NodeView>, c: Seq<NodeView>)
    requires
        same_nodes(a, b),
        same_nodes(b, c),
    ensures
        same_nodes(a, c),
{
    assert forall|i: int| 0 <= i < a.len() implies (#[trigger] c[i]).id == a[i].id && c[i].vector
        == a[i].vector && c[i].links.len() == a[i].links.len() by {
        assert(c[i].id == b[i].id);
        assert(b[i].id == a[i].id);
    }
}

impl<D: Fn(Metric, &[u32], &[u32]) -> u32> HnswIndex<D> {
    /// Insert a brand-new node (id not already present).
    #[verifier::rlimit(80)]
    #[verifier::spinoff_prover]
    fn insert_new(&mut self, id: u64, vector: &[u32])
        requires
            old(self).inv(),
            vector@.len() == old(self).dim,
            !old(self).id_to_node@.contains_key(id),
            old(self).nodes@.len() < u32::MAX,
        ensures
            final(self).inv(),
            final(self).dim == old(self).dim,
            final(self).metric == old(self).metric,
            final(self).params == old(self).params,
            final(self).kernel == old(self).kernel,
            final(self).points() == old(self).points().insert(id, vector@),
            added(*old(self), id, vector@, *final(self)),
    {
        let ghost a = *self;
        let ghost g = self.graph();
        let level: usize = self.random_level();
        let new: u32 = self.nodes.len() as u32;
        let mut neighbors: Vec<Vec<u32>> = Vec::new();
        let mut i: usize = 0;
        while i < level + 1
            invariant
                level <= 53,
                i <= level + 1,
                neighbors@.len() == i,
                forall|j: int| 0 <= j < i ==> (#[trigger] neighbors@[j])@ == Seq::<u32>::empty(),
            decreases level + 1 - i,
        {
            neighbors.push(Vec::new());
            i = i + 1;
        }
        let mut row: Vec<u32> = Vec::new();
        row.extend_from_slice(vector);
        let node = Node { id, vector: row, neighbors };
        let ghost view = bare(id, vector@, level as nat);
        proof {
            assert(node.vector@ =~= vector@);
            assert(node@.links =~= view.links);
            assert(node@ == view);
            count_live_push(self.deleted@, false);
            count_live_bounds(self.deleted@.push(false));
            push_is_sound(g, view, level as nat, self.dim as nat, self.params);
        }
        self.nodes.push(node);
        self.deleted.push(false);
        let _before: Option<u32> = self.id_to_node.insert(id, new);
        self.live = self.live + 1;
        let ghost base = self.graph();
        proof {
            assert(base =~= g.push(view));
            assert forall|i: int, l: int| #[trigger] links(base, i, l).contains(new) implies false by {
                assert(links(g, i, l).contains(new));
            }
        }
        let entry: u32 = match self.entry_point {
            None => {
                self.entry_point = Some(new);
                proof {
                    assert(inserted(
                        a.kernel,
                        a.metric,
                        a.params,
                        g,
                        a.entry_point,
                        view,
                        self.graph(),
                    ));
                    assert(added_at(a, id, vector@, level as nat, *self));
                    self.finish_insert(a, id, vector@, base);
                }
                return ;
            },
            Some(e) => e,
        };
        let kernel: &D = &self.kernel;
        let metric: Metric = self.metric;
        let ghost near = nearness(self.kernel, metric, base, vector@);
        let ghost apart = apartness(self.kernel, metric, base);
        assert(base[entry as int] == self.nodes@[entry as int]@);
        assert(base[entry as int] == g[entry as int]);
        assert(g[entry as int].links.len() >= 1);
        let top: usize = self.nodes[entry as usize].neighbors.len() - 1;
        // Greedy descent from the top down to the layer above the new node's top
        // layer, refining the entry point one layer at a time.
        let mut curr: u32 = entry;
        let mut layer: usize = top;
        while layer > level
            invariant
                is_kernel(self.kernel),
                self.graph() == base,
                metric == self.metric,
                sound(base, vector@.len()),
                near == nearness(self.kernel, metric, base, vector@),
                layer <= top,
                layer >= level || layer == top,
                base.len() == new + 1,
                curr < new,
                forall|i: int, l: int| #[trigger] links(base, i, l).contains(new) ==> false,
                layer < base[curr as int].links.len(),
                descended(
                    base,
                    near,
                    entry,
                    top as int,
                    if layer > level {
                        layer as int
                    } else {
                        level as int
                    },
                    curr,
                ),
            decreases layer,
        {
            let next: u32 = greedy_search_layer(
                &self.kernel,
                metric,
                &self.nodes,
                vector,
                curr,
                layer,
            );
            proof {
                descend_one_more(base, near, entry, top as int, layer as int, curr, next);
                let old_nodes = Set::new(|x: u32| x != new);
                assert(crate::graph::closed_at(base, layer as int, old_nodes));
                assert(old_nodes.contains(curr));
                assert(old_nodes.contains(next));
            }
            curr = next;
            layer = layer - 1;
        }
        // From there down to layer 0: find candidates, select neighbors by the
        // heuristic, and wire edges both ways, pruning over-full neighborhoods.
        let start: usize = if level < top {
            level
        } else {
            top
        };
        let mut entry_for_layer: u32 = curr;
        let mut k: usize = start + 1;
        let ghost mut above: Seq<Seq<(u32, u32)>> = Seq::empty();
        let ghost s1 = *self;
        while k > 0
            invariant
                is_kernel(self.kernel),
                *self == (HnswIndex { nodes: self.nodes, ..s1 }),
                metric == self.metric,
                self.params.usable(),
                sound(base, vector@.len()),
                sound(self.graph(), vector@.len()),
                within(self.graph(), self.params),
                base.len() == new + 1,
                base.last().vector == vector@,
                near == nearness(self.kernel, metric, base, vector@),
                apart == apartness(self.kernel, metric, base),
                k <= start + 1,
                start <= level,
                start <= top,
                level <= 53,
                base[new as int].links.len() == level + 1,
                base[new as int] == view,
                forall|i: int, l: int| #[trigger] links(base, i, l).contains(new) ==> false,
                forall|l: int| (#[trigger] links(base, new as int, l)).len() == 0,
                above.len() == start + 1 - k,
                linked_down_to(self.kernel, metric, self.params, base, self.graph(), curr, above, k as int),
                entry_for_layer == if above.len() == 0 {
                    curr
                } else {
                    above[0][0].1
                },
                entry_for_layer < new,
                k > 0 ==> k - 1 < base[entry_for_layer as int].links.len(),
            decreases k,
        {
            let l: usize = k - 1;
            let ghost h = self.graph();
            let found: Vec<(u32, u32)> = search_layer(
                &self.kernel,
                metric,
                &self.nodes,
                vector,
                entry_for_layer,
                self.params.ef_construction,
                l,
            );
            let m: usize = self.m_max(l);
            proof {
                assert(nearness(self.kernel, metric, h, vector@) =~= near);
                assert(apartness(self.kernel, metric, h) =~= apart);
                assert forall|i: int| #[trigger] links(h, i, l as int) == links(base, i, l as int) by {
                    if i < 0 || i >= base.len() {
                        assert(links(h, i, l as int) =~= links(base, i, l as int));
                    }
                }
                found_depends_on_layer(
                    h,
                    base,
                    l as int,
                    near,
                    entry_for_layer,
                    self.params.ef_construction as nat,
                    found@,
                );
                found_is_ordered(
                    base,
                    l as int,
                    near,
                    entry_for_layer,
                    self.params.ef_construction as nat,
                    found@,
                );
                selection_bounds(apart, found@, m as nat);
                assert forall|i: int| 0 <= i < found@.len() implies (#[trigger] found@[i]).1 < new && l
                    < base[found@[i].1 as int].links.len() by {
                    let v = found@[i].1;
                    layer_stays_up(base, l as int, entry_for_layer, v, vector@.len());
                    let old_nodes = Set::new(|x: u32| x != new);
                    assert(crate::graph::closed_at(base, l as int, old_nodes));
                    assert(old_nodes.contains(entry_for_layer));
                    assert(old_nodes.contains(v));
                }
            }
            // Carry the nearest found node down as the entry for the next layer.
            let nearest: u32 = found[0].1;
            let chosen: Vec<u32> = select_neighbors_heuristic(
                &self.kernel,
                metric,
                &self.nodes,
                &found,
                m,
                Ghost(vector@.len()),
            );
            proof {
                assert(chosen@ == pruned(apart, found@, m as nat));
                assert(h[new as int].links.len() == level + 1);
                assert forall|x: u32| #[trigger] chosen@.contains(x) implies x < new && l
                    < h[x as int].links.len() by {
                    assert(found_nodes(found@).contains(x));
                    let i = found_nodes(found@).index_of(x);
                    assert(found_nodes(found@)[i] == x);
                    assert(found@[i].1 == x);
                    assert(h[x as int].links.len() == base[x as int].links.len());
                }
            }
            let ghost ch = chosen@;
            link_layer(
                &self.kernel,
                metric,
                &mut self.nodes,
                new,
                l,
                chosen,
                m,
                Ghost(vector@.len()),
            );
            proof {
                let h2 = self.graph();
                wired_within(apart, h, h2, l as int, new, ch, self.params);
                linked_one_more(
                    self.kernel,
                    metric,
                    self.params,
                    base,
                    h,
                    h2,
                    curr,
                    above,
                    k as int,
                    found@,
                );
                above = seq![found@] + above;
                assert(above[0] == found@);
                assert(found@[0].1 == nearest);
            }
            entry_for_layer = nearest;
            k = k - 1;
        }
        // A node that rises above the current entry point becomes the entry point.
        if level > top {
            self.entry_point = Some(new);
        }
        proof {
            assert(joined(a.kernel, metric, a.params, base, self.graph(), curr, above)) by {
                assert forall|l: int| 0 <= l < above.len() implies layer_found(
                    base,
                    l,
                    near,
                    entry_at(curr, above, l),
                    a.params.ef_construction as nat,
                    #[trigger] above[l],
                ) by {
                    assert(layer_found(
                        base,
                        0 + l,
                        near,
                        entry_at(curr, above, l),
                        a.params.ef_construction as nat,
                        above[l],
                    ));
                }
            }
            assert(inserted(a.kernel, a.metric, a.params, g, a.entry_point, view, self.graph()));
            assert(added_at(a, id, vector@, level as nat, *self));
            self.finish_insert(a, id, vector@, base);
        }
    }

    /// The invariant and the points after a node was appended to the lists of `a`.
    proof fn finish_insert(self, a: Self, id: u64, vector: Seq<u32>, base: Seq<NodeView>)
        requires
            a.inv(),
            !a.id_to_node@.contains_key(id),
            a.nodes@.len() < u32::MAX,
            base.len() == a.nodes@.len() + 1,
            base.last().id == id,
            base.last().vector == vector,
            forall|i: int| 0 <= i < a.nodes@.len() ==> #[trigger] base[i] == a.graph()[i],
            same_nodes(base, self.graph()),
            self.kernel == a.kernel,
            self.dim == a.dim,
            self.metric == a.metric,
            self.params == a.params,
            self.deleted@ == a.deleted@.push(false),
            self.id_to_node@ == a.id_to_node@.insert(id, a.nodes@.len() as u32),
            self.live == a.live + 1,
            self.entry_point matches Some(e) && e < base.len(),
            sound(self.graph(), self.dim as nat),
            within(self.graph(), self.params),
        ensures
            self.inv(),
            self.points() == a.points().insert(id, vector),
    {
        let n = a.nodes@.len() as int;
        let h = self.graph();
        count_live_push(a.deleted@, false);
        assert(self.nodes@.len() == n + 1);
        assert forall|i: int| 0 <= i < n implies (#[trigger] self.nodes@[i]).id == a.nodes@[i].id
            && self.nodes@[i].vector@ == a.nodes@[i].vector@ by {
            assert(h[i] == self.nodes@[i]@);
            assert(h[i].id == base[i].id);
            assert(base[i] == a.graph()[i]);
            assert(a.graph()[i] == a.nodes@[i]@);
        }
        assert(h[n] == self.nodes@[n]@);
        assert(h[n].id == base[n].id);
        assert(self.nodes@[n].id == id && self.nodes@[n].vector@ == vector);
        assert(self.ids_ok()) by {
            assert forall|i: int| 0 <= i < self.nodes@.len() implies self.id_to_node@.contains_key(
                (#[trigger] self.nodes@[i]).id,
            ) && self.id_to_node@[self.nodes@[i].id] == i by {
                if i < n {
                    assert(a.id_to_node@.contains_key(a.nodes@[i].id));
                    assert(a.id_to_node@[a.nodes@[i].id] == i);
                }
            }
        }
        assert(self.ids_exact()) by {
            assert forall|x: u64| #[trigger] self.id_to_node@.contains_key(x) implies self.id_to_node@[x]
                < self.nodes@.len() && self.nodes@[self.id_to_node@[x] as int].id == x by {
                if x != id {
                    assert(a.id_to_node@.contains_key(x));
                    let i = a.id_to_node@[x] as int;
                    assert(self.nodes@[i].id == a.nodes@[i].id);
                }
            }
        }
        assert(self.edges_ok()) by {
            assert forall|i: int, l: int, x: u32| #[trigger] links(h, i, l).contains(x) implies x < self.nodes@.len()
                && x != i by {}
        }
        assert forall|x: u64| self.is_live(x) <==> a.is_live(x) || x == id by {
            if a.id_to_node@.contains_key(x) {
                assert(a.id_to_node@[x] < n);
            }
        }
        assert forall|x: u64| self.is_live(x) && x != id implies self.nodes@[self.id_to_node@[x] as int].vector@
            == a.nodes@[a.id_to_node@[x] as int].vector@ by {
            assert(a.id_to_node@.contains_key(x));
            let i = a.id_to_node@[x] as int;
            assert(self.nodes@[i].vector@ == a.nodes@[i].vector@);
        }
        assert(self.points() =~= a.points().insert(id, vector));
    }
}

/// A structural invariant that does not hold, and where.
#[derive(Debug, Clone, Copy, PartialEq, Eq, Structural)]
pub enum Violation {
    /// The entry point is no node.
    EntryOutOfRange { entry: u32, nodes: u32 },
    /// There are nodes and no entry point.
    EntryMissing,
    /// `id_to_node` does not lead to the node from its id.
    IdMismatch { node: u32, id: u64 },
    /// A list is longer than its layer allows.
    Degree { node: u32, layer: usize, degree: usize, bound: usize },
    /// An edge leads to no node.
    Dangling { node: u32, layer: usize, neighbor: u32 },
    /// A node is its own neighbor.
    SelfLoop { node: u32, layer: usize },
    /// The live count is not the number of nodes that are not tombstoned.
    LiveCount { live: usize, counted: usize },
}

/// Where a violation is.
pub open spec fn at_layer(node: u32, layer: usize) -> Seq<char> {
    "node "@ + decimal(node as nat) + " layer "@ + decimal(layer as nat)
}

fn place_message(node: u32, layer: usize) -> (r: String)
    ensures
        r@ == at_layer(node, layer),
{
    let mut r: String = join("node ", to_decimal(node as u64).as_str());
    r.append(" layer ");
    r.append(to_decimal(layer as u64).as_str());
    r
}

impl Violation {
    /// What the violation says.
    pub open spec fn text(self) -> Seq<char> {
        match self {
            Violation::EntryOutOfRange { entry, nodes } => "entry_point "@ + decimal(entry as nat)
                + " out of range ("@ + decimal(nodes as nat) + " nodes)"@,
            Violation::EntryMissing => "entry_point is None but nodes exist"@,
            Violation::IdMismatch { node, id } => "id_to_node inconsistent for node "@ + decimal(
                node as nat,
            ) + " (id "@ + decimal(id as nat) + ")"@,
            Violation::Degree { node, layer, degree, bound } => at_layer(node, layer) + " degree "@
                + decimal(degree as nat) + " exceeds m_max "@ + decimal(bound as nat),
            Violation::Dangling { node, layer, neighbor } => at_layer(node, layer)
                + " has dangling neighbor "@ + decimal(neighbor as nat),
            Violation::SelfLoop { node, layer } => at_layer(node, layer) + " is its own neighbor"@,
            Violation::LiveCount { live, counted } => "live count "@ + decimal(live as nat)
                + " != non-tombstoned nodes "@ + decimal(counted as nat),
        }
    }

    /// The violation in words.
    pub fn message(self) -> (r: String)
        ensures
            r@ == self.text(),
    {
        match self {
            Violation::EntryOutOfRange { entry, nodes } => {
                let mut r: String = join("entry_point ", to_decimal(entry as u64).as_str());
                r.append(" out of range (");
                r.append(to_decimal(nodes as u64).as_str());
                r.append(" nodes)");
                r
            },
            Violation::EntryMissing => "entry_point is None but nodes exist".to_owned(),
            Violation::IdMismatch { node, id } => {
                let mut r: String = join(
                    "id_to_node inconsistent for node ",
                    to_decimal(node as u64).as_str(),
                );
                r.append(" (id ");
                r.append(to_decimal(id).as_str());
                r.append(")");
                r
            },
            Violation::Degree { node, layer, degree, bound } => {
                let mut r: String = place_message(node, layer);
                r.append(" degree ");
                r.append(to_decimal(degree as u64).as_str());
                r.append(" exceeds m_max ");
                r.append(to_decimal(bound as u64).as_str());
                r
            },
            Violation::Dangling { node, layer, neighbor } => {
                let mut r: String = place_message(node, layer);
                r.append(" has dangling neighbor ");
                r.append(to_decimal(neighbor as u64).as_str());
                r
            },
            Violation::SelfLoop { node, layer } => {
                let mut r: String = place_message(node, layer);
                r.append(" is its own neighbor");
                r
            },
            Violation::LiveCount { live, counted } => {
                let mut r: String = join("live count ", to_decimal(live as u64).as_str());
                r.append(" != non-tombstoned nodes ");
                r.append(to_decimal(counted as u64).as_str());
                r
            },
        }
    }

    /// The violation is there.
    pub open spec fn holds<D: Fn(Metric, &[u32], &[u32]) -> u32>(self, index: HnswIndex<D>) -> bool {
        let n = index.nodes@.len();
        match self {
            Violation::EntryOutOfRange { entry, nodes } => index.entry_point == Some(entry) && nodes
                == n && entry >= n,
            Violation::EntryMissing => index.entry_point is None && n > 0,
            Violation::IdMismatch { node, id } => node < n && index.nodes@[node as int].id == id && !(
            index.id_to_node@.contains_key(id) && index.id_to_node@[id] == node),
            Violation::Degree { node, layer, degree, bound } => node < n && degree == links(
                index.graph(),
                node as int,
                layer as int,
            ).len() && bound == index.params.max_links(layer as int) && degree > bound,
            Violation::Dangling { node, layer, neighbor } => node < n && links(
                index.graph(),
                node as int,
                layer as int,
            ).contains(neighbor) && neighbor >= n,
            Violation::SelfLoop { node, layer } => node < n && links(
                index.graph(),
                node as int,
                layer as int,
            ).contains(node),
            Violation::LiveCount { live, counted } => live == index.live && counted == count_live(
                index.deleted@,
            ) && live != counted,
        }
    }
}

/// The first violation among the neighbors `list` of node `i` at `layer`, from place `j`
/// on.
pub open spec fn list_violation(n: nat, i: int, layer: int, list: Seq<u32>, j: int) -> Option<Violation>
    decreases list.len() - j,
{
    if j < 0 || j >= list.len() {
        None
    } else if list[j] >= n {
        Some(Violation::Dangling { node: i as u32, layer: layer as usize, neighbor: list[j] })
    } else if list[j] == i {
        Some(Violation::SelfLoop { node: i as u32, layer: layer as usize })
    } else {
        list_violation(n, i, layer, list, j + 1)
    }
}

/// The first violation among the lists of node `i`, from `layer` up.
pub open spec fn layer_violation<D: Fn(Metric, &[u32], &[u32]) -> u32>(
    index: HnswIndex<D>,
    i: int,
    layer: int,
) -> Option<Violation>
    decreases index.graph()[i].links.len() - layer,
{
    let list = links(index.graph(), i, layer);
    if layer < 0 || layer >= index.graph()[i].links.len() {
        None
    } else if list.len() > index.params.max_links(layer) {
        Some(
            Violation::Degree {
                node: i as u32,
                layer: layer as usize,
                degree: list.len() as usize,
                bound: index.params.max_links(layer),
            },
        )
    } else {
        match list_violation(index.nodes@.len(), i, layer, list, 0) {
            Some(v) => Some(v),
            None => layer_violation(index, i, layer + 1),
        }
    }
}

/// The first violation among the nodes from `i` on.
pub open spec fn node_violation<D: Fn(Metric, &[u32], &[u32]) -> u32>(
    index: HnswIndex<D>,
    i: int,
) -> Option<Violation>
    decreases index.nodes@.len() - i,
{
    if i < 0 || i >= index.nodes@.len() {
        None
    } else {
        let id = index.nodes@[i].id;
        if !(index.id_to_node@.contains_key(id) && index.id_to_node@[id] == i) {
            Some(Violation::IdMismatch { node: i as u32, id })
        } else {
            match layer_violation(index, i, 0) {
                Some(v) => Some(v),
                None => node_violation(index, i + 1),
            }
        }
    }
}

/// The first violation: of the entry point, then of the nodes in order, then of the live
/// count.
pub open spec fn first_violation<D: Fn(Metric, &[u32], &[u32]) -> u32>(index: HnswIndex<D>) -> Option<
    Violation,
> {
    let n = index.nodes@.len();
    let counted = count_live(index.deleted@);
    if index.entry_point is Some && index.entry_point.unwrap() >= n {
        Some(Violation::EntryOutOfRange { entry: index.entry_point.unwrap(), nodes: n as u32 })
    } else if index.entry_point is None && n > 0 {
        Some(Violation::EntryMissing)
    } else {
        match node_violation(index, 0) {
            Some(v) => Some(v),
            None => if counted != index.live {
                Some(Violation::LiveCount { live: index.live, counted: counted as usize })
            } else {
                None
            },
        }
    }
}

/// A violation contradicts the invariants.
pub proof fn violation_is_inconsistent<D: Fn(Metric, &[u32], &[u32]) -> u32>(
    index: HnswIndex<D>,
    v: Violation,
)
    requires
        v.holds(index),
        index.nodes@.len() <= u32::MAX,
    ensures
        !index.consistent(),
{
    match v {
        Violation::Degree { node, layer, .. } => {
            assert(links(index.graph(), node as int, layer as int).len() > index.params.max_links(
                layer as int,
            ));
        },
        Violation::IdMismatch { node, id } => {
            assert(index.nodes@[node as int].id == id);
        },
        Violation::Dangling { node, layer, neighbor } => {
            assert(links(index.graph(), node as int, layer as int).contains(neighbor));
        },
        Violation::SelfLoop { node, layer } => {
            assert(links(index.graph(), node as int, layer as int).contains(node));
        },
        _ => {},
    }
}

impl<D: Fn(Metric, &[u32], &[u32]) -> u32> HnswIndex<D> {
    /// The lists of node `i` below layer `upto` are in order.
    spec fn lists_ok(self, i: int, upto: int) -> bool {
        forall|l: int|
            l < upto ==> {
                &&& (#[trigger] links(self.graph(), i, l)).len() <= self.params.max_links(l)
                &&& forall|x: u32| #[trigger]
                    links(self.graph(), i, l).contains(x) ==> x < self.nodes@.len() && x != i
            }
    }

    spec fn node_ok(self, i: int) -> bool {
        &&& self.id_to_node@.contains_key(self.nodes@[i].id)
        &&& self.id_to_node@[self.nodes@[i].id] == i
        &&& self.lists_ok(i, self.nodes@[i].neighbors@.len() as int)
    }

    /// Check structural invariants, returning the first violation found.
    pub fn validate_invariants(&self) -> (r: Result<(), Violation>)
        requires
            self.deleted@.len() == self.nodes@.len(),
            self.nodes@.len() <= u32::MAX,
        ensures
            r is Ok <==> self.consistent(),
            match r {
                Ok(()) => first_violation(*self) is None,
                Err(v) => first_violation(*self) == Some(v) && v.holds(*self),
            },
    {
        let n: usize = self.nodes.len();
        match self.entry_point {
            Some(e) => {
                if e as usize >= n {
                    let v = Violation::EntryOutOfRange { entry: e, nodes: n as u32 };
                    proof {
                        violation_is_inconsistent(*self, v);
                    }
                    return Err(v);
                }
            },
            None => {
                if n > 0 {
                    return Err(Violation::EntryMissing);
                }
            },
        }
        let mut counted: usize = 0;
        let mut i: usize = 0;
        assert(self.deleted@.take(0) =~= Seq::empty());
        while i < n
            invariant
                n == self.nodes@.len(),
                n <= u32::MAX,
                self.deleted@.len() == n,
                i <= n,
                counted == count_live(self.deleted@.take(i as int)),
                counted <= i,
                forall|j: int| 0 <= j < i ==> #[trigger] self.node_ok(j),
                node_violation(*self, 0) == node_violation(*self, i as int),
                node_violation(*self, 0) is Some ==> first_violation(*self) == node_violation(*self, 0),
            decreases n - i,
        {
            proof {
                assert(self.deleted@.take(i + 1).drop_last() =~= self.deleted@.take(i as int));
            }
            if !self.deleted[i] {
                counted = counted + 1;
            }
            let node: &Node = &self.nodes[i];
            let known: bool = match self.id_to_node.get(&node.id) {
                Some(mapped) => *mapped as usize == i,
                None => false,
            };
            if !known {
                let v = Violation::IdMismatch { node: i as u32, id: node.id };
                proof {
                    violation_is_inconsistent(*self, v);
                }
                return Err(v);
            }
            let ghost g = self.graph();
            assert(g[i as int] == node@);
            let mut layer: usize = 0;
            assert(self.lists_ok(i as int, 0)) by {
                assert forall|l: int| l < 0 implies (#[trigger] links(g, i as int, l)).len() == 0 by {}
            }
            while layer < node.neighbors.len()
                invariant
                    n == self.nodes@.len(),
                    n <= u32::MAX,
                    i < n,
                    g == self.graph(),
                    *node == self.nodes@[i as int],
                    g[i as int] == node@,
                    layer <= node.neighbors@.len(),
                    self.lists_ok(i as int, layer as int),
                    layer_violation(*self, i as int, 0) == layer_violation(
                        *self,
                        i as int,
                        layer as int,
                    ),
                    layer_violation(*self, i as int, 0) is Some ==> first_violation(*self)
                        == layer_violation(*self, i as int, 0),
                decreases node.neighbors@.len() - layer,
            {
                let bound: usize = self.m_max(layer);
                let adj: &Vec<u32> = &node.neighbors[layer];
                let ghost list = links(g, i as int, layer as int);
                assert(node@.links[layer as int] == adj@);
                assert(list == adj@);
                if adj.len() > bound {
                    let v = Violation::Degree {
                        node: i as u32,
                        layer,
                        degree: adj.len(),
                        bound,
                    };
                    proof {
                        violation_is_inconsistent(*self, v);
                    }
                    return Err(v);
                }
                let mut j: usize = 0;
                while j < adj.len()
                    invariant
                        n == self.nodes@.len(),
                        n <= u32::MAX,
                        i < n,
                        g == self.graph(),
                        list == links(g, i as int, layer as int),
                        list == adj@,
                        j <= adj@.len(),
                        forall|p: int| 0 <= p < j ==> (#[trigger] list[p]) < n && list[p] != i,
                        list_violation(n as nat, i as int, layer as int, list, 0) == list_violation(
                            n as nat,
                            i as int,
                            layer as int,
                            list,
                            j as int,
                        ),
                        list_violation(n as nat, i as int, layer as int, list, 0) is Some
                            ==> first_violation(*self) == list_violation(
                            n as nat,
                            i as int,
                            layer as int,
                            list,
                            0,
                        ),
                    decreases adj@.len() - j,
                {
                    let x: u32 = adj[j];
                    assert(list[j as int] == x);
                    assert(list.contains(x));
                    if x as usize >= n {
                        let v = Violation::Dangling { node: i as u32, layer, neighbor: x };
                        proof {
                            violation_is_inconsistent(*self, v);
                        }
                        return Err(v);
                    }
                    if x as usize == i {
                        let v = Violation::SelfLoop { node: i as u32, layer };
                        proof {
                            violation_is_inconsistent(*self, v);
                        }
                        return Err(v);
                    }
                    j = j + 1;
                }
                proof {
                    assert forall|x: u32| #[trigger] list.contains(x) implies x < n && x != i by {
                        let p = list.index_of(x);
                        assert(list[p] == x);
                    }
                }
                layer = layer + 1;
            }
            assert(self.node_ok(i as int));
            i = i + 1;
        }
        assert(self.deleted@.take(i as int) =~= self.deleted@);
        if counted != self.live {
            return Err(Violation::LiveCount { live: self.live, counted });
        }
        proof {
            let g = self.graph();
            assert forall|i: int, l: int| (#[trigger] links(g, i, l)).len() <= self.params.max_links(l) by {
                if 0 <= i < n && 0 <= l < g[i].links.len() {
                    assert(self.node_ok(i));
                }
            }
            assert forall|i: int, l: int, x: u32| #[trigger] links(g, i, l).contains(x) implies x < n && x != i by {
                assert(self.node_ok(i));
                assert(links(g, i, l).len() >= 0);
            }
            assert forall|i: int| 0 <= i < n implies self.id_to_node@.contains_key(
                (#[trigger] self.nodes@[i]).id,
            ) && self.id_to_node@[self.nodes@[i].id] == i by {
                assert(self.node_ok(i));
            }
        }
        Ok(())
    }

    /// The ids of the first `n` nodes.
    spec fn id_set(self, n: int) -> Set<u64> {
        Set::new(|id: u64| exists|i: int| 0 <= i < n && (#[trigger] self.nodes@[i]).id == id)
    }

    proof fn id_set_len(self, n: int)
        requires
            self.ids_ok(),
            0 <= n <= self.nodes@.len(),
        ensures
            self.id_set(n).finite(),
            self.id_set(n).len() == n,
        decreases n,
    {
        if n == 0 {
            assert(self.id_set(0) =~= Set::<u64>::empty());
        } else {
            self.id_set_len(n - 1);
            let id = self.nodes@[n - 1].id;
            let before = self.id_set(n - 1);
            if before.contains(id) {
                let i = choose|i: int| 0 <= i < n - 1 && (#[trigger] self.nodes@[i]).id == id;
                assert(self.id_to_node@[self.nodes@[i].id] == i);
                assert(self.id_to_node@[self.nodes@[n - 1].id] == n - 1);
            }
            assert(self.id_set(n) =~= before.insert(id)) by {
                assert forall|x: u64| self.id_set(n).contains(x) <==> before.insert(id).contains(x) by {
                    if self.id_set(n).contains(x) {
                        let i = choose|i: int| 0 <= i < n && (#[trigger] self.nodes@[i]).id == x;
                        if i < n - 1 {
                            assert(0 <= i < n - 1 && self.nodes@[i].id == x);
                        }
                    }
                    if before.contains(x) {
                        let i = choose|i: int| 0 <= i < n - 1 && (#[trigger] self.nodes@[i]).id == x;
                        assert(0 <= i < n && self.nodes@[i].id == x);
                    }
                    if x == id {
                        assert(0 <= n - 1 < n && self.nodes@[n - 1].id == x);
                    }
                }
            }
        }
    }

    /// The index has a node per id that it knows.
    pub proof fn a_node_per_id(self)
        requires
            self.inv(),
        ensures
            self.id_to_node@.dom().finite(),
            self.id_to_node@.dom().len() == self.nodes@.len(),
    {
        let n = self.nodes@.len() as int;
        self.id_set_len(n);
        assert forall|x: u64| self.id_set(n).contains(x) <==> self.id_to_node@.dom().contains(x) by {
            if self.id_to_node@.contains_key(x) {
                assert(self.nodes@[self.id_to_node@[x] as int].id == x);
            }
        }
        assert(self.id_set(n) =~= self.id_to_node@.dom());
    }

    /// Whether the index, as read back from storage, is fit for use: every invariant
    /// that the operations rely on holds.
    pub fn is_well_formed(&self) -> (r: bool)
        requires
            is_kernel(self.kernel),
        ensures
            r == self.inv(),
    {
        let n: usize = self.nodes.len();
        if self.dim == 0 || self.params.m < 2 || self.params.m > self.params.m0
            || self.params.ef_construction < 1 || self.deleted.len() != n || n > u32::MAX as usize {
            return false;
        }
        let ghost g = self.graph();
        let mut i: usize = 0;
        while i < n
            invariant
                n == self.nodes@.len(),
                n <= u32::MAX,
                g == self.graph(),
                i <= n,
                forall|j: int|
                    0 <= j < i ==> (#[trigger] g[j]).vector.len() == self.dim && g[j].links.len() >= 1,
                forall|j: int, l: int, x: u32|
                    0 <= j < i && #[trigger] links(g, j, l).contains(x) ==> x < n && x != j && l
                        < g[x as int].links.len(),
            decreases n - i,
        {
            let node: &Node = &self.nodes[i];
            assert(g[i as int] == node@);
            if node.vector.len() != self.dim || node.neighbors.len() == 0 {
                return false;
            }
            let mut l: usize = 0;
            while l < node.neighbors.len()
                invariant
                    n == self.nodes@.len(),
                    n <= u32::MAX,
                    g == self.graph(),
                    i < n,
                    *node == self.nodes@[i as int],
                    g[i as int] == node@,
                    l <= node.neighbors@.len(),
                    forall|p: int, x: u32|
                        p < l && #[trigger] links(g, i as int, p).contains(x) ==> x < n && x != i && p
                            < g[x as int].links.len(),
                decreases node.neighbors@.len() - l,
            {
                let adj: &Vec<u32> = &node.neighbors[l];
                let ghost list = links(g, i as int, l as int);
                assert(node@.links[l as int] == adj@);
                assert(list == adj@);
                let mut j: usize = 0;
                while j < adj.len()
                    invariant
                        n == self.nodes@.len(),
                        n <= u32::MAX,
                        g == self.graph(),
                        i < n,
                        list == links(g, i as int, l as int),
                        list == adj@,
                        j <= adj@.len(),
                        forall|p: int|
                            0 <= p < j ==> (#[trigger] list[p]) < n && list[p] != i && l
                                < g[list[p] as int].links.len(),
                    decreases adj@.len() - j,
                {
                    let x: u32 = adj[j];
                    assert(list[j as int] == x);
                    assert(list.contains(x));
                    if x as usize >= n || x as usize == i {
                        return false;
                    }
                    assert(g[x as int] == self.nodes@[x as int]@);
                    if self.nodes[x as usize].neighbors.len() <= l {
                        return false;
                    }
                    j = j + 1;
                }
                proof {
                    assert forall|x: u32| #[trigger] list.contains(x) implies x < n && x != i && l
                        < g[x as int].links.len() by {
                        let p = list.index_of(x);
                        assert(list[p] == x);
                    }
                }
                l = l + 1;
            }
            proof {
                assert forall|j: int, p: int, x: u32|
                    0 <= j < i + 1 && #[trigger] links(g, j, p).contains(x) implies x < n && x != j && p
                    < g[x as int].links.len() by {
                    if j == i {
                        assert(links(g, i as int, p).contains(x));
                    }
                }
            }
            i = i + 1;
        }
        assert(sound(g, self.dim as nat)) by {
            assert forall|j: int, l: int, x: u32| #[trigger] links(g, j, l).contains(x) implies x < g.len() && x != j
                && l < g[x as int].links.len() by {
                assert(0 <= j < n);
            }
        }
        if self.validate_invariants().is_err() {
            return false;
        }
        proof {
            let s = self.id_set(n as int);
            let t = self.id_to_node@.dom();
            self.id_set_len(n as int);
            assert(s.subset_of(t)) by {
                assert forall|id: u64| s.contains(id) implies t.contains(id) by {
                    let i = choose|i: int| 0 <= i < n && (#[trigger] self.nodes@[i]).id == id;
                    assert(self.id_to_node@.contains_key(self.nodes@[i].id));
                }
            }
            if self.ids_exact() {
                assert(t.subset_of(s)) by {
                    assert forall|id: u64| t.contains(id) implies s.contains(id) by {
                        let i = self.id_to_node@[id] as int;
                        assert(0 <= i < n && self.nodes@[i].id == id);
                    }
                }
                assert(s =~= t);
            }
            if t.len() == n {
                vstd::set_lib::lemma_subset_equality(s, t);
                assert forall|id: u64| #[trigger] self.id_to_node@.contains_key(id) implies self.id_to_node@[id] < n
                    && self.nodes@[self.id_to_node@[id] as int].id == id by {
                    assert(s.contains(id));
                    let i = choose|i: int| 0 <= i < n && (#[trigger] self.nodes@[i]).id == id;
                    assert(self.id_to_node@[self.nodes@[i].id] == i);
                }
            }
        }
        self.id_to_node.len() == n
    }

    /// (min, max, sum) of the degrees of the nodes at layer 0. Diagnostics only; the
    /// mean is the sum over the number of nodes.
    pub fn layer0_degree_stats(&self) -> (r: (usize, usize, u128))
        requires
            self.inv(),
        ensures
            self.nodes@.len() == 0 ==> r == (0usize, 0usize, 0u128),
            forall|i: int|
                0 <= i < self.nodes@.len() ==> r.0 <= (#[trigger] links(self.graph(), i, 0)).len() <= r.1,
            self.nodes@.len() > 0 ==> exists|i: int|
                0 <= i < self.nodes@.len() && (#[trigger] links(self.graph(), i, 0)).len() == r.0,
            self.nodes@.len() > 0 ==> exists|i: int|
                0 <= i < self.nodes@.len() && (#[trigger] links(self.graph(), i, 0)).len() == r.1,
            r.2 == degree_sum(self.graph(), self.nodes@.len() as int),
    {
        let n: usize = self.nodes.len();
        if n == 0 {
            return (0, 0, 0);
        }
        let ghost g = self.graph();
        assert(g[0] == self.nodes@[0]@);
        assert(g[0].links.len() >= 1);
        let first: usize = self.nodes[0].neighbors[0].len();
        assert(links(g, 0, 0).len() == first);
        let mut min: usize = first;
        let mut max: usize = first;
        let mut sum: u128 = 0;
        let mut i: usize = 0;
        while i < n
            invariant
                self.inv(),
                g == self.graph(),
                n == self.nodes@.len(),
                n > 0,
                i <= n,
                forall|j: int| 0 <= j < i ==> min <= (#[trigger] links(g, j, 0)).len() <= max,
                exists|j: int| 0 <= j < n && (#[trigger] links(g, j, 0)).len() == min,
                exists|j: int| 0 <= j < n && (#[trigger] links(g, j, 0)).len() == max,
                sum == degree_sum(g, i as int),
                sum <= i * u64::MAX,
            decreases n - i,
        {
            assert(g[i as int] == self.nodes@[i as int]@);
            assert(g[i as int].links.len() >= 1);
            let d: usize = self.nodes[i].neighbors[0].len();
            assert(links(g, i as int, 0).len() == d);
            if d < min {
                min = d;
            }
            if d > max {
                max = d;
            }
            proof {
                assert(i * u64::MAX + u64::MAX <= u128::MAX) by (nonlinear_arith)
                    requires
                        i < u32::MAX,
                ;
                assert((i + 1) * u64::MAX == i * u64::MAX + u64::MAX) by (nonlinear_arith);
            }
            sum = sum + d as u128;
            i = i + 1;
        }
        (min, max, sum)
    }
}

/// The degrees at layer 0 of the first `n` nodes, added up.
pub open spec fn degree_sum(g: Seq<NodeView>, n: int) -> nat
    decreases n,
{
    if n <= 0 {
        0
    } else {
        degree_sum(g, n - 1) + links(g, n - 1, 0).len()
    }
}

/// A search that is broader than the graph and can reach every node is exact: a live
/// point that it does not return is no nearer than the `k` that it does.
pub proof fn broad_search_is_exact<D: Fn(Metric, &[u32], &[u32]) -> u32>(
    index: HnswIndex<D>,
    q: Seq<u32>,
    k: nat,
    ef: nat,
    r: Seq<(u64, u32)>,
    id: u64,
)
    requires
        index.inv(),
        searched(index, q, k, ef, r),
        k > index.nodes@.len() || ef > index.nodes@.len(),
        forall|a: u32, b: u32|
            a < index.nodes@.len() && b < index.nodes@.len() ==> #[trigger] reachable(
                index.graph(),
                0,
                a,
                b,
            ),
        index.points().contains_key(id),
    ensures
        crate::index::listed(r, id) || (r.len() == k && forall|i: int|
            0 <= i < r.len() ==> !less(index.score_of(q)(id), (#[trigger] r[i]).1)),
{
    if k > 0 {
        index.live_points();
        let g = index.graph();
        let near = nearness(index.kernel, index.metric, g, q);
        let e = index.entry_point.unwrap();
        let ef0 = breadth_of(k, ef);
        assert(index.points().dom().contains(id));
        let (curr, found) = choose|curr: u32, found: Seq<(u32, u32)>|
            {
                &&& descended(g, near, e, g[e as int].links.len() - 1, 0, curr)
                &&& #[trigger] layer_found(g, 0, near, curr, ef0, found)
                &&& r == first_k(live_results(index, q, found), k)
            };
        found_is_ordered(g, 0, near, curr, ef0, found);
        let nodes = found_nodes(found);
        crate::graph::distinct_nodes_fit(nodes, g.len());
        let v = index.id_to_node@[id];
        assert(curr < g.len()) by {
            descended_is_node(g, near, e, g[e as int].links.len() - 1, 0, curr);
        }
        crate::graph::roomy_search_is_complete(g, 0, near, curr, ef0, found, v);
        assert(reachable(g, 0, curr, v));
        let p = nodes.index_of(v);
        assert(nodes[p] == v);
        let all = live_results(index, q, found);
        let at = live_results(index, q, found.take(p)).len() as int;
        live_results_prefix(index, q, found, p + 1);
        assert(found.take(p + 1).drop_last() =~= found.take(p));
        assert(found.take(p + 1).last() == found[p]);
        let upto = live_results(index, q, found.take(p + 1));
        assert(upto.len() == at + 1);
        assert(all.take(at + 1)[at] == upto[at]);
        assert(all[at].0 == id);
        live_results_are_answers(index, q, found, curr, ef0);
        if at < k {
            assert(r[at].0 == id);
        } else {
            assert forall|i: int| 0 <= i < r.len() implies !less(
                index.score_of(q)(id),
                (#[trigger] r[i]).1,
            ) by {
                assert(r[i] == all[i]);
                assert(rank(all[i].1) <= rank(all[at].1));
            }
        }
    }
}

/// The layer-0 search is at least as broad as the number of points asked for and as
/// the breadth asked for, and no broader than the larger of the two.
pub proof fn breadth_covers_both(k: nat, ef: nat)
    ensures
        breadth_of(k, ef) >= k,
        breadth_of(k, ef) >= ef,
        breadth_of(k, ef) == k || breadth_of(k, ef) == ef,
{
}

proof fn nothing_is_dropped<D: Fn(Metric, &[u32], &[u32]) -> u32>(
    index: HnswIndex<D>,
    q: Seq<u32>,
    found: Seq<(u32, u32)>,
)
    requires
        forall|i: int| 0 <= i < found.len() ==> !index.deleted@[(#[trigger] found[i]).1 as int],
    ensures
        live_results(index, q, found).len() == found.len(),
    decreases found.len(),
{
    if found.len() > 0 {
        assert forall|i: int| 0 <= i < found.drop_last().len() implies !index.deleted@[(
        #[trigger] found.drop_last()[i]).1 as int] by {
            assert(found.drop_last()[i] == found[i]);
        }
        assert(!index.deleted@[found[found.len() - 1].1 as int]);
        nothing_is_dropped(index, q, found.drop_last());
    }
}

proof fn nothing_is_tombstoned(deleted: Seq<bool>)
    requires
        forall|i: int| 0 <= i < deleted.len() ==> !#[trigger] deleted[i],
    ensures
        count_live(deleted) == deleted.len(),
    decreases deleted.len(),
{
    if deleted.len() > 0 {
        nothing_is_tombstoned(deleted.drop_last());
    }
}

/// In an index without tombstones whose layer 0 is connected a search finds as many
/// points as were asked for, or all that there are, whatever the breadth asked for.
pub proof fn search_returns_k<D: Fn(Metric, &[u32], &[u32]) -> u32>(
    index: HnswIndex<D>,
    q: Seq<u32>,
    k: nat,
    ef: nat,
    r: Seq<(u64, u32)>,
)
    requires
        index.inv(),
        searched(index, q, k, ef, r),
        forall|i: int| 0 <= i < index.deleted@.len() ==> !#[trigger] index.deleted@[i],
        forall|a: u32, b: u32|
            a < index.nodes@.len() && b < index.nodes@.len() ==> #[trigger] reachable(
                index.graph(),
                0,
                a,
                b,
            ),
    ensures
        r.len() == if k <= index.points().len() {
            k
        } else {
            index.points().len()
        },
{
    index.live_points();
    nothing_is_tombstoned(index.deleted@);
    if k > 0 && index.live > 0 {
        let g = index.graph();
        let near = nearness(index.kernel, index.metric, g, q);
        let e = index.entry_point.unwrap();
        breadth_covers_both(k, ef);
        let ef0 = breadth_of(k, ef);
        let (curr, found) = choose|curr: u32, found: Seq<(u32, u32)>|
            {
                &&& descended(g, near, e, g[e as int].links.len() - 1, 0, curr)
                &&& #[trigger] layer_found(g, 0, near, curr, ef0, found)
                &&& r == first_k(live_results(index, q, found), k)
            };
        found_is_ordered(g, 0, near, curr, ef0, found);
        let nodes = found_nodes(found);
        crate::graph::distinct_nodes_fit(nodes, g.len());
        assert forall|i: int| 0 <= i < found.len() implies !index.deleted@[(#[trigger] found[i]).1 as int] by {
            assert(nodes[i] == found[i].1);
        }
        nothing_is_dropped(index, q, found);
        descended_is_node(g, near, e, g[e as int].links.len() - 1, 0, curr);
        if found.len() < ef0 {
            assert forall|v: u32| v < g.len() implies #[trigger] nodes.contains(v) by {
                crate::graph::roomy_search_is_complete(g, 0, near, curr, ef0, found, v);
                assert(reachable(g, 0, curr, v));
            }
            assert(found.len() >= g.len()) by {
                let all = Seq::new(g.len(), |i: int| i as u32);
                assert(all.no_duplicates());
                all.unique_seq_to_set();
                vstd::seq_lib::seq_to_set_is_finite(nodes);
                nodes.unique_seq_to_set();
                assert(all.to_set().subset_of(nodes.to_set())) by {
                    assert forall|v: u32| all.to_set().contains(v) implies nodes.to_set().contains(v) by {
                        assert(v < g.len());
                        assert(nodes.contains(v));
                    }
                }
                vstd::set_lib::lemma_len_subset(all.to_set(), nodes.to_set());
            }
        }
    }
}

/// A search for every live point at once: where the breadth or the number of points
/// asked for exceeds the size of a connected graph, tombstones take no place in the
/// answer, which has as many points as were asked for, or all the live ones.
pub proof fn broad_search_returns_k<D: Fn(Metric, &[u32], &[u32]) -> u32>(
    index: HnswIndex<D>,
    q: Seq<u32>,
    k: nat,
    ef: nat,
    r: Seq<(u64, u32)>,
)
    requires
        index.inv(),
        searched(index, q, k, ef, r),
        k > index.nodes@.len() || ef > index.nodes@.len(),
        forall|a: u32, b: u32|
            a < index.nodes@.len() && b < index.nodes@.len() ==> #[trigger] reachable(
                index.graph(),
                0,
                a,
                b,
            ),
    ensures
        r.len() == if k <= index.points().len() {
            k
        } else {
            index.points().len()
        },
{
    index.live_points();
    if k > 0 && index.live > 0 {
        let dom = index.points().dom();
        let ids = r.map_values(|h: (u64, u32)| h.0);
        let g = index.graph();
        let near = nearness(index.kernel, index.metric, g, q);
        let e = index.entry_point.unwrap();
        let ef0 = breadth_of(k, ef);
        let (curr, found) = choose|curr: u32, found: Seq<(u32, u32)>|
            {
                &&& descended(g, near, e, g[e as int].links.len() - 1, 0, curr)
                &&& #[trigger] layer_found(g, 0, near, curr, ef0, found)
                &&& r == first_k(live_results(index, q, found), k)
            };
        live_results_are_answers(index, q, found, curr, ef0);
        assert(ids.no_duplicates()) by {
            assert forall|i: int, j: int| 0 <= i < ids.len() && 0 <= j < ids.len() && i != j implies ids[i] != ids[j] by {
                assert(ids[i] == r[i].0 && ids[j] == r[j].0);
            }
        }
        ids.unique_seq_to_set();
        vstd::seq_lib::seq_to_set_is_finite(ids);
        assert(ids.to_set().subset_of(dom)) by {
            assert forall|id: u64| ids.to_set().contains(id) implies dom.contains(id) by {
                let i = ids.index_of(id);
                assert(r[i].0 == id);
            }
        }
        vstd::set_lib::lemma_len_subset(ids.to_set(), dom);
        if r.len() < k {
            assert(dom.subset_of(ids.to_set())) by {
                assert forall|id: u64| dom.contains(id) implies ids.to_set().contains(id) by {
                    assert(index.points().contains_key(id));
                    broad_search_is_exact(index, q, k, ef, r, id);
                    let i = choose|i: int| 0 <= i < r.len() && (#[trigger] r[i]).0 == id;
                    assert(ids[i] == id);
                }
            }
            vstd::set_lib::lemma_len_subset(dom, ids.to_set());
        }
    }
}

proof fn descended_is_node(
    g: Seq<NodeView>,
    near: spec_fn(u32) -> u32,
    e: u32,
    top: int,
    stop: int,
    r: u32,
)
    requires
        descended(g, near, e, top, stop, r),
        e < g.len(),
    ensures
        r < g.len(),
{
    if stop < top {
        let next = stop + 1;
        let mid = choose|mid: u32|
            descended(g, near, e, top, next, mid) && #[trigger] settled(g, next, near, mid, r);
        assert(settled(g, next, near, mid, r));
    }
}

/// Layer 0 allows the larger number of neighbors and every other layer the smaller; the
/// default numbers are 16 and 32, with a breadth of 200 while a node is inserted.
pub proof fn layers_allow(params: HnswParams, l: int)
    ensures
        params.max_links(0) == params.m0,
        l > 0 ==> params.max_links(l) == params.m,
        HnswParams::standard() == (HnswParams { m: 16, m0: 32, ef_construction: 200 }),
{
}

/// A descent walks down every layer from `top` to the one above `stop`: each step ends at
/// a node that can be reached on its layer from where the step before ended, that is no
/// farther, and that none of its neighbors there is nearer than.
pub proof fn descent_walks_every_layer(
    g: Seq<NodeView>,
    near: spec_fn(u32) -> u32,
    e: u32,
    top: int,
    stop: int,
    r: u32,
) -> (path: Seq<u32>)
    requires
        descended(g, near, e, top, stop, r),
        stop <= top,
    ensures
        path.len() == top - stop + 1,
        walked_down(g, near, e, top, path),
        path.last() == r,
    decreases top - stop,
{
    if stop == top {
        seq![e]
    } else {
        let next = stop + 1;
        let mid = choose|mid: u32|
            descended(g, near, e, top, next, mid) && #[trigger] settled(g, next, near, mid, r);
        let head = descent_walks_every_layer(g, near, e, top, next, mid);
        let path = head.push(r);
        assert forall|i: int| 1 <= i < path.len() implies walked_step(g, near, top - i + 1, #[trigger] path[i - 1], path[i]) by {
            if i < head.len() {
                assert(walked_step(g, near, top - i + 1, head[i - 1], head[i]));
            } else {
                assert(head[i - 1] == mid);
                assert forall|x: u32| #[trigger] links(g, r as int, next).contains(x) implies near(x) >= near(r)
                    || near(r) == 0xFFFF_FFFFu32 by {
                    crate::graph::greedy_walk_ends_nearest(g, next, near, mid, r, x);
                }
                crate::graph::greedy_walk_ends_nearest(g, next, near, mid, r, r);
            }
        }
        path
    }
}

/// `v` is where a walk on layer `l` from `u` can end: it can be reached, is no farther,
/// and none of its neighbors is nearer.
pub open spec fn walked_step(g: Seq<NodeView>, near: spec_fn(u32) -> u32, l: int, u: u32, v: u32) -> bool {
    &&& reachable(g, l, u, v)
    &&& v == u || near(v) < near(u)
    &&& forall|x: u32| #[trigger]
        links(g, v as int, l).contains(x) ==> near(x) >= near(v) || near(v) == 0xFFFF_FFFFu32
}

/// `path` leads from `e` down the layers from `top` on, one node for where each walk
/// ends.
pub open spec fn walked_down(g: Seq<NodeView>, near: spec_fn(u32) -> u32, e: u32, top: int, path: Seq<u32>) -> bool {
    &&& path.len() >= 1
    &&& path[0] == e
    &&& forall|i: int| 1 <= i < path.len() ==> walked_step(g, near, top - i + 1, #[trigger] path[i - 1], path[i])
}

/// A search walks down from the entry point through every layer above the lowest, one
/// walk on each, and what it returns are live nodes that can be reached on the lowest
/// layer from where the last walk ended.
pub proof fn search_walks_down_every_layer<D: Fn(Metric, &[u32], &[u32]) -> u32>(
    index: HnswIndex<D>,
    q: Seq<u32>,
    k: nat,
    ef: nat,
    r: Seq<(u64, u32)>,
) -> (path: Seq<u32>)
    requires
        index.inv(),
        searched(index, q, k, ef, r),
        k > 0,
        index.points().len() > 0,
    ensures
        ({
            let g = index.graph();
            let near = nearness(index.kernel, index.metric, g, q);
            let e = index.entry_point.unwrap();
            &&& index.entry_point is Some
            &&& path.len() == g[e as int].links.len()
            &&& walked_down(g, near, e, g[e as int].links.len() - 1, path)
            &&& forall|i: int|
                0 <= i < r.len() ==> {
                    let id = (#[trigger] r[i]).0;
                    index.points().contains_key(id) && reachable(g, 0, path.last(), index.id_to_node@[id])
                }
        }),
{
    index.live_points();
    let g = index.graph();
    let near = nearness(index.kernel, index.metric, g, q);
    let e = index.entry_point.unwrap();
    let ef0 = breadth_of(k, ef);
    count_live_bounds(index.deleted@);
    let (curr, found) = choose|curr: u32, found: Seq<(u32, u32)>|
        {
            &&& descended(g, near, e, g[e as int].links.len() - 1, 0, curr)
            &&& #[trigger] layer_found(g, 0, near, curr, ef0, found)
            &&& r == first_k(live_results(index, q, found), k)
        };
    assert(index.nodes@[e as int]@ == g[e as int]);
    let path = descent_walks_every_layer(g, near, e, g[e as int].links.len() - 1, 0, curr);
    live_results_from(index, q, found, found.len() as int);
    assert(found.take(found.len() as int) =~= found);
    live_results_are_answers(index, q, found, curr, ef0);
    let all = live_results(index, q, found);
    assert forall|i: int| 0 <= i < r.len() implies {
        let id = (#[trigger] r[i]).0;
        index.points().contains_key(id) && reachable(g, 0, path.last(), index.id_to_node@[id])
    } by {
        assert(r[i] == all[i]);
        let a = choose|a: int| result_at(index, q, found, all[i], a, i);
        assert(result_at(index, q, found, all[i], a, i));
        assert(reachable(g, 0, curr, found[a].1));
        assert(index.id_to_node@[index.nodes@[found[a].1 as int].id] == found[a].1);
    }
    path
}

/// A node that was inserted has neighbors on every layer that it shares with the graph,
/// no more than the layer allows; each of them that had room lists it too, and the lists
/// of all others stay as they were.
pub proof fn inserted_node_is_linked_in<D: Fn(Metric, &[u32], &[u32]) -> u32>(
    d: D,
    m: Metric,
    params: HnswParams,
    g: Seq<NodeView>,
    e: u32,
    node: NodeView,
    h: Seq<NodeView>,
    l: int,
    x: u32,
)
    requires
        inserted(d, m, params, g, Some(e), node, h),
        params.usable(),
        e < g.len() < u32::MAX,
        0 <= l < node.links.len(),
        l < g[e as int].links.len(),
        x < g.len(),
    ensures
        h.len() == g.len() + 1,
        ({
            let chosen = links(h, g.len() as int, l);
            let bound = if l == 0 { params.m0 } else { params.m };
            &&& 0 < chosen.len() <= bound
            &&& chosen.contains(x) && links(g.push(node), x as int, l).len() < bound ==> links(h, x as int, l)
                == links(g.push(node), x as int, l).push(g.len() as u32)
            &&& !chosen.contains(x) ==> links(h, x as int, l) == links(g.push(node), x as int, l)
        }),
{
    let base = g.push(node);
    let near = nearness(d, m, base, node.vector);
    let apart = apartness(d, m, base);
    let level = node.links.len() - 1;
    let top = g[e as int].links.len() - 1;
    let start = if level < top { level } else { top };
    let (curr, founds) = choose|curr: u32, founds: Seq<Seq<(u32, u32)>>|
        {
            &&& descended(base, near, e, top, level, curr)
            &&& founds.len() == start + 1
            &&& #[trigger] joined(d, m, params, base, h, curr, founds)
        };
    assert(joined(d, m, params, base, h, curr, founds));
    let new = g.len() as u32;
    let bound = params.max_links(l) as nat;
    let f = founds[l];
    assert(layer_found(base, l, near, entry_at(curr, founds, l), params.ef_construction as nat, f));
    let chosen = pruned(apart, f, bound);
    crate::graph::pruned_bounds(apart, f, bound);
    assert(links(h, new as int, l) == links_after(apart, new as int, links(base, new as int, l), new, chosen, bound));
    assert(links(h, x as int, l) == links_after(apart, x as int, links(base, x as int, l), new, chosen, bound));
    crate::graph::links_are_made_both_ways(apart, x as int, links(base, x as int, l), new, chosen, bound);
    crate::graph::links_are_made_both_ways(apart, new as int, links(base, new as int, l), new, chosen, bound);
}

/// The first neighbor that an inserted node lists on a layer is the nearest of those
/// that the search for them found, where their distances are numbers; and on each layer
/// but the topmost this search starts from the nearest that was found one layer up.
pub proof fn inserted_node_lists_the_nearest_first<D: Fn(Metric, &[u32], &[u32]) -> u32>(
    d: D,
    m: Metric,
    params: HnswParams,
    base: Seq<NodeView>,
    h: Seq<NodeView>,
    curr: u32,
    founds: Seq<Seq<(u32, u32)>>,
    l: int,
    i: int,
)
    requires
        joined(d, m, params, base, h, curr, founds),
        params.usable(),
        0 < base.len() < u32::MAX,
        0 <= l < founds.len(),
        0 <= i < founds[l].len(),
    ensures
        ({
            let near = nearness(d, m, base, base.last().vector);
            let own = links(h, base.len() - 1, l);
            &&& own.len() > 0
            &&& near(own[0]) <= founds[l][i].0
            &&& founds[l][i].0 == near(founds[l][i].1)
            &&& l + 1 < founds.len() ==> reachable(base, l, founds[l + 1][0].1, founds[l][i].1)
            &&& l + 1 == founds.len() ==> reachable(base, l, curr, founds[l][i].1)
        }),
{
    let near = nearness(d, m, base, base.last().vector);
    let apart = apartness(d, m, base);
    let f = founds[l];
    let bound = params.max_links(l) as nat;
    let new = (base.len() - 1) as u32;
    let from = entry_at(curr, founds, l);
    assert(layer_found(base, l, near, from, params.ef_construction as nat, f));
    found_is_ordered(base, l, near, from, params.ef_construction as nat, f);
    selection_bounds(apart, f, bound);
    assert(links(h, new as int, l) == links_after(
        apart,
        new as int,
        links(base, new as int, l),
        new,
        pruned(apart, f, bound),
        bound,
    ));
    assert(f[0].0 == near(f[0].1));
    if i > 0 {
        assert(f[0].0 < f[i].0 || f[0].0 == f[i].0);
    }
}

/// The entry point stays on top: where no node rises above it, none does after an insert,
/// which moves it only to a new node that rises above the old one.
pub proof fn entry_point_stays_on_top<D: Fn(Metric, &[u32], &[u32]) -> u32>(
    a: HnswIndex<D>,
    id: u64,
    vector: Seq<u32>,
    level: nat,
    b: HnswIndex<D>,
    e: u32,
)
    requires
        a.inv(),
        a.nodes@.len() < u32::MAX,
        added_at(a, id, vector, level, b),
        a.entry_point == Some(e),
        forall|i: int| 0 <= i < a.graph().len() ==> (#[trigger] a.graph()[i]).links.len() <= a.graph()[e as int].links.len(),
    ensures
        b.entry_point is Some,
        level + 1 <= a.graph()[e as int].links.len() ==> b.entry_point == Some(e),
        level + 1 > a.graph()[e as int].links.len() ==> b.entry_point == Some(a.nodes@.len() as u32),
        forall|i: int|
            0 <= i < b.graph().len() ==> (#[trigger] b.graph()[i]).links.len()
                <= b.graph()[b.entry_point.unwrap() as int].links.len(),
{
    let g = a.graph();
    let node = bare(id, vector, level);
    let base = g.push(node);
    let h = b.graph();
    let near = nearness(a.kernel, a.metric, base, node.vector);
    let top = g[e as int].links.len() - 1;
    let start = if level < top { level as int } else { top };
    let (curr, founds) = choose|curr: u32, founds: Seq<Seq<(u32, u32)>>|
        {
            &&& descended(base, near, e, top, level as int, curr)
            &&& founds.len() == start + 1
            &&& #[trigger] joined(a.kernel, a.metric, a.params, base, h, curr, founds)
        };
    assert(same_nodes(base, h));
    let f = b.entry_point.unwrap() as int;
    assert(h[f].links.len() == base[f].links.len());
    assert forall|i: int| 0 <= i < h.len() implies (#[trigger] h[i]).links.len() <= h[f].links.len() by {
        assert(h[i].links.len() == base[i].links.len());
        if i < g.len() {
            assert(base[i] == g[i]);
        }
    }
}

/// The first node becomes the entry point.
pub proof fn first_node_is_the_entry_point<D: Fn(Metric, &[u32], &[u32]) -> u32>(
    a: HnswIndex<D>,
    id: u64,
    vector: Seq<u32>,
    level: nat,
    b: HnswIndex<D>,
)
    requires
        a.inv(),
        a.nodes@.len() == 0,
        added_at(a, id, vector, level, b),
    ensures
        b.entry_point == Some(0u32),
        b.graph().len() == 1,
        b.graph()[0].id == id,
        b.graph()[0].vector == vector,
        b.graph()[0].links.len() == level + 1,
{
}

/// A replaced vector changes that alone: ids, links, entry point and the other vectors
/// stay, and the point is live again if it was not.
pub proof fn replacing_keeps_the_graph<D: Fn(Metric, &[u32], &[u32]) -> u32>(
    a: HnswIndex<D>,
    id: u64,
    vector: Seq<u32>,
    b: HnswIndex<D>,
    i: int,
    l: int,
)
    requires
        a.inv(),
        a.id_to_node@.contains_key(id),
        upserted(a, id, vector, b),
        0 <= i < a.graph().len(),
    ensures
        b.graph().len() == a.graph().len(),
        links(b.graph(), i, l) == links(a.graph(), i, l),
        b.graph()[i].id == a.graph()[i].id,
        a.graph()[i].id == id ==> b.graph()[i].vector == vector && !b.deleted@[i],
        a.graph()[i].id != id ==> b.graph()[i].vector == a.graph()[i].vector && b.deleted@[i] == a.deleted@[i],
        b.entry_point == a.entry_point,
{
    assert(a.graph()[i] == a.nodes@[i]@);
    assert(a.id_to_node@.contains_key(a.nodes@[i].id));
}

/// A deleted point stays in the graph as a waypoint: its node, its links and everybody
/// else's stay, and only it stops being live.
pub proof fn deleting_keeps_the_graph<D: Fn(Metric, &[u32], &[u32]) -> u32>(
    a: HnswIndex<D>,
    id: u64,
    b: HnswIndex<D>,
    i: int,
)
    requires
        a.inv(),
        tombstoned(a, id, b),
        0 <= i < a.graph().len(),
    ensures
        b.graph() == a.graph(),
        b.entry_point == a.entry_point,
        a.graph()[i].id == id ==> b.deleted@[i],
        a.graph()[i].id != id ==> b.deleted@[i] == a.deleted@[i],
{
    assert(a.graph()[i] == a.nodes@[i]@);
    assert(a.id_to_node@.contains_key(a.nodes@[i].id));
}

/// A node rises a layer with the chance of one in `m`: it stays on the lowest layer
/// exactly where the fraction drawn is above one in `m`, and on each layer above exactly
/// where the fraction is above the next power of that.
pub proof fn level_follows_the_draw(u: u64, m: usize, level: nat)
    requires
        m >= 2,
        1 <= u <= 0x20_0000_0000_0000,
        is_level(u, m, level),
    ensures
        level == 0 <==> u * m > 0x20_0000_0000_0000,
        u * pow(m as int, level) <= 0x20_0000_0000_0000,
        u * pow(m as int, level + 1) > 0x20_0000_0000_0000,
{
    lemma_pow1(m as int);
    lemma_pow0(m as int);
    if u * m > 0x20_0000_0000_0000 {
        assert(u * pow(m as int, 0) == u) by (nonlinear_arith)
            requires
                pow(m as int, 0) == 1,
        ;
        assert(is_level(u, m, 0));
        level_is_unique(u, m, level, 0);
    }
}

/// The fraction that is drawn comes from the upper 53 bits of the random number and is
/// never 0.
pub proof fn draw_uses_the_upper_bits(z: u64)
    ensures
        unit_of(z) + z / 2048 == 0x20_0000_0000_0000,
        unit_of(z) >= 1,
{
    assert(z >> 11 == z / 2048) by (bit_vector);
    assert(z / 2048 < 0x20_0000_0000_0000);
}

/// An index that is made without settings has the default ones and is empty.
pub proof fn new_index_has_the_defaults<D: Fn(Metric, &[u32], &[u32]) -> u32>(
    dim: usize,
    metric: Metric,
    kernel: D,
    r: HnswIndex<D>,
)
    requires
        call_ensures(HnswIndex::<D>::new, (dim, metric, kernel), r),
    ensures
        r.params.m == 16,
        r.params.m0 == 32,
        r.params.ef_construction == 200,
        r.rng.state == 0x5EED_1234_ABCD_0001u64,
        r.dim == dim,
        r.metric == metric,
        r.nodes@.len() == 0,
{
}

/// The search for an inserted node's neighbors is as broad as the parameters say: it finds
/// no more nodes than that on a layer, and where it finds fewer, it found every node that
/// can be reached there from where it started.
pub proof fn insertion_searches_as_broadly_as_set<D: Fn(Metric, &[u32], &[u32]) -> u32>(
    d: D,
    m: Metric,
    params: HnswParams,
    base: Seq<NodeView>,
    h: Seq<NodeView>,
    curr: u32,
    founds: Seq<Seq<(u32, u32)>>,
    l: int,
    v: u32,
)
    requires
        joined(d, m, params, base, h, curr, founds),
        0 <= l < founds.len(),
    ensures
        1 <= founds[l].len() <= params.ef_construction,
        founds[l].len() < params.ef_construction ==> ((exists|i: int|
            0 <= i < founds[l].len() && (#[trigger] founds[l][i]).1 == v) <==> reachable(
            base,
            l,
            if l + 1 < founds.len() {
                founds[l + 1][0].1
            } else {
                curr
            },
            v,
        )),
{
    let near = nearness(d, m, base, base.last().vector);
    let f = founds[l];
    let from = entry_at(curr, founds, l);
    assert(layer_found(base, l, near, from, params.ef_construction as nat, f));
    if f.len() < params.ef_construction {
        crate::graph::roomy_search_is_complete(base, l, near, from, params.ef_construction as nat, f, v);
        if found_nodes(f).contains(v) {
            let i = found_nodes(f).index_of(v);
            assert(f[i].1 == v);
        }
        if exists|i: int| 0 <= i < f.len() && (#[trigger] f[i]).1 == v {
            let i = choose|i: int| 0 <= i < f.len() && (#[trigger] f[i]).1 == v;
            assert(found_nodes(f)[i] == v);
        }
    }
}

/// A node that is inserted walks down from the entry point through every layer above its
/// own, one walk on each, and its neighbors on the topmost layer that it shares with the
/// graph can be reached there from where the last walk ended.
pub proof fn insertion_walks_down_to_its_layer<D: Fn(Metric, &[u32], &[u32]) -> u32>(
    d: D,
    m: Metric,
    params: HnswParams,
    g: Seq<NodeView>,
    e: u32,
    node: NodeView,
    h: Seq<NodeView>,
) -> (path: Seq<u32>)
    requires
        inserted(d, m, params, g, Some(e), node, h),
        params.usable(),
        e < g.len() < u32::MAX,
        node.links.len() >= 1,
        g[e as int].links.len() >= 1,
    ensures
        ({
            let base = g.push(node);
            let level = node.links.len() - 1;
            let top = g[e as int].links.len() - 1;
            let shared = if level < top { level } else { top };
            &&& path.len() == top - shared + 1
            &&& walked_down(base, nearness(d, m, base, node.vector), e, top, path)
            &&& forall|x: u32| #[trigger]
                links(h, g.len() as int, shared).contains(x) ==> reachable(base, shared, path.last(), x)
        }),
{
    let base = g.push(node);
    let near = nearness(d, m, base, node.vector);
    let apart = apartness(d, m, base);
    let level = node.links.len() - 1;
    let top = g[e as int].links.len() - 1;
    let shared = if level < top { level } else { top };
    let (curr, founds) = choose|curr: u32, founds: Seq<Seq<(u32, u32)>>|
        {
            &&& descended(base, near, e, top, level, curr)
            &&& founds.len() == shared + 1
            &&& #[trigger] joined(d, m, params, base, h, curr, founds)
        };
    assert(joined(d, m, params, base, h, curr, founds));
    let path = if level < top {
        descent_walks_every_layer(base, near, e, top, level, curr)
    } else {
        seq![e]
    };
    let new = g.len() as u32;
    let f = founds[shared];
    let bound = params.max_links(shared) as nat;
    assert(layer_found(base, shared, near, entry_at(curr, founds, shared), params.ef_construction as nat, f));
    crate::graph::pruned_bounds(apart, f, bound);
    assert(links(h, new as int, shared) == links_after(
        apart,
        new as int,
        links(base, new as int, shared),
        new,
        pruned(apart, f, bound),
        bound,
    ));
    assert forall|x: u32| #[trigger] links(h, new as int, shared).contains(x) implies reachable(
        base,
        shared,
        path.last(),
        x,
    ) by {
        assert(found_nodes(f).contains(x));
        let i = found_nodes(f).index_of(x);
        assert(f[i].1 == x);
        assert(reachable(base, shared, curr, f[i].1));
    }
    path
}

/// A search for one point or more of an index without tombstones finds one wherever there
/// is one, connected or not; and what a search finds comes nearest first where the scores
/// are numbers.
pub proof fn search_finds_something_nearest_first<D: Fn(Metric, &[u32], &[u32]) -> u32>(
    index: HnswIndex<D>,
    q: Seq<u32>,
    k: nat,
    ef: nat,
    r: Seq<(u64, u32)>,
)
    requires
        index.inv(),
        searched(index, q, k, ef, r),
    ensures
        r.len() <= k,
        k > 0 && index.points().len() > 0 && (forall|i: int|
            0 <= i < index.deleted@.len() ==> !#[trigger] index.deleted@[i]) ==> r.len() >= 1,
        (forall|i: int| 0 <= i < r.len() ==> (#[trigger] r[i]).1 % 0x8000_0000 <= 0x7F80_0000) ==> forall|i: int, j: int|
            0 <= i < j < r.len() ==> crate::distance::signed((#[trigger] r[i]).1) <= crate::distance::signed(
                (#[trigger] r[j]).1,
            ),
{
    index.live_points();
    if k > 0 && index.live > 0 {
        let g = index.graph();
        let near = nearness(index.kernel, index.metric, g, q);
        let e = index.entry_point.unwrap();
        let ef0 = breadth_of(k, ef);
        let (curr, found) = choose|curr: u32, found: Seq<(u32, u32)>|
            {
                &&& descended(g, near, e, g[e as int].links.len() - 1, 0, curr)
                &&& #[trigger] layer_found(g, 0, near, curr, ef0, found)
                &&& r == first_k(live_results(index, q, found), k)
            };
        live_results_are_answers(index, q, found, curr, ef0);
        let all = live_results(index, q, found);
        if forall|i: int| 0 <= i < index.deleted@.len() ==> !#[trigger] index.deleted@[i] {
            assert forall|i: int| 0 <= i < found.len() implies !index.deleted@[(#[trigger] found[i]).1 as int] by {
                assert(found[i].1 < g.len());
            }
            nothing_is_dropped(index, q, found);
        }
        if forall|i: int| 0 <= i < r.len() ==> (#[trigger] r[i]).1 % 0x8000_0000 <= 0x7F80_0000 {
            assert forall|i: int, j: int| 0 <= i < j < r.len() implies crate::distance::signed((#[trigger] r[i]).1)
                <= crate::distance::signed((#[trigger] r[j]).1) by {
                assert(r[i] == all[i] && r[j] == all[j]);
                assert(rank(all[i].1) <= rank(all[j].1));
            }
        }
    }
}

} // verus!
