//! Layered proximity graphs and the searches on them.
//!
//! A graph is a run of nodes. A node has a vector and, for each layer from 0 up to
//! its top layer, a list of neighbors.

use std::collections::HashSet;

use vstd::prelude::*;

use crate::distance::{distance, is_below, rank_of, Metric, NOT_A_NUMBER};
use crate::queue::{insert_sorted, take_at};

verus! {

use crate::beam::{
    beam_after, beam_depends_on_layer, beam_done, beam_found, beam_start, beam_step, comes_first, first_is_unique, first_of,
    greedy_end, hop, is_first, is_last, last_is_unique, last_of, lists, met, met_all, over_after,
    picked_first, picked_last, ranks_first, taken, Beam,
};
use crate::distance::{below, is_kernel, rank, score};
use crate::queue::ascending;

broadcast use vstd::std_specs::hash::group_hash_axioms;

/// One stored element. Neighbors are per-layer adjacency lists of node indices.
#[derive(Debug, Clone)]
pub struct Node {
    pub id: u64,
    /// The bit patterns of the vector's components.
    pub vector: Vec<u32>,
    /// `neighbors[layer]` is the adjacency list at that layer. `len() - 1` is the
    /// node's top layer.
    pub neighbors: Vec<Vec<u32>>,
}

/// What a node says.
#[verifier::ext_equal]
pub struct NodeView {
    pub id: u64,
    pub vector: Seq<u32>,
    pub links: Seq<Seq<u32>>,
}

impl View for Node {
    type V = NodeView;

    open spec fn view(&self) -> NodeView {
        NodeView {
            id: self.id,
            vector: self.vector@,
            links: self.neighbors@.map_values(|v: Vec<u32>| v@),
        }
    }
}

/// What a run of nodes says.
pub open spec fn graph_of(nodes: Seq<Node>) -> Seq<NodeView> {
    nodes.map_values(|n: Node| n@)
}

/// The neighbors of node `i` at layer `l`.
pub open spec fn links(g: Seq<NodeView>, i: int, l: int) -> Seq<u32> {
    if 0 <= i < g.len() && 0 <= l < g[i].links.len() {
        g[i].links[l]
    } else {
        Seq::empty()
    }
}

/// Every node has `dim` components and a layer 0, and no edge dangles: neighbors at
/// a layer are other nodes that reach that layer.
pub open spec fn sound(g: Seq<NodeView>, dim: nat) -> bool {
    &&& g.len() <= u32::MAX
    &&& forall|i: int| 0 <= i < g.len() ==> (#[trigger] g[i]).vector.len() == dim && g[i].links.len() >= 1
    &&& forall|i: int, l: int, x: u32| #[trigger]
        links(g, i, l).contains(x) ==> x < g.len() && x != i && l < g[x as int].links.len()
}

/// How near each node is to `q`; 0 for what is no node.
pub open spec fn nearness<D: Fn(Metric, &[u32], &[u32]) -> u32>(
    d: D,
    m: Metric,
    g: Seq<NodeView>,
    q: Seq<u32>,
) -> spec_fn(u32) -> u32 {
    |v: u32|
        if v < g.len() {
            rank(score(d, m, g[v as int].vector, q))
        } else {
            0
        }
}

/// The nodes of `s` have their neighbors at layer `l` in `s`.
pub open spec fn closed_at(g: Seq<NodeView>, l: int, s: Set<u32>) -> bool {
    forall|c: u32, x: u32| s.contains(c) && #[trigger] links(g, c as int, l).contains(x) ==> s.contains(x)
}

/// `v` can be reached from `entry` along edges of layer `l`: it is in every set of
/// nodes that holds `entry` and is closed under those edges.
pub open spec fn reachable(g: Seq<NodeView>, l: int, entry: u32, v: u32) -> bool {
    forall|s: Set<u32>| s.contains(entry) && #[trigger] closed_at(g, l, s) ==> s.contains(v)
}

/// The nodes of a run of (nearness, node) pairs.
pub open spec fn found_nodes(r: Seq<(u32, u32)>) -> Seq<u32> {
    r.map_values(|p: (u32, u32)| p.1)
}

/// A node that a search left out although it met it: the search was full, with
/// nodes no farther away. Where a distance that is not a number was kept, there is no
/// telling how far the others are.
pub open spec fn crowded_out(r: Seq<(u32, u32)>, ef: nat, near: u32) -> bool {
    &&& r.len() >= ef
    &&& (forall|i: int| 0 <= i < r.len() ==> (#[trigger] r[i]).0 != NOT_A_NUMBER) ==> forall|i: int|
        0 <= i < r.len() ==> (#[trigger] r[i]).0 <= near
}

/// `r` is what a search of breadth `ef` from `entry` at layer `l` finds, lowest rank
/// first: distinct nodes that can be reached, with their nearness, no more than `ef`
/// of them; and `entry` and each neighbor of a node in `r` is in `r` too, unless it
/// was crowded out or, in a full search, that node's distance is not a number. Which
/// nodes those are is determined by the steps of the search.
pub open spec fn layer_found(
    g: Seq<NodeView>,
    l: int,
    near: spec_fn(u32) -> u32,
    entry: u32,
    ef: nat,
    r: Seq<(u32, u32)>,
) -> bool {
    &&& 1 <= r.len() <= ef
    &&& forall|i: int|
        0 <= i < r.len() ==> {
            &&& (#[trigger] r[i]).0 == near(r[i].1)
            &&& r[i].1 < g.len()
            &&& reachable(g, l, entry, r[i].1)
        }
    &&& forall|i: int, j: int|
        0 <= i < j < r.len() ==> (#[trigger] r[i]).0 < (#[trigger] r[j]).0 || (r[i].0 == r[j].0
            && r[i].1 < r[j].1)
    &&& found_nodes(r).contains(entry) || crowded_out(r, ef, near(entry))
    &&& forall|i: int, x: u32|
        0 <= i < r.len() && (r[i].0 != NOT_A_NUMBER || r.len() < ef) && #[trigger] links(
            g,
            r[i].1 as int,
            l,
        ).contains(x) ==> found_nodes(r).contains(x) || crowded_out(r, ef, near(x))
    &&& beam_found(g, l, near, entry, ef, r)
}

/// A search that was not full found every node that can be reached.
pub proof fn roomy_search_is_complete(
    g: Seq<NodeView>,
    l: int,
    near: spec_fn(u32) -> u32,
    entry: u32,
    ef: nat,
    r: Seq<(u32, u32)>,
    v: u32,
)
    requires
        layer_found(g, l, near, entry, ef, r),
        r.len() < ef,
    ensures
        found_nodes(r).contains(v) <==> reachable(g, l, entry, v),
{
    let s = found_nodes(r).to_set();
    assert(closed_at(g, l, s)) by {
        assert forall|c: u32, x: u32| s.contains(c) && #[trigger] links(g, c as int, l).contains(x) implies s.contains(
            x,
        ) by {
            let i = found_nodes(r).index_of(c);
            assert(found_nodes(r)[i] == c);
            assert(links(g, r[i].1 as int, l).contains(x));
        }
    }
    assert(s.contains(entry));
    if found_nodes(r).contains(v) {
        let i = found_nodes(r).index_of(v);
        assert(found_nodes(r)[i] == v);
        assert(r[i].1 == v);
    }
}

/// A number per node by which nodes sort: by rank, then by index.
spec fn key_of(near: spec_fn(u32) -> u32, v: u32) -> u64 {
    (near(v) * 0x1_0000_0000 + v) as u64
}

fn make_key(near: u32, v: u32) -> (r: u64)
    ensures
        r == near * 0x1_0000_0000 + v,
        r / 0x1_0000_0000 == near,
        r % 0x1_0000_0000 == v,
{
    near as u64 * 0x1_0000_0000 + v as u64
}

proof fn keys_differ(near: spec_fn(u32) -> u32, a: u32, b: u32)
    ensures
        key_of(near, a) == key_of(near, b) <==> a == b,
        key_of(near, a) % 0x1_0000_0000 == a,
        key_of(near, a) / 0x1_0000_0000 == near(a),
        key_of(near, a) <= key_of(near, b) ==> near(a) <= near(b),
{
}

/// Keys of nodes in `seen`.
spec fn keys_of(near: spec_fn(u32) -> u32, seen: Set<u32>, keys: Seq<u64>) -> bool {
    &&& ascending(keys)
    &&& keys.no_duplicates()
    &&& forall|i: int|
        0 <= i < keys.len() ==> {
            let v = (#[trigger] keys[i] % 0x1_0000_0000) as u32;
            keys[i] == key_of(near, v) && seen.contains(v)
        }
}

/// The key under which a node waits to be expanded: the nearest has the largest.
spec fn turned(k: u64) -> u64 {
    (u64::MAX - k) as u64
}

spec fn waiting(near: spec_fn(u32) -> u32, seen: Set<u32>, keys: Seq<u64>) -> bool {
    &&& ascending(keys)
    &&& keys.no_duplicates()
    &&& forall|i: int|
        0 <= i < keys.len() ==> {
            let v = (turned(#[trigger] keys[i]) % 0x1_0000_0000) as u32;
            keys[i] == turned(key_of(near, v)) && seen.contains(v)
        }
}

/// The keys are those of distances that are numbers.
spec fn of_numbers(keys: Seq<u64>) -> bool {
    forall|i: int| 0 <= i < keys.len() ==> #[trigger] keys[i] / 0x1_0000_0000 != NOT_A_NUMBER
}

/// What was seen and is not among the results was crowded out of them.
spec fn left_out(near: spec_fn(u32) -> u32, seen: Set<u32>, results: Seq<u64>, ef: nat) -> bool {
    forall|v: u32| #[trigger]
        seen.contains(v) && !results.contains(key_of(near, v)) ==> results.len() >= ef && (of_numbers(
            results,
        ) ==> forall|i: int|
            0 <= i < results.len() ==> #[trigger] results[i] / 0x1_0000_0000 <= near(v))
}

/// The node with key `a` comes before the one with key `b`.
spec fn key_first(a: u64, b: u64) -> bool {
    let (ra, rb) = ((a / 0x1_0000_0000) as u32, (b / 0x1_0000_0000) as u32);
    below(ra, rb) || (!below(rb, ra) && a % 0x1_0000_0000 < b % 0x1_0000_0000)
}

/// Of two keys that wait, `a` is to be expanded before `b`; of two results, `a` is to be
/// given up before `b`.
spec fn beats(wait: bool, a: u64, b: u64) -> bool {
    if wait {
        key_first(turned(a), turned(b))
    } else {
        key_first(b, a)
    }
}

/// The key at place `p` beats all others.
spec fn champion(wait: bool, keys: Seq<u64>, p: int) -> bool {
    0 <= p < keys.len() && forall|i: int| 0 <= i < keys.len() && i != p ==> beats(wait, keys[p], #[trigger] keys[i])
}

/// The key at place `p` is the next one: the champion, or the last where there is none.
spec fn is_next(wait: bool, keys: Seq<u64>, p: int) -> bool {
    champion(wait, keys, p) || (p == keys.len() - 1 && forall|q: int| !#[trigger] champion(wait, keys, q))
}

fn does_beat(wait: bool, a: u64, b: u64) -> (r: bool)
    ensures
        r == beats(wait, a, b),
{
    let (x, y): (u64, u64) = if wait {
        (u64::MAX - a, u64::MAX - b)
    } else {
        (b, a)
    };
    let rx: u32 = (x / 0x1_0000_0000) as u32;
    let ry: u32 = (y / 0x1_0000_0000) as u32;
    is_below(rx, ry) || (!is_below(ry, rx) && x % 0x1_0000_0000 < y % 0x1_0000_0000)
}

/// Where all distances are numbers the last key is the next one.
proof fn last_is_champion(wait: bool, keys: Seq<u64>)
    requires
        ascending(keys),
        keys.no_duplicates(),
        keys.len() > 0,
        forall|i: int|
            0 <= i < keys.len() ==> (if wait {
                turned(#[trigger] keys[i])
            } else {
                keys[i]
            }) / 0x1_0000_0000 != NOT_A_NUMBER,
    ensures
        champion(wait, keys, keys.len() - 1),
{
    let n = keys.len() - 1;
    assert forall|i: int| 0 <= i < keys.len() && i != n implies beats(wait, keys[n], #[trigger] keys[i]) by {
        assert(keys[i] <= keys[n]);
        assert(keys[i] != keys[n]);
        let (x, y) = if wait { (turned(keys[n]), turned(keys[i])) } else { (keys[i], keys[n]) };
        assert(x < y);
        assert((if wait { turned(keys[i]) } else { keys[i] }) / 0x1_0000_0000 != NOT_A_NUMBER);
        assert((if wait { turned(keys[n]) } else { keys[n] }) / 0x1_0000_0000 != NOT_A_NUMBER);
        assert(x / 0x1_0000_0000 < y / 0x1_0000_0000 || (x / 0x1_0000_0000 == y / 0x1_0000_0000
            && x % 0x1_0000_0000 < y % 0x1_0000_0000));
        assert(key_first(x, y));
    }
}

/// The place of the next key. Distances that are not numbers are rare: without one it is
/// the last place.
fn next_place(wait: bool, keys: &Vec<u64>) -> (p: usize)
    requires
        ascending(keys@),
        keys@.no_duplicates(),
        keys@.len() > 0,
    ensures
        p < keys@.len(),
        is_next(wait, keys@, p as int),
{
    let n: usize = keys.len() - 1;
    let top: u64 = if wait {
        u64::MAX - keys[0]
    } else {
        keys[n]
    };
    if (top / 0x1_0000_0000) as u32 != NOT_A_NUMBER {
        proof {
            assert forall|i: int| 0 <= i < keys@.len() implies (if wait {
                turned(#[trigger] keys@[i])
            } else {
                keys@[i]
            }) / 0x1_0000_0000 != NOT_A_NUMBER by {
                assert(keys@[0] <= keys@[i] <= keys@[n as int]);
            }
            last_is_champion(wait, keys@);
        }
        return n;
    }
    let mut p: usize = 0;
    let mut i: usize = 1;
    while i < keys.len()
        invariant
            keys@.len() == n + 1,
            1 <= i <= n + 1,
            p < i,
            forall|q: int| 0 <= q < i && #[trigger] champion(wait, keys@, q) ==> q == p,
        decreases n + 1 - i,
    {
        if does_beat(wait, keys[i], keys[p]) {
            p = i;
        }
        i = i + 1;
    }
    let mut j: usize = 0;
    while j < keys.len()
        invariant
            keys@.len() == n + 1,
            p <= n,
            j <= n + 1,
            forall|q: int| #[trigger] champion(wait, keys@, q) ==> q == p,
            forall|x: int| 0 <= x < j && x != p ==> beats(wait, keys@[p as int], #[trigger] keys@[x]),
        decreases n + 1 - j,
    {
        if j != p && !does_beat(wait, keys[p], keys[j]) {
            assert(!champion(wait, keys@, p as int));
            return n;
        }
        j = j + 1;
    }
    assert(champion(wait, keys@, p as int));
    p
}

/// A node among the results that does not wait has had its neighbors seen.
spec fn expanded(
    g: Seq<NodeView>,
    l: int,
    near: spec_fn(u32) -> u32,
    seen: Set<u32>,
    results: Seq<u64>,
    candidates: Seq<u64>,
    but: Option<u32>,
) -> bool {
    forall|v: u32, x: u32|
        but != Some(v) && results.contains(key_of(near, v)) && !candidates.contains(
            turned(key_of(near, v)),
        ) && #[trigger] links(g, v as int, l).contains(x) ==> seen.contains(x)
}

/// A node among the results has had its neighbors seen, unless the search was full and
/// its distance is not a number.
spec fn expanded_numbers(
    g: Seq<NodeView>,
    l: int,
    near: spec_fn(u32) -> u32,
    seen: Set<u32>,
    results: Seq<u64>,
    ef: nat,
) -> bool {
    forall|v: u32, x: u32|
        results.contains(key_of(near, v)) && (near(v) != NOT_A_NUMBER || results.len() < ef)
            && #[trigger] links(g, v as int, l).contains(x) ==> seen.contains(x)
}

proof fn bounded_set_len(s: Set<u32>, n: nat)
    requires
        s.finite(),
        forall|v: u32| s.contains(v) ==> v < n,
    ensures
        s.len() <= n,
{
    let t = s.map(|v: u32| v as int);
    let r = vstd::set_lib::set_int_range(0, n as int);
    vstd::set_lib::lemma_int_range(0, n as int);
    vstd::set_lib::lemma_map_size(s, t, |v: u32| v as int);
    assert(t.subset_of(r));
    vstd::set_lib::lemma_len_subset(t, r);
}

/// The nodes whose keys are among `keys`.
spec fn nodes_in(near: spec_fn(u32) -> u32, keys: Seq<u64>) -> Set<u32> {
    Set::new(|v: u32| keys.contains(key_of(near, v)))
}

/// The nodes whose turned keys are among `keys`.
spec fn waiting_in(near: spec_fn(u32) -> u32, keys: Seq<u64>) -> Set<u32> {
    Set::new(|v: u32| keys.contains(turned(key_of(near, v))))
}

/// The state of a search that its lists of keys stand for.
spec fn beam_of(near: spec_fn(u32) -> u32, seen: Set<u32>, candidates: Seq<u64>, results: Seq<u64>) -> Beam {
    Beam { seen, waiting: waiting_in(near, candidates), best: nodes_in(near, results) }
}

proof fn nodes_in_len(near: spec_fn(u32) -> u32, seen: Set<u32>, keys: Seq<u64>)
    requires
        keys_of(near, seen, keys),
    ensures
        nodes_in(near, keys).len() == keys.len(),
        nodes_in(near, keys).finite(),
{
    let vs = keys.map_values(|k: u64| (k % 0x1_0000_0000) as u32);
    assert forall|i: int, j: int| 0 <= i < vs.len() && 0 <= j < vs.len() && i != j implies vs[i] != vs[j] by {
        keys_differ(near, vs[i], vs[j]);
        assert(keys[i] == key_of(near, vs[i]));
        assert(keys[j] == key_of(near, vs[j]));
    }
    assert forall|v: u32| vs.contains(v) <==> nodes_in(near, keys).contains(v) by {
        if vs.contains(v) {
            let i = vs.index_of(v);
            assert(keys[i] == key_of(near, v));
        }
        if nodes_in(near, keys).contains(v) {
            let i = keys.index_of(key_of(near, v));
            assert(keys[i] == key_of(near, v));
            keys_differ(near, v, v);
            assert(vs[i] == v);
        }
    }
    vs.unique_seq_to_set();
    assert(vs.to_set() =~= nodes_in(near, keys));
}

/// The order of keys is that of their nodes.
proof fn key_first_is_node_first(near: spec_fn(u32) -> u32, a: u32, b: u32)
    ensures
        key_first(key_of(near, a), key_of(near, b)) == comes_first(near, a, b),
        key_of(near, a) < key_of(near, b) ==> ranks_first(near, a, b),
{
    keys_differ(near, a, b);
    keys_differ(near, b, a);
}

/// The next key among the results belongs to the node to give up.
proof fn next_result(near: spec_fn(u32) -> u32, seen: Set<u32>, keys: Seq<u64>, p: int)
    requires
        keys_of(near, seen, keys),
        0 <= p < keys.len(),
        is_next(false, keys, p),
    ensures
        last_of(near, nodes_in(near, keys)) == (keys[p] % 0x1_0000_0000) as u32,
        near(last_of(near, nodes_in(near, keys))) == keys[p] / 0x1_0000_0000,
        keys[p] == key_of(near, last_of(near, nodes_in(near, keys))),
{
    let s = nodes_in(near, keys);
    let v = (keys[p] % 0x1_0000_0000) as u32;
    assert(keys[p] == key_of(near, v));
    keys_differ(near, v, v);
    if champion(false, keys, p) {
        assert forall|w: u32| #[trigger] s.contains(w) implies w == v || comes_first(near, w, v) by {
            let i = keys.index_of(key_of(near, w));
            assert(keys[i] == key_of(near, w));
            if i != p {
                assert(beats(false, keys[p], keys[i]));
            } else {
                keys_differ(near, w, v);
            }
            key_first_is_node_first(near, w, v);
        }
        assert(is_last(near, s, v));
    } else {
        assert forall|w: u32| !is_last(near, s, w) by {
            if is_last(near, s, w) {
                let q = keys.index_of(key_of(near, w));
                assert(keys[q] == key_of(near, w));
                assert forall|i: int| 0 <= i < keys.len() && i != q implies beats(
                    false,
                    keys[q],
                    #[trigger] keys[i],
                ) by {
                    let x = (keys[i] % 0x1_0000_0000) as u32;
                    assert(keys[i] == key_of(near, x));
                    assert(s.contains(x));
                    keys_differ(near, x, w);
                    assert(keys[i] != keys[q]);
                    key_first_is_node_first(near, x, w);
                }
                assert(champion(false, keys, q));
            }
        }
        assert forall|w: u32| #[trigger] s.contains(w) implies w == v || ranks_first(near, w, v) by {
            let i = keys.index_of(key_of(near, w));
            assert(keys[i] == key_of(near, w));
            assert(keys[i] <= keys[p]);
            keys_differ(near, w, v);
            key_first_is_node_first(near, w, v);
        }
    }
    assert(s.contains(v));
    assert(picked_last(near, s, v));
    last_is_unique(near, s, v);
}

/// The next key that waits belongs to the node to go on with.
proof fn next_waiting(near: spec_fn(u32) -> u32, seen: Set<u32>, keys: Seq<u64>, p: int)
    requires
        waiting(near, seen, keys),
        0 <= p < keys.len(),
        is_next(true, keys, p),
    ensures
        first_of(near, waiting_in(near, keys)) == (turned(keys[p]) % 0x1_0000_0000) as u32,
        waiting_in(near, keys).contains(first_of(near, waiting_in(near, keys))),
{
    let s = waiting_in(near, keys);
    let v = (turned(keys[p]) % 0x1_0000_0000) as u32;
    assert(keys[p] == turned(key_of(near, v)));
    assert(turned(keys[p]) == key_of(near, v));
    keys_differ(near, v, v);
    if champion(true, keys, p) {
        assert forall|w: u32| #[trigger] s.contains(w) implies w == v || comes_first(near, v, w) by {
            let i = keys.index_of(turned(key_of(near, w)));
            assert(keys[i] == turned(key_of(near, w)));
            assert(turned(keys[i]) == key_of(near, w));
            if i != p {
                assert(beats(true, keys[p], keys[i]));
            } else {
                keys_differ(near, w, v);
            }
            key_first_is_node_first(near, v, w);
        }
        assert(is_first(near, s, v));
    } else {
        assert forall|w: u32| !is_first(near, s, w) by {
            if is_first(near, s, w) {
                let q = keys.index_of(turned(key_of(near, w)));
                assert(keys[q] == turned(key_of(near, w)));
                assert(turned(keys[q]) == key_of(near, w));
                assert forall|i: int| 0 <= i < keys.len() && i != q implies beats(
                    true,
                    keys[q],
                    #[trigger] keys[i],
                ) by {
                    let x = (turned(keys[i]) % 0x1_0000_0000) as u32;
                    assert(keys[i] == turned(key_of(near, x)));
                    assert(turned(keys[i]) == key_of(near, x));
                    assert(s.contains(x));
                    keys_differ(near, x, w);
                    assert(keys[i] != keys[q]);
                    key_first_is_node_first(near, w, x);
                }
                assert(champion(true, keys, q));
            }
        }
        assert forall|w: u32| #[trigger] s.contains(w) implies w == v || ranks_first(near, v, w) by {
            let i = keys.index_of(turned(key_of(near, w)));
            assert(keys[i] == turned(key_of(near, w)));
            assert(keys[i] <= keys[p]);
            assert(key_of(near, v) <= key_of(near, w));
            keys_differ(near, v, w);
            key_first_is_node_first(near, v, w);
        }
    }
    assert(s.contains(v));
    assert(picked_first(near, s, v));
    first_is_unique(near, s, v);
}

/// No result is farther than the next one to give up, as far as distances are numbers.
proof fn next_result_is_farthest(keys: Seq<u64>, p: int, i: int)
    requires
        ascending(keys),
        is_next(false, keys, p),
        0 <= p < keys.len(),
        0 <= i < keys.len(),
    ensures
        !below((keys[p] / 0x1_0000_0000) as u32, (keys[i] / 0x1_0000_0000) as u32),
{
    if champion(false, keys, p) {
        if i != p {
            assert(beats(false, keys[p], keys[i]));
        }
    } else {
        assert(keys[i] <= keys[p]);
    }
}

/// A full search that takes in a nearer node gives up the farthest that it had.
proof fn displaced_is_farthest(before: Seq<u64>, p: int, key: u64, after: Seq<u64>, q: int)
    requires
        ascending(before),
        before.no_duplicates(),
        0 <= p < before.len(),
        is_next(false, before, p),
        below((key / 0x1_0000_0000) as u32, (before[p] / 0x1_0000_0000) as u32),
        after.no_duplicates(),
        forall|y: u64| after.contains(y) <==> before.contains(y) || y == key,
        0 <= q < after.len(),
        is_next(false, after, q),
    ensures
        after[q] == before[p],
{
    let w = before[p];
    assert(champion(false, before, p)) by {
        if !champion(false, before, p) {
            assert forall|i: int| 0 <= i < before.len() implies before[i] / 0x1_0000_0000
                != NOT_A_NUMBER by {
                assert(before[i] <= before[p]);
            }
            last_is_champion(false, before);
        }
    }
    assert(before.contains(w));
    assert(after.contains(w));
    let r = after.index_of(w);
    assert(after[r] == w);
    assert forall|i: int| 0 <= i < after.len() && i != r implies beats(
        false,
        after[r],
        #[trigger] after[i],
    ) by {
        let y = after[i];
        assert(after.contains(y));
        if y != key {
            let j = before.index_of(y);
            assert(before[j] == y);
            assert(y != w);
            assert(beats(false, before[p], before[j]));
        }
    }
    assert(champion(false, after, r));
    assert(champion(false, after, q));
    if q != r {
        assert(beats(false, after[q], after[r]));
        assert(beats(false, after[r], after[q]));
    }
}

/// Take note of node `x`, met for the first time.
#[verifier::rlimit(60)]
#[verifier::spinoff_prover]
fn consider(
    x: u32,
    near_x: u32,
    ef: usize,
    candidates: &mut Vec<u64>,
    results: &mut Vec<u64>,
    Ghost(near): Ghost<spec_fn(u32) -> u32>,
    Ghost(seen): Ghost<Set<u32>>,
)
    requires
        near_x == near(x),
        !seen.contains(x),
        keys_of(near, seen, old(results)@),
        waiting(near, seen, old(candidates)@),
        left_out(near, seen, old(results)@, ef as nat),
        1 <= old(results)@.len() <= ef,
    ensures
        keys_of(near, seen.insert(x), final(results)@),
        waiting(near, seen.insert(x), final(candidates)@),
        left_out(near, seen.insert(x), final(results)@, ef as nat),
        1 <= final(results)@.len() <= ef,
        forall|v: u32|
            v != x && final(results)@.contains(#[trigger] key_of(near, v)) ==> old(
                results,
            )@.contains(key_of(near, v)),
        forall|y: u64| old(candidates)@.contains(y) ==> final(candidates)@.contains(y),
        final(results)@.contains(key_of(near, x)) ==> final(candidates)@.contains(
            turned(key_of(near, x)),
        ),
        beam_of(near, seen.insert(x), final(candidates)@, final(results)@) == met(
            near,
            ef as nat,
            beam_of(near, seen, old(candidates)@, old(results)@),
            x,
        ),
{
    let key: u64 = make_key(near_x, x);
    let ghost res0 = results@;
    let ghost cand0 = candidates@;
    let ghost more = seen.insert(x);
    proof {
        keys_differ(near, x, x);
        assert(key == key_of(near, x));
        if res0.contains(key) {
            let i = res0.index_of(key);
            assert(res0[i] == key);
            assert(seen.contains((res0[i] % 0x1_0000_0000) as u32));
        }
        if cand0.contains(turned(key)) {
            let i = cand0.index_of(turned(key));
            assert(cand0[i] == turned(key));
            assert(turned(turned(key)) == key);
            assert(seen.contains((turned(cand0[i]) % 0x1_0000_0000) as u32));
        }
        assert(!res0.contains(key));
        assert(!cand0.contains(turned(key)));
    }
    let far: usize = next_place(false, results);
    let worst: u64 = results[far];
    let ghost b = beam_of(near, seen, cand0, res0);
    proof {
        nodes_in_len(near, seen, res0);
        next_result(near, seen, res0, far as int);
    }
    if is_below(near_x, (worst / 0x1_0000_0000) as u32) || results.len() < ef {
        insert_sorted(candidates, u64::MAX - key);
        insert_sorted(results, key);
        proof {
            assert forall|v: u32| nodes_in(near, results@).contains(v) <==> b.best.insert(x).contains(v) by {
                keys_differ(near, v, x);
            }
            assert(nodes_in(near, results@) =~= b.best.insert(x));
            assert forall|v: u32| waiting_in(near, candidates@).contains(v) <==> b.waiting.insert(x).contains(v) by {
                keys_differ(near, v, x);
                assert(turned(key_of(near, v)) == turned(key) <==> v == x);
            }
            assert(waiting_in(near, candidates@) =~= b.waiting.insert(x));
            assert forall|i: int| 0 <= i < candidates@.len() implies {
                let v = (turned(#[trigger] candidates@[i]) % 0x1_0000_0000) as u32;
                candidates@[i] == turned(key_of(near, v)) && more.contains(v)
            } by {
                let y = candidates@[i];
                assert(candidates@.contains(y));
                if y == turned(key) {
                    assert(turned(y) == key);
                } else {
                    let j = cand0.index_of(y);
                    assert(cand0[j] == y);
                }
            }
            assert forall|i: int| 0 <= i < results@.len() implies {
                let v = (#[trigger] results@[i] % 0x1_0000_0000) as u32;
                results@[i] == key_of(near, v) && more.contains(v)
            } by {
                let y = results@[i];
                assert(results@.contains(y));
                if y != key {
                    let j = res0.index_of(y);
                    assert(res0[j] == y);
                }
            }
        }
        proof {
            nodes_in_len(near, more, results@);
        }
        if results.len() > ef {
            let ghost full = results@;
            let last: usize = next_place(false, results);
            let dropped: u64 = take_at(results, last);
            proof {
                next_result(near, more, full, last as int);
                displaced_is_farthest(res0, far as int, key, full, last as int);
                let gone = last_of(near, nodes_in(near, full));
                assert forall|v: u32| nodes_in(near, results@).contains(v) <==> nodes_in(near, full).remove(
                    gone,
                ).contains(v) by {
                    keys_differ(near, v, gone);
                }
                assert(nodes_in(near, results@) =~= nodes_in(near, full).remove(gone));
                assert(results@.len() == ef);
                assert forall|i: int| 0 <= i < results@.len() implies {
                    let v = (#[trigger] results@[i] % 0x1_0000_0000) as u32;
                    results@[i] == key_of(near, v) && more.contains(v)
                } by {
                    assert(results@[i] == full[if i < last { i } else { i + 1 }]);
                }
                // What is given up is a number, so where only numbers are left there were
                // only numbers before.
                if of_numbers(results@) {
                    assert(of_numbers(res0)) by {
                        assert forall|i: int| 0 <= i < res0.len() implies #[trigger] res0[i] / 0x1_0000_0000
                            != NOT_A_NUMBER by {
                            let y = res0[i];
                            assert(res0.contains(y));
                            assert(full.contains(y));
                            if y != dropped {
                                assert(results@.contains(y));
                                let j = results@.index_of(y);
                                assert(results@[j] == y);
                            }
                        }
                    }
                    assert forall|v: u32, i: int|
                        more.contains(v) && !results@.contains(key_of(near, v)) && 0 <= i < results@.len() implies #[trigger] results@[i]
                        / 0x1_0000_0000 <= #[trigger] near(v) by {
                        let k = key_of(near, v);
                        let y = results@[i];
                        keys_differ(near, v, x);
                        keys_differ(near, v, v);
                        assert(results@.contains(y));
                        assert(full.contains(y));
                        if y != key {
                            let j = res0.index_of(y);
                            assert(res0[j] == y);
                            next_result_is_farthest(res0, far as int, j);
                        }
                        if k != dropped {
                            assert(!full.contains(k));
                            assert(v != x);
                            assert(seen.contains(v) && !res0.contains(k));
                            assert(res0[far as int] / 0x1_0000_0000 <= near(v));
                        }
                    }
                }
                assert(left_out(near, more, results@, ef as nat));
            }
        } else {
            proof {
                assert forall|v: u32| #[trigger] more.contains(v) implies results@.contains(
                    key_of(near, v),
                ) by {
                    keys_differ(near, v, x);
                    if v != x && !results@.contains(key_of(near, v)) {
                        assert(seen.contains(v) && !res0.contains(key_of(near, v)));
                        assert(res0.len() >= ef);
                    }
                }
            }
        }
        proof {
            assert(candidates@.contains(turned(key)));
        }
    } else {
        proof {
            if of_numbers(results@) {
                assert forall|i: int| 0 <= i < results@.len() implies #[trigger] results@[i]
                    / 0x1_0000_0000 <= near(x) by {
                    next_result_is_farthest(res0, far as int, i);
                    assert(res0[far as int] / 0x1_0000_0000 != NOT_A_NUMBER);
                }
            }
            assert forall|v: u32| #[trigger] more.contains(v) && !results@.contains(key_of(near, v)) implies results@.len()
                >= ef && (of_numbers(results@) ==> forall|i: int|
                0 <= i < results@.len() ==> #[trigger] results@[i] / 0x1_0000_0000 <= near(v)) by {
                if v != x {
                    assert(seen.contains(v));
                }
            }
            assert(!results@.contains(key));
        }
    }
}

/// Layer search returning up to `ef` nearest nodes to `query` reachable from
/// `entry` at `layer`, as (nearness, node) pairs, lowest rank first. Counts every node,
/// deleted or not: all are valid waypoints.
pub fn search_layer<D: Fn(Metric, &[u32], &[u32]) -> u32>(
    kernel: &D,
    metric: Metric,
    nodes: &Vec<Node>,
    query: &[u32],
    entry: u32,
    ef: usize,
    layer: usize,
) -> (r: Vec<(u32, u32)>)
    requires
        is_kernel(*kernel),
        sound(graph_of(nodes@), query@.len()),
        entry < nodes@.len(),
        ef >= 1,
    ensures
        layer_found(
            graph_of(nodes@),
            layer as int,
            nearness(*kernel, metric, graph_of(nodes@), query@),
            entry,
            ef as nat,
            r@,
        ),
{
    let ghost g = graph_of(nodes@);
    let ghost near = nearness(*kernel, metric, g, query@);
    let l: Ghost<int> = Ghost(layer as int);
    let ghost mut n: nat = 0;
    assert(g[entry as int].vector.len() == query@.len());
    let entry_near: u32 = rank_of(
        distance(kernel, metric, nodes[entry as usize].vector.as_slice(), query),
    );
    let mut visited: HashSet<u32> = HashSet::new();
    let _new: bool = visited.insert(entry);
    let key: u64 = make_key(entry_near, entry);
    // Candidates to expand, nearest last.
    let mut candidates: Vec<u64> = Vec::new();
    candidates.push(u64::MAX - key);
    // Best results so far, farthest last.
    let mut results: Vec<u64> = Vec::new();
    results.push(key);
    proof {
        keys_differ(near, entry, entry);
        assert(key == key_of(near, entry));
        assert(turned(turned(key)) == key);
        assert(results@[0] == key);
        assert(results@.contains(key));
        assert(candidates@[0] == turned(key));
        assert(candidates@.contains(turned(key)));
        assert forall|v: u32| #[trigger] visited@.contains(v) implies v == entry by {}
        assert forall|v: u32| results@.contains(key_of(near, v)) implies v == entry by {
            let i = results@.index_of(key_of(near, v));
            assert(results@[i] == key_of(near, v));
            keys_differ(near, v, entry);
        }
        assert forall|v: u32| #[trigger] visited@.contains(v) implies reachable(g, l@, entry, v) by {}
        bounded_set_len(visited@, g.len());
        assert forall|v: u32| waiting_in(near, candidates@).contains(v) <==> v == entry by {
            if waiting_in(near, candidates@).contains(v) {
                let i = candidates@.index_of(turned(key_of(near, v)));
                assert(candidates@[i] == turned(key_of(near, v)));
                keys_differ(near, v, entry);
            }
        }
        assert(beam_of(near, visited@, candidates@, results@) =~= beam_start(entry));
    }
    while candidates.len() > 0
        invariant_except_break
            beam_of(near, visited@, candidates@, results@) == beam_after(
                g,
                l@,
                near,
                ef as nat,
                beam_start(entry),
                n,
            ),
        invariant
            is_kernel(*kernel),
            g == graph_of(nodes@),
            near == nearness(*kernel, metric, g, query@),
            l@ == layer as int,
            sound(g, query@.len()),
            1 <= results@.len() <= ef,
            visited@.finite(),
            visited@.len() <= g.len(),
            visited@.contains(entry),
            forall|v: u32| #[trigger] visited@.contains(v) ==> v < g.len() && reachable(g, l@, entry, v),
            keys_of(near, visited@, results@),
            waiting(near, visited@, candidates@),
            left_out(near, visited@, results@, ef as nat),
            expanded(g, l@, near, visited@, results@, candidates@, None),
        ensures
            1 <= results@.len() <= ef,
            visited@.contains(entry),
            forall|v: u32| #[trigger] visited@.contains(v) ==> v < g.len() && reachable(g, l@, entry, v),
            keys_of(near, visited@, results@),
            left_out(near, visited@, results@, ef as nat),
            expanded_numbers(g, l@, near, visited@, results@, ef as nat),
            over_after(g, l@, near, entry, ef as nat, n),
            nodes_in(near, results@) == beam_after(g, l@, near, ef as nat, beam_start(entry), n).best,
        decreases g.len() - visited@.len(), candidates@.len(),
    {
        let ghost cand0 = candidates@;
        let ghost seen0 = visited@;
        let ghost b0 = beam_of(near, visited@, candidates@, results@);
        let next: usize = next_place(true, &candidates);
        let far: usize = next_place(false, &results);
        proof {
            next_waiting(near, visited@, candidates@, next as int);
            nodes_in_len(near, visited@, results@);
            next_result(near, visited@, results@, far as int);
        }
        let ckey: u64 = u64::MAX - take_at(&mut candidates, next);
        let c: u32 = (ckey % 0x1_0000_0000) as u32;
        let c_near: u32 = (ckey / 0x1_0000_0000) as u32;
        let worst: u64 = results[far];
        let worst_near: u32 = (worst / 0x1_0000_0000) as u32;
        proof {
            let t = next as int;
            assert(turned(cand0[t]) == ckey);
            assert(ckey == key_of(near, c));
            keys_differ(near, c, c);
            assert(visited@.contains(c));
            assert(turned(turned(ckey)) == ckey);
            assert forall|i: int| 0 <= i < candidates@.len() implies {
                let v = (turned(#[trigger] candidates@[i]) % 0x1_0000_0000) as u32;
                candidates@[i] == turned(key_of(near, v)) && visited@.contains(v)
            } by {
                assert(candidates@[i] == cand0[if i < next { i } else { i + 1 }]);
            }
            assert(first_of(near, b0.waiting) == c);
            assert(near(last_of(near, b0.best)) == worst_near);
            assert forall|v: u32| waiting_in(near, candidates@).contains(v) <==> b0.waiting.remove(c).contains(v) by {
                keys_differ(near, v, c);
                assert(turned(key_of(near, v)) == turned(ckey) <==> v == c);
            }
            assert(beam_of(near, visited@, candidates@, results@) =~= taken(near, b0));
            assert(b0.waiting.contains(c));
            assert(beam_done(near, ef as nat, b0) <==> results@.len() >= ef && below(
                worst_near,
                c_near,
            ));
        }
        if is_below(worst_near, c_near) && results.len() >= ef {
            proof {
                assert forall|v: u32, x: u32|
                    results@.contains(key_of(near, v)) && (near(v) != NOT_A_NUMBER || results@.len() < ef)
                        && #[trigger] links(g, v as int, l@).contains(x) implies visited@.contains(x) by {
                    let k = key_of(near, v);
                    let i = results@.index_of(k);
                    assert(results@[i] == k);
                    next_result_is_farthest(results@, far as int, i);
                    keys_differ(near, v, c);
                    keys_differ(near, v, v);
                    if cand0.contains(turned(k)) {
                        let j = cand0.index_of(turned(k));
                        assert(cand0[j] == turned(k));
                        assert(turned(cand0[j]) == k);
                        if champion(true, cand0, next as int) {
                            if j != next {
                                assert(beats(true, cand0[next as int], cand0[j]));
                            }
                        } else {
                            assert(cand0[j] <= cand0[next as int]);
                        }
                        assert(false);
                    }
                }
                assert(over_after(g, l@, near, entry, ef as nat, n));
            }
            break;
        }
        assert(c < g.len());
        let node: &Node = &nodes[c as usize];
        assert(g[c as int] == node@);
        if layer < node.neighbors.len() {
            let adj: &Vec<u32> = &node.neighbors[layer];
            let mut i: usize = 0;
            proof {
                assert(node@.links[l@] == adj@);
                assert(links(g, c as int, l@) == adj@);
                assert forall|v: u32, x: u32|
                    Some(c) != Some(v) && results@.contains(key_of(near, v)) && !candidates@.contains(
                        turned(key_of(near, v)),
                    ) && #[trigger] links(g, v as int, l@).contains(x) implies visited@.contains(x) by {
                    let k = key_of(near, v);
                    keys_differ(near, v, c);
                    if cand0.contains(turned(k)) {
                        assert(turned(k) != turned(ckey));
                        assert(candidates@.contains(turned(k)));
                    }
                }
            }
            assert(expanded(g, l@, near, visited@, results@, candidates@, Some(c)));
            assert(adj@.take(0) =~= Seq::empty());
            while i < adj.len()
                invariant
                    is_kernel(*kernel),
                    g == graph_of(nodes@),
                    near == nearness(*kernel, metric, g, query@),
                    l@ == layer as int,
                    sound(g, query@.len()),
                    c < g.len(),
                    links(g, c as int, l@) == adj@,
                    visited@.contains(c),
                    reachable(g, l@, entry, c),
                    i <= adj@.len(),
                    1 <= results@.len() <= ef,
                    visited@.finite(),
                    visited@.len() <= g.len(),
                    seen0.subset_of(visited@),
                    seen0.len() <= visited@.len(),
                    visited@.len() == seen0.len() ==> candidates@.len() < cand0.len(),
                    visited@.contains(entry),
                    forall|v: u32| #[trigger]
                        visited@.contains(v) ==> v < g.len() && reachable(g, l@, entry, v),
                    keys_of(near, visited@, results@),
                    waiting(near, visited@, candidates@),
                    left_out(near, visited@, results@, ef as nat),
                    expanded(g, l@, near, visited@, results@, candidates@, Some(c)),
                    forall|j: int| 0 <= j < i ==> visited@.contains(#[trigger] adj@[j]),
                    beam_of(near, visited@, candidates@, results@) == met_all(
                        near,
                        ef as nat,
                        taken(near, b0),
                        adj@.take(i as int),
                    ),
                decreases adj@.len() - i,
            {
                let x: u32 = adj[i];
                proof {
                    assert(links(g, c as int, l@).contains(x));
                    assert(x < g.len());
                    assert(g[x as int].vector.len() == query@.len());
                }
                let ghost seen = visited@;
                let ghost res1 = results@;
                let ghost cand1 = candidates@;
                proof {
                    assert(adj@.take(i + 1).drop_last() =~= adj@.take(i as int));
                    assert(adj@.take(i + 1).last() == x);
                }
                if visited.insert(x) {
                    let near_x: u32 = rank_of(
                        distance(kernel, metric, nodes[x as usize].vector.as_slice(), query),
                    );
                    consider(
                        x,
                        near_x,
                        ef,
                        &mut candidates,
                        &mut results,
                        Ghost(near),
                        Ghost(seen),
                    );
                    proof {
                        assert(reachable(g, l@, entry, x)) by {
                            assert forall|s: Set<u32>|
                                s.contains(entry) && #[trigger] closed_at(g, l@, s) implies s.contains(x) by {
                                assert(s.contains(c));
                                assert(links(g, c as int, l@).contains(x));
                            }
                        }
                        bounded_set_len(visited@, g.len());
                        assert forall|v: u32, y: u32|
                            Some(c) != Some(v) && results@.contains(key_of(near, v))
                                && !candidates@.contains(turned(key_of(near, v))) && #[trigger] links(
                                g,
                                v as int,
                                l@,
                            ).contains(y) implies visited@.contains(y) by {
                            assert(v != x);
                            assert(res1.contains(key_of(near, v)));
                            assert(!cand1.contains(turned(key_of(near, v))));
                            assert(seen.contains(y));
                        }
                    }
                } else {
                    assert(visited@ =~= seen);
                }
                i = i + 1;
            }
            proof {
                assert forall|v: u32, y: u32|
                    results@.contains(key_of(near, v)) && !candidates@.contains(
                        turned(key_of(near, v)),
                    ) && #[trigger] links(g, v as int, l@).contains(y) implies visited@.contains(y) by {
                    if v == c {
                        let j = adj@.index_of(y);
                        assert(adj@[j] == y);
                    }
                }
                assert(adj@.take(i as int) =~= adj@);
            }
        } else {
            proof {
                assert(links(g, c as int, l@) =~= Seq::empty());
                assert forall|v: u32, y: u32|
                    results@.contains(key_of(near, v)) && !candidates@.contains(
                        turned(key_of(near, v)),
                    ) && #[trigger] links(g, v as int, l@).contains(y) implies visited@.contains(y) by {
                    if v == c {
                        assert(links(g, c as int, l@) =~= Seq::empty());
                    } else {
                        let k = key_of(near, v);
                        keys_differ(near, v, c);
                        if cand0.contains(turned(k)) {
                            assert(turned(k) != turned(ckey));
                            assert(candidates@.contains(turned(k)));
                        }
                    }
                }
            }
        }
        proof {
            assert(beam_of(near, visited@, candidates@, results@) == beam_step(
                g,
                l@,
                near,
                ef as nat,
                b0,
            ));
            n = n + 1;
        }
    }
    let mut out: Vec<(u32, u32)> = Vec::new();
    let mut i: usize = 0;
    while i < results.len()
        invariant
            keys_of(near, visited@, results@),
            i <= results@.len(),
            out@.len() == i,
            forall|j: int|
                0 <= j < i ==> results@[j] == key_of(near, (#[trigger] out@[j]).1) && out@[j].0 == near(
                    out@[j].1,
                ),
        decreases results@.len() - i,
    {
        let key: u64 = results[i];
        let v: u32 = (key % 0x1_0000_0000) as u32;
        proof {
            assert(results@[i as int] == key_of(near, v));
            keys_differ(near, v, v);
        }
        out.push(((key / 0x1_0000_0000) as u32, v));
        i = i + 1;
    }
    proof {
        let r = out@;
        assert forall|i: int| 0 <= i < r.len() implies {
            &&& (#[trigger] r[i]).0 == near(r[i].1)
            &&& r[i].1 < g.len()
            &&& reachable(g, l@, entry, r[i].1)
        } by {
            keys_differ(near, r[i].1, r[i].1);
            assert(visited@.contains((results@[i] % 0x1_0000_0000) as u32));
        }
        assert forall|i: int, j: int| 0 <= i < j < r.len() implies (#[trigger] r[i]).0 < (#[trigger] r[j]).0
            || (r[i].0 == r[j].0 && r[i].1 < r[j].1) by {
            assert(results@[i] <= results@[j]);
            assert(results@[i] != results@[j]);
        }
        assert forall|v: u32| visited@.contains(v) implies found_nodes(r).contains(v) || crowded_out(
            r,
            ef as nat,
            near(v),
        ) by {
            if results@.contains(key_of(near, v)) {
                let i = results@.index_of(key_of(near, v));
                assert(results@[i] == key_of(near, v));
                assert(results@[i] == key_of(near, r[i].1));
                keys_differ(near, v, r[i].1);
                assert(found_nodes(r)[i] == v);
            } else {
                if forall|i: int| 0 <= i < r.len() ==> (#[trigger] r[i]).0 != NOT_A_NUMBER {
                    assert(of_numbers(results@)) by {
                        assert forall|i: int| 0 <= i < results@.len() implies #[trigger] results@[i]
                            / 0x1_0000_0000 != NOT_A_NUMBER by {
                            keys_differ(near, r[i].1, r[i].1);
                        }
                    }
                    assert forall|i: int| 0 <= i < r.len() implies (#[trigger] r[i]).0 <= near(v) by {
                        keys_differ(near, r[i].1, r[i].1);
                        assert(results@[i] / 0x1_0000_0000 <= near(v));
                    }
                }
            }
        }
        assert forall|i: int, x: u32|
            0 <= i < r.len() && (r[i].0 != NOT_A_NUMBER || r.len() < ef) && #[trigger] links(
                g,
                r[i].1 as int,
                l@,
            ).contains(x) implies found_nodes(r).contains(x) || crowded_out(r, ef as nat, near(x)) by {
            assert(results@.contains(key_of(near, r[i].1))) by {
                assert(results@[i] == key_of(near, r[i].1));
            }
            assert(visited@.contains(x));
        }
        let best = nodes_in(near, results@);
        assert forall|v: u32| best.contains(v) <==> #[trigger] found_nodes(r).contains(v) by {
            if best.contains(v) {
                let i = results@.index_of(key_of(near, v));
                assert(results@[i] == key_of(near, r[i].1));
                keys_differ(near, v, r[i].1);
                assert(found_nodes(r)[i] == v);
            }
            if found_nodes(r).contains(v) {
                let i = found_nodes(r).index_of(v);
                assert(r[i].1 == v);
                assert(results@[i] == key_of(near, v));
            }
        }
        assert(lists(near, best, r));
        reveal(beam_found);
    }
    out
}

/// `r` is where the greedy walk from `entry` at layer `l` ends: it can be reached, it is
/// `entry` itself or nearer, and none of its neighbors is nearer.
pub open spec fn settled(g: Seq<NodeView>, l: int, near: spec_fn(u32) -> u32, entry: u32, r: u32) -> bool {
    &&& r < g.len()
    &&& reachable(g, l, entry, r)
    &&& r == entry || below(near(r), near(entry))
    &&& forall|x: u32| #[trigger] links(g, r as int, l).contains(x) ==> !below(near(x), near(r))
    &&& r == greedy_end(g, l, near, entry)
}

/// Greedy descent on a single upper layer: from `entry`, hop to ever-closer
/// neighbors until no neighbor improves. Returns the closest node found.
pub fn greedy_search_layer<D: Fn(Metric, &[u32], &[u32]) -> u32>(
    kernel: &D,
    metric: Metric,
    nodes: &Vec<Node>,
    query: &[u32],
    entry: u32,
    layer: usize,
) -> (r: u32)
    requires
        is_kernel(*kernel),
        sound(graph_of(nodes@), query@.len()),
        entry < nodes@.len(),
    ensures
        settled(
            graph_of(nodes@),
            layer as int,
            nearness(*kernel, metric, graph_of(nodes@), query@),
            entry,
            r,
        ),
        r == entry || layer < graph_of(nodes@)[r as int].links.len(),
{
    let ghost g = graph_of(nodes@);
    let ghost near = nearness(*kernel, metric, g, query@);
    let l: Ghost<int> = Ghost(layer as int);
    let mut current: u32 = entry;
    assert(g[entry as int].vector.len() == query@.len());
    let mut current_near: u32 = rank_of(
        distance(kernel, metric, nodes[current as usize].vector.as_slice(), query),
    );
    loop
        invariant
            is_kernel(*kernel),
            g == graph_of(nodes@),
            near == nearness(*kernel, metric, g, query@),
            l@ == layer as int,
            sound(g, query@.len()),
            current < g.len(),
            current_near == near(current),
            current == entry || below(current_near, near(entry)),
            reachable(g, l@, entry, current),
            current == entry || layer < g[current as int].links.len(),
            greedy_end(g, l@, near, entry) == greedy_end(g, l@, near, current),
        decreases current_near,
    {
        let start: u32 = current;
        let start_near: u32 = current_near;
        let node: &Node = &nodes[start as usize];
        assert(g[start as int] == node@);
        if layer < node.neighbors.len() {
            let adj: &Vec<u32> = &node.neighbors[layer];
            assert(node@.links[l@] == adj@);
            assert(links(g, start as int, l@) == adj@);
            let mut i: usize = 0;
            assert(adj@.take(0) =~= Seq::empty());
            while i < adj.len()
                invariant
                    is_kernel(*kernel),
                    g == graph_of(nodes@),
                    near == nearness(*kernel, metric, g, query@),
                    l@ == layer as int,
                    sound(g, query@.len()),
                    current == hop(near, start, adj@.take(i as int)),
                    start < g.len(),
                    links(g, start as int, l@) == adj@,
                    reachable(g, l@, entry, start),
                    start == entry || layer < g[start as int].links.len(),
                    i <= adj@.len(),
                    current < g.len(),
                    current_near == near(current),
                    start == entry || below(start_near, near(entry)),
                    start_near == near(start),
                    current == start || below(current_near, start_near),
                    reachable(g, l@, entry, current),
                    current == entry || layer < g[current as int].links.len(),
                    forall|j: int| 0 <= j < i ==> !below(near(#[trigger] adj@[j]), current_near),
                decreases adj@.len() - i,
            {
                let x: u32 = adj[i];
                proof {
                    assert(links(g, start as int, l@).contains(x));
                    assert(g[x as int].vector.len() == query@.len());
                    assert(reachable(g, l@, entry, x)) by {
                        assert forall|s: Set<u32>| s.contains(entry) && #[trigger] closed_at(g, l@, s) implies s.contains(
                            x,
                        ) by {
                            assert(s.contains(start));
                            assert(links(g, start as int, l@).contains(x));
                        }
                    }
                }
                let near_x: u32 = rank_of(
                    distance(kernel, metric, nodes[x as usize].vector.as_slice(), query),
                );
                proof {
                    assert(adj@.take(i + 1).drop_last() =~= adj@.take(i as int));
                    assert(adj@.take(i + 1).last() == x);
                }
                if is_below(near_x, current_near) {
                    current_near = near_x;
                    current = x;
                }
                i = i + 1;
            }
            assert(adj@.take(i as int) =~= adj@);
        } else {
            assert(links(g, start as int, l@) =~= Seq::empty());
        }
        proof {
            reveal(greedy_end);
            assert(current == hop(near, start, links(g, start as int, l@)));
        }
        if current_near == start_near {
            proof {
                assert(current == start);
                assert forall|x: u32| #[trigger] links(g, current as int, l@).contains(x) implies !below(
                    near(x),
                    near(current),
                ) by {
                    let adj = links(g, start as int, l@);
                    let j = adj.index_of(x);
                    assert(adj[j] == x);
                }
            }
            return current;
        }
    }
}

/// How many of the leading pairs of `s` are no farther than `near`.
pub open spec fn rank_in(s: Seq<(u32, u32)>, near: u32) -> int
    decreases s.len(),
{
    if s.len() == 0 {
        0
    } else if s.last().0 > near {
        rank_in(s.drop_last(), near)
    } else {
        s.len() as int
    }
}

/// The pairs of `c`, lowest rank first; pairs of equal rank keep their order.
pub open spec fn by_rank(c: Seq<(u32, u32)>) -> Seq<(u32, u32)>
    decreases c.len(),
{
    if c.len() == 0 {
        Seq::empty()
    } else {
        let s = by_rank(c.drop_last());
        s.insert(rank_in(s, c.last().0), c.last())
    }
}

spec fn nearest_first(s: Seq<(u32, u32)>) -> bool {
    forall|i: int, j: int| 0 <= i <= j < s.len() ==> (#[trigger] s[i]).0 <= (#[trigger] s[j]).0
}

proof fn rank_in_bounds(s: Seq<(u32, u32)>, near: u32)
    ensures
        0 <= rank_in(s, near) <= s.len(),
        forall|i: int| rank_in(s, near) <= i < s.len() ==> (#[trigger] s[i]).0 > near,
        rank_in(s, near) > 0 ==> s[rank_in(s, near) - 1].0 <= near,
    decreases s.len(),
{
    if s.len() > 0 && s.last().0 > near {
        let t = s.drop_last();
        rank_in_bounds(t, near);
        assert forall|i: int| rank_in(s, near) <= i < s.len() implies (#[trigger] s[i]).0 > near by {
            if i < t.len() {
                assert(t[i] == s[i]);
            }
        }
    }
}

/// Ordering by rank drops nothing and adds nothing.
pub proof fn by_rank_keeps(c: Seq<(u32, u32)>)
    ensures
        by_rank(c).len() == c.len(),
        by_rank(c).to_multiset() == c.to_multiset(),
        forall|i: int, j: int|
            0 <= i <= j < c.len() ==> (#[trigger] by_rank(c)[i]).0 <= (#[trigger] by_rank(c)[j]).0,
    decreases c.len(),
{
    broadcast use vstd::seq_lib::group_to_multiset_ensures;

    if c.len() > 0 {
        let s = by_rank(c.drop_last());
        by_rank_keeps(c.drop_last());
        rank_in_bounds(s, c.last().0);
        let p = rank_in(s, c.last().0);
        let r = by_rank(c);
        assert(c =~= c.drop_last().push(c.last()));
        assert forall|i: int, j: int| 0 <= i <= j < c.len() implies (#[trigger] r[i]).0 <= (#[trigger] r[j]).0 by {
            if i < p {
                assert(r[i] == s[i]);
                assert(s[i].0 <= s[p - 1].0);
                if j < p {
                    assert(r[j] == s[j]);
                } else if j > p {
                    assert(r[j] == s[j - 1]);
                }
            } else if i == p {
                if j > p {
                    assert(r[j] == s[j - 1]);
                }
            } else {
                assert(r[i] == s[i - 1]);
                assert(r[j] == s[j - 1]);
            }
        }
    }
}

/// The same pairs, lowest rank first; pairs of equal rank keep their order.
fn sort_by_rank(c: &Vec<(u32, u32)>) -> (r: Vec<(u32, u32)>)
    ensures
        r@ == by_rank(c@),
{
    let mut out: Vec<(u32, u32)> = Vec::new();
    let mut k: usize = 0;
    assert(c@.take(0) =~= Seq::empty());
    while k < c.len()
        invariant
            k <= c@.len(),
            out@ == by_rank(c@.take(k as int)),
            out@.len() == k,
        decreases c@.len() - k,
    {
        let pair: (u32, u32) = c[k];
        let near: u32 = pair.0;
        let mut lo: usize = 0;
        let mut hi: usize = out.len();
        proof {
            by_rank_keeps(c@.take(k as int));
            rank_in_bounds(out@, near);
        }
        while lo < hi
            invariant
                lo <= hi <= out@.len(),
                nearest_first(out@),
                forall|i: int| 0 <= i < lo ==> (#[trigger] out@[i]).0 <= near,
                forall|i: int| hi <= i < out@.len() ==> (#[trigger] out@[i]).0 > near,
            decreases hi - lo,
        {
            let mid: usize = lo + (hi - lo) / 2;
            if out[mid].0 <= near {
                assert forall|i: int| 0 <= i <= mid implies (#[trigger] out@[i]).0 <= near by {
                    assert(out@[i].0 <= out@[mid as int].0);
                }
                lo = mid + 1;
            } else {
                assert forall|i: int| mid <= i < out@.len() implies (#[trigger] out@[i]).0 > near by {
                    assert(out@[mid as int].0 <= out@[i].0);
                }
                hi = mid;
            }
        }
        proof {
            let p = rank_in(out@, near);
            if p < lo {
                assert(out@[p].0 > near);
            }
            if p > lo {
                assert(out@[p - 1].0 > near);
            }
            assert(c@.take(k + 1).drop_last() =~= c@.take(k as int));
            assert(c@.take(k + 1).last() == pair);
        }
        out.insert(lo, pair);
        k = k + 1;
    }
    assert(c@.take(k as int) =~= c@);
    out
}

/// None of the pairs is nearer than another: the distances that are numbers are equal.
pub open spec fn undecided(c: Seq<(u32, u32)>) -> bool {
    forall|i: int, j: int|
        0 <= i < c.len() && 0 <= j < c.len() ==> !below((#[trigger] c[i]).0, (#[trigger] c[j]).0)
}

/// The pairs of `c`, nearest first; pairs of which neither is nearer keep their order.
/// Where distances that are not numbers leave the others without such an order, they go
/// last.
pub open spec fn by_nearness(c: Seq<(u32, u32)>) -> Seq<(u32, u32)> {
    if undecided(c) {
        c
    } else {
        by_rank(c)
    }
}

/// Ordering by nearness drops nothing and adds nothing.
pub proof fn by_nearness_keeps(c: Seq<(u32, u32)>)
    ensures
        by_nearness(c).len() == c.len(),
        by_nearness(c).to_multiset() == c.to_multiset(),
{
    by_rank_keeps(c);
}

/// Whether none of the pairs is nearer than another.
fn is_undecided(c: &Vec<(u32, u32)>) -> (r: bool)
    ensures
        r == undecided(c@),
{
    let mut number: Option<usize> = None;
    let mut i: usize = 0;
    while i < c.len()
        invariant
            i <= c@.len(),
            match number {
                Some(n) => n < i && c@[n as int].0 != NOT_A_NUMBER && forall|j: int|
                    0 <= j < i ==> (#[trigger] c@[j]).0 == NOT_A_NUMBER || c@[j].0 == c@[n as int].0,
                None => forall|j: int| 0 <= j < i ==> (#[trigger] c@[j]).0 == NOT_A_NUMBER,
            },
        decreases c@.len() - i,
    {
        if c[i].0 != NOT_A_NUMBER {
            match number {
                Some(n) => {
                    if c[i].0 != c[n].0 {
                        proof {
                            assert(below(c@[i as int].0, c@[n as int].0) || below(
                                c@[n as int].0,
                                c@[i as int].0,
                            ));
                        }
                        return false;
                    }
                },
                None => {
                    number = Some(i);
                },
            }
        }
        i = i + 1;
    }
    true
}

/// The same pairs, nearest first; pairs of which neither is nearer keep their order.
fn sort_by_nearness(c: &Vec<(u32, u32)>) -> (r: Vec<(u32, u32)>)
    ensures
        r@ == by_nearness(c@),
{
    if is_undecided(c) {
        let mut r: Vec<(u32, u32)> = Vec::new();
        let mut i: usize = 0;
        while i < c.len()
            invariant
                i <= c@.len(),
                r@ == c@.take(i as int),
            decreases c@.len() - i,
        {
            r.push(c[i]);
            i = i + 1;
            assert(r@ =~= c@.take(i as int));
        }
        assert(r@ =~= c@);
        r
    } else {
        sort_by_rank(c)
    }
}

/// How far apart two nodes are; 0 where one of them is no node.
pub open spec fn apartness<D: Fn(Metric, &[u32], &[u32]) -> u32>(
    d: D,
    m: Metric,
    g: Seq<NodeView>,
) -> spec_fn(u32, u32) -> u32 {
    |a: u32, b: u32|
        if a < g.len() && b < g.len() {
            rank(score(d, m, g[a as int].vector, g[b as int].vector))
        } else {
            0
        }
}

/// `x` is not nearer to any of `kept` than `near`.
pub open spec fn stands_apart(apart: spec_fn(u32, u32) -> u32, kept: Seq<u32>, x: u32, near: u32) -> bool {
    forall|i: int| 0 <= i < kept.len() ==> !below(apart(x, #[trigger] kept[i]), near)
}

/// The pruning heuristic: going through the candidates `c` in order, keep one while
/// fewer than `m` are kept and it is not nearer to a kept one than to the base
/// element.
pub open spec fn selection(apart: spec_fn(u32, u32) -> u32, c: Seq<(u32, u32)>, m: nat) -> Seq<u32>
    decreases c.len(),
{
    if c.len() == 0 {
        Seq::empty()
    } else {
        let kept = selection(apart, c.drop_last(), m);
        if kept.len() < m && stands_apart(apart, kept, c.last().1, c.last().0) {
            kept.push(c.last().1)
        } else {
            kept
        }
    }
}

/// The heuristic keeps at most `m` of the candidates; of distinct candidates,
/// distinct ones; and where it may keep any, it keeps the first.
pub proof fn selection_bounds(apart: spec_fn(u32, u32) -> u32, c: Seq<(u32, u32)>, m: nat)
    ensures
        selection(apart, c, m).len() <= m,
        selection(apart, c, m).len() <= c.len(),
        forall|x: u32| #[trigger] selection(apart, c, m).contains(x) ==> found_nodes(c).contains(x),
        found_nodes(c).no_duplicates() ==> selection(apart, c, m).no_duplicates(),
        c.len() > 0 && m > 0 ==> selection(apart, c, m).len() > 0 && selection(apart, c, m)[0] == c[0].1,
    decreases c.len(),
{
    if c.len() > 0 {
        let d = c.drop_last();
        let kept = selection(apart, d, m);
        let all = selection(apart, c, m);
        selection_bounds(apart, d, m);
        assert(found_nodes(d) =~= found_nodes(c).drop_last());
        assert forall|x: u32| #[trigger] all.contains(x) implies found_nodes(c).contains(x) by {
            let i = all.index_of(x);
            assert(all[i] == x);
            if i < kept.len() {
                assert(kept[i] == x);
                assert(kept.contains(x));
                let j = found_nodes(d).index_of(x);
                assert(found_nodes(d)[j] == x);
                assert(found_nodes(c)[j] == x);
            } else {
                assert(found_nodes(c)[c.len() - 1] == x);
            }
        }
        if found_nodes(c).no_duplicates() {
            assert(found_nodes(d).no_duplicates());
            let x = c.last().1;
            if kept.contains(x) {
                let j = found_nodes(d).index_of(x);
                assert(found_nodes(d)[j] == x);
                assert(found_nodes(c)[j] == x);
                assert(found_nodes(c)[c.len() - 1] == x);
            }
            assert forall|i: int, j: int| 0 <= i < all.len() && 0 <= j < all.len() && i != j implies all[i] != all[j] by {
                if i < kept.len() {
                    assert(kept.contains(kept[i]));
                }
                if j < kept.len() {
                    assert(kept.contains(kept[j]));
                }
            }
        }
        if c.len() == 1 {
            assert(d =~= Seq::empty());
        } else {
            assert(d[0] == c[0]);
        }
    }
}

/// Once `m` are kept the heuristic keeps no more.
proof fn selection_is_full(apart: spec_fn(u32, u32) -> u32, c: Seq<(u32, u32)>, k: int, m: nat)
    requires
        0 <= k <= c.len(),
        selection(apart, c.take(k), m).len() >= m,
    ensures
        selection(apart, c, m) == selection(apart, c.take(k), m),
    decreases c.len(),
{
    if k < c.len() {
        assert(c.drop_last().take(k) =~= c.take(k));
        selection_is_full(apart, c.drop_last(), k, m);
    } else {
        assert(c.take(k) =~= c);
    }
}

/// The pruning heuristic: from `candidates` (any order), select at most `m`
/// neighbors such that each kept candidate is closer to the base element than to
/// every already-kept neighbor. This yields a navigable, diverse neighborhood, and
/// is not the same as keeping the `m` closest.
///
/// Each candidate carries its nearness to the base element.
pub(crate) fn select_neighbors_heuristic<D: Fn(Metric, &[u32], &[u32]) -> u32>(
    kernel: &D,
    metric: Metric,
    nodes: &Vec<Node>,
    candidates: &Vec<(u32, u32)>,
    m: usize,
    Ghost(dim): Ghost<nat>,
) -> (r: Vec<u32>)
    requires
        is_kernel(*kernel),
        sound(graph_of(nodes@), dim),
        forall|i: int| 0 <= i < candidates@.len() ==> (#[trigger] candidates@[i]).1 < nodes@.len(),
    ensures
        r@ == selection(
            apartness(*kernel, metric, graph_of(nodes@)),
            by_nearness(candidates@),
            m as nat,
        ),
{
    let ghost g = graph_of(nodes@);
    let ghost apart = apartness(*kernel, metric, g);
    let cands: Vec<(u32, u32)> = sort_by_nearness(candidates);
    proof {
        broadcast use vstd::seq_lib::group_to_multiset_ensures;

        by_nearness_keeps(candidates@);
        assert forall|i: int| 0 <= i < cands@.len() implies (#[trigger] cands@[i]).1 < g.len() by {
            assert(cands@.contains(cands@[i]));
            assert(cands@.to_multiset().count(cands@[i]) > 0);
            assert(candidates@.contains(cands@[i]));
            let j = candidates@.index_of(cands@[i]);
            assert(candidates@[j] == cands@[i]);
        }
    }
    let mut selected: Vec<u32> = Vec::new();
    let mut k: usize = 0;
    assert(cands@.take(0) =~= Seq::empty());
    while k < cands.len() && selected.len() < m
        invariant
            is_kernel(*kernel),
            g == graph_of(nodes@),
            apart == apartness(*kernel, metric, g),
            sound(g, dim),
            forall|i: int| 0 <= i < cands@.len() ==> (#[trigger] cands@[i]).1 < g.len(),
            k <= cands@.len(),
            selected@ == selection(apart, cands@.take(k as int), m as nat),
            forall|i: int| 0 <= i < selected@.len() ==> #[trigger] selected@[i] < g.len(),
        decreases cands@.len() - k,
    {
        let (near, cand) = cands[k];
        let mut keep: bool = true;
        let mut i: usize = 0;
        assert(g[cand as int].vector.len() == dim);
        while keep && i < selected.len()
            invariant
                is_kernel(*kernel),
                g == graph_of(nodes@),
                apart == apartness(*kernel, metric, g),
                sound(g, dim),
                cand < g.len(),
                forall|i: int| 0 <= i < selected@.len() ==> #[trigger] selected@[i] < g.len(),
                i <= selected@.len(),
                keep ==> forall|j: int|
                    0 <= j < i ==> !below(apart(cand, #[trigger] selected@[j]), near),
                !keep ==> exists|j: int|
                    0 <= j < i && below(apart(cand, #[trigger] selected@[j]), near),
            decreases selected@.len() - i,
        {
            let s: u32 = selected[i];
            assert(g[cand as int].vector.len() == dim);
            assert(g[s as int].vector.len() == dim);
            let d: u32 = rank_of(
                distance(
                    kernel,
                    metric,
                    nodes[cand as usize].vector.as_slice(),
                    nodes[s as usize].vector.as_slice(),
                ),
            );
            assert(d == apart(cand, selected@[i as int]));
            if is_below(d, near) {
                keep = false;
            }
            i = i + 1;
        }
        proof {
            assert(cands@.take(k + 1).drop_last() =~= cands@.take(k as int));
            assert(cands@.take(k + 1).last() == (near, cand));
            assert(keep == stands_apart(apart, selected@, cand, near));
        }
        if keep {
            selected.push(cand);
        }
        k = k + 1;
    }
    proof {
        if k < cands@.len() {
            selection_is_full(apart, cands@, k as int, m as nat);
        } else {
            assert(cands@.take(k as int) =~= cands@);
        }
    }
    selected
}

/// The heuristic on candidates in any order.
pub open spec fn pruned(apart: spec_fn(u32, u32) -> u32, c: Seq<(u32, u32)>, m: nat) -> Seq<u32> {
    selection(apart, by_nearness(c), m)
}

/// The heuristic keeps at most `m` of the candidates, and some where it may.
pub proof fn pruned_bounds(apart: spec_fn(u32, u32) -> u32, c: Seq<(u32, u32)>, m: nat)
    ensures
        pruned(apart, c, m).len() <= m,
        forall|x: u32| #[trigger] pruned(apart, c, m).contains(x) ==> found_nodes(c).contains(x),
        c.len() > 0 && m > 0 ==> pruned(apart, c, m).len() > 0,
{
    broadcast use vstd::seq_lib::group_to_multiset_ensures;

    let s = by_nearness(c);
    by_nearness_keeps(c);
    selection_bounds(apart, s, m);
    assert forall|x: u32| #[trigger] pruned(apart, c, m).contains(x) implies found_nodes(c).contains(x) by {
        let i = found_nodes(s).index_of(x);
        assert(found_nodes(s)[i] == x);
        assert(s.contains(s[i]));
        assert(s.to_multiset().count(s[i]) > 0);
        assert(c.contains(s[i]));
        let j = c.index_of(s[i]);
        assert(found_nodes(c)[j] == x);
    }
}

/// What is in the order of ranks already stays as it is.
proof fn by_rank_of_sorted(c: Seq<(u32, u32)>)
    requires
        nearest_first(c),
    ensures
        by_rank(c) == c,
    decreases c.len(),
{
    if c.len() > 0 {
        let d = c.drop_last();
        assert(nearest_first(d)) by {
            assert forall|i: int, j: int| 0 <= i <= j < d.len() implies (#[trigger] d[i]).0 <= (#[trigger] d[j]).0 by {
                assert(d[i] == c[i] && d[j] == c[j]);
            }
        }
        by_rank_of_sorted(d);
        rank_in_bounds(d, c.last().0);
        let p = rank_in(d, c.last().0);
        if p < d.len() {
            assert(d[p].0 > c.last().0);
            assert(c[p].0 <= c[c.len() - 1].0);
        }
        assert(d.insert(d.len() as int, c.last()) =~= c);
    } else {
        assert(by_rank(c) =~= c);
    }
}

/// What a layer search finds needs no ordering.
pub proof fn found_is_ordered(
    g: Seq<NodeView>,
    l: int,
    near: spec_fn(u32) -> u32,
    entry: u32,
    ef: nat,
    r: Seq<(u32, u32)>,
)
    requires
        layer_found(g, l, near, entry, ef, r),
    ensures
        by_nearness(r) == r,
        found_nodes(r).no_duplicates(),
{
    assert(nearest_first(r)) by {
        assert forall|i: int, j: int| 0 <= i <= j < r.len() implies (#[trigger] r[i]).0 <= (#[trigger] r[j]).0 by {
            if i < j {
                assert(r[i].0 < r[j].0 || r[i].0 == r[j].0);
            }
        }
    }
    by_rank_of_sorted(r);
    assert forall|i: int, j: int| 0 <= i < found_nodes(r).len() && 0 <= j < found_nodes(r).len() && i != j implies found_nodes(
        r,
    )[i] != found_nodes(r)[j] by {
        if i < j {
            assert(r[i].0 < r[j].0 || r[i].1 < r[j].1);
        } else {
            assert(r[j].0 < r[i].0 || r[j].1 < r[i].1);
        }
        assert(r[i].0 == near(r[i].1));
        assert(r[j].0 == near(r[j].1));
    }
}

/// The candidates `list`, each with how far it is from `x`.
pub open spec fn pairs(apart: spec_fn(u32, u32) -> u32, x: u32, list: Seq<u32>) -> Seq<(u32, u32)> {
    Seq::new(list.len(), |i: int| (apart(x, list[i]), list[i]))
}

/// The neighbors of `x`, with `new` added, cut down by the heuristic where there are
/// more than `m`.
pub open spec fn relinked(apart: spec_fn(u32, u32) -> u32, x: u32, list: Seq<u32>, new: u32, m: nat) -> Seq<
    u32,
> {
    let more = list.push(new);
    if more.len() > m {
        pruned(apart, pairs(apart, x, more), m)
    } else {
        more
    }
}

/// A list that a node was added to stays within its bound and gains nothing else.
pub proof fn relinked_bounds(apart: spec_fn(u32, u32) -> u32, x: u32, list: Seq<u32>, new: u32, m: nat)
    ensures
        relinked(apart, x, list, new, m).len() <= m,
        forall|y: u32| #[trigger]
            relinked(apart, x, list, new, m).contains(y) ==> list.contains(y) || y == new,
{
    let more = list.push(new);
    let c = pairs(apart, x, more);
    pruned_bounds(apart, c, m);
    assert(found_nodes(c) =~= more);
    assert forall|y: u32| #[trigger] relinked(apart, x, list, new, m).contains(y) implies list.contains(y) || y
        == new by {
        assert(more.contains(y));
        let i = more.index_of(y);
        if i < list.len() {
            assert(list[i] == y);
        }
    }
}

/// The same nodes: ids, vectors and top layers.
pub open spec fn same_nodes(g: Seq<NodeView>, h: Seq<NodeView>) -> bool {
    &&& g.len() == h.len()
    &&& forall|i: int|
        0 <= i < g.len() ==> (#[trigger] h[i]).id == g[i].id && h[i].vector == g[i].vector
            && h[i].links.len() == g[i].links.len()
}

/// The neighbors that node `i` has at a layer after `new` was linked to `chosen`
/// there: `before` is what it had.
pub open spec fn links_after(
    apart: spec_fn(u32, u32) -> u32,
    i: int,
    before: Seq<u32>,
    new: u32,
    chosen: Seq<u32>,
    m: nat,
) -> Seq<u32> {
    if i == new {
        chosen
    } else if 0 <= i < new && chosen.contains(i as u32) {
        relinked(apart, i as u32, before, new, m)
    } else {
        before
    }
}

/// `h` is `g` with `new` linked to `chosen` at layer `l`, both ways.
pub open spec fn wired(
    apart: spec_fn(u32, u32) -> u32,
    g: Seq<NodeView>,
    h: Seq<NodeView>,
    l: int,
    new: u32,
    chosen: Seq<u32>,
    m: nat,
) -> bool {
    &&& same_nodes(g, h)
    &&& forall|i: int, k: int|
        0 <= i < g.len() ==> #[trigger] links(h, i, k) == if k == l {
            links_after(apart, i, links(g, i, k), new, chosen, m)
        } else {
            links(g, i, k)
        }
}

/// Replace the neighbors of node `i` at layer `l`.
fn set_links(nodes: &mut Vec<Node>, i: usize, l: usize, list: Vec<u32>)
    requires
        i < old(nodes)@.len(),
        l < old(nodes)@[i as int].neighbors@.len(),
    ensures
        same_nodes(graph_of(old(nodes)@), graph_of(final(nodes)@)),
        forall|x: int, k: int| #[trigger]
            links(graph_of(final(nodes)@), x, k) == if x == i && k == l {
                list@
            } else {
                links(graph_of(old(nodes)@), x, k)
            },
{
    let node: &mut Node = &mut nodes[i];
    node.neighbors.set(l, list);
    proof {
        let g = graph_of(old(nodes)@);
        let h = graph_of(nodes@);
        assert(nodes@.len() == old(nodes)@.len());
        assert forall|x: int| 0 <= x < g.len() && x != i implies #[trigger] h[x] == g[x] by {}
        assert(h[i as int].links =~= g[i as int].links.update(l as int, list@));
    }
}

proof fn wired_is_sound(
    apart: spec_fn(u32, u32) -> u32,
    g: Seq<NodeView>,
    h: Seq<NodeView>,
    l: int,
    new: u32,
    chosen: Seq<u32>,
    done: Seq<u32>,
    m: nat,
    dim: nat,
)
    requires
        sound(g, dim),
        same_nodes(g, h),
        new < g.len(),
        0 <= l < g[new as int].links.len(),
        forall|x: u32| #[trigger] chosen.contains(x) ==> x < new && l < g[x as int].links.len(),
        forall|i: int, k: int|
            0 <= i < g.len() ==> #[trigger] links(h, i, k) == if k != l {
                links(g, i, k)
            } else if i == new {
                chosen
            } else if 0 <= i < new && done.contains(i as u32) {
                relinked(apart, i as u32, links(g, i, k), new, m)
            } else {
                links(g, i, k)
            },
    ensures
        sound(h, dim),
{
    assert forall|i: int, k: int, x: u32| #[trigger] links(h, i, k).contains(x) implies x < h.len() && x != i && k
        < h[x as int].links.len() by {
        assert(0 <= i < g.len());
        if k == l && i == new {
            assert(chosen.contains(x));
        } else if k == l && i < new && done.contains(i as u32) {
            relinked_bounds(apart, i as u32, links(g, i, k), new, m);
            assert(relinked(apart, i as u32, links(g, i, k), new, m).contains(x));
            if links(g, i, k).contains(x) {
            } else {
                assert(x == new);
            }
        } else {
            assert(links(g, i, k).contains(x));
        }
    }
}

/// Link the new node at layer `l` to `chosen`, both ways, pruning each neighbor's
/// list if it overflows.
pub(crate) fn link_layer<D: Fn(Metric, &[u32], &[u32]) -> u32>(
    kernel: &D,
    metric: Metric,
    nodes: &mut Vec<Node>,
    new: u32,
    l: usize,
    chosen: Vec<u32>,
    m: usize,
    Ghost(dim): Ghost<nat>,
)
    requires
        is_kernel(*kernel),
        sound(graph_of(old(nodes)@), dim),
        new < old(nodes)@.len(),
        l < graph_of(old(nodes)@)[new as int].links.len(),
        chosen@.no_duplicates(),
        forall|x: u32| #[trigger]
            chosen@.contains(x) ==> x < new && l < graph_of(old(nodes)@)[x as int].links.len(),
    ensures
        sound(graph_of(final(nodes)@), dim),
        wired(
            apartness(*kernel, metric, graph_of(old(nodes)@)),
            graph_of(old(nodes)@),
            graph_of(final(nodes)@),
            l as int,
            new,
            chosen@,
            m as nat,
        ),
{
    let ghost g = graph_of(nodes@);
    let ghost apart = apartness(*kernel, metric, g);
    let ghost ch = chosen@;
    let list: Vec<u32> = chosen.clone();
    assert(list@ =~= ch);
    assert(g[new as int] == nodes@[new as int]@);
    set_links(nodes, new as usize, l, list);
    let mut k: usize = 0;
    proof {
        let h = graph_of(nodes@);
        assert forall|i: int, j: int| 0 <= i < g.len() implies #[trigger] links(h, i, j) == if j != l {
            links(g, i, j)
        } else if i == new {
            ch
        } else if 0 <= i < new && ch.take(0).contains(i as u32) {
            relinked(apart, i as u32, links(g, i, j), new, m as nat)
        } else {
            links(g, i, j)
        } by {}
        wired_is_sound(apart, g, h, l as int, new, ch, ch.take(0), m as nat, dim);
    }
    while k < chosen.len()
        invariant
            is_kernel(*kernel),
            sound(g, dim),
            chosen@ == ch,
            apart == apartness(*kernel, metric, g),
            new < g.len(),
            l < g[new as int].links.len(),
            ch.no_duplicates(),
            forall|x: u32| #[trigger] ch.contains(x) ==> x < new && l < g[x as int].links.len(),
            k <= ch.len(),
            same_nodes(g, graph_of(nodes@)),
            sound(graph_of(nodes@), dim),
            forall|i: int, j: int|
                0 <= i < g.len() ==> #[trigger] links(graph_of(nodes@), i, j) == if j != l {
                    links(g, i, j)
                } else if i == new {
                    ch
                } else if 0 <= i < new && ch.take(k as int).contains(i as u32) {
                    relinked(apart, i as u32, links(g, i, j), new, m as nat)
                } else {
                    links(g, i, j)
                },
        decreases ch.len() - k,
    {
        let x: u32 = chosen[k];
        let ghost h = graph_of(nodes@);
        proof {
            assert(ch.contains(x));
            assert(h[x as int] == nodes@[x as int]@);
            assert(!ch.take(k as int).contains(x)) by {
                if ch.take(k as int).contains(x) {
                    let j = ch.take(k as int).index_of(x);
                    assert(ch[j] == x);
                }
            }
            assert(links(h, x as int, l as int) == links(g, x as int, l as int));
            assert(nodes@[x as int]@.links[l as int] == nodes@[x as int].neighbors@[l as int]@);
        }
        let mut list: Vec<u32> = nodes[x as usize].neighbors[l].clone();
        assert(list@ =~= links(g, x as int, l as int));
        list.push(new);
        if list.len() > m {
            let mut cands: Vec<(u32, u32)> = Vec::new();
            let mut i: usize = 0;
            proof {
                assert forall|j: int| 0 <= j < list@.len() implies #[trigger] list@[j] < g.len() by {
                    if j < list@.len() - 1 {
                        assert(links(g, x as int, l as int).contains(list@[j]));
                    }
                }
                assert(apartness(*kernel, metric, h) =~= apart);
            }
            while i < list.len()
                invariant
                    is_kernel(*kernel),
                    h == graph_of(nodes@),
                    sound(h, dim),
                    apart == apartness(*kernel, metric, h),
                    x < h.len(),
                    forall|j: int| 0 <= j < list@.len() ==> #[trigger] list@[j] < h.len(),
                    i <= list@.len(),
                    cands@.len() == i,
                    forall|j: int| 0 <= j < i ==> #[trigger] cands@[j] == (apart(x, list@[j]), list@[j]),
                decreases list@.len() - i,
            {
                let y: u32 = list[i];
                assert(h[x as int].vector.len() == dim);
                assert(h[y as int].vector.len() == dim);
                let d: u32 = rank_of(
                    distance(
                        kernel,
                        metric,
                        nodes[x as usize].vector.as_slice(),
                        nodes[y as usize].vector.as_slice(),
                    ),
                );
                cands.push((d, y));
                i = i + 1;
            }
            assert(cands@ =~= pairs(apart, x, list@));
            let kept: Vec<u32> = select_neighbors_heuristic(
                kernel,
                metric,
                nodes,
                &cands,
                m,
                Ghost(dim),
            );
            assert(kept@ == relinked(apart, x, links(g, x as int, l as int), new, m as nat));
            set_links(nodes, x as usize, l, kept);
        } else {
            assert(list@ == relinked(apart, x, links(g, x as int, l as int), new, m as nat));
            set_links(nodes, x as usize, l, list);
        }
        proof {
            let h2 = graph_of(nodes@);
            let t = ch.take(k + 1);
            assert forall|v: u32| t.contains(v) <==> ch.take(k as int).contains(v) || v == x by {
                if t.contains(v) {
                    let j = t.index_of(v);
                    if j < k {
                        assert(ch.take(k as int)[j] == v);
                    }
                }
                if ch.take(k as int).contains(v) {
                    let j = ch.take(k as int).index_of(v);
                    assert(t[j] == v);
                }
                if v == x {
                    assert(t[k as int] == v);
                }
            }
            assert forall|i: int, j: int| 0 <= i < g.len() implies #[trigger] links(h2, i, j) == if j != l {
                links(g, i, j)
            } else if i == new {
                ch
            } else if 0 <= i < new && t.contains(i as u32) {
                relinked(apart, i as u32, links(g, i, j), new, m as nat)
            } else {
                links(g, i, j)
            } by {
                assert(links(h, i, j) == links(h, i, j));
            }
            wired_is_sound(apart, g, h2, l as int, new, ch, t, m as nat, dim);
        }
        k = k + 1;
    }
    assert(ch.take(k as int) =~= ch);
}

/// What a layer search finds depends on that layer's edges alone.
pub proof fn found_depends_on_layer(
    g: Seq<NodeView>,
    h: Seq<NodeView>,
    l: int,
    near: spec_fn(u32) -> u32,
    entry: u32,
    ef: nat,
    r: Seq<(u32, u32)>,
)
    requires
        g.len() == h.len(),
        forall|i: int| #[trigger] links(g, i, l) == links(h, i, l),
        layer_found(g, l, near, entry, ef, r),
    ensures
        layer_found(h, l, near, entry, ef, r),
{
    assert forall|s: Set<u32>| closed_at(h, l, s) implies closed_at(g, l, s) by {
        assert forall|c: u32, x: u32| s.contains(c) && #[trigger] links(g, c as int, l).contains(x) implies s.contains(
            x,
        ) by {
            assert(links(h, c as int, l).contains(x));
        }
    }
    assert forall|i: int| 0 <= i < r.len() implies reachable(h, l, entry, (#[trigger] r[i]).1) by {
        assert(reachable(g, l, entry, r[i].1));
        assert forall|s: Set<u32>| s.contains(entry) && #[trigger] closed_at(h, l, s) implies s.contains(r[i].1) by {
            assert(closed_at(g, l, s));
        }
    }
    assert forall|i: int, x: u32|
        0 <= i < r.len() && (r[i].0 != NOT_A_NUMBER || r.len() < ef) && #[trigger] links(
            h,
            r[i].1 as int,
            l,
        ).contains(x) implies found_nodes(r).contains(x) || crowded_out(r, ef, near(x)) by {
        assert(links(g, r[i].1 as int, l).contains(x));
    }
    beam_depends_on_layer(g, h, l, near, entry, ef, r);
}

/// From a node that reaches a layer, the layer's edges lead to such nodes only.
pub proof fn layer_stays_up(g: Seq<NodeView>, l: int, entry: u32, v: u32, dim: nat)
    requires
        sound(g, dim),
        entry < g.len(),
        l < g[entry as int].links.len(),
        reachable(g, l, entry, v),
    ensures
        v < g.len(),
        l < g[v as int].links.len(),
{
    let s = Set::new(|x: u32| x < g.len() && l < g[x as int].links.len());
    assert(closed_at(g, l, s));
    assert(s.contains(entry));
}

/// There are no more distinct nodes than nodes.
pub proof fn distinct_nodes_fit(nodes: Seq<u32>, n: nat)
    requires
        nodes.no_duplicates(),
        forall|i: int| 0 <= i < nodes.len() ==> #[trigger] nodes[i] < n,
    ensures
        nodes.len() <= n,
{
    nodes.unique_seq_to_set();
    vstd::seq_lib::seq_to_set_is_finite(nodes);
    bounded_set_len(nodes.to_set(), n);
}

/// The neighbors that the heuristic keeps come from the candidates, in their order, and
/// each is no nearer to one kept before it than to the base element.
pub proof fn kept_neighbors_stand_apart(apart: spec_fn(u32, u32) -> u32, c: Seq<(u32, u32)>, m: nat) -> (p: Seq<int>)
    ensures
        p.len() == selection(apart, c, m).len(),
        p.len() <= m,
        forall|j: int| 0 <= j < p.len() ==> 0 <= #[trigger] p[j] < c.len() && selection(apart, c, m)[j] == c[p[j]].1,
        forall|i: int, j: int| 0 <= i < j < p.len() ==> #[trigger] p[i] < #[trigger] p[j],
        forall|i: int, j: int|
            0 <= i < j < p.len() ==> {
                let (a, b) = (c[#[trigger] p[i]], c[#[trigger] p[j]]);
                apart(b.1, a.1) >= b.0 || b.0 == NOT_A_NUMBER
            },
    decreases c.len(),
{
    if c.len() == 0 {
        Seq::empty()
    } else {
        let d = c.drop_last();
        let q = kept_neighbors_stand_apart(apart, d, m);
        let kept = selection(apart, d, m);
        let n = c.len() - 1;
        if kept.len() < m && stands_apart(apart, kept, c.last().1, c.last().0) {
            let p = q.push(n);
            assert forall|i: int, j: int| 0 <= i < j < p.len() implies {
                let (a, b) = (c[#[trigger] p[i]], c[#[trigger] p[j]]);
                apart(b.1, a.1) >= b.0 || b.0 == NOT_A_NUMBER
            } by {
                assert(p[i] == q[i]);
                assert(c[p[i]] == d[q[i]]);
                if j < q.len() {
                    assert(p[j] == q[j]);
                    assert(c[p[j]] == d[q[j]]);
                } else {
                    assert(kept[i] == d[q[i]].1);
                    assert(!below(apart(c.last().1, kept[i]), c.last().0));
                }
            }
            p
        } else {
            q
        }
    }
}

/// A candidate that the heuristic leaves out is left out because enough are kept, or
/// because it is nearer to a kept one than to the base element.
pub proof fn left_out_candidate_is_covered(apart: spec_fn(u32, u32) -> u32, c: Seq<(u32, u32)>, m: nat, t: int)
    requires
        0 <= t < c.len(),
    ensures
        ({
            let kept = selection(apart, c, m);
            ||| kept.contains(c[t].1)
            ||| kept.len() >= m
            ||| exists|i: int| 0 <= i < kept.len() && apart(c[t].1, #[trigger] kept[i]) < c[t].0
        }),
    decreases c.len(),
{
    let d = c.drop_last();
    let kept = selection(apart, d, m);
    let all = selection(apart, c, m);
    assert(forall|i: int| 0 <= i < kept.len() ==> all[i] == kept[i]);
    if t < d.len() {
        left_out_candidate_is_covered(apart, d, m, t);
        assert(d[t] == c[t]);
        if kept.contains(c[t].1) {
            assert(all[kept.index_of(c[t].1)] == c[t].1);
        } else if kept.len() < m {
            let i = choose|i: int| 0 <= i < kept.len() && apart(c[t].1, #[trigger] kept[i]) < c[t].0;
            assert(all[i] == kept[i]);
        }
    } else {
        if kept.len() < m {
            if stands_apart(apart, kept, c.last().1, c.last().0) {
                assert(all[kept.len() as int] == c[t].1);
            } else {
                let i = choose|i: int| 0 <= i < kept.len() && below(apart(c[t].1, #[trigger] kept[i]), c[t].0);
                assert(apart(c[t].1, all[i]) < c[t].0);
            }
        }
    }
}

/// A list with room for one more takes the new neighbor and keeps the others; a full one
/// is cut down to its bound and is not left empty.
pub proof fn list_takes_the_new_neighbor(apart: spec_fn(u32, u32) -> u32, x: u32, list: Seq<u32>, new: u32, m: nat)
    ensures
        list.len() < m ==> relinked(apart, x, list, new, m) == list.push(new),
        relinked(apart, x, list, new, m).len() <= m,
        m > 0 ==> relinked(apart, x, list, new, m).len() > 0,
{
    pruned_bounds(apart, pairs(apart, x, list.push(new)), m);
}

/// A link is made both ways: the new node lists its chosen neighbors, each of them that
/// had room lists it besides what it listed, and nobody else's list changes.
pub proof fn links_are_made_both_ways(
    apart: spec_fn(u32, u32) -> u32,
    i: int,
    before: Seq<u32>,
    new: u32,
    chosen: Seq<u32>,
    m: nat,
)
    ensures
        i == new ==> links_after(apart, i, before, new, chosen, m) == chosen,
        0 <= i < new && chosen.contains(i as u32) && before.len() < m ==> links_after(
            apart,
            i,
            before,
            new,
            chosen,
            m,
        ) == before.push(new),
        0 <= i < new && chosen.contains(i as u32) && before.len() >= m ==> links_after(
            apart,
            i,
            before,
            new,
            chosen,
            m,
        ).len() <= m,
        0 <= i < new && !chosen.contains(i as u32) ==> links_after(apart, i, before, new, chosen, m) == before,
{
    if 0 <= i < new && chosen.contains(i as u32) {
        list_takes_the_new_neighbor(apart, i as u32, before, new, m);
    }
}

/// A full search of distances that are numbers leaves out, of the entry and of the
/// neighbors of what it found, only nodes that are no nearer than all that it found.
pub proof fn full_search_leaves_out_the_farther(
    g: Seq<NodeView>,
    l: int,
    near: spec_fn(u32) -> u32,
    entry: u32,
    ef: nat,
    r: Seq<(u32, u32)>,
    i: int,
    x: u32,
)
    requires
        layer_found(g, l, near, entry, ef, r),
        forall|j: int| 0 <= j < r.len() ==> (#[trigger] r[j]).0 != 0xFFFF_FFFFu32,
        0 <= i < r.len(),
        x == entry || links(g, r[i].1 as int, l).contains(x),
        forall|j: int| 0 <= j < r.len() ==> (#[trigger] r[j]).1 != x,
    ensures
        r.len() == ef,
        forall|j: int| 0 <= j < r.len() ==> (#[trigger] r[j]).0 <= near(x),
{
    assert(!found_nodes(r).contains(x)) by {
        if found_nodes(r).contains(x) {
            let j = found_nodes(r).index_of(x);
            assert(r[j].1 == x);
        }
    }
}

/// The greedy walk ends at a node that none of its neighbors is nearer than, and no
/// farther than where it began.
pub proof fn greedy_walk_ends_nearest(
    g: Seq<NodeView>,
    l: int,
    near: spec_fn(u32) -> u32,
    entry: u32,
    r: u32,
    x: u32,
)
    requires
        settled(g, l, near, entry, r),
    ensures
        r == entry || near(r) < near(entry),
        reachable(g, l, entry, r),
        links(g, r as int, l).contains(x) ==> near(x) >= near(r) || near(r) == 0xFFFF_FFFFu32,
{
}

/// `p` says where each of `r` stands in `c`: each of `c` once, and those that are equally
/// near in their order.
pub open spec fn reorders(c: Seq<(u32, u32)>, r: Seq<(u32, u32)>, p: Seq<int>) -> bool {
    &&& p.len() == c.len()
    &&& r.len() == c.len()
    &&& p.no_duplicates()
    &&& forall|i: int| 0 <= i < p.len() ==> 0 <= #[trigger] p[i] < c.len() && r[i] == c[p[i]]
    &&& forall|i: int, j: int|
        0 <= i < j < p.len() ==> c[#[trigger] p[i]].0 < c[#[trigger] p[j]].0 || (c[p[i]].0 == c[p[j]].0 && p[i] < p[j])
}

proof fn ranking_reorders(c: Seq<(u32, u32)>) -> (p: Seq<int>)
    ensures
        reorders(c, by_rank(c), p),
    decreases c.len(),
{
    if c.len() == 0 {
        Seq::empty()
    } else {
        let d = c.drop_last();
        let n = c.len() - 1;
        let q = ranking_reorders(d);
        let s = by_rank(d);
        let at = rank_in(s, c.last().0);
        rank_in_bounds(s, c.last().0);
        by_rank_keeps(d);
        let p = q.insert(at, n);
        let r = by_rank(c);
        assert forall|i: int| 0 <= i < p.len() implies 0 <= #[trigger] p[i] < c.len() && r[i] == c[p[i]] by {
            if i < at {
                assert(p[i] == q[i]);
                assert(d[q[i]] == c[q[i]]);
            } else if i > at {
                assert(p[i] == q[i - 1]);
                assert(d[q[i - 1]] == c[q[i - 1]]);
            }
        }
        assert forall|i: int, j: int| 0 <= i < j < p.len() implies c[#[trigger] p[i]].0 < c[#[trigger] p[j]].0 || (
        c[p[i]].0 == c[p[j]].0 && p[i] < p[j]) by {
            let (a, b) = (if i < at { i } else { i - 1 }, if j < at { j } else { j - 1 });
            if i == at {
                assert(p[j] == q[j - 1]);
                assert(d[q[j - 1]] == c[q[j - 1]]);
                assert(s[j - 1].0 > c.last().0);
            } else if j == at {
                assert(p[i] == q[i]);
                assert(d[q[i]] == c[q[i]]);
                assert(s[i].0 <= s[at - 1].0);
            } else {
                assert(p[i] == q[a] && p[j] == q[b]);
                assert(d[q[a]] == c[q[a]] && d[q[b]] == c[q[b]]);
            }
        }
        assert(p.no_duplicates()) by {
            assert forall|i: int, j: int| 0 <= i < p.len() && 0 <= j < p.len() && i != j implies p[i] != p[j] by {
                if i < j {
                    assert(c[p[i]].0 < c[p[j]].0 || p[i] < p[j]);
                } else {
                    assert(c[p[j]].0 < c[p[i]].0 || p[j] < p[i]);
                }
            }
        }
        p
    }
}

/// The heuristic goes through candidates whose distances are numbers nearest first, and
/// through equally near ones in their order; none is dropped before that.
pub proof fn candidates_are_taken_nearest_first(c: Seq<(u32, u32)>) -> (p: Seq<int>)
    requires
        forall|i: int| 0 <= i < c.len() ==> (#[trigger] c[i]).0 != 0xFFFF_FFFFu32,
    ensures
        reorders(c, by_nearness(c), p),
{
    if undecided(c) {
        let p = Seq::new(c.len(), |i: int| i);
        assert forall|i: int, j: int| 0 <= i < j < p.len() implies c[#[trigger] p[i]].0 < c[#[trigger] p[j]].0 || (
        c[p[i]].0 == c[p[j]].0 && p[i] < p[j]) by {
            assert(!below(c[i].0, c[j].0) && !below(c[j].0, c[i].0));
        }
        p
    } else {
        ranking_reorders(c)
    }
}

/// How near a node is to a query, and how far apart two nodes are, is what the kernel
/// scores their vectors with.
pub proof fn nearness_is_the_kernels<D: Fn(Metric, &[u32], &[u32]) -> u32>(
    d: D,
    m: Metric,
    g: Seq<NodeView>,
    q: Seq<u32>,
    a: u32,
    b: u32,
)
    requires
        a < g.len(),
        b < g.len(),
    ensures
        nearness(d, m, g, q)(a) == rank(score(d, m, g[a as int].vector, q)),
        apartness(d, m, g)(a, b) == rank(score(d, m, g[a as int].vector, g[b as int].vector)),
{
}

/// A full list takes a new neighbor that is nearer than all that it has, in first place.
pub proof fn full_list_takes_a_nearer_neighbor(
    apart: spec_fn(u32, u32) -> u32,
    x: u32,
    list: Seq<u32>,
    new: u32,
    m: nat,
)
    requires
        0 < m <= list.len(),
        apart(x, new) != 0xFFFF_FFFFu32,
        forall|i: int|
            0 <= i < list.len() ==> apart(x, new) < apart(x, #[trigger] list[i]) && apart(x, list[i])
                != 0xFFFF_FFFFu32,
    ensures
        relinked(apart, x, list, new, m).len() > 0,
        relinked(apart, x, list, new, m)[0] == new,
{
    let more = list.push(new);
    let c = pairs(apart, x, more);
    assert forall|i: int| 0 <= i < c.len() implies (#[trigger] c[i]).0 != 0xFFFF_FFFFu32 by {
        if i < list.len() {
            assert(more[i] == list[i]);
        }
    }
    let p = candidates_are_taken_nearest_first(c);
    let s = by_nearness(c);
    let n = list.len() as int;
    assert(s[0] == c[p[0]]);
    if p[0] != n {
        permutation_reaches(p, n);
        let k = p.index_of(n);
        assert(p[k] == n);
        assert(c[p[0]].0 < c[p[k]].0 || (c[p[0]].0 == c[p[k]].0 && p[0] < p[k]));
        assert(more[p[0]] == list[p[0]]);
    }
    selection_bounds(apart, s, m);
}

proof fn permutation_reaches(p: Seq<int>, n: int)
    requires
        p.no_duplicates(),
        forall|i: int| 0 <= i < p.len() ==> 0 <= #[trigger] p[i] < p.len(),
        0 <= n < p.len(),
    ensures
        p.contains(n),
{
    let all = vstd::set_lib::set_int_range(0, p.len() as int);
    vstd::set_lib::lemma_int_range(0, p.len() as int);
    p.unique_seq_to_set();
    assert(p.to_set().subset_of(all)) by {
        assert forall|x: int| p.to_set().contains(x) implies all.contains(x) by {
            let a = p.index_of(x);
            assert(p[a] == x);
        }
    }
    vstd::set_lib::lemma_subset_equality(p.to_set(), all);
    assert(all.contains(n));
}

} // verus!
