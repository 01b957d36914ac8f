//! What the searches on a layer do, step by step. The steps are determined, so a search
//! is a function of the graph, the query and where it starts.

use vstd::prelude::*;

verus! {

use crate::distance::{below, NOT_A_NUMBER};
use crate::graph::{found_nodes, links, NodeView};

/// Node `a` comes before node `b` in the heaps of a search: it is nearer, or neither is
/// nearer and it has the lower index.
///
/// Where some distances are not numbers this need not be transitive.
pub open spec fn comes_first(near: spec_fn(u32) -> u32, a: u32, b: u32) -> bool {
    below(near(a), near(b)) || (!below(near(b), near(a)) && a < b)
}

/// Node `a` ranks before node `b`: its nearness has the lower rank, or the same with the
/// lower index. Among numbers this is [`comes_first`].
pub open spec fn ranks_first(near: spec_fn(u32) -> u32, a: u32, b: u32) -> bool {
    near(a) < near(b) || (near(a) == near(b) && a < b)
}

/// `v` comes before all others of `s`.
pub open spec fn is_first(near: spec_fn(u32) -> u32, s: Set<u32>, v: u32) -> bool {
    s.contains(v) && forall|w: u32| #[trigger] s.contains(w) ==> w == v || comes_first(near, v, w)
}

/// `v` is the node of `s` to go on with: the one that comes before all others, and where
/// distances that are not numbers leave none, the one that ranks lowest.
pub open spec fn picked_first(near: spec_fn(u32) -> u32, s: Set<u32>, v: u32) -> bool {
    ||| is_first(near, s, v)
    ||| {
        &&& forall|w: u32| !is_first(near, s, w)
        &&& s.contains(v)
        &&& forall|w: u32| #[trigger] s.contains(w) ==> w == v || ranks_first(near, v, w)
    }
}

/// The nearest of `s`.
pub open spec fn first_of(near: spec_fn(u32) -> u32, s: Set<u32>) -> u32 {
    choose|v: u32| picked_first(near, s, v)
}

/// `v` comes after all others of `s`.
pub open spec fn is_last(near: spec_fn(u32) -> u32, s: Set<u32>, v: u32) -> bool {
    s.contains(v) && forall|w: u32| #[trigger] s.contains(w) ==> w == v || comes_first(near, w, v)
}

/// `v` is the node of `s` to give up: the one that comes after all others, and where
/// distances that are not numbers leave none, the one that ranks highest.
pub open spec fn picked_last(near: spec_fn(u32) -> u32, s: Set<u32>, v: u32) -> bool {
    ||| is_last(near, s, v)
    ||| {
        &&& forall|w: u32| !is_last(near, s, w)
        &&& s.contains(v)
        &&& forall|w: u32| #[trigger] s.contains(w) ==> w == v || ranks_first(near, w, v)
    }
}

/// The farthest of `s`.
pub open spec fn last_of(near: spec_fn(u32) -> u32, s: Set<u32>) -> u32 {
    choose|v: u32| picked_last(near, s, v)
}

/// A set has one nearest element.
pub proof fn first_is_unique(near: spec_fn(u32) -> u32, s: Set<u32>, v: u32)
    requires
        picked_first(near, s, v),
    ensures
        first_of(near, s) == v,
{
    let w = first_of(near, s);
    assert(picked_first(near, s, w));
    assert(s.contains(v) && s.contains(w));
}

/// A set has one farthest element.
pub proof fn last_is_unique(near: spec_fn(u32) -> u32, s: Set<u32>, v: u32)
    requires
        picked_last(near, s, v),
    ensures
        last_of(near, s) == v,
{
    let w = last_of(near, s);
    assert(picked_last(near, s, w));
    assert(s.contains(v) && s.contains(w));
}

/// Where all distances are numbers, the node to go on with comes before all others, and
/// the one to give up comes after all others.
pub proof fn numbers_are_in_order(near: spec_fn(u32) -> u32, s: Set<u32>, v: u32)
    requires
        forall|w: u32| #[trigger] s.contains(w) ==> near(w) != NOT_A_NUMBER,
    ensures
        picked_first(near, s, v) ==> is_first(near, s, v),
        picked_last(near, s, v) ==> is_last(near, s, v),
{
    if picked_first(near, s, v) {
        assert forall|w: u32| #[trigger] s.contains(w) implies w == v || comes_first(near, v, w) by {
            assert(s.contains(v));
        }
    }
    if picked_last(near, s, v) {
        assert forall|w: u32| #[trigger] s.contains(w) implies w == v || comes_first(near, w, v) by {
            assert(s.contains(v));
        }
    }
}

/// A search of a layer in progress: the nodes met so far, those that wait to be
/// expanded, and the best ones.
#[verifier::ext_equal]
pub struct Beam {
    pub seen: Set<u32>,
    pub waiting: Set<u32>,
    pub best: Set<u32>,
}

/// A search that starts at `entry`.
pub open spec fn beam_start(entry: u32) -> Beam {
    Beam { seen: set![entry], waiting: set![entry], best: set![entry] }
}

/// The search after it met node `x`. A node that it met before changes nothing. Another
/// one is kept, and waits to be expanded, where fewer than `ef` are kept or it is nearer
/// than the farthest of them, which it then displaces.
pub open spec fn met(near: spec_fn(u32) -> u32, ef: nat, b: Beam, x: u32) -> Beam {
    if b.seen.contains(x) {
        b
    } else if b.best.len() < ef || below(near(x), near(last_of(near, b.best))) {
        let best = b.best.insert(x);
        Beam {
            seen: b.seen.insert(x),
            waiting: b.waiting.insert(x),
            best: if best.len() > ef {
                best.remove(last_of(near, best))
            } else {
                best
            },
        }
    } else {
        Beam { seen: b.seen.insert(x), ..b }
    }
}

/// The search after it met the nodes `xs` in order.
pub open spec fn met_all(near: spec_fn(u32) -> u32, ef: nat, b: Beam, xs: Seq<u32>) -> Beam
    decreases xs.len(),
{
    if xs.len() == 0 {
        b
    } else {
        met(near, ef, met_all(near, ef, b, xs.drop_last()), xs.last())
    }
}

/// The search is over: nothing waits, or `ef` nodes are kept and the nearest that waits
/// is farther than the farthest of them.
pub open spec fn beam_done(near: spec_fn(u32) -> u32, ef: nat, b: Beam) -> bool {
    b.waiting =~= Set::<u32>::empty() || (b.best.len() >= ef && below(
        near(last_of(near, b.best)),
        near(first_of(near, b.waiting)),
    ))
}

/// The search without the nearest node that waits.
pub open spec fn taken(near: spec_fn(u32) -> u32, b: Beam) -> Beam {
    Beam { waiting: b.waiting.remove(first_of(near, b.waiting)), ..b }
}

/// The search after it expanded the nearest node that waits.
pub open spec fn beam_step(g: Seq<NodeView>, l: int, near: spec_fn(u32) -> u32, ef: nat, b: Beam) -> Beam {
    met_all(near, ef, taken(near, b), links(g, first_of(near, b.waiting) as int, l))
}

/// The search after `n` steps, or fewer where it is over before.
pub open spec fn beam_after(
    g: Seq<NodeView>,
    l: int,
    near: spec_fn(u32) -> u32,
    ef: nat,
    b: Beam,
    n: nat,
) -> Beam
    decreases n,
{
    if n == 0 {
        b
    } else {
        let p = beam_after(g, l, near, ef, b, (n - 1) as nat);
        if beam_done(near, ef, p) {
            p
        } else {
            beam_step(g, l, near, ef, p)
        }
    }
}

/// `r` lists the nodes of `s` with their nearness, lowest rank first: nearest first, and
/// what is not a number, which could stand anywhere, last.
pub open spec fn lists(near: spec_fn(u32) -> u32, s: Set<u32>, r: Seq<(u32, u32)>) -> bool {
    &&& forall|v: u32| s.contains(v) <==> #[trigger] found_nodes(r).contains(v)
    &&& forall|i: int| 0 <= i < r.len() ==> (#[trigger] r[i]).0 == near(r[i].1)
    &&& forall|i: int, j: int|
        0 <= i < j < r.len() ==> ranks_first(near, (#[trigger] r[i]).1, (#[trigger] r[j]).1)
}

/// The search that starts at `entry` is over after `n` steps.
pub open spec fn over_after(
    g: Seq<NodeView>,
    l: int,
    near: spec_fn(u32) -> u32,
    entry: u32,
    ef: nat,
    n: nat,
) -> bool {
    beam_done(near, ef, beam_after(g, l, near, ef, beam_start(entry), n))
}

/// `r` is what the search of breadth `ef` that starts at `entry` on layer `l` has kept
/// when it is over, lowest rank first.
#[verifier::opaque]
pub open spec fn beam_found(
    g: Seq<NodeView>,
    l: int,
    near: spec_fn(u32) -> u32,
    entry: u32,
    ef: nat,
    r: Seq<(u32, u32)>,
) -> bool {
    exists|n: nat| #[trigger]
        over_after(g, l, near, entry, ef, n) && lists(
            near,
            beam_after(g, l, near, ef, beam_start(entry), n).best,
            r,
        )
}

/// A search that is over stays as it is.
proof fn over_stays(g: Seq<NodeView>, l: int, near: spec_fn(u32) -> u32, ef: nat, b: Beam, n: nat, more: nat)
    requires
        beam_done(near, ef, beam_after(g, l, near, ef, b, n)),
    ensures
        beam_after(g, l, near, ef, b, n + more) == beam_after(g, l, near, ef, b, n),
    decreases more,
{
    if more > 0 {
        over_stays(g, l, near, ef, b, n, (more - 1) as nat);
    }
}

/// A set is listed in one way.
proof fn listing_is_unique(near: spec_fn(u32) -> u32, s: Set<u32>, a: Seq<(u32, u32)>, b: Seq<(u32, u32)>)
    requires
        lists(near, s, a),
        lists(near, s, b),
    ensures
        a == b,
    decreases a.len(),
{
    if a.len() == 0 {
        if b.len() > 0 {
            assert(found_nodes(b)[0] == b[0].1);
            assert(found_nodes(b).contains(b[0].1));
            assert(found_nodes(a).contains(b[0].1));
        }
        assert(a =~= b);
    } else {
        let x = a.last();
        assert(found_nodes(a)[a.len() - 1] == x.1);
        assert(found_nodes(a).contains(x.1));
        assert(s.contains(x.1));
        assert(found_nodes(b).contains(x.1));
        assert(b.len() > 0);
        let y = b.last();
        assert(found_nodes(b)[b.len() - 1] == y.1);
        assert(found_nodes(b).contains(y.1));
        assert(s.contains(y.1));
        assert(found_nodes(a).contains(y.1));
        let i = found_nodes(a).index_of(y.1);
        let j = found_nodes(b).index_of(x.1);
        assert(a[i].1 == y.1 && b[j].1 == x.1);
        if i < a.len() - 1 {
            assert(ranks_first(near, a[i].1, a[a.len() - 1].1));
            if j < b.len() - 1 {
                assert(ranks_first(near, b[j].1, b[b.len() - 1].1));
            }
        }
        assert(x.1 == y.1);
        let t = s.remove(x.1);
        listed_without_last(near, s, a);
        listed_without_last(near, s, b);
        listing_is_unique(near, t, a.drop_last(), b.drop_last());
        assert(a[a.len() - 1].0 == near(x.1) && b[b.len() - 1].0 == near(y.1));
        assert(a =~= a.drop_last().push(x));
        assert(b =~= b.drop_last().push(y));
    }
}

proof fn listed_without_last(near: spec_fn(u32) -> u32, s: Set<u32>, r: Seq<(u32, u32)>)
    requires
        lists(near, s, r),
        r.len() > 0,
    ensures
        lists(near, s.remove(r.last().1), r.drop_last()),
{
    let d = r.drop_last();
    let x = r.last().1;
    assert forall|v: u32| s.remove(x).contains(v) <==> #[trigger] found_nodes(d).contains(v) by {
        if s.remove(x).contains(v) {
            assert(found_nodes(r).contains(v));
            let i = found_nodes(r).index_of(v);
            assert(found_nodes(r)[i] == v);
            assert(found_nodes(d)[i] == v);
        }
        if found_nodes(d).contains(v) {
            let i = found_nodes(d).index_of(v);
            assert(d[i].1 == v);
            assert(found_nodes(r)[i] == v);
            assert(found_nodes(r).contains(v));
            assert(ranks_first(near, r[i].1, r[r.len() - 1].1));
        }
    }
    assert forall|i: int| 0 <= i < d.len() implies (#[trigger] d[i]).0 == near(d[i].1) by {
        assert(d[i] == r[i]);
    }
    assert forall|i: int, j: int| 0 <= i < j < d.len() implies ranks_first(
        near,
        (#[trigger] d[i]).1,
        (#[trigger] d[j]).1,
    ) by {
        assert(d[i] == r[i] && d[j] == r[j]);
    }
}

/// A search of a layer has one result: it is determined by the graph, how near the nodes
/// are, the start and the breadth.
pub proof fn layer_search_is_determined(
    g: Seq<NodeView>,
    l: int,
    near: spec_fn(u32) -> u32,
    entry: u32,
    ef: nat,
    a: Seq<(u32, u32)>,
    b: Seq<(u32, u32)>,
)
    requires
        beam_found(g, l, near, entry, ef, a),
        beam_found(g, l, near, entry, ef, b),
    ensures
        a == b,
{
    reveal(beam_found);
    let start = beam_start(entry);
    let n = choose|n: nat| #[trigger]
        over_after(g, l, near, entry, ef, n) && lists(near, beam_after(g, l, near, ef, start, n).best, a);
    let m = choose|m: nat| #[trigger]
        over_after(g, l, near, entry, ef, m) && lists(near, beam_after(g, l, near, ef, start, m).best, b);
    if n <= m {
        over_stays(g, l, near, ef, start, n, (m - n) as nat);
    } else {
        over_stays(g, l, near, ef, start, m, (n - m) as nat);
    }
    listing_is_unique(near, beam_after(g, l, near, ef, start, n).best, a, b);
}

/// A search sees only the links of its layer.
pub proof fn beam_depends_on_layer(
    g: Seq<NodeView>,
    h: Seq<NodeView>,
    l: int,
    near: spec_fn(u32) -> u32,
    entry: u32,
    ef: nat,
    r: Seq<(u32, u32)>,
)
    requires
        beam_found(g, l, near, entry, ef, r),
        forall|i: int| #[trigger] links(g, i, l) == links(h, i, l),
    ensures
        beam_found(h, l, near, entry, ef, r),
{
    reveal(beam_found);
    let start = beam_start(entry);
    let n = choose|n: nat| #[trigger]
        over_after(g, l, near, entry, ef, n) && lists(near, beam_after(g, l, near, ef, start, n).best, r);
    beam_same_layer(g, h, l, near, ef, start, n);
    assert(over_after(h, l, near, entry, ef, n));
}

proof fn beam_same_layer(
    g: Seq<NodeView>,
    h: Seq<NodeView>,
    l: int,
    near: spec_fn(u32) -> u32,
    ef: nat,
    b: Beam,
    n: nat,
)
    requires
        forall|i: int| #[trigger] links(g, i, l) == links(h, i, l),
    ensures
        beam_after(g, l, near, ef, b, n) == beam_after(h, l, near, ef, b, n),
    decreases n,
{
    if n > 0 {
        beam_same_layer(g, h, l, near, ef, b, (n - 1) as nat);
        let p = beam_after(g, l, near, ef, b, (n - 1) as nat);
        assert(links(g, first_of(near, p.waiting) as int, l) == links(
            h,
            first_of(near, p.waiting) as int,
            l,
        ));
    }
}

/// The first of the nearest among `v` and `xs`: `v` itself unless one of them is nearer.
pub open spec fn hop(near: spec_fn(u32) -> u32, v: u32, xs: Seq<u32>) -> u32
    decreases xs.len(),
{
    if xs.len() == 0 {
        v
    } else {
        let best = hop(near, v, xs.drop_last());
        if below(near(xs.last()), near(best)) {
            xs.last()
        } else {
            best
        }
    }
}

/// Where the greedy walk on layer `l` ends that is at `v`: it hops to the nearest
/// neighbor while that is nearer.
#[verifier::opaque]
pub open spec fn greedy_end(g: Seq<NodeView>, l: int, near: spec_fn(u32) -> u32, v: u32) -> u32
    decreases near(v),
{
    let w = hop(near, v, links(g, v as int, l));
    if below(near(w), near(v)) {
        greedy_end(g, l, near, w)
    } else {
        v
    }
}

/// `f` is the farthest of `s`, and of equally far ones that with the highest index.
pub open spec fn farthest_in(near: spec_fn(u32) -> u32, s: Set<u32>, f: u32) -> bool {
    s.contains(f) && forall|w: u32| #[trigger]
        s.contains(w) ==> near(w) < near(f) || (near(w) == near(f) && w <= f)
}

/// `c` is the nearest of `s`, and of equally near ones that with the lowest index.
pub open spec fn nearest_in(near: spec_fn(u32) -> u32, s: Set<u32>, c: u32) -> bool {
    s.contains(c) && forall|w: u32| #[trigger]
        s.contains(w) ==> near(c) < near(w) || (near(c) == near(w) && c <= w)
}

/// Among distances that are numbers, what a search gives up is the farthest and what it
/// goes on with is the nearest.
pub proof fn farthest_is_given_up(near: spec_fn(u32) -> u32, s: Set<u32>, v: u32)
    requires
        forall|w: u32| #[trigger] s.contains(w) ==> near(w) != 0xFFFF_FFFFu32,
    ensures
        farthest_in(near, s, v) ==> last_of(near, s) == v,
        nearest_in(near, s, v) ==> first_of(near, s) == v,
{
    if farthest_in(near, s, v) {
        assert(is_last(near, s, v));
        last_is_unique(near, s, v);
    }
    if nearest_in(near, s, v) {
        assert(is_first(near, s, v));
        first_is_unique(near, s, v);
    }
}

/// A search with room keeps every new node that it meets; a full one keeps it exactly
/// where it is nearer than the farthest that is kept, which it then displaces. What is
/// kept waits to be expanded, and a node that was met before changes nothing.
pub proof fn nearer_node_displaces_the_farthest(near: spec_fn(u32) -> u32, ef: nat, b: Beam, x: u32, f: u32)
    requires
        b.best.finite(),
        !b.best.contains(x),
        near(x) != 0xFFFF_FFFFu32,
        forall|w: u32| #[trigger] b.best.contains(w) ==> near(w) != 0xFFFF_FFFFu32,
        farthest_in(near, b.best, f),
    ensures
        b.seen.contains(x) ==> met(near, ef, b, x) == b,
        !b.seen.contains(x) ==> met(near, ef, b, x).seen == b.seen.insert(x),
        !b.seen.contains(x) && b.best.len() < ef ==> met(near, ef, b, x).best == b.best.insert(x) && met(
            near,
            ef,
            b,
            x,
        ).waiting == b.waiting.insert(x),
        !b.seen.contains(x) && b.best.len() == ef && near(x) < near(f) ==> met(near, ef, b, x).best
            == b.best.remove(f).insert(x) && met(near, ef, b, x).waiting == b.waiting.insert(x),
        !b.seen.contains(x) && b.best.len() == ef && near(x) >= near(f) ==> met(near, ef, b, x).best == b.best
            && met(near, ef, b, x).waiting == b.waiting,
{
    farthest_is_given_up(near, b.best, f);
    let more = b.best.insert(x);
    if near(x) < near(f) {
        assert(farthest_in(near, more, f));
        farthest_is_given_up(near, more, f);
        assert(more.remove(f) =~= b.best.remove(f).insert(x));
    }
}

/// A search of distances that are numbers is over exactly where nothing waits, or where it
/// is full and the nearest that waits is farther than the farthest that is kept.
pub proof fn search_ends_when_nothing_nearer_waits(near: spec_fn(u32) -> u32, ef: nat, b: Beam, f: u32, c: u32)
    requires
        forall|w: u32| #[trigger] b.best.contains(w) ==> near(w) != 0xFFFF_FFFFu32,
        forall|w: u32| #[trigger] b.waiting.contains(w) ==> near(w) != 0xFFFF_FFFFu32,
        farthest_in(near, b.best, f),
        nearest_in(near, b.waiting, c),
    ensures
        beam_done(near, ef, b) <==> b.best.len() >= ef && near(f) < near(c),
        taken(near, b).waiting == b.waiting.remove(c),
        taken(near, b).best == b.best,
        taken(near, b).seen == b.seen,
{
    farthest_is_given_up(near, b.best, f);
    farthest_is_given_up(near, b.waiting, c);
    assert(b.waiting.contains(c));
}

/// A hop goes to the nearest of a node and its neighbors, stays where none is nearer, and
/// takes the first of equally near neighbors.
pub proof fn hop_goes_to_the_nearest(near: spec_fn(u32) -> u32, v: u32, xs: Seq<u32>)
    requires
        near(v) != 0xFFFF_FFFFu32,
    ensures
        near(hop(near, v, xs)) <= near(v),
        forall|i: int| 0 <= i < xs.len() ==> near(hop(near, v, xs)) <= near(#[trigger] xs[i]),
        near(hop(near, v, xs)) == near(v) ==> hop(near, v, xs) == v,
        near(hop(near, v, xs)) < near(v) ==> exists|i: int|
            0 <= i < xs.len() && #[trigger] xs[i] == hop(near, v, xs) && forall|j: int|
                0 <= j < i ==> near(#[trigger] xs[j]) > near(hop(near, v, xs)),
    decreases xs.len(),
{
    if xs.len() > 0 {
        let d = xs.drop_last();
        let n = xs.len() - 1;
        hop_goes_to_the_nearest(near, v, d);
        let best = hop(near, v, d);
        let w = hop(near, v, xs);
        assert(forall|i: int| 0 <= i < n ==> d[i] == xs[i]);
        assert forall|i: int| 0 <= i < xs.len() implies near(w) <= near(#[trigger] xs[i]) by {
            if i < n {
                assert(near(best) <= near(d[i]));
            }
        }
        if near(w) < near(v) {
            if w == best && near(xs[n]) >= near(best) {
                let i = choose|i: int|
                    0 <= i < d.len() && #[trigger] d[i] == best && forall|j: int|
                        0 <= j < i ==> near(#[trigger] d[j]) > near(best);
                assert(xs[i] == w);
                assert forall|j: int| 0 <= j < i implies near(#[trigger] xs[j]) > near(w) by {
                    assert(near(d[j]) > near(best));
                }
            } else {
                assert(xs[n] == w);
                assert forall|j: int| 0 <= j < n implies near(#[trigger] xs[j]) > near(w) by {
                    assert(near(best) <= near(d[j]));
                }
            }
        }
    }
}

/// The greedy walk stays where no neighbor is nearer and otherwise goes on from the
/// nearest neighbor.
pub proof fn greedy_walk_goes_on(g: Seq<NodeView>, l: int, near: spec_fn(u32) -> u32, v: u32)
    requires
        near(v) != 0xFFFF_FFFFu32,
    ensures
        (forall|i: int| 0 <= i < links(g, v as int, l).len() ==> near(#[trigger] links(g, v as int, l)[i]) >= near(v))
            ==> greedy_end(g, l, near, v) == v,
        forall|i: int|
            0 <= i < links(g, v as int, l).len() && near(#[trigger] links(g, v as int, l)[i]) < near(v) && (forall|j: int|
                0 <= j < links(g, v as int, l).len() ==> near(links(g, v as int, l)[i]) < near(
                    #[trigger] links(g, v as int, l)[j],
                ) || (near(links(g, v as int, l)[i]) == near(links(g, v as int, l)[j]) && i <= j))
                ==> greedy_end(g, l, near, v) == greedy_end(g, l, near, links(g, v as int, l)[i]),
{
    reveal(greedy_end);
    let xs = links(g, v as int, l);
    hop_goes_to_the_nearest(near, v, xs);
    let w = hop(near, v, xs);
    assert forall|i: int|
        0 <= i < xs.len() && near(#[trigger] xs[i]) < near(v) && (forall|j: int|
            0 <= j < xs.len() ==> near(xs[i]) < near(#[trigger] xs[j]) || (near(xs[i]) == near(xs[j]) && i <= j))
        implies greedy_end(g, l, near, v) == greedy_end(g, l, near, xs[i]) by {
        assert(near(w) <= near(xs[i]));
        let k = choose|k: int|
            0 <= k < xs.len() && #[trigger] xs[k] == w && forall|j: int|
                0 <= j < k ==> near(#[trigger] xs[j]) > near(w);
        assert(xs[k] == w);
        assert(near(xs[i]) == near(w));
        assert(k <= i && i <= k);
    }
}

} // verus!
