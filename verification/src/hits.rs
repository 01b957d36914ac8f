//! Scored hits and the order in which they are returned.

use vstd::prelude::*;

use crate::distance::{is_below, rank_of};

verus! {

use crate::distance::{distances_compare_by_value, is_number, less, signed};

/// Hit `a` comes before hit `b`: it scores less, or neither scores less and it has the
/// lower id.
pub open spec fn hit_before(a: (u64, u32), b: (u64, u32)) -> bool {
    less(a.1, b.1) || (!less(b.1, a.1) && a.0 < b.0)
}

/// The hit at place `a` comes before the one at place `b`; hits of which neither comes
/// before the other keep their order.
pub open spec fn place_before(hits: Seq<(u64, u32)>, a: int, b: int) -> bool {
    hit_before(hits[a], hits[b]) || (!hit_before(hits[b], hits[a]) && a < b)
}

/// The hits can be put in order: coming before carries over. Scores that are numbers
/// always can. A score that is not a number is neither less nor more than any other, and
/// may leave the hits without an order.
#[verifier::opaque]
pub open spec fn comparable(hits: Seq<(u64, u32)>) -> bool {
    forall|a: int, b: int, c: int|
        0 <= a < hits.len() && 0 <= b < hits.len() && 0 <= c < hits.len() && #[trigger] place_before(
            hits,
            a,
            b,
        ) && #[trigger] place_before(hits, b, c) ==> place_before(hits, a, c)
}

/// Hits whose scores are numbers can be put in order.
pub proof fn numbers_are_comparable(hits: Seq<(u64, u32)>)
    requires
        forall|i: int| 0 <= i < hits.len() ==> is_number((#[trigger] hits[i]).1),
    ensures
        comparable(hits),
{
    reveal(comparable);
    assert forall|a: int, b: int, c: int|
        0 <= a < hits.len() && 0 <= b < hits.len() && 0 <= c < hits.len() && #[trigger] place_before(
            hits,
            a,
            b,
        ) && #[trigger] place_before(hits, b, c) implies place_before(hits, a, c) by {
        assert(is_number(hits[a].1) && is_number(hits[b].1) && is_number(hits[c].1));
    }
}

/// `p` lists the places of `hits`, each once, in their final order where they have one.
pub open spec fn hit_order(hits: Seq<(u64, u32)>, p: Seq<int>) -> bool {
    &&& p.len() == hits.len()
    &&& p.no_duplicates()
    &&& forall|i: int| 0 <= i < p.len() ==> 0 <= #[trigger] p[i] < hits.len()
    &&& comparable(hits) ==> forall|i: int, j: int|
        0 <= i < j < p.len() ==> place_before(hits, #[trigger] p[i], #[trigger] p[j])
}

/// `r` is the first `k` of `hits` in their final order.
pub open spec fn top_hits(hits: Seq<(u64, u32)>, k: nat, r: Seq<(u64, u32)>) -> bool {
    exists|p: Seq<int>|
        {
            &&& #[trigger] hit_order(hits, p)
            &&& r.len() == if k < hits.len() { k } else { hits.len() }
            &&& forall|i: int| 0 <= i < r.len() ==> r[i] == hits[p[i]]
        }
}

/// Every place is listed.
pub proof fn order_lists_all(hits: Seq<(u64, u32)>, p: Seq<int>, i: int)
    requires
        hit_order(hits, p),
        0 <= i < hits.len(),
    ensures
        p.contains(i),
{
    let all = vstd::set_lib::set_int_range(0, hits.len() as int);
    vstd::set_lib::lemma_int_range(0, hits.len() as int);
    p.unique_seq_to_set();
    assert(p.to_set().subset_of(all)) by {
        assert forall|x: int| p.to_set().contains(x) implies all.contains(x) by {
            let a = p.index_of(x);
            assert(p[a] == x);
        }
    }
    vstd::set_lib::lemma_subset_equality(p.to_set(), all);
    assert(all.contains(i));
}

proof fn carries_over(hits: Seq<(u64, u32)>, a: int, b: int, c: int)
    requires
        comparable(hits),
        0 <= a < hits.len(),
        0 <= b < hits.len(),
        0 <= c < hits.len(),
        place_before(hits, a, b),
        place_before(hits, b, c),
    ensures
        place_before(hits, a, c),
{
    reveal(comparable);
}

fn scores_before(a: (u64, u32), b: (u64, u32)) -> (r: bool)
    ensures
        r == hit_before(a, b),
{
    let (ra, rb): (u32, u32) = (rank_of(a.1), rank_of(b.1));
    is_below(ra, rb) || (!is_below(rb, ra) && a.0 < b.0)
}

/// Each of `a` comes before each of `b`, from place `from` on.
spec fn all_before(hits: Seq<(u64, u32)>, a: Seq<usize>, b: Seq<usize>, from: int) -> bool {
    forall|x: int, y: int|
        0 <= x < a.len() && from <= y < b.len() ==> place_before(
            hits,
            (#[trigger] a[x]) as int,
            (#[trigger] b[y]) as int,
        )
}

spec fn in_order(hits: Seq<(u64, u32)>, p: Seq<usize>) -> bool {
    forall|i: int, j: int|
        0 <= i < j < p.len() ==> place_before(hits, (#[trigger] p[i]) as int, (#[trigger] p[j]) as int)
}

/// Places from `lo` to `hi`, each once, in the final order of their hits.
spec fn places_ordered(hits: Seq<(u64, u32)>, p: Seq<usize>, lo: int, hi: int) -> bool {
    &&& p.no_duplicates()
    &&& forall|i: int| 0 <= i < p.len() ==> lo <= #[trigger] p[i] < hi
    &&& comparable(hits) ==> in_order(hits, p)
}

/// The places from `lo` to `hi` in the final order of their hits.
fn order_places(hits: &Vec<(u64, u32)>, lo: usize, hi: usize) -> (p: Vec<usize>)
    requires
        lo <= hi <= hits@.len(),
    ensures
        p@.len() == hi - lo,
        places_ordered(hits@, p@, lo as int, hi as int),
    decreases hi - lo,
{
    let mut out: Vec<usize> = Vec::new();
    if hi - lo <= 1 {
        if lo < hi {
            out.push(lo);
        }
        return out;
    }
    let mid: usize = lo + (hi - lo) / 2;
    let left: Vec<usize> = order_places(hits, lo, mid);
    let right: Vec<usize> = order_places(hits, mid, hi);
    let mut i: usize = 0;
    let mut j: usize = 0;
    while i < left.len() || j < right.len()
        invariant
            lo <= mid <= hi <= hits@.len(),
            left@.len() == mid - lo,
            right@.len() == hi - mid,
            places_ordered(hits@, left@, lo as int, mid as int),
            places_ordered(hits@, right@, mid as int, hi as int),
            i <= left@.len(),
            j <= right@.len(),
            out@.len() == i + j,
            places_ordered(hits@, out@, lo as int, hi as int),
            forall|x: int|
                0 <= x < out@.len() ==> left@.take(i as int).contains(#[trigger] out@[x])
                    || right@.take(j as int).contains(out@[x]),
            comparable(hits@) ==> all_before(hits@, out@, left@, i as int) && all_before(
                hits@,
                out@,
                right@,
                j as int,
            ),
        decreases left@.len() - i + right@.len() - j,
    {
        let from_left: bool = if i >= left.len() {
            false
        } else if j >= right.len() {
            true
        } else {
            !scores_before(hits[right[j]], hits[left[i]])
        };
        let ghost before = out@;
        let ghost (i0, j0) = (i as int, j as int);
        if from_left {
            out.push(left[i]);
            i = i + 1;
        } else {
            out.push(right[j]);
            j = j + 1;
        }
        proof {
            let n = before.len() as int;
            let z = out@[n];
            let h = hits@;
            assert forall|x: int| 0 <= x < out@.len() implies left@.take(i as int).contains(
                #[trigger] out@[x],
            ) || right@.take(j as int).contains(out@[x]) by {
                if x < n {
                    assert(out@[x] == before[x]);
                    if left@.take(i0).contains(before[x]) {
                        let y = left@.take(i0).index_of(before[x]);
                        assert(left@.take(i as int)[y] == before[x]);
                    } else {
                        let y = right@.take(j0).index_of(before[x]);
                        assert(right@.take(j as int)[y] == before[x]);
                    }
                } else if from_left {
                    assert(left@.take(i as int)[i0] == z);
                } else {
                    assert(right@.take(j as int)[j0] == z);
                }
            }
            assert(!before.contains(z)) by {
                if before.contains(z) {
                    let x = before.index_of(z);
                    assert(before[x] == z);
                    if left@.take(i0).contains(z) {
                        let y = left@.take(i0).index_of(z);
                        assert(left@[y] == z);
                    } else {
                        let y = right@.take(j0).index_of(z);
                        assert(right@[y] == z);
                    }
                }
            }
            assert(out@.no_duplicates()) by {
                assert forall|x: int, y: int| 0 <= x < out@.len() && 0 <= y < out@.len() && x != y implies out@[x]
                    != out@[y] by {
                    if x < n {
                        assert(before.contains(before[x]));
                    }
                    if y < n {
                        assert(before.contains(before[y]));
                    }
                }
            }
            if comparable(h) {
                assert forall|y: int| i <= y < left@.len() implies place_before(
                    h,
                    z as int,
                    (#[trigger] left@[y]) as int,
                ) by {
                    if from_left {
                        assert(place_before(h, left@[i0] as int, left@[y] as int));
                    } else {
                        assert(place_before(h, z as int, left@[i0] as int));
                        if y > i0 {
                            assert(place_before(h, left@[i0] as int, left@[y] as int));
                            carries_over(h, z as int, left@[i0] as int, left@[y] as int);
                        }
                    }
                }
                assert forall|y: int| j <= y < right@.len() implies place_before(
                    h,
                    z as int,
                    (#[trigger] right@[y]) as int,
                ) by {
                    if from_left {
                        assert(place_before(h, z as int, right@[j0] as int));
                        if y > j0 {
                            assert(place_before(h, right@[j0] as int, right@[y] as int));
                            carries_over(h, z as int, right@[j0] as int, right@[y] as int);
                        }
                    } else {
                        assert(place_before(h, right@[j0] as int, right@[y] as int));
                    }
                }
                assert forall|x: int| 0 <= x < n implies place_before(
                    h,
                    (#[trigger] before[x]) as int,
                    z as int,
                ) by {
                    if from_left {
                        assert(place_before(h, before[x] as int, left@[i0] as int));
                    } else {
                        assert(place_before(h, before[x] as int, right@[j0] as int));
                    }
                }
                assert(in_order(h, out@)) by {
                    assert forall|x: int, y: int| 0 <= x < y < out@.len() implies place_before(
                        h,
                        (#[trigger] out@[x]) as int,
                        (#[trigger] out@[y]) as int,
                    ) by {
                        assert(out@[x] == before[x]);
                        if y < n {
                            assert(out@[y] == before[y]);
                        }
                    }
                }
                assert(all_before(h, out@, left@, i as int)) by {
                    assert forall|x: int, y: int| 0 <= x < out@.len() && i <= y < left@.len() implies place_before(
                        h,
                        (#[trigger] out@[x]) as int,
                        (#[trigger] left@[y]) as int,
                    ) by {
                        if x < n {
                            assert(out@[x] == before[x]);
                        }
                    }
                }
                assert(all_before(h, out@, right@, j as int)) by {
                    assert forall|x: int, y: int| 0 <= x < out@.len() && j <= y < right@.len() implies place_before(
                        h,
                        (#[trigger] out@[x]) as int,
                        (#[trigger] right@[y]) as int,
                    ) by {
                        if x < n {
                            assert(out@[x] == before[x]);
                        }
                    }
                }
            }
        }
    }
    out
}

/// The first `k` hits by ascending score, ties by id.
pub fn first_hits(hits: &Vec<(u64, u32)>, k: usize) -> (r: Vec<(u64, u32)>)
    ensures
        top_hits(hits@, k as nat, r@),
{
    let places: Vec<usize> = order_places(hits, 0, hits.len());
    let ghost p = places@.map_values(|a: usize| a as int);
    let n: usize = if k < places.len() {
        k
    } else {
        places.len()
    };
    let mut out: Vec<(u64, u32)> = Vec::new();
    let mut i: usize = 0;
    while i < n
        invariant
            n <= places@.len(),
            places_ordered(hits@, places@, 0, hits@.len() as int),
            p == places@.map_values(|a: usize| a as int),
            i <= n,
            out@.len() == i,
            forall|j: int| 0 <= j < i ==> #[trigger] out@[j] == hits@[p[j]],
        decreases n - i,
    {
        out.push(hits[places[i]]);
        i = i + 1;
    }
    assert(hit_order(hits@, p)) by {
        assert forall|i: int, j: int| 0 <= i < p.len() && 0 <= j < p.len() && i != j implies p[i] != p[j] by {
            assert(places@[i] != places@[j]);
        }
        if comparable(hits@) {
            assert forall|i: int, j: int| 0 <= i < j < p.len() implies place_before(
                hits@,
                #[trigger] p[i],
                #[trigger] p[j],
            ) by {
                assert(place_before(hits@, places@[i] as int, places@[j] as int));
            }
        }
    }
    out
}

/// Hits whose scores are numbers are ordered by score, and by id among equal scores.
pub proof fn hits_are_ordered_by_score_then_id(a: (u64, u32), b: (u64, u32))
    requires
        a.1 % 0x8000_0000 <= 0x7F80_0000,
        b.1 % 0x8000_0000 <= 0x7F80_0000,
    ensures
        hit_before(a, b) <==> signed(a.1) < signed(b.1) || (signed(a.1) == signed(b.1) && a.0 < b.0),
{
    distances_compare_by_value(a.1, b.1);
    distances_compare_by_value(b.1, a.1);
}

/// The first `k` hits are as many as asked for or all, come in order of score and then
/// id, and leave out no hit that would come before one of them.
pub proof fn first_hits_are_the_best(hits: Seq<(u64, u32)>, k: nat, r: Seq<(u64, u32)>) -> (p: Seq<int>)
    requires
        top_hits(hits, k, r),
        forall|i: int| 0 <= i < hits.len() ==> (#[trigger] hits[i]).1 % 0x8000_0000 <= 0x7F80_0000,
    ensures
        r.len() == if k < hits.len() { k } else { hits.len() },
        p.len() == hits.len(),
        p.no_duplicates(),
        forall|i: int| 0 <= i < p.len() ==> 0 <= #[trigger] p[i] < hits.len(),
        forall|i: int| 0 <= i < r.len() ==> #[trigger] r[i] == hits[p[i]],
        forall|i: int, j: int|
            0 <= i < j < hits.len() ==> {
                let (a, b) = (hits[#[trigger] p[i]], hits[#[trigger] p[j]]);
                signed(a.1) < signed(b.1) || (signed(a.1) == signed(b.1) && a.0 <= b.0)
            },
{
    assert forall|i: int| 0 <= i < hits.len() implies is_number((#[trigger] hits[i]).1) by {
        distances_compare_by_value(hits[i].1, 0);
    }
    numbers_are_comparable(hits);
    let p = choose|p: Seq<int>|
        {
            &&& #[trigger] hit_order(hits, p)
            &&& r.len() == if k < hits.len() { k } else { hits.len() }
            &&& forall|i: int| 0 <= i < r.len() ==> r[i] == hits[p[i]]
        };
    assert forall|i: int, j: int| 0 <= i < j < hits.len() implies {
        let (a, b) = (hits[#[trigger] p[i]], hits[#[trigger] p[j]]);
        signed(a.1) < signed(b.1) || (signed(a.1) == signed(b.1) && a.0 <= b.0)
    } by {
        assert(place_before(hits, p[i], p[j]));
        hits_are_ordered_by_score_then_id(hits[p[i]], hits[p[j]]);
        hits_are_ordered_by_score_then_id(hits[p[j]], hits[p[i]]);
    }
    p
}

} // verus!
