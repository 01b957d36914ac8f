//! Sorted runs of numbers, kept sorted as they grow.

use vstd::prelude::*;

verus! {

/// Numbers in ascending order.
pub open spec fn ascending(s: Seq<u64>) -> bool {
    forall|i: int, j: int| 0 <= i <= j < s.len() ==> s[i] <= s[j]
}

/// Put `x` in its place.
pub fn insert_sorted(v: &mut Vec<u64>, x: u64)
    requires
        ascending(old(v)@),
    ensures
        ascending(final(v)@),
        final(v)@.len() == old(v)@.len() + 1,
        forall|y: u64| final(v)@.contains(y) <==> old(v)@.contains(y) || y == x,
        old(v)@.no_duplicates() && !old(v)@.contains(x) ==> final(v)@.no_duplicates(),
{
    let mut lo: usize = 0;
    let mut hi: usize = v.len();
    while lo < hi
        invariant
            ascending(v@),
            v@ == old(v)@,
            lo <= hi <= v@.len(),
            forall|i: int| 0 <= i < lo ==> v@[i] <= x,
            forall|i: int| hi <= i < v@.len() ==> v@[i] > x,
        decreases hi - lo,
    {
        let mid: usize = lo + (hi - lo) / 2;
        if v[mid] <= x {
            lo = mid + 1;
        } else {
            hi = mid;
        }
    }
    v.insert(lo, x);
    proof {
        let a = old(v)@;
        let b = v@;
        assert forall|y: u64| b.contains(y) <==> a.contains(y) || y == x by {
            if b.contains(y) {
                let i = b.index_of(y);
                if i < lo {
                    assert(a[i] == y);
                } else if i > lo {
                    assert(a[i - 1] == y);
                }
            }
            if a.contains(y) {
                let i = a.index_of(y);
                if i < lo {
                    assert(b[i] == y);
                } else {
                    assert(b[i + 1] == y);
                }
            }
            if y == x {
                assert(b[lo as int] == y);
            }
        }
        if a.no_duplicates() && !a.contains(x) {
            assert forall|i: int, j: int| 0 <= i < b.len() && 0 <= j < b.len() && i != j implies b[i] != b[j] by {
                let p = if i < lo { i } else { i - 1 };
                let q = if j < lo { j } else { j - 1 };
                if i != lo {
                    assert(b[i] == a[p]);
                    assert(a.contains(a[p]));
                }
                if j != lo {
                    assert(b[j] == a[q]);
                    assert(a.contains(a[q]));
                }
            }
        }
    }
}

/// Take out the number at place `p`.
pub fn take_at(v: &mut Vec<u64>, p: usize) -> (r: u64)
    requires
        ascending(old(v)@),
        old(v)@.no_duplicates(),
        p < old(v)@.len(),
    ensures
        ascending(final(v)@),
        final(v)@.no_duplicates(),
        final(v)@ == old(v)@.remove(p as int),
        r == old(v)@[p as int],
        forall|y: u64| final(v)@.contains(y) <==> old(v)@.contains(y) && y != r,
{
    let r: u64 = v.remove(p);
    proof {
        let a = old(v)@;
        let b = v@;
        assert forall|i: int, j: int| 0 <= i <= j < b.len() implies b[i] <= b[j] by {
            assert(b[i] == a[if i < p { i } else { i + 1 }]);
            assert(b[j] == a[if j < p { j } else { j + 1 }]);
        }
        assert forall|i: int, j: int| 0 <= i < b.len() && 0 <= j < b.len() && i != j implies b[i] != b[j] by {
            assert(b[i] == a[if i < p { i } else { i + 1 }]);
            assert(b[j] == a[if j < p { j } else { j + 1 }]);
        }
        assert forall|y: u64| b.contains(y) <==> a.contains(y) && y != r by {
            if b.contains(y) {
                let i = b.index_of(y);
                let j = if i < p { i } else { i + 1 };
                assert(a[j] == y);
            }
            if a.contains(y) && y != r {
                let i = a.index_of(y);
                assert(b[if i < p { i } else { i - 1 }] == y);
            }
        }
    }
    r
}

} // verus!
