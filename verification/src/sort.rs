//! Sorting of numbers.

use vstd::prelude::*;

verus! {

use vstd::multiset::Multiset;

/// Numbers in ascending order.
pub open spec fn sorted(s: Seq<u128>) -> bool {
    forall|i: int, j: int| 0 <= i <= j < s.len() ==> s[i] <= s[j]
}

/// Two ascending runs of the same numbers are the same.
pub proof fn sorted_is_unique(a: Seq<u128>, b: Seq<u128>)
    requires
        sorted(a),
        sorted(b),
        a.to_multiset() == b.to_multiset(),
    ensures
        a == b,
{
    vstd::seq_lib::lemma_sorted_unique(a, b, |x: u128, y: u128| x <= y);
}

/// Two sorted runs as one.
fn merge(a: &Vec<u128>, b: &Vec<u128>) -> (r: Vec<u128>)
    requires
        sorted(a@),
        sorted(b@),
    ensures
        sorted(r@),
        r@.to_multiset() == a@.to_multiset().add(b@.to_multiset()),
{
    broadcast use vstd::seq_lib::group_to_multiset_ensures;

    let mut out: Vec<u128> = Vec::new();
    let mut i: usize = 0;
    let mut j: usize = 0;
    assert(a@.take(0).to_multiset() =~= Multiset::<u128>::empty());
    assert(b@.take(0).to_multiset() =~= Multiset::<u128>::empty());
    assert(out@.to_multiset() =~= Multiset::<u128>::empty());
    while i < a.len() || j < b.len()
        invariant
            sorted(a@),
            sorted(b@),
            i <= a@.len(),
            j <= b@.len(),
            sorted(out@),
            forall|x: int, y: int| 0 <= x < out@.len() && i <= y < a@.len() ==> out@[x] <= a@[y],
            forall|x: int, y: int| 0 <= x < out@.len() && j <= y < b@.len() ==> out@[x] <= b@[y],
            out@.to_multiset() == a@.take(i as int).to_multiset().add(
                b@.take(j as int).to_multiset(),
            ),
        decreases a@.len() - i + b@.len() - j,
    {
        broadcast use vstd::seq_lib::group_to_multiset_ensures;
        broadcast use vstd::multiset::group_multiset_axioms;

        if j >= b.len() || (i < a.len() && a[i] <= b[j]) {
            let x: u128 = a[i];
            assert(a@.take(i + 1) =~= a@.take(i as int).push(x));
            out.push(x);
            i = i + 1;
            assert(out@.to_multiset() =~= a@.take(i as int).to_multiset().add(
                b@.take(j as int).to_multiset(),
            ));
        } else {
            let x: u128 = b[j];
            assert(b@.take(j + 1) =~= b@.take(j as int).push(x));
            out.push(x);
            j = j + 1;
            assert(out@.to_multiset() =~= a@.take(i as int).to_multiset().add(
                b@.take(j as int).to_multiset(),
            ));
        }
    }
    assert(a@.take(i as int) =~= a@);
    assert(b@.take(j as int) =~= b@);
    out
}

/// The numbers of `v` in ascending order.
pub fn sort(v: &[u128]) -> (r: Vec<u128>)
    ensures
        sorted(r@),
        r@.to_multiset() == v@.to_multiset(),
        r@.len() == v@.len(),
    decreases v@.len(),
{
    broadcast use vstd::seq_lib::group_to_multiset_ensures;

    if v.len() <= 1 {
        let mut out: Vec<u128> = Vec::new();
        if v.len() == 1 {
            out.push(v[0]);
        }
        assert(out@ =~= v@);
        return out;
    }
    let mid: usize = v.len() / 2;
    let left: Vec<u128> = sort(vstd::slice::slice_subrange(v, 0, mid));
    let right: Vec<u128> = sort(vstd::slice::slice_subrange(v, mid, v.len()));
    proof {
        let a = v@.subrange(0, mid as int);
        let b = v@.subrange(mid as int, v@.len() as int);
        assert(v@ =~= a + b);
        vstd::seq_lib::lemma_multiset_commutative(a, b);
    }
    let r: Vec<u128> = merge(&left, &right);
    assert(r@.to_multiset().len() == v@.to_multiset().len());
    r
}

/// Sorting keeps what occurs.
pub proof fn same_multiset_same_elements<T>(a: Seq<T>, b: Seq<T>)
    requires
        a.to_multiset() == b.to_multiset(),
    ensures
        a.len() == b.len(),
        forall|x: T| a.contains(x) <==> b.contains(x),
        a.no_duplicates() ==> b.no_duplicates(),
{
    broadcast use vstd::seq_lib::group_to_multiset_ensures;

    a.to_multiset_ensures();
    b.to_multiset_ensures();
    assert forall|x: T| a.contains(x) <==> b.contains(x) by {
        assert(a.contains(x) <==> a.to_multiset().count(x) > 0);
        assert(b.contains(x) <==> b.to_multiset().count(x) > 0);
    }
    if a.no_duplicates() {
        a.lemma_multiset_has_no_duplicates();
        b.lemma_multiset_has_no_duplicates_conv();
    }
}

} // verus!
