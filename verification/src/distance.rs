//! Distances between vectors.
//!
//! A vector is held as the bit patterns of its `f32` components, and a distance as
//! the bit pattern of an `f32`. The arithmetic itself is a kernel that the caller
//! supplies; what is stated here is how distances compare.

use vstd::prelude::*;

verus! {

/// Distance metric. Smaller is closer under each of them.
#[derive(Debug, Clone, Copy, PartialEq, Eq, Structural)]
pub enum Metric {
    /// Squared Euclidean distance.
    L2,
    /// Cosine distance: one minus the cosine similarity.
    Cosine,
}

/// The rank of what is not a number. It is only a mark: such a distance is neither below
/// nor above any other (see [`below`]).
pub const NOT_A_NUMBER: u32 = 0xFFFF_FFFF;

/// The rank of a distance given as the bit pattern of an `f32`: numbers rank by
/// their value, both zeros alike.
pub open spec fn rank(bits: u32) -> u32 {
    let magnitude = bits % 0x8000_0000;
    if magnitude > 0x7F80_0000 {
        NOT_A_NUMBER
    } else if bits >= 0x8000_0000 {
        (0x8000_0000 - magnitude) as u32
    } else {
        (0x8000_0000 + magnitude) as u32
    }
}

/// The rank of a distance.
pub fn rank_of(bits: u32) -> (r: u32)
    ensures
        r == rank(bits),
{
    let magnitude: u32 = bits % 0x8000_0000;
    if magnitude > 0x7F80_0000 {
        NOT_A_NUMBER
    } else if bits >= 0x8000_0000 {
        0x8000_0000 - magnitude
    } else {
        0x8000_0000 + magnitude
    }
}

/// A distance of rank `a` is less than one of rank `b`. What is not a number is not less
/// than anything, and nothing is less than it.
pub open spec fn below(a: u32, b: u32) -> bool {
    a < b && b != NOT_A_NUMBER
}

/// Whether a distance of rank `a` is less than one of rank `b`.
pub fn is_below(a: u32, b: u32) -> (r: bool)
    ensures
        r == below(a, b),
{
    a < b && b != NOT_A_NUMBER
}

/// The distance `a` is less than the distance `b`.
pub open spec fn less(a: u32, b: u32) -> bool {
    below(rank(a), rank(b))
}

/// The distance is a number.
pub open spec fn is_number(bits: u32) -> bool {
    rank(bits) != NOT_A_NUMBER
}

/// Non-negative numbers rank as their bit patterns do, negative ones the other way
/// round and below them.
pub proof fn rank_follows_value(a: u32, b: u32)
    requires
        a % 0x8000_0000 <= 0x7F80_0000,
        b % 0x8000_0000 <= 0x7F80_0000,
    ensures
        a < 0x8000_0000 && b < 0x8000_0000 ==> (rank(a) < rank(b) <==> a < b),
        a >= 0x8000_0000 && b >= 0x8000_0000 ==> (rank(a) < rank(b) <==> a > b),
        a >= 0x8000_0000 && b < 0x8000_0000 ==> rank(a) <= rank(b),
        is_number(a),
{
}

/// `d` can be called on any two vectors of one length, and what it returns depends
/// on the metric and the components alone.
pub open spec fn is_kernel<D: Fn(Metric, &[u32], &[u32]) -> u32>(d: D) -> bool {
    &&& forall|m: Metric, a: &[u32], b: &[u32]|
        a@.len() == b@.len() ==> #[trigger] call_requires(d, (m, a, b))
    &&& forall|m: Metric, a: &[u32], b: &[u32], x: &[u32], y: &[u32], r: u32, s: u32|
        #[trigger] call_ensures(d, (m, a, b), r) && #[trigger] call_ensures(d, (m, x, y), s) && a@
            == x@ && b@ == y@ ==> r == s
}

/// `d` may return `r` for vectors with the components `a` and `b`.
pub open spec fn yields<D: Fn(Metric, &[u32], &[u32]) -> u32>(
    d: D,
    m: Metric,
    a: Seq<u32>,
    b: Seq<u32>,
    r: u32,
) -> bool {
    exists|x: &[u32], y: &[u32]| x@ == a && y@ == b && #[trigger] call_ensures(d, (m, x, y), r)
}

/// What the kernel `d` returns for vectors with the components `a` and `b`.
pub open spec fn score<D: Fn(Metric, &[u32], &[u32]) -> u32>(
    d: D,
    m: Metric,
    a: Seq<u32>,
    b: Seq<u32>,
) -> u32 {
    choose|r: u32| yields(d, m, a, b, r)
}

/// The distance between two vectors under metric `m`.
pub fn distance<D: Fn(Metric, &[u32], &[u32]) -> u32>(d: &D, m: Metric, a: &[u32], b: &[u32]) -> (r:
    u32)
    requires
        is_kernel(*d),
        a@.len() == b@.len(),
    ensures
        r == score(*d, m, a@, b@),
{
    let r: u32 = d(m, a, b);
    assert(yields(*d, m, a@, b@, r));
    r
}

/// The value of a number's bit pattern on a scale that keeps the order of the numbers:
/// the magnitude, negative where the sign bit is set.
pub open spec fn signed(bits: u32) -> int {
    if bits >= 0x8000_0000 {
        0x8000_0000 - bits
    } else {
        bits as int
    }
}

/// Distances that are numbers compare by their values, both zeros alike; what is not a
/// number is not less than anything and nothing is less than it.
pub proof fn distances_compare_by_value(a: u32, b: u32)
    ensures
        a % 0x8000_0000 <= 0x7F80_0000 && b % 0x8000_0000 <= 0x7F80_0000 ==> (less(a, b) <==> signed(a) < signed(b)),
        a % 0x8000_0000 > 0x7F80_0000 || b % 0x8000_0000 > 0x7F80_0000 ==> !less(a, b),
        is_number(a) <==> a % 0x8000_0000 <= 0x7F80_0000,
{
}

/// The score of two vectors is what the kernel returns for them under that metric.
pub proof fn score_is_the_kernels<D: Fn(Metric, &[u32], &[u32]) -> u32>(d: D, m: Metric, a: &[u32], b: &[u32], r: u32)
    requires
        is_kernel(d),
        call_ensures(d, (m, a, b), r),
    ensures
        score(d, m, a@, b@) == r,
{
    assert(yields(d, m, a@, b@, r));
    let s = score(d, m, a@, b@);
    assert(yields(d, m, a@, b@, s));
    let (x, y) = choose|x: &[u32], y: &[u32]| x@ == a@ && y@ == b@ && #[trigger] call_ensures(d, (m, x, y), s);
    assert(call_ensures(d, (m, x, y), s));
}

} // verus!
