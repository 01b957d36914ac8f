//! Little-endian numbers in byte strings.

use vstd::prelude::*;

verus! {

/// The four bytes of `v`, least significant first.
#[verifier::opaque]
pub open spec fn le32(v: u32) -> Seq<u8> {
    seq![
        (v % 256) as u8,
        (v / 256 % 256) as u8,
        (v / 65536 % 256) as u8,
        (v / 16777216) as u8,
    ]
}

/// The number whose four bytes, least significant first, are `s`.
#[verifier::opaque]
pub open spec fn de32(s: Seq<u8>) -> u32 {
    (s[0] + 256 * s[1] + 65536 * s[2] + 16777216 * s[3]) as u32
}

/// The eight bytes of `v`, least significant first.
#[verifier::opaque]
pub open spec fn le64(v: u64) -> Seq<u8> {
    le32((v % 0x1_0000_0000) as u32) + le32((v / 0x1_0000_0000) as u32)
}

/// The number whose eight bytes, least significant first, are `s`.
#[verifier::opaque]
pub open spec fn de64(s: Seq<u8>) -> u64 {
    (de32(s.subrange(0, 4)) + 0x1_0000_0000 * de32(s.subrange(4, 8))) as u64
}

/// The bytes of the numbers `v`, one after the other.
pub open spec fn le32s(v: Seq<u32>) -> Seq<u8>
    decreases v.len(),
{
    if v.len() == 0 {
        Seq::empty()
    } else {
        le32s(v.drop_last()) + le32(v.last())
    }
}

/// The first `n` numbers in the byte string `s`.
pub open spec fn de32s(s: Seq<u8>, n: nat) -> Seq<u32> {
    Seq::new(n, |i: int| de32(s.subrange(4 * i, 4 * i + 4)))
}

/// What is left of a length when it is written as a `u32`.
pub open spec fn low32(n: nat) -> u32 {
    (n % 0x1_0000_0000) as u32
}

pub broadcast proof fn le32_len(v: u32)
    ensures
        (#[trigger] le32(v)).len() == 4,
{
    reveal(le32);
}

pub broadcast proof fn le64_len(v: u64)
    ensures
        (#[trigger] le64(v)).len() == 8,
{
    reveal(le64);
    reveal(le32);
}

pub broadcast group group_le_len {
    le32_len,
    le64_len,
}

pub proof fn le32_roundtrip(v: u32)
    ensures
        le32(v).len() == 4,
        de32(le32(v)) == v,
{
    reveal(le32);
    reveal(de32);
}

pub proof fn de32_roundtrip(s: Seq<u8>)
    requires
        s.len() == 4,
    ensures
        le32(de32(s)) == s,
{
    reveal(le32);
    reveal(de32);
    let a = s[0] as int;
    let b = s[1] as int;
    let c = s[2] as int;
    let d = s[3] as int;
    let v = a + 256 * b + 65536 * c + 16777216 * d;
    assert(v % 256 == a);
    assert(v / 256 == b + 256 * c + 65536 * d);
    assert(v / 65536 == c + 256 * d);
    assert(v / 16777216 == d);
    assert(le32(de32(s)) =~= s);
}

pub proof fn le64_roundtrip(v: u64)
    ensures
        le64(v).len() == 8,
        de64(le64(v)) == v,
{
    reveal(le64);
    reveal(de64);
    broadcast use le32_len;

    let lo = (v % 0x1_0000_0000) as u32;
    let hi = (v / 0x1_0000_0000) as u32;
    le32_roundtrip(lo);
    le32_roundtrip(hi);
    assert(le64(v).subrange(0, 4) =~= le32(lo));
    assert(le64(v).subrange(4, 8) =~= le32(hi));
}

pub proof fn de64_roundtrip(s: Seq<u8>)
    requires
        s.len() == 8,
    ensures
        le64(de64(s)) == s,
{
    reveal(le64);
    reveal(de64);
    broadcast use le32_len;

    let lo = s.subrange(0, 4);
    let hi = s.subrange(4, 8);
    de32_roundtrip(lo);
    de32_roundtrip(hi);
    let v = de32(lo) + 0x1_0000_0000 * de32(hi);
    assert(v % 0x1_0000_0000 == de32(lo));
    assert(v / 0x1_0000_0000 == de32(hi));
    assert(le64(de64(s)) =~= lo + hi);
    assert(lo + hi =~= s);
}

pub proof fn le32s_len(v: Seq<u32>)
    ensures
        le32s(v).len() == 4 * v.len(),
    decreases v.len(),
{
    broadcast use le32_len;

    if v.len() > 0 {
        le32s_len(v.drop_last());
    }
}

pub proof fn le32s_push(v: Seq<u32>, x: u32)
    ensures
        le32s(v.push(x)) == le32s(v) + le32(x),
{
    assert(v.push(x).drop_last() =~= v);
}

/// The numbers written come back.
pub proof fn le32s_roundtrip(v: Seq<u32>)
    ensures
        le32s(v).len() == 4 * v.len(),
        de32s(le32s(v), v.len()) == v,
    decreases v.len(),
{
    broadcast use le32_len;

    le32s_len(v);
    if v.len() > 0 {
        let w = v.drop_last();
        le32s_roundtrip(w);
        le32_roundtrip(v.last());
        assert forall|i: int| 0 <= i < v.len() implies de32s(le32s(v), v.len())[i] == v[i] by {
            let part = le32s(v).subrange(4 * i, 4 * i + 4);
            if i < w.len() {
                assert(part =~= le32s(w).subrange(4 * i, 4 * i + 4));
                assert(de32s(le32s(w), w.len())[i] == w[i]);
            } else {
                assert(part =~= le32(v.last()));
            }
        }
    }
    assert(de32s(le32s(v), v.len()) =~= v);
}

/// Reading all the numbers of a byte string and writing them gives it back.
pub proof fn de32s_roundtrip(s: Seq<u8>, n: nat)
    requires
        s.len() == 4 * n,
    ensures
        le32s(de32s(s, n)) == s,
    decreases n,
{
    broadcast use le32_len;

    if n > 0 {
        let m = (n - 1) as nat;
        let head = s.subrange(0, 4 * m as int);
        let tail = s.subrange(4 * m as int, 4 * n as int);
        de32s_roundtrip(head, m);
        de32_roundtrip(tail);
        let v = de32s(s, n);
        assert forall|i: int| 0 <= i < m implies v.drop_last()[i] == de32s(head, m)[i] by {
            assert(head.subrange(4 * i, 4 * i + 4) =~= s.subrange(4 * i, 4 * i + 4));
        }
        assert(v.drop_last() =~= de32s(head, m));
        assert(head + tail =~= s);
    } else {
        assert(s =~= Seq::empty());
    }
}

/// Append the bytes of a number.
pub fn put_u32(out: &mut Vec<u8>, v: u32)
    ensures
        final(out)@ == old(out)@ + le32(v),
{
    reveal(le32);
    out.push((v % 256) as u8);
    out.push((v / 256 % 256) as u8);
    out.push((v / 65536 % 256) as u8);
    out.push((v / 16777216) as u8);
    assert(out@ =~= old(out)@ + le32(v));
}

/// Append the bytes of a number.
pub fn put_u64(out: &mut Vec<u8>, v: u64)
    ensures
        final(out)@ == old(out)@ + le64(v),
{
    reveal(le64);
    put_u32(out, (v % 0x1_0000_0000) as u32);
    put_u32(out, (v / 0x1_0000_0000) as u32);
    assert(out@ =~= old(out)@ + le64(v));
}

/// Append the bytes of a length, cut to 32 bits.
pub fn put_len(out: &mut Vec<u8>, n: usize)
    ensures
        final(out)@ == old(out)@ + le32(low32(n as nat)),
{
    let cut: u64 = n as u64 % 0x1_0000_0000;
    put_u32(out, cut as u32);
}

/// Append the bytes of numbers, one after the other.
pub fn put_words(out: &mut Vec<u8>, v: &[u32])
    ensures
        final(out)@ == old(out)@ + le32s(v@),
{
    let mut i: usize = 0;
    assert(out@ =~= old(out)@ + le32s(v@.take(0)));
    while i < v.len()
        invariant
            i <= v@.len(),
            out@ == old(out)@ + le32s(v@.take(i as int)),
        decreases v@.len() - i,
    {
        proof {
            le32s_push(v@.take(i as int), v@[i as int]);
            assert(v@.take(i + 1) =~= v@.take(i as int).push(v@[i as int]));
        }
        put_u32(out, v[i]);
        assert(out@ =~= old(out)@ + le32s(v@.take(i + 1)));
        i = i + 1;
    }
    assert(v@.take(i as int) =~= v@);
}

/// The number at `at`.
pub fn get_u32(s: &[u8], at: usize) -> (r: u32)
    requires
        at + 4 <= s@.len(),
    ensures
        r == de32(s@.subrange(at as int, at + 4)),
{
    reveal(de32);
    let lo: u32 = s[at] as u32 + 256 * (s[at + 1] as u32);
    let hi: u32 = s[at + 2] as u32 + 256 * (s[at + 3] as u32);
    lo + 65536 * hi
}

/// The number at `at`.
pub fn get_u64(s: &[u8], at: usize) -> (r: u64)
    requires
        at + 8 <= s@.len(),
    ensures
        r == de64(s@.subrange(at as int, at + 8)),
{
    reveal(de64);
    let len: usize = s.len();
    assert(at + 8 <= len);
    let lo: u32 = get_u32(s, at);
    let hi: u32 = get_u32(s, at + 4);
    proof {
        let part = s@.subrange(at as int, at + 8);
        assert(part.subrange(0, 4) =~= s@.subrange(at as int, at + 4));
        assert(part.subrange(4, 8) =~= s@.subrange(at + 4, at + 8));
    }
    lo as u64 + 0x1_0000_0000 * (hi as u64)
}

/// A copy of the bytes from `at` up to `end`.
pub fn get_bytes(s: &[u8], at: usize, end: usize) -> (r: Vec<u8>)
    requires
        at <= end <= s@.len(),
    ensures
        r@ == s@.subrange(at as int, end as int),
{
    let mut out: Vec<u8> = Vec::new();
    out.extend_from_slice(vstd::slice::slice_subrange(s, at, end));
    assert(out@ =~= s@.subrange(at as int, end as int));
    out
}

/// The `n` numbers that start at `at`.
pub fn get_words(s: &[u8], at: usize, n: usize) -> (r: Vec<u32>)
    requires
        at + 4 * n <= s@.len(),
    ensures
        r@ == de32s(s@.subrange(at as int, at + 4 * n), n as nat),
{
    let mut out: Vec<u32> = Vec::new();
    let mut i: usize = 0;
    let len: usize = s.len();
    let ghost part = s@.subrange(at as int, at + 4 * n);
    while i < n
        invariant
            i <= n,
            at + 4 * n <= s@.len(),
            len == s@.len(),
            part == s@.subrange(at as int, at + 4 * n),
            out@.len() == i,
            forall|j: int| 0 <= j < i ==> out@[j] == de32(#[trigger] part.subrange(4 * j, 4 * j + 4)),
        decreases n - i,
    {
        assert(part.subrange(4 * i as int, 4 * i + 4) =~= s@.subrange(at + 4 * i, at + 4 * i + 4));
        out.push(get_u32(s, at + 4 * i));
        i = i + 1;
    }
    assert(out@ =~= de32s(part, n as nat));
    out
}

} // verus!
