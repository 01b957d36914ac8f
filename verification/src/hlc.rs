//! Hybrid logical clock timestamps.
//!
//! A timestamp is 48 bits of wall-clock milliseconds and a 16-bit counter. It is
//! the per-point version for last-writer-wins. Packed into one `u64`, with the
//! wall clock in the high bits, timestamps compare as numbers.

use vstd::prelude::*;

verus! {

/// One past the largest wall-clock value, in milliseconds.
pub const WALL_LIMIT: u64 = 0x1_0000_0000_0000;

/// A hybrid logical clock timestamp: 48-bit wall ms, 16-bit counter.
#[derive(Debug, Clone, Copy, PartialEq, Eq, PartialOrd, Ord, Structural)]
pub struct Hlc {
    /// Wall-clock milliseconds, below 2^48.
    pub wall_ms: u64,
    /// Monotonic counter within a wall-ms tick.
    pub counter: u16,
}

impl Hlc {
    /// The zero timestamp (older than any real one).
    pub fn zero() -> (r: Self)
        ensures
            r == (Hlc { wall_ms: 0, counter: 0 }),
    {
        Self { wall_ms: 0, counter: 0 }
    }

    /// The wall clock fits its 48 bits.
    pub open spec fn wf(self) -> bool {
        self.wall_ms < WALL_LIMIT
    }

    /// The number that the timestamp packs into.
    pub open spec fn value(self) -> u64 {
        ((self.wall_ms % WALL_LIMIT) * 65536 + self.counter) as u64
    }

    /// The timestamp that packs into `v`.
    pub open spec fn of(v: u64) -> Hlc {
        Hlc { wall_ms: v / 65536, counter: (v % 65536) as u16 }
    }

    /// `self` is older than `other`: by wall clock first, then by counter.
    pub open spec fn older(self, other: Hlc) -> bool {
        self.wall_ms < other.wall_ms || (self.wall_ms == other.wall_ms && self.counter
            < other.counter)
    }

    pub fn new(wall_ms: u64, counter: u16) -> (r: Self)
        ensures
            r.wall_ms == wall_ms % WALL_LIMIT,
            r.counter == counter,
            r.wf(),
    {
        assert(wall_ms & 0xFFFF_FFFF_FFFF == wall_ms % 0x1_0000_0000_0000) by (bit_vector);
        Self { wall_ms: wall_ms & 0xFFFF_FFFF_FFFF, counter }
    }

    /// Pack into a single u64: 48-bit wall in the high bits, 16-bit counter low.
    /// This makes numeric comparison match logical ordering.
    pub fn pack(self) -> (r: u64)
        ensures
            r == self.value(),
            r as int == (self.wall_ms % WALL_LIMIT) * 65536 + self.counter,
    {
        let wall: u64 = self.wall_ms;
        let counter: u64 = self.counter as u64;
        assert(((wall & 0xFFFF_FFFF_FFFF) << 16u64) | counter == (wall % 0x1_0000_0000_0000) * 65536
            + counter) by (bit_vector)
            requires
                counter < 65536,
        ;
        ((wall & 0xFFFF_FFFF_FFFF) << 16) | counter
    }

    /// Unpack from the 64-bit form produced by [`Hlc::pack`].
    pub fn unpack(v: u64) -> (r: Self)
        ensures
            r == Self::of(v),
            r.wf(),
    {
        assert(v >> 16u64 == v / 65536) by (bit_vector);
        assert(v & 0xFFFF == v % 65536) by (bit_vector);
        Self { wall_ms: v >> 16, counter: (v & 0xFFFF) as u16 }
    }

    /// Whether `self` is older than `other`.
    pub fn precedes(&self, other: &Hlc) -> (r: bool)
        ensures
            r == self.older(*other),
    {
        self.wall_ms < other.wall_ms || (self.wall_ms == other.wall_ms && self.counter
            < other.counter)
    }
}

/// Unpacking what was packed gives the timestamp back, and packing what was
/// unpacked gives the number back.
pub proof fn pack_roundtrip(h: Hlc, v: u64)
    requires
        h.wf(),
    ensures
        Hlc::of(h.value()) == h,
        Hlc::of(v).value() == v,
        Hlc::of(v).wf(),
{
}

/// Timestamps compare as the numbers that they pack into.
pub proof fn pack_keeps_order(a: Hlc, b: Hlc)
    requires
        a.wf(),
        b.wf(),
    ensures
        a.older(b) <==> a.value() < b.value(),
        a == b <==> a.value() == b.value(),
{
}

/// Of two timestamps one is older, or they are the same.
pub proof fn order_is_total(a: Hlc, b: Hlc)
    ensures
        a.older(b) || b.older(a) || a == b,
        !(a.older(b) && b.older(a)),
        !a.older(a),
{
}

/// Being older carries over.
pub proof fn order_is_transitive(a: Hlc, b: Hlc, c: Hlc)
    requires
        a.older(b),
        b.older(c),
    ensures
        a.older(c),
{
}

/// The packed stamp that follows `last` when the wall clock reads `wall_ms`: the
/// wall clock where it is ahead, else the next number. The largest number has no
/// next one and stays.
pub open spec fn next_stamp(last: u64, wall_ms: u64) -> u64 {
    let wall = (wall_ms % WALL_LIMIT) * 65536;
    if wall > last {
        wall as u64
    } else if last < u64::MAX {
        (last + 1) as u64
    } else {
        last
    }
}

/// A hybrid logical clock: the last stamp that it gave out or saw.
///
/// The caller reads the wall clock and hands it in.
#[derive(Debug, Clone, Copy, PartialEq, Eq, Structural)]
pub struct HlcClock {
    last: u64,
}

impl HlcClock {
    /// The last stamp, packed.
    pub closed spec fn last(self) -> u64 {
        self.last
    }

    /// A clock that has given out no stamp yet.
    pub fn new() -> (r: Self)
        ensures
            r.last() == 0,
    {
        Self { last: 0 }
    }

    fn tick(&mut self, wall_ms: u64) -> (r: Hlc)
        ensures
            final(self).last() == next_stamp(old(self).last(), wall_ms),
            r == Hlc::of(final(self).last()),
            r.wf(),
    {
        assert((wall_ms & 0xFFFF_FFFF_FFFF) << 16u64 == (wall_ms % 0x1_0000_0000_0000) * 65536)
            by (bit_vector);
        let wall: u64 = (wall_ms & 0xFFFF_FFFF_FFFF) << 16;
        if wall > self.last {
            self.last = wall;
        } else if self.last < u64::MAX {
            self.last = self.last + 1;
        }
        Hlc::unpack(self.last)
    }

    /// Stamp a local event at wall-clock time `wall_ms`.
    pub fn now(&mut self, wall_ms: u64) -> (r: Hlc)
        ensures
            r == Hlc::of(next_stamp(old(self).last(), wall_ms)),
            final(self).last() == next_stamp(old(self).last(), wall_ms),
            r.wf(),
    {
        self.tick(wall_ms)
    }

    /// Take note of a stamp made elsewhere, so that every later stamp of this
    /// clock is newer than it.
    pub fn update(&mut self, remote: Hlc, wall_ms: u64) -> (r: Hlc)
        ensures
            r == Hlc::of(final(self).last()),
            final(self).last() == next_stamp(
                if old(self).last() < remote.value() {
                    remote.value()
                } else {
                    old(self).last()
                },
                wall_ms,
            ),
            r.wf(),
    {
        let seen: u64 = remote.pack();
        if self.last < seen {
            self.last = seen;
        }
        self.tick(wall_ms)
    }
}

/// A clock never goes back: each stamp is newer than the last one, until the
/// largest is reached, and no older than the wall clock.
pub proof fn stamps_advance(last: u64, wall_ms: u64)
    ensures
        last < u64::MAX ==> Hlc::of(last).older(Hlc::of(next_stamp(last, wall_ms))),
        next_stamp(last, wall_ms) >= last,
        !Hlc::of(next_stamp(last, wall_ms)).older(
            (Hlc { wall_ms: wall_ms % WALL_LIMIT, counter: 0 }),
        ),
{
    pack_keeps_order(Hlc::of(last), Hlc::of(next_stamp(last, wall_ms)));
    pack_roundtrip(Hlc::of(last), last);
    pack_roundtrip(Hlc::of(last), next_stamp(last, wall_ms));
    let w = Hlc { wall_ms: wall_ms % WALL_LIMIT, counter: 0 };
    pack_keeps_order(Hlc::of(next_stamp(last, wall_ms)), w);
}

} // verus!
