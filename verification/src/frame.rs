//! Length-prefixed, checksummed frames.
//!
//! A frame is, little-endian: a `u32` with the number of bytes that follow it, the
//! CRC-32 of the body as a `u32`, and the body. A log is a run of frames. Reading
//! stops at the first frame that is cut short, fails its checksum or holds a body
//! that does not decode; what comes before it stands.

use vstd::prelude::*;

use crate::codec::{get_u32, put_len, put_u32};

verus! {

use crate::codec::{de32, de32_roundtrip, group_le_len, le32, le32_roundtrip, low32};

broadcast use group_le_len;

/// The CRC-32 (IEEE) checksum of `bytes`, as `crc32fast::hash` computes it.
pub uninterp spec fn crc32(bytes: Seq<u8>) -> u32;

/// Wraps `crc32fast::hash`. Its result is named, not spelled out: the checksum is
/// a function of the bytes alone.
#[verifier::external_body]
pub(crate) fn checksum(bytes: &[u8]) -> (r: u32)
    ensures
        r == crc32(bytes@),
{
    crc32fast::hash(bytes)
}

/// The bytes of a frame around `body` that stores the checksum `crc`.
pub open spec fn framed(body: Seq<u8>, crc: u32) -> Seq<u8> {
    le32(low32(4 + body.len())) + le32(crc) + body
}

/// The stored checksum and the body of the frame that `buf` starts with, where
/// the frame is complete.
pub open spec fn first_frame(buf: Seq<u8>) -> Option<(u32, Seq<u8>)> {
    if buf.len() < 4 {
        None
    } else {
        let n = de32(buf.subrange(0, 4)) as int;
        if n < 4 || 4 + n > buf.len() {
            None
        } else {
            Some((de32(buf.subrange(4, 8)), buf.subrange(8, 4 + n)))
        }
    }
}

/// The body of the frame that `buf` starts with, where the frame is complete and
/// its checksum is right.
pub open spec fn intact_body(buf: Seq<u8>) -> Option<Seq<u8>> {
    match first_frame(buf) {
        Some((crc, body)) => if crc == crc32(body) {
            Some(body)
        } else {
            None
        },
        None => None,
    }
}

/// What reading `buf` gives: the items of its leading intact frames whose bodies
/// decode, and how many bytes those frames take.
pub open spec fn scan<T>(buf: Seq<u8>, decode: spec_fn(Seq<u8>) -> Option<T>) -> (Seq<T>, nat)
    decreases buf.len(),
{
    match intact_body(buf) {
        None => (Seq::empty(), 0),
        Some(body) => match decode(body) {
            None => (Seq::empty(), 0),
            Some(item) => {
                let rest = scan(buf.skip(8 + body.len() as int), decode);
                (seq![item] + rest.0, (8 + body.len() + rest.1) as nat)
            },
        },
    }
}

/// The log that holds `items` in order.
pub open spec fn log<T>(items: Seq<T>, encode: spec_fn(T) -> Seq<u8>) -> Seq<u8>
    decreases items.len(),
{
    if items.len() == 0 {
        Seq::empty()
    } else {
        let body = encode(items[0]);
        framed(body, crc32(body)) + log(items.skip(1), encode)
    }
}

/// Each of `items` encodes to a body that a frame can hold and that decodes to it.
pub open spec fn codable<T>(
    items: Seq<T>,
    encode: spec_fn(T) -> Seq<u8>,
    decode: spec_fn(Seq<u8>) -> Option<T>,
) -> bool {
    forall|i: int|
        0 <= i < items.len() ==> decode(encode(#[trigger] items[i])) == Some(items[i]) && encode(
            items[i],
        ).len() + 4 < 0x1_0000_0000
}

/// A complete frame at the front of `buf` is read back as it was written.
pub proof fn frame_roundtrip(body: Seq<u8>, crc: u32, tail: Seq<u8>)
    requires
        body.len() + 4 < 0x1_0000_0000,
    ensures
        first_frame(framed(body, crc) + tail) == Some((crc, body)),
        framed(body, crc).len() == 8 + body.len(),
        (framed(body, crc) + tail).skip(8 + body.len() as int) == tail,
{
    let buf = framed(body, crc) + tail;
    le32_roundtrip(low32(4 + body.len()));
    le32_roundtrip(crc);
    assert(buf.subrange(0, 4) =~= le32(low32(4 + body.len())));
    assert(buf.subrange(4, 8) =~= le32(crc));
    assert(buf.subrange(8, 8 + body.len() as int) =~= body);
    assert(buf.skip(8 + body.len() as int) =~= tail);
}

/// A frame that was cut short is not read at all.
pub proof fn cut_frame_is_torn(body: Seq<u8>, crc: u32, k: int)
    requires
        body.len() + 4 < 0x1_0000_0000,
        0 <= k < 8 + body.len(),
    ensures
        first_frame(framed(body, crc).take(k)) is None,
{
    let buf = framed(body, crc).take(k);
    le32_roundtrip(low32(4 + body.len()));
    if k >= 4 {
        assert(buf.subrange(0, 4) =~= le32(low32(4 + body.len())));
    }
}

/// The bytes that a complete frame was read from are that frame.
pub proof fn first_frame_is_framed(buf: Seq<u8>)
    requires
        first_frame(buf) is Some,
    ensures
        ({
            let (crc, body) = first_frame(buf).unwrap();
            &&& body.len() + 4 < 0x1_0000_0000
            &&& 8 + body.len() <= buf.len()
            &&& buf.take(8 + body.len() as int) == framed(body, crc)
        }),
{
    let (crc, body) = first_frame(buf).unwrap();
    de32_roundtrip(buf.subrange(0, 4));
    de32_roundtrip(buf.subrange(4, 8));
    assert(buf.take(8 + body.len() as int) =~= framed(body, crc));
}

/// Reading a log and whatever follows it gives the log's items first.
pub proof fn scan_of_log<T>(
    items: Seq<T>,
    tail: Seq<u8>,
    encode: spec_fn(T) -> Seq<u8>,
    decode: spec_fn(Seq<u8>) -> Option<T>,
)
    requires
        codable(items, encode, decode),
    ensures
        scan(log(items, encode) + tail, decode).0 == items + scan(tail, decode).0,
        scan(log(items, encode) + tail, decode).1 == log(items, encode).len() + scan(tail, decode).1,
    decreases items.len(),
{
    let buf = log(items, encode) + tail;
    if items.len() == 0 {
        assert(buf =~= tail);
        assert(items + scan(tail, decode).0 =~= scan(tail, decode).0);
    } else {
        let body = encode(items[0]);
        let rest = log(items.skip(1), encode) + tail;
        assert(decode(encode(items[0])) == Some(items[0]));
        assert(buf =~= framed(body, crc32(body)) + rest);
        frame_roundtrip(body, crc32(body), rest);
        assert forall|i: int| 0 <= i < items.skip(1).len() implies decode(
            encode(#[trigger] items.skip(1)[i]),
        ) == Some(items.skip(1)[i]) && encode(items.skip(1)[i]).len() + 4 < 0x1_0000_0000 by {
            assert(items.skip(1)[i] == items[i + 1]);
        }
        scan_of_log(items.skip(1), tail, encode, decode);
        assert(seq![items[0]] + (items.skip(1) + scan(tail, decode).0) =~= items + scan(
            tail,
            decode,
        ).0);
    }
}

/// A log cut at any byte gives back the items whose frames were complete, and no
/// others.
pub proof fn scan_of_cut_log<T>(
    items: Seq<T>,
    k: int,
    encode: spec_fn(T) -> Seq<u8>,
    decode: spec_fn(Seq<u8>) -> Option<T>,
)
    requires
        codable(items, encode, decode),
        0 <= k <= log(items, encode).len(),
    ensures
        exists|j: int|
            {
                &&& 0 <= j <= items.len()
                &&& scan(log(items, encode).take(k), decode) == (
                    items.take(j),
                    #[trigger] log(items.take(j), encode).len(),
                )
                &&& log(items.take(j), encode).len() <= k
                &&& (j < items.len() ==> k < log(items.take(j + 1), encode).len())
            },
    decreases items.len(),
{
    let all = log(items, encode);
    let buf = all.take(k);
    if items.len() == 0 {
        assert(buf =~= Seq::empty());
        assert(items.take(0) =~= items);
        assert(log(items.take(0), encode) =~= Seq::empty());
    } else {
        let body = encode(items[0]);
        let head = framed(body, crc32(body));
        let rest = items.skip(1);
        assert(decode(encode(items[0])) == Some(items[0]));
        frame_roundtrip(body, crc32(body), Seq::empty());
        if k < head.len() {
            cut_frame_is_torn(body, crc32(body), k);
            assert(buf =~= head.take(k));
            assert(items.take(0) =~= Seq::<T>::empty());
            assert(scan(buf, decode) == (items.take(0), log(items.take(0), encode).len()));
            assert(items.take(1).skip(1) =~= Seq::<T>::empty());
            assert(items.take(1)[0] == items[0]);
            assert(log(items.take(1), encode) =~= head);
        } else {
            assert forall|i: int| 0 <= i < rest.len() implies decode(encode(#[trigger] rest[i]))
                == Some(rest[i]) && encode(rest[i]).len() + 4 < 0x1_0000_0000 by {
                assert(rest[i] == items[i + 1]);
            }
            let m = k - head.len();
            scan_of_cut_log(rest, m, encode, decode);
            let j = choose|j: int|
                {
                    &&& 0 <= j <= rest.len()
                    &&& scan(log(rest, encode).take(m), decode) == (
                        rest.take(j),
                        #[trigger] log(rest.take(j), encode).len(),
                    )
                    &&& log(rest.take(j), encode).len() <= m
                    &&& (j < rest.len() ==> m < log(rest.take(j + 1), encode).len())
                };
            let tail = log(rest, encode).take(m);
            assert(buf =~= head + tail);
            frame_roundtrip(body, crc32(body), tail);
            assert(items.take(j + 1).skip(1) =~= rest.take(j));
            assert(items.take(j + 1)[0] == items[0]);
            assert(log(items.take(j + 1), encode) =~= head + log(rest.take(j), encode));
            assert(seq![items[0]] + rest.take(j) =~= items.take(j + 1));
            assert(scan(buf, decode).0 == items.take(j + 1));
            assert(scan(buf, decode).1 == log(items.take(j + 1), encode).len());
            if j + 1 < items.len() {
                assert(items.take(j + 2).skip(1) =~= rest.take(j + 1));
                assert(items.take(j + 2)[0] == items[0]);
                assert(log(items.take(j + 2), encode) =~= head + log(rest.take(j + 1), encode));
            }
        }
    }
}

/// The bytes that reading accepted are the log of the items that it gave.
pub proof fn scanned_bytes_are_log<T>(
    buf: Seq<u8>,
    encode: spec_fn(T) -> Seq<u8>,
    decode: spec_fn(Seq<u8>) -> Option<T>,
)
    requires
        forall|b: Seq<u8>| (#[trigger] decode(b)) is Some ==> encode(decode(b).unwrap()) == b,
    ensures
        scan(buf, decode).1 <= buf.len(),
        log(scan(buf, decode).0, encode) == buf.take(scan(buf, decode).1 as int),
        codable(scan(buf, decode).0, encode, decode),
    decreases buf.len(),
{
    let (items, end) = scan(buf, decode);
    match intact_body(buf) {
        None => {
            assert(buf.take(0) =~= Seq::empty());
        },
        Some(body) => match decode(body) {
            None => {
                assert(buf.take(0) =~= Seq::empty());
            },
            Some(item) => {
                first_frame_is_framed(buf);
                let n = 8 + body.len() as int;
                let rest = scan(buf.skip(n), decode);
                scanned_bytes_are_log(buf.skip(n), encode, decode);
                assert(encode(item) == body);
                assert(items.skip(1) =~= rest.0);
                assert(buf.take(end as int) =~= buf.take(n) + buf.skip(n).take(rest.1 as int));
                assert forall|i: int| 0 <= i < items.len() implies decode(
                    encode(#[trigger] items[i]),
                ) == Some(items[i]) && encode(items[i]).len() + 4 < 0x1_0000_0000 by {
                    if i > 0 {
                        assert(items[i] == rest.0[i - 1]);
                    }
                }
            },
        },
    }
}

/// A log grows at its end.
pub proof fn log_push<T>(items: Seq<T>, item: T, encode: spec_fn(T) -> Seq<u8>)
    ensures
        log(items.push(item), encode) == log(items, encode) + framed(
            encode(item),
            crc32(encode(item)),
        ),
    decreases items.len(),
{
    let f = framed(encode(item), crc32(encode(item)));
    let more = items.push(item);
    if items.len() == 0 {
        assert(more.skip(1) =~= Seq::<T>::empty());
        assert(more[0] == item);
        assert(log(more.skip(1), encode) =~= Seq::empty());
        assert(log(more, encode) =~= f);
        assert(log(items, encode) + f =~= f);
    } else {
        log_push(items.skip(1), item, encode);
        assert(more.skip(1) =~= items.skip(1).push(item));
        assert(more[0] == items[0]);
        assert(log(more, encode) =~= log(items, encode) + f);
    }
}

/// The bytes of a frame around `body`, whose checksum is `crc`.
pub fn frame(body: &[u8], crc: u32) -> (r: Vec<u8>)
    requires
        body@.len() + 8 <= usize::MAX,
    ensures
        r@ == framed(body@, crc),
{
    let mut out: Vec<u8> = Vec::new();
    put_len(&mut out, 4 + body.len());
    put_u32(&mut out, crc);
    out.extend_from_slice(body);
    assert(out@ =~= framed(body@, crc));
    out
}

/// The stored checksum of the complete frame at `pos`, and where the frame ends.
/// The body starts eight bytes after `pos`.
pub fn read_frame(buf: &[u8], pos: usize) -> (r: Option<(u32, usize)>)
    requires
        pos <= buf@.len(),
    ensures
        match r {
            Some((crc, end)) => pos + 8 <= end <= buf@.len() && first_frame(buf@.skip(pos as int))
                == Some((crc, buf@.subrange(pos + 8, end as int))),
            None => first_frame(buf@.skip(pos as int)) is None,
        },
{
    let len: usize = buf.len();
    let ghost rest = buf@.skip(pos as int);
    if len - pos < 4 {
        return None;
    }
    let n: u32 = get_u32(buf, pos);
    assert(rest.subrange(0, 4) =~= buf@.subrange(pos as int, pos + 4));
    if n < 4 || n as u64 > (len - pos - 4) as u64 {
        return None;
    }
    let crc: u32 = get_u32(buf, pos + 4);
    let end: usize = pos + 4 + n as usize;
    assert(rest.subrange(4, 8) =~= buf@.subrange(pos + 4, pos + 8));
    assert(rest.subrange(8, 4 + n) =~= buf@.subrange(pos + 8, end as int));
    Some((crc, end))
}

/// Where a complete frame ends that is intact: the checksum that it stores is `computed`,
/// that of its body.
pub fn settle_frame(stored: u32, end: usize, computed: u32) -> (r: Option<usize>)
    ensures
        r == if stored == computed {
            Some(end)
        } else {
            None
        },
{
    if stored == computed {
        Some(end)
    } else {
        None
    }
}

/// Where the intact frame at `pos` ends.
pub fn next_frame(buf: &[u8], pos: usize) -> (r: Option<usize>)
    requires
        pos <= buf@.len(),
    ensures
        match r {
            Some(end) => pos + 8 <= end <= buf@.len() && intact_body(buf@.skip(pos as int)) == Some(
                buf@.subrange(pos + 8, end as int),
            ),
            None => intact_body(buf@.skip(pos as int)) is None,
        },
{
    match read_frame(buf, pos) {
        None => None,
        Some((crc, end)) => {
            let body: &[u8] = vstd::slice::slice_subrange(buf, pos + 8, end);
            settle_frame(crc, end, checksum(body))
        },
    }
}

} // verus!
