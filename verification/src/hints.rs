//! Hinted handoff.
//!
//! When a coordinator cannot reach a replica for a write, it records a **hint**:
//! the point operation plus the target replica it was meant for. The hint goes to
//! a durable, append-only log on the node that holds it. When the target replica
//! comes back, the holder replays the buffered hints to it.
//!
//! The log is a run of frames (see [`crate::frame`]), so a half-written hint at its
//! end is dropped on reading; it was never acknowledged as buffered. Opening the log
//! says where to cut the file, so that what is appended next follows the last intact
//! hint and is read back. A frame's body
//! is, little-endian: the target node (`u64`), the length of the collection's name
//! (`u32`), the name, the shard (`u32`), and then the body of a WAL record.

use vstd::prelude::*;

use crate::codec::{get_bytes, get_u32, get_u64, put_len, put_u32, put_u64};
use crate::frame::{checksum, frame, next_frame};
use crate::hlc::Hlc;
use crate::text::string_from_utf8;
use crate::wal::{decode_body, WalOp, WalRecord};

verus! {

use vstd::utf8::{
    decode_utf8, decode_utf8_encode_utf8, encode_utf8_decode_utf8, encode_utf8_valid_utf8, valid_utf8,
};
use crate::codec::{
    de32, de32_roundtrip, de64, de64_roundtrip, group_le_len, le32, le32_roundtrip, le64,
    le64_roundtrip, low32,
};
use crate::frame::{
    codable, crc32, framed, intact_body, log, log_push, scan, scan_of_cut_log, scan_of_log,
    scanned_bytes_are_log,
};
use crate::text::utf8;
use crate::wal::{
    body_has_len, body_roundtrip, decoded_body, decoded_body_is_exact, RecordView,
};

broadcast use group_le_len;

/// One buffered write destined for a temporarily-unreachable replica.
#[derive(Debug, PartialEq)]
pub struct Hint {
    /// The replica node this write was meant for.
    pub target_node: u64,
    pub collection: String,
    pub shard_idx: u32,
    pub op: WalOp,
    pub hlc: Hlc,
    pub id: u64,
    /// Vector (empty for a delete), as the bit patterns of its components.
    pub vector: Vec<u32>,
    pub payload: Vec<u8>,
}

/// What a hint says: where the write belongs, and the write.
#[verifier::ext_equal]
pub struct HintView {
    pub target_node: u64,
    pub collection: Seq<char>,
    pub shard_idx: u32,
    pub record: RecordView,
}

impl View for Hint {
    type V = HintView;

    open spec fn view(&self) -> HintView {
        HintView {
            target_node: self.target_node,
            collection: self.collection@,
            shard_idx: self.shard_idx,
            record: RecordView {
                op: self.op,
                hlc: self.hlc,
                id: self.id,
                vector: self.vector@,
                payload: self.payload@,
            },
        }
    }
}

impl Clone for Hint {
    fn clone(&self) -> (r: Self)
        ensures
            r@ == self@,
    {
        let r = Hint {
            target_node: self.target_node,
            collection: self.collection.clone(),
            shard_idx: self.shard_idx,
            op: self.op,
            hlc: self.hlc,
            id: self.id,
            vector: self.vector.clone(),
            payload: self.payload.clone(),
        };
        assert(r@ =~= self@);
        r
    }
}

impl HintView {
    /// The lengths fit their fields and the timestamp its bits.
    pub open spec fn wf(self) -> bool {
        self.record.wf() && utf8(self.collection).len() < 0x1_0000_0000
    }

    /// How long the hint's body is.
    pub open spec fn body_len(self) -> nat {
        16 + utf8(self.collection).len() + self.record.body_len()
    }

    /// The bytes of the hint's body.
    pub open spec fn body(self) -> Seq<u8> {
        le64(self.target_node) + le32(low32(utf8(self.collection).len())) + utf8(self.collection)
            + le32(self.shard_idx) + self.record.body()
    }

    /// A frame can hold the hint.
    pub open spec fn storable(self) -> bool {
        self.wf() && self.body_len() + 4 < 0x1_0000_0000
    }
}

/// The hint whose body is `body`, where there is one.
pub open spec fn decoded_hint(body: Seq<u8>) -> Option<HintView> {
    if body.len() < 16 {
        None
    } else {
        let clen = de32(body.subrange(8, 12)) as int;
        if body.len() < 16 + clen {
            None
        } else {
            let name = body.subrange(12, 12 + clen);
            match decoded_body(body.skip(16 + clen)) {
                Some(record) => if valid_utf8(name) {
                    Some(
                        HintView {
                            target_node: de64(body.subrange(0, 8)),
                            collection: decode_utf8(name),
                            shard_idx: de32(body.subrange(12 + clen, 16 + clen)),
                            record,
                        },
                    )
                } else {
                    None
                },
                None => None,
            }
        }
    }
}

/// A hint's body is as long as `body_len` says.
pub proof fn hint_body_has_len(h: HintView)
    ensures
        h.body().len() == h.body_len(),
{
    body_has_len(h.record);
}

/// Decoding undoes encoding.
pub proof fn hint_roundtrip(h: HintView)
    requires
        h.wf(),
    ensures
        decoded_hint(h.body()) == Some(h),
{
    let b = h.body();
    let name = utf8(h.collection);
    let clen = name.len() as int;
    hint_body_has_len(h);
    body_roundtrip(h.record);
    le64_roundtrip(h.target_node);
    le32_roundtrip(low32(name.len()));
    le32_roundtrip(h.shard_idx);
    encode_utf8_valid_utf8(h.collection);
    encode_utf8_decode_utf8(h.collection);
    assert(b.subrange(0, 8) =~= le64(h.target_node));
    assert(b.subrange(8, 12) =~= le32(low32(name.len())));
    assert(b.subrange(12, 12 + clen) =~= name);
    assert(b.subrange(12 + clen, 16 + clen) =~= le32(h.shard_idx));
    assert(b.skip(16 + clen) =~= h.record.body());
    assert(decoded_hint(b).unwrap() =~= h);
}

/// What decodes is the encoding of what it decodes to: every byte counts.
pub proof fn decoded_hint_is_exact(b: Seq<u8>)
    requires
        decoded_hint(b) is Some,
    ensures
        decoded_hint(b).unwrap().wf(),
        decoded_hint(b).unwrap().body() == b,
{
    let h = decoded_hint(b).unwrap();
    let clen = de32(b.subrange(8, 12)) as int;
    let name = b.subrange(12, 12 + clen);
    de64_roundtrip(b.subrange(0, 8));
    de32_roundtrip(b.subrange(8, 12));
    de32_roundtrip(b.subrange(12 + clen, 16 + clen));
    decoded_body_is_exact(b.skip(16 + clen));
    decode_utf8_encode_utf8(name);
    assert(utf8(h.collection) == name);
    assert(b =~= h.body());
}

/// A body decodes to a hint exactly when it is that hint's encoding.
pub proof fn hint_decoding_inverts_encoding(b: Seq<u8>, h: HintView)
    ensures
        decoded_hint(b) == Some(h) <==> h.wf() && h.body() == b,
{
    if decoded_hint(b) == Some(h) {
        decoded_hint_is_exact(b);
    }
    if h.wf() && h.body() == b {
        hint_roundtrip(h);
    }
}

/// The bytes of a hint's body.
pub fn encode_hint(h: &Hint) -> (r: Vec<u8>)
    ensures
        r@ == h@.body(),
{
    let mut b: Vec<u8> = Vec::new();
    put_u64(&mut b, h.target_node);
    let name: &[u8] = h.collection.as_str().as_bytes();
    put_len(&mut b, name.len());
    b.extend_from_slice(name);
    put_u32(&mut b, h.shard_idx);
    let record = WalRecord {
        op: h.op,
        hlc: h.hlc,
        id: h.id,
        vector: h.vector.clone(),
        payload: h.payload.clone(),
    };
    assert(record@ =~= h@.record);
    record.put_body(&mut b);
    assert(b@ =~= h@.body());
    b
}

/// Decode a hint's body. Returns `None` on any structural inconsistency.
pub fn decode_hint(body: &[u8]) -> (r: Option<Hint>)
    ensures
        match r {
            Some(h) => decoded_hint(body@) == Some(h@) && h@.wf() && h@.body() == body@,
            None => decoded_hint(body@) is None,
        },
{
    let len: usize = body.len();
    if len < 16 {
        return None;
    }
    let target_node: u64 = get_u64(body, 0);
    let clen32: u32 = get_u32(body, 8);
    if clen32 as u64 > (len - 16) as u64 {
        return None;
    }
    let clen: usize = clen32 as usize;
    let collection: String = match string_from_utf8(get_bytes(body, 12, 12 + clen)) {
        Some(name) => name,
        None => return None,
    };
    let shard_idx: u32 = get_u32(body, 12 + clen);
    let rest: &[u8] = vstd::slice::slice_subrange(body, 16 + clen, len);
    assert(rest@ =~= body@.skip(16 + clen));
    match decode_body(rest) {
        None => None,
        Some(rec) => {
            let h = Hint {
                target_node,
                collection,
                shard_idx,
                op: rec.op,
                hlc: rec.hlc,
                id: rec.id,
                vector: rec.vector,
                payload: rec.payload,
            };
            proof {
                assert(h@ =~= decoded_hint(body@).unwrap());
                decoded_hint_is_exact(body@);
            }
            Some(h)
        },
    }
}

/// Encoding of hints, for [`log`].
pub open spec fn hint_encoder() -> spec_fn(HintView) -> Seq<u8> {
    |h: HintView| h.body()
}

/// Decoding of hints, for [`scan`].
pub open spec fn hint_decoder() -> spec_fn(Seq<u8>) -> Option<HintView> {
    |b: Seq<u8>| decoded_hint(b)
}

/// The bytes of a log that holds `hints` in order.
pub open spec fn hint_bytes(hints: Seq<HintView>) -> Seq<u8> {
    log(hints, hint_encoder())
}

/// The hints that reading a log file gives.
pub open spec fn read_hints(buf: Seq<u8>) -> Seq<HintView> {
    scan(buf, hint_decoder()).0
}

/// The offset after the last intact hint of a log file: what follows is no part of
/// the log.
pub open spec fn hints_end(buf: Seq<u8>) -> nat {
    scan(buf, hint_decoder()).1
}

/// What a run of hints says.
pub open spec fn hint_views(hints: Seq<Hint>) -> Seq<HintView> {
    hints.map_values(|h: Hint| h@)
}

/// A durable, append-only hint log for one holder node, as far as the file itself
/// does not hold it: whether bytes wait to be synced.
#[derive(Debug, Clone, Copy, PartialEq, Eq, Structural)]
pub struct HintLog {
    pub dirty: bool,
}

impl HintLog {
    /// Open the log whose file holds `buf`. Returns the log and the offset to which the
    /// file is to be truncated before anything is appended.
    pub fn open(buf: &[u8]) -> (r: (Self, u64))
        ensures
            !r.0.dirty,
            r.1 == hints_end(buf@),
            r.1 <= buf@.len(),
    {
        let (_, end): (Vec<Hint>, u64) = HintLog::recover(buf);
        (Self { dirty: false }, end)
    }

    /// The frame to write for a hint. It has to be synced before the write that it
    /// stands in for is acknowledged, or that write is silently lost.
    pub fn append(&mut self, hint: &Hint) -> (r: Vec<u8>)
        requires
            hint@.body_len() + 8 <= usize::MAX,
        ensures
            r@ == framed(hint@.body(), crc32(hint@.body())),
            final(self).dirty,
    {
        let body: Vec<u8> = encode_hint(hint);
        proof {
            hint_body_has_len(hint@);
        }
        let crc: u32 = checksum(body.as_slice());
        self.dirty = true;
        frame(body.as_slice(), crc)
    }

    /// Account for a sync of the file.
    pub fn flush(&mut self)
        ensures
            !final(self).dirty,
    {
        self.dirty = false;
    }

    /// The bytes of a log that holds exactly `hints`, to replace the file with after a
    /// partial replay.
    pub fn rewrite(hints: &Vec<Hint>) -> (r: Vec<u8>)
        requires
            forall|i: int|
                0 <= i < hints@.len() ==> (#[trigger] hints@[i])@.body_len() + 8 <= usize::MAX,
        ensures
            r@ == hint_bytes(hint_views(hints@)),
    {
        let mut log = HintLog { dirty: false };
        let mut out: Vec<u8> = Vec::new();
        let mut i: usize = 0;
        let ghost views = hint_views(hints@);
        assert(views.take(0) =~= Seq::empty());
        assert(out@ =~= hint_bytes(views.take(0)));
        while i < hints.len()
            invariant
                forall|i: int|
                    0 <= i < hints@.len() ==> (#[trigger] hints@[i])@.body_len() + 8 <= usize::MAX,
                views == hint_views(hints@),
                i <= hints@.len(),
                out@ == hint_bytes(views.take(i as int)),
            decreases hints@.len() - i,
        {
            let mut bytes: Vec<u8> = log.append(&hints[i]);
            proof {
                append_extends_hint_log(views.take(i as int), views[i as int]);
                assert(views.take(i + 1) =~= views.take(i as int).push(views[i as int]));
            }
            out.append(&mut bytes);
            i = i + 1;
        }
        assert(views.take(i as int) =~= views);
        out
    }

    /// Read every intact hint of a log file, in order. Returns the hints and the offset
    /// to which the file is to be truncated: a torn or checksum-failing tail is dropped,
    /// like in the WAL.
    pub fn recover(buf: &[u8]) -> (r: (Vec<Hint>, u64))
        ensures
            hint_views(r.0@) == read_hints(buf@),
            r.1 == hints_end(buf@),
            r.1 <= buf@.len(),
    {
        let mut hints: Vec<Hint> = Vec::new();
        let mut pos: usize = 0;
        let len: usize = buf.len();
        assert(buf@.skip(0) =~= buf@);
        assert(hint_views(hints@) + read_hints(buf@.skip(0)) =~= read_hints(buf@));
        loop
            invariant
                len == buf@.len(),
                pos <= len,
                hint_views(hints@) + read_hints(buf@.skip(pos as int)) == read_hints(buf@),
                pos + hints_end(buf@.skip(pos as int)) == hints_end(buf@),
            ensures
                pos <= len,
                hint_views(hints@) == read_hints(buf@),
                pos == hints_end(buf@),
            decreases len - pos,
        {
            let end: usize = match next_frame(buf, pos) {
                Some(end) => end,
                None => {
                    assert(hint_views(hints@) + Seq::empty() =~= hint_views(hints@));
                    break;
                },
            };
            match decode_hint(vstd::slice::slice_subrange(buf, pos + 8, end)) {
                Some(h) => {
                    proof {
                        let rest = buf@.skip(pos as int);
                        assert(rest.skip(end - pos) =~= buf@.skip(end as int));
                        let before = hint_views(hints@);
                        assert(hint_views(hints@.push(h)) =~= before.push(h@));
                        assert(before + read_hints(rest) =~= before.push(h@) + read_hints(
                            buf@.skip(end as int),
                        ));
                    }
                    hints.push(h);
                    pos = end;
                },
                None => {
                    assert(hint_views(hints@) + Seq::empty() =~= hint_views(hints@));
                    break;
                },
            }
        }
        (hints, pos as u64)
    }

    /// Every intact hint of a log file, in order.
    pub fn read_all(buf: &[u8]) -> (r: Vec<Hint>)
        ensures
            hint_views(r@) == read_hints(buf@),
    {
        let (hints, _): (Vec<Hint>, u64) = HintLog::recover(buf);
        hints
    }
}

proof fn storable_is_codable(hints: Seq<HintView>)
    requires
        forall|i: int| 0 <= i < hints.len() ==> (#[trigger] hints[i]).storable(),
    ensures
        codable(hints, hint_encoder(), hint_decoder()),
{
    assert forall|i: int| 0 <= i < hints.len() implies hint_decoder()(
        hint_encoder()(#[trigger] hints[i]),
    ) == Some(hints[i]) && hint_encoder()(hints[i]).len() + 4 < 0x1_0000_0000 by {
        hint_roundtrip(hints[i]);
        hint_body_has_len(hints[i]);
    }
}

/// Reading returns every hint that was appended, in order. Bytes that follow and
/// do not start with an intact hint are dropped.
pub proof fn reading_returns_appended(hints: Seq<HintView>, tail: Seq<u8>)
    requires
        forall|i: int| 0 <= i < hints.len() ==> (#[trigger] hints[i]).storable(),
        intact_body(tail) is None || decoded_hint(intact_body(tail).unwrap()) is None,
    ensures
        read_hints(hint_bytes(hints) + tail) == hints,
        hints_end(hint_bytes(hints) + tail) == hint_bytes(hints).len(),
{
    storable_is_codable(hints);
    scan_of_log(hints, tail, hint_encoder(), hint_decoder());
    assert(scan(tail, hint_decoder()) == (Seq::<HintView>::empty(), 0nat));
    assert(hints + Seq::<HintView>::empty() =~= hints);
}

/// A hint log cut at any byte, as by a crash in the middle of an append, reads as
/// the hints whose frames were complete: all of those and no others.
pub proof fn crash_keeps_complete_hints(hints: Seq<HintView>, k: int)
    requires
        forall|i: int| 0 <= i < hints.len() ==> (#[trigger] hints[i]).storable(),
        0 <= k <= hint_bytes(hints).len(),
    ensures
        exists|j: int|
            {
                &&& 0 <= j <= hints.len()
                &&& read_hints(hint_bytes(hints).take(k)) == #[trigger] hints.take(j)
                &&& hint_bytes(hints.take(j)).len() <= k
                &&& (j < hints.len() ==> k < hint_bytes(hints.take(j + 1)).len())
            },
{
    storable_is_codable(hints);
    scan_of_cut_log(hints, k, hint_encoder(), hint_decoder());
    let j = choose|j: int|
        {
            &&& 0 <= j <= hints.len()
            &&& scan(log(hints, hint_encoder()).take(k), hint_decoder()) == (
                hints.take(j),
                #[trigger] log(hints.take(j), hint_encoder()).len(),
            )
            &&& log(hints.take(j), hint_encoder()).len() <= k
            &&& (j < hints.len() ==> k < log(hints.take(j + 1), hint_encoder()).len())
        };
    assert(read_hints(hint_bytes(hints).take(k)) == hints.take(j));
}

/// Appending extends the log by the hint's frame.
pub proof fn append_extends_hint_log(hints: Seq<HintView>, h: HintView)
    ensures
        hint_bytes(hints.push(h)) == hint_bytes(hints) + framed(h.body(), crc32(h.body())),
{
    log_push(hints, h, hint_encoder());
}

/// Opening keeps exactly the log of the hints that it reads: the truncated file reads as
/// the whole one did.
pub proof fn hint_recovery_is_idempotent(buf: Seq<u8>)
    ensures
        hints_end(buf) <= buf.len(),
        buf.take(hints_end(buf) as int) == hint_bytes(read_hints(buf)),
        read_hints(buf.take(hints_end(buf) as int)) == read_hints(buf),
        hints_end(buf.take(hints_end(buf) as int)) == hints_end(buf),
        forall|i: int| 0 <= i < read_hints(buf).len() ==> (#[trigger] read_hints(buf)[i]).storable(),
{
    assert forall|b: Seq<u8>| (#[trigger] hint_decoder()(b)) is Some implies hint_encoder()(
        hint_decoder()(b).unwrap(),
    ) == b by {
        decoded_hint_is_exact(b);
    }
    scanned_bytes_are_log(buf, hint_encoder(), hint_decoder());
    let hints = read_hints(buf);
    let kept = buf.take(hints_end(buf) as int);
    scan_of_log(hints, Seq::empty(), hint_encoder(), hint_decoder());
    assert(hint_bytes(hints) + Seq::<u8>::empty() =~= kept);
    assert(hints + Seq::<HintView>::empty() =~= hints);
    assert forall|i: int| 0 <= i < hints.len() implies (#[trigger] hints[i]).storable() by {
        let h = hints[i];
        assert(hint_decoder()(hint_encoder()(h)) == Some(h));
        hint_decoding_inverts_encoding(h.body(), h);
        hint_body_has_len(h);
    }
}

/// A buffered hint survives a crash, whatever the file held before: cut where opening
/// says and extended by the frame of `h`, it reads as the hints that it held and then `h`.
pub proof fn hint_after_torn_tail_is_read(buf: Seq<u8>, h: HintView)
    requires
        h.storable(),
    ensures
        read_hints(buf.take(hints_end(buf) as int) + framed(h.body(), crc32(h.body())))
            == read_hints(buf).push(h),
{
    let hints = read_hints(buf);
    hint_recovery_is_idempotent(buf);
    append_extends_hint_log(hints, h);
    reading_returns_appended(hints.push(h), Seq::empty());
    assert(hint_bytes(hints.push(h)) + Seq::<u8>::empty() =~= hint_bytes(hints.push(h)));
}

} // verus!
