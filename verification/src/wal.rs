//! Per-shard write-ahead log.
//!
//! A record is one frame of the log (see [`crate::frame`]). The frame's body is,
//! little-endian:
//!
//! ```text
//!   u8   op                  0 = UPSERT, 1 = DELETE
//!   u64  hlc                 packed HLC (48-bit wall ms << 16 | 16-bit counter)
//!   u64  id                  point id
//!   u32  dim                 vector dimensionality (0 for DELETE)
//!   f32 * dim  vector        the vector (omitted for DELETE)
//!   u32  payload_len         payload byte length (0 if none)
//!   u8 * payload_len payload opaque payload bytes
//! ```
//!
//! Components of a vector are held as the bit patterns of `f32` numbers.
//!
//! Replay reads records until the end of the file or the first record that is
//! incomplete, fails its checksum or is malformed, and keeps what came before it.
//! A partly written trailing record was never acknowledged, so dropping it loses
//! no acknowledged write.
//!
//! With a batch window of 0 every record is synced before the append is
//! acknowledged. With a longer one the caller syncs at most that much later.

use vstd::prelude::*;

use crate::codec::{get_bytes, get_u32, get_u64, get_words, put_len, put_u64, put_words};
use crate::frame::{checksum, frame, next_frame};
use crate::hlc::Hlc;

verus! {

use crate::codec::{
    de32, de32_roundtrip, de32s, de32s_roundtrip, de64, de64_roundtrip, group_le_len, le32, le32_roundtrip, le32s,
    le32s_len, le32s_roundtrip, le64, le64_roundtrip, low32,
};
use crate::frame::{
    codable, crc32, framed, intact_body, log, log_push, scan, scan_of_cut_log, scan_of_log,
    scanned_bytes_are_log,
};
use crate::hlc::pack_roundtrip;

broadcast use group_le_len;

/// WAL operation kind.
#[derive(Debug, Clone, Copy, PartialEq, Eq, Structural)]
pub enum WalOp {
    Upsert,
    Delete,
}

impl WalOp {
    /// The byte that stands for the operation.
    pub open spec fn code(self) -> u8 {
        match self {
            WalOp::Upsert => 0,
            WalOp::Delete => 1,
        }
    }

    pub fn to_u8(self) -> (r: u8)
        ensures
            r == self.code(),
    {
        match self {
            WalOp::Upsert => 0,
            WalOp::Delete => 1,
        }
    }

    pub fn from_u8(b: u8) -> (r: Option<Self>)
        ensures
            match r {
                Some(op) => op.code() == b,
                None => b > 1,
            },
    {
        match b {
            0 => Some(WalOp::Upsert),
            1 => Some(WalOp::Delete),
            _ => None,
        }
    }
}

/// A decoded WAL record.
#[derive(Debug, PartialEq)]
pub struct WalRecord {
    pub op: WalOp,
    pub hlc: Hlc,
    pub id: u64,
    /// Vector (empty for DELETE), as the bit patterns of its components.
    pub vector: Vec<u32>,
    /// Opaque payload (empty if none).
    pub payload: Vec<u8>,
}

/// What a WAL record says.
#[verifier::ext_equal]
pub struct RecordView {
    pub op: WalOp,
    pub hlc: Hlc,
    pub id: u64,
    pub vector: Seq<u32>,
    pub payload: Seq<u8>,
}

impl View for WalRecord {
    type V = RecordView;

    open spec fn view(&self) -> RecordView {
        RecordView {
            op: self.op,
            hlc: self.hlc,
            id: self.id,
            vector: self.vector@,
            payload: self.payload@,
        }
    }
}

impl Clone for WalRecord {
    fn clone(&self) -> (r: Self)
        ensures
            r@ == self@,
    {
        let r = WalRecord {
            op: self.op,
            hlc: self.hlc,
            id: self.id,
            vector: self.vector.clone(),
            payload: self.payload.clone(),
        };
        assert(r@ =~= self@);
        r
    }
}

impl RecordView {
    /// The record that stores a vector.
    pub open spec fn upsert(hlc: Hlc, id: u64, vector: Seq<u32>, payload: Seq<u8>) -> RecordView {
        RecordView { op: WalOp::Upsert, hlc, id, vector, payload }
    }

    /// The record that removes a point.
    pub open spec fn delete(hlc: Hlc, id: u64) -> RecordView {
        RecordView { op: WalOp::Delete, hlc, id, vector: Seq::empty(), payload: Seq::empty() }
    }

    /// The timestamp fits its 48 + 16 bits, and the lengths fit their fields.
    pub open spec fn wf(self) -> bool {
        &&& self.hlc.wf()
        &&& self.vector.len() < 0x1_0000_0000
        &&& self.payload.len() < 0x1_0000_0000
    }

    /// How long the record's body is.
    pub open spec fn body_len(self) -> nat {
        25 + 4 * self.vector.len() + self.payload.len()
    }

    /// The bytes of the record's body.
    pub open spec fn body(self) -> Seq<u8> {
        seq![self.op.code()] + le64(self.hlc.value()) + le64(self.id) + le32(
            low32(self.vector.len()),
        ) + le32s(self.vector) + le32(low32(self.payload.len())) + self.payload
    }

    /// A frame can hold the record.
    pub open spec fn storable(self) -> bool {
        self.wf() && self.body_len() + 4 < 0x1_0000_0000
    }
}

/// The record whose body is `body`, where there is one.
pub open spec fn decoded_body(body: Seq<u8>) -> Option<RecordView> {
    if body.len() < 25 {
        None
    } else {
        let dim = de32(body.subrange(17, 21)) as int;
        if body.len() < 25 + 4 * dim {
            None
        } else {
            let plen = de32(body.subrange(21 + 4 * dim, 25 + 4 * dim)) as int;
            if body.len() != 25 + 4 * dim + plen || body[0] > 1 {
                None
            } else {
                Some(
                    RecordView {
                        op: if body[0] == 0 {
                            WalOp::Upsert
                        } else {
                            WalOp::Delete
                        },
                        hlc: Hlc::of(de64(body.subrange(1, 9))),
                        id: de64(body.subrange(9, 17)),
                        vector: de32s(body.subrange(21, 21 + 4 * dim), dim as nat),
                        payload: body.subrange(25 + 4 * dim, body.len() as int),
                    },
                )
            }
        }
    }
}

/// A record's body is as long as `body_len` says.
pub proof fn body_has_len(r: RecordView)
    ensures
        r.body().len() == r.body_len(),
{
    le32s_len(r.vector);
}

/// Decoding undoes encoding.
pub proof fn body_roundtrip(r: RecordView)
    requires
        r.wf(),
    ensures
        decoded_body(r.body()) == Some(r),
{
    let b = r.body();
    let dim = r.vector.len() as int;
    body_has_len(r);
    le64_roundtrip(r.hlc.value());
    le64_roundtrip(r.id);
    le32_roundtrip(low32(r.vector.len()));
    le32_roundtrip(low32(r.payload.len()));
    le32s_roundtrip(r.vector);
    pack_roundtrip(r.hlc, 0);
    assert(b.subrange(1, 9) =~= le64(r.hlc.value()));
    assert(b.subrange(9, 17) =~= le64(r.id));
    assert(b.subrange(17, 21) =~= le32(low32(r.vector.len())));
    assert(b.subrange(21, 21 + 4 * dim) =~= le32s(r.vector));
    assert(b.subrange(21 + 4 * dim, 25 + 4 * dim) =~= le32(low32(r.payload.len())));
    assert(b.subrange(25 + 4 * dim, b.len() as int) =~= r.payload);
    assert(decoded_body(b).unwrap() =~= r);
}

/// What decodes is the encoding of what it decodes to: every byte counts.
pub proof fn decoded_body_is_exact(b: Seq<u8>)
    requires
        decoded_body(b) is Some,
    ensures
        decoded_body(b).unwrap().wf(),
        decoded_body(b).unwrap().body() == b,
{
    let r = decoded_body(b).unwrap();
    let dim = de32(b.subrange(17, 21)) as int;
    de64_roundtrip(b.subrange(1, 9));
    de64_roundtrip(b.subrange(9, 17));
    de32_roundtrip(b.subrange(17, 21));
    de32_roundtrip(b.subrange(21 + 4 * dim, 25 + 4 * dim));
    de32s_roundtrip(b.subrange(21, 21 + 4 * dim), dim as nat);
    pack_roundtrip(r.hlc, de64(b.subrange(1, 9)));
    assert(b =~= r.body());
}

/// A body decodes to a record exactly when it is that record's encoding.
pub proof fn decoding_inverts_encoding(b: Seq<u8>, r: RecordView)
    ensures
        decoded_body(b) == Some(r) <==> r.wf() && r.body() == b,
{
    if decoded_body(b) == Some(r) {
        decoded_body_is_exact(b);
    }
    if r.wf() && r.body() == b {
        body_roundtrip(r);
    }
}

impl WalRecord {
    pub fn upsert(hlc: Hlc, id: u64, vector: Vec<u32>, payload: Vec<u8>) -> (r: Self)
        ensures
            r@ == RecordView::upsert(hlc, id, vector@, payload@),
    {
        Self { op: WalOp::Upsert, hlc, id, vector, payload }
    }

    pub fn delete(hlc: Hlc, id: u64) -> (r: Self)
        ensures
            r@ == RecordView::delete(hlc, id),
    {
        let r = Self { op: WalOp::Delete, hlc, id, vector: Vec::new(), payload: Vec::new() };
        assert(r@ =~= RecordView::delete(hlc, id));
        r
    }

    /// Append the body's bytes to `out`.
    pub(crate) fn put_body(&self, out: &mut Vec<u8>)
        ensures
            final(out)@ == old(out)@ + self@.body(),
    {
        out.push(self.op.to_u8());
        put_u64(out, self.hlc.pack());
        put_u64(out, self.id);
        put_len(out, self.vector.len());
        put_words(out, self.vector.as_slice());
        put_len(out, self.payload.len());
        out.extend_from_slice(self.payload.as_slice());
        assert(out@ =~= old(out)@ + self@.body());
    }

    /// Encode the logical body (everything the checksum covers): op .. payload.
    pub fn encode_body(&self) -> (r: Vec<u8>)
        ensures
            r@ == self@.body(),
    {
        let mut b: Vec<u8> = Vec::new();
        self.put_body(&mut b);
        assert(b@ =~= self@.body());
        b
    }

    /// The bytes of the record's frame.
    pub fn encode_frame(&self) -> (r: Vec<u8>)
        requires
            self@.body_len() + 8 <= usize::MAX,
        ensures
            r@ == record_frame(self@),
    {
        let body: Vec<u8> = self.encode_body();
        proof {
            body_has_len(self@);
        }
        let crc: u32 = checksum(body.as_slice());
        frame(body.as_slice(), crc)
    }
}

/// The frame that holds `r` in the log.
pub open spec fn record_frame(r: RecordView) -> Seq<u8> {
    framed(r.body(), crc32(r.body()))
}

/// Encoding of records, for [`log`].
pub open spec fn record_encoder() -> spec_fn(RecordView) -> Seq<u8> {
    |r: RecordView| r.body()
}

/// Decoding of records, for [`scan`].
pub open spec fn record_decoder() -> spec_fn(Seq<u8>) -> Option<RecordView> {
    |b: Seq<u8>| decoded_body(b)
}

/// The bytes of a log that holds `records` in order.
pub open spec fn wal_bytes(records: Seq<RecordView>) -> Seq<u8> {
    log(records, record_encoder())
}

/// What recovery reads from a log file: the records and the offset after the last.
pub open spec fn recovered(buf: Seq<u8>) -> (Seq<RecordView>, nat) {
    scan(buf, record_decoder())
}

/// A record takes at least 33 bytes of the log that it is recovered from.
pub proof fn recovered_is_bounded(buf: Seq<u8>)
    ensures
        33 * recovered(buf).0.len() <= buf.len(),
    decreases buf.len(),
{
    if let Some(body) = intact_body(buf) {
        if let Some(item) = decoded_body(body) {
            assert(record_decoder()(body) == Some(item));
            assert(body.len() >= 25);
            let rest = buf.skip(8 + body.len() as int);
            recovered_is_bounded(rest);
            assert(recovered(buf).0 =~= seq![item] + recovered(rest).0);
        } else {
            assert(record_decoder()(body) is None);
        }
    }
}

/// What a run of records says.
pub open spec fn record_views(records: Seq<WalRecord>) -> Seq<RecordView> {
    records.map_values(|r: WalRecord| r@)
}

/// Decode a logical record body (the checksummed bytes). Returns `None` on any
/// structural inconsistency (treated as a torn tail by the caller).
pub fn decode_body(body: &[u8]) -> (r: Option<WalRecord>)
    ensures
        match r {
            Some(rec) => decoded_body(body@) == Some(rec@) && rec@.wf() && rec@.body() == body@,
            None => decoded_body(body@) is None,
        },
{
    let len: usize = body.len();
    if len < 25 {
        return None;
    }
    let op: WalOp = match WalOp::from_u8(body[0]) {
        Some(op) => op,
        None => return None,
    };
    let hlc: Hlc = Hlc::unpack(get_u64(body, 1));
    let id: u64 = get_u64(body, 9);
    let dim32: u32 = get_u32(body, 17);
    if dim32 as u64 > ((len - 25) / 4) as u64 {
        return None;
    }
    let dim: usize = dim32 as usize;
    let vector: Vec<u32> = get_words(body, 21, dim);
    let plen: u32 = get_u32(body, 21 + 4 * dim);
    let start: usize = 25 + 4 * dim;
    if plen as u64 != (len - start) as u64 {
        return None;
    }
    let payload: Vec<u8> = get_bytes(body, start, len);
    let rec = WalRecord { op, hlc, id, vector, payload };
    proof {
        assert(rec@ =~= decoded_body(body@).unwrap());
        decoded_body_is_exact(body@);
    }
    Some(rec)
}

/// The write-ahead log of one shard, as far as the file itself does not hold it:
/// where the file ends and whether bytes wait to be synced.
#[derive(Debug, Clone, Copy, PartialEq, Eq, Structural)]
pub struct Wal {
    /// Bytes written (the current logical end offset).
    pub len: u64,
    /// 0 = sync every record; >0 = batch window (ms), driven by the caller.
    pub batch_ms: u64,
    /// Whether bytes were written since the last sync.
    pub dirty: bool,
}

impl Wal {
    /// The log whose file is `len` bytes long.
    pub fn open(len: u64, batch_ms: u64) -> (r: Self)
        ensures
            r == (Wal { len, batch_ms, dirty: false }),
    {
        Self { len, batch_ms, dirty: false }
    }

    /// Current on-disk length (logical end offset).
    pub fn offset(&self) -> (r: u64)
        ensures
            r == self.len,
    {
        self.len
    }

    /// Account for a frame that was written to the end of the file. Returns the
    /// new end offset.
    pub fn append(&mut self, frame: &[u8]) -> (r: u64)
        requires
            frame@.len() >= 4,
            old(self).len + 4 + de32(frame@.subrange(0, 4)) <= u64::MAX,
        ensures
            r == old(self).len + 4 + de32(frame@.subrange(0, 4)),
            *final(self) == (Wal { len: r, batch_ms: old(self).batch_ms, dirty: true }),
    {
        let n: u32 = get_u32(frame, 0);
        self.len = self.len + 4 + n as u64;
        self.dirty = true;
        self.len
    }

    /// Whether an append has to be synced before it is acknowledged.
    pub fn syncs_every_record(&self) -> (r: bool)
        ensures
            r == (self.batch_ms == 0),
    {
        self.batch_ms == 0
    }

    /// Account for a sync of the file.
    pub fn flush(&mut self)
        ensures
            *final(self) == (Wal { dirty: false, ..*old(self) }),
    {
        self.dirty = false;
    }

    /// Replay every intact record of a log file, in order. Returns the records and
    /// the offset to which the file is to be truncated.
    pub fn recover(buf: &[u8]) -> (r: (Vec<WalRecord>, u64))
        ensures
            record_views(r.0@) == recovered(buf@).0,
            r.1 == recovered(buf@).1,
            r.1 <= buf@.len(),
    {
        let mut records: Vec<WalRecord> = Vec::new();
        let mut pos: usize = 0;
        let len: usize = buf.len();
        assert(buf@.skip(0) =~= buf@);
        assert(record_views(records@) + recovered(buf@.skip(0)).0 =~= recovered(buf@).0);
        loop
            invariant
                len == buf@.len(),
                pos <= len,
                record_views(records@) + recovered(buf@.skip(pos as int)).0 == recovered(buf@).0,
                pos + recovered(buf@.skip(pos as int)).1 == recovered(buf@).1,
            ensures
                pos <= len,
                record_views(records@) == recovered(buf@).0,
                pos == recovered(buf@).1,
            decreases len - pos,
        {
            let end: usize = match next_frame(buf, pos) {
                Some(end) => end,
                None => {
                    assert(record_views(records@) + Seq::empty() =~= record_views(records@));
                    break;
                },
            };
            match decode_body(vstd::slice::slice_subrange(buf, pos + 8, end)) {
                Some(rec) => {
                    proof {
                        let rest = buf@.skip(pos as int);
                        let n = end - pos;
                        assert(rest.skip(n) =~= buf@.skip(end as int));
                        let before = record_views(records@);
                        assert(record_views(records@.push(rec)) =~= before.push(rec@));
                        assert(before + recovered(rest).0 =~= before.push(rec@) + recovered(
                            buf@.skip(end as int),
                        ).0);
                    }
                    records.push(rec);
                    pos = end;
                },
                None => {
                    assert(record_views(records@) + Seq::empty() =~= record_views(records@));
                    break;
                },
            }
        }
        (records, pos as u64)
    }
}

/// Accounting for a record's frame moves the end offset by the frame's length.
pub proof fn append_moves_offset(r: RecordView)
    requires
        r.storable(),
    ensures
        record_frame(r).len() == r.body_len() + 8,
        4 + de32(record_frame(r).subrange(0, 4)) == r.body_len() + 8,
{
    body_has_len(r);
    le32_roundtrip(low32(4 + r.body().len()));
    assert(record_frame(r).subrange(0, 4) =~= le32(low32(4 + r.body().len())));
}

proof fn storable_is_codable(records: Seq<RecordView>)
    requires
        forall|i: int| 0 <= i < records.len() ==> (#[trigger] records[i]).storable(),
    ensures
        codable(records, record_encoder(), record_decoder()),
{
    assert forall|i: int| 0 <= i < records.len() implies record_decoder()(
        record_encoder()(#[trigger] records[i]),
    ) == Some(records[i]) && record_encoder()(records[i]).len() + 4 < 0x1_0000_0000 by {
        body_roundtrip(records[i]);
        body_has_len(records[i]);
    }
}

/// Recovery returns every record that was appended, in order. Bytes that follow
/// and do not start with an intact record are dropped.
pub proof fn recovery_returns_appended(records: Seq<RecordView>, tail: Seq<u8>)
    requires
        forall|i: int| 0 <= i < records.len() ==> (#[trigger] records[i]).storable(),
        intact_body(tail) is None || decoded_body(intact_body(tail).unwrap()) is None,
    ensures
        recovered(wal_bytes(records) + tail) == (records, wal_bytes(records).len()),
{
    storable_is_codable(records);
    scan_of_log(records, tail, record_encoder(), record_decoder());
    assert(recovered(tail) == (Seq::<RecordView>::empty(), 0nat));
    assert(records + Seq::<RecordView>::empty() =~= records);
}

/// A log cut at any byte, as by a crash in the middle of an append, recovers to
/// the records whose frames were complete: all of those and no others.
pub proof fn crash_keeps_complete_records(records: Seq<RecordView>, k: int)
    requires
        forall|i: int| 0 <= i < records.len() ==> (#[trigger] records[i]).storable(),
        0 <= k <= wal_bytes(records).len(),
    ensures
        exists|j: int|
            {
                &&& 0 <= j <= records.len()
                &&& recovered(wal_bytes(records).take(k)) == (
                    records.take(j),
                    #[trigger] wal_bytes(records.take(j)).len(),
                )
                &&& wal_bytes(records.take(j)).len() <= k
                &&& (j < records.len() ==> k < wal_bytes(records.take(j + 1)).len())
            },
{
    storable_is_codable(records);
    scan_of_cut_log(records, k, record_encoder(), record_decoder());
    let j = choose|j: int|
        {
            &&& 0 <= j <= records.len()
            &&& scan(log(records, record_encoder()).take(k), record_decoder()) == (
                records.take(j),
                #[trigger] log(records.take(j), record_encoder()).len(),
            )
            &&& log(records.take(j), record_encoder()).len() <= k
            &&& (j < records.len() ==> k < log(records.take(j + 1), record_encoder()).len())
        };
    assert(wal_bytes(records.take(j)).len() <= k);
}

/// Recovery keeps exactly the log of the records that it returns: recovering the
/// truncated file again returns the same.
pub proof fn recovery_is_idempotent(buf: Seq<u8>)
    ensures
        recovered(buf).1 <= buf.len(),
        buf.take(recovered(buf).1 as int) == wal_bytes(recovered(buf).0),
        recovered(buf.take(recovered(buf).1 as int)) == recovered(buf),
        forall|i: int| 0 <= i < recovered(buf).0.len() ==> (#[trigger] recovered(buf).0[i]).storable(),
{
    assert forall|b: Seq<u8>| (#[trigger] record_decoder()(b)) is Some implies record_encoder()(
        record_decoder()(b).unwrap(),
    ) == b by {
        decoded_body_is_exact(b);
    }
    scanned_bytes_are_log(buf, record_encoder(), record_decoder());
    let records = recovered(buf).0;
    let kept = buf.take(recovered(buf).1 as int);
    scan_of_log(records, Seq::empty(), record_encoder(), record_decoder());
    assert(wal_bytes(records) + Seq::<u8>::empty() =~= kept);
    assert(records + Seq::<RecordView>::empty() =~= records);
    assert forall|i: int| 0 <= i < records.len() implies (#[trigger] records[i]).storable() by {
        let r = records[i];
        assert(record_decoder()(record_encoder()(r)) == Some(r));
        decoding_inverts_encoding(r.body(), r);
        body_has_len(r);
    }
}

/// Appending after recovery continues the log cleanly.
pub proof fn append_extends_log(records: Seq<RecordView>, r: RecordView)
    ensures
        wal_bytes(records.push(r)) == wal_bytes(records) + record_frame(r),
{
    log_push(records, r, record_encoder());
}

/// A record appended after recovery is recovered, whatever the file held before: cut where
/// recovery says and extended by the frame of `r`, it recovers to the records that it held
/// and then `r`.
pub proof fn record_after_torn_tail_is_recovered(buf: Seq<u8>, r: RecordView)
    requires
        r.storable(),
    ensures
        recovered(buf.take(recovered(buf).1 as int) + record_frame(r)).0 == recovered(buf).0.push(r),
{
    let records = recovered(buf).0;
    recovery_is_idempotent(buf);
    append_extends_log(records, r);
    recovery_returns_appended(records.push(r), Seq::empty());
    assert(wal_bytes(records.push(r)) + Seq::<u8>::empty() =~= wal_bytes(records.push(r)));
}

} // verus!
