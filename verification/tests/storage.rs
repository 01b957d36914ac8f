//! Stamps, the write-ahead log, hints, snapshots, and shards that recover from them.

use std::collections::HashMap;

use quorvec::distance::Metric;
use quorvec::frame::{frame, next_frame, read_frame, settle_frame};
use quorvec::graph::Node;
use quorvec::hints::{decode_hint, encode_hint, Hint, HintLog};
use quorvec::hlc::Hlc;
use quorvec::hnsw::{HnswIndex, HnswParams, SplitMix64};
use quorvec::index::{IndexError, VectorIndex};
use quorvec::shard::{
    apply_record, framed_len, PendingWrite, PointVersion, Shard, ShardError, Staged, WriteOutcome,
};
use quorvec::snapshot::{Snapshot, VersionEntry};
use quorvec::wal::{decode_body, Wal, WalOp, WalRecord};

type Kernel = fn(Metric, &[u32], &[u32]) -> u32;

fn kernel(_m: Metric, a: &[u32], b: &[u32]) -> u32 {
    let mut sq = 0.0f32;
    for (x, y) in a.iter().zip(b.iter()) {
        let d = f32::from_bits(*x) - f32::from_bits(*y);
        sq += d * d;
    }
    sq.to_bits()
}

const KERNEL: Kernel = kernel;

fn bits(v: &[f32]) -> Vec<u32> {
    v.iter().map(|x| x.to_bits()).collect()
}

fn h(n: u64) -> Hlc {
    Hlc::new(n, 0)
}

#[test]
fn pack_unpack_roundtrip() {
    let h = Hlc::new(0x1234_5678_9ABC, 0xBEEF);
    assert_eq!(Hlc::unpack(h.pack()), h);
}

#[test]
fn ordering_matches_packed() {
    let a = Hlc::new(100, 5);
    let b = Hlc::new(100, 6);
    let c = Hlc::new(101, 0);
    assert!(a < b);
    assert!(b < c);
    assert!(a.pack() < b.pack());
    assert!(b.pack() < c.pack());
}

#[test]
fn packed_stamps_put_the_wall_time_first() {
    assert_eq!(Hlc::new(1, 2).pack(), 65538);
    assert_eq!(Hlc::unpack(65538), Hlc::new(1, 2));
    assert!(Hlc::new(1, 9).precedes(&Hlc::new(2, 0)));
    assert!(!Hlc::new(2, 0).precedes(&Hlc::new(2, 0)));
}

fn append(wal: &mut Wal, file: &mut Vec<u8>, rec: &WalRecord) -> u64 {
    let frame = rec.encode_frame();
    file.extend_from_slice(&frame);
    wal.append(&frame)
}

#[test]
fn append_and_recover_roundtrip() {
    let mut file = Vec::new();
    {
        let mut wal = Wal::open(0, 0);
        append(&mut wal, &mut file, &WalRecord::upsert(h(1), 10, bits(&[1.0, 2.0, 3.0]), vec![]));
        append(&mut wal, &mut file, &WalRecord::upsert(h(2), 20, bits(&[4.0, 5.0, 6.0]), vec![9, 9]));
        append(&mut wal, &mut file, &WalRecord::delete(h(3), 10));
    }
    let (recs, end) = Wal::recover(&file);
    assert_eq!(recs.len(), 3);
    assert_eq!(recs[0], WalRecord::upsert(h(1), 10, bits(&[1.0, 2.0, 3.0]), vec![]));
    assert_eq!(recs[1].payload, vec![9, 9]);
    assert_eq!(recs[2].op, WalOp::Delete);
    assert!(end > 0);
    assert_eq!(end, file.len() as u64);
}

#[test]
fn torn_tail_is_truncated() {
    let mut file = Vec::new();
    let good_end = {
        let mut wal = Wal::open(0, 0);
        append(&mut wal, &mut file, &WalRecord::upsert(h(1), 1, bits(&[1.0]), vec![]));
        append(&mut wal, &mut file, &WalRecord::upsert(h(2), 2, bits(&[2.0]), vec![]))
    };
    file.extend_from_slice(&100u32.to_le_bytes());
    file.extend_from_slice(&[1, 2, 3, 4, 5]);

    let (recs, end) = Wal::recover(&file);
    assert_eq!(recs.len(), 2, "torn tail must be dropped");
    assert_eq!(end, good_end, "file truncated to last good record");

    file.truncate(end as usize);
    let mut wal = Wal::open(end, 0);
    append(&mut wal, &mut file, &WalRecord::upsert(h(3), 3, bits(&[3.0]), vec![]));
    let (recs2, _) = Wal::recover(&file);
    assert_eq!(recs2.len(), 3);
}

#[test]
fn crc_corruption_is_caught() {
    let mut file = Vec::new();
    {
        let mut wal = Wal::open(0, 0);
        append(&mut wal, &mut file, &WalRecord::upsert(h(1), 1, bits(&[1.0, 2.0]), vec![]));
        append(&mut wal, &mut file, &WalRecord::upsert(h(2), 2, bits(&[3.0, 4.0]), vec![]));
    }
    file[12] ^= 0xFF;
    let (recs, _) = Wal::recover(&file);
    assert_eq!(recs.len(), 0);
}

#[test]
fn records_are_framed_with_length_and_checksum() {
    let rec = WalRecord::upsert(h(1), 2, bits(&[1.0]), vec![7]);
    let body = rec.encode_body();
    let mut expected = vec![0u8];
    expected.extend_from_slice(&65536u64.to_le_bytes());
    expected.extend_from_slice(&2u64.to_le_bytes());
    expected.extend_from_slice(&1u32.to_le_bytes());
    expected.extend_from_slice(&1.0f32.to_le_bytes());
    expected.extend_from_slice(&1u32.to_le_bytes());
    expected.push(7);
    assert_eq!(body, expected);
    let frame = rec.encode_frame();
    assert_eq!(frame[..4], ((body.len() + 4) as u32).to_le_bytes());
    assert_eq!(frame[4..8], crc32fast::hash(&body).to_le_bytes());
    assert_eq!(frame[8..], body[..]);
    assert_eq!(framed_len(&rec), frame.len() as u64);
    assert_eq!(crc32fast::hash(b"123456789"), 0xCBF4_3926);
    assert_eq!(decode_body(&body), Some(rec.clone()));
    assert_eq!(decode_body(&body[..body.len() - 1]), None);
    let mut wrong = body.clone();
    wrong[0] = 9;
    assert_eq!(decode_body(&wrong), None);
    assert_eq!((WalOp::from_u8(0), WalOp::from_u8(1)), (Some(WalOp::Upsert), Some(WalOp::Delete)));
    assert_eq!((WalOp::from_u8(2), WalOp::Delete.to_u8()), (None, 1));
}

#[test]
fn a_log_cut_anywhere_keeps_its_complete_records() {
    let mut file = Vec::new();
    let mut wal = Wal::open(0, 5);
    assert!(!wal.syncs_every_record());
    let mut ends = Vec::new();
    for i in 0..4u64 {
        ends.push(append(&mut wal, &mut file, &WalRecord::upsert(h(i), i, bits(&[i as f32]), vec![])));
    }
    assert!(wal.dirty);
    wal.flush();
    assert!(!wal.dirty);
    assert_eq!(wal.offset(), file.len() as u64);
    for cut in 0..=file.len() {
        let (recs, end) = Wal::recover(&file[..cut]);
        let whole = ends.iter().filter(|e| **e <= cut as u64).count();
        assert_eq!(recs.len(), whole);
        assert_eq!(end, if whole == 0 { 0 } else { ends[whole - 1] });
        let (again, same) = Wal::recover(&file[..end as usize]);
        assert_eq!((again, same), (recs, end));
    }
    assert!(Wal::open(0, 0).syncs_every_record());
}

fn hint(target: u64, id: u64, hlc: u64, del: bool) -> Hint {
    Hint {
        target_node: target,
        collection: "c".into(),
        shard_idx: 2,
        op: if del { WalOp::Delete } else { WalOp::Upsert },
        hlc: Hlc::new(hlc, 0),
        id,
        vector: if del { vec![] } else { bits(&[1.0, 2.0]) },
        payload: if del { vec![] } else { vec![7] },
    }
}

#[test]
fn append_and_read_roundtrip() {
    let mut file = Vec::new();
    {
        let (mut log, _) = HintLog::open(&[]);
        file.extend_from_slice(&log.append(&hint(3, 10, 1, false)));
        file.extend_from_slice(&log.append(&hint(3, 11, 2, false)));
        file.extend_from_slice(&log.append(&hint(4, 10, 3, true)));
        assert!(log.dirty);
        log.flush();
        assert!(!log.dirty);
    }
    let all = HintLog::read_all(&file);
    assert_eq!(all.len(), 3);
    assert_eq!(all[0], hint(3, 10, 1, false));
    assert_eq!(all[2].op, WalOp::Delete);
    let for_3: Vec<_> = all.iter().filter(|h| h.target_node == 3).collect();
    assert_eq!(for_3.len(), 2);
}

#[test]
fn torn_tail_is_dropped() {
    let mut file = Vec::new();
    let (mut log, _) = HintLog::open(&[]);
    file.extend_from_slice(&log.append(&hint(3, 10, 1, false)));
    file.extend_from_slice(&100u32.to_le_bytes());
    file.extend_from_slice(&[1, 2, 3]);
    let all = HintLog::read_all(&file);
    assert_eq!(all.len(), 1, "torn tail must be dropped");
}

#[test]
fn hint_after_a_torn_tail_is_read() {
    let mut file = Vec::new();
    let (mut log, end) = HintLog::open(&file);
    assert_eq!(end, 0);
    file.extend_from_slice(&log.append(&hint(3, 10, 1, false)));
    let intact = file.len();
    file.extend_from_slice(&100u32.to_le_bytes());
    file.extend_from_slice(&[1, 2, 3]);

    let (mut log, end) = HintLog::open(&file);
    assert!(!log.dirty);
    assert_eq!(end, intact as u64);
    assert_eq!(HintLog::recover(&file), (vec![hint(3, 10, 1, false)], intact as u64));
    file.truncate(end as usize);
    file.extend_from_slice(&log.append(&hint(4, 11, 2, true)));
    assert_eq!(HintLog::read_all(&file), vec![hint(3, 10, 1, false), hint(4, 11, 2, true)]);
    assert_eq!(HintLog::open(&file).1, file.len() as u64);
}

#[test]
fn hints_are_rewritten_as_they_were() {
    let all = vec![hint(3, 10, 1, false), hint(4, 11, 2, true)];
    let bytes = HintLog::rewrite(&all);
    assert_eq!(HintLog::read_all(&bytes), all);
    let body = encode_hint(&all[0]);
    assert_eq!(decode_hint(&body), Some(all[0].clone()));
    assert_eq!(decode_hint(&body[..body.len() - 1]), None);
    let mut named = hint(3, 10, 1, false);
    named.collection = "gr\u{fc}n".into();
    assert_eq!(decode_hint(&encode_hint(&named)), Some(named.clone()));
    let at = encode_hint(&named).iter().position(|b| *b == 0xC3).unwrap();
    let mut broken = encode_hint(&named);
    broken[at] = 0xFF;
    assert_eq!(decode_hint(&broken), None);
}

/// The files of a shard.
#[derive(Default)]
struct Disk {
    log: Vec<u8>,
    snapshot: Option<Vec<u8>>,
}

type Image = (
    u64,
    (usize, u8, usize, usize, usize),
    Vec<(u64, Vec<u32>, Vec<Vec<u32>>)>,
    HashMap<u64, u32>,
    Vec<bool>,
    usize,
    Option<u32>,
    u64,
    Vec<(u64, u64, bool)>,
);

fn snapshot_bytes(
    offset: u64,
    idx: &HnswIndex<Kernel>,
    versions: &HashMap<u64, VersionEntry>,
) -> Vec<u8> {
    let metric = match idx.metric {
        Metric::L2 => 0u8,
        Metric::Cosine => 1u8,
    };
    let image: Image = (
        offset,
        (idx.dim, metric, idx.params.m, idx.params.m0, idx.params.ef_construction),
        idx.nodes
            .iter()
            .map(|n| (n.id, n.vector.clone(), n.neighbors.clone()))
            .collect(),
        idx.id_to_node.clone(),
        idx.deleted.clone(),
        idx.live,
        idx.entry_point,
        idx.rng.state,
        versions.iter().map(|(id, v)| (*id, v.hlc.pack(), v.tombstone)).collect(),
    );
    bincode::serialize(&image).unwrap()
}

fn load_snapshot(bytes: &[u8]) -> Snapshot<Kernel> {
    let image: Image = bincode::deserialize(bytes).unwrap();
    let (wal_offset, facts, nodes, id_to_node, deleted, live, entry_point, state, versions) = image;
    let (dim, metric, m, m0, ef_construction) = facts;
    let index = HnswIndex {
        dim,
        metric: if metric == 0 { Metric::L2 } else { Metric::Cosine },
        params: HnswParams { m, m0, ef_construction },
        nodes: nodes
            .into_iter()
            .map(|(id, vector, neighbors)| Node { id, vector, neighbors })
            .collect(),
        id_to_node,
        deleted,
        live,
        entry_point,
        rng: SplitMix64 { state },
        kernel: KERNEL,
    };
    assert!(index.is_well_formed());
    Snapshot {
        wal_offset,
        index,
        versions: versions
            .into_iter()
            .map(|(id, hlc, tombstone)| (id, VersionEntry { hlc: Hlc::unpack(hlc), tombstone }))
            .collect(),
    }
}

impl Disk {
    fn open(&mut self, dim: usize) -> Shard<Kernel> {
        let snapshot = self.snapshot.as_ref().map(|b| load_snapshot(b));
        let (shard, end) =
            Shard::open(dim, Metric::L2, KERNEL, 128, 0, snapshot, &self.log).unwrap();
        self.log.truncate(end as usize);
        shard
    }

    fn write(&mut self, shard: &mut Shard<Kernel>, w: PendingWrite) -> bool {
        self.log.extend_from_slice(&w.frame);
        shard.commit(w).unwrap().removed
    }

    fn settle(&mut self, shard: &mut Shard<Kernel>, staged: Staged) -> WriteOutcome {
        let outcome = staged.outcome();
        if let Staged::Append(w) = staged {
            self.write(shard, w);
        }
        outcome
    }

    fn put(&mut self, shard: &mut Shard<Kernel>, hlc: Hlc, id: u64, v: &[f32]) -> WriteOutcome {
        let staged = shard.upsert_versioned(hlc, id, &bits(v), vec![]).unwrap();
        self.settle(shard, staged)
    }

    fn del(&mut self, shard: &mut Shard<Kernel>, hlc: Hlc, id: u64) -> WriteOutcome {
        let staged = shard.delete_versioned(hlc, id);
        self.settle(shard, staged)
    }

    fn upsert(&mut self, shard: &mut Shard<Kernel>, hlc: Hlc, id: u64, v: &[f32]) {
        let w = shard.upsert(hlc, id, &bits(v), vec![]).unwrap();
        self.write(shard, w);
    }

    fn delete(&mut self, shard: &mut Shard<Kernel>, hlc: Hlc, id: u64) -> bool {
        let w = shard.delete(hlc, id);
        self.write(shard, w)
    }

    fn snapshot_now(&mut self, shard: &mut Shard<Kernel>) {
        shard.flush();
        let (offset, versions) = shard.snapshot_now();
        self.snapshot = Some(snapshot_bytes(offset, &shard.index, &versions));
        shard.snapshot_taken(offset);
    }
}

#[test]
fn write_load_roundtrip() {
    let mut idx = HnswIndex::new(4, Metric::L2, KERNEL);
    for i in 0..100u64 {
        idx.insert(i, &bits(&[i as f32, 0.0, 1.0, 2.0])).unwrap();
    }
    let versions = HashMap::new();
    let loaded = load_snapshot(&snapshot_bytes(4096, &idx, &versions));
    assert_eq!(loaded.wal_offset, 4096);
    assert_eq!(loaded.index.len(), 100);

    let q = bits(&[5.0, 0.0, 1.0, 2.0]);
    assert_eq!(
        idx.search(&q, 5, 64).unwrap(),
        loaded.index.search(&q, 5, 64).unwrap()
    );
}

#[test]
fn lww_rejects_stale_and_keeps_winner() {
    let mut disk = Disk::default();
    let mut shard = disk.open(2);

    assert_eq!(disk.put(&mut shard, h(10), 1, &[1.0, 1.0]), WriteOutcome::Applied);
    assert_eq!(disk.put(&mut shard, h(5), 1, &[9.0, 9.0]), WriteOutcome::Stale);
    assert_eq!(shard.get(1), Some(bits(&[1.0, 1.0])));
    assert_eq!(shard.version(1).unwrap().hlc, h(10));

    assert_eq!(disk.put(&mut shard, h(20), 1, &[2.0, 2.0]), WriteOutcome::Applied);
    assert_eq!(shard.get(1), Some(bits(&[2.0, 2.0])));
    assert_eq!(shard.version(1).unwrap().hlc, h(20));

    assert_eq!(disk.put(&mut shard, h(20), 1, &[3.0, 3.0]), WriteOutcome::Stale);
    assert_eq!(shard.get(1), Some(bits(&[2.0, 2.0])));
}

#[test]
fn lww_tombstone_versioned() {
    let mut disk = Disk::default();
    let mut shard = disk.open(2);

    disk.put(&mut shard, h(10), 1, &[1.0, 1.0]);
    assert_eq!(disk.del(&mut shard, h(20), 1), WriteOutcome::Applied);
    assert_eq!(shard.get(1), None);
    assert!(shard.version(1).unwrap().tombstone);

    assert_eq!(disk.put(&mut shard, h(15), 1, &[7.0, 7.0]), WriteOutcome::Stale);
    assert_eq!(shard.get(1), None);

    assert_eq!(disk.put(&mut shard, h(30), 1, &[7.0, 7.0]), WriteOutcome::Applied);
    assert_eq!(shard.get(1), Some(bits(&[7.0, 7.0])));
}

#[test]
fn versions_survive_snapshot_and_recovery() {
    let mut disk = Disk::default();
    {
        let mut shard = disk.open(2);
        disk.put(&mut shard, h(10), 1, &[1.0, 1.0]);
        disk.put(&mut shard, h(20), 2, &[2.0, 2.0]);
        disk.del(&mut shard, h(30), 2);
        disk.snapshot_now(&mut shard);
        disk.put(&mut shard, h(40), 3, &[3.0, 3.0]);
    }
    let mut shard = disk.open(2);
    assert_eq!(shard.version(1).unwrap().hlc, h(10));
    assert!(shard.version(2).unwrap().tombstone);
    assert_eq!(shard.version(2).unwrap().hlc, h(30));
    assert_eq!(shard.version(3).unwrap().hlc, h(40));
    assert_eq!(disk.put(&mut shard, h(5), 1, &[9.0, 9.0]), WriteOutcome::Stale);
}

#[test]
fn write_then_reopen_recovers() {
    let mut disk = Disk::default();
    {
        let mut shard = disk.open(3);
        for i in 0..50u64 {
            disk.upsert(&mut shard, h(i + 1), i, &[i as f32, 0.0, 1.0]);
        }
        assert!(disk.delete(&mut shard, h(1000), 0));
        assert_eq!(shard.len(), 49);
    }
    let shard = disk.open(3);
    assert_eq!(shard.len(), 49);
    assert!(shard.get(0).is_none());
    assert!(shard.get(1).is_some());
}

#[test]
fn snapshot_plus_tail_replay() {
    let mut disk = Disk::default();
    {
        let mut shard = disk.open(2);
        for i in 0..30u64 {
            disk.upsert(&mut shard, h(i + 1), i, &[i as f32, 1.0]);
        }
        disk.snapshot_now(&mut shard);
        for i in 30..60u64 {
            disk.upsert(&mut shard, h(i + 1), i, &[i as f32, 1.0]);
        }
        assert_eq!(shard.len(), 60);
    }
    let shard = disk.open(2);
    assert_eq!(shard.len(), 60);
    for i in 0..60u64 {
        assert!(shard.get(i).is_some(), "missing id {i} after recovery");
    }
}

#[test]
fn recovery_matches_replay_reference() {
    let mut disk = Disk::default();
    {
        let mut shard = disk.open(2);
        for i in 0..40u64 {
            disk.upsert(&mut shard, h(i + 1), i, &[i as f32, 2.0]);
        }
        disk.snapshot_now(&mut shard);
        for i in 40..80u64 {
            disk.upsert(&mut shard, h(i + 1), i, &[i as f32, 2.0]);
        }
        disk.delete(&mut shard, h(9999), 5);
    }
    let recovered = disk.open(2);

    let (records, _) = Wal::recover(&disk.log);
    let mut reference = HnswIndex::new(2, Metric::L2, KERNEL);
    let mut ref_versions = HashMap::new();
    for rec in &records {
        apply_record(&mut reference, &mut ref_versions, rec).unwrap();
    }

    assert_eq!(recovered.len(), reference.len());
    for qi in 0..20u64 {
        let q = bits(&[qi as f32, 2.0]);
        let a: Vec<u64> = recovered.search(&q, 5, 64).unwrap().into_iter().map(|(id, _)| id).collect();
        let b: Vec<u64> = reference.search(&q, 5, 64).unwrap().into_iter().map(|(id, _)| id).collect();
        assert_eq!(a, b, "recovered vs replay-reference mismatch at q={qi}");
    }
}

#[test]
fn a_crash_at_any_byte_keeps_acknowledged_writes() {
    let mut disk = Disk::default();
    let mut acked: Vec<(usize, u64)> = Vec::new();
    {
        let mut shard = disk.open(1);
        for i in 0..12u64 {
            disk.put(&mut shard, h(i + 1), i, &[i as f32]);
            acked.push((disk.log.len(), i));
        }
    }
    for cut in 0..=disk.log.len() {
        let mut crashed = Disk { log: disk.log[..cut].to_vec(), snapshot: None };
        let shard = crashed.open(1);
        let kept = acked.iter().filter(|(end, _)| *end <= cut).count();
        assert_eq!(shard.len(), kept);
        for (end, id) in &acked {
            assert_eq!(shard.get(*id).is_some(), *end <= cut);
        }
    }
}

#[test]
fn replicas_converge_in_any_order() {
    let writes = [(h(3), 1u64, Some(3.0f32)), (h(7), 1, None), (h(5), 1, Some(5.0)), (h(2), 2, Some(2.0))];
    let run = |order: &[usize]| {
        let mut disk = Disk::default();
        let mut shard = disk.open(1);
        for i in order {
            match writes[*i] {
                (hlc, id, Some(x)) => disk.put(&mut shard, hlc, id, &[x]),
                (hlc, id, None) => disk.del(&mut shard, hlc, id),
            };
        }
        let reopened = disk.open(1);
        for id in 1..=2u64 {
            assert_eq!(reopened.version(id), shard.version(id));
            assert_eq!(reopened.get(id), shard.get(id));
        }
        (shard.version(1), shard.get(1), shard.version(2), shard.get(2))
    };
    let first = run(&[0, 1, 2, 3]);
    assert_eq!(first.0, Some(PointVersion { hlc: h(7), tombstone: true }));
    assert_eq!(first, run(&[3, 2, 1, 0]));
    assert_eq!(first, run(&[2, 0, 3, 1]));
}

#[test]
fn a_transfer_rebuilds_a_shard() {
    let mut disk = Disk::default();
    let mut source = disk.open(1);
    disk.put(&mut source, h(3), 1, &[3.0]);
    disk.put(&mut source, h(4), 2, &[4.0]);
    disk.del(&mut source, h(5), 2);
    let mut other = Disk::default();
    let mut target = other.open(1);
    let mut records = source.records();
    assert_eq!(records.len(), 2);
    records.reverse();
    for p in records {
        if p.tombstone {
            other.del(&mut target, p.hlc, p.id);
        } else {
            let staged = target.upsert_versioned(p.hlc, p.id, &p.vector, p.payload).unwrap();
            other.settle(&mut target, staged);
        }
    }
    for id in 1..=3u64 {
        assert_eq!(target.version(id), source.version(id));
        assert_eq!(target.get(id), source.get(id));
    }
    let got = source.get_versioned(1).unwrap();
    assert_eq!((got.id, got.hlc, got.tombstone, got.vector), (1, h(3), false, bits(&[3.0])));
    assert!(source.get_versioned(2).unwrap().tombstone);
    assert!(source.get_versioned(3).is_none());
}

#[test]
fn snapshots_fall_due_with_the_log() {
    let mut log = Vec::new();
    let (mut shard, end) = Shard::open(2, Metric::L2, KERNEL, 1, 0, None, &log).unwrap();
    assert_eq!(end, 0);
    assert!(shard.is_empty());
    let mut due = Vec::new();
    for i in 1..=2u64 {
        let w = shard.upsert(h(i), i, &bits(&[1.0, 2.0]), vec![0; 600_000]).unwrap();
        log.extend_from_slice(&w.frame);
        let done = shard.commit(w).unwrap();
        assert!(!done.removed);
        due.push(done.snapshot_due);
    }
    assert_eq!(due, vec![false, true]);
    assert!(shard.snapshot_due());
    assert_eq!(shard.wal_offset(), log.len() as u64);
    shard.snapshot_taken(log.len() as u64);
    assert_eq!(shard.last_snapshot_offset, log.len() as u64);
    assert!(!shard.snapshot_due());
}

#[test]
fn a_checked_open_is_an_open() {
    let mut disk = Disk::default();
    let mut shard = disk.open(2);
    disk.put(&mut shard, h(1), 1, &[1.0, 2.0]);
    disk.put(&mut shard, h(2), 1, &[3.0, 4.0]);
    disk.put(&mut shard, h(3), 2, &[5.0, 6.0]);
    let end = disk.log.len() as u64;
    disk.log.extend_from_slice(&[9, 0, 0, 0, 1]);
    let (again, cut) =
        Shard::open_checked(2, Metric::L2, KERNEL, 1, 0, None, &disk.log).unwrap().unwrap();
    assert_eq!(cut, end);
    assert_eq!((again.len(), again.wal_offset()), (2, shard.wal_offset()));
    for id in 1..=2 {
        assert_eq!(again.get(id), shard.get(id));
        assert_eq!(again.version(id), shard.version(id));
    }
    assert!(matches!(
        Shard::open_checked(3, Metric::L2, KERNEL, 1, 0, None, &disk.log),
        Some(Err(ShardError::Index(IndexError::DimMismatch { expected: 3, got: 2 })))
    ));
    // The error names the first vector that does not fit, and a refused write leaves the
    // index as it was.
    let mut other = Disk::default();
    let mut wide = other.open(3);
    other.put(&mut wide, h(1), 1, &[1.0, 2.0, 3.0]);
    let longer = shard.upsert(h(9), 9, &bits(&[1.0, 2.0]), vec![]).unwrap();
    other.log.extend_from_slice(&longer.frame);
    assert_eq!(
        Shard::open(3, Metric::L2, KERNEL, 1, 0, None, &other.log).err(),
        Some(ShardError::Index(IndexError::DimMismatch { expected: 3, got: 2 }))
    );
    assert_eq!(
        Shard::open(2, Metric::L2, KERNEL, 1, 0, None, &other.log).err(),
        Some(ShardError::Index(IndexError::DimMismatch { expected: 2, got: 3 }))
    );
    assert!(wide.commit(longer).is_err());
    assert_eq!((wide.len(), wide.index.total_nodes(), wide.get(9)), (1, 1, None));
}

#[test]
fn vectors_of_another_dimension_are_refused() {
    let mut disk = Disk::default();
    let mut shard = disk.open(2);
    let wrong = Err(ShardError::DimMismatch { expected: 2, got: 1 });
    assert_eq!(shard.upsert(h(1), 1, &bits(&[1.0]), vec![]).map(|_| ()), wrong);
    assert_eq!(shard.upsert_versioned(h(1), 1, &bits(&[1.0]), vec![]).map(|_| ()), wrong);
    disk.put(&mut shard, h(1), 1, &[1.0, 2.0]);
    assert_eq!(
        Shard::open(3, Metric::L2, KERNEL, 1, 0, None, &disk.log).err(),
        Some(ShardError::Index(IndexError::DimMismatch { expected: 3, got: 2 }))
    );
    assert_eq!(
        shard.search(&bits(&[1.0]), 1, 1).unwrap_err().message(),
        "index: dimension mismatch: index is 2-d, got 1-d"
    );
    assert_eq!(wrong.unwrap_err().message(), "dimension mismatch: shard is 2-d, got 1-d");
}

#[test]
fn frames_are_read_and_settled() {
    let bytes = frame(&[1, 2, 3], 77);
    assert_eq!(bytes, vec![7, 0, 0, 0, 77, 0, 0, 0, 1, 2, 3]);
    assert_eq!(read_frame(&bytes, 0), Some((77, 11)));
    assert_eq!(read_frame(&bytes[..10], 0), None);
    assert_eq!(read_frame(&[3, 0, 0, 0, 0, 0, 0, 0], 0), None);
    assert_eq!(settle_frame(77, 11, 77), Some(11));
    assert_eq!(settle_frame(77, 11, 78), None);
    assert_eq!(next_frame(&bytes, 0), None);
    assert_eq!(next_frame(&frame(&[1, 2, 3], crc32fast::hash(&[1, 2, 3])), 0), Some(11));
}
