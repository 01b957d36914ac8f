//! Cluster metadata: placement, the metadata state machine, membership, rebalancing.

use std::collections::BTreeSet;

use quorvec::hlc::{Hlc, HlcClock};
use quorvec::manager::{
    bootstrap, handle_raft_rpc, join_next, join_node, join_peer, leave_node, schema_with_defaults, write_error,
    JoinNext, JoinPeer, ManagerError, RaftRpc, RaftRpcKind,
};
use quorvec::meta::{CollectionSchema, MetaRequest, MetaState, Metric, ShardState};
use quorvec::placement::{shard_for_hash, shard_for_id, Ring, DEFAULT_VNODES};
use quorvec::raft::{EntryPayload, LastApplied, LogStore, Snapshots, StateMachine};
use quorvec::rebalance::{
    acquire_sources, desired_all_active, reconcile_once, sref_of, Acquire, DirectWrite, SetState,
    ShardAction,
};

fn schema(dim: u32, n: u32, shards: u32) -> CollectionSchema {
    CollectionSchema {
        dim,
        metric: Metric::L2,
        shard_count: shards,
        replication_n: n,
    }
}

fn nodes(ids: &[u64]) -> BTreeSet<u64> {
    ids.iter().copied().collect()
}

#[test]
fn create_and_drop_collection() {
    let mut s = MetaState::default();
    assert_eq!(
        s.apply(&MetaRequest::CreateCollection {
            name: "c".into(),
            schema: schema(64, 3, 8),
        })
        .note,
        "created"
    );
    assert_eq!(
        s.apply(&MetaRequest::CreateCollection {
            name: "c".into(),
            schema: schema(64, 3, 8),
        })
        .note,
        "exists"
    );
    assert!(s.collections.contains_key("c"));
    assert_eq!(
        s.apply(&MetaRequest::DropCollection { name: "c".into() }).note,
        "dropped"
    );
    assert!(!s.collections.contains_key("c"));
}

#[test]
fn register_nodes_then_shard_map_populates() {
    let mut s = MetaState::default();
    for n in 1..=5u64 {
        s.apply(&MetaRequest::RegisterNode {
            node_id: n,
            advertise_addr: format!("127.0.0.1:70{n:02}"),
        });
    }
    s.apply(&MetaRequest::CreateCollection {
        name: "vectors".into(),
        schema: schema(64, 3, 8),
    });
    let map = s.shard_map();
    assert_eq!(map.len(), 24);
    assert!(map.iter().all(|a| a.state == ShardState::Active));
    for shard in 0..8u32 {
        let r = s.replicas_for_shard("vectors", shard);
        assert_eq!(r.len(), 3);
        let distinct: BTreeSet<_> = r.iter().copied().collect();
        assert_eq!(distinct.len(), 3);
    }
}

#[test]
fn shard_state_override_and_clear() {
    let mut s = MetaState::default();
    s.apply(&MetaRequest::RegisterNode {
        node_id: 1,
        advertise_addr: "a".into(),
    });
    s.apply(&MetaRequest::SetShardState {
        collection: "c".into(),
        shard_idx: 0,
        node_id: 1,
        state: ShardState::Syncing,
    });
    assert_eq!(s.shard_state("c", 0, 1), ShardState::Syncing);
    s.apply(&MetaRequest::SetShardState {
        collection: "c".into(),
        shard_idx: 0,
        node_id: 1,
        state: ShardState::Active,
    });
    assert_eq!(s.shard_state("c", 0, 1), ShardState::Active);
    assert!(s.shard_states.is_empty());
}

#[test]
fn deregister_node_drops_its_shard_states() {
    let mut s = MetaState::default();
    s.apply(&MetaRequest::RegisterNode {
        node_id: 7,
        advertise_addr: "a".into(),
    });
    s.apply(&MetaRequest::SetShardState {
        collection: "c".into(),
        shard_idx: 2,
        node_id: 7,
        state: ShardState::Dead,
    });
    s.apply(&MetaRequest::DeregisterNode { node_id: 7 });
    assert!(!s.nodes.contains_key(&7));
    assert!(s.shard_states.is_empty());
}

#[test]
fn shard_for_id_is_stable_and_bounded() {
    for id in 0..1000u64 {
        let s = shard_for_id(id, 8);
        assert!(s < 8);
        assert_eq!(s, shard_for_id(id, 8));
    }
}

#[test]
fn shard_distribution_is_reasonable() {
    let mut counts = [0usize; 8];
    for id in 0..100_000u64 {
        counts[shard_for_id(id, 8) as usize] += 1;
    }
    let min = *counts.iter().min().unwrap();
    let max = *counts.iter().max().unwrap();
    assert!(min > 10_000, "min shard underfilled: {min}");
    assert!(max < 15_000, "max shard overfilled: {max}");
}

#[test]
fn replicas_distinct_and_count_capped() {
    let ring = Ring::new(&nodes(&[1, 2, 3, 4, 5]), DEFAULT_VNODES);
    let r = ring.replicas_for_shard("vectors", 0, 3);
    assert_eq!(r.len(), 3, "N=3 with 5 nodes gives 3 replicas");
    let set: BTreeSet<_> = r.iter().copied().collect();
    assert_eq!(set.len(), 3);
}

#[test]
fn replicas_capped_by_cluster_size() {
    let ring = Ring::new(&nodes(&[1, 2]), DEFAULT_VNODES);
    let r = ring.replicas_for_shard("vectors", 0, 3);
    assert_eq!(r.len(), 2);
}

#[test]
fn placement_is_deterministic_across_rebuilds() {
    let a = Ring::new(&nodes(&[10, 20, 30]), DEFAULT_VNODES);
    let b = Ring::new(&nodes(&[30, 10, 20]), DEFAULT_VNODES);
    for shard in 0..8u32 {
        assert_eq!(
            a.replicas_for_shard("c", shard, 2),
            b.replicas_for_shard("c", shard, 2),
            "placement must not depend on membership insertion order"
        );
    }
}

#[test]
fn empty_ring_yields_no_replicas() {
    let ring = Ring::new(&BTreeSet::new(), DEFAULT_VNODES);
    assert!(ring.is_empty());
    assert!(ring.replicas_for_shard("c", 0, 3).is_empty());
}

#[test]
fn adding_a_node_moves_only_some_shards() {
    let before = Ring::new(&nodes(&[1, 2, 3]), DEFAULT_VNODES);
    let after = Ring::new(&nodes(&[1, 2, 3, 4]), DEFAULT_VNODES);
    let shard_count = 64u32;
    let mut moved = 0;
    for s in 0..shard_count {
        let b = before.replicas_for_shard("c", s, 1)[0];
        let a = after.replicas_for_shard("c", s, 1)[0];
        if a != b {
            moved += 1;
        }
    }
    assert!(
        moved < shard_count as usize / 2,
        "too many shards moved on node add: {moved}/{shard_count}"
    );
}

#[test]
fn ids_are_hashed_with_xxh64() {
    for id in [0u64, 1, 42, u64::MAX] {
        let hash = xxhash_rust::xxh64::xxh64(&id.to_le_bytes(), 0);
        assert_eq!(shard_for_id(id, 8), (hash % 8) as u32);
        assert_eq!(shard_for_id(id, 8), shard_for_hash(hash, 8));
    }
    assert_eq!(shard_for_hash(17, 5), 2);
    assert_eq!(xxhash_rust::xxh64::xxh64(b"", 0), 0xEF46_DB37_51D8_E999);
}

#[test]
fn a_join_moves_shards_only_to_the_joiner() {
    let before = Ring::new(&nodes(&[1, 2, 3]), DEFAULT_VNODES);
    let after = Ring::new(&nodes(&[1, 2, 3, 4]), DEFAULT_VNODES);
    assert_eq!(before.node_count(), 3);
    assert_eq!(after.node_count(), 4);
    for s in 0..64u32 {
        let b = before.replicas_for_shard("c", s, 2);
        let a = after.replicas_for_shard("c", s, 2);
        assert!(a.iter().all(|n| *n == 4 || b.contains(n)));
        assert_eq!(before.replicas_for_shard("c", s, 1), b[..1].to_vec());
        let stayed: Vec<u64> = a.iter().copied().filter(|n| *n != 4).collect();
        assert_eq!(stayed, b[..stayed.len()].to_vec());
        assert_eq!(before.replicas_at(Ring::home_position("c", s), 2), b);
    }
    assert!(before.replicas_for_shard("c", 0, 0).is_empty());
}

fn cluster(count: u64) -> MetaState {
    let mut s = MetaState::default();
    for n in 1..=count {
        s.apply(&MetaRequest::RegisterNode {
            node_id: n,
            advertise_addr: format!("addr-{n}"),
        });
    }
    s.apply(&MetaRequest::CreateCollection {
        name: "c".into(),
        schema: schema(4, 2, 3),
    });
    s
}

fn set_state(s: &mut MetaState, shard_idx: u32, node_id: u64, state: ShardState) {
    s.apply(&MetaRequest::SetShardState {
        collection: "c".into(),
        shard_idx,
        node_id,
        state,
    });
}

#[test]
fn metadata_is_equal_whatever_the_order_of_the_requests() {
    let mut a = cluster(3);
    let mut b = a.clone();
    assert_eq!(a, b);
    set_state(&mut a, 1, 2, ShardState::Dead);
    assert_ne!(a, b);
    set_state(&mut a, 0, 3, ShardState::Syncing);
    set_state(&mut a, 0, 1, ShardState::Dead);
    set_state(&mut b, 0, 1, ShardState::Dead);
    set_state(&mut b, 0, 3, ShardState::Dead);
    set_state(&mut b, 1, 2, ShardState::Dead);
    assert_ne!(a, b);
    set_state(&mut b, 0, 3, ShardState::Syncing);
    assert_eq!(a, b);
    let listed: Vec<_> = (0..a.shard_states.len()).map(|i| a.shard_states.entry_at(i)).collect();
    assert_eq!(
        listed,
        vec![
            ("c", 0, 1, ShardState::Dead),
            ("c", 0, 3, ShardState::Syncing),
            ("c", 1, 2, ShardState::Dead),
        ]
    );
    assert_eq!(a.shard_map(), b.shard_map());
}

#[test]
fn requests_are_idempotent() {
    let mut s = cluster(3);
    assert_eq!(s.apply(&MetaRequest::Noop).note, "noop");
    set_state(&mut s, 0, 1, ShardState::Dead);
    set_state(&mut s, 0, 1, ShardState::Dead);
    assert_eq!(s.shard_states.len(), 1);
    assert_eq!(s.shard_states.entry_at(0), ("c", 0, 1, ShardState::Dead));
    assert_eq!(
        s.apply(&MetaRequest::RegisterNode { node_id: 2, advertise_addr: "moved".into() }).note,
        "registered"
    );
    assert_eq!(s.nodes.get(&2).unwrap(), "moved");
    assert_eq!(s.apply(&MetaRequest::DropCollection { name: "c".into() }).note, "dropped");
    assert_eq!(s.apply(&MetaRequest::DropCollection { name: "c".into() }).note, "absent");
    assert!(s.shard_states.is_empty());
    assert_eq!(s.shard_map(), vec![]);
    assert_eq!(s.apply(&MetaRequest::DeregisterNode { node_id: 2 }).note, "deregistered");
    assert_eq!(s.node_set(), nodes(&[1, 3]));
    assert_eq!(s.ring().node_count(), 2);
    assert!(s.replicas_for_shard("c", 0).is_empty());
}

#[test]
fn collections_are_mapped_in_name_order() {
    let mut s = cluster(1);
    s.apply(&MetaRequest::CreateCollection { name: "b".into(), schema: schema(4, 1, 2) });
    let order: Vec<(String, u32, u64)> =
        s.shard_map().into_iter().map(|a| (a.collection, a.shard_idx, a.node_id)).collect();
    let expected: Vec<(String, u32, u64)> = [("b", 0), ("b", 1), ("c", 0), ("c", 1), ("c", 2)]
        .iter()
        .map(|(c, i)| (c.to_string(), *i, 1))
        .collect();
    assert_eq!(order, expected);
    assert_eq!(s.collections.len(), 2);
    assert_eq!(s.collections.name_at(0), "b");
    assert_eq!(s.collections.value_at(1).shard_count, 3);
    assert_eq!(s.collections.get("b").unwrap().shard_count, 2);
    assert!(s.collections.get("a").is_none());
}

#[test]
fn defaults_fill_zeros() {
    assert_eq!(schema_with_defaults(4, Metric::L2, 0, 0), schema(4, 3, 8));
    assert_eq!(schema_with_defaults(4, Metric::L2, 5, 7), schema(4, 7, 5));
}

#[test]
fn a_cluster_is_bootstrapped_once() {
    assert_eq!(
        bootstrap(false, 3, "here"),
        Some(MetaRequest::RegisterNode { node_id: 3, advertise_addr: "here".into() })
    );
    assert_eq!(bootstrap(true, 3, "here"), None);
}

#[test]
fn leaving_undoes_joining() {
    let joined = join_node(nodes(&[1, 2]), 5);
    assert_eq!(joined, nodes(&[1, 2, 5]));
    assert_eq!(leave_node(joined, 5), Ok(nodes(&[1, 2])));
    assert!(matches!(leave_node(nodes(&[5]), 5), Err(ManagerError::Invalid(_))));
}

#[test]
fn peers_to_join_are_read_from_the_launch_options() {
    assert_eq!(join_peer("2@host:7000"), JoinPeer::Peer(2, "host:7000".into()));
    assert_eq!(join_peer("2@a@b"), JoinPeer::Peer(2, "a@b".into()));
    assert_eq!(join_peer("2@"), JoinPeer::Peer(2, "".into()));
    assert_eq!(join_peer("two@host"), JoinPeer::BadId);
    assert_eq!(join_peer("@host"), JoinPeer::BadId);
    assert_eq!(join_peer("host:7000"), JoinPeer::Nobody);
}

#[test]
fn the_shard_map_names_each_replica_once() {
    let mut s = cluster(4);
    s.apply(&MetaRequest::CreateCollection { name: "d".into(), schema: schema(4, 8, 2) });
    let map = s.shard_map();
    let named: std::collections::HashSet<_> =
        map.iter().map(|a| (a.collection.clone(), a.shard_idx, a.node_id)).collect();
    assert_eq!(named.len(), map.len());
    let before = s.clone();
    s.apply(&MetaRequest::CreateCollection { name: "e".into(), schema: schema(4, 2, 2) });
    for (shard_idx, state) in [(0, ShardState::Dead), (1, ShardState::Syncing), (0, ShardState::Active)] {
        s.apply(&MetaRequest::SetShardState { collection: "e".into(), shard_idx, node_id: 1, state });
    }
    assert_ne!(s, before);
    s.apply(&MetaRequest::DropCollection { name: "e".into() });
    assert_eq!(s, before);
}

#[test]
fn joining_is_retried_up_to_the_last_attempt() {
    assert_eq!(join_next(0, true), JoinNext { again: false, wait_ms: 0, warn: false });
    assert_eq!(join_next(0, false), JoinNext { again: true, wait_ms: 500, warn: true });
    assert_eq!(join_next(7, false), JoinNext { again: true, wait_ms: 500, warn: false });
    assert_eq!(join_next(118, false), JoinNext { again: true, wait_ms: 500, warn: false });
    assert_eq!(join_next(119, false), JoinNext { again: false, wait_ms: 500, warn: false });
    let mut attempt = 0;
    let mut warned = 0;
    loop {
        let next = join_next(attempt, attempt == 23);
        warned += next.warn as u32;
        if !next.again {
            break;
        }
        attempt += 1;
    }
    assert_eq!((attempt, warned), (23, 3));
    while join_next(attempt, false).again {
        attempt += 1;
    }
    assert_eq!(attempt + 1, 120);
    assert!(!join_next(u32::MAX, false).again);
}

#[test]
fn manager_errors_say_what_they_are() {
    assert!(matches!(write_error("ForwardToLeader: x"), ManagerError::NotLeader(_)));
    assert!(matches!(write_error("broken"), ManagerError::Raft(_)));
    assert_eq!(ManagerError::Raft("x".into()).message(), "raft: x");
    assert_eq!(ManagerError::Invalid("x".into()).message(), "invalid request: x");
}

#[test]
fn the_log_keeps_what_is_neither_purged_nor_truncated() {
    let mut log: LogStore<u64, &str, u8> = LogStore::new();
    assert_eq!(log.get_log_state(), (None, None));
    log.append((1..=6u64).map(|i| (i, i * 10, "e")).collect());
    assert_eq!(log.get_log_state(), (None, Some(60)));
    assert_eq!(log.try_get_log_entries(2, Some(5)), vec![2, 3, 4]);
    log.truncate(5);
    assert_eq!(log.try_get_log_entries(0, None), vec![1, 2, 3, 4]);
    log.purge(2, 20);
    assert_eq!(log.try_get_log_entries(0, None), vec![3, 4]);
    log.purge(4, 40);
    assert_eq!(log.get_log_state(), (Some(40), Some(40)));
    log.save_vote(9);
    assert_eq!(log.read_vote(), Some(9));
    log.save_committed(Some(40));
    assert_eq!(log.read_committed(), Some(40));
}

#[test]
fn batches_apply_like_single_entries() {
    let entries = || {
        vec![
            (1u64, EntryPayload::Membership(7u8)),
            (2, EntryPayload::Blank),
            (3, EntryPayload::Normal(MetaRequest::RegisterNode {
                node_id: 1,
                advertise_addr: "a".into(),
            })),
            (4, EntryPayload::Normal(MetaRequest::DropCollection { name: "c".into() })),
        ]
    };
    let fresh = || StateMachine { last_applied: None, last_membership: 0u8, state: MetaState::default() };
    let mut one = fresh();
    let notes: Vec<String> = one.apply(entries()).into_iter().map(|r| r.note).collect();
    assert_eq!(notes, vec!["membership", "blank", "registered", "absent"]);
    let mut two = fresh();
    for (id, payload) in entries() {
        two.apply_entry(id, payload);
    }
    assert_eq!(one.last_applied, Some(4));
    assert_eq!(two.last_applied, Some(4));
    assert_eq!((one.last_membership, two.last_membership), (7, 7));
    assert_eq!(one.state.nodes, two.state.nodes);
}

#[test]
fn shards_are_acquired_kept_and_dropped() {
    let mut s = cluster(4);
    let desired = s.replicas_for_shard("c", 0);
    let me = desired[0];
    let outsider = (1..=4u64).find(|n| !desired.contains(n)).unwrap();
    assert_eq!(reconcile_once(&s, me, "c", 0, true, true), ShardAction::Keep);
    assert_eq!(reconcile_once(&s, me, "c", 0, false, false), ShardAction::Acquire);
    assert!(desired_all_active(&s, "c", 0, &desired));
    assert_eq!(reconcile_once(&s, outsider, "c", 0, true, true), ShardAction::Drop);
    assert_eq!(reconcile_once(&s, outsider, "c", 0, false, false), ShardAction::Keep);
    set_state(&mut s, 0, desired[1], ShardState::Syncing);
    assert!(!desired_all_active(&s, "c", 0, &desired));
    assert_eq!(reconcile_once(&s, outsider, "c", 0, true, true), ShardAction::Keep);
}

#[test]
fn a_shard_is_pulled_before_it_is_active() {
    let start = Acquire::start(2);
    assert_eq!(start, Acquire::MarkSyncing);
    let pull = start.next(true, 2);
    assert_eq!(pull, Acquire::Pull { source: 0 });
    let again = pull.next(false, 2);
    assert_eq!(again, Acquire::Pull { source: 1 });
    let active = again.next(true, 2);
    assert_eq!(active, Acquire::MarkActive { pulled: true });
    assert_eq!(active.next(true, 2), Acquire::Done { pulled: true });
    assert_eq!(active.next(false, 2), Acquire::Done { pulled: false });
    assert_eq!(again.next(false, 2), Acquire::Done { pulled: false });
    assert_eq!(start.next(false, 2), Acquire::Done { pulled: false });
    let opened = Acquire::OpenEmpty.next(true, 0);
    assert_eq!(opened, Acquire::MarkActive { pulled: false });
    assert_eq!(opened.next(true, 0), Acquire::Done { pulled: false });
    assert_eq!(Acquire::start(0), Acquire::OpenEmpty);
}

#[test]
fn sources_are_the_other_nodes() {
    let s = cluster(3);
    let sources = acquire_sources(&s, 2, "c", 0);
    assert!(!sources.contains(&"addr-2".to_string()));
    assert!(!sources.is_empty());
    let r = sref_of("c", s.collections.get("c").unwrap(), 2);
    assert_eq!((r.collection, r.shard_idx, r.dim), ("c", 2, 4));
}

#[test]
fn a_state_change_is_forwarded_to_the_leader() {
    assert_eq!(SetState::after_direct(DirectWrite::Committed), SetState::Done { committed: true });
    assert_eq!(SetState::after_direct(DirectWrite::NotLeader), SetState::FindLeader);
    assert_eq!(SetState::after_find(true), SetState::Forward);
    assert_eq!(SetState::after_find(false), SetState::Done { committed: false });
    assert_eq!(SetState::after_forward(Some(true)), SetState::Done { committed: true });
    assert_eq!(SetState::after_forward(None), SetState::Done { committed: false });
}

#[test]
fn stamps_never_go_back() {
    let mut clock = HlcClock::new();
    let a = clock.now(100);
    let b = clock.now(100);
    let c = clock.now(90);
    assert!(a < b && b < c);
    assert_eq!(a, Hlc::new(100, 0));
    assert_eq!(c, Hlc::new(100, 2));
    let d = clock.update(Hlc::new(500, 3), 101);
    assert!(Hlc::new(500, 3) < d && c < d);
    assert!(d < clock.now(501));
    assert!(Hlc::zero().precedes(&a));
}

#[test]
fn snapshots_are_named_and_kept() {
    let last = || Some(LastApplied { log_id: 40u64, leader: "T1-N2", index: 4 });
    let mut snaps = Snapshots::open(last(), 7u8, vec![1]);
    let current = snaps.current.as_ref().unwrap();
    assert_eq!(current.meta.snapshot_id, "T1-N2-4-restored");
    assert_eq!((current.meta.last_log_id, current.meta.last_membership), (Some(40), 7));
    snaps.build(last(), 8, vec![2]);
    snaps.build(last(), 8, vec![3]);
    let current = snaps.current.as_ref().unwrap();
    assert_eq!((current.meta.snapshot_id.as_str(), current.data.clone()), ("T1-N2-4-2", vec![3]));
    let mut fresh: Snapshots<u64, u8> = Snapshots::open(None, 0, vec![]);
    assert!(fresh.current.is_none());
    fresh.build(None, 0, vec![9]);
    assert_eq!(fresh.current.as_ref().unwrap().meta.snapshot_id, "--1");
    fresh.install(snaps.current.unwrap());
    assert_eq!(fresh.current.as_ref().unwrap().data, vec![3]);
    assert_eq!(fresh.built, 1);
}

#[test]
fn an_installed_snapshot_replaces_the_state() {
    let mut machine = StateMachine { last_applied: Some(9u64), last_membership: 1u8, state: cluster(2) };
    machine.install_snapshot(cluster(3), Some(12), 5);
    assert_eq!((machine.last_applied, machine.last_membership), (Some(12), 5));
    assert_eq!(machine.state.nodes.len(), 3);
}

#[test]
fn raft_messages_need_a_kind() {
    assert_eq!(handle_raft_rpc(RaftRpcKind::Vote), Ok(RaftRpc::Vote));
    assert_eq!(handle_raft_rpc(RaftRpcKind::Append), Ok(RaftRpc::AppendEntries));
    assert_eq!(handle_raft_rpc(RaftRpcKind::Snapshot), Ok(RaftRpc::InstallSnapshot));
    assert_eq!(
        handle_raft_rpc(RaftRpcKind::Unspecified).unwrap_err().message(),
        "invalid request: unspecified raft rpc kind"
    );
}

#[test]
fn replicas_are_met_clockwise() {
    let points = vec![(40u64, 3u64), (10, 1), (30, 1), (20, 2)];
    let ring = Ring::from_points(&points, vec![1, 2, 3]);
    assert_eq!(ring.replicas_at(15, 2), vec![2, 1]);
    assert_eq!(ring.replicas_at(20, 1), vec![2]);
    assert_eq!(ring.replicas_at(41, 2), vec![1, 2]);
    assert_eq!(ring.replicas_at(31, 9), vec![3, 1, 2]);
    assert!(ring.replicas_at(31, 0).is_empty());
}
