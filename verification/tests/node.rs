//! The node: configuration, launch options, requests, routing and coordination.

use quorvec::args::{inline_config, next_val, parse_args, ArgsError};
use quorvec::config::{default_snapshot_wal_mb, default_vnodes, ConfigError, NodeConfig};
use quorvec::distance::Metric as IndexMetric;
use quorvec::hints::Hint;
use quorvec::hlc::{Hlc, HlcClock};
use quorvec::manager::ManagerError;
use quorvec::meta::{CollectionSchema, MetaRequest, MetaState, Metric, ShardState};
use quorvec::router::{
    coordinate_delete, coordinate_get, coordinate_upsert, endpoint_of, hint_write, hints_for,
    live_value, local_repair, merge_answers, merge_hits, plan_delete, plan_get, plan_read_repair, plan_upsert,
    receive_write, repair_write, replay_hints,
    replay_targets, replicate_write, schema_of, start_search, Answer, Consistency, GetRun,
    RouterError, SearchStep, OP_DELETE, OP_UPSERT,
};
use quorvec::service::{
    cluster_info, create_collection, create_outcome, drop_outcome, manager_err_to_status, metric_from_proto,
    parse_join_target, router_err_to_status, search_limits, shard_state_to_proto, Code,
    CreateError, WireMetric, WireShardState,
};
use quorvec::shard::{Shard, ShardError, Staged, WriteOutcome};
use quorvec::shards::{
    metric_from_cluster, shard_dir_name, ShardStore, ShardStoreError, StoredPoint,
};
use quorvec::store::{Store, StoreError};
use quorvec::transfer::{
    apply_replica_get, apply_stream_shard, from_wire, pull_record, pull_shard, to_wire, WirePoint,
};
use quorvec::wal::{WalOp, WalRecord};

type Kernel = fn(IndexMetric, &[u32], &[u32]) -> u32;

fn kernel(_m: IndexMetric, a: &[u32], b: &[u32]) -> u32 {
    let mut sq = 0.0f32;
    for (x, y) in a.iter().zip(b.iter()) {
        let d = f32::from_bits(*x) - f32::from_bits(*y);
        sq += d * d;
    }
    sq.to_bits()
}

const KERNEL: Kernel = kernel;

fn bits(v: &[f32]) -> Vec<u32> {
    v.iter().map(|x| x.to_bits()).collect()
}

fn config_from(text: &str) -> NodeConfig {
    let table: toml::Table = text.parse().unwrap();
    let number = |key: &str| table.get(key).map(|v| v.as_integer().unwrap());
    let string = |key: &str| table.get(key).map(|v| v.as_str().unwrap().to_string());
    NodeConfig::from_settings(
        number("node_id").unwrap() as u64,
        string("listen_addr").unwrap(),
        string("advertise_addr"),
        string("data_dir").unwrap(),
        None,
        number("wal_batch_ms").map(|n| n as u64),
        number("snapshot_wal_mb").map(|n| n as u64),
        number("vnodes").map(|n| n as u32),
    )
}

#[test]
fn parses_minimal_config() {
    let toml = r#"
            node_id = 1
            listen_addr = "127.0.0.1:7000"
            data_dir = "/tmp/qv"
        "#;
    let cfg = config_from(toml);
    cfg.validate().unwrap();
    assert_eq!(cfg.node_id, 1);
    assert_eq!(cfg.vnodes, 64);
    assert_eq!(cfg.snapshot_wal_mb, 128);
    assert_eq!(cfg.wal_batch_ms, 0);
    assert_eq!(cfg.advertise(), cfg.listen_addr);
}

#[test]
fn rejects_zero_vnodes() {
    let toml = r#"
            node_id = 1
            listen_addr = "127.0.0.1:7000"
            data_dir = "/tmp/qv"
            vnodes = 0
        "#;
    let cfg = config_from(toml);
    assert!(cfg.validate().is_err());
}

#[test]
fn configs_are_checked_and_defaulted() {
    let mut cfg = config_from("node_id = 2\nlisten_addr = \"a:1\"\nadvertise_addr = \"b:2\"\ndata_dir = \"d\"");
    assert_eq!(cfg.advertise(), "b:2");
    assert!(cfg.raft.peers.is_empty());
    cfg.snapshot_wal_mb = 0;
    assert_eq!(cfg.validate(), Err(ConfigError::ZeroSnapshotWalMb));
    cfg.vnodes = 0;
    assert_eq!(cfg.validate(), Err(ConfigError::ZeroVnodes));
    assert_eq!(ConfigError::ZeroVnodes.message(), "invalid config: vnodes must be > 0");
    assert_eq!(
        ConfigError::ZeroSnapshotWalMb.message(),
        "invalid config: snapshot_wal_mb must be > 0"
    );
    assert_eq!((default_snapshot_wal_mb(), default_vnodes()), (128, 64));
}

fn strings(v: &[&str]) -> Vec<String> {
    v.iter().map(|s| s.to_string()).collect()
}

fn parse(v: &[&str]) -> Result<quorvec::args::LaunchArgs, ArgsError> {
    let args = strings(v);
    let addrs = args
        .iter()
        .map(|a| if a == "127.0.0.1:7000" || a == "[::1]:80" { Some(a.clone()) } else { None })
        .collect();
    parse_args(&args, &addrs)
}

#[test]
fn launch_options_are_read() {
    let a = parse(&[
        "--node-id", "7", "--listen", "127.0.0.1:7000", "--advertise", "host:1", "--data-dir",
        "C:\\data", "--bootstrap", "--join", "2@b:1,,3@c:1", "--join", "4@d:1",
    ])
    .unwrap();
    assert_eq!(a.node_id, Some(7));
    assert!(a.bootstrap);
    assert_eq!(a.join_targets, strings(&["2@b:1", "3@c:1", "4@d:1"]));
    assert_eq!(
        inline_config(&a).unwrap(),
        "node_id = 7\nlisten_addr = \"127.0.0.1:7000\"\ndata_dir = \"C:/data\"\nadvertise_addr = \"host:1\"\n"
    );
    let b = parse(&["--listen", "[::1]:80"]).unwrap();
    assert_eq!(
        inline_config(&b).unwrap(),
        "node_id = 1\nlisten_addr = \"[::1]:80\"\ndata_dir = \"./qv-data\"\n"
    );
    let c = parse(&["--config", "node.toml"]).unwrap();
    assert_eq!(c.config_path.as_deref(), Some("node.toml"));
    assert_eq!(inline_config(&c), None);
}

#[test]
fn wrong_launch_options_are_refused() {
    assert_eq!(parse(&["--config"]).err(), Some(ArgsError::MissingValue("--config".into())));
    assert_eq!(parse(&["--node-id", "x"]).err(), Some(ArgsError::BadNodeId("x".into())));
    assert_eq!(parse(&["--listen", "nowhere"]).err(), Some(ArgsError::BadListen("nowhere".into())));
    assert_eq!(parse(&["--nope"]).err(), Some(ArgsError::Unknown("--nope".into())));
    assert_eq!(parse(&["--bootstrap", "-h"]).err(), Some(ArgsError::Help));
    assert_eq!(parse(&["--help"]).err(), Some(ArgsError::Help));
    let args = strings(&["--join", "v"]);
    assert_eq!(next_val(&args, 0), Ok("v"));
    assert_eq!(next_val(&args, 1), Err(ArgsError::MissingValue("v".into())));
}

#[test]
fn join_targets_name_a_node_and_an_address() {
    assert_eq!(parse_join_target("12@host:7000"), Some((12, "host:7000".to_string())));
    assert_eq!(parse_join_target("+5@h"), Some((5, "h".to_string())));
    assert_eq!(parse_join_target("18446744073709551615@h"), Some((u64::MAX, "h".to_string())));
    for wrong in ["host:7000", "x@h", "@h", "1@", "18446744073709551616@h", ""] {
        assert_eq!(parse_join_target(wrong), None);
    }
}

#[test]
fn create_upsert_search_flow() {
    let mut store = Store::new(KERNEL);
    store.create_collection("c", 3, IndexMetric::L2, 0, 0).unwrap();

    let schema = store.schema("c").unwrap();
    assert_eq!(schema.shard_count, 8);
    assert_eq!(schema.replication_n, 3);

    let pts = vec![
        (1u64, bits(&[0.0, 0.0, 0.0])),
        (2u64, bits(&[1.0, 0.0, 0.0])),
        (3u64, bits(&[9.0, 9.0, 9.0])),
    ];
    assert_eq!(store.upsert("c", &pts).unwrap(), 3);

    let res = store.search("c", &bits(&[0.0, 0.0, 0.0]), 2, 64).unwrap();
    assert_eq!(res[0].0, 1);
    assert_eq!(res[1].0, 2);

    assert_eq!(store.delete("c", &[1]).unwrap(), 1);
    let res = store.search("c", &bits(&[0.0, 0.0, 0.0]), 1, 64).unwrap();
    assert_eq!(res[0].0, 2);
}

#[test]
fn duplicate_create_rejected() {
    let mut store = Store::new(KERNEL);
    store.create_collection("c", 2, IndexMetric::L2, 1, 1).unwrap();
    assert!(matches!(
        store.create_collection("c", 2, IndexMetric::L2, 1, 1),
        Err(StoreError::AlreadyExists(_))
    ));
}

#[test]
fn ops_on_missing_collection() {
    let store = Store::new(KERNEL);
    assert!(matches!(
        store.search("nope", &bits(&[0.0]), 1, 64),
        Err(StoreError::NotFound(_))
    ));
}

#[test]
fn store_errors_are_exact() {
    let mut store = Store::new(KERNEL);
    let said = |r: Result<(), StoreError>| r.unwrap_err().message();
    assert_eq!(
        said(store.create_collection("", 1, IndexMetric::L2, 0, 0)),
        "invalid argument: collection name is empty"
    );
    assert_eq!(
        said(store.create_collection("c", 0, IndexMetric::L2, 0, 0)),
        "invalid argument: dim must be > 0"
    );
    store.create_collection("c", 2, IndexMetric::L2, 4, 5).unwrap();
    assert_eq!(
        said(store.create_collection("c", 1, IndexMetric::L2, 0, 0)),
        "collection 'c' already exists"
    );
    assert_eq!(said(store.drop_collection("d")), "collection 'd' not found");
    let pts = vec![(1u64, bits(&[1.0, 1.0])), (8, bits(&[1.0])), (2, bits(&[2.0, 2.0]))];
    assert_eq!(
        store.upsert("c", &pts).unwrap_err().message(),
        "invalid argument: point 8: expected dim 2, got 1"
    );
    assert_eq!(store.get("c", &[2, 1, 8, 1]).unwrap(), vec![
        (1, bits(&[1.0, 1.0])),
        (1, bits(&[1.0, 1.0])),
    ]);
    assert_eq!(
        store.search("c", &bits(&[0.0]), 1, 1).unwrap_err().message(),
        "invalid argument: query dim 1 != collection dim 2"
    );
    assert_eq!(store.delete("c", &[1, 1, 9]), Ok(1));
    assert!(store.upsert("x", &pts).is_err() && store.delete("x", &[]).is_err());
    assert!(store.get("x", &[]).is_err() && store.schema("x").is_err());
    assert_eq!(store.collection_count(), 1);
    store.drop_collection("c").unwrap();
    assert_eq!(store.collection_count(), 0);
}

#[test]
fn creation_requests_are_checked() {
    let made = create_collection("c", 4, WireMetric::Cosine, 0, 2).unwrap();
    assert_eq!(
        made,
        CollectionSchema { dim: 4, metric: Metric::Cosine, shard_count: 8, replication_n: 2 }
    );
    let fails = |name: &str, dim: u32, m: WireMetric| create_collection(name, dim, m, 1, 1).unwrap_err();
    assert_eq!(fails("", 0, WireMetric::L2), CreateError::EmptyName);
    assert_eq!(fails("c", 0, WireMetric::Unspecified), CreateError::ZeroDim);
    assert_eq!(fails("c", 1, WireMetric::Unspecified), CreateError::NoMetric);
    assert_eq!(CreateError::EmptyName.message(), "collection name is empty");
    assert_eq!(CreateError::ZeroDim.message(), "dim must be > 0");
    assert_eq!(CreateError::NoMetric.message(), "metric must be L2 or COSINE");
    assert_eq!(metric_from_proto(WireMetric::L2), Ok(Metric::L2));
    assert_eq!(create_outcome("exists"), Err(Code::AlreadyExists));
    assert_eq!(create_outcome("created"), Ok(()));
    assert_eq!(drop_outcome("absent"), Err(Code::NotFound));
    assert_eq!(drop_outcome("dropped"), Ok(()));
    assert_eq!(search_limits(0, 0), (10, 64));
    assert_eq!(search_limits(3, 5), (3, 5));
}

#[test]
fn errors_have_their_status() {
    assert_eq!(manager_err_to_status(&ManagerError::NotLeader("".into())), Code::FailedPrecondition);
    assert_eq!(manager_err_to_status(&ManagerError::Invalid("".into())), Code::InvalidArgument);
    assert_eq!(manager_err_to_status(&ManagerError::Raft("".into())), Code::Internal);
    assert_eq!(manager_err_to_status(&ManagerError::Serde("".into())), Code::Internal);
    let cases = [
        (RouterError::NotFound("c".into()), Code::NotFound, "collection 'c' not found"),
        (
            RouterError::NoReplica { collection: "c".into(), shard_idx: 3 },
            Code::Unavailable,
            "no replica available for c shard 3",
        ),
        (
            RouterError::DimMismatch { expected: 3, got: 2 },
            Code::InvalidArgument,
            "dimension mismatch: collection is 3-d, got 2-d",
        ),
        (
            RouterError::WriteQuorum { collection: "c".into(), shard_idx: 1, needed: 2, got: 0 },
            Code::Unavailable,
            "write quorum not met for c shard 1: needed 2, got 0",
        ),
        (
            RouterError::ReadQuorum { collection: "c".into(), shard_idx: 1, needed: 2, got: 1 },
            Code::Unavailable,
            "read quorum not met for c shard 1: needed 2, got 1",
        ),
        (
            RouterError::Shard(ShardStoreError::Shard(ShardError::DimMismatch { expected: 3, got: 2 })),
            Code::Internal,
            "shard store: shard: dimension mismatch: shard is 3-d, got 2-d",
        ),
        (RouterError::ShardFiles("io: x".into()), Code::Internal, "shard store: shard: io: x"),
        (RouterError::Hint("io".into()), Code::Internal, "hint store: io"),
    ];
    for (e, code, text) in cases {
        assert_eq!(router_err_to_status(&e), code);
        assert_eq!(e.message(), text);
    }
    assert_eq!(shard_state_to_proto(ShardState::Syncing), WireShardState::Syncing);
    assert_eq!(shard_state_to_proto(ShardState::Active), WireShardState::Active);
    assert_eq!(shard_state_to_proto(ShardState::Dead), WireShardState::Dead);
}

#[test]
fn writes_of_the_data_plane_are_staged() {
    let (mut shard, _) = Shard::open(2, IndexMetric::L2, KERNEL, 1, 0, None, &[]).unwrap();
    let rec = |n: u64, v: &[f32]| WalRecord::upsert(Hlc::new(n, 0), 1, bits(v), vec![]);
    let staged = shard.stage(2, rec(5, &[1.0, 2.0])).unwrap();
    assert_eq!(staged.outcome(), WriteOutcome::Applied);
    if let Staged::Append(w) = staged {
        shard.commit(w).unwrap();
    }
    assert_eq!(shard.stage(2, rec(4, &[3.0, 4.0])).unwrap().outcome(), WriteOutcome::Stale);
    let gone = WalRecord::delete(Hlc::new(6, 0), 1);
    assert_eq!(shard.stage(2, gone).unwrap().outcome(), WriteOutcome::Applied);
    let err = |r: Result<Staged, ShardStoreError>| r.unwrap_err().message();
    assert_eq!(err(shard.stage(2, rec(9, &[1.0]))), "dimension mismatch: collection is 2-d, got 1-d");
    assert_eq!(
        err(shard.stage(1, rec(9, &[1.0]))),
        "shard: dimension mismatch: shard is 2-d, got 1-d"
    );
    assert_eq!(metric_from_cluster(Metric::Cosine), IndexMetric::Cosine);
    assert_eq!(shard_dir_name(12), "shard_12");
}

#[test]
fn open_shards_are_kept_by_collection_and_number() {
    let mut store: ShardStore<u32> = ShardStore::new();
    assert!(store.open("a", 0, 10));
    assert!(store.open("a", 1, 11));
    assert!(store.open("b", 0, 20));
    assert!(!store.open("a", 0, 99));
    assert_eq!(store.get("a", 0), Some(&10));
    assert!(store.has_shard("b", 0));
    store.drop_shard("a", 1);
    store.drop_shard("z", 1);
    assert!(store.has_shard("a", 0) && !store.has_shard("a", 1));
    assert!(store.open("a", 1, 12));
    store.drop_collection("a");
    assert!(!store.has_shard("a", 0) && !store.has_shard("a", 1));
    assert_eq!(store.get("b", 0), Some(&20));
}

fn cluster(count: u64) -> MetaState {
    let mut s = MetaState::default();
    for n in 1..=count {
        s.apply(&MetaRequest::RegisterNode { node_id: n, advertise_addr: format!("addr-{n}") });
    }
    s.apply(&MetaRequest::CreateCollection {
        name: "c".into(),
        schema: CollectionSchema { dim: 2, metric: Metric::L2, shard_count: 4, replication_n: 3 },
    });
    s
}

#[test]
fn consistency_levels_count_replicas() {
    assert_eq!(Consistency::from_proto(0), Consistency::Quorum);
    assert_eq!(Consistency::from_proto(1), Consistency::One);
    assert_eq!(Consistency::from_proto(2), Consistency::Quorum);
    assert_eq!(Consistency::from_proto(3), Consistency::All);
    for n in 1..10usize {
        assert_eq!(Consistency::One.count(n), 1);
        assert_eq!(Consistency::Quorum.count(n), n / 2 + 1);
        assert_eq!(Consistency::All.count(n), n);
    }
}

#[test]
fn a_write_succeeds_at_its_quorum_and_hints_the_rest() {
    let meta = cluster(5);
    let mut clock = HlcClock::new();
    let (write, plan) =
        plan_upsert(&meta, &mut clock, 100, "c", 7, bits(&[1.0, 2.0]), vec![3], Consistency::Quorum)
            .unwrap();
    assert_eq!(plan.replicas.len(), 3);
    assert_eq!(plan.needed, 2);
    assert_eq!(write.record.hlc, Hlc::new(100, 0));
    let (hints, ok) = replicate_write("c", &write, &plan, &vec![true, false, true]);
    assert_eq!(ok, Ok(()));
    assert_eq!(hints.len(), 1);
    assert_eq!(hints[0].target_node, plan.replicas[1].0);
    assert_eq!((hints[0].id, hints[0].op, hints[0].vector.clone()), (7, WalOp::Upsert, bits(&[1.0, 2.0])));
    let (hints, failed) = replicate_write("c", &write, &plan, &vec![true, false, false]);
    assert_eq!(hints.len(), 2);
    assert_eq!(
        failed,
        Err(RouterError::WriteQuorum { collection: "c".into(), shard_idx: write.shard_idx, needed: 2, got: 1 })
    );
    assert_eq!(
        plan_upsert(&meta, &mut clock, 100, "c", 7, bits(&[1.0]), vec![], Consistency::One).err(),
        Some(RouterError::DimMismatch { expected: 2, got: 1 })
    );
    assert_eq!(schema_of(&meta, "d").err(), Some(RouterError::NotFound("d".into())));
}

fn answer(node_id: u64, hlc: u64, tombstone: bool, x: f32) -> Answer {
    Answer {
        node_id,
        addr: format!("addr-{node_id}"),
        point: Some(StoredPoint {
            id: 7,
            hlc: Hlc::new(hlc, 0),
            tombstone,
            vector: if tombstone { vec![] } else { bits(&[x, x]) },
            payload: vec![],
        }),
    }
}

#[test]
fn a_read_returns_the_newest_and_repairs_the_rest() {
    let meta = cluster(3);
    let schema = schema_of(&meta, "c").unwrap();
    let plan = plan_get(&meta, "c", &schema, 7, Consistency::All).unwrap();
    assert_eq!(plan.needed, 3);
    let answers = vec![
        answer(1, 5, false, 1.0),
        answer(2, 9, false, 2.0),
        Answer { node_id: 3, addr: "addr-3".into(), point: None },
    ];
    let mut run = GetRun::new();
    let winner = run.answered("c", &plan, &answers).unwrap().unwrap();
    assert_eq!((run.done, run.found.clone()), (1, vec![(7, bits(&[2.0, 2.0]))]));
    assert_eq!(winner.hlc, Hlc::new(9, 0));
    let own = local_repair(&winner);
    assert_eq!((own.op, own.hlc, own.id), (WalOp::Upsert, Hlc::new(9, 0), 7));
    assert_eq!(own.vector, bits(&[2.0, 2.0]));
    let repair = plan_read_repair(1, &answers, &winner);
    assert_eq!(repair.op, OP_UPSERT);
    assert_eq!(repair.local, vec![(1, "addr-1".to_string())]);
    assert_eq!(repair.remote, vec![(3, "addr-3".to_string())]);
    assert_eq!(live_value(winner), Some((7, bits(&[2.0, 2.0]))));
    let gone = merge_answers(&vec![answer(1, 5, false, 1.0), answer(2, 6, true, 0.0)]).unwrap();
    assert_eq!(plan_read_repair(9, &vec![], &gone).op, OP_DELETE);
    assert_eq!(local_repair(&gone).op, WalOp::Delete);
    assert_eq!(live_value(gone), None);
    assert!(merge_answers(&vec![]).is_none());
    assert_eq!(
        run.answered("c", &plan, &vec![]).err(),
        Some(RouterError::ReadQuorum { collection: "c".into(), shard_idx: plan.shard_idx, needed: 3, got: 0 })
    );
    assert_eq!((run.done, run.found.len()), (1, 1));
}

#[test]
fn a_batch_of_reads_returns_the_live_winners_in_order() {
    let mut meta = cluster(3);
    let about = |id: u64, mut a: Answer| {
        if let Some(p) = &mut a.point {
            p.id = id;
        }
        a
    };
    let none = |node_id: u64| Answer { node_id, addr: format!("addr-{node_id}"), point: None };
    let ids = vec![9, 7, 8, 3];
    let answers = [
        vec![about(9, answer(1, 5, false, 1.0)), about(9, answer(2, 9, false, 2.0))],
        vec![about(7, answer(1, 5, false, 1.0)), about(7, answer(3, 6, true, 0.0))],
        vec![none(1), none(2), none(3)],
        vec![about(3, answer(2, 4, false, 4.0)), none(1)],
    ];
    let mut run = GetRun::new();
    while let Some(plan) = coordinate_get(&meta, "c", &ids, &run, Consistency::Quorum).unwrap() {
        assert_eq!(plan.needed, 2);
        let won = run.answered("c", &plan, &answers[run.done]).unwrap();
        assert_eq!(won.is_some(), run.done != 3);
    }
    assert_eq!(run.done, 4);
    assert_eq!(run.found, vec![(9, bits(&[2.0, 2.0])), (3, bits(&[4.0, 4.0]))]);

    let mut short = GetRun::new();
    let plan = coordinate_get(&meta, "c", &ids, &short, Consistency::All).unwrap().unwrap();
    assert_eq!(
        short.answered("c", &plan, &answers[0]).err(),
        Some(RouterError::ReadQuorum { collection: "c".into(), shard_idx: plan.shard_idx, needed: 3, got: 2 })
    );
    assert_eq!((short.done, short.found.len()), (0, 0));

    assert_eq!(
        coordinate_get(&meta, "d", &ids, &short, Consistency::One).err(),
        Some(RouterError::NotFound("d".into()))
    );
    for node_id in 1..=3 {
        meta.apply(&MetaRequest::SetShardState {
            collection: "c".into(),
            shard_idx: plan.shard_idx,
            node_id,
            state: ShardState::Syncing,
        });
    }
    assert_eq!(
        coordinate_get(&meta, "c", &ids, &short, Consistency::One).err(),
        Some(RouterError::NoReplica { collection: "c".into(), shard_idx: plan.shard_idx })
    );
}

#[test]
fn a_search_falls_forward_and_merges() {
    let meta = cluster(3);
    let (mut run, step) = start_search(&meta, "c", 2).unwrap();
    assert!(matches!(step, SearchStep::Ask));
    assert!(matches!(run.unreachable("c"), Ok(SearchStep::Ask)));
    let mut last = SearchStep::Ask;
    for shard in 0..4u64 {
        let hits = vec![(shard, (shard as f32).to_bits()), (shard + 10, 0.5f32.to_bits())];
        last = run.answered(&meta, "c", 4, &hits).unwrap();
    }
    assert!(matches!(last, SearchStep::Done));
    let top = merge_hits(&run.hits, 3);
    assert_eq!(top.iter().map(|h| h.0).collect::<Vec<u64>>(), vec![0, 10, 11]);
    let scored = |id: u64, x: f32| (id, x.to_bits());
    let odd = vec![scored(9, 2.0), scored(7, 1.0), scored(3, f32::NAN)];
    assert_eq!(merge_hits(&odd, 9), vec![odd[2], odd[1], odd[0]]);
    assert_eq!(merge_hits(&odd, 1), vec![odd[2]]);
    let tied = vec![scored(5, 1.0), scored(2, 1.0), scored(5, -0.0), scored(5, 0.0)];
    assert_eq!(merge_hits(&tied, 9), vec![tied[2], tied[3], tied[1], tied[0]]);
    let (mut lost, _) = start_search(&meta, "c", 2).unwrap();
    assert!(lost.unreachable("c").is_ok());
    assert!(lost.unreachable("c").is_ok());
    assert_eq!(
        lost.unreachable("c").err(),
        Some(RouterError::NoReplica { collection: "c".into(), shard_idx: 0 })
    );
    assert_eq!(
        start_search(&meta, "c", 3).err(),
        Some(RouterError::DimMismatch { expected: 2, got: 3 })
    );
}

fn hint(target: u64, id: u64) -> Hint {
    Hint {
        target_node: target,
        collection: "c".into(),
        shard_idx: 1,
        op: WalOp::Delete,
        hlc: Hlc::new(4, 1),
        id,
        vector: vec![],
        payload: vec![],
    }
}

#[test]
fn hints_are_replayed_and_kept() {
    let meta = cluster(2);
    let hints = vec![hint(2, 1), hint(9, 2), hint(2, 3)];
    assert_eq!(
        replay_targets(&meta, &hints),
        vec![Some("addr-2".to_string()), None, Some("addr-2".to_string())]
    );
    let (keep, replayed) = replay_hints(&hints, &vec![true, false, false]);
    assert_eq!((keep, replayed), (vec![hint(9, 2), hint(2, 3)], 1));
    assert_eq!(hints_for(&hints, 2), vec![hint(2, 1), hint(2, 3)]);
    let w = hint_write(&hints[0]);
    assert_eq!((w.op, w.hlc), (OP_DELETE, Hlc::new(4, 1).pack()));
    let mut clock = HlcClock::new();
    let rec = receive_write(&mut clock, 1, w);
    assert_eq!(rec, WalRecord::delete(Hlc::new(4, 1), 1));
    assert!(Hlc::new(4, 1) < clock.now(1));
}

#[test]
fn deletes_are_planned_like_upserts() {
    let mut meta = cluster(3);
    let schema = schema_of(&meta, "c").unwrap();
    let mut clock = HlcClock::new();
    let (write, plan) = plan_delete(&meta, &mut clock, 5, "c", 7, Consistency::All).unwrap();
    assert_eq!((write.record.op, plan.needed), (WalOp::Delete, 3));
    meta.apply(&MetaRequest::SetShardState {
        collection: "c".into(),
        shard_idx: write.shard_idx,
        node_id: 1,
        state: ShardState::Syncing,
    });
    let read = plan_get(&meta, "c", &schema, 7, Consistency::All).unwrap();
    assert_eq!(read.replicas.len(), 2);
    assert!(read.replicas.iter().all(|r| r.0 != 1));
    assert_eq!(endpoint_of("host:1"), "http://host:1");
    assert_eq!(endpoint_of("https://host:1"), "https://host:1");
}

#[test]
fn batches_stop_at_the_first_error() {
    let meta = cluster(3);
    let mut clock = HlcClock::new();
    let points = vec![(1u64, bits(&[1.0, 1.0]), vec![]), (2, bits(&[1.0]), vec![])];
    let mut step = |accepted: usize| {
        coordinate_upsert(&meta, &mut clock, 9, "c", &points, accepted, Consistency::One)
    };
    let (write, plan) = step(0).unwrap().unwrap();
    assert_eq!((write.record.id, plan.needed), (1, 1));
    assert_eq!(step(1).err(), Some(RouterError::DimMismatch { expected: 2, got: 1 }));
    assert!(step(2).unwrap().is_none());
    let ids = vec![4u64];
    let mut clock = HlcClock::new();
    let (write, _) =
        coordinate_delete(&meta, &mut clock, 9, "c", &ids, 0, Consistency::All).unwrap().unwrap();
    assert_eq!(write.record, WalRecord::delete(Hlc::new(9, 0), 4));
    assert!(coordinate_delete(&meta, &mut clock, 9, "c", &ids, 1, Consistency::All).unwrap().is_none());
    assert_eq!(
        coordinate_delete(&meta, &mut clock, 9, "d", &vec![], 0, Consistency::All).err(),
        Some(RouterError::NotFound("d".into()))
    );
}

#[test]
fn a_collection_without_shards_takes_what_needs_none() {
    let mut meta = cluster(3);
    meta.apply(&MetaRequest::CreateCollection {
        name: "bare".into(),
        schema: CollectionSchema { dim: 2, metric: Metric::L2, shard_count: 0, replication_n: 3 },
    });
    let mut clock = HlcClock::new();
    let none = coordinate_upsert(&meta, &mut clock, 9, "bare", &vec![], 0, Consistency::One);
    assert!(none.unwrap().is_none());
    let wrong = vec![(1u64, bits(&[1.0]), vec![])];
    assert_eq!(
        coordinate_upsert(&meta, &mut clock, 9, "bare", &wrong, 0, Consistency::One).err(),
        Some(RouterError::DimMismatch { expected: 2, got: 1 })
    );
    let none = coordinate_delete(&meta, &mut clock, 9, "bare", &vec![], 0, Consistency::One);
    assert!(none.unwrap().is_none());
    let none = coordinate_get(&meta, "bare", &vec![], &GetRun::new(), Consistency::One);
    assert!(none.unwrap().is_none());
}

#[test]
fn a_repair_carries_the_winner() {
    let winner = answer(2, 9, false, 2.0).point.unwrap();
    let w = repair_write("c", 3, &winner);
    assert_eq!((w.collection.as_str(), w.shard_idx, w.op), ("c", 3, OP_UPSERT));
    let mut clock = HlcClock::new();
    let rec = receive_write(&mut clock, 0, w);
    assert_eq!(rec, WalRecord::upsert(Hlc::new(9, 0), 7, bits(&[2.0, 2.0]), vec![]));
}

fn fill(shard: &mut Shard<Kernel>, rec: WalRecord) -> WriteOutcome {
    let staged = shard.stage(2, rec).unwrap();
    let outcome = staged.outcome();
    if let Staged::Append(w) = staged {
        shard.commit(w).unwrap();
    }
    outcome
}

#[test]
fn a_shard_is_streamed_and_pulled() {
    let open = || Shard::open(2, IndexMetric::L2, KERNEL, 1, 0, None, &[]).unwrap().0;
    let mut source = open();
    fill(&mut source, WalRecord::upsert(Hlc::new(3, 1), 1, bits(&[1.0, 2.0]), vec![]));
    fill(&mut source, WalRecord::delete(Hlc::new(4, 0), 2));
    let got = apply_replica_get(&source, &[2, 5, 1]);
    assert_eq!(got, vec![
        WirePoint { id: 2, hlc: Hlc::new(4, 0).pack(), tombstone: true, vector: vec![], payload: vec![] },
        WirePoint {
            id: 1,
            hlc: Hlc::new(3, 1).pack(),
            tombstone: false,
            vector: bits(&[1.0, 2.0]),
            payload: vec![],
        },
    ]);
    let mut target = open();
    fill(&mut target, WalRecord::upsert(Hlc::new(9, 0), 1, bits(&[7.0, 7.0]), vec![]));
    let mut clock = HlcClock::new();
    let streamed = apply_stream_shard(Some(&source));
    assert_eq!(streamed.len(), 2);
    let outcomes: Vec<WriteOutcome> = streamed
        .into_iter()
        .map(|p| fill(&mut target, pull_record(&mut clock, 1, p)))
        .collect();
    assert_eq!(pull_shard(&outcomes), 1);
    assert_eq!(target.get(1), Some(bits(&[7.0, 7.0])));
    assert!(target.version(2).unwrap().tombstone);
    assert!(Hlc::new(4, 0) < clock.now(1));
    let none: Option<&Shard<Kernel>> = None;
    assert!(apply_stream_shard(none).is_empty());
    let p = answer(1, 5, false, 1.0).point.unwrap();
    let back = from_wire(to_wire(p.clone()));
    assert_eq!((back.id, back.hlc, back.vector), (p.id, p.hlc, p.vector));
}

#[test]
fn cluster_info_lists_nodes_shards_and_leader() {
    let meta = cluster(3);
    let info = cluster_info(&meta, Some(2));
    let expected: Vec<(u64, String)> = (1..=3).map(|n| (n, format!("addr-{n}"))).collect();
    assert_eq!(info.nodes, expected);
    assert_eq!(info.shard_map, meta.shard_map());
    assert_eq!(info.shard_map.len(), 12);
    assert_eq!(info.raft_leader, 2);
    assert_eq!(cluster_info(&meta, None).raft_leader, 0);
}
