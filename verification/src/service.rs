//! The client service: checks of requests, defaults, and how errors are answered.

use vstd::prelude::*;

use crate::manager::{schema_with_defaults, ManagerError};
use crate::meta::{CollectionSchema, MetaState, Metric, ShardAssignment, ShardState};
use crate::queue::insert_sorted;
use crate::router::RouterError;
use crate::text::{parse_u64, same, split_once};

verus! {

use vstd::std_specs::iter::IteratorSpec;
use crate::manager::{DEFAULT_REPLICATION_N, DEFAULT_SHARD_COUNT};
use crate::meta::{assignment_views, map_rows};
use crate::queue::ascending;
use crate::text::{
    decimal, joining_undoes_split, numbers_are_read, parsed_u64, split_at_first, split_undoes_joining,
};

broadcast use vstd::std_specs::btree::group_btree_axioms;

/// Results that a search returns where the request names no number.
pub const DEFAULT_K: u32 = 10;

/// Search breadth where the request names none.
pub const DEFAULT_EF_SEARCH: u32 = 64;

/// The status that a request is answered with where it fails.
#[derive(Debug, Clone, Copy, PartialEq, Eq, Structural)]
pub enum Code {
    InvalidArgument,
    NotFound,
    AlreadyExists,
    FailedPrecondition,
    Unavailable,
    Internal,
}

/// A metric as a request names it.
#[derive(Debug, Clone, Copy, PartialEq, Eq, Structural)]
pub enum WireMetric {
    Unspecified,
    L2,
    Cosine,
}

/// A shard state as a response names it.
#[derive(Debug, Clone, Copy, PartialEq, Eq, Structural)]
pub enum WireShardState {
    Active,
    Syncing,
    Dead,
}

/// Why a collection cannot be created as asked.
#[derive(Debug, Clone, Copy, PartialEq, Eq, Structural)]
pub enum CreateError {
    /// The collection name is empty.
    EmptyName,
    /// dim must be > 0.
    ZeroDim,
    /// The metric must be L2 or COSINE.
    NoMetric,
}

impl CreateError {
    /// The error in words.
    pub fn message(self) -> (r: String)
        ensures
            r@ == match self {
                CreateError::EmptyName => "collection name is empty"@,
                CreateError::ZeroDim => "dim must be > 0"@,
                CreateError::NoMetric => "metric must be L2 or COSINE"@,
            },
    {
        match self {
            CreateError::EmptyName => "collection name is empty".to_owned(),
            CreateError::ZeroDim => "dim must be > 0".to_owned(),
            CreateError::NoMetric => "metric must be L2 or COSINE".to_owned(),
        }
    }
}

/// The metric that a request names.
pub fn metric_from_proto(m: WireMetric) -> (r: Result<Metric, CreateError>)
    ensures
        r == match m {
            WireMetric::L2 => Ok::<Metric, CreateError>(Metric::L2),
            WireMetric::Cosine => Ok(Metric::Cosine),
            WireMetric::Unspecified => Err(CreateError::NoMetric),
        },
{
    match m {
        WireMetric::L2 => Ok(Metric::L2),
        WireMetric::Cosine => Ok(Metric::Cosine),
        WireMetric::Unspecified => Err(CreateError::NoMetric),
    }
}

/// The schema of a collection that is to be created, with defaults for what the
/// request leaves at zero.
pub fn create_collection(
    name: &str,
    dim: u32,
    metric: WireMetric,
    shard_count: u32,
    replication_n: u32,
) -> (r: Result<CollectionSchema, CreateError>)
    ensures
        match r {
            Ok(schema) => {
                &&& name@.len() > 0
                &&& dim > 0
                &&& schema.dim == dim
                &&& match metric {
                    WireMetric::L2 => schema.metric == Metric::L2,
                    WireMetric::Cosine => schema.metric == Metric::Cosine,
                    WireMetric::Unspecified => false,
                }
                &&& schema.shard_count == if shard_count == 0 {
                    DEFAULT_SHARD_COUNT
                } else {
                    shard_count
                }
                &&& schema.replication_n == if replication_n == 0 {
                    DEFAULT_REPLICATION_N
                } else {
                    replication_n
                }
            },
            Err(e) => e == if name@.len() == 0 {
                CreateError::EmptyName
            } else if dim == 0 {
                CreateError::ZeroDim
            } else {
                CreateError::NoMetric
            } && (name@.len() == 0 || dim == 0 || metric == WireMetric::Unspecified),
        },
{
    if name.is_empty() {
        return Err(CreateError::EmptyName);
    }
    if dim == 0 {
        return Err(CreateError::ZeroDim);
    }
    match metric_from_proto(metric) {
        Ok(metric) => Ok(schema_with_defaults(dim, metric, shard_count, replication_n)),
        Err(e) => Err(e),
    }
}

/// How the note of a committed creation is answered: a collection that exists is an
/// error.
pub fn create_outcome(note: &str) -> (r: Result<(), Code>)
    ensures
        r == if note@ == "exists"@ {
            Err::<(), Code>(Code::AlreadyExists)
        } else {
            Ok(())
        },
{
    if same(note, "exists") {
        Err(Code::AlreadyExists)
    } else {
        Ok(())
    }
}

/// How the note of a committed drop is answered: a collection that was not there is an
/// error.
pub fn drop_outcome(note: &str) -> (r: Result<(), Code>)
    ensures
        r == if note@ == "absent"@ {
            Err::<(), Code>(Code::NotFound)
        } else {
            Ok(())
        },
{
    if same(note, "absent") {
        Err(Code::NotFound)
    } else {
        Ok(())
    }
}

/// How a cluster-manager error is answered.
pub fn manager_err_to_status(e: &ManagerError) -> (r: Code)
    ensures
        r == match *e {
            ManagerError::NotLeader(_) => Code::FailedPrecondition,
            ManagerError::Invalid(_) => Code::InvalidArgument,
            ManagerError::Serde(_) => Code::Internal,
            ManagerError::Raft(_) => Code::Internal,
        },
{
    match e {
        ManagerError::NotLeader(_) => Code::FailedPrecondition,
        ManagerError::Invalid(_) => Code::InvalidArgument,
        ManagerError::Serde(_) => Code::Internal,
        ManagerError::Raft(_) => Code::Internal,
    }
}

/// How a routing error is answered.
pub fn router_err_to_status(e: &RouterError) -> (r: Code)
    ensures
        r == match *e {
            RouterError::NotFound(_) => Code::NotFound,
            RouterError::DimMismatch { .. } => Code::InvalidArgument,
            RouterError::NoReplica { .. } => Code::Unavailable,
            RouterError::WriteQuorum { .. } => Code::Unavailable,
            RouterError::ReadQuorum { .. } => Code::Unavailable,
            RouterError::Shard(_) => Code::Internal,
            RouterError::ShardFiles(_) => Code::Internal,
            RouterError::Hint(_) => Code::Internal,
        },
{
    match e {
        RouterError::NotFound(_) => Code::NotFound,
        RouterError::DimMismatch { .. } => Code::InvalidArgument,
        RouterError::NoReplica { .. } => Code::Unavailable,
        RouterError::WriteQuorum { .. } => Code::Unavailable,
        RouterError::ReadQuorum { .. } => Code::Unavailable,
        RouterError::Shard(_) => Code::Internal,
        RouterError::ShardFiles(_) => Code::Internal,
        RouterError::Hint(_) => Code::Internal,
    }
}

/// The number of results and the breadth of a search, with defaults for zeros.
pub fn search_limits(k: u32, ef_search: u32) -> (r: (u32, u32))
    ensures
        r.0 == if k == 0 {
            DEFAULT_K
        } else {
            k
        },
        r.1 == if ef_search == 0 {
            DEFAULT_EF_SEARCH
        } else {
            ef_search
        },
{
    (
        if k == 0 {
            DEFAULT_K
        } else {
            k
        },
        if ef_search == 0 {
            DEFAULT_EF_SEARCH
        } else {
            ef_search
        },
    )
}

pub fn shard_state_to_proto(s: ShardState) -> (r: WireShardState)
    ensures
        r == match s {
            ShardState::Active => WireShardState::Active,
            ShardState::Syncing => WireShardState::Syncing,
            ShardState::Dead => WireShardState::Dead,
        },
{
    match s {
        ShardState::Active => WireShardState::Active,
        ShardState::Syncing => WireShardState::Syncing,
        ShardState::Dead => WireShardState::Dead,
    }
}

/// What `node_id@host:port` names: a number, an `@`, and an address that is not empty.
pub open spec fn join_target(s: Seq<char>) -> Option<(u64, Seq<char>)> {
    match split_at_first(s, '@') {
        Some((id, addr)) => match parsed_u64(id) {
            Some(n) => if addr.len() == 0 {
                None
            } else {
                Some((n, addr))
            },
            None => None,
        },
        None => None,
    }
}

/// Parse a join target of the form `node_id@host:port`.
pub fn parse_join_target(s: &str) -> (r: Option<(u64, String)>)
    ensures
        match r {
            Some((id, addr)) => join_target(s@) == Some((id, addr@)),
            None => join_target(s@) is None,
        },
{
    match split_once(s, '@') {
        None => None,
        Some((id, addr)) => match parse_u64(id) {
            None => None,
            Some(n) => {
                if addr.is_empty() {
                    None
                } else {
                    Some((n, addr.to_owned()))
                }
            },
        },
    }
}

/// What a node says of the cluster: the nodes in the order of their ids, the shard map
/// and the leader's id, 0 where none is known.
#[derive(Debug)]
pub struct ClusterInfo {
    pub nodes: Vec<(u64, String)>,
    pub shard_map: Vec<ShardAssignment>,
    pub raft_leader: u64,
}

/// `r` lists the directory `nodes` in the order of the ids.
pub open spec fn lists_nodes(nodes: Map<u64, Seq<char>>, r: Seq<(u64, String)>) -> bool {
    &&& forall|i: int, j: int| 0 <= i < j < r.len() ==> (#[trigger] r[i]).0 < (#[trigger] r[j]).0
    &&& forall|i: int|
        0 <= i < r.len() ==> nodes.contains_key((#[trigger] r[i]).0) && r[i].1@ == nodes[r[i].0]
    &&& forall|id: u64| #[trigger]
        nodes.contains_key(id) ==> exists|i: int| 0 <= i < r.len() && (#[trigger] r[i]).0 == id
}

/// The directory in the order of the ids.
fn node_list(meta: &MetaState) -> (r: Vec<(u64, String)>)
    ensures
        lists_nodes(meta@.nodes, r@),
{
    let mut ids: Vec<u64> = Vec::new();
    let ghost all = vstd::std_specs::btree::spec_keys_iter(&meta.nodes).remaining();
    for id in iter: meta.nodes.keys()
        invariant
            iter.seq() == all,
            all.no_duplicates(),
            ascending(ids@),
            ids@.no_duplicates(),
            forall|x: u64|
                ids@.contains(x) <==> exists|j: int| 0 <= j < iter.index() && *#[trigger] all[j] == x,
    {
        proof {
            if ids@.contains(*id) {
                let j = choose|j: int| 0 <= j < iter.index() && *#[trigger] all[j] == *id;
                assert(all[j] == all[iter.index()]);
            }
        }
        insert_sorted(&mut ids, *id);
    }
    proof {
        assert forall|x: u64| ids@.contains(x) <==> meta.nodes@.contains_key(x) by {
            if meta.nodes@.contains_key(x) {
                assert(all.unref().to_set().contains(x));
                let j = all.unref().index_of(x);
                assert(all.unref()[j] == x);
                assert(*all[j] == x);
            }
            if ids@.contains(x) {
                let j = choose|j: int| 0 <= j < all.len() && *#[trigger] all[j] == x;
                assert(all.unref()[j] == x);
                assert(all.unref().to_set().contains(x));
            }
        }
    }
    let n: usize = ids.len();
    let mut out: Vec<(u64, String)> = Vec::new();
    let mut i: usize = 0;
    while i < n
        invariant
            n == ids@.len(),
            i <= n,
            forall|x: u64| ids@.contains(x) <==> meta.nodes@.contains_key(x),
            out@.len() == i,
            forall|j: int|
                0 <= j < i ==> (#[trigger] out@[j]).0 == ids@[j] && out@[j].1@
                    == meta@.nodes[ids@[j]],
        decreases n - i,
    {
        let id: u64 = ids[i];
        assert(ids@.contains(id));
        match meta.nodes.get(&id) {
            Some(addr) => out.push((id, addr.clone())),
            None => {
                assert(false);
            },
        }
        i = i + 1;
    }
    proof {
        assert forall|a: int, b: int| 0 <= a < b < out@.len() implies (#[trigger] out@[a]).0 < (
        #[trigger] out@[b]).0 by {
            assert(ids@[a] <= ids@[b]);
            assert(ids@[a] != ids@[b]);
        }
        assert forall|a: int| 0 <= a < out@.len() implies meta@.nodes.contains_key(
            (#[trigger] out@[a]).0,
        ) by {
            assert(ids@.contains(ids@[a]));
        }
        assert forall|id: u64| #[trigger] meta@.nodes.contains_key(id) implies exists|a: int|
            0 <= a < out@.len() && (#[trigger] out@[a]).0 == id by {
            let a = ids@.index_of(id);
            assert(ids@.contains(id));
            assert(out@[a].0 == id);
        }
    }
    out
}

/// What this node says of the cluster.
pub fn cluster_info(meta: &MetaState, leader: Option<u64>) -> (r: ClusterInfo)
    requires
        meta.wf(),
    ensures
        lists_nodes(meta@.nodes, r.nodes@),
        assignment_views(r.shard_map@) == map_rows(meta@, meta.collections.names()),
        r.raft_leader == match leader {
            Some(id) => id,
            None => 0,
        },
{
    ClusterInfo {
        nodes: node_list(meta),
        shard_map: meta.shard_map(),
        raft_leader: match leader {
            Some(id) => id,
            None => 0,
        },
    }
}

/// A join target is read back from a number, an `@` and an address that is not empty; it
/// is refused where the `@`, the number or the address is missing.
pub proof fn join_target_is_read_back(id: u64, addr: Seq<char>, s: Seq<char>)
    ensures
        addr.len() > 0 ==> join_target(decimal(id as nat).push('@') + addr) == Some((id, addr)),
        join_target(decimal(id as nat).push('@')) is None,
        !s.contains('@') ==> join_target(s) is None,
        !s.contains('@') && parsed_u64(s) is None ==> join_target(s.push('@') + addr) is None,
{
    let d = decimal(id as nat);
    numbers_are_read(id as nat, d, 0);
    assert(!d.contains('@')) by {
        crate::text::decimal_digits(id as nat);
        if d.contains('@') {
            let i = d.index_of('@');
            assert(crate::text::is_digit(d[i]));
        }
    }
    split_undoes_joining(d, '@', addr);
    split_undoes_joining(d, '@', Seq::empty());
    assert(d.push('@') + Seq::<char>::empty() =~= d.push('@'));
    if !s.contains('@') {
        split_undoes_joining(s, '@', addr);
    }
}

/// A join target names what it was read from: the address is what follows the first `@`
/// and the number what stands before it.
pub proof fn join_target_names_its_text(s: Seq<char>)
    requires
        join_target(s) is Some,
    ensures
        exists|id: Seq<char>|
            s == #[trigger] id.push('@') + join_target(s).unwrap().1 && !id.contains('@') && parsed_u64(id) == Some(
                join_target(s).unwrap().0,
            ),
        join_target(s).unwrap().1.len() > 0,
{
    joining_undoes_split(s, '@');
    let (a, b) = split_at_first(s, '@').unwrap();
    assert(s == a.push('@') + b);
}

} // verus!
