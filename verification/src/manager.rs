//! Decisions of the cluster manager, the node-facing handle over the replicated
//! metadata log.

use std::collections::BTreeSet;

use vstd::prelude::*;

use crate::meta::{CollectionSchema, MetaRequest, Metric};
use crate::text::{contains, join, parse_u64, split_once, to_decimal};

verus! {

use crate::text::{decimal, holds, parsed_u64, split_at_first, text_holds_its_parts};

broadcast use vstd::std_specs::btree::group_btree_axioms;

/// Shards of a collection that was created without a shard count.
pub const DEFAULT_SHARD_COUNT: u32 = 8;

/// Replicas per shard of a collection that was created without a replica count.
pub const DEFAULT_REPLICATION_N: u32 = 3;

/// How often joining a peer is tried.
pub const JOIN_ATTEMPTS: u32 = 120;

/// Pause after a failed attempt to join a peer, in milliseconds.
pub const JOIN_WAIT_MS: u64 = 500;

/// Coarse cluster-manager error.
#[derive(Debug, PartialEq, Eq)]
pub enum ManagerError {
    Raft(String),
    NotLeader(String),
    Serde(String),
    Invalid(String),
}

impl ManagerError {
    /// The error in words.
    pub open spec fn text(self) -> Seq<char> {
        match self {
            ManagerError::Raft(s) => "raft: "@ + s@,
            ManagerError::NotLeader(s) => "not the leader"@ + s@,
            ManagerError::Serde(s) => "serialization: "@ + s@,
            ManagerError::Invalid(s) => "invalid request: "@ + s@,
        }
    }

    /// The error in words.
    pub fn message(&self) -> (r: String)
        ensures
            r@ == self.text(),
    {
        match self {
            ManagerError::Raft(s) => join("raft: ", s.as_str()),
            ManagerError::NotLeader(s) => join("not the leader", s.as_str()),
            ManagerError::Serde(s) => join("serialization: ", s.as_str()),
            ManagerError::Invalid(s) => join("invalid request: ", s.as_str()),
        }
    }
}

/// Build a [`CollectionSchema`] applying the server-side defaults for zero-valued
/// shard_count / replication_n.
pub fn schema_with_defaults(dim: u32, metric: Metric, shard_count: u32, replication_n: u32) -> (r:
    CollectionSchema)
    ensures
        r == (CollectionSchema {
            dim,
            metric,
            shard_count: if shard_count == 0 {
                DEFAULT_SHARD_COUNT
            } else {
                shard_count
            },
            replication_n: if replication_n == 0 {
                DEFAULT_REPLICATION_N
            } else {
                replication_n
            },
        }),
{
    CollectionSchema {
        dim,
        metric,
        shard_count: if shard_count == 0 {
            DEFAULT_SHARD_COUNT
        } else {
            shard_count
        },
        replication_n: if replication_n == 0 {
            DEFAULT_REPLICATION_N
        } else {
            replication_n
        },
    }
}

/// What the founding node has to commit once the cluster is initialized: nothing where
/// it already was, as after a restart, else its own address.
pub fn bootstrap(already: bool, node_id: u64, advertise_addr: &str) -> (r: Option<MetaRequest>)
    ensures
        match r {
            Some(req) => !already && (req matches MetaRequest::RegisterNode {
                node_id: n,
                advertise_addr: a,
            } && n == node_id && a@ == advertise_addr@),
            None => already,
        },
{
    if already {
        None
    } else {
        Some(MetaRequest::RegisterNode { node_id, advertise_addr: advertise_addr.to_owned() })
    }
}

/// The voters once a node has joined.
pub fn join_node(voters: BTreeSet<u64>, new_id: u64) -> (r: BTreeSet<u64>)
    ensures
        r@ == voters@.insert(new_id),
{
    let mut voters = voters;
    let _new: bool = voters.insert(new_id);
    voters
}

/// What a peer to join, given at launch, names.
#[derive(Debug, PartialEq, Eq)]
pub enum JoinPeer {
    /// Nothing: there is no `@` in it.
    Nobody,
    /// The part before the first `@` is not a node id.
    BadId,
    /// A node id, and as its address all that follows the first `@`.
    Peer(u64, String),
}

/// Read a peer to join that was given at launch as `node_id@host:port`.
pub fn join_peer(target: &str) -> (r: JoinPeer)
    ensures
        match split_at_first(target@, '@') {
            None => r is Nobody,
            Some((id, addr)) => match parsed_u64(id) {
                None => r is BadId,
                Some(n) => r matches JoinPeer::Peer(m, a) && m == n && a@ == addr,
            },
        },
{
    match split_once(target, '@') {
        None => JoinPeer::Nobody,
        Some((id, addr)) => match parse_u64(id) {
            None => JoinPeer::BadId,
            Some(n) => JoinPeer::Peer(n, addr.to_owned()),
        },
    }
}

/// What follows an attempt to join a peer.
#[derive(Debug, Clone, Copy, PartialEq, Eq, Structural)]
pub struct JoinNext {
    /// The peer is to be tried again, after the pause.
    pub again: bool,
    /// The pause, in milliseconds.
    pub wait_ms: u64,
    /// The failure is worth a line in the log.
    pub warn: bool,
}

/// What follows the attempt number `attempt`, the first being 0: nothing where it
/// succeeded. After a failure there is a pause and, up to the last attempt, another try;
/// every tenth failure is logged.
pub open spec fn join_step(attempt: u32, ok: bool) -> JoinNext {
    if ok {
        JoinNext { again: false, wait_ms: 0, warn: false }
    } else {
        JoinNext {
            again: attempt + 1 < JOIN_ATTEMPTS,
            wait_ms: JOIN_WAIT_MS,
            warn: attempt % 10 == 0,
        }
    }
}

/// What follows an attempt to join a peer that is still starting.
pub fn join_next(attempt: u32, ok: bool) -> (r: JoinNext)
    ensures
        r == join_step(attempt, ok),
{
    if ok {
        JoinNext { again: false, wait_ms: 0, warn: false }
    } else {
        JoinNext {
            again: attempt < JOIN_ATTEMPTS - 1,
            wait_ms: JOIN_WAIT_MS,
            warn: attempt % 10 == 0,
        }
    }
}

/// The attempt with which joining ends, from `attempt` on, where `ok` says which succeed.
pub open spec fn last_join(ok: spec_fn(u32) -> bool, attempt: u32) -> u32
    decreases JOIN_ATTEMPTS - attempt,
{
    if join_step(attempt, ok(attempt)).again {
        last_join(ok, (attempt + 1) as u32)
    } else {
        attempt
    }
}

/// Joining ends with the first attempt that succeeds, and with the last one where none
/// does.
pub proof fn join_ends_with_first_success(ok: spec_fn(u32) -> bool, attempt: u32)
    requires
        attempt < JOIN_ATTEMPTS,
    ensures
        attempt <= last_join(ok, attempt) < JOIN_ATTEMPTS,
        forall|i: u32| attempt <= i < last_join(ok, attempt) ==> !#[trigger] ok(i),
        last_join(ok, attempt) < JOIN_ATTEMPTS - 1 ==> ok(last_join(ok, attempt)),
    decreases JOIN_ATTEMPTS - attempt,
{
    if join_step(attempt, ok(attempt)).again {
        join_ends_with_first_success(ok, (attempt + 1) as u32);
    }
}

/// Why a node cannot leave, in words.
pub open spec fn not_a_voter(node_id: u64) -> Seq<char> {
    "node "@ + decimal(node_id as nat) + " is not a current voter"@
}

/// The voters once a node has left. It has to be a voter, and not the last one.
pub fn leave_node(voters: BTreeSet<u64>, node_id: u64) -> (r: Result<BTreeSet<u64>, ManagerError>)
    ensures
        match r {
            Ok(rest) => voters@.contains(node_id) && rest@ == voters@.remove(node_id) && rest@
                != Set::<u64>::empty(),
            Err(ManagerError::Invalid(why)) => if !voters@.contains(node_id) {
                why@ == not_a_voter(node_id)
            } else {
                voters@.remove(node_id) == Set::<u64>::empty() && why@
                    == "refusing to remove the last voter"@
            },
            Err(_) => false,
        },
{
    let mut rest = voters;
    if !rest.remove(&node_id) {
        let head: String = join("node ", to_decimal(node_id).as_str());
        return Err(ManagerError::Invalid(join(head.as_str(), " is not a current voter")));
    }
    if rest.is_empty() {
        assert(rest@ =~= Set::<u64>::empty());
        return Err(ManagerError::Invalid("refusing to remove the last voter".to_owned()));
    }
    Ok(rest)
}

/// A write that failed because this node does not lead.
pub open spec fn is_forward(error: Seq<char>) -> bool {
    holds(error, "ForwardToLeader"@) || holds(error, "not the leader"@)
}

/// The error of a failed write. A write on a node that does not lead is the common,
/// recoverable case and is told apart, so that the caller can redirect.
pub fn write_error(error: &str) -> (r: ManagerError)
    ensures
        match r {
            ManagerError::NotLeader(why) => is_forward(error@) && why@ == ": "@ + error@,
            ManagerError::Raft(why) => !is_forward(error@) && why@ == "client_write: "@ + error@,
            _ => false,
        },
{
    if contains(error, "ForwardToLeader") || contains(error, "not the leader") {
        ManagerError::NotLeader(join(": ", error))
    } else {
        ManagerError::Raft(join("client_write: ", error))
    }
}

/// What a message between the consensus nodes carries.
#[derive(Debug, Clone, Copy, PartialEq, Eq, Structural)]
pub enum RaftRpcKind {
    Unspecified,
    Vote,
    Append,
    Snapshot,
}

/// What a consensus node is called with.
#[derive(Debug, Clone, Copy, PartialEq, Eq, Structural)]
pub enum RaftRpc {
    Vote,
    AppendEntries,
    InstallSnapshot,
}

/// What a consensus node does with a message of a kind: one that names none is refused.
pub fn handle_raft_rpc(kind: RaftRpcKind) -> (r: Result<RaftRpc, ManagerError>)
    ensures
        match r {
            Ok(rpc) => match kind {
                RaftRpcKind::Vote => rpc == RaftRpc::Vote,
                RaftRpcKind::Append => rpc == RaftRpc::AppendEntries,
                RaftRpcKind::Snapshot => rpc == RaftRpc::InstallSnapshot,
                RaftRpcKind::Unspecified => false,
            },
            Err(e) => kind == RaftRpcKind::Unspecified && (e matches ManagerError::Invalid(why) && why@
                == "unspecified raft rpc kind"@),
        },
{
    match kind {
        RaftRpcKind::Vote => Ok(RaftRpc::Vote),
        RaftRpcKind::Append => Ok(RaftRpc::AppendEntries),
        RaftRpcKind::Snapshot => Ok(RaftRpc::InstallSnapshot),
        RaftRpcKind::Unspecified => {
            Err(ManagerError::Invalid("unspecified raft rpc kind".to_owned()))
        },
    }
}

/// Leaving undoes joining.
pub proof fn leave_undoes_join(voters: Set<u64>, id: u64)
    requires
        !voters.contains(id),
    ensures
        voters.insert(id).remove(id) == voters,
{
    assert(voters.insert(id).remove(id) =~= voters);
}

/// A success ends joining. A failure is followed by a pause of half a second and another
/// attempt, except after the last of 120; the first failure and every tenth after it is
/// logged.
pub proof fn failed_join_is_tried_again(attempt: u32)
    ensures
        !join_step(attempt, true).again,
        join_step(attempt, true).wait_ms == 0,
        !join_step(attempt, true).warn,
        join_step(attempt, false).again <==> attempt < 119,
        join_step(attempt, false).wait_ms == 500,
        join_step(attempt, false).warn <==> attempt as int % 10 == 0,
{
}

/// Whatever else an error says, it is one of a node that does not lead where it holds one
/// of the two phrases, and no such error where it holds neither.
pub proof fn forward_is_told_by_its_words(before: Seq<char>, after: Seq<char>, error: Seq<char>)
    ensures
        is_forward(before + "ForwardToLeader"@ + after),
        is_forward(before + "not the leader"@ + after),
        is_forward(error) ==> holds(error, "ForwardToLeader"@) || holds(error, "not the leader"@),
{
    text_holds_its_parts(before, "ForwardToLeader"@, after, error);
    text_holds_its_parts(before, "not the leader"@, after, error);
}

} // verus!
