//! Rebalancing: shard transfer driven by a per-node reconcile pass.
//!
//! Placement is deterministic from the membership, so when the membership changes
//! the desired shard map changes immediately. The data does not move on its own;
//! the pass makes reality catch up without dropping requests:
//!
//! **Acquire (this node is a new desired replica for a shard it lacks).** Mark this
//! replica `Syncing` (excluded from reads, but still receiving writes), pull the
//! shard's full record set from an `Active` replica, and mark this replica `Active`.
//!
//! **Release (this node holds a shard it is no longer a desired replica for).** Once
//! every desired replica of that shard is `Active`, drop the local copy. It is never
//! dropped while a desired replica is still `Syncing`, so a transfer in flight always
//! has its source.

use vstd::prelude::*;

use crate::meta::{CollectionSchema, MetaState, ShardState};
use crate::placement::contains_node;
use crate::router::only_active;
use crate::shards::{metric_from_cluster, ShardRef};

verus! {

use crate::meta::{replicas_of, state_of, MetaView};
use crate::router::active_of;
use crate::shards::index_metric;
use crate::text::texts;

broadcast use vstd::std_specs::btree::group_btree_axioms;

/// Every one of `nodes`, of which there is at least one, holds the shard as Active.
pub open spec fn all_active(s: MetaView, collection: Seq<char>, shard_idx: u32, nodes: Seq<u64>) -> bool {
    nodes.len() > 0 && forall|i: int|
        0 <= i < nodes.len() ==> state_of(s, collection, shard_idx, #[trigger] nodes[i])
            == ShardState::Active
}

/// Whether every desired replica of a shard is currently `Active`.
pub fn desired_all_active(meta: &MetaState, collection: &str, shard_idx: u32, desired: &[u64]) -> (r: bool)
    requires
        meta.wf(),
    ensures
        r == all_active(meta@, collection@, shard_idx, desired@),
{
    if desired.len() == 0 {
        return false;
    }
    let mut i: usize = 0;
    while i < desired.len()
        invariant
            meta.wf(),
            i <= desired@.len(),
            forall|j: int|
                0 <= j < i ==> state_of(meta@, collection@, shard_idx, #[trigger] desired@[j])
                    == ShardState::Active,
        decreases desired@.len() - i,
    {
        if meta.shard_state(collection, shard_idx, desired[i]) != ShardState::Active {
            assert(state_of(meta@, collection@, shard_idx, desired@[i as int])
                != ShardState::Active);
            return false;
        }
        i = i + 1;
    }
    true
}

/// The reference to a shard of a collection.
pub fn sref_of<'a>(collection: &'a str, schema: &CollectionSchema, shard_idx: u32) -> (r: ShardRef<'a>)
    ensures
        r.collection@ == collection@,
        r.shard_idx == shard_idx,
        r.dim == schema.dim,
        r.metric == index_metric(schema.metric),
{
    ShardRef {
        collection,
        shard_idx,
        dim: schema.dim as usize,
        metric: metric_from_cluster(schema.metric),
    }
}

/// What the reconcile pass does about one shard.
#[derive(Debug, Clone, Copy, PartialEq, Eq, Structural)]
pub enum ShardAction {
    /// Nothing.
    Keep,
    /// Acquire it.
    Acquire,
    /// Drop the local copy.
    Drop,
}

/// What node `me` does about a shard that it holds or not, with points in it or not.
pub open spec fn action_for(
    s: MetaView,
    me: u64,
    collection: Seq<char>,
    shard_idx: u32,
    hold: bool,
    nonempty: bool,
) -> ShardAction {
    let desired = replicas_of(s, collection, shard_idx);
    if desired.contains(me) {
        if state_of(s, collection, shard_idx, me) == ShardState::Active && hold && nonempty {
            ShardAction::Keep
        } else {
            ShardAction::Acquire
        }
    } else if hold && all_active(s, collection, shard_idx, desired) {
        ShardAction::Drop
    } else {
        ShardAction::Keep
    }
}

/// Decide what this node does about one shard. A desired replica that is Active and
/// holds points is done; any other desired replica acquires. A copy that is no longer
/// desired is dropped once every desired replica is Active.
pub fn reconcile_once(
    meta: &MetaState,
    me: u64,
    collection: &str,
    shard_idx: u32,
    hold: bool,
    nonempty: bool,
) -> (r: ShardAction)
    requires
        meta.wf(),
    ensures
        r == action_for(meta@, me, collection@, shard_idx, hold, nonempty),
{
    let desired: Vec<u64> = meta.replicas_for_shard(collection, shard_idx);
    if contains_node(&desired, me) {
        if meta.shard_state(collection, shard_idx, me) == ShardState::Active && hold && nonempty {
            ShardAction::Keep
        } else {
            ShardAction::Acquire
        }
    } else if hold && desired_all_active(meta, collection, shard_idx, desired.as_slice()) {
        ShardAction::Drop
    } else {
        ShardAction::Keep
    }
}

/// A copy is dropped only when it is not wanted here and every replica that is wanted
/// is Active, so the data is safe elsewhere.
pub proof fn drop_is_safe(
    s: MetaView,
    me: u64,
    collection: Seq<char>,
    shard_idx: u32,
    hold: bool,
    nonempty: bool,
)
    requires
        action_for(s, me, collection, shard_idx, hold, nonempty) == ShardAction::Drop,
    ensures
        hold,
        !replicas_of(s, collection, shard_idx).contains(me),
        replicas_of(s, collection, shard_idx).len() > 0,
        forall|i: int|
            0 <= i < replicas_of(s, collection, shard_idx).len() ==> state_of(
                s,
                collection,
                shard_idx,
                #[trigger] replicas_of(s, collection, shard_idx)[i],
            ) == ShardState::Active,
{
}

/// Being another node than `me`.
pub open spec fn other_than(me: u64) -> spec_fn(u64) -> bool {
    |id: u64| id != me
}

/// The nodes of `ids` other than `me`.
pub open spec fn others(ids: Seq<u64>, me: u64) -> Seq<u64> {
    ids.filter(other_than(me))
}

/// The addresses of those of `ids` whose address is known.
pub open spec fn addresses(s: MetaView, ids: Seq<u64>) -> Seq<Seq<char>>
    decreases ids.len(),
{
    if ids.len() == 0 {
        Seq::empty()
    } else {
        let rest = addresses(s, ids.drop_last());
        if s.nodes.contains_key(ids.last()) {
            rest.push(s.nodes[ids.last()])
        } else {
            rest
        }
    }
}

/// Where node `me` can pull a shard from: the Active replicas other than itself whose
/// address is known.
pub open spec fn sources_for(s: MetaView, me: u64, collection: Seq<char>, shard_idx: u32) -> Seq<Seq<char>> {
    addresses(s, active_of(s, collection, shard_idx, others(replicas_of(s, collection, shard_idx), me)))
}

/// Where this node can pull a shard from, in the order of the replicas.
pub fn acquire_sources(meta: &MetaState, me: u64, collection: &str, shard_idx: u32) -> (r: Vec<String>)
    requires
        meta.wf(),
    ensures
        texts(r@) == sources_for(meta@, me, collection@, shard_idx),
{
    let replicas: Vec<u64> = meta.replicas_for_shard(collection, shard_idx);
    let mut rest: Vec<u64> = Vec::new();
    let mut i: usize = 0;
    let ghost pred = other_than(me);
    proof {
        reveal(Seq::filter);
        assert(replicas@.take(0) =~= Seq::empty());
    }
    while i < replicas.len()
        invariant
            pred == other_than(me),
            i <= replicas@.len(),
            rest@ == replicas@.take(i as int).filter(pred),
        decreases replicas@.len() - i,
    {
        proof {
            reveal(Seq::filter);
            assert(replicas@.take(i + 1).drop_last() =~= replicas@.take(i as int));
            assert(replicas@.take(i + 1).last() == replicas@[i as int]);
        }
        if replicas[i] != me {
            rest.push(replicas[i]);
        }
        i = i + 1;
    }
    assert(replicas@.take(i as int) =~= replicas@);
    let active: Vec<u64> = only_active(meta, collection, shard_idx, &rest);
    let mut out: Vec<String> = Vec::new();
    let mut i: usize = 0;
    assert(active@.take(0) =~= Seq::empty());
    assert(texts(out@) =~= Seq::empty());
    while i < active.len()
        invariant
            i <= active@.len(),
            texts(out@) == addresses(meta@, active@.take(i as int)),
        decreases active@.len() - i,
    {
        proof {
            assert(active@.take(i + 1).drop_last() =~= active@.take(i as int));
            assert(active@.take(i + 1).last() == active@[i as int]);
        }
        if let Some(addr) = meta.nodes.get(&active[i]) {
            let ghost before = out@;
            out.push(addr.clone());
            assert(texts(out@) =~= texts(before).push(addr@));
        }
        i = i + 1;
    }
    assert(active@.take(i as int) =~= active@);
    out
}

/// Where the acquisition of a shard stands, and so what is to be done next.
#[derive(Debug, Clone, Copy, PartialEq, Eq, Structural)]
pub enum Acquire {
    /// There is no peer to pull from: open the shard locally.
    OpenEmpty,
    /// Commit this replica as Syncing.
    MarkSyncing,
    /// Pull from the source with this number.
    Pull { source: usize },
    /// Commit this replica as Active; `pulled` says whether data was transferred.
    MarkActive { pulled: bool },
    /// Over; `pulled` says whether a transfer completed: data was pulled and the cutover
    /// to Active was committed.
    Done { pulled: bool },
}

/// What follows when the step `at` ended well (`ok`) or not, with `sources` to pull
/// from.
pub open spec fn acquire_next(at: Acquire, ok: bool, sources: nat) -> Acquire {
    match at {
        Acquire::OpenEmpty => Acquire::MarkActive { pulled: false },
        Acquire::MarkSyncing => if ok {
            Acquire::Pull { source: 0 }
        } else {
            Acquire::Done { pulled: false }
        },
        Acquire::Pull { source } => if ok {
            Acquire::MarkActive { pulled: true }
        } else if source + 1 < sources {
            Acquire::Pull { source: (source + 1) as usize }
        } else {
            Acquire::Done { pulled: false }
        },
        Acquire::MarkActive { pulled } => Acquire::Done { pulled: pulled && ok },
        Acquire::Done { pulled } => Acquire::Done { pulled },
    }
}

impl Acquire {
    /// How an acquisition starts.
    pub fn start(sources: usize) -> (r: Self)
        ensures
            r == if sources == 0 {
                Acquire::OpenEmpty
            } else {
                Acquire::MarkSyncing
            },
    {
        if sources == 0 {
            Acquire::OpenEmpty
        } else {
            Acquire::MarkSyncing
        }
    }

    /// What follows the current step.
    ///
    /// Without a peer the shard is opened and served as it is. Otherwise this replica
    /// has to be Syncing before it pulls; if that cannot be committed, or no source
    /// yields the data, a later pass tries again. The replica becomes Active once the
    /// data is here, and the transfer is complete once that is committed.
    pub fn next(self, ok: bool, sources: usize) -> (r: Self)
        ensures
            r == acquire_next(self, ok, sources as nat),
    {
        match self {
            Acquire::OpenEmpty => Acquire::MarkActive { pulled: false },
            Acquire::MarkSyncing => {
                if ok {
                    Acquire::Pull { source: 0 }
                } else {
                    Acquire::Done { pulled: false }
                }
            },
            Acquire::Pull { source } => {
                if ok {
                    Acquire::MarkActive { pulled: true }
                } else if source < sources && source + 1 < sources {
                    Acquire::Pull { source: source + 1 }
                } else {
                    Acquire::Done { pulled: false }
                }
            },
            Acquire::MarkActive { pulled } => Acquire::Done { pulled: pulled && ok },
            Acquire::Done { pulled } => Acquire::Done { pulled },
        }
    }
}

/// The steps of an acquisition whose outcomes are `oks`.
pub open spec fn acquire_after(start: Acquire, oks: Seq<bool>, sources: nat) -> Acquire
    decreases oks.len(),
{
    if oks.len() == 0 {
        start
    } else {
        acquire_next(acquire_after(start, oks.drop_last(), sources), oks.last(), sources)
    }
}

/// At step `i` of an acquisition the cutover to Active was tried, and it was committed.
pub open spec fn cut_over_at(oks: Seq<bool>, sources: nat, i: int) -> bool {
    &&& 0 <= i < oks.len()
    &&& acquire_after(Acquire::MarkSyncing, oks.take(i), sources) is MarkActive
    &&& oks[i]
}

/// A replica with a peer to pull from is marked Active only after it was marked
/// Syncing and a source yielded the data, and a transfer counts as completed only where
/// the cutover to Active was committed too.
pub proof fn active_only_after_pull(oks: Seq<bool>, sources: nat)
    requires
        sources > 0,
    ensures
        acquire_after(Acquire::MarkSyncing, oks, sources) matches Acquire::MarkActive { pulled }
            ==> pulled && oks[0] && oks.last(),
        acquire_after(Acquire::MarkSyncing, oks, sources) matches Acquire::Done { pulled } && pulled
            ==> oks[0] && exists|i: int| cut_over_at(oks, sources, i),
        acquire_after(Acquire::MarkSyncing, oks, sources) matches Acquire::Pull { source } ==> source
            < sources && oks[0] && oks.len() > 0,
        acquire_after(Acquire::MarkSyncing, oks, sources) is MarkSyncing ==> oks.len() == 0,
        !(acquire_after(Acquire::MarkSyncing, oks, sources) is OpenEmpty),
    decreases oks.len(),
{
    if oks.len() > 0 {
        let d = oks.drop_last();
        let n = oks.len() - 1;
        active_only_after_pull(d, sources);
        let before = acquire_after(Acquire::MarkSyncing, d, sources);
        if acquire_after(Acquire::MarkSyncing, oks, sources) == (Acquire::Done { pulled: true }) {
            if before is MarkActive {
                assert(oks.take(n) =~= d);
                assert(cut_over_at(oks, sources, n));
            } else {
                let i = choose|i: int| cut_over_at(d, sources, i);
                assert(cut_over_at(d, sources, i));
                assert(d.take(i) =~= oks.take(i));
                assert(cut_over_at(oks, sources, i));
            }
        }
    }
}

/// How far the commit of a shard-state transition has come.
#[derive(Debug, Clone, Copy, PartialEq, Eq, Structural)]
pub enum SetState {
    /// Try a direct write: this node may be the leader.
    Direct,
    /// Find the leader's address.
    FindLeader,
    /// Forward to the leader.
    Forward,
    /// Over; `committed` says whether the transition was committed.
    Done { committed: bool },
}

/// The outcome of a direct write.
#[derive(Debug, Clone, Copy, PartialEq, Eq, Structural)]
pub enum DirectWrite {
    Committed,
    NotLeader,
    Failed,
}

impl SetState {
    /// What follows a direct write: success and failure end it; a follower forwards.
    pub fn after_direct(outcome: DirectWrite) -> (r: Self)
        ensures
            r == match outcome {
                DirectWrite::Committed => SetState::Done { committed: true },
                DirectWrite::NotLeader => SetState::FindLeader,
                DirectWrite::Failed => SetState::Done { committed: false },
            },
    {
        match outcome {
            DirectWrite::Committed => SetState::Done { committed: true },
            DirectWrite::NotLeader => SetState::FindLeader,
            DirectWrite::Failed => SetState::Done { committed: false },
        }
    }

    /// What follows the search for the leader.
    pub fn after_find(known: bool) -> (r: Self)
        ensures
            r == if known {
                SetState::Forward
            } else {
                SetState::Done { committed: false }
            },
    {
        if known {
            SetState::Forward
        } else {
            SetState::Done { committed: false }
        }
    }

    /// What follows the forwarded write: it counts only where the leader answered that
    /// it committed.
    pub fn after_forward(reply: Option<bool>) -> (r: Self)
        ensures
            r == (SetState::Done { committed: reply == Some(true) }),
    {
        match reply {
            Some(committed) => SetState::Done { committed },
            None => SetState::Done { committed: false },
        }
    }
}

} // verus!
