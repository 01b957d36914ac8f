//! Data-plane routing and coordination: tunable quorum replication.
//!
//! The coordinator (whichever node received the client request) stamps each write
//! with a timestamp, resolves each point to its shard, and replicates to the shard's
//! N replicas, acknowledging the client at W (ONE / QUORUM / ALL).
//!
//! - **N/W/R quorum.** N = the shard's replica count; W/R from the consistency level
//!   (ONE=1, QUORUM=floor(N/2)+1, ALL=N).
//! - **Last writer wins.** Replicas reject a write that is not newer than what they
//!   hold; the coordinator counts an applied-or-superseded replica as a success
//!   because the data has converged either way.
//! - **Hinted handoff.** A replica that is unreachable for a write does not block the
//!   quorum: the coordinator records a durable hint, which is replayed when the
//!   target returns.
//! - **Get** reads the replicas, returns the newest version, and repairs any replica
//!   that returned an older version or none.
//! - **Search** asks one healthy replica per shard (falling forward through the
//!   replica list) and merges a global top-k.
//!
//! The functions here decide: which replicas to ask, and what follows from their
//! replies. The asking itself is the caller's.

use vstd::prelude::*;

use crate::hints::Hint;
use crate::hits::first_hits;
use crate::hlc::{Hlc, HlcClock};
use crate::meta::{CollectionSchema, MetaState, ShardState};
use crate::placement::shard_for_id;
use crate::shards::{ShardStoreError, StoredPoint};
use crate::text::{dims_message, join, to_decimal};
use crate::wal::{WalOp, WalRecord};

verus! {

use crate::hints::{hint_views, HintView};
use crate::hits::{comparable, hit_before, hit_order, order_lists_all, place_before, top_hits};
use crate::hlc::{next_stamp, order_is_total, order_is_transitive};
use crate::meta::{replicas_of, state_of, MetaView};
use crate::placement::id_hash;
use crate::shards::StoredView;
use crate::text::{decimal, dims_text};
use crate::wal::RecordView;

broadcast use vstd::std_specs::btree::group_btree_axioms;

/// A routing/coordination error.
#[derive(Debug, PartialEq, Eq)]
pub enum RouterError {
    /// The collection does not exist.
    NotFound(String),
    NoReplica { collection: String, shard_idx: u32 },
    DimMismatch { expected: usize, got: usize },
    WriteQuorum { collection: String, shard_idx: u32, needed: usize, got: usize },
    ReadQuorum { collection: String, shard_idx: u32, needed: usize, got: usize },
    /// This node's shard store refused.
    Shard(ShardStoreError),
    /// The files of this node's shard store failed, for the reason given.
    ShardFiles(String),
    /// This node's hint store failed, for the reason given.
    Hint(String),
}

/// What is said of a quorum that was not met.
pub open spec fn quorum_text(what: Seq<char>, name: Seq<char>, shard: nat, need: nat, have: nat) -> Seq<
    char,
> {
    what + name + " shard "@ + decimal(shard) + ": needed "@ + decimal(need) + ", got "@ + decimal(have)
}

fn quorum_message(what: &str, collection: &str, shard_idx: u32, needed: usize, got: usize) -> (r: String)
    ensures
        r@ == quorum_text(what@, collection@, shard_idx as nat, needed as nat, got as nat),
{
    let mut r: String = join(what, collection);
    r.append(" shard ");
    r.append(to_decimal(shard_idx as u64).as_str());
    r.append(": needed ");
    r.append(to_decimal(needed as u64).as_str());
    r.append(", got ");
    r.append(to_decimal(got as u64).as_str());
    r
}

impl RouterError {
    /// What the error says.
    pub open spec fn text(self) -> Seq<char> {
        match self {
            RouterError::NotFound(name) => "collection '"@ + name@ + "' not found"@,
            RouterError::NoReplica { collection, shard_idx } => "no replica available for "@
                + collection@ + " shard "@ + decimal(shard_idx as nat),
            RouterError::DimMismatch { expected, got } => dims_text(
                "dimension mismatch: collection is "@,
                expected as nat,
                got as nat,
            ),
            RouterError::WriteQuorum { collection, shard_idx, needed, got } => quorum_text(
                "write quorum not met for "@,
                collection@,
                shard_idx as nat,
                needed as nat,
                got as nat,
            ),
            RouterError::ReadQuorum { collection, shard_idx, needed, got } => quorum_text(
                "read quorum not met for "@,
                collection@,
                shard_idx as nat,
                needed as nat,
                got as nat,
            ),
            RouterError::Shard(e) => "shard store: "@ + e.text(),
            RouterError::ShardFiles(why) => "shard store: shard: "@ + why@,
            RouterError::Hint(why) => "hint store: "@ + why@,
        }
    }

    /// The error in words.
    pub fn message(&self) -> (r: String)
        ensures
            r@ == self.text(),
    {
        match self {
            RouterError::NotFound(name) => {
                join(join("collection '", name.as_str()).as_str(), "' not found")
            },
            RouterError::NoReplica { collection, shard_idx } => {
                let mut r: String = join("no replica available for ", collection.as_str());
                r.append(" shard ");
                r.append(to_decimal(*shard_idx as u64).as_str());
                r
            },
            RouterError::DimMismatch { expected, got } => {
                dims_message("dimension mismatch: collection is ", *expected, *got)
            },
            RouterError::WriteQuorum { collection, shard_idx, needed, got } => {
                quorum_message(
                    "write quorum not met for ",
                    collection.as_str(),
                    *shard_idx,
                    *needed,
                    *got,
                )
            },
            RouterError::ReadQuorum { collection, shard_idx, needed, got } => {
                quorum_message(
                    "read quorum not met for ",
                    collection.as_str(),
                    *shard_idx,
                    *needed,
                    *got,
                )
            },
            RouterError::Shard(e) => join("shard store: ", e.message().as_str()),
            RouterError::ShardFiles(why) => join("shard store: shard: ", why.as_str()),
            RouterError::Hint(why) => join("hint store: ", why.as_str()),
        }
    }
}

impl RouterError {
    /// This is the error for a collection that does not exist.
    pub open spec fn is_not_found(self, name: Seq<char>) -> bool {
        self matches RouterError::NotFound(n) && n@ == name
    }

    /// This is the error for a shard with no replica to turn to.
    pub open spec fn is_no_replica(self, name: Seq<char>, shard: u32) -> bool {
        self matches RouterError::NoReplica { collection, shard_idx } && collection@ == name
            && shard_idx == shard
    }

    /// This is the error for a write that too few replicas acknowledged.
    pub open spec fn is_write_quorum(self, name: Seq<char>, shard: u32, need: nat, have: nat) -> bool {
        self matches RouterError::WriteQuorum { collection, shard_idx, needed, got } && collection@
            == name && shard_idx == shard && needed == need && got == have
    }

    /// This is the error for a read that too few replicas answered.
    pub open spec fn is_read_quorum(self, name: Seq<char>, shard: u32, need: nat, have: nat) -> bool {
        self matches RouterError::ReadQuorum { collection, shard_idx, needed, got } && collection@
            == name && shard_idx == shard && needed == need && got == have
    }
}

pub const OP_UPSERT: u32 = 0;

pub const OP_DELETE: u32 = 1;

/// The tunable consistency level, resolved to a replica count given N.
#[derive(Debug, Clone, Copy, PartialEq, Eq, Structural)]
pub enum Consistency {
    One,
    Quorum,
    All,
}

impl Consistency {
    /// How many of `n` replicas have to reply: at least one, and no more than there are.
    pub open spec fn needed(self, n: nat) -> nat {
        if n == 0 {
            1
        } else {
            match self {
                Consistency::One => 1,
                Consistency::Quorum => n / 2 + 1,
                Consistency::All => n,
            }
        }
    }

    /// Map the wire value to a level (unspecified -> QUORUM, the safe default).
    pub fn from_proto(v: i32) -> (r: Self)
        ensures
            r == if v == 1 {
                Consistency::One
            } else if v == 3 {
                Consistency::All
            } else {
                Consistency::Quorum
            },
    {
        match v {
            1 => Consistency::One,
            3 => Consistency::All,
            _ => Consistency::Quorum,
        }
    }

    /// Required ack/read count for a replica set of size `n`.
    pub fn count(self, n: usize) -> (r: usize)
        ensures
            r == self.needed(n as nat),
            1 <= r,
            n > 0 ==> r <= n,
    {
        if n == 0 {
            return 1;
        }
        match self {
            Consistency::One => 1,
            Consistency::Quorum => n / 2 + 1,
            Consistency::All => n,
        }
    }
}

/// A node and its address.
pub open spec fn addressed(r: Seq<(u64, String)>) -> Seq<(u64, Seq<char>)> {
    r.map_values(|p: (u64, String)| (p.0, p.1@))
}

/// Those of `ids` whose address is known, with it.
pub open spec fn with_addresses(s: MetaView, ids: Seq<u64>) -> Seq<(u64, Seq<char>)>
    decreases ids.len(),
{
    if ids.len() == 0 {
        Seq::empty()
    } else {
        let rest = with_addresses(s, ids.drop_last());
        if s.nodes.contains_key(ids.last()) {
            rest.push((ids.last(), s.nodes[ids.last()]))
        } else {
            rest
        }
    }
}

/// Those of `ids` that hold the shard as Active.
pub open spec fn active_of(s: MetaView, collection: Seq<char>, shard_idx: u32, ids: Seq<u64>) -> Seq<u64>
    decreases ids.len(),
{
    if ids.len() == 0 {
        Seq::empty()
    } else {
        let rest = active_of(s, collection, shard_idx, ids.drop_last());
        if state_of(s, collection, shard_idx, ids.last()) == ShardState::Active {
            rest.push(ids.last())
        } else {
            rest
        }
    }
}

/// The replicas of a shard that writes go to.
pub open spec fn write_view(s: MetaView, collection: Seq<char>, shard_idx: u32) -> Seq<(u64, Seq<char>)> {
    with_addresses(s, replicas_of(s, collection, shard_idx))
}

/// The replicas of a shard that reads go to.
pub open spec fn read_view(s: MetaView, collection: Seq<char>, shard_idx: u32) -> Seq<(u64, Seq<char>)> {
    with_addresses(s, active_of(s, collection, shard_idx, replicas_of(s, collection, shard_idx)))
}

/// The schema of a collection.
pub fn schema_of(meta: &MetaState, collection: &str) -> (r: Result<CollectionSchema, RouterError>)
    requires
        meta.wf(),
    ensures
        match r {
            Ok(schema) => meta@.collections.contains_key(collection@) && schema
                == meta@.collections[collection@],
            Err(e) => !meta@.collections.contains_key(collection@) && e.is_not_found(collection@),
        },
{
    match meta.collections.get(collection) {
        Some(schema) => Ok(*schema),
        None => Err(RouterError::NotFound(collection.to_owned())),
    }
}

/// The addresses of the nodes `ids`; those whose address is unknown are dropped.
fn resolve(meta: &MetaState, ids: &Vec<u64>) -> (r: Vec<(u64, String)>)
    ensures
        addressed(r@) == with_addresses(meta@, ids@),
{
    let mut out: Vec<(u64, String)> = Vec::new();
    let mut i: usize = 0;
    assert(ids@.take(0) =~= Seq::empty());
    assert(addressed(out@) =~= Seq::empty());
    while i < ids.len()
        invariant
            i <= ids@.len(),
            addressed(out@) == with_addresses(meta@, ids@.take(i as int)),
        decreases ids@.len() - i,
    {
        let id: u64 = ids[i];
        proof {
            assert(ids@.take(i + 1).drop_last() =~= ids@.take(i as int));
            assert(ids@.take(i + 1).last() == id);
        }
        if let Some(addr) = meta.nodes.get(&id) {
            let ghost before = out@;
            out.push((id, addr.clone()));
            assert(addressed(out@) =~= addressed(before).push((id, addr@)));
        }
        i = i + 1;
    }
    assert(ids@.take(i as int) =~= ids@);
    out
}

/// The replica node ids for a shard with their advertise addresses, clockwise
/// from the home (first = primary). Replicas whose address is unknown are
/// dropped (they cannot be routed to).
///
/// This is the **write** view: it includes replicas in every state, because a
/// `Syncing` replica must still receive concurrent live writes so that a transfer
/// cannot lose a write that lands mid-flight.
pub fn replicas_with_addrs(meta: &MetaState, collection: &str, shard_idx: u32) -> (r: Vec<
    (u64, String),
>)
    requires
        meta.wf(),
    ensures
        addressed(r@) == write_view(meta@, collection@, shard_idx),
{
    resolve(meta, &meta.replicas_for_shard(collection, shard_idx))
}

/// The nodes of `ids` that hold the shard as Active.
pub(crate) fn only_active(meta: &MetaState, collection: &str, shard_idx: u32, ids: &Vec<u64>) -> (r: Vec<
    u64,
>)
    requires
        meta.wf(),
    ensures
        r@ == active_of(meta@, collection@, shard_idx, ids@),
{
    let mut out: Vec<u64> = Vec::new();
    let mut i: usize = 0;
    assert(ids@.take(0) =~= Seq::empty());
    while i < ids.len()
        invariant
            meta.wf(),
            i <= ids@.len(),
            out@ == active_of(meta@, collection@, shard_idx, ids@.take(i as int)),
        decreases ids@.len() - i,
    {
        let id: u64 = ids[i];
        proof {
            assert(ids@.take(i + 1).drop_last() =~= ids@.take(i as int));
            assert(ids@.take(i + 1).last() == id);
        }
        if meta.shard_state(collection, shard_idx, id) == ShardState::Active {
            out.push(id);
        }
        i = i + 1;
    }
    assert(ids@.take(i as int) =~= ids@);
    out
}

/// The **read/search** view of a shard's replicas: only those in `Active` state.
/// A `Syncing` replica is excluded because it may not yet hold the shard's data, so
/// routing a read there could miss points.
pub fn active_replicas_with_addrs(meta: &MetaState, collection: &str, shard_idx: u32) -> (r: Vec<
    (u64, String),
>)
    requires
        meta.wf(),
    ensures
        addressed(r@) == read_view(meta@, collection@, shard_idx),
{
    let replicas: Vec<u64> = meta.replicas_for_shard(collection, shard_idx);
    resolve(meta, &only_active(meta, collection, shard_idx, &replicas))
}

/// The endpoint for an address: the address itself where it names a scheme, else an
/// `http` one.
pub open spec fn endpoint(addr: Seq<char>) -> Seq<char> {
    if starts(addr, "http://"@) || starts(addr, "https://"@) {
        addr
    } else {
        "http://"@ + addr
    }
}

/// `s` starts with `prefix`.
pub open spec fn starts(s: Seq<char>, prefix: Seq<char>) -> bool {
    prefix.len() <= s.len() && s.take(prefix.len() as int) == prefix
}

fn starts_with(s: &str, prefix: &str) -> (r: bool)
    ensures
        r == starts(s@, prefix@),
{
    let n: usize = prefix.unicode_len();
    if s.unicode_len() < n {
        return false;
    }
    let head: &str = s.substring_char(0, n);
    assert(s@.subrange(0, n as int) =~= s@.take(n as int));
    crate::text::same(head, prefix)
}

/// The endpoint for an address.
pub fn endpoint_of(addr: &str) -> (r: String)
    ensures
        r@ == endpoint(addr@),
{
    if starts_with(addr, "http://") || starts_with(addr, "https://") {
        addr.to_owned()
    } else {
        let scheme: String = "http://".to_owned();
        scheme.concat(addr)
    }
}

/// One point write, stamped and assigned to its shard.
#[derive(Debug)]
pub struct PointWrite {
    pub shard_idx: u32,
    pub record: WalRecord,
}

/// Where a write goes, and how many replicas have to acknowledge it.
#[derive(Debug)]
pub struct WritePlan {
    pub replicas: Vec<(u64, String)>,
    pub needed: usize,
}

/// Where a write to a shard goes.
pub fn plan_replicas(
    meta: &MetaState,
    collection: &str,
    shard_idx: u32,
    consistency: Consistency,
) -> (r: Result<WritePlan, RouterError>)
    requires
        meta.wf(),
    ensures
        ({
            let view = write_view(meta@, collection@, shard_idx);
            match r {
                Ok(plan) => view.len() > 0 && addressed(plan.replicas@) == view && plan.needed
                    == consistency.needed(view.len()),
                Err(e) => view.len() == 0 && e.is_no_replica(collection@, shard_idx),
            }
        }),
{
    let replicas: Vec<(u64, String)> = replicas_with_addrs(meta, collection, shard_idx);
    assert(addressed(replicas@).len() == replicas@.len());
    if replicas.len() == 0 {
        return Err(RouterError::NoReplica { collection: collection.to_owned(), shard_idx });
    }
    let needed: usize = consistency.count(replicas.len());
    Ok(WritePlan { replicas, needed })
}

/// `r` is the plan for the upsert of `point`, with the clock moving from `clock.0` to
/// `clock.1`: the vector has to fit the collection, the point gets its shard and a
/// fresh timestamp, and goes to the shard's replicas.
pub open spec fn upsert_planned(
    meta: MetaView,
    clock: (u64, u64),
    wall_ms: u64,
    collection: Seq<char>,
    point: (u64, Seq<u32>, Seq<u8>),
    consistency: Consistency,
    r: Result<(PointWrite, WritePlan), RouterError>,
) -> bool {
    let known = meta.collections.contains_key(collection);
    let schema = meta.collections[collection];
    let fit = known && point.1.len() == schema.dim;
    let shard = (id_hash(point.0) % (schema.shard_count as u64)) as u32;
    let view = write_view(meta, collection, shard);
    let stamp = next_stamp(clock.0, wall_ms);
    &&& clock.1 == if fit {
        stamp
    } else {
        clock.0
    }
    &&& match r {
        Ok((w, plan)) => {
            &&& fit
            &&& view.len() > 0
            &&& w.shard_idx == shard
            &&& w.record@ == RecordView::upsert(Hlc::of(stamp), point.0, point.1, point.2)
            &&& addressed(plan.replicas@) == view
            &&& plan.needed == consistency.needed(view.len())
        },
        Err(e) => if !known {
            e.is_not_found(collection)
        } else if !fit {
            e == (RouterError::DimMismatch {
                expected: schema.dim as usize,
                got: point.1.len() as usize,
            })
        } else {
            view.len() == 0 && e.is_no_replica(collection, shard)
        },
    }
}

/// Plan an upsert: the vector has to fit the collection, the point gets its shard and
/// a fresh timestamp, and goes to the shard's replicas.
pub fn plan_upsert(
    meta: &MetaState,
    clock: &mut HlcClock,
    wall_ms: u64,
    collection: &str,
    id: u64,
    vector: Vec<u32>,
    payload: Vec<u8>,
    consistency: Consistency,
) -> (r: Result<(PointWrite, WritePlan), RouterError>)
    requires
        meta.wf(),
        meta@.collections.contains_key(collection@) && vector@.len()
            == meta@.collections[collection@].dim ==> meta@.collections[collection@].shard_count > 0,
    ensures
        upsert_planned(
            meta@,
            (old(clock).last(), final(clock).last()),
            wall_ms,
            collection@,
            (id, vector@, payload@),
            consistency,
            r,
        ),
{
    let schema: CollectionSchema = match schema_of(meta, collection) {
        Ok(schema) => schema,
        Err(e) => return Err(e),
    };
    let dim: usize = schema.dim as usize;
    if vector.len() != dim {
        return Err(RouterError::DimMismatch { expected: dim, got: vector.len() });
    }
    let shard_idx: u32 = shard_for_id(id, schema.shard_count);
    let hlc: Hlc = clock.now(wall_ms);
    match plan_replicas(meta, collection, shard_idx, consistency) {
        Ok(plan) => Ok(
            (PointWrite { shard_idx, record: WalRecord::upsert(hlc, id, vector, payload) }, plan),
        ),
        Err(e) => Err(e),
    }
}

/// `r` is the plan for the delete of `id`, with the clock moving from `clock.0` to
/// `clock.1`: a tombstone with a fresh timestamp goes to the replicas of the point's
/// shard.
pub open spec fn delete_planned(
    meta: MetaView,
    clock: (u64, u64),
    wall_ms: u64,
    collection: Seq<char>,
    id: u64,
    consistency: Consistency,
    r: Result<(PointWrite, WritePlan), RouterError>,
) -> bool {
    let known = meta.collections.contains_key(collection);
    let schema = meta.collections[collection];
    let shard = (id_hash(id) % (schema.shard_count as u64)) as u32;
    let view = write_view(meta, collection, shard);
    let stamp = next_stamp(clock.0, wall_ms);
    &&& clock.1 == if known {
        stamp
    } else {
        clock.0
    }
    &&& match r {
        Ok((w, plan)) => {
            &&& known
            &&& view.len() > 0
            &&& w.shard_idx == shard
            &&& w.record@ == RecordView::delete(Hlc::of(stamp), id)
            &&& addressed(plan.replicas@) == view
            &&& plan.needed == consistency.needed(view.len())
        },
        Err(e) => if !known {
            e.is_not_found(collection)
        } else {
            view.len() == 0 && e.is_no_replica(collection, shard)
        },
    }
}

/// Plan a delete: a tombstone with a fresh timestamp goes to the replicas of the
/// point's shard.
pub fn plan_delete(
    meta: &MetaState,
    clock: &mut HlcClock,
    wall_ms: u64,
    collection: &str,
    id: u64,
    consistency: Consistency,
) -> (r: Result<(PointWrite, WritePlan), RouterError>)
    requires
        meta.wf(),
        meta@.collections.contains_key(collection@) ==> meta@.collections[collection@].shard_count
            > 0,
    ensures
        delete_planned(
            meta@,
            (old(clock).last(), final(clock).last()),
            wall_ms,
            collection@,
            id,
            consistency,
            r,
        ),
{
    let schema: CollectionSchema = match schema_of(meta, collection) {
        Ok(schema) => schema,
        Err(e) => return Err(e),
    };
    let shard_idx: u32 = shard_for_id(id, schema.shard_count);
    let hlc: Hlc = clock.now(wall_ms);
    match plan_replicas(meta, collection, shard_idx, consistency) {
        Ok(plan) => Ok((PointWrite { shard_idx, record: WalRecord::delete(hlc, id) }, plan)),
        Err(e) => Err(e),
    }
}

/// A batch of which every item was accepted is over: nothing is left to write, and
/// only a collection that does not exist is an error.
pub open spec fn batch_over(
    meta: MetaView,
    clock: (u64, u64),
    collection: Seq<char>,
    r: Result<Option<(PointWrite, WritePlan)>, RouterError>,
) -> bool {
    &&& clock.0 == clock.1
    &&& match r {
        Ok(None) => meta.collections.contains_key(collection),
        Ok(Some(_)) => false,
        Err(e) => !meta.collections.contains_key(collection) && e.is_not_found(collection),
    }
}

/// One step of a batch of upserts, of which the first `accepted` were written: the
/// write of the next point, or nothing where all were. The batch ends at the first
/// error; the points before it stay written.
pub fn coordinate_upsert(
    meta: &MetaState,
    clock: &mut HlcClock,
    wall_ms: u64,
    collection: &str,
    points: &Vec<(u64, Vec<u32>, Vec<u8>)>,
    accepted: usize,
    consistency: Consistency,
) -> (r: Result<Option<(PointWrite, WritePlan)>, RouterError>)
    requires
        meta.wf(),
        meta@.collections.contains_key(collection@) && accepted < points@.len()
            && points@[accepted as int].1@.len() == meta@.collections[collection@].dim
            ==> meta@.collections[collection@].shard_count > 0,
        accepted <= points@.len(),
    ensures
        ({
            let moved = (old(clock).last(), final(clock).last());
            if accepted == points@.len() {
                batch_over(meta@, moved, collection@, r)
            } else {
                let p = points@[accepted as int];
                let point = (p.0, p.1@, p.2@);
                match r {
                    Ok(Some(w)) => upsert_planned(
                        meta@,
                        moved,
                        wall_ms,
                        collection@,
                        point,
                        consistency,
                        Ok(w),
                    ),
                    Ok(None) => false,
                    Err(e) => upsert_planned(
                        meta@,
                        moved,
                        wall_ms,
                        collection@,
                        point,
                        consistency,
                        Err(e),
                    ),
                }
            }
        }),
{
    if accepted == points.len() {
        return match schema_of(meta, collection) {
            Ok(_) => Ok(None),
            Err(e) => Err(e),
        };
    }
    let vector: Vec<u32> = points[accepted].1.clone();
    let payload: Vec<u8> = points[accepted].2.clone();
    assert(vector@ =~= points@[accepted as int].1@);
    assert(payload@ =~= points@[accepted as int].2@);
    match plan_upsert(
        meta,
        clock,
        wall_ms,
        collection,
        points[accepted].0,
        vector,
        payload,
        consistency,
    ) {
        Ok(w) => Ok(Some(w)),
        Err(e) => Err(e),
    }
}

/// One step of a batch of deletes, of which the first `accepted` were written: the
/// write of the next tombstone, or nothing where all were.
pub fn coordinate_delete(
    meta: &MetaState,
    clock: &mut HlcClock,
    wall_ms: u64,
    collection: &str,
    ids: &Vec<u64>,
    accepted: usize,
    consistency: Consistency,
) -> (r: Result<Option<(PointWrite, WritePlan)>, RouterError>)
    requires
        meta.wf(),
        meta@.collections.contains_key(collection@) && accepted < ids@.len()
            ==> meta@.collections[collection@].shard_count > 0,
        accepted <= ids@.len(),
    ensures
        ({
            let moved = (old(clock).last(), final(clock).last());
            if accepted == ids@.len() {
                batch_over(meta@, moved, collection@, r)
            } else {
                let id = ids@[accepted as int];
                match r {
                    Ok(Some(w)) => delete_planned(
                        meta@,
                        moved,
                        wall_ms,
                        collection@,
                        id,
                        consistency,
                        Ok(w),
                    ),
                    Ok(None) => false,
                    Err(e) => delete_planned(
                        meta@,
                        moved,
                        wall_ms,
                        collection@,
                        id,
                        consistency,
                        Err(e),
                    ),
                }
            }
        }),
{
    if accepted == ids.len() {
        return match schema_of(meta, collection) {
            Ok(_) => Ok(None),
            Err(e) => Err(e),
        };
    }
    match plan_delete(meta, clock, wall_ms, collection, ids[accepted], consistency) {
        Ok(w) => Ok(Some(w)),
        Err(e) => Err(e),
    }
}

/// How many of the first replies are acknowledgements.
pub open spec fn acks_in(replies: Seq<bool>) -> nat
    decreases replies.len(),
{
    if replies.len() == 0 {
        0
    } else {
        acks_in(replies.drop_last()) + if replies.last() {
            1nat
        } else {
            0nat
        }
    }
}

/// One hint for each replica that did not acknowledge, in order.
pub open spec fn hints_due(
    collection: Seq<char>,
    shard_idx: u32,
    record: RecordView,
    replicas: Seq<(u64, Seq<char>)>,
    replies: Seq<bool>,
) -> Seq<HintView>
    decreases replies.len(),
{
    if replies.len() == 0 {
        Seq::empty()
    } else {
        let rest = hints_due(collection, shard_idx, record, replicas, replies.drop_last());
        if replies.last() {
            rest
        } else {
            rest.push(
                HintView {
                    target_node: replicas[replies.len() - 1].0,
                    collection,
                    shard_idx,
                    record,
                },
            )
        }
    }
}

/// Settle a write: `replies[i]` says whether the data converged at replica `i`
/// (applied there, or already superseded). Every other replica is owed a hint, to be
/// stored durably before the client is answered; the client is told success exactly
/// when enough replicas acknowledged.
pub fn replicate_write(
    collection: &str,
    write: &PointWrite,
    plan: &WritePlan,
    replies: &Vec<bool>,
) -> (r: (Vec<Hint>, Result<(), RouterError>))
    requires
        replies@.len() == plan.replicas@.len(),
    ensures
        hint_views(r.0@) == hints_due(
            collection@,
            write.shard_idx,
            write.record@,
            addressed(plan.replicas@),
            replies@,
        ),
        match r.1 {
            Ok(()) => acks_in(replies@) >= plan.needed,
            Err(e) => acks_in(replies@) < plan.needed && e.is_write_quorum(
                collection@,
                write.shard_idx,
                plan.needed as nat,
                acks_in(replies@),
            ),
        },
{
    let mut acks: usize = 0;
    let mut hints: Vec<Hint> = Vec::new();
    let mut i: usize = 0;
    let ghost replicas = addressed(plan.replicas@);
    assert(replies@.take(0) =~= Seq::empty());
    assert(hint_views(hints@) =~= Seq::empty());
    while i < replies.len()
        invariant
            replies@.len() == plan.replicas@.len(),
            replicas == addressed(plan.replicas@),
            i <= replies@.len(),
            acks <= i,
            acks == acks_in(replies@.take(i as int)),
            hint_views(hints@) == hints_due(
                collection@,
                write.shard_idx,
                write.record@,
                replicas,
                replies@.take(i as int),
            ),
        decreases replies@.len() - i,
    {
        proof {
            assert(replies@.take(i + 1).drop_last() =~= replies@.take(i as int));
            assert(replies@.take(i + 1).last() == replies@[i as int]);
        }
        if replies[i] {
            acks = acks + 1;
        } else {
            let record: WalRecord = write.record.clone();
            let hint = Hint {
                target_node: plan.replicas[i].0,
                collection: collection.to_owned(),
                shard_idx: write.shard_idx,
                op: record.op,
                hlc: record.hlc,
                id: record.id,
                vector: record.vector,
                payload: record.payload,
            };
            let ghost before = hints@;
            proof {
                assert(hint@.record =~= write.record@);
                assert(replicas[i as int].0 == plan.replicas@[i as int].0);
            }
            hints.push(hint);
            assert(hint_views(hints@) =~= hint_views(before).push(hint@));
        }
        i = i + 1;
    }
    assert(replies@.take(i as int) =~= replies@);
    if acks >= plan.needed {
        (hints, Ok(()))
    } else {
        (
            hints,
            Err(
                RouterError::WriteQuorum {
                    collection: collection.to_owned(),
                    shard_idx: write.shard_idx,
                    needed: plan.needed,
                    got: acks,
                },
            ),
        )
    }
}

/// Where a read goes, and how many replicas have to answer it.
#[derive(Debug)]
pub struct ReadPlan {
    pub shard_idx: u32,
    pub replicas: Vec<(u64, String)>,
    pub needed: usize,
}

/// Plan the read of a point: it goes to the Active replicas of the point's shard.
pub fn plan_get(
    meta: &MetaState,
    collection: &str,
    schema: &CollectionSchema,
    id: u64,
    consistency: Consistency,
) -> (r: Result<ReadPlan, RouterError>)
    requires
        meta.wf(),
        schema.shard_count > 0,
    ensures
        ({
            let shard = (id_hash(id) % (schema.shard_count as u64)) as u32;
            let view = read_view(meta@, collection@, shard);
            match r {
                Ok(plan) => {
                    &&& view.len() > 0
                    &&& plan.shard_idx == shard
                    &&& addressed(plan.replicas@) == view
                    &&& plan.needed == consistency.needed(view.len())
                },
                Err(e) => view.len() == 0 && e.is_no_replica(collection@, shard),
            }
        }),
{
    let shard_idx: u32 = shard_for_id(id, schema.shard_count);
    let replicas: Vec<(u64, String)> = active_replicas_with_addrs(meta, collection, shard_idx);
    assert(addressed(replicas@).len() == replicas@.len());
    if replicas.len() == 0 {
        return Err(RouterError::NoReplica { collection: collection.to_owned(), shard_idx });
    }
    let needed: usize = consistency.count(replicas.len());
    Ok(ReadPlan { shard_idx, replicas, needed })
}

/// A replica's answer: the node, its address, and the version that it holds.
#[derive(Debug)]
pub struct Answer {
    pub node_id: u64,
    pub addr: String,
    pub point: Option<StoredPoint>,
}

/// What an answer says.
pub struct AnswerView {
    pub node_id: u64,
    pub addr: Seq<char>,
    pub point: Option<StoredView>,
}

impl View for Answer {
    type V = AnswerView;

    open spec fn view(&self) -> AnswerView {
        AnswerView {
            node_id: self.node_id,
            addr: self.addr@,
            point: match self.point {
                Some(p) => Some(p@),
                None => None,
            },
        }
    }
}

/// What a run of answers says.
pub open spec fn answer_views(answers: Seq<Answer>) -> Seq<AnswerView> {
    answers.map_values(|a: Answer| a@)
}

/// The newest version among the answers; of equally new ones the last.
pub open spec fn newest(answers: Seq<AnswerView>) -> Option<StoredView>
    decreases answers.len(),
{
    if answers.len() == 0 {
        None
    } else {
        let best = newest(answers.drop_last());
        match (best, answers.last().point) {
            (Some(b), Some(p)) => if p.hlc.older(b.hlc) {
                Some(b)
            } else {
                Some(p)
            },
            (None, Some(p)) => Some(p),
            (_, None) => best,
        }
    }
}

/// The replica that answered `a` is behind `winner`: its version is older, or it has
/// none.
pub open spec fn behind(a: AnswerView, winner: StoredView) -> bool {
    match a.point {
        Some(p) => p.hlc.older(winner.hlc),
        None => true,
    }
}

/// The replicas that are behind `winner`, without (or only) the node `me`.
pub open spec fn repairs(answers: Seq<AnswerView>, winner: StoredView, me: u64, own: bool) -> Seq<
    (u64, Seq<char>),
>
    decreases answers.len(),
{
    if answers.len() == 0 {
        Seq::empty()
    } else {
        let rest = repairs(answers.drop_last(), winner, me, own);
        let a = answers.last();
        if behind(a, winner) && (a.node_id == me) == own {
            rest.push((a.node_id, a.addr))
        } else {
            rest
        }
    }
}

/// The newest version among the answers (tombstone or value).
pub fn merge_answers(answers: &Vec<Answer>) -> (r: Option<StoredPoint>)
    ensures
        match r {
            Some(p) => newest(answer_views(answers@)) == Some(p@),
            None => newest(answer_views(answers@)) is None,
        },
{
    let mut best: Option<usize> = None;
    let mut i: usize = 0;
    let ghost views = answer_views(answers@);
    assert(views.take(0) =~= Seq::empty());
    while i < answers.len()
        invariant
            views == answer_views(answers@),
            i <= answers@.len(),
            match best {
                Some(b) => b < i && views[b as int].point is Some && newest(views.take(i as int))
                    == views[b as int].point,
                None => newest(views.take(i as int)) is None,
            },
        decreases answers@.len() - i,
    {
        proof {
            assert(views.take(i + 1).drop_last() =~= views.take(i as int));
            assert(views.take(i + 1).last() == views[i as int]);
        }
        if let Some(p) = &answers[i].point {
            let better: bool = match best {
                Some(b) => match &answers[b].point {
                    Some(q) => !p.hlc.precedes(&q.hlc),
                    None => true,
                },
                None => true,
            };
            if better {
                best = Some(i);
            }
        }
        i = i + 1;
    }
    assert(views.take(i as int) =~= views);
    match best {
        Some(b) => match &answers[b].point {
            Some(p) => Some(p.clone()),
            None => None,
        },
        None => None,
    }
}

/// What a read returns for a winner: nothing where it is a tombstone.
pub fn live_value(winner: StoredPoint) -> (r: Option<(u64, Vec<u32>)>)
    ensures
        match r {
            Some((id, vector)) => !winner.tombstone && id == winner.id && vector@ == winner.vector@,
            None => winner.tombstone,
        },
{
    if winner.tombstone {
        None
    } else {
        Some((winner.id, winner.vector))
    }
}

/// What a read of one point contributes to its batch: the winner's value, and nothing
/// where there is no winner or it is a tombstone.
pub open spec fn live(winner: Option<StoredView>) -> Seq<(u64, Seq<u32>)> {
    match winner {
        Some(p) => if p.tombstone {
            Seq::empty()
        } else {
            seq![(p.id, p.vector)]
        },
        None => Seq::empty(),
    }
}

/// What a run of read values says.
pub open spec fn value_views(values: Seq<(u64, Vec<u32>)>) -> Seq<(u64, Seq<u32>)> {
    values.map_values(|v: (u64, Vec<u32>)| (v.0, v.1@))
}

/// How far a batch of reads has come.
#[derive(Debug)]
pub struct GetRun {
    /// How many of the ids were read.
    pub done: usize,
    /// The live values among them, in the order of the ids.
    pub found: Vec<(u64, Vec<u32>)>,
}

/// What a batch of reads has come to.
#[verifier::ext_equal]
pub struct GetView {
    pub done: nat,
    pub found: Seq<(u64, Seq<u32>)>,
}

impl View for GetRun {
    type V = GetView;

    open spec fn view(&self) -> GetView {
        GetView { done: self.done as nat, found: value_views(self.found@) }
    }
}

impl GetView {
    /// The batch once enough replicas have answered for its next id.
    pub open spec fn answered(self, answers: Seq<AnswerView>) -> GetView {
        GetView { done: self.done + 1, found: self.found + live(newest(answers)) }
    }
}

impl GetRun {
    /// A batch of which nothing was read.
    pub fn new() -> (r: Self)
        ensures
            r@ == (GetView { done: 0, found: Seq::empty() }),
    {
        let r = GetRun { done: 0, found: Vec::new() };
        assert(r@.found =~= Seq::empty());
        r
    }

    /// Settle the read of the next id, which went out as `plan` says: where enough
    /// replicas answered, the newest version wins, and its value counts unless it is a
    /// tombstone. Returns the winner, for the repair of the replicas that are behind it.
    pub fn answered(&mut self, collection: &str, plan: &ReadPlan, answers: &Vec<Answer>) -> (r:
        Result<Option<StoredPoint>, RouterError>)
        requires
            old(self).done < usize::MAX,
        ensures
            match r {
                Ok(winner) => {
                    &&& answers@.len() >= plan.needed
                    &&& match winner {
                        Some(p) => newest(answer_views(answers@)) == Some(p@),
                        None => newest(answer_views(answers@)) is None,
                    }
                    &&& final(self)@ == old(self)@.answered(answer_views(answers@))
                },
                Err(e) => {
                    &&& answers@.len() < plan.needed
                    &&& e.is_read_quorum(
                        collection@,
                        plan.shard_idx,
                        plan.needed as nat,
                        answers@.len(),
                    )
                    &&& *final(self) == *old(self)
                },
            },
    {
        if answers.len() < plan.needed {
            return Err(
                RouterError::ReadQuorum {
                    collection: collection.to_owned(),
                    shard_idx: plan.shard_idx,
                    needed: plan.needed,
                    got: answers.len(),
                },
            );
        }
        let winner: Option<StoredPoint> = merge_answers(answers);
        self.done = self.done + 1;
        let ghost before = self.found@;
        if let Some(p) = &winner {
            if let Some(value) = live_value(p.clone()) {
                self.found.push(value);
                assert(value_views(self.found@) =~= value_views(before) + live(Some(p@)));
            }
        }
        assert(self@.found =~= old(self)@.answered(answer_views(answers@)).found);
        Ok(winner)
    }
}

/// One step of a batch of reads: the read of the next id, or nothing where all were
/// read. The batch ends at the first error.
pub fn coordinate_get(
    meta: &MetaState,
    collection: &str,
    ids: &Vec<u64>,
    run: &GetRun,
    consistency: Consistency,
) -> (r: Result<Option<ReadPlan>, RouterError>)
    requires
        meta.wf(),
        meta@.collections.contains_key(collection@) && run.done < ids@.len()
            ==> meta@.collections[collection@].shard_count > 0,
        run.done <= ids@.len(),
    ensures
        if !meta@.collections.contains_key(collection@) {
            r matches Err(e) && e.is_not_found(collection@)
        } else if run.done == ids@.len() {
            r matches Ok(None)
        } else {
            let shard = read_shard(meta@, collection@, ids@[run.done as int]);
            let view = read_view(meta@, collection@, shard);
            match r {
                Ok(Some(plan)) => {
                    &&& view.len() > 0
                    &&& plan.shard_idx == shard
                    &&& addressed(plan.replicas@) == view
                    &&& plan.needed == consistency.needed(view.len())
                },
                Ok(None) => false,
                Err(e) => view.len() == 0 && e.is_no_replica(collection@, shard),
            }
        },
{
    let schema: CollectionSchema = match schema_of(meta, collection) {
        Ok(schema) => schema,
        Err(e) => return Err(e),
    };
    if run.done == ids.len() {
        return Ok(None);
    }
    match plan_get(meta, collection, &schema, ids[run.done], consistency) {
        Ok(plan) => Ok(Some(plan)),
        Err(e) => Err(e),
    }
}

/// The shard of a collection that holds the point `id`.
pub open spec fn read_shard(meta: MetaView, collection: Seq<char>, id: u64) -> u32 {
    (id_hash(id) % (meta.collections[collection].shard_count as u64)) as u32
}

/// How a batch of reads ends.
pub enum GetEnd {
    /// Every id was read: the live values, in the order of the ids.
    Found(Seq<(u64, Seq<u32>)>),
    NotFound,
    NoReplica { shard: u32 },
    ReadQuorum { shard: u32, needed: nat, got: nat },
}

/// The error at which the read of `id` ends its batch, where it does: no replica is
/// Active, or fewer answered than the consistency level asks for.
pub open spec fn get_stops(
    meta: MetaView,
    collection: Seq<char>,
    consistency: Consistency,
    id: u64,
    got: nat,
) -> Option<GetEnd> {
    let shard = read_shard(meta, collection, id);
    let view = read_view(meta, collection, shard);
    if view.len() == 0 {
        Some(GetEnd::NoReplica { shard })
    } else if got < consistency.needed(view.len()) {
        Some(GetEnd::ReadQuorum { shard, needed: consistency.needed(view.len()), got })
    } else {
        None
    }
}

/// How a batch of reads that has come as far as `run` ends, where `answers` are the
/// answers for each id.
pub open spec fn get_from(
    meta: MetaView,
    collection: Seq<char>,
    consistency: Consistency,
    ids: Seq<u64>,
    answers: Seq<Seq<AnswerView>>,
    run: GetView,
) -> GetEnd
    decreases ids.len() - run.done,
{
    if !meta.collections.contains_key(collection) {
        GetEnd::NotFound
    } else if run.done >= ids.len() {
        GetEnd::Found(run.found)
    } else {
        let i = run.done as int;
        match get_stops(meta, collection, consistency, ids[i], answers[i].len()) {
            Some(end) => end,
            None => get_from(
                meta,
                collection,
                consistency,
                ids,
                answers,
                run.answered(answers[i]),
            ),
        }
    }
}

/// The values of the live winners among the answers for each id, in order.
pub open spec fn live_winners(answers: Seq<Seq<AnswerView>>) -> Seq<(u64, Seq<u32>)>
    decreases answers.len(),
{
    if answers.len() == 0 {
        Seq::empty()
    } else {
        live_winners(answers.drop_last()) + live(newest(answers.last()))
    }
}

/// The ids for which there is a live winner, in order.
pub open spec fn live_ids(ids: Seq<u64>, answers: Seq<Seq<AnswerView>>) -> Seq<u64>
    decreases ids.len(),
{
    if ids.len() == 0 {
        Seq::empty()
    } else {
        let rest = live_ids(ids.drop_last(), answers.drop_last());
        if live(newest(answers.last())).len() > 0 {
            rest.push(ids.last())
        } else {
            rest
        }
    }
}

proof fn get_run_reaches(
    meta: MetaView,
    collection: Seq<char>,
    consistency: Consistency,
    ids: Seq<u64>,
    answers: Seq<Seq<AnswerView>>,
    n: int,
)
    requires
        meta.collections.contains_key(collection),
        answers.len() == ids.len(),
        0 <= n <= ids.len(),
        forall|i: int|
            0 <= i < n ==> get_stops(
                meta,
                collection,
                consistency,
                #[trigger] ids[i],
                answers[i].len(),
            ) is None,
    ensures
        get_from(
            meta,
            collection,
            consistency,
            ids,
            answers,
            (GetView { done: 0, found: Seq::empty() }),
        ) == get_from(
            meta,
            collection,
            consistency,
            ids,
            answers,
            (GetView { done: n as nat, found: live_winners(answers.take(n)) }),
        ),
    decreases n,
{
    if n == 0 {
        assert(live_winners(answers.take(0)) =~= Seq::empty());
    } else {
        get_run_reaches(meta, collection, consistency, ids, answers, n - 1);
        let run = GetView { done: (n - 1) as nat, found: live_winners(answers.take(n - 1)) };
        assert(get_stops(meta, collection, consistency, ids[n - 1], answers[n - 1].len()) is None);
        assert(answers.take(n).drop_last() =~= answers.take(n - 1));
        assert(run.answered(answers[n - 1]) =~= (GetView {
            done: n as nat,
            found: live_winners(answers.take(n)),
        }));
    }
}

/// A batch of reads of which every id is answered by enough replicas returns exactly the
/// live winners: for each id, in the order of the ids, the newest version among the
/// answers, and nothing where that is a tombstone or there is none.
pub proof fn get_returns_live_winners(
    meta: MetaView,
    collection: Seq<char>,
    consistency: Consistency,
    ids: Seq<u64>,
    answers: Seq<Seq<AnswerView>>,
)
    requires
        meta.collections.contains_key(collection),
        answers.len() == ids.len(),
        forall|i: int|
            0 <= i < ids.len() ==> get_stops(
                meta,
                collection,
                consistency,
                #[trigger] ids[i],
                answers[i].len(),
            ) is None,
    ensures
        get_from(
            meta,
            collection,
            consistency,
            ids,
            answers,
            (GetView { done: 0, found: Seq::empty() }),
        ) == GetEnd::Found(live_winners(answers)),
{
    get_run_reaches(meta, collection, consistency, ids, answers, ids.len() as int);
    assert(answers.take(ids.len() as int) =~= answers);
}

/// A batch of reads ends with the error of the first id that has no Active replica or too
/// few answers, whatever the answers for the ids after it.
pub proof fn get_ends_at_first_error(
    meta: MetaView,
    collection: Seq<char>,
    consistency: Consistency,
    ids: Seq<u64>,
    answers: Seq<Seq<AnswerView>>,
    n: int,
)
    requires
        meta.collections.contains_key(collection),
        answers.len() == ids.len(),
        0 <= n < ids.len(),
        forall|i: int|
            0 <= i < n ==> get_stops(
                meta,
                collection,
                consistency,
                #[trigger] ids[i],
                answers[i].len(),
            ) is None,
        get_stops(meta, collection, consistency, ids[n], answers[n].len()) is Some,
    ensures
        Some(
            get_from(
                meta,
                collection,
                consistency,
                ids,
                answers,
                (GetView { done: 0, found: Seq::empty() }),
            ),
        ) == get_stops(meta, collection, consistency, ids[n], answers[n].len()),
{
    get_run_reaches(meta, collection, consistency, ids, answers, n);
}

/// Where each answer is about the id that was asked for, a batch of reads returns the ids
/// that have a live winner, in the order in which they were asked for.
pub proof fn found_values_follow_ids(ids: Seq<u64>, answers: Seq<Seq<AnswerView>>)
    requires
        answers.len() == ids.len(),
        forall|i: int, j: int|
            0 <= i < ids.len() && 0 <= j < answers[i].len() ==> match (
                #[trigger] answers[i][j]
            ).point {
                Some(p) => p.id == ids[i],
                None => true,
            },
    ensures
        live_winners(answers).map_values(|v: (u64, Seq<u32>)| v.0) == live_ids(ids, answers),
    decreases ids.len(),
{
    let id_of = |v: (u64, Seq<u32>)| v.0;
    if ids.len() == 0 {
        assert(live_winners(answers).map_values(id_of) =~= live_ids(ids, answers));
    } else {
        let n = ids.len() - 1;
        let a = answers.drop_last();
        assert forall|i: int, j: int|
            0 <= i < ids.drop_last().len() && 0 <= j < a[i].len() implies match (
            #[trigger] a[i][j]
        ).point {
            Some(p) => p.id == ids.drop_last()[i],
            None => true,
        } by {
            assert(a[i][j] == answers[i][j]);
        }
        found_values_follow_ids(ids.drop_last(), a);
        assert forall|j: int| 0 <= j < answers[n].len() implies match (
        #[trigger] answers[n][j]).point {
            Some(p) => p.id == ids[n],
            None => true,
        } by {}
        winner_is_newest(answers[n]);
        assert(answers.last() == answers[n]);
        assert(live_winners(answers).map_values(id_of) =~= live_winners(a).map_values(id_of)
            + live(newest(answers[n])).map_values(id_of));
        assert(live_winners(answers).map_values(id_of) =~= live_ids(ids, answers));
    }
}

/// The write that a read repair pushes, and where to.
#[derive(Debug)]
pub struct Repair {
    pub op: u32,
    /// This node itself, where it is behind.
    pub local: Vec<(u64, String)>,
    /// The other replicas that are behind.
    pub remote: Vec<(u64, String)>,
}

/// The operation that carries `tombstone`.
pub open spec fn op_code(tombstone: bool) -> u32 {
    if tombstone {
        OP_DELETE
    } else {
        OP_UPSERT
    }
}

/// Plan the read repair: push the winner to every replica that returned an older
/// version or none.
pub fn plan_read_repair(me: u64, answers: &Vec<Answer>, winner: &StoredPoint) -> (r: Repair)
    ensures
        r.op == op_code(winner.tombstone),
        addressed(r.local@) == repairs(answer_views(answers@), winner@, me, true),
        addressed(r.remote@) == repairs(answer_views(answers@), winner@, me, false),
{
    let mut local: Vec<(u64, String)> = Vec::new();
    let mut remote: Vec<(u64, String)> = Vec::new();
    let mut i: usize = 0;
    let ghost views = answer_views(answers@);
    assert(views.take(0) =~= Seq::empty());
    assert(addressed(local@) =~= Seq::empty());
    assert(addressed(remote@) =~= Seq::empty());
    while i < answers.len()
        invariant
            views == answer_views(answers@),
            i <= answers@.len(),
            addressed(local@) == repairs(views.take(i as int), winner@, me, true),
            addressed(remote@) == repairs(views.take(i as int), winner@, me, false),
        decreases answers@.len() - i,
    {
        let a: &Answer = &answers[i];
        proof {
            assert(views.take(i + 1).drop_last() =~= views.take(i as int));
            assert(views.take(i + 1).last() == a@);
        }
        let is_behind: bool = match &a.point {
            Some(p) => p.hlc.precedes(&winner.hlc),
            None => true,
        };
        if is_behind {
            if a.node_id == me {
                let ghost before = local@;
                local.push((a.node_id, a.addr.clone()));
                assert(addressed(local@) =~= addressed(before).push((a.node_id, a.addr@)));
            } else {
                let ghost before = remote@;
                remote.push((a.node_id, a.addr.clone()));
                assert(addressed(remote@) =~= addressed(before).push((a.node_id, a.addr@)));
            }
        }
        i = i + 1;
    }
    assert(views.take(i as int) =~= views);
    let op: u32 = if winner.tombstone {
        OP_DELETE
    } else {
        OP_UPSERT
    };
    Repair { op, local, remote }
}

/// The winner of a read is one of the answers, and no answer is newer.
pub proof fn winner_is_newest(answers: Seq<AnswerView>)
    ensures
        match newest(answers) {
            Some(w) => (exists|i: int|
                0 <= i < answers.len() && (#[trigger] answers[i]).point == Some(w)) && forall|i: int|
                0 <= i < answers.len() && (#[trigger] answers[i]).point is Some ==> !w.hlc.older(
                    answers[i].point.unwrap().hlc,
                ),
            None => forall|i: int| 0 <= i < answers.len() ==> (#[trigger] answers[i]).point is None,
        },
    decreases answers.len(),
{
    if answers.len() > 0 {
        let d = answers.drop_last();
        let n = answers.len() - 1;
        winner_is_newest(d);
        assert forall|i: int| 0 <= i < d.len() implies d[i] == answers[i] by {}
        if newest(answers) is Some {
            let w = newest(answers).unwrap();
            order_is_total(w.hlc, w.hlc);
            if newest(d) == Some(w) && newest(d) != answers[n].point {
                let j = choose|j: int| 0 <= j < d.len() && (#[trigger] d[j]).point == Some(w);
                assert(answers[j].point == Some(w));
            } else {
                assert(answers[n].point == Some(w));
            }
            assert forall|i: int| 0 <= i < answers.len() && (#[trigger] answers[i]).point is Some implies !w.hlc.older(
                answers[i].point.unwrap().hlc,
            ) by {
                let p = answers[i].point.unwrap();
                if i < n {
                    assert(d[i].point is Some);
                    let b = newest(d).unwrap();
                    order_is_total(w.hlc, b.hlc);
                    if w.hlc.older(p.hlc) {
                        if b.hlc.older(w.hlc) {
                            order_is_transitive(b.hlc, w.hlc, p.hlc);
                        }
                    }
                } else {
                    order_is_total(w.hlc, p.hlc);
                }
            }
        } else {
            assert forall|i: int| 0 <= i < answers.len() implies (#[trigger] answers[i]).point is None by {
                if i < n {
                    assert(d[i].point is None);
                }
            }
        }
    }
}

/// Two majorities of the same replicas, and more generally any R and W with
/// R + W > N, have a replica in common.
pub proof fn quorums_intersect(replicas: Set<u64>, acked: Set<u64>, read: Set<u64>) -> (common: u64)
    requires
        replicas.finite(),
        acked.subset_of(replicas),
        read.subset_of(replicas),
        acked.len() + read.len() > replicas.len(),
    ensures
        acked.contains(common),
        read.contains(common),
{
    vstd::set_lib::lemma_len_subset(acked, replicas);
    vstd::set_lib::lemma_len_subset(read, replicas);
    if acked.disjoint(read) {
        vstd::set_lib::lemma_set_disjoint_lens(acked, read);
        assert((acked + read).subset_of(replicas));
        vstd::set_lib::lemma_len_subset(acked + read, replicas);
        assert(false);
    }
    assert(exists|x: u64| acked.contains(x) && read.contains(x)) by {
        if forall|x: u64| !(acked.contains(x) && read.contains(x)) {
            assert(acked.disjoint(read));
        }
    }
    choose|x: u64| acked.contains(x) && read.contains(x)
}

/// The replica count at QUORUM, twice, exceeds the number of replicas; so does ALL
/// with any level.
pub proof fn quorum_counts_overlap(n: nat, other: Consistency)
    requires
        n > 0,
    ensures
        Consistency::Quorum.needed(n) + Consistency::Quorum.needed(n) > n,
        Consistency::All.needed(n) + other.needed(n) > n,
{
}

/// A read at QUORUM sees the latest write acknowledged at QUORUM: of the `read`
/// replicas that answered, one had acknowledged the write and holds a version no
/// older than it, so the version that the read returns is no older either.
pub proof fn quorum_read_sees_quorum_write(
    replicas: Set<u64>,
    acked: Set<u64>,
    answers: Seq<AnswerView>,
    written: Hlc,
)
    requires
        replicas.finite(),
        replicas.len() > 0,
        acked.subset_of(replicas),
        acked.len() >= Consistency::Quorum.needed(replicas.len()),
        answers.len() >= Consistency::Quorum.needed(replicas.len()),
        forall|i: int| 0 <= i < answers.len() ==> replicas.contains((#[trigger] answers[i]).node_id),
        forall|i: int, j: int|
            0 <= i < j < answers.len() ==> (#[trigger] answers[i]).node_id != (#[trigger] answers[j]).node_id,
        forall|i: int|
            0 <= i < answers.len() && acked.contains((#[trigger] answers[i]).node_id)
                ==> answers[i].point is Some && !answers[i].point.unwrap().hlc.older(written),
    ensures
        newest(answers) is Some,
        !newest(answers).unwrap().hlc.older(written),
{
    let ids = answers.map_values(|a: AnswerView| a.node_id);
    assert(ids.no_duplicates()) by {
        assert forall|i: int, j: int| 0 <= i < ids.len() && 0 <= j < ids.len() && i != j implies ids[i] != ids[j] by {
            if i < j {
                assert(answers[i].node_id != answers[j].node_id);
            } else {
                assert(answers[j].node_id != answers[i].node_id);
            }
        }
    }
    ids.unique_seq_to_set();
    let read = ids.to_set();
    assert(read.subset_of(replicas)) by {
        assert forall|x: u64| read.contains(x) implies replicas.contains(x) by {
            let i = ids.index_of(x);
            assert(ids[i] == x);
            assert(answers[i].node_id == x);
        }
    }
    let common = quorums_intersect(replicas, acked, read);
    let i = ids.index_of(common);
    assert(ids[i] == common);
    assert(answers[i].node_id == common);
    winner_is_newest(answers);
    let w = newest(answers).unwrap();
    let p = answers[i].point.unwrap();
    if w.hlc.older(written) {
        order_is_total(p.hlc, written);
        if written.older(p.hlc) {
            order_is_transitive(w.hlc, written, p.hlc);
        }
    }
}

pub(crate) proof fn replica_is_repaired(answers: Seq<AnswerView>, winner: StoredView, me: u64, i: int)
    requires
        0 <= i < answers.len(),
        behind(answers[i], winner),
    ensures
        repairs(answers, winner, me, answers[i].node_id == me).contains(
            (answers[i].node_id, answers[i].addr),
        ),
    decreases answers.len(),
{
    let own = answers[i].node_id == me;
    let all = repairs(answers, winner, me, own);
    let target = (answers[i].node_id, answers[i].addr);
    if i == answers.len() - 1 {
        assert(all.last() == target);
        assert(all[all.len() - 1] == target);
    } else {
        let d = answers.drop_last();
        assert(d[i] == answers[i]);
        replica_is_repaired(d, winner, me, i);
        let rest = repairs(d, winner, me, own);
        let j = rest.index_of(target);
        assert(all[j] == target);
    }
}

/// A read repairs every replica that it saw behind, and brings it to the winner: the
/// repair pushes the winner's version, which is newer than what the replica holds.
pub proof fn read_repairs_stale_replicas(answers: Seq<AnswerView>, me: u64, i: int)
    requires
        0 <= i < answers.len(),
        newest(answers) is Some,
        match answers[i].point {
            Some(p) => p.hlc.wall_ms < newest(answers).unwrap().hlc.wall_ms || (p.hlc.wall_ms
                == newest(answers).unwrap().hlc.wall_ms && p.hlc.counter
                < newest(answers).unwrap().hlc.counter),
            None => true,
        },
    ensures
        repairs(answers, newest(answers).unwrap(), me, answers[i].node_id == me).contains(
            (answers[i].node_id, answers[i].addr),
        ),
        answers[i].point is Some ==> answers[i].point.unwrap().hlc.older(
            newest(answers).unwrap().hlc,
        ),
{
    replica_is_repaired(answers, newest(answers).unwrap(), me, i);
}

/// A scatter-gather search in progress: the shard that is being asked, the replicas
/// that can answer for it, which of them is next, and the hits so far.
#[derive(Debug)]
pub struct SearchRun {
    pub shard_idx: u32,
    pub replicas: Vec<(u64, String)>,
    pub next: usize,
    pub hits: Vec<(u64, u32)>,
}

/// What a search does next.
#[derive(Debug)]
pub enum SearchStep {
    /// Ask the next replica of the current shard.
    Ask,
    /// All shards have answered.
    Done,
}

impl SearchRun {
    /// The replica to ask is one of the current shard's Active replicas.
    pub open spec fn at(self, s: MetaView, collection: Seq<char>) -> bool {
        addressed(self.replicas@) == read_view(s, collection, self.shard_idx) && self.next
            < self.replicas@.len()
    }
}

/// Start a search: the query has to fit the collection, and the first shard's Active
/// replicas are asked first.
pub fn start_search(meta: &MetaState, collection: &str, query_len: usize) -> (r: Result<
    (SearchRun, SearchStep),
    RouterError,
>)
    requires
        meta.wf(),
    ensures
        ({
            let known = meta@.collections.contains_key(collection@);
            let schema = meta@.collections[collection@];
            let fit = known && query_len == schema.dim;
            let view = read_view(meta@, collection@, 0);
            match r {
                Ok((run, step)) => {
                    &&& fit
                    &&& run.shard_idx == 0
                    &&& run.next == 0
                    &&& run.hits@.len() == 0
                    &&& (step is Done <==> schema.shard_count == 0)
                    &&& step is Ask ==> run.at(meta@, collection@)
                },
                Err(e) => if !known {
                    e.is_not_found(collection@)
                } else if !fit {
                    e == (RouterError::DimMismatch { expected: schema.dim as usize, got: query_len })
                } else {
                    schema.shard_count > 0 && view.len() == 0 && e.is_no_replica(collection@, 0)
                },
            }
        }),
{
    let schema: CollectionSchema = match schema_of(meta, collection) {
        Ok(schema) => schema,
        Err(e) => return Err(e),
    };
    let dim: usize = schema.dim as usize;
    if query_len != dim {
        return Err(RouterError::DimMismatch { expected: dim, got: query_len });
    }
    if schema.shard_count == 0 {
        let run = SearchRun { shard_idx: 0, replicas: Vec::new(), next: 0, hits: Vec::new() };
        return Ok((run, SearchStep::Done));
    }
    let replicas: Vec<(u64, String)> = active_replicas_with_addrs(meta, collection, 0);
    assert(addressed(replicas@).len() == replicas@.len());
    if replicas.len() == 0 {
        return Err(RouterError::NoReplica { collection: collection.to_owned(), shard_idx: 0 });
    }
    Ok((SearchRun { shard_idx: 0, replicas, next: 0, hits: Vec::new() }, SearchStep::Ask))
}

impl SearchRun {
    /// The replica that was asked could not be reached: fall forward to the next one.
    pub fn unreachable(&mut self, collection: &str) -> (r: Result<SearchStep, RouterError>)
        requires
            old(self).next < old(self).replicas@.len(),
        ensures
            final(self).shard_idx == old(self).shard_idx,
            final(self).replicas@ == old(self).replicas@,
            final(self).hits@ == old(self).hits@,
            final(self).next == old(self).next + 1,
            match r {
                Ok(step) => step is Ask && final(self).next < final(self).replicas@.len(),
                Err(e) => final(self).next == final(self).replicas@.len() && e.is_no_replica(
                    collection@,
                    old(self).shard_idx,
                ),
            },
    {
        let count: usize = self.replicas.len();
        assert(self.next < count);
        self.next = self.next + 1;
        if self.next < count {
            Ok(SearchStep::Ask)
        } else {
            Err(
                RouterError::NoReplica {
                    collection: collection.to_owned(),
                    shard_idx: self.shard_idx,
                },
            )
        }
    }

    /// The replica that was asked answered for its shard: keep its hits and go on to
    /// the next shard.
    pub fn answered(
        &mut self,
        meta: &MetaState,
        collection: &str,
        shard_count: u32,
        hits: &Vec<(u64, u32)>,
    ) -> (r: Result<SearchStep, RouterError>)
        requires
            meta.wf(),
            old(self).shard_idx < shard_count,
        ensures
            final(self).hits@ == old(self).hits@ + hits@,
            final(self).shard_idx == old(self).shard_idx + 1,
            ({
                let shard = final(self).shard_idx;
                let view = read_view(meta@, collection@, shard);
                match r {
                    Ok(SearchStep::Done) => shard == shard_count,
                    Ok(SearchStep::Ask) => shard < shard_count && final(self).at(
                        meta@,
                        collection@,
                    ) && final(self).next == 0,
                    Err(e) => shard < shard_count && view.len() == 0 && e.is_no_replica(
                        collection@,
                        shard,
                    ),
                }
            }),
    {
        let mut i: usize = 0;
        assert(self.hits@ =~= old(self).hits@ + hits@.take(0));
        while i < hits.len()
            invariant
                i <= hits@.len(),
                self.shard_idx == old(self).shard_idx,
                self.hits@ == old(self).hits@ + hits@.take(i as int),
            decreases hits@.len() - i,
        {
            self.hits.push(hits[i]);
            i = i + 1;
            assert(self.hits@ =~= old(self).hits@ + hits@.take(i as int));
        }
        assert(hits@.take(i as int) =~= hits@);
        self.shard_idx = self.shard_idx + 1;
        if self.shard_idx == shard_count {
            return Ok(SearchStep::Done);
        }
        self.replicas = active_replicas_with_addrs(meta, collection, self.shard_idx);
        self.next = 0;
        assert(addressed(self.replicas@).len() == self.replicas@.len());
        if self.replicas.len() == 0 {
            return Err(
                RouterError::NoReplica {
                    collection: collection.to_owned(),
                    shard_idx: self.shard_idx,
                },
            );
        }
        Ok(SearchStep::Ask)
    }
}

/// Merge the hits of all shards into a global top-k by ascending score, ties by id.
pub fn merge_hits(hits: &Vec<(u64, u32)>, k: usize) -> (r: Vec<(u64, u32)>)
    ensures
        top_hits(hits@, k as nat, r@),
{
    first_hits(hits, k)
}

/// The merged hits are hits, `k` of them or all; and where the hits can be put in order,
/// no hit that was left out comes before one of them.
pub proof fn merge_keeps_nearest(hits: Seq<(u64, u32)>, k: nat, r: Seq<(u64, u32)>, i: int)
    requires
        top_hits(hits, k, r),
        0 <= i < hits.len(),
    ensures
        r.contains(hits[i]) || r.len() == k,
        forall|j: int| 0 <= j < r.len() ==> hits.contains(#[trigger] r[j]),
        comparable(hits) ==> r.contains(hits[i]) || forall|j: int|
            0 <= j < r.len() ==> !hit_before(hits[i], #[trigger] r[j]),
        comparable(hits) ==> forall|a: int, b: int|
            0 <= a < b < r.len() ==> !hit_before(#[trigger] r[b], #[trigger] r[a]),
{
    let p = choose|p: Seq<int>|
        {
            &&& #[trigger] hit_order(hits, p)
            &&& r.len() == if k < hits.len() { k } else { hits.len() }
            &&& forall|i: int| 0 <= i < r.len() ==> r[i] == hits[p[i]]
        };
    order_lists_all(hits, p, i);
    let at = p.index_of(i);
    assert(p[at] == i);
    if at < r.len() {
        assert(r[at] == hits[i]);
    } else if comparable(hits) {
        assert forall|j: int| 0 <= j < r.len() implies !hit_before(hits[i], #[trigger] r[j]) by {
            assert(r[j] == hits[p[j]]);
            assert(place_before(hits, p[j], p[at]));
        }
    }
    assert forall|j: int| 0 <= j < r.len() implies hits.contains(#[trigger] r[j]) by {
        assert(r[j] == hits[p[j]]);
    }
    if comparable(hits) {
        assert forall|a: int, b: int| 0 <= a < b < r.len() implies !hit_before(#[trigger] r[b], #[trigger] r[a]) by {
            assert(place_before(hits, p[a], p[b]));
        }
    }
}

/// A write as it travels between nodes.
#[derive(Debug)]
pub struct ReplicaWrite {
    pub collection: String,
    pub shard_idx: u32,
    pub op: u32,
    pub id: u64,
    /// The packed timestamp.
    pub hlc: u64,
    pub vector: Vec<u32>,
    pub payload: Vec<u8>,
}

/// The write that brings a replica to the winner of a read.
pub fn repair_write(collection: &str, shard_idx: u32, winner: &StoredPoint) -> (r: ReplicaWrite)
    ensures
        r.collection@ == collection@,
        r.shard_idx == shard_idx,
        r.op == op_code(winner.tombstone),
        r.id == winner.id,
        r.hlc == winner.hlc.value(),
        r.vector@ == winner.vector@,
        r.payload@ == winner.payload@,
{
    let copy: StoredPoint = winner.clone();
    assert(copy@ == winner@);
    ReplicaWrite {
        collection: collection.to_owned(),
        shard_idx,
        op: if copy.tombstone {
            OP_DELETE
        } else {
            OP_UPSERT
        },
        id: copy.id,
        hlc: copy.hlc.pack(),
        vector: copy.vector,
        payload: copy.payload,
    }
}

/// The write that brings this node's own replica to the winner of a read.
pub open spec fn repair_of(winner: StoredView) -> RecordView {
    if winner.tombstone {
        RecordView::delete(winner.hlc, winner.id)
    } else {
        RecordView::upsert(winner.hlc, winner.id, winner.vector, winner.payload)
    }
}

/// The write that brings this node's own replica to the winner of a read. Nothing was
/// received, so the clock has no part in it.
pub fn local_repair(winner: &StoredPoint) -> (r: WalRecord)
    ensures
        r@ == repair_of(winner@),
{
    let copy: StoredPoint = winner.clone();
    assert(copy@ == winner@);
    if copy.tombstone {
        WalRecord::delete(copy.hlc, copy.id)
    } else {
        WalRecord::upsert(copy.hlc, copy.id, copy.vector, copy.payload)
    }
}

/// The write that replays a hint.
pub fn hint_write(hint: &Hint) -> (r: ReplicaWrite)
    ensures
        r.collection@ == hint@.collection,
        r.shard_idx == hint@.shard_idx,
        r.op == op_code(hint@.record.op == WalOp::Delete),
        r.id == hint@.record.id,
        r.hlc == hint@.record.hlc.value(),
        r.vector@ == hint@.record.vector,
        r.payload@ == hint@.record.payload,
{
    let copy: Hint = hint.clone();
    let op: u32 = match copy.op {
        WalOp::Delete => OP_DELETE,
        WalOp::Upsert => OP_UPSERT,
    };
    ReplicaWrite {
        collection: copy.collection,
        shard_idx: copy.shard_idx,
        op,
        id: copy.id,
        hlc: copy.hlc.pack(),
        vector: copy.vector,
        payload: copy.payload,
    }
}

/// The write that a replica receives: any operation but a delete stores the vector.
pub open spec fn received(w: ReplicaWrite) -> RecordView {
    if w.op == OP_DELETE {
        RecordView::delete(Hlc::of(w.hlc), w.id)
    } else {
        RecordView::upsert(Hlc::of(w.hlc), w.id, w.vector@, w.payload@)
    }
}

/// Take in a write from another node: the clock moves past its timestamp, and the
/// record is to be staged under last-writer-wins.
pub fn receive_write(clock: &mut HlcClock, wall_ms: u64, w: ReplicaWrite) -> (r: WalRecord)
    ensures
        r@ == received(w),
        final(clock).last() == next_stamp(
            if old(clock).last() < w.hlc {
                w.hlc
            } else {
                old(clock).last()
            },
            wall_ms,
        ),
{
    let hlc: Hlc = Hlc::unpack(w.hlc);
    proof {
        crate::hlc::pack_roundtrip(hlc, w.hlc);
    }
    let _stamp: Hlc = clock.update(hlc, wall_ms);
    if w.op == OP_DELETE {
        WalRecord::delete(hlc, w.id)
    } else {
        WalRecord::upsert(hlc, w.id, w.vector, w.payload)
    }
}

/// A hint, replayed, is the write that it stands for.
pub proof fn replayed_hint_is_the_write(h: HintView, w: ReplicaWrite)
    requires
        h.wf(),
        h.record.op == WalOp::Delete ==> h.record.vector.len() == 0 && h.record.payload.len() == 0,
        w.op == op_code(h.record.op == WalOp::Delete),
        w.id == h.record.id,
        w.hlc == h.record.hlc.value(),
        w.vector@ == h.record.vector,
        w.payload@ == h.record.payload,
    ensures
        received(w) == h.record,
{
    crate::hlc::pack_roundtrip(h.record.hlc, 0);
    assert(received(w) =~= h.record);
}

/// Where to replay each hint to: the target's address, where it is known.
pub fn replay_targets(meta: &MetaState, hints: &Vec<Hint>) -> (r: Vec<Option<String>>)
    ensures
        r@.len() == hints@.len(),
        forall|i: int|
            0 <= i < r@.len() ==> match #[trigger] r@[i] {
                Some(addr) => meta@.nodes.contains_key(hints@[i].target_node) && addr@
                    == meta@.nodes[hints@[i].target_node],
                None => !meta@.nodes.contains_key(hints@[i].target_node),
            },
{
    let mut out: Vec<Option<String>> = Vec::new();
    let mut i: usize = 0;
    while i < hints.len()
        invariant
            i <= hints@.len(),
            out@.len() == i,
            forall|j: int|
                0 <= j < i ==> match #[trigger] out@[j] {
                    Some(addr) => meta@.nodes.contains_key(hints@[j].target_node) && addr@
                        == meta@.nodes[hints@[j].target_node],
                    None => !meta@.nodes.contains_key(hints@[j].target_node),
                },
        decreases hints@.len() - i,
    {
        let target: Option<String> = match meta.nodes.get(&hints[i].target_node) {
            Some(addr) => Some(addr.clone()),
            None => None,
        };
        out.push(target);
        i = i + 1;
    }
    out
}

/// The hints that were not pushed.
pub open spec fn unpushed(hints: Seq<HintView>, pushed: Seq<bool>) -> Seq<HintView>
    decreases pushed.len(),
{
    if pushed.len() == 0 {
        Seq::empty()
    } else {
        let rest = unpushed(hints, pushed.drop_last());
        if pushed.last() {
            rest
        } else {
            rest.push(hints[pushed.len() - 1])
        }
    }
}

/// Settle a replay: `pushed[i]` says whether hint `i` reached its target. Those that
/// did not are kept. Returns them and how many were replayed.
pub fn replay_hints(hints: &Vec<Hint>, pushed: &Vec<bool>) -> (r: (Vec<Hint>, usize))
    requires
        pushed@.len() == hints@.len(),
    ensures
        hint_views(r.0@) == unpushed(hint_views(hints@), pushed@),
        r.1 == acks_in(pushed@),
        r.0@.len() + r.1 == hints@.len(),
{
    let mut keep: Vec<Hint> = Vec::new();
    let mut replayed: usize = 0;
    let mut i: usize = 0;
    let ghost views = hint_views(hints@);
    assert(pushed@.take(0) =~= Seq::empty());
    assert(hint_views(keep@) =~= Seq::empty());
    while i < pushed.len()
        invariant
            pushed@.len() == hints@.len(),
            views == hint_views(hints@),
            i <= pushed@.len(),
            replayed == acks_in(pushed@.take(i as int)),
            keep@.len() + replayed == i,
            hint_views(keep@) == unpushed(views, pushed@.take(i as int)),
        decreases pushed@.len() - i,
    {
        proof {
            assert(pushed@.take(i + 1).drop_last() =~= pushed@.take(i as int));
            assert(pushed@.take(i + 1).last() == pushed@[i as int]);
        }
        if pushed[i] {
            replayed = replayed + 1;
        } else {
            let ghost before = keep@;
            let h: Hint = hints[i].clone();
            assert(h@ == views[i as int]);
            keep.push(h);
            assert(hint_views(keep@) =~= hint_views(before).push(h@));
        }
        i = i + 1;
    }
    assert(pushed@.take(i as int) =~= pushed@);
    (keep, replayed)
}

/// No hint is lost in a replay: one that did not reach its target is kept.
pub proof fn unpushed_hint_is_kept(hints: Seq<HintView>, pushed: Seq<bool>, i: int)
    requires
        0 <= i < pushed.len(),
        !pushed[i],
    ensures
        unpushed(hints, pushed).contains(hints[i]),
    decreases pushed.len(),
{
    let all = unpushed(hints, pushed);
    if i == pushed.len() - 1 {
        assert(all[all.len() - 1] == hints[i]);
    } else {
        let d = pushed.drop_last();
        assert(d[i] == pushed[i]);
        unpushed_hint_is_kept(hints, d, i);
        let rest = unpushed(hints, d);
        let j = rest.index_of(hints[i]);
        assert(all[j] == hints[i]);
    }
}

/// Every replica that did not acknowledge a write is owed a hint for it.
pub proof fn unacked_replica_is_hinted(
    collection: Seq<char>,
    shard_idx: u32,
    record: RecordView,
    replicas: Seq<(u64, Seq<char>)>,
    replies: Seq<bool>,
    i: int,
)
    requires
        0 <= i < replies.len(),
        !replies[i],
    ensures
        hints_due(collection, shard_idx, record, replicas, replies).contains(
            (HintView { target_node: replicas[i].0, collection, shard_idx, record }),
        ),
        hints_due(collection, shard_idx, record, replicas, replies).len() + acks_in(replies)
            == replies.len(),
    decreases replies.len(),
{
    hints_and_acks(collection, shard_idx, record, replicas, replies);
    let all = hints_due(collection, shard_idx, record, replicas, replies);
    let h = HintView { target_node: replicas[i].0, collection, shard_idx, record };
    if i == replies.len() - 1 {
        assert(all[all.len() - 1] == h);
    } else {
        let d = replies.drop_last();
        assert(d[i] == replies[i]);
        unacked_replica_is_hinted(collection, shard_idx, record, replicas, d, i);
        let rest = hints_due(collection, shard_idx, record, replicas, d);
        let j = rest.index_of(h);
        assert(all[j] == h);
    }
}

pub(crate) proof fn hints_and_acks(
    collection: Seq<char>,
    shard_idx: u32,
    record: RecordView,
    replicas: Seq<(u64, Seq<char>)>,
    replies: Seq<bool>,
)
    ensures
        hints_due(collection, shard_idx, record, replicas, replies).len() + acks_in(replies)
            == replies.len(),
    decreases replies.len(),
{
    if replies.len() > 0 {
        hints_and_acks(collection, shard_idx, record, replicas, replies.drop_last());
    }
}

/// The hints meant for `target`.
pub open spec fn meant_for(hints: Seq<HintView>, target: u64) -> Seq<HintView> {
    hints.filter(|h: HintView| h.target_node == target)
}

/// The hints meant for `target`, in order.
pub fn hints_for(hints: &Vec<Hint>, target: u64) -> (r: Vec<Hint>)
    ensures
        hint_views(r@) == meant_for(hint_views(hints@), target),
{
    let mut out: Vec<Hint> = Vec::new();
    let mut i: usize = 0;
    let ghost views = hint_views(hints@);
    let ghost pred = |h: HintView| h.target_node == target;
    proof {
        assert(views.take(0) =~= Seq::empty());
        reveal(Seq::filter);
        assert(hint_views(out@) =~= views.take(0).filter(pred));
    }
    while i < hints.len()
        invariant
            views == hint_views(hints@),
            pred == (|h: HintView| h.target_node == target),
            i <= hints@.len(),
            hint_views(out@) == views.take(i as int).filter(pred),
        decreases hints@.len() - i,
    {
        proof {
            reveal(Seq::filter);
            assert(views.take(i + 1).drop_last() =~= views.take(i as int));
            assert(views.take(i + 1).last() == views[i as int]);
        }
        if hints[i].target_node == target {
            let ghost before = out@;
            let h: Hint = hints[i].clone();
            assert(h@ == views[i as int]);
            out.push(h);
            assert(hint_views(out@) =~= hint_views(before).push(h@));
        }
        i = i + 1;
    }
    assert(views.take(i as int) =~= views);
    out
}

} // verus!
