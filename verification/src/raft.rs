//! The replicated metadata log: what is kept of it, and how committed entries are
//! applied.
//!
//! `L` identifies an entry in the log, `E` is an entry, `V` a vote, `M` a membership;
//! these belong to the consensus protocol and are only carried here.

use std::collections::BTreeMap;

use vstd::prelude::*;

use crate::meta::{MetaRequest, MetaResponse, MetaState};
use crate::queue::insert_sorted;
use crate::text::{join, to_decimal};

verus! {

use vstd::std_specs::iter::IteratorSpec;
use crate::meta::{applied, note_of, MetaView};
use crate::queue::ascending;
use crate::text::decimal;

broadcast use vstd::std_specs::btree::group_btree_axioms;

/// The log with its purge watermark, the vote, and the committed id.
#[derive(Debug)]
pub struct LogStore<L, E, V> {
    /// Entries by index, each with its id.
    pub log: BTreeMap<u64, (L, E)>,
    pub last_purged_log_id: Option<L>,
    pub committed: Option<L>,
    pub vote: Option<V>,
}

/// The log after `entries` (index, id, entry) were put into it in order.
pub open spec fn appended<L, E>(log: Map<u64, (L, E)>, entries: Seq<(u64, L, E)>) -> Map<u64, (L, E)>
    decreases entries.len(),
{
    if entries.len() == 0 {
        log
    } else {
        let e = entries.last();
        appended(log, entries.drop_last()).insert(e.0, (e.1, e.2))
    }
}

/// `i` is the largest index in the log.
pub open spec fn is_last<T>(log: Map<u64, T>, i: u64) -> bool {
    log.contains_key(i) && forall|j: u64| #[trigger] log.contains_key(j) ==> j <= i
}

/// The indexes of a log, ascending.
fn list_indexes<T>(log: &BTreeMap<u64, T>) -> (r: Vec<u64>)
    ensures
        forall|i: u64| r@.contains(i) <==> log@.contains_key(i),
        forall|i: int, j: int| 0 <= i < j < r@.len() ==> r@[i] < r@[j],
{
    let mut out: Vec<u64> = Vec::new();
    let ghost all = vstd::std_specs::btree::spec_btree_map_iter(log).remaining();
    for (i, e) in iter: log.iter()
        invariant
            iter.seq() == all,
            all.no_duplicates(),
            forall|j: int|
                0 <= j < all.len() ==> log@.contains_key(*(#[trigger] all[j]).0) && log@[*all[j].0]
                    == *all[j].1,
            ascending(out@),
            out@.no_duplicates(),
            forall|x: u64|
                out@.contains(x) <==> exists|j: int| 0 <= j < iter.index() && *(#[trigger] all[j]).0 == x,
    {
        let ghost k = iter.index();
        proof {
            if out@.contains(*i) {
                let j = choose|j: int| 0 <= j < k && *(#[trigger] all[j]).0 == *i;
                assert(*all[k].0 == *i);
                assert(log@[*all[j].0] == *all[j].1);
                assert(log@[*all[k].0] == *all[k].1);
                assert(all[j] == all[k]);
                assert(false);
            }
        }
        insert_sorted(&mut out, *i);
        proof {
            assert forall|x: u64|
                out@.contains(x) <==> exists|j: int| 0 <= j < k + 1 && *(#[trigger] all[j]).0 == x by {
                if x == *i {
                    assert(*all[k].0 == x);
                }
            }
        }
    }
    proof {
        assert forall|i: u64| out@.contains(i) <==> log@.contains_key(i) by {
            if log@.contains_key(i) {
                assert(all.contains((&i, &log@[i])));
                let j = all.index_of((&i, &log@[i]));
                assert(all[j] == (&i, &log@[i]));
                assert(*all[j].0 == i);
            }
        }
        assert forall|i: int, j: int| 0 <= i < j < out@.len() implies out@[i] < out@[j] by {
            assert(out@[i] <= out@[j]);
            assert(out@[i] != out@[j]);
        }
    }
    out
}

impl<L: Copy, E, V: Copy> LogStore<L, E, V> {
    /// An empty log.
    pub fn new() -> (r: Self)
        ensures
            r.log@ == Map::<u64, (L, E)>::empty(),
            r.last_purged_log_id is None,
            r.committed is None,
            r.vote is None,
    {
        LogStore { log: BTreeMap::new(), last_purged_log_id: None, committed: None, vote: None }
    }

    /// The purge watermark and the id of the last entry; the watermark stands in where
    /// there is no entry.
    pub fn get_log_state(&self) -> (r: (Option<L>, Option<L>))
        ensures
            r.0 == self.last_purged_log_id,
            self.log@ == Map::<u64, (L, E)>::empty() ==> r.1 == self.last_purged_log_id,
            self.log@ != Map::<u64, (L, E)>::empty() ==> exists|i: u64| #[trigger]
                is_last(self.log@, i) && r.1 == Some(self.log@[i].0),
    {
        let indexes: Vec<u64> = list_indexes(&self.log);
        let n: usize = indexes.len();
        if n == 0 {
            proof {
                assert forall|i: u64| !self.log@.contains_key(i) by {
                    assert(!indexes@.contains(i));
                }
                assert(self.log@ =~= Map::<u64, (L, E)>::empty());
            }
            return (self.last_purged_log_id, self.last_purged_log_id);
        }
        let last: u64 = indexes[n - 1];
        proof {
            assert(indexes@.contains(last));
            assert forall|j: u64| #[trigger] self.log@.contains_key(j) implies j <= last by {
                assert(indexes@.contains(j));
                let k = indexes@.index_of(j);
                assert(indexes@[k] == j);
                if k < n - 1 {
                    assert(indexes@[k] < indexes@[n - 1]);
                }
            }
            assert(is_last(self.log@, last));
        }
        let id: Option<L> = match self.log.get(&last) {
            Some(e) => Some(e.0),
            None => None,
        };
        (self.last_purged_log_id, id)
    }

    pub fn save_vote(&mut self, vote: V)
        ensures
            *final(self) == (LogStore { vote: Some(vote), ..*old(self) }),
    {
        self.vote = Some(vote);
    }

    pub fn read_vote(&self) -> (r: Option<V>)
        ensures
            r == self.vote,
    {
        self.vote
    }

    pub fn save_committed(&mut self, committed: Option<L>)
        ensures
            *final(self) == (LogStore { committed, ..*old(self) }),
    {
        self.committed = committed;
    }

    pub fn read_committed(&self) -> (r: Option<L>)
        ensures
            r == self.committed,
    {
        self.committed
    }

    /// Put entries (index, id, entry) into the log, in place of what is at their
    /// indexes.
    pub fn append(&mut self, entries: Vec<(u64, L, E)>)
        ensures
            final(self).log@ == appended(old(self).log@, entries@),
            final(self).last_purged_log_id == old(self).last_purged_log_id,
            final(self).committed == old(self).committed,
            final(self).vote == old(self).vote,
    {
        let ghost all = entries@;
        let ghost mut k: int = 0;
        assert(all.take(0) =~= Seq::empty());
        for entry in iter: entries
            invariant
                iter.seq() == all,
                k == iter.index(),
                self.log@ == appended(old(self).log@, all.take(k)),
                self.last_purged_log_id == old(self).last_purged_log_id,
                self.committed == old(self).committed,
                self.vote == old(self).vote,
        {
            proof {
                assert(all.take(k + 1).drop_last() =~= all.take(k));
                assert(all.take(k + 1).last() == all[k]);
                k = k + 1;
            }
            let _before = self.log.insert(entry.0, (entry.1, entry.2));
        }
        assert(all.take(k) =~= all);
    }

    /// Drop the entries from `index` on.
    pub fn truncate(&mut self, index: u64)
        ensures
            final(self).log@ == old(self).log@.restrict(Set::new(|i: u64| i < index)),
            final(self).last_purged_log_id == old(self).last_purged_log_id,
            final(self).committed == old(self).committed,
            final(self).vote == old(self).vote,
    {
        let indexes: Vec<u64> = list_indexes(&self.log);
        let ghost before = self.log@;
        let mut k: usize = 0;
        while k < indexes.len()
            invariant
                before == old(self).log@,
                forall|i: u64| indexes@.contains(i) <==> before.contains_key(i),
                k <= indexes@.len(),
                self.last_purged_log_id == old(self).last_purged_log_id,
                self.committed == old(self).committed,
                self.vote == old(self).vote,
                forall|i: u64| #[trigger]
                    self.log@.contains_key(i) ==> before.contains_key(i) && self.log@[i] == before[i],
                forall|i: u64| before.contains_key(i) && i < index ==> #[trigger] self.log@.contains_key(i),
                forall|j: int| 0 <= j < k && #[trigger] indexes@[j] >= index ==> !self.log@.contains_key(indexes@[j]),
            decreases indexes@.len() - k,
        {
            let i: u64 = indexes[k];
            if i >= index {
                let _gone = self.log.remove(&i);
            }
            k = k + 1;
        }
        proof {
            assert forall|i: u64| self.log@.contains_key(i) <==> before.contains_key(i) && i < index by {
                if self.log@.contains_key(i) && i >= index {
                    assert(indexes@.contains(i));
                    let j = indexes@.index_of(i);
                    assert(indexes@[j] == i);
                }
            }
            assert(self.log@ =~= before.restrict(Set::new(|i: u64| i < index)));
        }
    }

    /// Drop the entries up to and including `index`, whose id is `log_id`, and move the
    /// watermark there.
    pub fn purge(&mut self, index: u64, log_id: L)
        ensures
            final(self).log@ == old(self).log@.restrict(Set::new(|i: u64| i > index)),
            final(self).last_purged_log_id == Some(log_id),
            final(self).committed == old(self).committed,
            final(self).vote == old(self).vote,
    {
        self.last_purged_log_id = Some(log_id);
        let indexes: Vec<u64> = list_indexes(&self.log);
        let ghost before = self.log@;
        let mut k: usize = 0;
        while k < indexes.len()
            invariant
                before == old(self).log@,
                forall|i: u64| indexes@.contains(i) <==> before.contains_key(i),
                k <= indexes@.len(),
                self.last_purged_log_id == Some(log_id),
                self.committed == old(self).committed,
                self.vote == old(self).vote,
                forall|i: u64| #[trigger]
                    self.log@.contains_key(i) ==> before.contains_key(i) && self.log@[i] == before[i],
                forall|i: u64| before.contains_key(i) && i > index ==> #[trigger] self.log@.contains_key(i),
                forall|j: int| 0 <= j < k && #[trigger] indexes@[j] <= index ==> !self.log@.contains_key(indexes@[j]),
            decreases indexes@.len() - k,
        {
            let i: u64 = indexes[k];
            if i <= index {
                let _gone = self.log.remove(&i);
            }
            k = k + 1;
        }
        proof {
            assert forall|i: u64| self.log@.contains_key(i) <==> before.contains_key(i) && i > index by {
                if self.log@.contains_key(i) && i <= index {
                    assert(indexes@.contains(i));
                    let j = indexes@.index_of(i);
                    assert(indexes@[j] == i);
                }
            }
            assert(self.log@ =~= before.restrict(Set::new(|i: u64| i > index)));
        }
    }

    /// The indexes of the entries from `from` on and before `to`, ascending.
    pub fn try_get_log_entries(&self, from: u64, to: Option<u64>) -> (r: Vec<u64>)
        ensures
            forall|i: u64|
                r@.contains(i) <==> self.log@.contains_key(i) && from <= i && (to matches Some(t)
                    ==> i < t),
            forall|i: int, j: int| 0 <= i < j < r@.len() ==> r@[i] < r@[j],
    {
        let indexes: Vec<u64> = list_indexes(&self.log);
        let mut out: Vec<u64> = Vec::new();
        let mut k: usize = 0;
        while k < indexes.len()
            invariant
                k <= indexes@.len(),
                forall|i: int, j: int| 0 <= i < j < indexes@.len() ==> indexes@[i] < indexes@[j],
                forall|i: int, j: int| 0 <= i < j < out@.len() ==> out@[i] < out@[j],
                forall|i: int, j: int|
                    0 <= i < out@.len() && k <= j < indexes@.len() ==> out@[i] < indexes@[j],
                forall|i: int| 0 <= i < out@.len() ==> indexes@.contains(#[trigger] out@[i]) && from <= out@[i] && (
                to matches Some(t) ==> out@[i] < t),
                forall|j: int|
                    0 <= j < k && from <= #[trigger] indexes@[j] && (to matches Some(t) ==> indexes@[j]
                        < t) ==> out@.contains(indexes@[j]),
            decreases indexes@.len() - k,
        {
            let i: u64 = indexes[k];
            let below: bool = match to {
                Some(t) => i < t,
                None => true,
            };
            let ghost before = out@;
            if from <= i && below {
                out.push(i);
            }
            proof {
                assert(indexes@.contains(indexes@[k as int]));
                assert forall|x: u64| before.contains(x) implies out@.contains(x) by {
                    let j = before.index_of(x);
                    assert(out@[j] == x);
                }
                if from <= i && below {
                    assert(out@[before.len() as int] == i);
                }
            }
            k = k + 1;
        }
        proof {
            assert forall|i: u64|
                out@.contains(i) <==> self.log@.contains_key(i) && from <= i && (to matches Some(t)
                    ==> i < t) by {
                if out@.contains(i) {
                    let j = out@.index_of(i);
                    assert(out@[j] == i);
                }
                if self.log@.contains_key(i) {
                    assert(indexes@.contains(i));
                    let j = indexes@.index_of(i);
                    assert(indexes@[j] == i);
                }
            }
        }
        out
    }
}

/// What an entry carries.
#[derive(Debug)]
pub enum EntryPayload<M> {
    Blank,
    Normal(MetaRequest),
    Membership(M),
}

/// The applied state: the metadata, the last applied id, and the last membership.
pub struct StateMachine<L, M> {
    pub last_applied: Option<L>,
    pub last_membership: M,
    pub state: MetaState,
}

/// The metadata after an entry.
pub open spec fn entry_applied<M>(s: MetaView, p: EntryPayload<M>) -> MetaView {
    match p {
        EntryPayload::Normal(req) => applied(s, req),
        _ => s,
    }
}

/// The note that an entry is answered with.
pub open spec fn entry_note<M>(s: MetaView, p: EntryPayload<M>) -> Seq<char> {
    match p {
        EntryPayload::Blank => "blank"@,
        EntryPayload::Normal(req) => note_of(s, req),
        EntryPayload::Membership(_) => "membership"@,
    }
}

/// The metadata after entries in order.
pub open spec fn all_applied<L, M>(s: MetaView, entries: Seq<(L, EntryPayload<M>)>) -> MetaView
    decreases entries.len(),
{
    if entries.len() == 0 {
        s
    } else {
        entry_applied(all_applied(s, entries.drop_last()), entries.last().1)
    }
}

/// The membership after entries in order, starting from `m`.
pub open spec fn last_member<L, M>(m: M, entries: Seq<(L, EntryPayload<M>)>) -> M
    decreases entries.len(),
{
    if entries.len() == 0 {
        m
    } else {
        match entries.last().1 {
            EntryPayload::Membership(x) => x,
            _ => last_member(m, entries.drop_last()),
        }
    }
}

impl<L: Copy, M> StateMachine<L, M> {
    /// Apply one committed entry.
    pub fn apply_entry(&mut self, log_id: L, payload: EntryPayload<M>) -> (r: MetaResponse)
        requires
            old(self).state.wf(),
        ensures
            final(self).state.wf(),
            final(self).last_applied == Some(log_id),
            final(self).state@ == entry_applied(old(self).state@, payload),
            final(self).last_membership == match payload {
                EntryPayload::Membership(m) => m,
                _ => old(self).last_membership,
            },
            r.note@ == entry_note(old(self).state@, payload),
    {
        self.last_applied = Some(log_id);
        match payload {
            EntryPayload::Blank => MetaResponse::new("blank"),
            EntryPayload::Normal(req) => self.state.apply(&req),
            EntryPayload::Membership(m) => {
                self.last_membership = m;
                MetaResponse::new("membership")
            },
        }
    }

    /// Apply committed entries in order. Returns the answer to each.
    pub fn apply(&mut self, entries: Vec<(L, EntryPayload<M>)>) -> (r: Vec<MetaResponse>)
        requires
            old(self).state.wf(),
        ensures
            final(self).state.wf(),
            final(self).state@ == all_applied(old(self).state@, entries@),
            final(self).last_membership == last_member(old(self).last_membership, entries@),
            final(self).last_applied == if entries@.len() == 0 {
                old(self).last_applied
            } else {
                Some(entries@.last().0)
            },
            r@.len() == entries@.len(),
            forall|i: int|
                0 <= i < r@.len() ==> (#[trigger] r@[i]).note@ == entry_note(
                    all_applied(old(self).state@, entries@.take(i)),
                    entries@[i].1,
                ),
    {
        let ghost all = entries@;
        let ghost mut k: int = 0;
        let mut out: Vec<MetaResponse> = Vec::new();
        assert(all.take(0) =~= Seq::empty());
        for entry in iter: entries
            invariant
                iter.seq() == all,
                k == iter.index(),
                self.state.wf(),
                self.state@ == all_applied(old(self).state@, all.take(k)),
                self.last_membership == last_member(old(self).last_membership, all.take(k)),
                self.last_applied == if k == 0 {
                    old(self).last_applied
                } else {
                    Some(all[k - 1].0)
                },
                out@.len() == k,
                forall|i: int|
                    0 <= i < k ==> (#[trigger] out@[i]).note@ == entry_note(
                        all_applied(old(self).state@, all.take(i)),
                        all[i].1,
                    ),
        {
            proof {
                assert(all.take(k + 1).drop_last() =~= all.take(k));
                assert(all.take(k + 1).last() == all[k]);
                k = k + 1;
            }
            let response: MetaResponse = self.apply_entry(entry.0, entry.1);
            out.push(response);
        }
        assert(all.take(k) =~= all);
        out
    }
}

/// Replicas that apply the same log hold the same metadata, however the log was cut
/// into batches.
pub proof fn batches_do_not_matter<L, M>(
    s: MetaView,
    a: Seq<(L, EntryPayload<M>)>,
    b: Seq<(L, EntryPayload<M>)>,
)
    ensures
        all_applied(s, a + b) == all_applied(all_applied(s, a), b),
    decreases b.len(),
{
    if b.len() == 0 {
        assert(a + b =~= a);
    } else {
        batches_do_not_matter(s, a, b.drop_last());
        assert((a + b).drop_last() =~= a + b.drop_last());
        assert((a + b).last() == b.last());
    }
}

/// What a snapshot covers.
#[derive(Debug, Clone)]
pub struct SnapshotMeta<L, M> {
    pub last_log_id: Option<L>,
    pub last_membership: M,
    pub snapshot_id: String,
}

/// A serialized point-in-time image of the metadata state machine.
#[derive(Debug, Clone)]
pub struct StoredSnapshot<L, M> {
    pub meta: SnapshotMeta<L, M>,
    /// The serialized metadata.
    pub data: Vec<u8>,
}

/// The name of a snapshot: the leader and the index of the last applied entry, where
/// there is one, and `suffix`.
pub open spec fn snapshot_name(last: Option<(Seq<char>, u64)>, suffix: Seq<char>) -> Seq<char> {
    match last {
        Some((leader, index)) => leader + "-"@ + decimal(index as nat) + "-"@ + suffix,
        None => "--"@ + suffix,
    }
}

fn snapshot_id(last: Option<(&str, u64)>, suffix: &str) -> (r: String)
    ensures
        r@ == snapshot_name(
            match last {
                Some((leader, index)) => Some((leader@, index)),
                None => None,
            },
            suffix@,
        ),
{
    match last {
        Some((leader, index)) => {
            let mut r: String = join(leader, "-");
            r.append(to_decimal(index).as_str());
            r.append("-");
            r.append(suffix);
            r
        },
        None => join("--", suffix),
    }
}

/// The newest snapshot of the state machine, and how many were built.
pub struct Snapshots<L, M> {
    pub current: Option<StoredSnapshot<L, M>>,
    pub built: u64,
}

/// The last applied entry of a state machine: its id, the text of its leader, and its
/// index.
pub struct LastApplied<'a, L> {
    pub log_id: L,
    pub leader: &'a str,
    pub index: u64,
}

impl<L: Copy, M> Snapshots<L, M> {
    /// The snapshots of a state machine that was read back from disk: the applied state
    /// itself is the image, where anything was applied.
    pub fn open(last: Option<LastApplied<L>>, membership: M, data: Vec<u8>) -> (r: Self)
        ensures
            r.built == 0,
            match last {
                None => r.current is None,
                Some(l) => {
                    &&& r.current matches Some(s)
                    &&& s.meta.last_log_id == Some(l.log_id)
                    &&& s.meta.last_membership == membership
                    &&& s.meta.snapshot_id@ == snapshot_name(
                        Some((l.leader@, l.index)),
                        "restored"@,
                    )
                    &&& s.data == data
                },
            },
    {
        match last {
            None => Snapshots { current: None, built: 0 },
            Some(l) => {
                let meta = SnapshotMeta {
                    last_log_id: Some(l.log_id),
                    last_membership: membership,
                    snapshot_id: snapshot_id(Some((l.leader, l.index)), "restored"),
                };
                Snapshots { current: Some(StoredSnapshot { meta, data }), built: 0 }
            },
        }
    }

    /// Keep a snapshot of the applied state, named by the number of snapshots built.
    pub fn build(&mut self, last: Option<LastApplied<L>>, membership: M, data: Vec<u8>)
        requires
            old(self).built < u64::MAX,
        ensures
            final(self).built == old(self).built + 1,
            final(self).current matches Some(s) && {
                &&& s.meta.last_log_id == match last {
                    Some(l) => Some(l.log_id),
                    None => None,
                }
                &&& s.meta.last_membership == membership
                &&& s.meta.snapshot_id@ == snapshot_name(
                    match last {
                        Some(l) => Some((l.leader@, l.index)),
                        None => None,
                    },
                    decimal(final(self).built as nat),
                )
                &&& s.data == data
            },
    {
        self.built = self.built + 1;
        let number: String = to_decimal(self.built);
        let (last_log_id, name): (Option<L>, String) = match last {
            Some(l) => (
                Some(l.log_id),
                snapshot_id(Some((l.leader, l.index)), number.as_str()),
            ),
            None => (None, snapshot_id(None, number.as_str())),
        };
        let meta = SnapshotMeta { last_log_id, last_membership: membership, snapshot_id: name };
        self.current = Some(StoredSnapshot { meta, data });
    }

    /// Keep a snapshot that was received.
    pub fn install(&mut self, snapshot: StoredSnapshot<L, M>)
        ensures
            final(self).built == old(self).built,
            final(self).current == Some(snapshot),
    {
        self.current = Some(snapshot);
    }
}

impl<L: Copy, M> StateMachine<L, M> {
    /// Replace the applied state by that of a received snapshot.
    pub fn install_snapshot(&mut self, state: MetaState, last_log_id: Option<L>, membership: M)
        requires
            state.wf(),
        ensures
            final(self).state == state,
            final(self).state.wf(),
            final(self).last_applied == last_log_id,
            final(self).last_membership == membership,
    {
        self.state = state;
        self.last_applied = last_log_id;
        self.last_membership = membership;
    }
}

/// A replica that installs a snapshot of a log's prefix and applies the rest holds what
/// one that applied the whole log holds.
pub proof fn snapshot_stands_for_its_prefix<L, M>(
    start: MetaView,
    log: Seq<(L, EntryPayload<M>)>,
    k: int,
)
    requires
        0 <= k <= log.len(),
    ensures
        all_applied(all_applied(start, log.take(k)), log.skip(k)) == all_applied(start, log),
{
    batches_do_not_matter(start, log.take(k), log.skip(k));
    assert(log.take(k) + log.skip(k) =~= log);
}

} // verus!
