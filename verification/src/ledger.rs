//! Durable replay entries and the offline replay buffer.

use vstd::prelude::*;
use crate::buffer::{AgedFifo, keep_fresh, clamp_front, bump_seq};
use crate::strutil::now_millis;

verus! {

/// A durable, ordered record of one emission attempt.
#[derive(Debug)]
pub struct ReplayEntry {
    pub sequence: u64,
    pub repo_id: String,
    pub delayed_ms: u64,
    pub payload_checksum_before: String,
    pub payload_checksum_after: String,
    pub status: String,
}

/// Mathematical content of a replay entry.
pub struct EntryModel {
    pub sequence: int,
    pub repo_id: Seq<char>,
    pub delayed_ms: int,
    pub before: Seq<char>,
    pub after: Seq<char>,
    pub status: Seq<char>,
}

impl DeepView for ReplayEntry {
    type V = EntryModel;

    open spec fn deep_view(&self) -> EntryModel {
        EntryModel {
            sequence: self.sequence as int,
            repo_id: self.repo_id@,
            delayed_ms: self.delayed_ms as int,
            before: self.payload_checksum_before@,
            after: self.payload_checksum_after@,
            status: self.status@,
        }
    }
}

impl ReplayEntry {
    /// Copy of the entry.
    pub fn duplicate(&self) -> (r: ReplayEntry)
        ensures
            r == *self,
    {
        ReplayEntry {
            sequence: self.sequence,
            repo_id: self.repo_id.clone(),
            delayed_ms: self.delayed_ms,
            payload_checksum_before: self.payload_checksum_before.clone(),
            payload_checksum_after: self.payload_checksum_after.clone(),
            status: self.status.clone(),
        }
    }
}

/// Build a replay entry for a write at a sequence, with its checksums.
pub fn build_replay_entry(
    sequence: u64,
    repo_id: &String,
    checksum_before: &String,
    checksum_after: &String,
    status: &String,
) -> (r: ReplayEntry)
    ensures
        r.deep_view() == (EntryModel {
            sequence: sequence as int,
            repo_id: repo_id@,
            delayed_ms: 0,
            before: checksum_before@,
            after: checksum_after@,
            status: status@,
        }),
{
    ReplayEntry {
        sequence,
        repo_id: repo_id.clone(),
        delayed_ms: 0,
        payload_checksum_before: checksum_before.clone(),
        payload_checksum_after: checksum_after.clone(),
        status: status.clone(),
    }
}

/// An entry handed back by a drain, with its original insertion stamp.
#[derive(Debug)]
pub struct ReadyReplayEntry {
    pub entry: ReplayEntry,
    pub inserted_at: u64,
}

/// Buffer configuration errors.
#[derive(Debug)]
pub enum ReplayError {
    /// The buffer cannot hold anything.
    Misconfigured { detail: String },
}

/// Age- and capacity-bounded FIFO of replay entries that could not be
/// delivered.
pub struct OfflineReplayBuffer {
    pub fifo: AgedFifo<ReplayEntry>,
}

impl OfflineReplayBuffer {
    /// Entries with their insertion stamps, oldest first.
    pub open spec fn model(&self) -> Seq<(EntryModel, int)> {
        self.fifo.model()
    }

    pub open spec fn max_entries(&self) -> int {
        self.fifo.max_entries as int
    }

    pub open spec fn max_age_ms(&self) -> int {
        self.fifo.max_age_ms as int
    }

    pub open spec fn max_seq(&self) -> Option<u64> {
        self.fifo.max_seq
    }

    pub fn new(max_entries: usize, max_age_ms: u64) -> (r: OfflineReplayBuffer)
        ensures
            r.model() == Seq::<(EntryModel, int)>::empty(),
            r.max_entries() == max_entries as int,
            r.max_age_ms() == max_age_ms as int,
            r.max_seq() is None,
    {
        OfflineReplayBuffer { fifo: AgedFifo::new(max_entries, max_age_ms) }
    }

    /// Insert an entry stamped at `now_ms`, then purge old entries and evict
    /// from the front down to capacity.
    pub fn push_at(&mut self, entry: ReplayEntry, now_ms: u64) -> (r: Result<(), ReplayError>)
        ensures
            old(self).max_entries() == 0 ==> r is Err && *final(self) == *old(self),
            old(self).max_entries() > 0 ==> r is Ok && final(self).model() == clamp_front(
                keep_fresh(
                    old(self).model().push((entry.deep_view(), now_ms as int)),
                    now_ms as int,
                    old(self).max_age_ms(),
                ),
                old(self).max_entries(),
            ) && final(self).max_seq() == bump_seq(old(self).max_seq(), entry.sequence),
            final(self).max_entries() == old(self).max_entries(),
            final(self).max_age_ms() == old(self).max_age_ms(),
    {
        if self.fifo.max_entries == 0 {
            return Err(ReplayError::Misconfigured {
                detail: String::from_str("max_entries cannot be zero"),
            });
        }
        let seq_no = entry.sequence;
        self.fifo.insert_at(entry, seq_no, now_ms, now_ms);
        Ok(())
    }

    /// Reinsert a drained entry, keeping its original insertion stamp.
    pub fn requeue_at(&mut self, ready: ReadyReplayEntry, now_ms: u64) -> (r: Result<
        (),
        ReplayError,
    >)
        ensures
            old(self).max_entries() == 0 ==> r is Err && *final(self) == *old(self),
            old(self).max_entries() > 0 ==> r is Ok && final(self).model() == clamp_front(
                keep_fresh(
                    old(self).model().push((ready.entry.deep_view(), ready.inserted_at as int)),
                    now_ms as int,
                    old(self).max_age_ms(),
                ),
                old(self).max_entries(),
            ) && final(self).max_seq() == bump_seq(old(self).max_seq(), ready.entry.sequence),
            final(self).max_entries() == old(self).max_entries(),
            final(self).max_age_ms() == old(self).max_age_ms(),
    {
        if self.fifo.max_entries == 0 {
            return Err(ReplayError::Misconfigured {
                detail: String::from_str("max_entries cannot be zero"),
            });
        }
        let seq_no = ready.entry.sequence;
        self.fifo.insert_at(ready.entry, seq_no, ready.inserted_at, now_ms);
        Ok(())
    }

    /// Purge old entries, then remove and return the rest in insertion order.
    pub fn drain_ready_at(&mut self, now_ms: u64) -> (r: Vec<ReadyReplayEntry>)
        ensures
            r@.map_values(|p: ReadyReplayEntry| (p.entry.deep_view(), p.inserted_at as int))
                == keep_fresh(old(self).model(), now_ms as int, old(self).max_age_ms()),
            final(self).model() == Seq::<(EntryModel, int)>::empty(),
            final(self).max_seq() == old(self).max_seq(),
            final(self).max_entries() == old(self).max_entries(),
            final(self).max_age_ms() == old(self).max_age_ms(),
    {
        let drained = self.fifo.drain_at(now_ms);
        let ghost target = keep_fresh(old(self).model(), now_ms as int, old(self).max_age_ms());
        let mut out: Vec<ReadyReplayEntry> = Vec::new();
        let mut rest = drained;
        let total = rest.len();
        let ghost all = rest@;
        proof {
            assert(all.len() == total as int);
        }
        let mut i: usize = 0;
        loop
            invariant
                out@.len() == i,
                all.len() <= usize::MAX,
                i + rest@.len() == all.len(),
                all.map_values(|p: (ReplayEntry, u64)| (p.0.deep_view(), p.1 as int)) == target,
                forall|k: int| 0 <= k < rest@.len() ==> rest@[k] == all[i + k],
                forall|k: int|
                    0 <= k < i ==> (#[trigger] out@[k].entry.deep_view(), out@[k].inserted_at
                        as int) == target[k],
            ensures
                out@.len() == target.len(),
                forall|k: int|
                    0 <= k < out@.len() ==> (#[trigger] out@[k].entry.deep_view(),
                    out@[k].inserted_at as int) == target[k],
            decreases rest@.len(),
        {
            if rest.len() == 0 {
                break;
            }
            let p = rest.remove(0);
            proof {
                assert(p == all[i as int]);
            }
            out.push(ReadyReplayEntry { entry: p.0, inserted_at: p.1 });
            i = i + 1;
        }
        proof {
            assert(out@.map_values(
                |p: ReadyReplayEntry| (p.entry.deep_view(), p.inserted_at as int),
            ) =~= target);
        }
        out
    }

    /// Whether the buffer currently holds no entries.
    pub fn is_empty(&self) -> (r: bool)
        ensures
            r == (self.model().len() == 0),
    {
        self.fifo.len() == 0
    }

    /// The highest sequence number ever pushed, surviving eviction and
    /// draining.
    pub fn max_sequence(&self) -> (r: Option<u64>)
        ensures
            r == self.max_seq(),
    {
        self.fifo.max_seq
    }

    /// Insert an entry stamped with the wall clock.
    pub fn push(&mut self, entry: ReplayEntry) -> (r: Result<(), ReplayError>)
        ensures
            old(self).max_entries() == 0 ==> r is Err,
            old(self).max_entries() > 0 ==> r is Ok,
            final(self).max_entries() == old(self).max_entries(),
            final(self).max_age_ms() == old(self).max_age_ms(),
            old(self).max_entries() > 0 ==> final(self).max_seq() == bump_seq(
                old(self).max_seq(),
                entry.sequence,
            ),
            old(self).max_entries() > 0 ==> (exists|now_ms: u64|
                final(self).model() == clamp_front(
                    keep_fresh(
                        old(self).model().push((entry.deep_view(), now_ms as int)),
                        now_ms as int,
                        old(self).max_age_ms(),
                    ),
                    old(self).max_entries(),
                )),
    {
        let now = now_millis();
        self.push_at(entry, now)
    }

    /// Reinsert a drained entry, keeping its original stamp, against the
    /// wall clock.
    pub fn requeue(&mut self, ready: ReadyReplayEntry) -> (r: Result<(), ReplayError>)
        ensures
            old(self).max_entries() == 0 ==> r is Err,
            old(self).max_entries() > 0 ==> r is Ok,
            final(self).max_entries() == old(self).max_entries(),
            final(self).max_age_ms() == old(self).max_age_ms(),
            old(self).max_entries() > 0 ==> final(self).max_seq() == bump_seq(
                old(self).max_seq(),
                ready.entry.sequence,
            ),
            old(self).max_entries() > 0 ==> (exists|now_ms: u64|
                final(self).model() == clamp_front(
                    keep_fresh(
                        old(self).model().push(
                            (ready.entry.deep_view(), ready.inserted_at as int),
                        ),
                        now_ms as int,
                        old(self).max_age_ms(),
                    ),
                    old(self).max_entries(),
                )),
    {
        let now = now_millis();
        self.requeue_at(ready, now)
    }

    /// Purge and drain against the wall clock.
    pub fn drain_ready(&mut self) -> (r: Vec<ReadyReplayEntry>)
        ensures
            final(self).model() == Seq::<(EntryModel, int)>::empty(),
            final(self).max_seq() == old(self).max_seq(),
            final(self).max_entries() == old(self).max_entries(),
            final(self).max_age_ms() == old(self).max_age_ms(),
            exists|now_ms: u64|
                r@.map_values(|p: ReadyReplayEntry| (p.entry.deep_view(), p.inserted_at as int))
                    == keep_fresh(old(self).model(), now_ms as int, old(self).max_age_ms()),
    {
        let now = now_millis();
        self.drain_ready_at(now)
    }
}

} // verus!
