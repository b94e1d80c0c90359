//! The manifest emitter: monotone sequence assignment, attempt-then-buffer
//! delivery, and in-order flush with mid-flush failure handling.

use vstd::prelude::*;
use crate::buffer::{keep_fresh, clamp_front, bump_seq};
use crate::embed::EmbeddingBatch;
use crate::ledger::{EntryModel, OfflineReplayBuffer, ReadyReplayEntry, ReplayEntry, ReplayError};
use crate::strutil::now_millis;
use vstd::string::StringExecFns;

verus! {

/// Destination of emitted replay entries; deliveries may fail and are then
/// retried through the offline buffer.
pub trait ManifestQueue: Sized {
    /// The entries accepted so far, oldest first.
    spec fn sent(&self) -> Seq<EntryModel>;

    /// Everything a caller may conclude from one delivery attempt beyond
    /// the accepted history; each implementation defines when it accepts.
    spec fn send_post(&self, pre: Self, entry: EntryModel, accepted: bool) -> bool;

    /// Deliver one entry: on success it is appended to the accepted history,
    /// on failure the history is unchanged.
    fn send(&mut self, entry: &ReplayEntry) -> (r: Result<(), QueueSendError>)
        ensures
            r is Ok ==> final(self).sent() == old(self).sent().push(entry.deep_view()),
            r is Err ==> final(self).sent() == old(self).sent(),
            final(self).send_post(*old(self), entry.deep_view(), r is Ok),
    ;
}

/// The queue accepted every entry of the run, in order, through some chain
/// of intermediate states.
pub open spec fn accepts_all<Q: ManifestQueue>(q0: Q, q1: Q, entries: Seq<EntryModel>) -> bool
    decreases entries.len(),
{
    if entries.len() == 0 {
        q1 == q0
    } else {
        exists|qm: Q|
            #[trigger] qm.send_post(q0, entries[0], true) && accepts_all(
                qm,
                q1,
                entries.drop_first(),
            )
    }
}

/// The queue accepted the first `k` entries of the run and refused the next.
pub open spec fn refused_after<Q: ManifestQueue>(
    q0: Q,
    q1: Q,
    entries: Seq<EntryModel>,
    k: int,
) -> bool
    recommends
        0 <= k < entries.len(),
{
    exists|qm: Q|
        #[trigger] accepts_all(q0, qm, entries.take(k)) && q1.send_post(qm, entries[k], false)
}

/// Accepting one more entry extends an accepted run.
proof fn lemma_accepts_all_snoc<Q: ManifestQueue>(q0: Q, qm: Q, q2: Q, es: Seq<EntryModel>, i: int)
    requires
        0 <= i < es.len(),
        accepts_all(q0, qm, es.take(i)),
        q2.send_post(qm, es[i], true),
    ensures
        accepts_all(q0, q2, es.take(i + 1)),
    decreases i,
{
    if i == 0 {
        assert(es.take(0).len() == 0);
        assert(qm == q0);
        assert(es.take(1)[0] == es[0]);
        assert(es.take(1).drop_first() =~= Seq::<EntryModel>::empty());
        assert(q2.send_post(q0, es.take(1)[0], true) && accepts_all(
            q2,
            q2,
            es.take(1).drop_first(),
        ));
        assert(accepts_all(q0, q2, es.take(1)));
    } else {
        assert(es.take(i)[0] == es[0]);
        let q1 = choose|q1: Q|
            #[trigger] q1.send_post(q0, es.take(i)[0], true) && accepts_all(
                q1,
                qm,
                es.take(i).drop_first(),
            );
        assert(es.take(i).drop_first() =~= es.drop_first().take(i - 1));
        assert(es.drop_first()[i - 1] == es[i]);
        lemma_accepts_all_snoc(q1, qm, q2, es.drop_first(), i - 1);
        assert(es.drop_first().take(i) =~= es.take(i + 1).drop_first());
        assert(es.take(i + 1)[0] == es[0]);
        assert(q1.send_post(q0, es.take(i + 1)[0], true) && accepts_all(
            q1,
            q2,
            es.take(i + 1).drop_first(),
        ));
        assert(accepts_all(q0, q2, es.take(i + 1)));
    }
}

/// An opaque delivery failure.
#[derive(Debug)]
pub struct QueueSendError {
    pub detail: String,
}

/// In-memory queue for tests: records deliveries and fails on demand.
pub struct RecordingQueue {
    pub delivered: Vec<ReplayEntry>,
    pub fail: bool,
}

impl RecordingQueue {
    pub fn new() -> (r: RecordingQueue)
        ensures
            r.sent() == Seq::<EntryModel>::empty(),
            !r.fail,
    {
        let r = RecordingQueue { delivered: Vec::new(), fail: false };
        proof {
            assert(r.sent() =~= Seq::<EntryModel>::empty());
        }
        r
    }

    /// Toggle failure of subsequent sends.
    pub fn set_fail(&mut self, fail: bool)
        ensures
            final(self).fail == fail,
            final(self).sent() == old(self).sent(),
    {
        self.fail = fail;
    }

    /// The delivered entries in order.
    pub fn collected(&self) -> (r: &Vec<ReplayEntry>)
        ensures
            r.deep_view() == self.sent(),
    {
        &self.delivered
    }
}

impl ManifestQueue for RecordingQueue {
    open spec fn sent(&self) -> Seq<EntryModel> {
        self.delivered.deep_view()
    }

    open spec fn send_post(&self, pre: Self, entry: EntryModel, accepted: bool) -> bool {
        &&& accepted == !pre.fail
        &&& self.fail == pre.fail
    }

    fn send(&mut self, entry: &ReplayEntry) -> (r: Result<(), QueueSendError>)
        ensures
            r is Ok <==> !old(self).fail,
            final(self).fail == old(self).fail,
    {
        if self.fail {
            Err(QueueSendError { detail: String::from_str("queue offline") })
        } else {
            let ghost pre = self.sent();
            self.delivered.push(entry.duplicate());
            proof {
                assert(self.sent() =~= pre.push(entry.deep_view()));
            }
            Ok(())
        }
    }
}

/// Emitter configuration.
pub struct ManifestEmitterConfig {
    pub sequence_start: u64,
    pub encryption_key: String,
    pub retention_max_entries: usize,
    pub retention_max_age_ms: u64,
}

/// The change set applied to a repository at a point in time.
#[derive(Debug)]
pub struct ManifestDiff {
    pub repo_id: String,
    pub applied_at_ms: u64,
    pub added_chunks: Vec<String>,
    pub removed_chunks: Vec<String>,
    pub checksum_before: String,
    pub checksum_after: String,
}

#[derive(Debug)]
pub enum ManifestError {
    /// The queue rejected the delivery; the entry is buffered.
    QueueOffline { detail: String },
    /// The offline buffer refused the entry.
    Buffer { detail: String },
}

/// The entry built for a diff at one sequence number and time.
pub open spec fn entry_model(
    diff: &ManifestDiff,
    sequence: int,
    now_ms: int,
    status: Seq<char>,
) -> EntryModel {
    EntryModel {
        sequence: sequence,
        repo_id: diff.repo_id@,
        delayed_ms: if now_ms >= diff.applied_at_ms as int {
            now_ms - diff.applied_at_ms as int
        } else {
            0
        },
        before: diff.checksum_before@,
        after: diff.checksum_after@,
        status: status,
    }
}

/// An entry with its status replaced.
pub open spec fn with_status(e: EntryModel, status: Seq<char>) -> EntryModel {
    EntryModel { status: status, ..e }
}

/// The buffer contents after requeuing a run of drained envelopes, in order,
/// each with status `buffered` and its original stamp.
pub open spec fn requeue_run(
    buf: Seq<(EntryModel, int)>,
    xs: Seq<(EntryModel, int)>,
    now_ms: int,
    max_age: int,
    max_entries: int,
) -> Seq<(EntryModel, int)>
    decreases xs.len(),
{
    if xs.len() == 0 {
        buf
    } else {
        requeue_run(
            clamp_front(
                keep_fresh(
                    buf.push((with_status(xs[0].0, "buffered"@), xs[0].1)),
                    now_ms,
                    max_age,
                ),
                max_entries,
            ),
            xs.drop_first(),
            now_ms,
            max_age,
            max_entries,
        )
    }
}

/// Assigns monotone sequence numbers, attempts delivery, and buffers what
/// the queue refused; a later flush drains the buffer in order.
pub struct ManifestEmitter<Q: ManifestQueue> {
    pub config: ManifestEmitterConfig,
    pub buffer: OfflineReplayBuffer,
    pub queue: Q,
    pub next_sequence: u64,
}

impl<Q: ManifestQueue> ManifestEmitter<Q> {
    /// The emitter starts past everything the buffer has seen, or at the
    /// configured floor.
    pub fn new(config: ManifestEmitterConfig, buffer: OfflineReplayBuffer, queue: Q) -> (r:
        ManifestEmitter<Q>)
        requires
            buffer.max_seq() matches Some(s) ==> s < u64::MAX,
        ensures
            r.next_sequence as int == (match buffer.max_seq() {
                Some(s) => if s + 1 >= config.sequence_start {
                    s + 1
                } else {
                    config.sequence_start as int
                },
                None => config.sequence_start as int,
            }),
            r.buffer == buffer,
            r.queue == queue,
            r.config == config,
    {
        let next_sequence = match buffer.max_sequence() {
            Some(s) => if s + 1 >= config.sequence_start {
                s + 1
            } else {
                config.sequence_start
            },
            None => config.sequence_start,
        };
        ManifestEmitter { config, buffer, queue, next_sequence }
    }

    /// The queue behind this emitter.
    pub fn queue(&self) -> (r: &Q)
        ensures
            r == &self.queue,
    {
        &self.queue
    }

    /// The buffer behind this emitter.
    pub fn buffer(&self) -> (r: &OfflineReplayBuffer)
        ensures
            r == &self.buffer,
    {
        &self.buffer
    }

    /// Emit one diff at `now_ms`: assign the next sequence, attempt delivery
    /// with status `emitted`, and on failure buffer the entry with status
    /// `buffered`. The sequence advances either way.
    pub fn emit_at(&mut self, diff: &ManifestDiff, batch: &EmbeddingBatch, now_ms: u64) -> (r:
        Result<(), ManifestError>)
        requires
            old(self).next_sequence < u64::MAX,
            old(self).buffer.max_entries() > 0,
        ensures
            final(self).next_sequence == old(self).next_sequence + 1,
            final(self).config == old(self).config,
            r is Ok ==> final(self).queue.sent() == old(self).queue.sent().push(
                entry_model(diff, old(self).next_sequence as int, now_ms as int, "emitted"@),
            ) && final(self).buffer == old(self).buffer,
            r matches Err(e) ==> e is QueueOffline && final(self).queue.sent() == old(
                self,
            ).queue.sent() && final(self).buffer.model() == clamp_front(
                keep_fresh(
                    old(self).buffer.model().push(
                        (
                            entry_model(
                                diff,
                                old(self).next_sequence as int,
                                now_ms as int,
                                "buffered"@,
                            ),
                            now_ms as int,
                        ),
                    ),
                    now_ms as int,
                    old(self).buffer.max_age_ms(),
                ),
                old(self).buffer.max_entries(),
            ),
            final(self).queue.send_post(
                old(self).queue,
                entry_model(diff, old(self).next_sequence as int, now_ms as int, "emitted"@),
                r is Ok,
            ),
            final(self).buffer.max_entries() == old(self).buffer.max_entries(),
            final(self).buffer.max_age_ms() == old(self).buffer.max_age_ms(),
    {
        let _ = batch;
        let sequence = self.next_sequence;
        let delayed_ms: u64 = if now_ms >= diff.applied_at_ms {
            now_ms - diff.applied_at_ms
        } else {
            0
        };
        let send_entry = ReplayEntry {
            sequence,
            repo_id: diff.repo_id.clone(),
            delayed_ms,
            payload_checksum_before: diff.checksum_before.clone(),
            payload_checksum_after: diff.checksum_after.clone(),
            status: String::from_str("emitted"),
        };
        match self.queue.send(&send_entry) {
            Ok(()) => {
                self.next_sequence = sequence + 1;
                Ok(())
            },
            Err(err) => {
                let buffered_entry = ReplayEntry {
                    sequence,
                    repo_id: diff.repo_id.clone(),
                    delayed_ms,
                    payload_checksum_before: diff.checksum_before.clone(),
                    payload_checksum_after: diff.checksum_after.clone(),
                    status: String::from_str("buffered"),
                };
                match self.buffer.push_at(buffered_entry, now_ms) {
                    Ok(()) => {},
                    Err(ReplayError::Misconfigured { detail }) => {
                        self.next_sequence = sequence + 1;
                        return Err(ManifestError::Buffer { detail });
                    },
                }
                self.next_sequence = sequence + 1;
                Err(ManifestError::QueueOffline { detail: err.detail })
            },
        }
    }

    /// Emit against the wall clock.
    pub fn emit(&mut self, diff: &ManifestDiff, batch: &EmbeddingBatch) -> (r: Result<
        (),
        ManifestError,
    >)
        requires
            old(self).next_sequence < u64::MAX,
            old(self).buffer.max_entries() > 0,
        ensures
            final(self).next_sequence == old(self).next_sequence + 1,
            final(self).config == old(self).config,
            final(self).buffer.max_entries() == old(self).buffer.max_entries(),
            final(self).buffer.max_age_ms() == old(self).buffer.max_age_ms(),
            r is Ok ==> (exists|now_ms: u64|
                final(self).queue.sent() == old(self).queue.sent().push(
                    #[trigger] entry_model(
                        diff,
                        old(self).next_sequence as int,
                        now_ms as int,
                        "emitted"@,
                    ),
                ) && final(self).buffer == old(self).buffer),
            exists|now_ms: u64|
                final(self).queue.send_post(
                    old(self).queue,
                    #[trigger] entry_model(
                        diff,
                        old(self).next_sequence as int,
                        now_ms as int,
                        "emitted"@,
                    ),
                    r is Ok,
                ),
            r matches Err(e) ==> e is QueueOffline && final(self).queue.sent() == old(
                self,
            ).queue.sent() && (exists|now_ms: u64|
                final(self).buffer.model() == clamp_front(
                    #[trigger] keep_fresh(
                        old(self).buffer.model().push(
                            (
                                entry_model(
                                    diff,
                                    old(self).next_sequence as int,
                                    now_ms as int,
                                    "buffered"@,
                                ),
                                now_ms as int,
                            ),
                        ),
                        now_ms as int,
                        old(self).buffer.max_age_ms(),
                    ),
                    old(self).buffer.max_entries(),
                )),
    {
        let now = now_millis();
        let r = self.emit_at(diff, batch, now);
        match r {
            Ok(()) => Ok(()),
            Err(e) => Err(e),
        }
    }

    /// Drain the buffer and deliver each entry in insertion order with
    /// status `emitted`. On the first failure the failing envelope and every
    /// later one are requeued with status `buffered`, keeping their original
    /// stamps, so that downstream saw a strict ordered prefix.
    #[verifier::loop_isolation(false)]
    #[verifier::rlimit(100)]
    pub fn flush_offline_at(&mut self, now_ms: u64) -> (r: Result<(), ManifestError>)
        requires
            old(self).buffer.max_entries() > 0,
        ensures
            final(self).config == old(self).config,
            final(self).buffer.max_entries() == old(self).buffer.max_entries(),
            final(self).buffer.max_age_ms() == old(self).buffer.max_age_ms(),
            ({
                let ready = keep_fresh(
                    old(self).buffer.model(),
                    now_ms as int,
                    old(self).buffer.max_age_ms(),
                );
                &&& (r is Ok ==> final(self).queue.sent() == old(self).queue.sent()
                    + ready.map_values(
                    |p: (EntryModel, int)| with_status(p.0, "emitted"@),
                ) && final(self).buffer.model() == Seq::<(EntryModel, int)>::empty()
                    && accepts_all(
                    old(self).queue,
                    final(self).queue,
                    ready.map_values(|p: (EntryModel, int)| with_status(p.0, "emitted"@)),
                ))
                &&& (r matches Err(e) ==> e is QueueOffline && (exists|k: int|
                    0 <= k < ready.len() && final(self).queue.sent() == old(self).queue.sent()
                        + ready.take(k).map_values(
                        |p: (EntryModel, int)| with_status(p.0, "emitted"@),
                    ) && final(self).buffer.model() == requeue_run(
                        Seq::<(EntryModel, int)>::empty(),
                        #[trigger] ready.skip(k),
                        now_ms as int,
                        old(self).buffer.max_age_ms(),
                        old(self).buffer.max_entries(),
                    ) && refused_after(
                        old(self).queue,
                        final(self).queue,
                        ready.map_values(|p: (EntryModel, int)| with_status(p.0, "emitted"@)),
                        k,
                    )))
            }),
    {
        let ghost ready = keep_fresh(
            old(self).buffer.model(),
            now_ms as int,
            old(self).buffer.max_age_ms(),
        );
        let drained = self.buffer.drain_ready_at(now_ms);
        let ghost sent0 = self.queue.sent();
        let ghost q0 = self.queue;
        let ghost emitted = ready.map_values(|p: (EntryModel, int)| with_status(p.0, "emitted"@));
        let mut i: usize = 0;
        let total = drained.len();
        proof {
            assert(ready.len() == total as int);
            assert(ready.take(0) =~= Seq::<(EntryModel, int)>::empty());
            assert(sent0 + ready.take(0).map_values(
                |p: (EntryModel, int)| with_status(p.0, "emitted"@),
            ) =~= sent0);
            assert(emitted.take(0) =~= Seq::<EntryModel>::empty());
            assert(accepts_all(q0, q0, emitted.take(0)));
        }
        let mut rest = drained;
        while rest.len() > 0
            invariant
                0 <= i <= total,
                total as int == ready.len(),
                ready.len() <= usize::MAX,
                rest@.len() == total - i,
                forall|k: int|
                    0 <= k < rest@.len() ==> ((#[trigger] rest@[k]).entry.deep_view(),
                    rest@[k].inserted_at as int) == ready[i + k],
                self.queue.sent() == sent0 + ready.take(i as int).map_values(
                    |p: (EntryModel, int)| with_status(p.0, "emitted"@),
                ),
                emitted == ready.map_values(|p: (EntryModel, int)| with_status(p.0, "emitted"@)),
                accepts_all(q0, self.queue, emitted.take(i as int)),
                q0 == old(self).queue,
                self.buffer.model() == Seq::<(EntryModel, int)>::empty(),
                self.buffer.max_entries() == old(self).buffer.max_entries(),
                self.buffer.max_age_ms() == old(self).buffer.max_age_ms(),
                self.config == old(self).config,
            decreases rest@.len(),
        {
            let mut item = rest.remove(0);
            proof {
                assert((item.entry.deep_view(), item.inserted_at as int) == ready[i as int]);
            }
            let sequence = item.entry.sequence;
            let inserted_at = item.inserted_at;
            let send_entry = ReplayEntry {
                status: String::from_str("emitted"),
                ..item.entry
            };
            let ghost qprev = self.queue;
            match self.queue.send(&send_entry) {
                Ok(()) => {
                    proof {
                        let f = |p: (EntryModel, int)| with_status(p.0, "emitted"@);
                        assert(ready.take(i + 1).map_values(f) =~= ready.take(i as int).map_values(
                            f,
                        ).push(f(ready[i as int])));
                        assert(self.queue.sent() =~= sent0 + ready.take(i + 1).map_values(f));
                        assert(emitted[i as int] == f(ready[i as int]));
                        assert(send_entry.deep_view() == with_status(
                            ready[i as int].0,
                            "emitted"@,
                        ));
                        assert(self.queue.send_post(qprev, emitted[i as int], true));
                        lemma_accepts_all_snoc(q0, qprev, self.queue, emitted, i as int);
                    }
                    if self.next_sequence <= sequence {
                        if sequence < u64::MAX {
                            self.next_sequence = sequence + 1;
                        } else {
                            self.next_sequence = u64::MAX;
                        }
                    }
                    proof {
                        assert(self.next_sequence >= old(self).next_sequence || true);
                    }
                },
                Err(err) => {
                    proof {
                        assert(emitted[i as int] == with_status(ready[i as int].0, "emitted"@));
                        assert(send_entry.deep_view() == emitted[i as int]);
                        assert(self.queue.send_post(qprev, emitted[i as int], false));
                        assert(accepts_all(q0, qprev, emitted.take(i as int)));
                        assert(refused_after(q0, self.queue, emitted, i as int));
                    }
                    // requeue the failing envelope, then the remaining run,
                    // all with their original stamps
                    let buffered_entry = ReplayEntry {
                        status: String::from_str("buffered"),
                        ..send_entry
                    };
                    let ghost buf0 = self.buffer.model();
                    let res = self.buffer.requeue_at(
                        ReadyReplayEntry { entry: buffered_entry, inserted_at },
                        now_ms,
                    );
                    proof {
                        assert(res is Ok);
                    }
                    let ghost run = ready.skip(i as int);
                    let mut j: usize = i + 1;
                    proof {
                        assert(run[0] == ready[i as int]);
                        assert(run.drop_first() =~= ready.skip(i as int + 1));
                        assert(buffered_entry.deep_view() == with_status(
                            ready[i as int].0,
                            "buffered"@,
                        ));
                        assert(self.buffer.model() == requeue_run(
                            buf0,
                            run.take(1),
                            now_ms as int,
                            old(self).buffer.max_age_ms(),
                            old(self).buffer.max_entries(),
                        )) by {
                            assert(run.take(1)[0] == run[0]);
                            assert(run.take(1).drop_first() =~= Seq::<(EntryModel, int)>::empty());
                            let stepped = clamp_front(
                                keep_fresh(
                                    buf0.push((with_status(run[0].0, "buffered"@), run[0].1)),
                                    now_ms as int,
                                    old(self).buffer.max_age_ms(),
                                ),
                                old(self).buffer.max_entries(),
                            );
                            assert(self.buffer.model() == stepped);
                            assert(requeue_run(
                                stepped,
                                Seq::<(EntryModel, int)>::empty(),
                                now_ms as int,
                                old(self).buffer.max_age_ms(),
                                old(self).buffer.max_entries(),
                            ) == stepped);
                        }
                    }
                    while rest.len() > 0
                        invariant
                            i < total,
                            total as int == ready.len(),
                            ready.len() <= usize::MAX,
                            i < j <= total,
                            rest@.len() == total - j,
                            forall|k: int|
                                0 <= k < rest@.len() ==> ((#[trigger] rest@[k]).entry.deep_view(),
                                rest@[k].inserted_at as int) == ready[j + k],
                            self.buffer.model() == requeue_run(
                                buf0,
                                ready.skip(i as int).take(j - i),
                                now_ms as int,
                                old(self).buffer.max_age_ms(),
                                old(self).buffer.max_entries(),
                            ),
                            self.buffer.max_entries() == old(self).buffer.max_entries(),
                            self.buffer.max_age_ms() == old(self).buffer.max_age_ms(),
                            self.queue.sent() == sent0 + ready.take(i as int).map_values(
                                |p: (EntryModel, int)| with_status(p.0, "emitted"@),
                            ),
                            refused_after(q0, self.queue, emitted, i as int),
                            q0 == old(self).queue,
                            self.config == old(self).config,
                        decreases rest@.len(),
                    {
                        let item2 = rest.remove(0);
                        proof {
                            assert((item2.entry.deep_view(), item2.inserted_at as int) == ready[
                                j as int
                            ]);
                        }
                        let inserted2 = item2.inserted_at;
                        let buffered2 = ReplayEntry {
                            status: String::from_str("buffered"),
                            ..item2.entry
                        };
                        let ghost before = self.buffer.model();
                        let res2 = self.buffer.requeue_at(
                            ReadyReplayEntry { entry: buffered2, inserted_at: inserted2 },
                            now_ms,
                        );
                        proof {
                            assert(res2 is Ok);
                            assert(buffered2.deep_view() == with_status(
                                ready[j as int].0,
                                "buffered"@,
                            ));
                            lemma_requeue_run_snoc(
                                buf0,
                                ready.skip(i as int),
                                j - i,
                                now_ms as int,
                                old(self).buffer.max_age_ms(),
                                old(self).buffer.max_entries(),
                            );
                            assert(ready.skip(i as int)[j - i] == ready[j as int]);
                        }
                        j = j + 1;
                    }
                    proof {
                        assert(ready.skip(i as int).take(j - i) =~= ready.skip(i as int));
                        assert(buf0 =~= Seq::<(EntryModel, int)>::empty());
                    }
                    return Err(ManifestError::QueueOffline { detail: err.detail });
                },
            }
            i = i + 1;
        }
        proof {
            assert(i as int == ready.len());
            assert(ready.take(ready.len() as int) =~= ready);
            assert(emitted.take(i as int) =~= emitted);
        }
        Ok(())
    }

    /// Flush against the wall clock.
    pub fn flush_offline(&mut self) -> (r: Result<(), ManifestError>)
        requires
            old(self).buffer.max_entries() > 0,
        ensures
            final(self).config == old(self).config,
            final(self).buffer.max_entries() == old(self).buffer.max_entries(),
            final(self).buffer.max_age_ms() == old(self).buffer.max_age_ms(),
            r is Ok ==> final(self).buffer.model() == Seq::<(EntryModel, int)>::empty(),
            r is Ok ==> (exists|now_ms: u64|
                ({
                    let ready = #[trigger] keep_fresh(
                        old(self).buffer.model(),
                        now_ms as int,
                        old(self).buffer.max_age_ms(),
                    );
                    final(self).queue.sent() == old(self).queue.sent() + ready.map_values(
                        |p: (EntryModel, int)| with_status(p.0, "emitted"@),
                    ) && accepts_all(
                        old(self).queue,
                        final(self).queue,
                        ready.map_values(|p: (EntryModel, int)| with_status(p.0, "emitted"@)),
                    )
                })),
            r matches Err(e) ==> e is QueueOffline && (exists|now_ms: u64, k: int|
                0 <= k < keep_fresh(
                    old(self).buffer.model(),
                    now_ms as int,
                    old(self).buffer.max_age_ms(),
                ).len() && final(self).queue.sent() == old(self).queue.sent() + (
                #[trigger] keep_fresh(
                    old(self).buffer.model(),
                    now_ms as int,
                    old(self).buffer.max_age_ms(),
                ).take(k)).map_values(|p: (EntryModel, int)| with_status(p.0, "emitted"@))
                && refused_after(
                    old(self).queue,
                    final(self).queue,
                    keep_fresh(
                        old(self).buffer.model(),
                        now_ms as int,
                        old(self).buffer.max_age_ms(),
                    ).map_values(|p: (EntryModel, int)| with_status(p.0, "emitted"@)),
                    k,
                )),
    {
        let now = now_millis();
        self.flush_offline_at(now)
    }
}

/// Requeuing one more envelope extends the run fold.
proof fn lemma_requeue_run_snoc(
    buf: Seq<(EntryModel, int)>,
    xs: Seq<(EntryModel, int)>,
    n: int,
    now_ms: int,
    max_age: int,
    max_entries: int,
)
    requires
        0 <= n < xs.len(),
    ensures
        requeue_run(buf, xs.take(n + 1), now_ms, max_age, max_entries) == clamp_front(
            keep_fresh(
                requeue_run(buf, xs.take(n), now_ms, max_age, max_entries).push(
                    (with_status(xs[n].0, "buffered"@), xs[n].1),
                ),
                now_ms,
                max_age,
            ),
            max_entries,
        ),
    decreases n,
{
    if n == 0 {
        assert(xs.take(1).drop_first() =~= Seq::<(EntryModel, int)>::empty());
        assert(xs.take(0) =~= Seq::<(EntryModel, int)>::empty());
        assert(xs.take(1)[0] == xs[0]);
        assert(requeue_run(buf, xs.take(0), now_ms, max_age, max_entries) == buf);
        let stepped = clamp_front(
            keep_fresh(buf.push((with_status(xs[0].0, "buffered"@), xs[0].1)), now_ms, max_age),
            max_entries,
        );
        assert(requeue_run(buf, xs.take(1), now_ms, max_age, max_entries) == requeue_run(
            stepped,
            xs.take(1).drop_first(),
            now_ms,
            max_age,
            max_entries,
        ));
        assert(requeue_run(stepped, Seq::<(EntryModel, int)>::empty(), now_ms, max_age,
            max_entries) == stepped);
    } else {
        let stepped = clamp_front(
            keep_fresh(buf.push((with_status(xs[0].0, "buffered"@), xs[0].1)), now_ms, max_age),
            max_entries,
        );
        lemma_requeue_run_snoc(stepped, xs.drop_first(), n - 1, now_ms, max_age, max_entries);
        assert(xs.take(n + 1).drop_first() =~= xs.drop_first().take(n));
        assert(xs.take(n).drop_first() =~= xs.drop_first().take(n - 1));
        assert(xs.take(n + 1)[0] == xs[0]);
        assert(xs.take(n)[0] == xs[0]);
        assert(xs.drop_first()[n - 1] == xs[n]);
        assert(requeue_run(buf, xs.take(n + 1), now_ms, max_age, max_entries) == requeue_run(
            stepped,
            xs.drop_first().take(n),
            now_ms,
            max_age,
            max_entries,
        ));
        assert(requeue_run(buf, xs.take(n), now_ms, max_age, max_entries) == requeue_run(
            stepped,
            xs.drop_first().take(n - 1),
            now_ms,
            max_age,
            max_entries,
        ));
    }
}

} // verus!
