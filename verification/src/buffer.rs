//! Age- and capacity-bounded FIFO used by the offline replay pipeline and
//! the STDIO retry path.
//!
//! Entries are stamped on insertion and keep that stamp on requeue; every
//! insertion purges entries older than `max_age_ms` and then evicts from the
//! front down to `max_entries`; draining returns the surviving entries in
//! insertion order; the highest sequence ever seen is tracked separately and
//! never decreases.

use vstd::prelude::*;

verus! {

/// An entry is fresh at `now` while its age is within `max_age`.
/// A stamp in the future counts as fresh.
pub open spec fn fresh_at(inserted_at: int, now: int, max_age: int) -> bool {
    now - inserted_at <= max_age
}

/// The stamped entries that survive an age purge, in order.
pub open spec fn keep_fresh<V>(s: Seq<(V, int)>, now: int, max_age: int) -> Seq<(V, int)>
    decreases s.len(),
{
    if s.len() == 0 {
        Seq::<(V, int)>::empty()
    } else {
        let rest = keep_fresh(s.drop_first(), now, max_age);
        if fresh_at(s[0].1, now, max_age) {
            seq![s[0]] + rest
        } else {
            rest
        }
    }
}

/// Keep at most the `max` newest entries, dropping from the front.
pub open spec fn clamp_front<V>(s: Seq<(V, int)>, max: int) -> Seq<(V, int)> {
    if s.len() <= max {
        s
    } else {
        s.skip(s.len() - max)
    }
}

/// The tracked maximum after seeing one more sequence number.
pub open spec fn bump_seq(prev: Option<u64>, sequence: u64) -> Option<u64> {
    match prev {
        None => Some(sequence),
        Some(m) => if m >= sequence {
            Some(m)
        } else {
            Some(sequence)
        },
    }
}

/// The tracked maximum never decreases and absorbs the new sequence.
pub proof fn lemma_bump_seq_monotone(prev: Option<u64>, sequence: u64)
    ensures
        bump_seq(prev, sequence) matches Some(m) && m >= sequence,
        prev matches Some(p) ==> bump_seq(prev, sequence) matches Some(m) && m >= p,
{
}

pub proof fn lemma_keep_fresh_snoc<V>(s: Seq<(V, int)>, i: int, now: int, max_age: int)
    requires
        0 <= i < s.len(),
    ensures
        keep_fresh(s.take(i + 1), now, max_age) == keep_fresh(s.take(i), now, max_age) + (
        if fresh_at(s[i].1, now, max_age) {
            seq![s[i]]
        } else {
            Seq::<(V, int)>::empty()
        }),
    decreases i,
{
    if i == 0 {
        assert(s.take(1).drop_first() =~= Seq::<(V, int)>::empty());
        assert(s.take(0) =~= Seq::<(V, int)>::empty());
        assert(s.take(1)[0] == s[0]);
        if fresh_at(s[0].1, now, max_age) {
            assert(keep_fresh(s.take(1), now, max_age) =~= keep_fresh(s.take(0), now, max_age)
                + seq![s[0]]);
        } else {
            assert(keep_fresh(s.take(1), now, max_age) =~= keep_fresh(s.take(0), now, max_age));
        }
    } else {
        lemma_keep_fresh_snoc(s.drop_first(), i - 1, now, max_age);
        assert(s.take(i + 1).drop_first() =~= s.drop_first().take(i));
        assert(s.take(i).drop_first() =~= s.drop_first().take(i - 1));
        assert(s.take(i + 1)[0] == s[0]);
        assert(s.take(i)[0] == s[0]);
        assert(s.drop_first()[i - 1] == s[i]);
        if fresh_at(s[i].1, now, max_age) {
            assert(keep_fresh(s.take(i + 1), now, max_age) =~= keep_fresh(s.take(i), now, max_age)
                + seq![s[i]]);
        } else {
            assert(keep_fresh(s.take(i + 1), now, max_age) =~= keep_fresh(s.take(i), now, max_age));
        }
    }
}

/// The bounded, age-purging FIFO of stamped entries.
pub struct AgedFifo<T> {
    pub max_entries: usize,
    pub max_age_ms: u64,
    pub items: Vec<(T, u64)>,
    pub max_seq: Option<u64>,
}

impl<T: DeepView> AgedFifo<T> {
    /// Entries with their insertion stamps, as models, oldest first.
    pub open spec fn model(&self) -> Seq<(T::V, int)> {
        self.items@.map_values(|p: (T, u64)| (p.0.deep_view(), p.1 as int))
    }

    pub fn new(max_entries: usize, max_age_ms: u64) -> (r: AgedFifo<T>)
        ensures
            r.model() == Seq::<(T::V, int)>::empty(),
            r.max_entries == max_entries,
            r.max_age_ms == max_age_ms,
            r.max_seq is None,
    {
        let r = AgedFifo { max_entries, max_age_ms, items: Vec::new(), max_seq: None };
        proof {
            assert(r.model() =~= Seq::<(T::V, int)>::empty());
        }
        r
    }

    /// Purge entries older than the age bound.
    fn purge_at(&mut self, now_ms: u64)
        ensures
            final(self).model() == keep_fresh(
                old(self).model(),
                now_ms as int,
                old(self).max_age_ms as int,
            ),
            final(self).max_seq == old(self).max_seq,
            final(self).max_entries == old(self).max_entries,
            final(self).max_age_ms == old(self).max_age_ms,
    {
        let item_count = self.items.len();
        let ghost orig = self.model();
        let ghost now = now_ms as int;
        let ghost age = self.max_age_ms as int;
        proof {
            assert(orig.len() == item_count as int);
        }
        let mut rev: Vec<(T, u64)> = Vec::new();
        loop
            invariant
                self.max_entries == old(self).max_entries,
                self.max_age_ms == old(self).max_age_ms,
                self.max_seq == old(self).max_seq,
                orig.len() <= usize::MAX,
                now == now_ms as int,
                age == old(self).max_age_ms as int,
                rev@.len() + self.items@.len() == orig.len(),
                self.model() == orig.take(self.items@.len() as int),
                forall|k: int|
                    0 <= k < rev@.len() ==> (rev@[k].0.deep_view(), rev@[k].1 as int) == orig[
                        orig.len() - 1 - k
                    ],
            ensures
                self.items@.len() == 0,
                rev@.len() == orig.len(),
                forall|k: int|
                    0 <= k < rev@.len() ==> (rev@[k].0.deep_view(), rev@[k].1 as int) == orig[
                        orig.len() - 1 - k
                    ],
            decreases self.items@.len(),
        {
            let ghost n = self.items@.len() as int;
            match self.items.pop() {
                Some(x) => {
                    rev.push(x);
                    proof {
                        assert(self.model() =~= orig.take(n - 1));
                        assert(orig.take(n)[n - 1] == orig[n - 1]);
                    }
                },
                None => {
                    break;
                },
            }
        }
        let mut i: usize = 0;
        loop
            invariant
                self.max_entries == old(self).max_entries,
                self.max_age_ms == old(self).max_age_ms,
                self.max_seq == old(self).max_seq,
                orig.len() <= usize::MAX,
                now == now_ms as int,
                age == old(self).max_age_ms as int,
                rev@.len() == orig.len() - i,
                i <= orig.len(),
                self.model() == keep_fresh(orig.take(i as int), now, age),
                forall|k: int|
                    0 <= k < rev@.len() ==> (rev@[k].0.deep_view(), rev@[k].1 as int) == orig[
                        orig.len() - 1 - k
                    ],
            ensures
                self.model() == keep_fresh(orig, now, age),
            decreases rev@.len(),
        {
            let ghost n = rev@.len() as int;
            match rev.pop() {
                Some(x) => {
                    proof {
                        assert((x.0.deep_view(), x.1 as int) == orig[i as int]);
                        lemma_keep_fresh_snoc(orig, i as int, now, age);
                    }
                    let keep = now_ms < x.1 || now_ms - x.1 <= self.max_age_ms;
                    if keep {
                        self.items.push(x);
                        proof {
                            assert(self.model() =~= keep_fresh(orig.take(i as int), now, age)
                                + seq![orig[i as int]]);
                            assert(fresh_at(orig[i as int].1, now, age));
                        }
                    } else {
                        proof {
                            assert(!fresh_at(orig[i as int].1, now, age));
                        }
                    }
                    i = i + 1;
                },
                None => {
                    proof {
                        assert(orig.take(i as int) =~= orig);
                    }
                    break;
                },
            }
        }
    }

    /// Drop entries from the front until the capacity bound holds.
    fn evict_front(&mut self)
        ensures
            final(self).model() == clamp_front(old(self).model(), old(self).max_entries as int),
            final(self).max_seq == old(self).max_seq,
            final(self).max_entries == old(self).max_entries,
            final(self).max_age_ms == old(self).max_age_ms,
    {
        let item_count = self.items.len();
        let ghost orig = self.model();
        let ghost maxe = self.max_entries as int;
        proof {
            assert(orig.len() == item_count as int);
        }
        let mut removed: usize = 0;
        while self.items.len() > self.max_entries
            invariant
                self.max_entries == old(self).max_entries,
                self.max_age_ms == old(self).max_age_ms,
                self.max_seq == old(self).max_seq,
                orig.len() <= usize::MAX,
                maxe == old(self).max_entries as int,
                self.model() == orig.skip(removed as int),
                removed as int <= orig.len(),
                removed as int <= (if orig.len() <= maxe {
                    0int
                } else {
                    orig.len() - maxe
                }),
            decreases self.items@.len(),
        {
            let ghost cur = self.model();
            let _ = self.items.remove(0);
            proof {
                assert(self.model() =~= cur.drop_first());
                assert(cur.drop_first() =~= orig.skip(removed as int + 1));
            }
            removed = removed + 1;
        }
        proof {
            if orig.len() <= maxe {
                assert(removed == 0);
                assert(orig.skip(0) =~= orig);
            } else {
                assert(orig.len() - removed <= maxe);
                assert(removed as int == orig.len() - maxe);
            }
        }
    }

    /// Insert a stamped entry: stamp, purge, then evict from the front.
    pub fn insert_at(&mut self, item: T, sequence: u64, inserted_at: u64, now_ms: u64)
        requires
            old(self).max_entries > 0,
        ensures
            final(self).model() == clamp_front(
                keep_fresh(
                    old(self).model().push((item.deep_view(), inserted_at as int)),
                    now_ms as int,
                    old(self).max_age_ms as int,
                ),
                old(self).max_entries as int,
            ),
            final(self).max_seq == bump_seq(old(self).max_seq, sequence),
            final(self).max_entries == old(self).max_entries,
            final(self).max_age_ms == old(self).max_age_ms,
    {
        let ghost pre = self.model();
        self.items.push((item, inserted_at));
        proof {
            assert(self.model() =~= pre.push((item.deep_view(), inserted_at as int)));
        }
        match self.max_seq {
            None => {
                self.max_seq = Some(sequence);
            },
            Some(m) => {
                if m < sequence {
                    self.max_seq = Some(sequence);
                }
            },
        }
        self.purge_at(now_ms);
        self.evict_front();
    }

    /// Purge, then remove and return all remaining entries in insertion order.
    pub fn drain_at(&mut self, now_ms: u64) -> (r: Vec<(T, u64)>)
        ensures
            r@.map_values(|p: (T, u64)| (p.0.deep_view(), p.1 as int)) == keep_fresh(
                old(self).model(),
                now_ms as int,
                old(self).max_age_ms as int,
            ),
            final(self).model() == Seq::<(T::V, int)>::empty(),
            final(self).max_seq == old(self).max_seq,
            final(self).max_entries == old(self).max_entries,
            final(self).max_age_ms == old(self).max_age_ms,
    {
        self.purge_at(now_ms);
        let mut out: Vec<(T, u64)> = Vec::new();
        std::mem::swap(&mut out, &mut self.items);
        proof {
            assert(self.model() =~= Seq::<(T::V, int)>::empty());
        }
        out
    }

    /// Number of entries currently held.
    pub fn len(&self) -> (r: usize)
        ensures
            r == self.model().len(),
    {
        self.items.len()
    }
}

} // verus!
