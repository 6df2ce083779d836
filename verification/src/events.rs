//! Bounded capture of runtime events for the polling tools of the MCP
//! server: agent errors and external outputs, each stamped with a sequence
//! number from one counter shared by both buffers.

use std::collections::VecDeque;
use vstd::prelude::*;
use crate::text::str_eq;

verus! {

/// Records kept per buffer; the oldest is evicted beyond this.
pub const RING_CAPACITY: usize = 200;

/// Records returned by a poll when the caller sets no limit.
pub const DEFAULT_POLL_LIMIT: usize = 50;

/// An agent error captured from a running preset.
pub struct ErrorRecord {
    /// Sequence number (shared with output records).
    pub seq: u64,
    /// Capture time in milliseconds since the Unix epoch.
    pub time_ms: u64,
    /// Preset of the failing agent, when it could be resolved.
    pub preset_id: Option<String>,
    /// Id of the failing agent.
    pub agent_id: String,
    /// Error message.
    pub message: String,
}

/// A value written to an external output channel.
pub struct OutputRecord<V> {
    /// Sequence number (shared with error records).
    pub seq: u64,
    /// Capture time in milliseconds since the Unix epoch.
    pub time_ms: u64,
    /// Output channel name.
    pub channel: String,
    /// The value.
    pub value: V,
}

impl ErrorRecord {
    /// A copy of the record.
    pub fn copy(&self) -> (r: Self)
        ensures
            r == *self,
    {
        ErrorRecord {
            seq: self.seq,
            time_ms: self.time_ms,
            preset_id: match &self.preset_id {
                Some(p) => Some(p.clone()),
                None => None,
            },
            agent_id: self.agent_id.clone(),
            message: self.message.clone(),
        }
    }
}

impl<V: Clone> OutputRecord<V> {
    /// A copy of the record, the value cloned.
    pub fn copy(&self) -> (r: Self)
        ensures
            r.seq == self.seq,
            r.time_ms == self.time_ms,
            r.channel == self.channel,
            cloned::<V>(self.value, r.value),
    {
        OutputRecord {
            seq: self.seq,
            time_ms: self.time_ms,
            channel: self.channel.clone(),
            value: self.value.clone(),
        }
    }
}

/// The records of `s` that satisfy `keep`, in order.
pub open spec fn kept<R>(s: Seq<R>, keep: spec_fn(R) -> bool) -> Seq<R>
    decreases s.len(),
{
    if s.len() == 0 {
        s
    } else {
        let r = kept(s.drop_last(), keep);
        if keep(s.last()) {
            r.push(s.last())
        } else {
            r
        }
    }
}

/// Whether the sequence numbers strictly increase along `s`.
pub open spec fn seqs_increasing<R>(s: Seq<R>, seq_of: spec_fn(R) -> u64) -> bool {
    forall|i: int, j: int| 0 <= i < j < s.len() ==> seq_of(#[trigger] s[i]) < seq_of(#[trigger] s[j])
}

/// The sequence number of an error record.
pub open spec fn error_seq() -> spec_fn(ErrorRecord) -> u64 {
    |r: ErrorRecord| r.seq
}

/// The sequence number of an output record.
pub open spec fn output_seq<V>() -> spec_fn(OutputRecord<V>) -> u64 {
    |r: OutputRecord<V>| r.seq
}

/// Whether an error record is newer than `since` and, with a preset filter,
/// comes from that preset.
pub open spec fn error_wanted(preset_id: Option<Seq<char>>, since: u64) -> spec_fn(ErrorRecord) -> bool {
    |r: ErrorRecord|
        r.seq > since && match preset_id {
            Some(p) => r.preset_id.deep_view() == Some(p),
            None => true,
        }
}

/// Whether an output record is newer than `since` and, with a channel
/// filter, was written on that channel.
pub open spec fn output_wanted<V>(channel: Option<Seq<char>>, since: u64) -> spec_fn(
    OutputRecord<V>,
) -> bool {
    |r: OutputRecord<V>|
        r.seq > since && match channel {
            Some(c) => r.channel@ == c,
            None => true,
        }
}

/// The page a poll returns: the wanted records, oldest first, at most
/// `limit` of them.
pub open spec fn page<R>(s: Seq<R>, keep: spec_fn(R) -> bool, limit: nat) -> Seq<R> {
    let all = kept(s, keep);
    if all.len() <= limit {
        all
    } else {
        all.take(limit as int)
    }
}

/// The cursor for the next poll: the sequence number of the last record
/// returned, or the previous cursor when none was.
pub open spec fn next_cursor<R>(returned: Seq<R>, seq_of: spec_fn(R) -> u64, since: u64) -> u64 {
    if returned.len() == 0 {
        since
    } else {
        seq_of(returned.last())
    }
}

/// The runtime event buffers: a sequence counter shared by both buffers, a
/// count of events lost to overflow, and the recent errors and outputs,
/// oldest first.
pub struct EventRing<V> {
    seq: u64,
    dropped: u64,
    errors: VecDeque<ErrorRecord>,
    outputs: VecDeque<OutputRecord<V>>,
}

impl<V> EventRing<V> {
    /// The last sequence number handed out (0 before any record).
    pub closed spec fn last_seq(&self) -> u64 {
        self.seq
    }

    /// The number of events lost because the capture lagged behind.
    pub closed spec fn dropped_count(&self) -> u64 {
        self.dropped
    }

    /// The error records, oldest first.
    pub closed spec fn error_records(&self) -> Seq<ErrorRecord> {
        self.errors@
    }

    /// The output records, oldest first.
    pub closed spec fn output_records(&self) -> Seq<OutputRecord<V>> {
        self.outputs@
    }

    /// The buffers' invariant: each holds at most [`RING_CAPACITY`] records,
    /// in strictly increasing sequence order, none numbered above the
    /// counter.
    pub open spec fn wf(&self) -> bool {
        &&& self.error_records().len() <= RING_CAPACITY
        &&& self.output_records().len() <= RING_CAPACITY
        &&& seqs_increasing(self.error_records(), error_seq())
        &&& seqs_increasing(self.output_records(), output_seq())
        &&& forall|i: int|
            0 <= i < self.error_records().len() ==> #[trigger] self.error_records()[i].seq
                <= self.last_seq()
        &&& forall|i: int|
            0 <= i < self.output_records().len() ==> #[trigger] self.output_records()[i].seq
                <= self.last_seq()
    }

    /// Empty buffers with the counter at zero.
    pub fn new() -> (r: Self)
        ensures
            r.wf(),
            r.last_seq() == 0,
            r.dropped_count() == 0,
            r.error_records() == Seq::<ErrorRecord>::empty(),
            r.output_records() == Seq::<OutputRecord<V>>::empty(),
    {
        EventRing { seq: 0, dropped: 0, errors: VecDeque::new(), outputs: VecDeque::new() }
    }

    /// The last sequence number handed out.
    pub fn seq(&self) -> (r: u64)
        ensures
            r == self.last_seq(),
    {
        self.seq
    }

    /// The number of events lost because the capture lagged behind.
    pub fn dropped(&self) -> (r: u64)
        ensures
            r == self.dropped_count(),
    {
        self.dropped
    }

    /// Counts `n` more events lost to a lagging capture (the counter
    /// wraps around, as an atomic add does).
    pub fn add_dropped(&mut self, n: u64)
        requires
            old(self).wf(),
        ensures
            final(self).wf(),
            final(self).dropped_count() == old(self).dropped_count().wrapping_add(n),
            final(self).last_seq() == old(self).last_seq(),
            final(self).error_records() == old(self).error_records(),
            final(self).output_records() == old(self).output_records(),
    {
        self.dropped = self.dropped.wrapping_add(n);
    }

    /// Number of buffered errors.
    pub fn error_count(&self) -> (r: usize)
        ensures
            r == self.error_records().len(),
    {
        self.errors.len()
    }

    /// Number of buffered outputs.
    pub fn output_count(&self) -> (r: usize)
        ensures
            r == self.output_records().len(),
    {
        self.outputs.len()
    }

    /// Records an agent error under the next sequence number, evicting the
    /// oldest error when the buffer is full.
    pub fn push_error(&mut self, time_ms: u64, preset_id: Option<String>, agent_id: String, message: String)
        requires
            old(self).wf(),
            old(self).last_seq() < u64::MAX,
        ensures
            final(self).wf(),
            final(self).last_seq() == old(self).last_seq() + 1,
            final(self).dropped_count() == old(self).dropped_count(),
            final(self).output_records() == old(self).output_records(),
            final(self).error_records() == (if old(self).error_records().len() >= RING_CAPACITY {
                old(self).error_records().drop_first()
            } else {
                old(self).error_records()
            }).push(
                ErrorRecord {
                    seq: (old(self).last_seq() + 1) as u64,
                    time_ms,
                    preset_id,
                    agent_id,
                    message,
                },
            ),
    {
        if self.errors.len() >= RING_CAPACITY {
            self.errors.pop_front();
        }
        self.seq = self.seq + 1;
        let ghost kept_part = self.errors@;
        self.errors.push_back(ErrorRecord { seq: self.seq, time_ms, preset_id, agent_id, message });
        assert(kept_part =~= if old(self).error_records().len() >= RING_CAPACITY {
            old(self).error_records().drop_first()
        } else {
            old(self).error_records()
        });
        assert forall|i: int, j: int| 0 <= i < j < self.errors@.len() implies (error_seq())(
            #[trigger] self.errors@[i],
        ) < (error_seq())(#[trigger] self.errors@[j]) by {
            if old(self).error_records().len() >= RING_CAPACITY {
                assert(self.errors@[i] == old(self).error_records()[i + 1]);
                if j < self.errors@.len() - 1 {
                    assert(self.errors@[j] == old(self).error_records()[j + 1]);
                }
            } else {
                assert(self.errors@[i] == old(self).error_records()[i]);
                if j < self.errors@.len() - 1 {
                    assert(self.errors@[j] == old(self).error_records()[j]);
                }
            }
        }
        assert forall|i: int| 0 <= i < self.errors@.len() implies #[trigger] self.errors@[i].seq
            <= self.seq by {
            if i < self.errors@.len() - 1 {
                if old(self).error_records().len() >= RING_CAPACITY {
                    assert(self.errors@[i] == old(self).error_records()[i + 1]);
                } else {
                    assert(self.errors@[i] == old(self).error_records()[i]);
                }
            }
        }
    }

    /// Records an external output under the next sequence number, evicting
    /// the oldest output when the buffer is full.
    pub fn push_output(&mut self, time_ms: u64, channel: String, value: V)
        requires
            old(self).wf(),
            old(self).last_seq() < u64::MAX,
        ensures
            final(self).wf(),
            final(self).last_seq() == old(self).last_seq() + 1,
            final(self).dropped_count() == old(self).dropped_count(),
            final(self).error_records() == old(self).error_records(),
            final(self).output_records() == (if old(self).output_records().len() >= RING_CAPACITY {
                old(self).output_records().drop_first()
            } else {
                old(self).output_records()
            }).push(OutputRecord { seq: (old(self).last_seq() + 1) as u64, time_ms, channel, value }),
    {
        if self.outputs.len() >= RING_CAPACITY {
            self.outputs.pop_front();
        }
        self.seq = self.seq + 1;
        let ghost kept_part = self.outputs@;
        self.outputs.push_back(OutputRecord { seq: self.seq, time_ms, channel, value });
        assert(kept_part =~= if old(self).output_records().len() >= RING_CAPACITY {
            old(self).output_records().drop_first()
        } else {
            old(self).output_records()
        });
        assert forall|i: int, j: int| 0 <= i < j < self.outputs@.len() implies (output_seq())(
            #[trigger] self.outputs@[i],
        ) < (output_seq())(#[trigger] self.outputs@[j]) by {
            if old(self).output_records().len() >= RING_CAPACITY {
                assert(self.outputs@[i] == old(self).output_records()[i + 1]);
                if j < self.outputs@.len() - 1 {
                    assert(self.outputs@[j] == old(self).output_records()[j + 1]);
                }
            } else {
                assert(self.outputs@[i] == old(self).output_records()[i]);
                if j < self.outputs@.len() - 1 {
                    assert(self.outputs@[j] == old(self).output_records()[j]);
                }
            }
        }
        assert forall|i: int| 0 <= i < self.outputs@.len() implies #[trigger] self.outputs@[i].seq
            <= self.seq by {
            if i < self.outputs@.len() - 1 {
                if old(self).output_records().len() >= RING_CAPACITY {
                    assert(self.outputs@[i] == old(self).output_records()[i + 1]);
                } else {
                    assert(self.outputs@[i] == old(self).output_records()[i]);
                }
            }
        }
    }

    /// Oldest-first page of the errors after `since_seq`, only those of
    /// `preset_id` when given, truncated to `limit` so the caller can
    /// continue from the last returned sequence number.
    pub fn collect_errors(&self, preset_id: Option<&str>, since_seq: u64, limit: usize) -> (r: Vec<
        ErrorRecord,
    >)
        ensures
            r@ == page(
                self.error_records(),
                error_wanted(
                    match preset_id {
                        Some(p) => Some(p@),
                        None => None,
                    },
                    since_seq,
                ),
                limit as nat,
            ),
    {
        let ghost want = error_wanted(
            match preset_id {
                Some(p) => Some(p@),
                None => None,
            },
            since_seq,
        );
        let ghost s = self.errors@;
        let mut out: Vec<ErrorRecord> = Vec::new();
        let mut i: usize = 0;
        while i < self.errors.len()
            invariant
                i <= s.len(),
                s == self.errors@,
                want == error_wanted(
                    match preset_id {
                        Some(p) => Some(p@),
                        None => None,
                    },
                    since_seq,
                ),
                out@ == kept(s.take(i as int), want),
            decreases s.len() - i,
        {
            assert(s.take(i + 1).drop_last() =~= s.take(i as int));
            assert(s.take(i + 1).last() == s[i as int]);
            let r = &self.errors[i];
            let wanted = r.seq > since_seq && match preset_id {
                Some(p) => match &r.preset_id {
                    Some(q) => str_eq(q.as_str(), p),
                    None => false,
                },
                None => true,
            };
            if wanted {
                out.push(r.copy());
            }
            i = i + 1;
        }
        assert(s.take(s.len() as int) =~= s);
        if out.len() > limit {
            out.truncate(limit);
        }
        out
    }

    /// Oldest-first page of the outputs after `since_seq`, only those on
    /// `channel` when given, truncated to `limit`; each value is a clone of
    /// the stored one.
    pub fn collect_outputs(&self, channel: Option<&str>, since_seq: u64, limit: usize) -> (r: Vec<
        OutputRecord<V>,
    >) where V: Clone
        ensures
            r@.len() == page(
                self.output_records(),
                output_wanted(
                    match channel {
                        Some(c) => Some(c@),
                        None => None,
                    },
                    since_seq,
                ),
                limit as nat,
            ).len(),
            forall|i: int|
                #![trigger r@[i]]
                0 <= i < r@.len() ==> {
                    let want = page(
                        self.output_records(),
                        output_wanted(
                            match channel {
                                Some(c) => Some(c@),
                                None => None,
                            },
                            since_seq,
                        ),
                        limit as nat,
                    )[i];
                    &&& r@[i].seq == want.seq
                    &&& r@[i].time_ms == want.time_ms
                    &&& r@[i].channel == want.channel
                    &&& cloned::<V>(want.value, r@[i].value)
                },
    {
        let ghost want = output_wanted(
            match channel {
                Some(c) => Some(c@),
                None => None,
            },
            since_seq,
        );
        let ghost s = self.outputs@;
        let mut out: Vec<OutputRecord<V>> = Vec::new();
        let mut i: usize = 0;
        while i < self.outputs.len()
            invariant
                i <= s.len(),
                s == self.outputs@,
                want == output_wanted::<V>(
                    match channel {
                        Some(c) => Some(c@),
                        None => None,
                    },
                    since_seq,
                ),
                out@.len() == kept(s.take(i as int), want).len(),
                forall|j: int|
                    #![trigger out@[j]]
                    0 <= j < out@.len() ==> {
                        let w = kept(s.take(i as int), want)[j];
                        &&& out@[j].seq == w.seq
                        &&& out@[j].time_ms == w.time_ms
                        &&& out@[j].channel == w.channel
                        &&& cloned::<V>(w.value, out@[j].value)
                    },
            decreases s.len() - i,
        {
            assert(s.take(i + 1).drop_last() =~= s.take(i as int));
            assert(s.take(i + 1).last() == s[i as int]);
            let r = &self.outputs[i];
            let wanted = r.seq > since_seq && match channel {
                Some(c) => str_eq(r.channel.as_str(), c),
                None => true,
            };
            if wanted {
                out.push(r.copy());
            }
            i = i + 1;
        }
        assert(s.take(s.len() as int) =~= s);
        if out.len() > limit {
            out.truncate(limit);
        }
        out
    }
}

/// The cursor to hand back after a poll of errors.
pub fn error_cursor(returned: &Vec<ErrorRecord>, since_seq: u64) -> (r: u64)
    ensures
        r == next_cursor(returned@, error_seq(), since_seq),
{
    if returned.len() == 0 {
        since_seq
    } else {
        returned[returned.len() - 1].seq
    }
}

/// The cursor to hand back after a poll of outputs.
pub fn output_cursor<V>(returned: &Vec<OutputRecord<V>>, since_seq: u64) -> (r: u64)
    ensures
        r == next_cursor(returned@, output_seq(), since_seq),
{
    if returned.len() == 0 {
        since_seq
    } else {
        returned[returned.len() - 1].seq
    }
}

/// Every record kept is one of the records.
pub proof fn lemma_kept_from<R>(s: Seq<R>, keep: spec_fn(R) -> bool)
    ensures
        forall|i: int| 0 <= i < kept(s, keep).len() ==> s.contains(#[trigger] kept(s, keep)[i]),
        forall|i: int| 0 <= i < kept(s, keep).len() ==> keep(#[trigger] kept(s, keep)[i]),
    decreases s.len(),
{
    if s.len() > 0 {
        let init = s.drop_last();
        lemma_kept_from(init, keep);
        let r = kept(init, keep);
        assert forall|i: int| 0 <= i < kept(s, keep).len() implies s.contains(
            #[trigger] kept(s, keep)[i],
        ) && keep(kept(s, keep)[i]) by {
            if i < r.len() {
                assert(kept(s, keep)[i] == r[i]);
                assert(init.contains(r[i]));
                let j = choose|j: int| 0 <= j < init.len() && init[j] == r[i];
                assert(s[j] == r[i]);
            } else {
                assert(kept(s, keep)[i] == s[s.len() - 1]);
            }
        }
    }
}

/// Keeping records of an increasing sequence keeps it increasing.
pub proof fn lemma_kept_increasing<R>(s: Seq<R>, keep: spec_fn(R) -> bool, seq_of: spec_fn(R) -> u64)
    requires
        seqs_increasing(s, seq_of),
    ensures
        seqs_increasing(kept(s, keep), seq_of),
    decreases s.len(),
{
    if s.len() > 0 {
        let init = s.drop_last();
        assert(seqs_increasing(init, seq_of)) by {
            assert forall|i: int, j: int| 0 <= i < j < init.len() implies seq_of(#[trigger] init[i])
                < seq_of(#[trigger] init[j]) by {
                assert(init[i] == s[i]);
                assert(init[j] == s[j]);
            }
        }
        lemma_kept_increasing(init, keep, seq_of);
        lemma_kept_from(init, keep);
        let r = kept(init, keep);
        if keep(s.last()) {
            let t = r.push(s.last());
            assert forall|i: int, j: int| 0 <= i < j < t.len() implies seq_of(#[trigger] t[i]) < seq_of(
                #[trigger] t[j],
            ) by {
                if j == t.len() - 1 {
                    assert(t[i] == r[i]);
                    assert(init.contains(r[i]));
                    let k = choose|k: int| 0 <= k < init.len() && init[k] == r[i];
                    assert(s[k] == r[i]);
                } else {
                    assert(t[i] == r[i]);
                    assert(t[j] == r[j]);
                }
            }
        }
    }
}

/// Keeping by two conditions is keeping by one, then by the other.
pub proof fn lemma_kept_twice<R>(
    s: Seq<R>,
    first: spec_fn(R) -> bool,
    second: spec_fn(R) -> bool,
    both: spec_fn(R) -> bool,
)
    requires
        forall|r: R| #[trigger] both(r) == (first(r) && second(r)),
    ensures
        kept(s, both) == kept(kept(s, first), second),
    decreases s.len(),
{
    if s.len() > 0 {
        lemma_kept_twice(s.drop_last(), first, second, both);
        let r1 = kept(s.drop_last(), first);
        if first(s.last()) {
            assert(r1.push(s.last()).drop_last() =~= r1);
        }
    }
}

/// In an increasing sequence, the records numbered above that of position
/// `k` are exactly those after position `k`.
pub proof fn lemma_kept_after<R>(t: Seq<R>, seq_of: spec_fn(R) -> u64, k: int, after: spec_fn(R) -> bool)
    requires
        seqs_increasing(t, seq_of),
        0 <= k < t.len(),
        forall|r: R| #[trigger] after(r) == (seq_of(r) > seq_of(t[k])),
    ensures
        kept(t, after) == t.skip(k + 1),
    decreases t.len(),
{
    let init = t.drop_last();
    assert(seqs_increasing(init, seq_of)) by {
        assert forall|i: int, j: int| 0 <= i < j < init.len() implies seq_of(#[trigger] init[i])
            < seq_of(#[trigger] init[j]) by {
            assert(init[i] == t[i]);
            assert(init[j] == t[j]);
        }
    }
    if k < t.len() - 1 {
        assert(init[k] == t[k]);
        lemma_kept_after(init, seq_of, k, after);
        assert(seq_of(t[k]) < seq_of(t[t.len() - 1]));
        assert(init.skip(k + 1).push(t.last()) =~= t.skip(k + 1));
    } else {
        assert forall|i: int| 0 <= i < init.len() implies seq_of(#[trigger] init[i]) <= seq_of(t[k]) by {
            assert(init[i] == t[i]);
        }
        lemma_kept_none_plain(init, seq_of, after, seq_of(t[k]));
        assert(!after(t.last()));
        assert(t.skip(k + 1) =~= Seq::<R>::empty());
    }
}

/// No record numbered at most `c` is kept by a condition that wants more.
proof fn lemma_kept_none_plain<R>(s: Seq<R>, seq_of: spec_fn(R) -> u64, after: spec_fn(R) -> bool, c: u64)
    requires
        forall|i: int| 0 <= i < s.len() ==> seq_of(#[trigger] s[i]) <= c,
        forall|r: R| #[trigger] after(r) == (seq_of(r) > c),
    ensures
        kept(s, after) == Seq::<R>::empty(),
    decreases s.len(),
{
    if s.len() > 0 {
        assert forall|i: int| 0 <= i < s.drop_last().len() implies seq_of(#[trigger] s.drop_last()[i]) <= c by {
            assert(s.drop_last()[i] == s[i]);
        }
        lemma_kept_none_plain(s.drop_last(), seq_of, after, c);
        assert(seq_of(s[s.len() - 1]) <= c);
    }
}

/// Paging the errors never loses a record and never returns one twice: a
/// page is the oldest wanted records, and polling again with the sequence
/// number of the page's last record as cursor yields exactly the wanted
/// records that followed it.
pub proof fn law_error_paging_resumes_exactly<V>(
    ring: EventRing<V>,
    preset_id: Option<Seq<char>>,
    since: u64,
    limit: nat,
)
    requires
        ring.wf(),
    ensures
        ({
            let all = kept(ring.error_records(), error_wanted(preset_id, since));
            let pg = page(ring.error_records(), error_wanted(preset_id, since), limit);
            let cursor = next_cursor(pg, error_seq(), since);
            &&& pg == all.take(pg.len() as int)
            &&& seqs_increasing(pg, error_seq())
            &&& pg.len() > 0 ==> kept(ring.error_records(), error_wanted(preset_id, cursor))
                == all.skip(pg.len() as int)
        }),
{
    let recs = ring.error_records();
    let all = kept(recs, error_wanted(preset_id, since));
    let pg = page(recs, error_wanted(preset_id, since), limit);
    lemma_kept_increasing(recs, error_wanted(preset_id, since), error_seq());
    assert(pg =~= all.take(pg.len() as int));
    assert(seqs_increasing(pg, error_seq())) by {
        assert forall|i: int, j: int| 0 <= i < j < pg.len() implies (error_seq())(#[trigger] pg[i])
            < (error_seq())(#[trigger] pg[j]) by {
            assert(pg[i] == all[i]);
            assert(pg[j] == all[j]);
        }
    }
    if pg.len() > 0 {
        let k = pg.len() - 1;
        let c = pg.last().seq;
        assert(pg.last() == all[k]);
        let after = |r: ErrorRecord| r.seq > c;
        lemma_kept_from(recs, error_wanted(preset_id, since));
        assert((error_wanted(preset_id, since))(all[k]));
        assert(c > since);
        assert forall|r: ErrorRecord| #[trigger] (error_wanted(preset_id, c))(r) == ((error_wanted(
            preset_id,
            since,
        ))(r) && after(r)) by {}
        lemma_kept_twice(recs, error_wanted(preset_id, since), after, error_wanted(preset_id, c));
        lemma_kept_after(all, error_seq(), k, after);
    }
}

/// Paging the outputs never loses a record and never returns one twice
/// (see [`law_error_paging_resumes_exactly`]).
pub proof fn law_output_paging_resumes_exactly<V>(
    ring: EventRing<V>,
    channel: Option<Seq<char>>,
    since: u64,
    limit: nat,
)
    requires
        ring.wf(),
    ensures
        ({
            let all = kept(ring.output_records(), output_wanted(channel, since));
            let pg = page(ring.output_records(), output_wanted(channel, since), limit);
            let cursor = next_cursor(pg, output_seq(), since);
            &&& pg == all.take(pg.len() as int)
            &&& seqs_increasing(pg, output_seq())
            &&& pg.len() > 0 ==> kept(ring.output_records(), output_wanted(channel, cursor))
                == all.skip(pg.len() as int)
        }),
{
    let recs = ring.output_records();
    let all = kept(recs, output_wanted(channel, since));
    let pg = page(recs, output_wanted(channel, since), limit);
    lemma_kept_increasing(recs, output_wanted(channel, since), output_seq());
    assert(pg =~= all.take(pg.len() as int));
    assert(seqs_increasing(pg, output_seq())) by {
        assert forall|i: int, j: int| 0 <= i < j < pg.len() implies (output_seq::<V>())(
            #[trigger] pg[i],
        ) < (output_seq::<V>())(#[trigger] pg[j]) by {
            assert(pg[i] == all[i]);
            assert(pg[j] == all[j]);
        }
    }
    if pg.len() > 0 {
        let k = pg.len() - 1;
        let c = pg.last().seq;
        assert(pg.last() == all[k]);
        let after = |r: OutputRecord<V>| r.seq > c;
        lemma_kept_from(recs, output_wanted(channel, since));
        assert((output_wanted(channel, since))(all[k]));
        assert(c > since);
        assert forall|r: OutputRecord<V>| #[trigger] (output_wanted(channel, c))(r) == ((
        output_wanted(channel, since))(r) && after(r)) by {}
        lemma_kept_twice(recs, output_wanted(channel, since), after, output_wanted(channel, c));
        lemma_kept_after(all, output_seq(), k, after);
    }
}

/// A record pushed later is numbered above every record already buffered,
/// including any a reader has already seen: a poll cursor never skips it.
pub proof fn law_new_records_follow_the_cursor<V>(ring: EventRing<V>, i: int)
    requires
        ring.wf(),
    ensures
        0 <= i < ring.error_records().len() ==> ring.error_records()[i].seq < ring.last_seq() + 1,
        0 <= i < ring.output_records().len() ==> ring.output_records()[i].seq < ring.last_seq() + 1,
{
}
} // verus!
