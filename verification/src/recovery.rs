//! Tracking of sent reliable datagrams. Each tracked datagram sequence
//! number keeps its send time and the encoded frames it carried. An entry
//! leaves the queue in exactly three ways: an ACK removes it, a NACK
//! returns it for immediate resend, a resend sweep returns everything older
//! than the retransmit timeout. Nothing is dropped silently: every tracked
//! frame is retried until acknowledged or the connection is torn down.

use vstd::prelude::*;

verus! {

/// One tracked reliable send: the datagram sequence number it left under,
/// when it was sent, and the encoded frames it carried.
pub struct RecoveryEntry {
    pub sequence: u32,
    pub sent: u64,
    pub frames: Vec<Vec<u8>>,
}

/// Whether an entry with `sequence` is tracked in `es`.
pub open spec fn rq_has(es: Seq<RecoveryEntry>, sequence: u32) -> bool {
    exists|i: int| 0 <= i < es.len() && es[i].sequence == sequence
}

/// The position of the entry with `sequence` (meaningful under `rq_has`).
pub open spec fn rq_at(es: Seq<RecoveryEntry>, sequence: u32) -> int {
    choose|i: int| 0 <= i < es.len() && es[i].sequence == sequence
}

/// The send time of the entry with `sequence`.
pub open spec fn rq_sent(es: Seq<RecoveryEntry>, sequence: u32) -> u64 {
    es[rq_at(es, sequence)].sent
}

/// The frames of the entry with `sequence`.
pub open spec fn rq_frames(es: Seq<RecoveryEntry>, sequence: u32) -> Seq<Seq<u8>> {
    es[rq_at(es, sequence)].frames.deep_view()
}

/// The entry is due for resend: it has waited longer than `timeout`.
pub open spec fn rq_expired(es: Seq<RecoveryEntry>, sequence: u32, now: u64, timeout: u64) -> bool {
    rq_sent(es, sequence) + timeout < now
}

/// The queue of reliable sends awaiting acknowledgment.
pub struct RecoveryQueue {
    pub entries: Vec<RecoveryEntry>,
}

impl RecoveryQueue {
    /// Sequence numbers are unique: a datagram number is never tracked twice.
    pub open spec fn wf(&self) -> bool {
        forall|i: int, j: int|
            0 <= i < j < self.entries@.len() ==> self.entries@[i].sequence
                != self.entries@[j].sequence
    }

    pub fn new() -> (r: Self)
        ensures
            r.wf(),
            r.entries@.len() == 0,
    {
        Self { entries: Vec::new() }
    }

    /// Finds the position of `sequence`.
    fn find(&self, sequence: u32) -> (r: Option<usize>)
        ensures
            match r {
                Some(i) => i < self.entries@.len() && self.entries@[i as int].sequence == sequence,
                None => !rq_has(self.entries@, sequence),
            },
    {
        let mut i: usize = 0;
        while i < self.entries.len()
            invariant
                i <= self.entries@.len(),
                forall|j: int| 0 <= j < i ==> self.entries@[j].sequence != sequence,
            decreases self.entries@.len() - i,
        {
            if self.entries[i].sequence == sequence {
                return Some(i);
            }
            i = i + 1;
        }
        None
    }

    /// Records a pending reliable send under a fresh datagram sequence
    /// number, stamped with the send time.
    pub fn track(&mut self, sequence: u32, frames: Vec<Vec<u8>>, now: u64)
        requires
            old(self).wf(),
            !rq_has(old(self).entries@, sequence),
        ensures
            final(self).wf(),
            final(self).entries@.len() == old(self).entries@.len() + 1,
            rq_has(final(self).entries@, sequence),
            rq_sent(final(self).entries@, sequence) == now,
            rq_frames(final(self).entries@, sequence) == frames.deep_view(),
            forall|x: u32|
                x != sequence ==> (#[trigger] rq_has(final(self).entries@, x)) == rq_has(
                    old(self).entries@,
                    x,
                ) && (rq_has(final(self).entries@, x) ==> rq_sent(final(self).entries@, x)
                    == rq_sent(old(self).entries@, x) && rq_frames(final(self).entries@, x)
                    == rq_frames(old(self).entries@, x)),
    {
        let ghost pre = self.entries@;
        let ghost fv = frames.deep_view();
        self.entries.push(RecoveryEntry { sequence, sent: now, frames });
        proof {
            let cur = self.entries@;
            let n = pre.len() as int;
            assert(cur[n].sequence == sequence);
            assert(rq_has(cur, sequence));
            assert(rq_at(cur, sequence) == n) by {
                let j = rq_at(cur, sequence);
                assert(cur[j].sequence == sequence);
                if j < n {
                    assert(pre[j].sequence == sequence);
                }
            }
            assert forall|x: u32| x != sequence implies (#[trigger] rq_has(cur, x)) == rq_has(
                pre,
                x,
            ) by {
                if rq_has(cur, x) {
                    let j = rq_at(cur, x);
                    assert(0 <= j < cur.len() && cur[j].sequence == x);
                    assert(j < n);
                    assert(pre[j].sequence == x);
                }
                if rq_has(pre, x) {
                    let j = rq_at(pre, x);
                    assert(0 <= j < pre.len() && pre[j].sequence == x);
                    assert(cur[j].sequence == x);
                }
            }
            assert forall|x: u32| x != sequence && rq_has(cur, x) implies rq_sent(cur, x)
                == rq_sent(pre, x) && rq_frames(cur, x) == rq_frames(pre, x) by {
                let j = rq_at(cur, x);
                assert(0 <= j < cur.len() && cur[j].sequence == x);
                assert(j < n);
                assert(pre[j].sequence == x);
                let jc = rq_at(pre, x);
                assert(pre[jc].sequence == x);
                assert(jc == j);
            }
        }
    }

    /// Removes the entry an arriving ACK covers; an unknown number (already
    /// acknowledged, or never sent) changes nothing.
    pub fn ack(&mut self, sequence: u32) -> (r: bool)
        requires
            old(self).wf(),
        ensures
            final(self).wf(),
            r == rq_has(old(self).entries@, sequence),
            !rq_has(final(self).entries@, sequence),
            r ==> final(self).entries@.len() + 1 == old(self).entries@.len(),
            !r ==> *final(self) == *old(self),
            forall|x: u32|
                x != sequence ==> (#[trigger] rq_has(final(self).entries@, x)) == rq_has(
                    old(self).entries@,
                    x,
                ) && (rq_has(final(self).entries@, x) ==> rq_sent(final(self).entries@, x)
                    == rq_sent(old(self).entries@, x) && rq_frames(final(self).entries@, x)
                    == rq_frames(old(self).entries@, x)),
    {
        match self.nack(sequence) {
            Some(_) => true,
            None => false,
        }
    }

    /// Removes and returns the frames of a negatively acknowledged entry so
    /// the caller re-sends them at once, under a fresh datagram number.
    pub fn nack(&mut self, sequence: u32) -> (r: Option<Vec<Vec<u8>>>)
        requires
            old(self).wf(),
        ensures
            final(self).wf(),
            !rq_has(final(self).entries@, sequence),
            match r {
                Some(frames) => rq_has(old(self).entries@, sequence) && frames.deep_view()
                    == rq_frames(old(self).entries@, sequence) && final(self).entries@.len() + 1
                    == old(self).entries@.len(),
                None => !rq_has(old(self).entries@, sequence) && *final(self) == *old(self),
            },
            forall|x: u32|
                x != sequence ==> (#[trigger] rq_has(final(self).entries@, x)) == rq_has(
                    old(self).entries@,
                    x,
                ) && (rq_has(final(self).entries@, x) ==> rq_sent(final(self).entries@, x)
                    == rq_sent(old(self).entries@, x) && rq_frames(final(self).entries@, x)
                    == rq_frames(old(self).entries@, x)),
    {
        match self.find(sequence) {
            Some(i) => {
                let ghost pre = self.entries@;
                let e = self.entries.remove(i);
                proof {
                    let cur = self.entries@;
                    assert(rq_at(pre, sequence) == i) by {
                        let j = rq_at(pre, sequence);
                        assert(pre[j].sequence == sequence);
                        if j != i {
                            assert(pre[j].sequence != pre[i as int].sequence);
                        }
                    }
                    assert(!rq_has(cur, sequence)) by {
                        if rq_has(cur, sequence) {
                            let j = rq_at(cur, sequence);
                            assert(0 <= j < cur.len() && cur[j].sequence == sequence);
                            if j < i {
                                assert(pre[j].sequence == sequence && pre[i as int].sequence
                                    == sequence);
                            } else {
                                assert(pre[j + 1].sequence == sequence && pre[i as int].sequence
                                    == sequence);
                            }
                        }
                    }
                    assert forall|x: u32| x != sequence implies (#[trigger] rq_has(cur, x))
                        == rq_has(pre, x) by {
                        if rq_has(cur, x) {
                            let j = rq_at(cur, x);
                            assert(0 <= j < cur.len() && cur[j].sequence == x);
                            if j < i {
                                assert(pre[j].sequence == x);
                            } else {
                                assert(pre[j + 1].sequence == x);
                            }
                        }
                        if rq_has(pre, x) {
                            let j = rq_at(pre, x);
                            assert(0 <= j < pre.len() && pre[j].sequence == x);
                            if j < i {
                                assert(cur[j].sequence == x);
                            } else {
                                assert(cur[j - 1].sequence == x);
                            }
                        }
                    }
                    assert forall|x: u32| x != sequence && rq_has(cur, x) implies rq_sent(cur, x)
                        == rq_sent(pre, x) && rq_frames(cur, x) == rq_frames(pre, x) by {
                        let j = rq_at(cur, x);
                        assert(0 <= j < cur.len() && cur[j].sequence == x);
                        let jo = if j < i {
                            j
                        } else {
                            j + 1
                        };
                        assert(pre[jo].sequence == x);
                        let jc = rq_at(pre, x);
                        assert(pre[jc].sequence == x);
                        assert(jc == jo);
                    }
                }
                Some(e.frames)
            },
            None => None,
        }
    }

    /// Removes and returns every entry older than the retransmit timeout,
    /// as `(sequence, frames)` pairs for proactive resend; younger entries
    /// stay untouched.
    #[verifier::loop_isolation(false)]
    #[verifier::rlimit(100)]
    pub fn collect_expired(&mut self, now: u64, timeout: u64) -> (r: Vec<(u32, Vec<Vec<u8>>)>)
        requires
            old(self).wf(),
        ensures
            final(self).wf(),
            r@.len() + final(self).entries@.len() == old(self).entries@.len(),
            forall|i: int|
                0 <= i < r@.len() ==> rq_has(old(self).entries@, #[trigger] r@[i].0) && rq_expired(
                    old(self).entries@,
                    r@[i].0,
                    now,
                    timeout,
                ) && r@[i].1.deep_view() == rq_frames(old(self).entries@, r@[i].0),
            forall|x: u32|
                #![trigger rq_has(final(self).entries@, x)]
                #![trigger rq_has(old(self).entries@, x)]
                {
                    &&& (rq_has(final(self).entries@, x) <==> rq_has(old(self).entries@, x)
                        && !rq_expired(old(self).entries@, x, now, timeout))
                    &&& (rq_has(final(self).entries@, x) ==> rq_sent(final(self).entries@, x)
                        == rq_sent(old(self).entries@, x) && rq_frames(final(self).entries@, x)
                        == rq_frames(old(self).entries@, x))
                },
    {
        let ghost o = self.entries@;
        let mut kept: Vec<RecoveryEntry> = Vec::new();
        let mut r: Vec<(u32, Vec<Vec<u8>>)> = Vec::new();
        let ghost mut k: int = 0;
        while self.entries.len() > 0
            invariant
                0 <= k <= o.len(),
                self.entries@ == o.skip(k),
                r@.len() + kept@.len() == k,
                forall|i2: int, j2: int|
                    0 <= i2 < j2 < kept@.len() ==> kept@[i2].sequence != kept@[j2].sequence,
                forall|i: int|
                    0 <= i < r@.len() ==> rq_has(o, #[trigger] r@[i].0) && rq_expired(
                        o,
                        r@[i].0,
                        now,
                        timeout,
                    ) && r@[i].1.deep_view() == rq_frames(o, r@[i].0),
                forall|x: u32|
                    #![trigger rq_has(kept@, x)]
                    #![trigger rq_has(o.take(k), x)]
                    {
                        &&& (rq_has(kept@, x) <==> rq_has(o.take(k), x) && !rq_expired(
                            o,
                            x,
                            now,
                            timeout,
                        ))
                        &&& (rq_has(kept@, x) ==> rq_sent(kept@, x) == rq_sent(o, x) && rq_frames(
                            kept@,
                            x,
                        ) == rq_frames(o, x))
                    },
            decreases self.entries@.len(),
        {
            let ghost pre_kept = kept@;
            let e = self.entries.remove(0);
            proof {
                assert(e == o[k]);
                assert(self.entries@ =~= o.skip(k + 1));
                assert(o.take(k + 1) =~= o.take(k).push(o[k]));
                assert(rq_has(o, e.sequence)) by {
                    assert(o[k].sequence == e.sequence);
                }
                assert(rq_at(o, e.sequence) == k) by {
                    let j2 = rq_at(o, e.sequence);
                    assert(o[j2].sequence == e.sequence);
                    if j2 != k {
                        assert(o[j2].sequence != o[k].sequence);
                    }
                }
                assert(!rq_has(pre_kept, e.sequence)) by {
                    if rq_has(pre_kept, e.sequence) {
                        assert(rq_has(o.take(k), e.sequence));
                        let j2 = rq_at(o.take(k), e.sequence);
                        assert(0 <= j2 < o.take(k).len() && o.take(k)[j2].sequence == e.sequence);
                        assert(o[j2].sequence == e.sequence && o[k].sequence == e.sequence && j2
                            < k);
                    }
                }
            }
            let ghost eseq = e.sequence;
            let expired = if timeout > u64::MAX - e.sent {
                false
            } else {
                e.sent + timeout < now
            };
            proof {
                assert(expired == rq_expired(o, eseq, now, timeout));
            }
            if expired {
                r.push((e.sequence, e.frames));
            } else {
                kept.push(e);
            }
            proof {
                let kt = kept@;
                assert forall|x: u32|
                    #![trigger rq_has(kt, x)]
                    #![trigger rq_has(o.take(k + 1), x)]
                    {
                        &&& (rq_has(kt, x) <==> rq_has(o.take(k + 1), x) && !rq_expired(
                            o,
                            x,
                            now,
                            timeout,
                        ))
                        &&& (rq_has(kt, x) ==> rq_sent(kt, x) == rq_sent(o, x) && rq_frames(kt, x)
                            == rq_frames(o, x))
                    } by {
                    if x == eseq {
                        assert(rq_has(o.take(k + 1), x)) by {
                            assert(o.take(k + 1)[k].sequence == x);
                        }
                        if !expired {
                            assert(kt[pre_kept.len() as int].sequence == x);
                            assert(rq_has(kt, x));
                            assert(rq_at(kt, x) == pre_kept.len()) by {
                                let j2 = rq_at(kt, x);
                                assert(kt[j2].sequence == x);
                                if j2 < pre_kept.len() {
                                    assert(rq_has(pre_kept, x));
                                }
                            }
                        } else {
                            assert(!rq_has(kt, x)) by {
                                if rq_has(kt, x) {
                                    let j2 = rq_at(kt, x);
                                    assert(0 <= j2 < kt.len() && kt[j2].sequence == x);
                                    assert(pre_kept[j2].sequence == x);
                                }
                            }
                        }
                    } else {
                        assert(rq_has(o.take(k + 1), x) == rq_has(o.take(k), x)) by {
                            if rq_has(o.take(k + 1), x) {
                                let j2 = rq_at(o.take(k + 1), x);
                                assert(0 <= j2 < o.take(k + 1).len() && o.take(k + 1)[j2].sequence
                                    == x);
                                assert(j2 != k);
                                assert(o.take(k)[j2].sequence == x);
                            }
                            if rq_has(o.take(k), x) {
                                let j2 = rq_at(o.take(k), x);
                                assert(0 <= j2 < o.take(k).len() && o.take(k)[j2].sequence == x);
                                assert(o.take(k + 1)[j2].sequence == x);
                            }
                        }
                        assert(rq_has(kt, x) == rq_has(pre_kept, x)) by {
                            if rq_has(kt, x) {
                                let j2 = rq_at(kt, x);
                                assert(0 <= j2 < kt.len() && kt[j2].sequence == x);
                                assert(j2 < pre_kept.len());
                                assert(pre_kept[j2].sequence == x);
                            }
                            if rq_has(pre_kept, x) {
                                let j2 = rq_at(pre_kept, x);
                                assert(0 <= j2 < pre_kept.len() && pre_kept[j2].sequence == x);
                                assert(kt[j2].sequence == x);
                            }
                        }
                        if rq_has(kt, x) {
                            let j2 = rq_at(kt, x);
                            assert(kt[j2].sequence == x);
                            assert(j2 < pre_kept.len());
                            assert(pre_kept[j2].sequence == x);
                            let jc = rq_at(pre_kept, x);
                            assert(pre_kept[jc].sequence == x);
                            assert(jc == j2);
                        }
                    }
                }
                k = k + 1;
            }
        }
        proof {
            assert(o.take(k) =~= o);
        }
        self.entries = kept;
        r
    }
}

/// The frames owed for resend over the inclusive range `[lo, hi]` of
/// datagram sequence numbers: for each tracked number, its frames, in
/// ascending order, each exactly once.
pub open spec fn spec_resend_frames(es: Seq<RecoveryEntry>, lo: int, hi: int) -> Seq<Seq<Seq<u8>>>
    decreases hi - lo + 1,
{
    if lo > hi {
        Seq::empty()
    } else {
        (if rq_has(es, lo as u32) {
            seq![rq_frames(es, lo as u32)]
        } else {
            Seq::empty()
        }) + spec_resend_frames(es, lo + 1, hi)
    }
}

/// Extending the range by its top number appends that number's frames.
pub proof fn lemma_resend_frames_snoc(es: Seq<RecoveryEntry>, lo: int, hi: int)
    requires
        lo <= hi,
    ensures
        spec_resend_frames(es, lo, hi) == spec_resend_frames(es, lo, hi - 1) + (if rq_has(
            es,
            hi as u32,
        ) {
            seq![rq_frames(es, hi as u32)]
        } else {
            Seq::<Seq<Seq<u8>>>::empty()
        }),
    decreases hi - lo,
{
    let tail = if rq_has(es, hi as u32) {
        seq![rq_frames(es, hi as u32)]
    } else {
        Seq::<Seq<Seq<u8>>>::empty()
    };
    if lo == hi {
        assert(spec_resend_frames(es, lo, hi - 1) == Seq::<Seq<Seq<u8>>>::empty());
        assert(spec_resend_frames(es, lo + 1, hi) == Seq::<Seq<Seq<u8>>>::empty());
        assert(spec_resend_frames(es, lo, hi) =~= spec_resend_frames(es, lo, hi - 1) + tail);
    } else {
        lemma_resend_frames_snoc(es, lo + 1, hi);
        let head = if rq_has(es, lo as u32) {
            seq![rq_frames(es, lo as u32)]
        } else {
            Seq::<Seq<Seq<u8>>>::empty()
        };
        assert(spec_resend_frames(es, lo, hi) == head + spec_resend_frames(es, lo + 1, hi));
        assert(spec_resend_frames(es, lo, hi - 1) == head + spec_resend_frames(es, lo + 1, hi - 1));
        assert(head + (spec_resend_frames(es, lo + 1, hi - 1) + tail) =~= (head
            + spec_resend_frames(es, lo + 1, hi - 1)) + tail);
    }
}

} // verus!
