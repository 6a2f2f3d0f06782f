//! Utilities of the transport: the wrapping sequence generators that stamp
//! outgoing frames and datagrams, and a time-keyed cache of buffers.

use vstd::prelude::*;

verus! {

/// A monotonically increasing counter that wraps to zero on overflow.
/// Wraparound is an expected event: index comparison elsewhere treats the
/// counter space as circular.
#[derive(Debug, Clone)]
pub struct SafeGenerator<T> {
    pub sequence: T,
}

impl SafeGenerator<u8> {
    pub fn new() -> (r: Self)
        ensures
            r.sequence == 0u8,
    {
        Self { sequence: 0u8 }
    }

    pub fn next(&mut self) -> (r: u8)
        ensures
            final(self).sequence == (if old(self).sequence == 0xffu8 {
                0u8
            } else {
                (old(self).sequence + 1) as u8
            }),
            r == final(self).sequence,
    {
        self.sequence = if self.sequence == 0xffu8 {
            0u8
        } else {
            self.sequence + 1
        };
        self.sequence
    }

    pub fn get(&self) -> (r: u8)
        ensures
            r == self.sequence,
    {
        self.sequence
    }
}

impl SafeGenerator<u16> {
    pub fn new() -> (r: Self)
        ensures
            r.sequence == 0u16,
    {
        Self { sequence: 0u16 }
    }

    pub fn next(&mut self) -> (r: u16)
        ensures
            final(self).sequence == (if old(self).sequence == 0xffffu16 {
                0u16
            } else {
                (old(self).sequence + 1) as u16
            }),
            r == final(self).sequence,
    {
        self.sequence = if self.sequence == 0xffffu16 {
            0u16
        } else {
            self.sequence + 1
        };
        self.sequence
    }

    pub fn get(&self) -> (r: u16)
        ensures
            r == self.sequence,
    {
        self.sequence
    }
}

impl SafeGenerator<u32> {
    pub fn new() -> (r: Self)
        ensures
            r.sequence == 0u32,
    {
        Self { sequence: 0u32 }
    }

    pub fn next(&mut self) -> (r: u32)
        ensures
            final(self).sequence == (if old(self).sequence == 0xffff_ffffu32 {
                0u32
            } else {
                (old(self).sequence + 1) as u32
            }),
            r == final(self).sequence,
    {
        self.sequence = if self.sequence == 0xffff_ffffu32 {
            0u32
        } else {
            self.sequence + 1
        };
        self.sequence
    }

    pub fn get(&self) -> (r: u32)
        ensures
            r == self.sequence,
    {
        self.sequence
    }
}

impl SafeGenerator<u64> {
    pub fn new() -> (r: Self)
        ensures
            r.sequence == 0u64,
    {
        Self { sequence: 0u64 }
    }

    pub fn next(&mut self) -> (r: u64)
        ensures
            final(self).sequence == (if old(self).sequence == 0xffff_ffff_ffff_ffffu64 {
                0u64
            } else {
                (old(self).sequence + 1) as u64
            }),
            r == final(self).sequence,
    {
        self.sequence = if self.sequence == 0xffff_ffff_ffff_ffffu64 {
            0u64
        } else {
            self.sequence + 1
        };
        self.sequence
    }

    pub fn get(&self) -> (r: u64)
        ensures
            r == self.sequence,
    {
        self.sequence
    }
}

impl SafeGenerator<u128> {
    pub fn new() -> (r: Self)
        ensures
            r.sequence == 0u128,
    {
        Self { sequence: 0u128 }
    }

    pub fn next(&mut self) -> (r: u128)
        ensures
            final(self).sequence == (if old(self).sequence == u128::MAX {
                0u128
            } else {
                (old(self).sequence + 1) as u128
            }),
            r == final(self).sequence,
    {
        self.sequence = if self.sequence == u128::MAX {
            0u128
        } else {
            self.sequence + 1
        };
        self.sequence
    }

    pub fn get(&self) -> (r: u128)
        ensures
            r == self.sequence,
    {
        self.sequence
    }
}

impl SafeGenerator<usize> {
    pub fn new() -> (r: Self)
        ensures
            r.sequence == 0usize,
    {
        Self { sequence: 0usize }
    }

    pub fn next(&mut self) -> (r: usize)
        ensures
            final(self).sequence == (if old(self).sequence == usize::MAX {
                0usize
            } else {
                (old(self).sequence + 1) as usize
            }),
            r == final(self).sequence,
    {
        self.sequence = if self.sequence == usize::MAX {
            0usize
        } else {
            self.sequence + 1
        };
        self.sequence
    }

    pub fn get(&self) -> (r: usize)
        ensures
            r == self.sequence,
    {
        self.sequence
    }
}

/// One entry of the cache: a key, the moment it was first added, and the
/// buffers accumulated under it.
pub struct CacheEntry {
    pub key: u64,
    pub time: u64,
    pub buffers: Vec<Vec<u8>>,
}

/// The mathematical content of a cache entry.
#[verifier::ext_equal]
pub struct CacheEntryView {
    pub key: u64,
    pub time: u64,
    pub buffers: Seq<Seq<u8>>,
}

/// A time-keyed store of byte buffers grouped under a sequence key. The clock
/// is supplied by the caller, keeping the store deterministic. Superseded for
/// resend tracking by `recovery::RecoveryQueue`; kept for callers that want a
/// plain keyed buffer cache.
pub struct CacheStore {
    pub(crate) entries: Vec<CacheEntry>,
}

impl View for CacheStore {
    type V = Seq<CacheEntryView>;

    closed spec fn view(&self) -> Seq<CacheEntryView> {
        Seq::new(
            self.entries@.len(),
            |i: int|
                CacheEntryView {
                    key: self.entries@[i].key,
                    time: self.entries@[i].time,
                    buffers: self.entries@[i].buffers.deep_view(),
                },
        )
    }
}

/// The exec triple `(key, stamp, buffers)` carries the content of `entry`.
pub open spec fn entry_matches(key: u64, time: u64, buffers: Seq<Seq<u8>>, entry: CacheEntryView) -> bool {
    key == entry.key && time == entry.time && buffers == entry.buffers
}

/// Every flushed triple `r[i]` carries the content of `orig[off + i]`.
pub open spec fn flushed_matches(
    r: Seq<(u64, u64, Vec<Vec<u8>>)>,
    orig: Seq<CacheEntryView>,
    off: int,
) -> bool {
    forall|i: int|
        0 <= i < r.len() ==> entry_matches(r[i].0, r[i].1, #[trigger] r[i].2.deep_view(), orig[off + i])
}

/// Every still-stored entry `entries[j]` carries the content of `orig[off + j]`.
pub open spec fn remaining_matches(
    entries: Seq<CacheEntry>,
    orig: Seq<CacheEntryView>,
    off: int,
) -> bool {
    forall|j: int|
        0 <= j < entries.len() ==> entry_matches(
            entries[j].key,
            entries[j].time,
            #[trigger] entries[j].buffers.deep_view(),
            orig[off + j],
        )
}

impl CacheStore {
    /// Keys are unique: each key owns at most one entry.
    pub open spec fn wf(&self) -> bool {
        forall|i: int, j: int|
            0 <= i < j < self@.len() ==> self@[i].key != self@[j].key
    }

    /// Whether some entry carries `key`.
    pub open spec fn spec_has(&self, key: u64) -> bool {
        exists|i: int| 0 <= i < self@.len() && self@[i].key == key
    }

    /// The index of the entry carrying `key` (meaningful only under
    /// `spec_has`; unique under `wf`).
    pub open spec fn spec_idx(&self, key: u64) -> int {
        choose|i: int| 0 <= i < self@.len() && self@[i].key == key
    }

    pub fn new() -> (r: Self)
        ensures
            r@.len() == 0,
            r.wf(),
    {
        Self { entries: Vec::new() }
    }

    /// Finds the position of `key` among the entries.
    fn find(&self, key: u64) -> (r: Option<usize>)
        ensures
            match r {
                Some(i) => i < self@.len() && self@[i as int].key == key,
                None => !self.spec_has(key),
            },
    {
        let mut i: usize = 0;
        while i < self.entries.len()
            invariant
                i <= self.entries@.len(),
                self@.len() == self.entries@.len(),
                forall|j: int| 0 <= j < i ==> self@[j].key != key,
                forall|j: int| 0 <= j < self@.len() ==> self@[j].key == self.entries@[j].key,
            decreases self.entries@.len() - i,
        {
            if self.entries[i].key == key {
                return Some(i);
            }
            i = i + 1;
        }
        None
    }

    /// Appends `buffer` under `sequence`; a fresh key opens a new entry
    /// stamped `now`, an existing key keeps its original stamp.
    pub fn add(&mut self, sequence: u64, buffer: Vec<u8>, now: u64)
        requires
            old(self).wf(),
        ensures
            final(self).wf(),
            old(self).spec_has(sequence) ==> final(self)@ == old(self)@.update(
                old(self).spec_idx(sequence),
                CacheEntryView {
                    key: sequence,
                    time: old(self)@[old(self).spec_idx(sequence)].time,
                    buffers: old(self)@[old(self).spec_idx(sequence)].buffers.push(buffer@),
                },
            ),
            !old(self).spec_has(sequence) ==> final(self)@ == old(self)@.push(
                CacheEntryView { key: sequence, time: now, buffers: seq![buffer@] },
            ),
    {
        match self.find(sequence) {
            Some(i) => {
                let ghost b = buffer@;
                let mut e = self.entries.remove(i);
                e.buffers.push(buffer);
                proof {
                    assert(buffer.deep_view() =~= b);
                    assert(e.buffers.deep_view() =~~= old(self)@[i as int].buffers.push(b));
                }
                self.entries.insert(i, e);
                proof {
                    let gi = old(self).spec_idx(sequence);
                    assert(old(self)@[gi].key == sequence);
                    assert(gi == i);
                    assert(self@ =~~= old(self)@.update(
                        i as int,
                        CacheEntryView {
                            key: sequence,
                            time: old(self)@[i as int].time,
                            buffers: old(self)@[i as int].buffers.push(b),
                        },
                    ));
                }
            },
            None => {
                let ghost b = buffer@;
                let mut buffers: Vec<Vec<u8>> = Vec::new();
                buffers.push(buffer);
                self.entries.push(CacheEntry { key: sequence, time: now, buffers });
                proof {
                    assert(self@ =~~= old(self)@.push(
                        CacheEntryView { key: sequence, time: now, buffers: seq![b] },
                    ));
                }
            },
        }
    }

    /// Appends every buffer of `buffers` under `sequence`, as `add` does.
    #[verifier::loop_isolation(false)]
    pub fn add_bulk(&mut self, sequence: u64, buffers: Vec<Vec<u8>>, now: u64)
        requires
            old(self).wf(),
        ensures
            final(self).wf(),
            old(self).spec_has(sequence) ==> final(self)@ == old(self)@.update(
                old(self).spec_idx(sequence),
                CacheEntryView {
                    key: sequence,
                    time: old(self)@[old(self).spec_idx(sequence)].time,
                    buffers: old(self)@[old(self).spec_idx(sequence)].buffers + buffers.deep_view(),
                },
            ),
            !old(self).spec_has(sequence) ==> final(self)@ == old(self)@.push(
                CacheEntryView { key: sequence, time: now, buffers: buffers.deep_view() },
            ),
    {
        match self.find(sequence) {
            Some(i) => {
                let ghost bs = buffers.deep_view();
                let mut rest = buffers;
                let mut e = self.entries.remove(i);
                let ghost e0 = e;
                let ghost target = old(self)@[i as int].buffers + bs;
                while rest.len() > 0
                    invariant
                        e.key == e0.key,
                        e.time == e0.time,
                        e.buffers.deep_view() + rest.deep_view() == target,
                    decreases rest@.len(),
                {
                    let b = rest.remove(0);
                    e.buffers.push(b);
                    proof {
                        assert(e.buffers.deep_view() + rest.deep_view() =~~= target);
                    }
                }
                proof {
                    assert(e.buffers.deep_view() =~~= target);
                }
                self.entries.insert(i, e);
                proof {
                    let gi = old(self).spec_idx(sequence);
                    assert(old(self)@[gi].key == sequence);
                    assert(gi == i);
                    assert(self@ =~~= old(self)@.update(
                        i as int,
                        CacheEntryView {
                            key: sequence,
                            time: old(self)@[i as int].time,
                            buffers: old(self)@[i as int].buffers + bs,
                        },
                    ));
                }
            },
            None => {
                let ghost bs = buffers.deep_view();
                self.entries.push(CacheEntry { key: sequence, time: now, buffers });
                proof {
                    assert(self@ =~~= old(self)@.push(
                        CacheEntryView { key: sequence, time: now, buffers: bs },
                    ));
                }
            },
        }
    }

    /// Empties the store, returning every entry as `(key, stamp, buffers)` in
    /// store order.
    #[verifier::loop_isolation(false)]
    pub fn flush(&mut self) -> (r: Vec<(u64, u64, Vec<Vec<u8>>)>)
        ensures
            final(self)@.len() == 0,
            r@.len() == old(self)@.len(),
            flushed_matches(r@, old(self)@, 0),
    {
        let mut r: Vec<(u64, u64, Vec<Vec<u8>>)> = Vec::new();
        while self.entries.len() > 0
            invariant
                r@.len() + self.entries@.len() == old(self)@.len(),
                flushed_matches(r@, old(self)@, 0),
                remaining_matches(self.entries@, old(self)@, r@.len() as int),
            decreases self.entries@.len(),
        {
            let ghost pre = self.entries@;
            let ghost pre_r = r@;
            let ghost rk = r@.len() as int;
            let e = self.entries.remove(0);
            r.push((e.key, e.time, e.buffers));
            proof {
                assert forall|j: int|
                    0 <= j < self.entries@.len() implies entry_matches(
                    self.entries@[j].key,
                    self.entries@[j].time,
                    #[trigger] self.entries@[j].buffers.deep_view(),
                    old(self)@[r@.len() + j],
                ) by {
                    assert(self.entries@[j] == pre[j + 1]);
                    assert(entry_matches(
                        pre[j + 1].key,
                        pre[j + 1].time,
                        pre[j + 1].buffers.deep_view(),
                        old(self)@[rk + j + 1],
                    ));
                }
                assert forall|i: int|
                    0 <= i < r@.len() implies entry_matches(
                    r@[i].0,
                    r@[i].1,
                    #[trigger] r@[i].2.deep_view(),
                    old(self)@[i],
                ) by {
                    if i == rk {
                        assert(e == pre[0]);
                        assert(entry_matches(
                            pre[0].key,
                            pre[0].time,
                            pre[0].buffers.deep_view(),
                            old(self)@[rk],
                        ));
                        assert(r@[i] == (e.key, e.time, e.buffers));
                    } else {
                        assert(r@[i] == pre_r[i]);
                        assert(entry_matches(
                            pre_r[i].0,
                            pre_r[i].1,
                            pre_r[i].2.deep_view(),
                            old(self)@[i],
                        ));
                    }
                }
            }
        }
        r
    }

    /// Removes and returns the entry under `key`, if any.
    pub fn flush_key(&mut self, key: u64) -> (r: Option<(u64, Vec<Vec<u8>>)>)
        requires
            old(self).wf(),
        ensures
            final(self).wf(),
            match r {
                Some(p) => old(self).spec_has(key) && p.0 == old(self)@[old(self).spec_idx(key)].time
                    && p.1.deep_view() == old(self)@[old(self).spec_idx(key)].buffers
                    && final(self)@ == old(self)@.remove(old(self).spec_idx(key)),
                None => !old(self).spec_has(key) && final(self)@ == old(self)@,
            },
    {
        match self.find(key) {
            Some(i) => {
                let e = self.entries.remove(i);
                proof {
                    let gi = old(self).spec_idx(key);
                    assert(gi == i);
                    assert(self@ =~~= old(self)@.remove(i as int));
                }
                Some((e.time, e.buffers))
            },
            None => {
                proof {
                    assert(self@ =~~= old(self)@);
                }
                None
            },
        }
    }

    /// Whether an entry stands under `key`.
    pub fn has(&self, key: &u64) -> (r: bool)
        ensures
            r == self.spec_has(*key),
    {
        match self.find(*key) {
            Some(_) => true,
            None => false,
        }
    }
}

} // verus!
